//! One error type for the whole crate.
//!
//! Every parser in `stranger` reports position, because a lockfile that fails
//! to parse is useless feedback without one — "expected ':' at 812:14" is a
//! line you can open, "invalid JSON" is not.
use crate::text;
use vstd::prelude::*;

verus! {

/// `std::io::Error`, carried through as the cause of an `Error::Io`.
#[verifier::external_type_specification]
#[verifier::external_body]
pub struct ExIoError(std::io::Error);

#[derive(Debug)]
#[allow(inconsistent_fields)]
pub enum Error {
    /// A parser rejected its input. Line and column are 1-based, and the
    /// column counts characters rather than bytes.
    Syntax { what: String, line: u32, col: u32 },
    /// A syntax error, told which file it came from.
    InFile { path: String, source: Box<Error> },
    /// A file we were asked to read could not be read.
    Io { path: String, source: std::io::Error },
    /// The command line did not make sense. Exits 2, never 1.
    Usage(String),
}

pub type Result<T> = core::result::Result<T, Error>;

/// The text of an I/O error, as its `Display` writes it.
///
/// A wrapper around `std::io::Error`'s `Display`; what the text says is the
/// operating system's business, so the contract states nothing about it.
#[verifier::external_body]
fn io_text(e: &std::io::Error) -> String {
    format!("{e}")
}

/// Some I/O error sits inside `e`.
pub open spec fn has_io(e: Error) -> bool
    decreases e,
{
    match e {
        Error::Io { .. } => true,
        Error::InFile { source, .. } => has_io(*source),
        _ => false,
    }
}

/// What `message` writes for `e`, as far as it is this crate's own text: all
/// of it for an error holding no I/O error, and everything before the
/// operating system's words for one that does.
pub open spec fn message_of(e: Error) -> Seq<char>
    decreases e,
{
    match e {
        Error::Syntax { what, line, col } => what@ + " at "@ + text::decimal(line as nat) + ":"@
            + text::decimal(col as nat),
        Error::InFile { path, source } => path@ + ": "@ + message_of(*source),
        Error::Io { path, .. } => path@ + ": "@,
        Error::Usage(m) => m@,
    }
}

impl Error {
    pub fn io(path: &str, source: std::io::Error) -> (e: Error)
        ensures
            e matches Error::Io { path: p, source: s } && p@ == path@ && s == source,
    {
        Error::Io { path: text::owned(path), source }
    }

    pub fn usage(msg: &str) -> (e: Error)
        ensures
            e matches Error::Usage(m) && m@ == msg@,
    {
        Error::Usage(text::owned(msg))
    }

    /// A syntax error at a position.
    pub fn syntax(what: &str, line: u32, col: u32) -> (e: Error)
        ensures
            e matches Error::Syntax { what: w, line: l, col: c } && w@ == what@ && l == line && c
                == col,
    {
        Error::Syntax { what: text::owned(what), line, col }
    }

    /// Name the file a syntax error came from. Only `Syntax` is wrapped: `Io`
    /// and `Usage` already lead with their own path.
    pub fn in_file(self, path: &str) -> (e: Error)
        ensures
            self is Syntax ==> (e matches Error::InFile { path: p, source: s } && p@ == path@
                && *s == self),
            !(self is Syntax) ==> e == self,
    {
        match self {
            Error::Syntax { .. } => Error::InFile { path: text::owned(path), source: Box::new(self) },
            already_named => already_named,
        }
    }

    /// The message, as `Display` would write it: `path: ` before the cause
    /// for an error told its file, and the operating system's own words after
    /// the path for an I/O error.
    pub fn message(&self) -> (s: String)
        ensures
            !has_io(*self) ==> s@ == message_of(*self),
            has_io(*self) ==> message_of(*self).is_prefix_of(s@),
        decreases self,
    {
        match self {
            Error::Syntax { what, line, col } => {
                let mut s = text::owned(what.as_str());
                text::append(&mut s, " at ");
                let l = text::decimal_of(*line as u64);
                text::append(&mut s, l.as_str());
                text::append(&mut s, ":");
                let c = text::decimal_of(*col as u64);
                text::append(&mut s, c.as_str());
                s
            },
            Error::InFile { path, source } => {
                let mut s = text::owned(path.as_str());
                text::append(&mut s, ": ");
                let inner = source.message();
                text::append(&mut s, inner.as_str());
                proof {
                    let head = path@ + ": "@;
                    let m = message_of(**source);
                    if has_io(**source) {
                        assert(m =~= inner@.subrange(0, m.len() as int));
                        assert((head + m) =~= (head + inner@).subrange(0, (head + m).len() as int));
                    }
                }
                s
            },
            Error::Io { path, source } => {
                let mut s = text::owned(path.as_str());
                text::append(&mut s, ": ");
                let inner = io_text(source);
                let ghost before = s@;
                text::append(&mut s, inner.as_str());
                proof {
                    assert(before =~= s@.subrange(0, before.len() as int));
                }
                s
            },
            Error::Usage(msg) => text::owned(msg.as_str()),
        }
    }
}

} // verus!
