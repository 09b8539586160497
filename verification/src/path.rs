//! Paths of the machine that built the module, and the URIs they become.

use crate::text::{ends_with_char, first_two, starts_with};
use std::borrow::Cow;
use vstd::prelude::*;
use vstd::string::{StrSliceExecFns, StringExecFns};

verus! {

/// Whether `c` is a letter of a drive: `A` to `Z` or `a` to `z`.
pub open spec fn is_drive_letter(c: char) -> bool {
    ('A' as u32 <= c as u32 <= 'Z' as u32) || ('a' as u32 <= c as u32 <= 'z' as u32)
}

/// Whether `p` is an absolute path: one that begins with `/` (Unix), with a
/// drive letter and `:` (Windows), or with two backslashes (Windows, UNC).
pub open spec fn absolute(p: Seq<char>) -> bool {
    p.len() > 0 && (p[0] == '/' || (is_drive_letter(p[0]) && p.len() > 1 && p[1] == ':') || (p[0]
        == '\\' && p.len() > 1 && p[1] == '\\'))
}

/// Whether `p` looks like a Unix path: it begins with `/`.
pub open spec fn unix_style(p: Seq<char>) -> bool {
    p.len() > 0 && p[0] == '/'
}

/// `p` with `separator` at its end, added if it is not there yet.
pub open spec fn with_separator(p: Seq<char>, separator: char) -> Seq<char> {
    if p.len() > 0 && p.last() == separator {
        p
    } else {
        p.push(separator)
    }
}

/// The path that `base` becomes when `segment` is pushed onto it: an absolute
/// segment replaces it; any other is appended behind exactly one separator,
/// `/` after a Unix path and `\` after any other.
pub open spec fn joined(base: Seq<char>, segment: Seq<char>) -> Seq<char> {
    if absolute(segment) {
        segment
    } else if unix_style(base) {
        with_separator(base, '/') + segment
    } else {
        with_separator(base, '\\') + segment
    }
}

/// The URI of the path `p`. Sources of the Rust toolchain, under `/rustc/`,
/// are on no disk: they are fetched from where they are hosted, by the commit
/// hash that follows the prefix. Any other path becomes a `file` URI.
pub open spec fn uri_of(p: Seq<char>) -> Seq<char> {
    if "/rustc/"@.is_prefix_of(p) {
        "https://raw.githubusercontent.com/rust-lang/rust/"@ + p.skip(7)
    } else if unix_style(p) {
        "file://"@ + p
    } else {
        "file:///"@ + p
    }
}

/// A path begins with the text `/` exactly if it looks like a Unix path.
pub proof fn lemma_slash_prefix(p: Seq<char>)
    ensures
        "/"@.is_prefix_of(p) == unix_style(p),
{
    reveal_strlit("/");
    if unix_style(p) {
        assert("/"@ =~= p.subrange(0, 1));
    }
    if "/"@.is_prefix_of(p) {
        assert(p.subrange(0, 1)[0] == p[0]);
    }
}

/// Whether `uri` is the URI of a source file: that of some absolute path.
pub open spec fn is_source_uri(uri: Seq<char>) -> bool {
    exists|p: Seq<char>| absolute(p) && uri == #[trigger] uri_of(p)
}

/// Whether `p` is an absolute path.
pub fn is_absolute(p: &str) -> (b: bool)
    ensures
        b == absolute(p@),
{
    let (first, second) = first_two(p);
    match first {
        None => false,
        Some(c) => {
            let code: u32 = c as u32;
            if c == '/' {
                true
            } else if (code >= 'A' as u32 && code <= 'Z' as u32) || (code >= 'a' as u32 && code
                <= 'z' as u32) {
                match second {
                    Some(d) => d == ':',
                    None => false,
                }
            } else if c == '\\' {
                match second {
                    Some(d) => d == '\\',
                    None => false,
                }
            } else {
                false
            }
        },
    }
}

/// What follows `prefix` in `p`, where `p` begins with it.
pub fn strip_prefix<'a>(p: &'a str, prefix: &str) -> (rest: Option<&'a str>)
    ensures
        match rest {
            Some(rest) => prefix@.is_prefix_of(p@) && rest@ == p@.skip(prefix@.len() as int),
            None => !prefix@.is_prefix_of(p@),
        },
{
    if starts_with(p, prefix) {
        let rest = p.substring_char(prefix.unicode_len(), p.unicode_len());
        assert(rest@ =~= p@.skip(prefix@.len() as int));
        Some(rest)
    } else {
        None
    }
}

/// An absolute path.
pub struct Path<'a>(Cow<'a, str>);

impl<'a> View for Path<'a> {
    type V = Seq<char>;

    closed spec fn view(&self) -> Seq<char> {
        self.0@
    }
}

/// A path stays absolute whatever is pushed onto it.
pub proof fn lemma_joined_absolute(base: Seq<char>, segment: Seq<char>)
    requires
        absolute(base),
    ensures
        absolute(joined(base, segment)),
{
    if !absolute(segment) {
        let separator = if unix_style(base) {
            '/'
        } else {
            '\\'
        };
        let front = with_separator(base, separator);
        let whole = front + segment;
        assert(whole[0] == base[0]);
        if base.len() > 1 {
            assert(whole[1] == base[1]);
        }
    }
}

impl<'a> Path<'a> {
    /// The buffer always holds an absolute path.
    #[verifier::type_invariant]
    spec fn is_absolute_path(self) -> bool {
        absolute(self.0@)
    }

    /// The path `s`, which is absolute.
    pub fn new(s: Cow<'a, str>) -> (path: Self)
        requires
            absolute(s@),
        ensures
            path@ == s@,
    {
        Path(s)
    }

    /// The path as a string slice.
    pub fn as_str(&self) -> (s: &str)
        ensures
            s@ == self@,
            absolute(s@),
    {
        proof {
            use_type_invariant(self);
        }
        match &self.0 {
            Cow::Borrowed(borrowed) => borrowed,
            Cow::Owned(owned) => owned.as_str(),
        }
    }

    /// Pushes a segment onto the path.
    pub fn push(&mut self, segment: Cow<'a, str>)
        ensures
            final(self)@ == joined(old(self)@, segment@),
            absolute(final(self)@),
    {
        proof {
            use_type_invariant(&*self);
            lemma_joined_absolute(self@, segment@);
        }
        let pushed: &str = match &segment {
            Cow::Borrowed(borrowed) => borrowed,
            Cow::Owned(owned) => owned.as_str(),
        };
        if is_absolute(pushed) {
            self.0 = segment;
        } else {
            let mut buffer: String = String::from_str(self.as_str());
            proof {
                lemma_slash_prefix(buffer@);
            }
            if starts_with(buffer.as_str(), "/") {
                if !ends_with_char(buffer.as_str(), '/') {
                    buffer.append("/");
                    proof {
                        reveal_strlit("/");
                        assert(buffer@ =~= old(self)@.push('/'));
                    }
                }
            } else {
                if !ends_with_char(buffer.as_str(), '\\') {
                    buffer.append("\\");
                    proof {
                        reveal_strlit("\\");
                        assert(buffer@ =~= old(self)@.push('\\'));
                    }
                }
            }
            buffer.append(pushed);
            self.0 = Cow::Owned(buffer);
        }
    }

    /// The same path, borrowed from this one.
    pub fn borrow(&self) -> (path: Path<'_>)
        ensures
            path@ == self@,
    {
        Path(Cow::Borrowed(self.as_str()))
    }

    /// The URI of the path.
    pub fn to_uri(&self) -> (uri: String)
        ensures
            uri@ == uri_of(self@),
            is_source_uri(uri@),
    {
        let path = self.as_str();
        proof {
            lemma_slash_prefix(path@);
        }
        let uri = match strip_prefix(path, "/rustc/") {
            Some(rest) => {
                proof {
                    reveal_strlit("/rustc/");
                }
                String::from_str("https://raw.githubusercontent.com/rust-lang/rust/").concat(rest)
            },
            None => if starts_with(path, "/") {
                String::from_str("file://").concat(path)
            } else {
                String::from_str("file:///").concat(path)
            },
        };
        proof {
            assert(absolute(self@) && uri@ == uri_of(self@));
        }
        uri
    }
}

} // verus!
