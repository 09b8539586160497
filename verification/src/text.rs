//! Tests on strings, character by character.

use vstd::prelude::*;
use vstd::std_specs::iter::IteratorSpec;

verus! {

/// The first two characters of `s`, as far as it has them.
pub fn first_two(s: &str) -> (r: (Option<char>, Option<char>))
    ensures
        r.0 == (if s@.len() > 0 {
            Some(s@[0])
        } else {
            None
        }),
        r.1 == (if s@.len() > 1 {
            Some(s@[1])
        } else {
            None
        }),
{
    broadcast use vstd::string::group_string_axioms;

    let mut chars = s.chars();
    let first = chars.next();
    let second = chars.next();
    (first, second)
}

/// Whether `s` begins with `prefix`.
pub fn starts_with(s: &str, prefix: &str) -> (b: bool)
    ensures
        b == prefix@.is_prefix_of(s@),
{
    broadcast use vstd::string::group_string_axioms;

    let mut rest = s.chars();
    let mut wanted = prefix.chars();
    let ghost mut n: int = 0;
    loop
        invariant
            0 <= n <= s@.len(),
            n <= prefix@.len(),
            rest.remaining() == s@.skip(n),
            wanted.remaining() == prefix@.skip(n),
            s@.subrange(0, n) == prefix@.subrange(0, n),
        decreases prefix@.len() - n,
    {
        match wanted.next() {
            None => {
                return true;
            },
            Some(w) => {
                assert(w == prefix@[n]);
                match rest.next() {
                    None => {
                        return false;
                    },
                    Some(c) => {
                        assert(c == s@[n]);
                        if c != w {
                            proof {
                                if prefix@.len() <= s@.len() {
                                    assert(s@.subrange(0, prefix@.len() as int)[n] == s@[n]);
                                }
                            }
                            return false;
                        }
                    },
                }
            },
        }
        proof {
            assert(s@.subrange(0, n + 1) == s@.subrange(0, n).push(s@[n]));
            assert(prefix@.subrange(0, n + 1) == prefix@.subrange(0, n).push(prefix@[n]));
            assert(s@.skip(n).drop_first() == s@.skip(n + 1));
            assert(prefix@.skip(n).drop_first() == prefix@.skip(n + 1));
            n = n + 1;
        }
    }
}

/// Whether `a` and `b` hold the same characters.
pub fn same_text(a: &str, b: &str) -> (r: bool)
    ensures
        r == (a@ == b@),
{
    broadcast use vstd::string::group_string_axioms;

    let mut left = a.chars();
    let mut right = b.chars();
    let ghost mut n: int = 0;
    loop
        invariant
            0 <= n <= a@.len(),
            n <= b@.len(),
            left.remaining() == a@.skip(n),
            right.remaining() == b@.skip(n),
            a@.subrange(0, n) == b@.subrange(0, n),
        decreases a@.len() - n,
    {
        match left.next() {
            None => {
                let at_end = right.next().is_none();
                proof {
                    if at_end {
                        assert(a@.subrange(0, n) == a@);
                        assert(b@.subrange(0, n) == b@);
                    }
                }
                return at_end;
            },
            Some(c) => {
                assert(c == a@[n]);
                match right.next() {
                    None => {
                        return false;
                    },
                    Some(d) => {
                        assert(d == b@[n]);
                        if c != d {
                            return false;
                        }
                    },
                }
            },
        }
        proof {
            assert(a@.subrange(0, n + 1) == a@.subrange(0, n).push(a@[n]));
            assert(b@.subrange(0, n + 1) == b@.subrange(0, n).push(b@[n]));
            assert(a@.skip(n).drop_first() == a@.skip(n + 1));
            assert(b@.skip(n).drop_first() == b@.skip(n + 1));
            n = n + 1;
        }
    }
}

/// Whether `s` ends with the character `c`.
pub fn ends_with_char(s: &str, c: char) -> (b: bool)
    ensures
        b == (s@.len() > 0 && s@.last() == c),
{
    broadcast use vstd::string::group_string_axioms;

    let mut rest = s.chars();
    let mut last: Option<char> = None;
    let ghost mut n: int = 0;
    loop
        invariant
            0 <= n <= s@.len(),
            rest.remaining() == s@.skip(n),
            last == (if n > 0 {
                Some(s@[n - 1])
            } else {
                None
            }),
        decreases s@.len() - n,
    {
        match rest.next() {
            None => {
                return match last {
                    Some(d) => d == c,
                    None => false,
                };
            },
            Some(d) => {
                assert(d == s@[n]);
                last = Some(d);
            },
        }
        proof {
            assert(s@.skip(n).drop_first() == s@.skip(n + 1));
            n = n + 1;
        }
    }
}

} // verus!
