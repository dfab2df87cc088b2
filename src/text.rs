//! Character-level predicates on lines of playlist text.
use vstd::prelude::*;
use vstd::std_specs::iter::IteratorSpec;

verus! {

broadcast use {vstd::string::axiom_spec_iter, vstd::string::next_postcondition};

/// The characters that carry Unicode's White_Space property.
pub open spec fn is_white(c: char) -> bool {
    ('\u{9}' <= c && c <= '\u{d}') || c == ' ' || c == '\u{85}' || c == '\u{a0}' || c
        == '\u{1680}' || ('\u{2000}' <= c && c <= '\u{200a}') || c == '\u{2028}' || c
        == '\u{2029}' || c == '\u{202f}' || c == '\u{205f}' || c == '\u{3000}'
}

/// A line that is empty or made of white space only.
pub open spec fn is_blank(s: Seq<char>) -> bool {
    forall|i: int| 0 <= i < s.len() ==> #[trigger] is_white(s[i])
}

/// `s` begins with the characters of `p`.
pub open spec fn has_prefix(s: Seq<char>, p: Seq<char>) -> bool {
    p.len() <= s.len() && s.subrange(0, p.len() as int) =~= p
}

/// Relies on `char::is_whitespace`: true exactly for the White_Space characters.
#[verifier::external_body]
fn white(c: char) -> (r: bool)
    ensures
        r == is_white(c),
{
    c.is_whitespace()
}

/// Whether a line is empty or white space only.
pub fn blank(s: &str) -> (r: bool)
    ensures
        r == is_blank(s@),
{
    let mut it = s.chars();
    let ghost mut k: int = 0;
    loop
        invariant
            0 <= k <= s@.len(),
            it.remaining() == s@.subrange(k, s@.len() as int),
            forall|i: int| 0 <= i < k ==> #[trigger] is_white(s@[i]),
        decreases s@.len() - k,
    {
        match it.next() {
            None => {
                return true;
            },
            Some(c) => {
                if !white(c) {
                    assert(s@[k] == c);
                    return false;
                }
                proof {
                    k = k + 1;
                }
            },
        }
    }
}

/// Whether `s` begins with `p`.
pub fn starts_with(s: &str, p: &str) -> (r: bool)
    ensures
        r == has_prefix(s@, p@),
{
    let mut is = s.chars();
    let mut ip = p.chars();
    let ghost mut k: int = 0;
    loop
        invariant
            0 <= k <= p@.len(),
            k <= s@.len(),
            is.remaining() == s@.subrange(k, s@.len() as int),
            ip.remaining() == p@.subrange(k, p@.len() as int),
            s@.subrange(0, k) =~= p@.subrange(0, k),
        decreases p@.len() - k,
    {
        match ip.next() {
            None => {
                assert(p@.subrange(0, k) =~= p@);
                return true;
            },
            Some(c) => {
                match is.next() {
                    None => {
                        return false;
                    },
                    Some(d) => {
                        if c != d {
                            proof {
                                if p@.len() <= s@.len() {
                                    assert(s@.subrange(0, p@.len() as int)[k] == s@[k]);
                                }
                            }
                            return false;
                        }
                        proof {
                            assert(s@.subrange(0, k + 1) =~= s@.subrange(0, k).push(d));
                            assert(p@.subrange(0, k + 1) =~= p@.subrange(0, k).push(c));
                            k = k + 1;
                        }
                    },
                }
            },
        }
    }
}


/// Relies on `String::push`: appends the one character.
pub assume_specification[ String::push ](s: &mut String, ch: char)
    ensures
        final(s)@ == old(s)@.push(ch),
;

/// A line's text without the carriage return that ended it, if one did.
pub open spec fn strip_cr(s: Seq<char>) -> Seq<char> {
    if s.len() > 0 && s.last() == '\r' {
        s.drop_last()
    } else {
        s
    }
}

/// The lines ended so far and the characters of the line still open.
pub type SplitState = (Seq<Seq<char>>, Seq<char>);

/// Reading one character: a line feed ends the open line.
pub open spec fn split_step(st: SplitState, c: char) -> SplitState {
    if c == '\n' {
        (st.0.push(strip_cr(st.1)), Seq::empty())
    } else {
        (st.0, st.1.push(c))
    }
}

pub open spec fn split_run(t: Seq<char>) -> SplitState
    decreases t.len(),
{
    if t.len() == 0 {
        (Seq::empty(), Seq::empty())
    } else {
        split_step(split_run(t.drop_last()), t.last())
    }
}

/// The lines of a text: split at each line feed, a carriage return just
/// before the line feed dropped, and a last line kept only if it is not empty.
pub open spec fn lines_of(t: Seq<char>) -> Seq<Seq<char>> {
    let st = split_run(t);
    if st.1.len() == 0 {
        st.0
    } else {
        st.0.push(st.1)
    }
}

/// The lines of a text; see `lines_of`.
pub fn split_lines(t: &str) -> (r: Vec<String>)
    ensures
        r@.map_values(|s: String| s@) == lines_of(t@),
{
    let mut out: Vec<String> = Vec::new();
    let mut cur = String::new();
    let mut cr = false;
    let mut it = t.chars();
    let ghost mut k: int = 0;
    loop
        invariant
            0 <= k <= t@.len(),
            it.remaining() == t@.subrange(k, t@.len() as int),
            out@.map_values(|s: String| s@) == split_run(t@.subrange(0, k)).0,
            (if cr {
                cur@.push('\r')
            } else {
                cur@
            }) == split_run(t@.subrange(0, k)).1,
            !cr ==> cur@.len() == 0 || cur@.last() != '\r',
        decreases t@.len() - k,
    {
        let ghost pre = t@.subrange(0, k);
        match it.next() {
            None => {
                assert(t@.subrange(0, k) =~= t@);
                if cr {
                    cur.push('\r');
                }
                if !cur.as_str().is_empty() {
                    let ghost prev = out@;
                    out.push(cur);
                    assert(out@.map_values(|s: String| s@) =~= prev.map_values(|s: String| s@).push(
                        out@.last()@,
                    ));
                }
                return out;
            },
            Some(c) => {
                assert(t@.subrange(0, k + 1).drop_last() =~= pre);
                assert(t@[k] == c);
                assert(split_run(t@.subrange(0, k + 1)) == split_step(split_run(pre), c));
                if c == '\n' {
                    let ghost prev = out@;
                    proof {
                        if cr {
                            assert(cur@.push('\r').drop_last() =~= cur@);
                        }
                        assert(strip_cr(split_run(pre).1) == cur@);
                    }
                    out.push(cur);
                    cur = String::new();
                    cr = false;
                    assert(out@.map_values(|s: String| s@) =~= prev.map_values(|s: String| s@).push(
                        out@.last()@,
                    ));
                } else {
                    if cr {
                        cur.push('\r');
                    }
                    if c == '\r' {
                        cr = true;
                    } else {
                        cur.push(c);
                        cr = false;
                    }
                }
                proof {
                    k = k + 1;
                }
            },
        }
    }
}

} // verus!
