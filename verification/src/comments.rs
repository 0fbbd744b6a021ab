//! Comment stripping: `//` line comments and possibly multi-line `/* */`
//! block comments are removed while every newline is preserved, so that
//! diagnostic line numbers stay aligned with the original text.

use crate::text::{chars_to_string, spec_find_char, find_char, str_to_chars};
use vstd::prelude::*;

verus! {

/// The text with comments removed, scanning from `i` in block-comment state
/// `in_block`. A `//` comment swallows everything up to and including the
/// next newline but emits that newline; an unterminated block comment
/// swallows the rest of the input except its newlines.
pub open spec fn spec_strip_from(s: Seq<char>, i: int, in_block: bool) -> Seq<char>
    decreases s.len() - i,
{
    if i < 0 || i >= s.len() {
        Seq::empty()
    } else if !in_block && s[i] == '/' {
        if i + 1 < s.len() && s[i + 1] == '/' {
            let e = spec_find_char(s, '\n', i + 2);
            if e < s.len() {
                seq!['\n'] + spec_strip_from(
                    s,
                    if e + 1 > i + 2 {
                        e + 1
                    } else {
                        i + 2
                    },
                    false,
                )
            } else {
                Seq::empty()
            }
        } else if i + 1 < s.len() && s[i + 1] == '*' {
            spec_strip_from(s, i + 2, true)
        } else {
            seq!['/'] + spec_strip_from(s, i + 1, false)
        }
    } else if in_block && s[i] == '*' {
        if i + 1 < s.len() && s[i + 1] == '/' {
            spec_strip_from(s, i + 2, false)
        } else {
            spec_strip_from(s, i + 1, true)
        }
    } else if !in_block {
        seq![s[i]] + spec_strip_from(s, i + 1, false)
    } else if s[i] == '\n' {
        seq!['\n'] + spec_strip_from(s, i + 1, true)
    } else {
        spec_strip_from(s, i + 1, true)
    }
}

/// The whole text with comments removed.
pub open spec fn spec_strip(s: Seq<char>) -> Seq<char> {
    spec_strip_from(s, 0, false)
}

#[verifier::loop_isolation(false)]
fn strip_chars(v: &Vec<char>) -> (r: Vec<char>)
    ensures
        r@ == spec_strip(v@),
{
    let ghost sv = v@;
    let mut out: Vec<char> = Vec::new();
    let mut i: usize = 0;
    let mut in_block = false;
    proof {
        assert(out@ + spec_strip_from(sv, 0, false) =~= spec_strip(sv));
    }
    while i < v.len()
        invariant
            i <= v.len(),
            out@ + spec_strip_from(sv, i as int, in_block) =~= spec_strip(sv),
        decreases v.len() - i,
    {
        let ghost before = out@;
        let c = v[i];
        if !in_block && c == '/' {
            if i + 1 < v.len() && v[i + 1] == '/' {
                let e = find_char(v, '\n', i + 2);
                if e < v.len() {
                    out.push('\n');
                    proof {
                        assert(out@ + spec_strip_from(sv, e + 1, false) =~= before
                            + spec_strip_from(sv, i as int, in_block));
                    }
                    i = e + 1;
                } else {
                    proof {
                        assert(out@ + Seq::<char>::empty() =~= before + spec_strip_from(
                            sv,
                            i as int,
                            in_block,
                        ));
                    }
                    i = v.len();
                }
            } else if i + 1 < v.len() && v[i + 1] == '*' {
                in_block = true;
                i = i + 2;
            } else {
                out.push('/');
                proof {
                    assert(out@ + spec_strip_from(sv, i + 1, false) =~= before + spec_strip_from(
                        sv,
                        i as int,
                        false,
                    ));
                }
                i = i + 1;
            }
        } else if in_block && c == '*' {
            if i + 1 < v.len() && v[i + 1] == '/' {
                in_block = false;
                i = i + 2;
            } else {
                i = i + 1;
            }
        } else if !in_block {
            out.push(c);
            proof {
                assert(out@ + spec_strip_from(sv, i + 1, false) =~= before + spec_strip_from(
                    sv,
                    i as int,
                    false,
                ));
            }
            i = i + 1;
        } else {
            if c == '\n' {
                out.push('\n');
                proof {
                    assert(out@ + spec_strip_from(sv, i + 1, true) =~= before + spec_strip_from(
                        sv,
                        i as int,
                        true,
                    ));
                }
            }
            i = i + 1;
        }
    }
    proof {
        assert(spec_strip_from(sv, i as int, in_block) =~= Seq::<char>::empty());
        assert(out@ + Seq::<char>::empty() =~= out@);
    }
    out
}

/// Remove `//` and `/* */` comments from the whole input, preserving every
/// newline so the text keeps exactly as many lines as before.
pub fn remove_comments_multiline(input: &str) -> (r: String)
    ensures
        r@ == spec_strip(input@),
{
    let v = str_to_chars(input);
    let stripped = strip_chars(&v);
    chars_to_string(&stripped)
}

/// A line with one trailing carriage return removed, as `str::lines` does.
pub open spec fn spec_strip_cr(t: Seq<char>) -> Seq<char> {
    if t.len() > 0 && t[t.len() - 1] == '\r' {
        t.drop_last()
    } else {
        t
    }
}

/// The lines of `s` from position `pos`, split at newlines, with no trailing
/// empty line for a trailing newline, as `str::lines` yields them.
pub open spec fn spec_lines_from(s: Seq<char>, pos: int) -> Seq<Seq<char>>
    decreases s.len() - pos,
{
    if pos < 0 || pos >= s.len() {
        Seq::empty()
    } else {
        let e = spec_find_char(s, '\n', pos);
        if e >= s.len() {
            seq![spec_strip_cr(s.subrange(pos, s.len() as int))]
        } else {
            seq![spec_strip_cr(s.subrange(pos, e))] + spec_lines_from(
                s,
                if e + 1 > pos {
                    e + 1
                } else {
                    pos + 1
                },
            )
        }
    }
}

pub open spec fn spec_lines(s: Seq<char>) -> Seq<Seq<char>> {
    spec_lines_from(s, 0)
}

#[verifier::loop_isolation(false)]
fn copy_range_strip_cr(v: &Vec<char>, from: usize, to: usize) -> (r: Vec<char>)
    requires
        from <= to <= v.len(),
    ensures
        r@ == spec_strip_cr(v@.subrange(from as int, to as int)),
{
    let end = if to > from && v[to - 1] == '\r' {
        to - 1
    } else {
        to
    };
    let mut r: Vec<char> = Vec::new();
    let mut x = from;
    while x < end
        invariant
            from <= x <= end,
            r@ == v@.subrange(from as int, x as int),
        decreases end - x,
    {
        r.push(v[x]);
        proof {
            assert(r@ =~= v@.subrange(from as int, x as int + 1));
        }
        x = x + 1;
    }
    proof {
        if to > from && v@[to - 1] == '\r' {
            assert(r@ =~= v@.subrange(from as int, to as int).drop_last());
        } else {
            assert(r@ =~= v@.subrange(from as int, to as int));
        }
    }
    r
}

/// Split into lines the way `str::lines` does.
#[verifier::loop_isolation(false)]
pub fn split_lines(v: &Vec<char>) -> (r: Vec<Vec<char>>)
    ensures
        r@.map_values(|l: Vec<char>| l@) =~= spec_lines(v@),
{
    let ghost sv = v@;
    let mut out: Vec<Vec<char>> = Vec::new();
    let mut pos: usize = 0;
    proof {
        assert(out@.map_values(|l: Vec<char>| l@) + spec_lines_from(sv, 0) =~= spec_lines(sv));
    }
    while pos < v.len()
        invariant
            pos <= v.len(),
            out@.map_values(|l: Vec<char>| l@) + spec_lines_from(sv, pos as int) =~= spec_lines(
                sv,
            ),
        decreases v.len() - pos,
    {
        let ghost before = out@;
        let e = find_char(v, '\n', pos);
        if e >= v.len() {
            let line = copy_range_strip_cr(v, pos, v.len());
            out.push(line);
            proof {
                assert(out@.map_values(|l: Vec<char>| l@) =~= before.map_values(
                    |l: Vec<char>| l@,
                ).push(spec_strip_cr(sv.subrange(pos as int, sv.len() as int))));
                assert(out@.map_values(|l: Vec<char>| l@) + spec_lines_from(sv, sv.len() as int)
                    =~= spec_lines(sv));
            }
            pos = v.len();
        } else {
            let line = copy_range_strip_cr(v, pos, e);
            out.push(line);
            proof {
                assert(out@.map_values(|l: Vec<char>| l@) =~= before.map_values(
                    |l: Vec<char>| l@,
                ).push(spec_strip_cr(sv.subrange(pos as int, e as int))));
                assert(out@.map_values(|l: Vec<char>| l@) + spec_lines_from(sv, e + 1)
                    =~= spec_lines(sv));
            }
            pos = e + 1;
        }
    }
    proof {
        assert(spec_lines_from(sv, pos as int) =~= Seq::<Seq<char>>::empty());
        assert(out@.map_values(|l: Vec<char>| l@) + Seq::<Seq<char>>::empty() =~= out@.map_values(
            |l: Vec<char>| l@,
        ));
    }
    out
}

} // verus!
