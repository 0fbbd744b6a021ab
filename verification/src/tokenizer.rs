//! The tokenizer: structural punctuation becomes singleton tokens, maximal
//! runs of other non-whitespace characters become word tokens, whitespace
//! separates nothing by itself and is dropped.

use crate::text::{chars_to_string, spec_is_ws, is_ws, str_to_chars};
use vstd::prelude::*;

verus! {

/// Is `c` one of the five structural punctuation characters?
pub open spec fn spec_is_punct(c: char) -> bool {
    c == '[' || c == ']' || c == '{' || c == '}' || c == ','
}

pub fn is_punct(c: char) -> (r: bool)
    ensures
        r == spec_is_punct(c),
{
    c == '[' || c == ']' || c == '{' || c == '}' || c == ','
}

/// The token list produced from position `i` on, with pending word buffer
/// `buf` and tokens `acc` already emitted: punctuation flushes the buffer
/// and stands alone, whitespace is skipped, anything else extends the
/// buffer, and a pending buffer is flushed at the end of input.
pub open spec fn spec_tokenize_from(
    s: Seq<char>,
    i: int,
    buf: Seq<char>,
    acc: Seq<Seq<char>>,
) -> Seq<Seq<char>>
    decreases s.len() - i,
{
    if i < 0 || i >= s.len() {
        if buf.len() > 0 {
            acc.push(buf)
        } else {
            acc
        }
    } else if spec_is_punct(s[i]) {
        let acc2 = if buf.len() > 0 {
            acc.push(buf)
        } else {
            acc
        };
        spec_tokenize_from(s, i + 1, Seq::empty(), acc2.push(seq![s[i]]))
    } else if spec_is_ws(s[i]) {
        spec_tokenize_from(s, i + 1, buf, acc)
    } else {
        spec_tokenize_from(s, i + 1, buf.push(s[i]), acc)
    }
}

/// The tokens of one measure body.
pub open spec fn spec_tokenize(s: Seq<char>) -> Seq<Seq<char>> {
    spec_tokenize_from(s, 0, Seq::empty(), Seq::empty())
}

/// Tokenize a character sequence.
#[verifier::loop_isolation(false)]
pub fn tokenize_chars(v: &Vec<char>) -> (r: Vec<Vec<char>>)
    ensures
        r@.map_values(|t: Vec<char>| t@) =~= spec_tokenize(v@),
{
    let ghost sv = v@;
    let mut out: Vec<Vec<char>> = Vec::new();
    let mut buf: Vec<char> = Vec::new();
    let mut i: usize = 0;
    proof {
        assert(buf@ =~= Seq::<char>::empty());
        assert(out@.map_values(|t: Vec<char>| t@) =~= Seq::<Seq<char>>::empty());
        assert(spec_tokenize_from(sv, 0, buf@, out@.map_values(|t: Vec<char>| t@))
            == spec_tokenize(sv));
    }
    while i < v.len()
        invariant
            sv == v@,
            i <= v.len(),
            spec_tokenize_from(sv, i as int, buf@, out@.map_values(|t: Vec<char>| t@))
                == spec_tokenize(sv),
        decreases v.len() - i,
    {
        let ghost obuf = buf@;
        let ghost oacc = out@.map_values(|t: Vec<char>| t@);
        let c = v[i];
        if is_punct(c) {
            if buf.len() > 0 {
                let done = buf;
                buf = Vec::new();
                out.push(done);
                proof {
                    assert(out@.map_values(|t: Vec<char>| t@) =~= oacc.push(obuf));
                }
            }
            let mut p: Vec<char> = Vec::new();
            p.push(c);
            proof {
                assert(p@ =~= seq![sv[i as int]]);
            }
            out.push(p);
            proof {
                let acc2 = if obuf.len() > 0 {
                    oacc.push(obuf)
                } else {
                    oacc
                };
                assert(out@.map_values(|t: Vec<char>| t@) =~= acc2.push(seq![sv[i as int]]));
                assert(buf@ =~= Seq::<char>::empty());
            }
        } else if is_ws(c) {
        } else {
            buf.push(c);
        }
        i = i + 1;
    }
    if buf.len() > 0 {
        out.push(buf);
    }
    proof {
        assert(out@.map_values(|t: Vec<char>| t@) =~= spec_tokenize(sv));
    }
    out
}

/// Tokenize one measure body: `[ ] { } ,` become singleton tokens, maximal
/// runs of other non-whitespace characters become word tokens.
pub fn tokenize(s: &str) -> (r: Vec<String>)
    ensures
        r@.map_values(|t: String| t@) =~= spec_tokenize(s@),
{
    let v = str_to_chars(s);
    let toks = tokenize_chars(&v);
    let mut out: Vec<String> = Vec::new();
    let mut i: usize = 0;
    while i < toks.len()
        invariant
            i <= toks.len(),
            out@.map_values(|t: String| t@) =~= toks@.map_values(|t: Vec<char>| t@).subrange(
                0,
                i as int,
            ),
        decreases toks.len() - i,
    {
        let ghost before = out@;
        let t = chars_to_string(&toks[i]);
        let ghost tv = t@;
        out.push(t);
        proof {
            assert(out@.map_values(|t: String| t@) =~= before.map_values(|t: String| t@).push(
                tv,
            ));
            assert(toks@.map_values(|t: Vec<char>| t@).subrange(0, i as int + 1)
                =~= toks@.map_values(|t: Vec<char>| t@).subrange(0, i as int).push(
                toks@[i as int]@,
            ));
            assert(out@.map_values(|t: String| t@) =~= toks@.map_values(
                |t: Vec<char>| t@,
            ).subrange(0, i as int + 1));
        }
        i = i + 1;
    }
    proof {
        assert(toks@.map_values(|t: Vec<char>| t@).subrange(
            0,
            toks@.len() as int,
        ) =~= toks@.map_values(|t: Vec<char>| t@));
    }
    out
}

} // verus!
