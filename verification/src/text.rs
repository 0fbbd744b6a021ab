//! Character-level text utilities shared by the comment stripper, tokenizer
//! and parser: whitespace classification, trimming, integer parsing and
//! decimal rendering, all over `Vec<char>`.

use vstd::prelude::*;
use vstd::string::StrSliceExecFns;

verus! {

/// The Unicode `White_Space` property, the set `char::is_whitespace` accepts.
pub open spec fn spec_is_ws(c: char) -> bool {
    ||| c == '\u{0009}'
    ||| c == '\u{000A}'
    ||| c == '\u{000B}'
    ||| c == '\u{000C}'
    ||| c == '\u{000D}'
    ||| c == ' '
    ||| c == '\u{0085}'
    ||| c == '\u{00A0}'
    ||| c == '\u{1680}'
    ||| c == '\u{2000}'
    ||| c == '\u{2001}'
    ||| c == '\u{2002}'
    ||| c == '\u{2003}'
    ||| c == '\u{2004}'
    ||| c == '\u{2005}'
    ||| c == '\u{2006}'
    ||| c == '\u{2007}'
    ||| c == '\u{2008}'
    ||| c == '\u{2009}'
    ||| c == '\u{200A}'
    ||| c == '\u{2028}'
    ||| c == '\u{2029}'
    ||| c == '\u{202F}'
    ||| c == '\u{205F}'
    ||| c == '\u{3000}'
}

pub fn is_ws(c: char) -> (r: bool)
    ensures
        r == spec_is_ws(c),
{
    match c {
        '\u{0009}' | '\u{000A}' | '\u{000B}' | '\u{000C}' | '\u{000D}' | ' ' | '\u{0085}'
            | '\u{00A0}' | '\u{1680}' | '\u{2000}' | '\u{2001}' | '\u{2002}' | '\u{2003}'
            | '\u{2004}' | '\u{2005}' | '\u{2006}' | '\u{2007}' | '\u{2008}' | '\u{2009}'
            | '\u{200A}' | '\u{2028}' | '\u{2029}' | '\u{202F}' | '\u{205F}' | '\u{3000}' => true,
        _ => false,
    }
}

pub open spec fn spec_is_digit(c: char) -> bool {
    48 <= c as u32 <= 57
}

pub fn is_digit(c: char) -> (r: bool)
    ensures
        r == spec_is_digit(c),
{
    let u = c as u32;
    48 <= u && u <= 57
}

/// First index at or after `i` holding a non-whitespace character.
pub open spec fn spec_ws_prefix(s: Seq<char>, i: int) -> int
    decreases s.len() - i,
{
    if i < 0 || i >= s.len() {
        i
    } else if spec_is_ws(s[i]) {
        spec_ws_prefix(s, i + 1)
    } else {
        i
    }
}

/// End of `s[..j]` once trailing whitespace is dropped.
pub open spec fn spec_ws_suffix(s: Seq<char>, j: int) -> int
    decreases j,
{
    if j <= 0 || j > s.len() {
        j
    } else if spec_is_ws(s[j - 1]) {
        spec_ws_suffix(s, j - 1)
    } else {
        j
    }
}

/// What `str::trim` yields: the slice between the whitespace margins.
pub open spec fn spec_trim(s: Seq<char>) -> Seq<char> {
    let a = spec_ws_prefix(s, 0);
    let b = spec_ws_suffix(s, s.len() as int);
    if a <= b {
        s.subrange(a, b)
    } else {
        Seq::empty()
    }
}

pub fn trim_chars(v: &Vec<char>) -> (r: Vec<char>)
    ensures
        r@ == spec_trim(v@),
{
    let ghost sv = v@;
    let mut a: usize = 0;
    while a < v.len() && is_ws(v[a])
        invariant
            sv == v@,
            0 <= a <= v.len(),
            spec_ws_prefix(sv, 0) == spec_ws_prefix(sv, a as int),
        decreases v.len() - a,
    {
        a = a + 1;
    }
    let mut b: usize = v.len();
    while b > 0 && is_ws(v[b - 1])
        invariant
            sv == v@,
            0 <= b <= v.len(),
            spec_ws_suffix(sv, sv.len() as int) == spec_ws_suffix(sv, b as int),
        decreases b,
    {
        b = b - 1;
    }
    proof {
        assert(spec_ws_prefix(sv, 0) == a as int);
        assert(spec_ws_suffix(sv, sv.len() as int) == b as int);
    }
    let mut r: Vec<char> = Vec::new();
    if a <= b {
        let mut x = a;
        while x < b
            invariant
                sv == v@,
                a <= x <= b <= v.len(),
                r@ == sv.subrange(a as int, x as int),
            decreases b - x,
        {
            r.push(v[x]);
            proof {
                assert(r@ =~= sv.subrange(a as int, x as int + 1));
            }
            x = x + 1;
        }
    }
    proof {
        if a <= b {
            assert(r@ =~= spec_trim(sv));
        } else {
            assert(r@ =~= spec_trim(sv));
        }
    }
    r
}

/// First index at or after `from` holding `c`, or the length when absent.
pub open spec fn spec_find_char(s: Seq<char>, c: char, from: int) -> int
    decreases s.len() - from,
{
    if from < 0 || from >= s.len() {
        s.len() as int
    } else if s[from] == c {
        from
    } else {
        spec_find_char(s, c, from + 1)
    }
}

pub fn find_char(v: &Vec<char>, c: char, from: usize) -> (r: usize)
    requires
        from <= v.len(),
    ensures
        r as int == spec_find_char(v@, c, from as int),
        from <= r <= v.len(),
        r < v.len() ==> v@[r as int] == c,
    decreases v.len() - from,
{
    if from >= v.len() {
        v.len()
    } else if v[from] == c {
        from
    } else {
        find_char(v, c, from + 1)
    }
}

/// Last index holding `c` strictly before `upto`, or `-1` when absent.
pub open spec fn spec_rfind_char(s: Seq<char>, c: char, upto: int) -> int
    decreases upto,
{
    if upto <= 0 || upto > s.len() {
        -1
    } else if s[upto - 1] == c {
        upto - 1
    } else {
        spec_rfind_char(s, c, upto - 1)
    }
}

pub fn rfind_char(v: &Vec<char>, c: char, upto: usize) -> (r: Option<usize>)
    requires
        upto <= v.len(),
    ensures
        r matches Some(x) ==> x as int == spec_rfind_char(v@, c, upto as int) && x < upto,
        r is None ==> spec_rfind_char(v@, c, upto as int) == -1,
    decreases upto,
{
    if upto == 0 {
        None
    } else if v[upto - 1] == c {
        Some(upto - 1)
    } else {
        rfind_char(v, c, upto - 1)
    }
}

/// Numeric value of a digit string (most significant first).
pub open spec fn spec_uint_val(s: Seq<char>) -> int
    decreases s.len(),
{
    if s.len() == 0 {
        0
    } else {
        spec_uint_val(s.drop_last()) * 10 + (s.last() as u32 - 48)
    }
}

pub open spec fn spec_all_digits(s: Seq<char>) -> bool {
    forall|i: int| 0 <= i < s.len() ==> spec_is_digit(#[trigger] s[i])
}

/// What `usize::from_str` accepts, before the machine-size bound: an
/// optional `+`, then one or more digits.
pub open spec fn spec_parse_uint(s: Seq<char>) -> Option<int> {
    let body = if s.len() > 0 && s[0] == '+' {
        s.drop_first()
    } else {
        s
    };
    if body.len() == 0 || !spec_all_digits(body) {
        None
    } else {
        Some(spec_uint_val(body))
    }
}

proof fn lemma_uint_val_nonneg(s: Seq<char>)
    requires
        spec_all_digits(s),
    ensures
        spec_uint_val(s) >= 0,
    decreases s.len(),
{
    if s.len() > 0 {
        assert(spec_all_digits(s.drop_last())) by {
            assert(forall|i: int| 0 <= i < s.len() - 1 ==> s.drop_last()[i] == #[trigger] s[i]);
        }
        lemma_uint_val_nonneg(s.drop_last());
        let v = spec_uint_val(s.drop_last());
        assert(spec_is_digit(s.last()));
        assert(v * 10 >= 0) by (nonlinear_arith)
            requires
                v >= 0,
        ;
    }
}

/// The value of a digit string only grows as digits are appended.
proof fn lemma_uint_val_prefix(s: Seq<char>, j: int)
    requires
        0 <= j <= s.len(),
        spec_all_digits(s),
    ensures
        spec_uint_val(s.subrange(0, j)) <= spec_uint_val(s),
    decreases s.len() - j,
{
    if j < s.len() {
        lemma_uint_val_prefix(s, j + 1);
        let p = s.subrange(0, j);
        let q = s.subrange(0, j + 1);
        assert(q.drop_last() =~= p);
        assert(q.last() == s[j]);
        assert(spec_all_digits(p)) by {
            assert(forall|i: int| 0 <= i < j ==> p[i] == #[trigger] s[i]);
        }
        lemma_uint_val_nonneg(p);
        let v = spec_uint_val(p);
        assert(spec_is_digit(s[j]));
        assert(v <= v * 10 + (s[j] as u32 - 48)) by (nonlinear_arith)
            requires
                v >= 0,
                48 <= s[j] as u32,
        ;
    } else {
        assert(s.subrange(0, j) =~= s);
    }
}

/// What `usize::from_str` yields.
pub open spec fn spec_parse_usize(s: Seq<char>) -> Option<usize> {
    match spec_parse_uint(s) {
        Option::Some(val) => if val <= usize::MAX {
            Some(val as usize)
        } else {
            None
        },
        Option::None => None,
    }
}

/// Parse an optionally `+`-signed decimal the way `usize::from_str` does:
/// `None` for an empty or non-digit body and for values beyond `usize`.
pub fn parse_usize_chars(v: &Vec<char>) -> (r: Option<usize>)
    ensures
        r == spec_parse_usize(v@),
{
    let ghost sv = v@;
    let start: usize = if v.len() > 0 && v[0] == '+' {
        1
    } else {
        0
    };
    let ghost body = if sv.len() > 0 && sv[0] == '+' {
        sv.drop_first()
    } else {
        sv
    };
    proof {
        assert(body =~= sv.subrange(start as int, sv.len() as int));
    }
    if start >= v.len() {
        return None;
    }
    let mut acc: usize = 0;
    let mut j: usize = start;
    while j < v.len()
        invariant
            start <= j <= v.len(),
            start < v.len(),
            body == sv.subrange(start as int, sv.len() as int),
            body == (if sv.len() > 0 && sv[0] == '+' {
                sv.drop_first()
            } else {
                sv
            }),
            sv == v@,
            spec_all_digits(body.subrange(0, j - start)),
            acc == spec_uint_val(body.subrange(0, j - start)),
        decreases v.len() - j,
    {
        let c = v[j];
        if !is_digit(c) {
            proof {
                assert(body[j - start] == c);
                assert(!spec_all_digits(body));
            }
            return None;
        }
        let d = (c as u32 - 48) as usize;
        let ghost pref = body.subrange(0, j - start);
        let ghost pref2 = body.subrange(0, j + 1 - start);
        proof {
            assert(pref2.drop_last() =~= pref);
            assert(pref2.last() == c);
            assert(spec_uint_val(pref2) == acc * 10 + d);
            assert(forall|x: int|
                0 <= x < pref2.len() ==> spec_is_digit(#[trigger] pref2[x]));
        }
        let m = match acc.checked_mul(10) {
            Option::Some(m) => m,
            Option::None => {
                proof {
                    lemma_uint_val_nonneg(pref);
                    assert(spec_uint_val(pref2) > usize::MAX) by (nonlinear_arith)
                        requires
                            spec_uint_val(pref2) == acc * 10 + d,
                            acc * 10 > usize::MAX,
                            d >= 0,
                    ;
                    lemma_overflow_means_too_big(body, j + 1 - start, usize::MAX as int);
                }
                return None;
            },
        };
        let a = match m.checked_add(d) {
            Option::Some(a) => a,
            Option::None => {
                proof {
                    lemma_overflow_means_too_big(body, j + 1 - start, usize::MAX as int);
                }
                return None;
            },
        };
        acc = a;
        j = j + 1;
    }
    proof {
        assert(body.subrange(0, body.len() as int) =~= body);
    }
    Some(acc)
}

/// If some digit prefix already exceeds a bound and the whole string is made
/// of digits, the whole string's value exceeds the bound too.
proof fn lemma_overflow_means_too_big(body: Seq<char>, k: int, bound: int)
    requires
        0 <= k <= body.len(),
        spec_uint_val(body.subrange(0, k)) > bound,
    ensures
        spec_all_digits(body) ==> spec_uint_val(body) > bound,
{
    if spec_all_digits(body) {
        lemma_uint_val_prefix(body, k);
    }
}

/// A successfully parsed unsigned decimal is non-negative.
pub proof fn lemma_parse_uint_nonneg(s: Seq<char>)
    ensures
        spec_parse_uint(s) matches Some(v) ==> v >= 0,
{
    if spec_parse_uint(s) is Some {
        let body = if s.len() > 0 && s[0] == '+' {
            s.drop_first()
        } else {
            s
        };
        lemma_uint_val_nonneg(body);
    }
}

/// What `i32::from_str` accepts: an optional sign, then one or more digits,
/// value within `i32`.
pub open spec fn spec_parse_int(s: Seq<char>) -> Option<int> {
    if s.len() == 0 {
        None
    } else {
        let neg = s[0] == '-';
        let body = if s[0] == '-' || s[0] == '+' {
            s.drop_first()
        } else {
            s
        };
        if body.len() == 0 || !spec_all_digits(body) {
            None
        } else if neg {
            Some(-spec_uint_val(body))
        } else {
            Some(spec_uint_val(body))
        }
    }
}

/// What `i32::from_str` yields.
pub open spec fn spec_parse_i32(s: Seq<char>) -> Option<i32> {
    match spec_parse_int(s) {
        Option::Some(val) => if i32::MIN <= val <= i32::MAX {
            Some(val as i32)
        } else {
            None
        },
        Option::None => None,
    }
}

/// Parse an optionally signed decimal the way `i32::from_str` does.
pub fn parse_i32_chars(v: &Vec<char>) -> (r: Option<i32>)
    ensures
        r == spec_parse_i32(v@),
{
    let ghost sv = v@;
    if v.len() == 0 {
        return None;
    }
    let neg = v[0] == '-';
    let start: usize = if v[0] == '-' || v[0] == '+' {
        1
    } else {
        0
    };
    let ghost body = if sv[0] == '-' || sv[0] == '+' {
        sv.drop_first()
    } else {
        sv
    };
    proof {
        assert(body =~= sv.subrange(start as int, sv.len() as int));
    }
    if start >= v.len() {
        return None;
    }
    let mut acc: u64 = 0;
    let mut j: usize = start;
    while j < v.len()
        invariant
            start <= j <= v.len(),
            start < v.len(),
            sv.len() > 0,
            body == sv.subrange(start as int, sv.len() as int),
            body == (if sv[0] == '-' || sv[0] == '+' {
                sv.drop_first()
            } else {
                sv
            }),
            sv == v@,
            neg == (sv[0] == '-'),
            spec_all_digits(body.subrange(0, j - start)),
            acc == spec_uint_val(body.subrange(0, j - start)),
            acc <= 0x8000_0000u64,
        decreases v.len() - j,
    {
        let c = v[j];
        if !is_digit(c) {
            proof {
                assert(body[j - start] == c);
                assert(!spec_all_digits(body));
            }
            return None;
        }
        let d = (c as u32 - 48) as u64;
        let ghost pref = body.subrange(0, j - start);
        let ghost pref2 = body.subrange(0, j + 1 - start);
        proof {
            assert(pref2.drop_last() =~= pref);
            assert(pref2.last() == c);
            assert(spec_uint_val(pref2) == acc * 10 + d);
            assert(forall|x: int|
                0 <= x < pref2.len() ==> spec_is_digit(#[trigger] pref2[x]));
        }
        let next = acc * 10 + d;
        if next > 0x8000_0000u64 {
            proof {
                lemma_overflow_means_too_big(body, j + 1 - start, 0x8000_0000);
            }
            return None;
        }
        acc = next;
        j = j + 1;
    }
    proof {
        assert(body.subrange(0, body.len() as int) =~= body);
    }
    if neg {
        if acc > 0x8000_0000u64 {
            return None;
        }
        Some((-(acc as i64)) as i32)
    } else {
        if acc > 0x7fff_ffffu64 {
            return None;
        }
        Some(acc as i32)
    }
}

/// The decimal digit character for `0 <= d <= 9`.
pub open spec fn spec_digit_char(d: int) -> char {
    ((48 + d) as u8) as char
}

/// The decimal rendering of a non-negative integer, no sign, no padding.
pub open spec fn spec_udec(n: int) -> Seq<char>
    decreases n,
{
    if n < 10 {
        seq![spec_digit_char(if n >= 0 {
            n
        } else {
            0
        })]
    } else {
        spec_udec(n / 10).push(spec_digit_char(n % 10))
    }
}

/// Render a `usize` in decimal.
pub fn usize_to_chars(n: usize) -> (r: Vec<char>)
    ensures
        r@ == spec_udec(n as int),
{
    let mut rev: Vec<char> = Vec::new();
    rev.push((48 + (n % 10) as u8) as char);
    let mut m = n / 10;
    proof {
        vstd::arithmetic::div_mod::lemma_mod_division_less_than_divisor(n as int, 10);
        if m > 0 {
            assert(spec_udec(n as int) == spec_udec(n as int / 10).push(
                spec_digit_char(n as int % 10),
            ));
            assert(spec_udec(n as int) =~= spec_udec(m as int) + rev@.reverse());
        } else {
            assert(n < 10);
            assert(n as int % 10 == n as int) by (nonlinear_arith)
                requires
                    0 <= n < 10,
            ;
            assert(spec_udec(n as int) =~= Seq::<char>::empty() + rev@.reverse());
        }
    }
    while m > 0
        invariant
            spec_udec(n as int) == (if m > 0 {
                spec_udec(m as int)
            } else {
                Seq::<char>::empty()
            }) + rev@.reverse(),
            rev@.len() >= 1,
        decreases m,
    {
        let ghost old_rev = rev@;
        rev.push((48 + (m % 10) as u8) as char);
        proof {
            assert(rev@.reverse() =~= seq![spec_digit_char(m as int % 10)] + old_rev.reverse());
            if m / 10 > 0 {
                assert(spec_udec(m as int) == spec_udec(m as int / 10).push(
                    spec_digit_char(m as int % 10),
                ));
                assert(spec_udec(m as int / 10).push(spec_digit_char(m as int % 10)) + old_rev.reverse()
                    =~= spec_udec(m as int / 10) + rev@.reverse());
            } else {
                assert(spec_udec(m as int) =~= seq![spec_digit_char(m as int % 10)]);
                assert(spec_udec(m as int) + old_rev.reverse() =~= rev@.reverse());
            }
        }
        m = m / 10;
    }
    let mut out: Vec<char> = Vec::new();
    let mut i: usize = 0;
    while i < rev.len()
        invariant
            i <= rev.len(),
            out@.len() == i,
            forall|x: int| 0 <= x < i ==> out@[x] == rev@[rev@.len() - 1 - x],
        decreases rev.len() - i,
    {
        out.push(rev[rev.len() - 1 - i]);
        i = i + 1;
    }
    proof {
        assert(out@ =~= rev@.reverse());
        assert(Seq::<char>::empty() + rev@.reverse() =~= rev@.reverse());
    }
    out
}

/// Append the characters of `s` to `dst`.
pub fn push_str_chars(dst: &mut Vec<char>, s: &str)
    ensures
        final(dst)@ == old(dst)@ + s@,
{
    let n = s.unicode_len();
    let mut i: usize = 0;
    while i < n
        invariant
            i <= n,
            n == s@.len(),
            dst@ == old(dst)@ + s@.subrange(0, i as int),
        decreases n - i,
    {
        dst.push(s.get_char(i));
        proof {
            assert(dst@ =~= old(dst)@ + s@.subrange(0, i as int + 1));
        }
        i = i + 1;
    }
    proof {
        assert(old(dst)@ + s@.subrange(0, s@.len() as int) =~= old(dst)@ + s@);
    }
}

/// Append a copy of the characters of `src` to `dst`.
pub fn push_char_vec(dst: &mut Vec<char>, src: &Vec<char>)
    ensures
        final(dst)@ == old(dst)@ + src@,
{
    let mut i: usize = 0;
    while i < src.len()
        invariant
            i <= src.len(),
            dst@ == old(dst)@ + src@.subrange(0, i as int),
        decreases src.len() - i,
    {
        dst.push(src[i]);
        proof {
            assert(dst@ =~= old(dst)@ + src@.subrange(0, i as int + 1));
        }
        i = i + 1;
    }
    proof {
        assert(old(dst)@ + src@.subrange(0, src@.len() as int) =~= old(dst)@ + src@);
    }
}

/// Copy a subrange of a character vector.
pub fn copy_range(v: &Vec<char>, from: usize, to: usize) -> (r: Vec<char>)
    requires
        from <= to <= v.len(),
    ensures
        r@ == v@.subrange(from as int, to as int),
{
    let mut r: Vec<char> = Vec::new();
    let mut x = from;
    while x < to
        invariant
            from <= x <= to <= v.len(),
            r@ == v@.subrange(from as int, x as int),
        decreases to - x,
    {
        r.push(v[x]);
        proof {
            assert(r@ =~= v@.subrange(from as int, x as int + 1));
        }
        x = x + 1;
    }
    r
}

/// Copy a character vector.
pub fn copy_chars(v: &Vec<char>) -> (r: Vec<char>)
    ensures
        r@ == v@,
{
    let mut r: Vec<char> = Vec::new();
    push_char_vec(&mut r, v);
    proof {
        assert(Seq::<char>::empty() + v@ =~= v@);
    }
    r
}

/// The characters of a string slice.
pub fn str_to_chars(s: &str) -> (r: Vec<char>)
    ensures
        r@ == s@,
{
    let mut r: Vec<char> = Vec::new();
    push_str_chars(&mut r, s);
    proof {
        assert(Seq::<char>::empty() + s@ =~= s@);
    }
    r
}

/// Relies on String's FromIterator over characters: collecting yields the
/// string holding exactly the given characters in order.
#[verifier::external_body]
pub fn chars_to_string(v: &Vec<char>) -> (s: String)
    ensures
        s@ == v@,
{
    v.iter().collect()
}

} // verus!
