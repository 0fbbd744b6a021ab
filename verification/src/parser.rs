//! The recursive parser: one measure per line, tokens parsed into a tree of
//! score elements, ties resolved by looking backward through what was
//! already parsed, and every error accumulated rather than thrown.

use crate::comments::{remove_comments_multiline, spec_strip, spec_lines, split_lines};
use crate::data::{
    Beat, Chord, ElemV, Event, EventType, Meter, Part, Pitch, Score, ScoreElement, Subdivision,
    Tie, elem_view, elems_view, lemma_elems_view,
};
use crate::error::{ErrV, ParseError};
use crate::frac::Fraction;
use crate::pitch::{parse_pitch_chars, spec_midi_code, spec_parse_pitch};
use crate::text::{
    chars_to_string, copy_range, find_char, parse_usize_chars, push_char_vec, push_str_chars,
    spec_find_char, spec_parse_usize, spec_rfind_char, spec_trim, rfind_char, str_to_chars,
    trim_chars, usize_to_chars,
};
use crate::tokenizer::{spec_tokenize, tokenize_chars};
use vstd::prelude::*;

verus! {

// ------------------------------------------------------------------
// Deep copies of element trees (used to build tie-resolution contexts).
// ------------------------------------------------------------------

fn copy_event_vec(v: &Vec<Event>) -> (r: Vec<Event>)
    ensures
        r@ == v@,
{
    let mut r: Vec<Event> = Vec::new();
    let mut i: usize = 0;
    while i < v.len()
        invariant
            i <= v.len(),
            r@ == v@.subrange(0, i as int),
        decreases v.len() - i,
    {
        r.push(v[i]);
        proof {
            assert(r@ =~= v@.subrange(0, i as int + 1));
        }
        i = i + 1;
    }
    proof {
        assert(v@.subrange(0, v@.len() as int) =~= v@);
    }
    r
}

proof fn lemma_elems_view_push(s: Seq<ScoreElement>, x: ScoreElement)
    ensures
        elems_view(s.push(x)) =~= elems_view(s).push(elem_view(x)),
{
    lemma_elems_view(s);
    lemma_elems_view(s.push(x));
}

fn clone_element(e: &ScoreElement) -> (r: ScoreElement)
    ensures
        elem_view(r) == elem_view(*e),
    decreases *e, 0int,
{
    match e {
        ScoreElement::Event(ev) => ScoreElement::Event(*ev),
        ScoreElement::Tie(t) => ScoreElement::Tie(*t),
        ScoreElement::Chord(c) => ScoreElement::Chord(
            Chord { events: copy_event_vec(&c.events), id: c.id },
        ),
        ScoreElement::Subdivision(s) => {
            proof {
                assert(decreases_to!(*e => s.elements@));
            }
            ScoreElement::Subdivision(
                Subdivision {
                    base_division: s.base_division,
                    elements: clone_elements(&s.elements),
                },
            )
        },
    }
}

/// Deep-copy a list of score elements, preserving its spec-level view.
#[verifier::loop_isolation(false)]
pub fn clone_elements(v: &Vec<ScoreElement>) -> (r: Vec<ScoreElement>)
    ensures
        elems_view(r@) == elems_view(v@),
    decreases v@, 1int,
{
    proof {
        lemma_elems_view(v@);
    }
    let mut r: Vec<ScoreElement> = Vec::new();
    let mut i: usize = 0;
    proof {
        lemma_elems_view(r@);
        assert(elems_view(r@) =~= elems_view(v@).subrange(0, 0));
    }
    while i < v.len()
        invariant
            i <= v.len(),
            elems_view(r@) =~= elems_view(v@).subrange(0, i as int),
            r@.len() == i,
        decreases v@.len() - i,
    {
        let ghost before = r@;
        proof {
            assert(decreases_to!(v@ => v@[i as int]));
        }
        let c = clone_element(&v[i]);
        r.push(c);
        proof {
            lemma_elems_view_push(before, c);
            assert(elems_view(r@) =~= elems_view(v@).subrange(0, i as int + 1));
        }
        i = i + 1;
    }
    proof {
        assert(elems_view(v@).subrange(0, elems_view(v@).len() as int) =~= elems_view(v@));
        assert(elems_view(r@) =~= elems_view(v@));
    }
    r
}

// ------------------------------------------------------------------
// Meter strings like "4/4".
// ------------------------------------------------------------------

/// What parsing a meter string yields: the text before the first `/` and
/// the text between the first and second `/` (or the end), both as decimal
/// beat counts; anything else is no meter.
pub open spec fn spec_parse_meter(s: Seq<char>) -> Option<Meter> {
    let e1 = spec_find_char(s, '/', 0);
    if e1 >= s.len() {
        None
    } else {
        let first = s.subrange(0, e1);
        let e2 = spec_find_char(s, '/', e1 + 1);
        let second = s.subrange(e1 + 1, if e2 <= s.len() {
            e2
        } else {
            s.len() as int
        });
        match spec_parse_usize(first) {
            Option::None => None,
            Option::Some(a) => match spec_parse_usize(second) {
                Option::None => None,
                Option::Some(b) => Some(Meter { beats: a, unit: b }),
            },
        }
    }
}

/// Parse a meter from its characters.
pub fn parse_meter_chars(v: &Vec<char>) -> (r: Option<Meter>)
    ensures
        r == spec_parse_meter(v@),
{
    let e1 = find_char(v, '/', 0);
    if e1 >= v.len() {
        return None;
    }
    let first = copy_range(v, 0, e1);
    let e2 = find_char(v, '/', e1 + 1);
    let second = copy_range(v, e1 + 1, e2);
    let a = match parse_usize_chars(&first) {
        Option::Some(a) => a,
        Option::None => {
            return None;
        },
    };
    let b = match parse_usize_chars(&second) {
        Option::Some(b) => b,
        Option::None => {
            return None;
        },
    };
    Some(Meter { beats: a, unit: b })
}

/// Parse a meter string such as `"4/4"` into its time signature.
pub fn parse_meter(s: &str) -> (r: Option<Meter>)
    ensures
        r == spec_parse_meter(s@),
{
    let v = str_to_chars(s);
    parse_meter_chars(&v)
}

// ------------------------------------------------------------------
// Single-token interpretation.
// ------------------------------------------------------------------

/// The id following `nid`, saturating at the top of `usize`.
pub open spec fn spec_next_id(nid: usize) -> usize {
    if nid < usize::MAX {
        (nid + 1) as usize
    } else {
        nid
    }
}

/// The pitch, cents and duration a tie marker inherits: those of the
/// nearest preceding sounding element — a note event, a tie that itself
/// carries a pitch, or a non-empty chord's first event; one unit and no
/// pitch when nothing precedes.
pub open spec fn spec_find_prev(ctx: Seq<ElemV>) -> (Option<Pitch>, Option<u16>, Fraction)
    decreases ctx.len(),
{
    if ctx.len() == 0 {
        (None::<Pitch>, None::<u16>, Fraction { num: 1, den: 1 })
    } else {
        match ctx.last() {
            ElemV::Event(ev) => if ev.event_type is Note {
                (ev.pitch, ev.pitch_cents, ev.duration)
            } else {
                spec_find_prev(ctx.drop_last())
            },
            ElemV::Tie(t) => if t.pitch is Some {
                (t.pitch, t.pitch_cents, t.duration)
            } else {
                spec_find_prev(ctx.drop_last())
            },
            ElemV::Chord { events, .. } => if events.len() > 0 {
                (events[0].pitch, events[0].pitch_cents, events[0].duration)
            } else {
                spec_find_prev(ctx.drop_last())
            },
            ElemV::Subdivision { .. } => spec_find_prev(ctx.drop_last()),
        }
    }
}

fn find_prev(ctx: &Vec<ScoreElement>, upto: usize) -> (r: (Option<Pitch>, Option<u16>, Fraction))
    requires
        upto <= ctx.len(),
    ensures
        r == spec_find_prev(elems_view(ctx@).subrange(0, upto as int)),
    decreases upto,
{
    proof {
        lemma_elems_view(ctx@);
    }
    if upto == 0 {
        proof {
            assert(elems_view(ctx@).subrange(0, 0) =~= Seq::<ElemV>::empty());
        }
        return (None, None, Fraction { num: 1, den: 1 });
    }
    let ghost pre = elems_view(ctx@).subrange(0, upto as int);
    proof {
        assert(pre.last() == elem_view(ctx@[upto - 1]));
        assert(pre.drop_last() =~= elems_view(ctx@).subrange(0, upto - 1));
    }
    match &ctx[upto - 1] {
        ScoreElement::Event(ev) => {
            if matches!(ev.event_type, EventType::Note) {
                (ev.pitch, ev.pitch_cents, ev.duration)
            } else {
                find_prev(ctx, upto - 1)
            }
        },
        ScoreElement::Tie(t) => {
            if t.pitch.is_some() {
                (t.pitch, t.pitch_cents, t.duration)
            } else {
                find_prev(ctx, upto - 1)
            }
        },
        ScoreElement::Chord(c) => {
            if c.events.len() > 0 {
                (c.events[0].pitch, c.events[0].pitch_cents, c.events[0].duration)
            } else {
                find_prev(ctx, upto - 1)
            }
        },
        ScoreElement::Subdivision(_) => find_prev(ctx, upto - 1),
    }
}

/// The token with its trailing tie dashes removed.
pub open spec fn spec_trim_dashes(s: Seq<char>) -> Seq<char>
    decreases s.len(),
{
    if s.len() > 0 && s.last() == '-' {
        spec_trim_dashes(s.drop_last())
    } else {
        s
    }
}

/// What interpreting one word token yields: a rest for `r`, a tie marker
/// inheriting from the context for `t`, otherwise a note event whose
/// trailing `-` marks a tie into the next position, or the pitch error.
pub open spec fn spec_parse_token(tok: Seq<char>, ctx: Seq<ElemV>, nid: usize) -> Result<
    (ElemV, usize),
    Seq<char>,
> {
    if tok == "r"@ {
        Ok(
            (
                ElemV::Event(
                    Event {
                        event_type: EventType::Rest,
                        pitch: None,
                        pitch_cents: None,
                        tie: false,
                        duration: Fraction { num: 1, den: 1 },
                        id: Some(nid),
                    },
                ),
                spec_next_id(nid),
            ),
        )
    } else if tok == "t"@ {
        let (p, c, d) = spec_find_prev(ctx);
        Ok((ElemV::Tie(Tie { pitch: p, pitch_cents: c, duration: d }), nid))
    } else {
        let flag = tok.len() > 0 && tok.last() == '-';
        let core = spec_trim_dashes(tok);
        match spec_parse_pitch(core) {
            Result::Err(e) => Err("Invalid pitch `"@ + core + "`: "@ + e),
            Result::Ok(p) => {
                let cents: Option<u16> = match spec_midi_code(p) {
                    Result::Ok(n) => Some((n as u16 * 100) as u16),
                    Result::Err(_) => None,
                };
                Ok(
                    (
                        ElemV::Event(
                            Event {
                                event_type: EventType::Note,
                                pitch: Some(p),
                                pitch_cents: cents,
                                tie: flag,
                                duration: Fraction { num: 1, den: 1 },
                                id: Some(nid),
                            },
                        ),
                        spec_next_id(nid),
                    ),
                )
            },
        }
    }
}

/// Interpret one word token against the visible context.
#[verifier::loop_isolation(false)]
fn parse_token(tok: &Vec<char>, ctx: &Vec<ScoreElement>, next_id: usize) -> (r: Result<
    (ScoreElement, usize),
    String,
>)
    ensures
        (r matches Ok(p) ==> spec_parse_token(tok@, elems_view(ctx@), next_id) == Ok::<
            (ElemV, usize),
            Seq<char>,
        >((elem_view(p.0), p.1))),
        (r matches Err(e) ==> spec_parse_token(tok@, elems_view(ctx@), next_id) == Err::<
            (ElemV, usize),
            Seq<char>,
        >(e@)),
{
    proof {
        reveal_strlit("r");
        reveal_strlit("t");
        lemma_elems_view(ctx@);
    }
    if tok.len() == 1 && tok[0] == 'r' {
        proof {
            assert(tok@ =~= "r"@);
        }
        let nid2 = if next_id < usize::MAX {
            next_id + 1
        } else {
            next_id
        };
        return Ok(
            (
                ScoreElement::Event(
                    Event {
                        event_type: EventType::Rest,
                        pitch: None,
                        pitch_cents: None,
                        tie: false,
                        duration: Fraction { num: 1, den: 1 },
                        id: Some(next_id),
                    },
                ),
                nid2,
            ),
        );
    }
    proof {
        assert(tok@ != "r"@);
    }
    if tok.len() == 1 && tok[0] == 't' {
        proof {
            assert(tok@ =~= "t"@);
            assert(elems_view(ctx@).subrange(0, ctx@.len() as int) =~= elems_view(ctx@));
        }
        let (p, c, d) = find_prev(ctx, ctx.len());
        return Ok((ScoreElement::Tie(Tie { pitch: p, pitch_cents: c, duration: d }), next_id));
    }
    proof {
        assert(tok@ != "t"@);
    }
    let mut end = tok.len();
    proof {
        assert(tok@.subrange(0, tok@.len() as int) =~= tok@);
    }
    while end > 0 && tok[end - 1] == '-'
        invariant
            end <= tok.len(),
            spec_trim_dashes(tok@) == spec_trim_dashes(tok@.subrange(0, end as int)),
        decreases end,
    {
        proof {
            assert(tok@.subrange(0, end as int).drop_last() =~= tok@.subrange(0, end - 1));
        }
        end = end - 1;
    }
    let core = copy_range(tok, 0, end);
    proof {
        assert(spec_trim_dashes(tok@.subrange(0, end as int)) == tok@.subrange(0, end as int));
        assert(core@ == spec_trim_dashes(tok@));
    }
    let flag = tok.len() > 0 && tok[tok.len() - 1] == '-';
    match parse_pitch_chars(&core) {
        Result::Ok(p) => {
            let cents: Option<u16> = match p.midi_number() {
                Result::Ok(n) => Some((n as u16) * 100),
                Result::Err(_) => None,
            };
            let nid2 = if next_id < usize::MAX {
                next_id + 1
            } else {
                next_id
            };
            Ok(
                (
                    ScoreElement::Event(
                        Event {
                            event_type: EventType::Note,
                            pitch: Some(p),
                            pitch_cents: cents,
                            tie: flag,
                            duration: Fraction { num: 1, den: 1 },
                            id: Some(next_id),
                        },
                    ),
                    nid2,
                ),
            )
        },
        Result::Err(e) => {
            let mut msg: Vec<char> = Vec::new();
            push_str_chars(&mut msg, "Invalid pitch `");
            push_char_vec(&mut msg, &core);
            push_str_chars(&mut msg, "`: ");
            let ev = str_to_chars(e.as_str());
            push_char_vec(&mut msg, &ev);
            proof {
                assert(msg@ =~= "Invalid pitch `"@ + core@ + "`: "@ + e@);
            }
            Err(chars_to_string(&msg))
        },
    }
}

// ------------------------------------------------------------------
// Element sequences: brackets, braces, commas and words.
// ------------------------------------------------------------------

pub proof fn lemma_elems_view_concat(a: Seq<ScoreElement>, b: Seq<ScoreElement>)
    ensures
        elems_view(a + b) =~= elems_view(a) + elems_view(b),
{
    lemma_elems_view(a);
    lemma_elems_view(b);
    lemma_elems_view(a + b);
}

/// Scan for the token closing the group opened before `j` at nesting depth
/// `depth`, counting `oc` and `cc` tokens; yields the index one past the
/// closer and the final depth (nonzero when unmatched).
pub open spec fn spec_scan_close(
    toks: Seq<Seq<char>>,
    j: int,
    depth: int,
    oc: char,
    cc: char,
) -> (int, int)
    decreases toks.len() - j,
{
    if j < 0 || j >= toks.len() || depth <= 0 {
        (j, depth)
    } else {
        let d2 = if toks[j] == seq![oc] {
            depth + 1
        } else if toks[j] == seq![cc] {
            depth - 1
        } else {
            depth
        };
        spec_scan_close(toks, j + 1, d2, oc, cc)
    }
}

#[verifier::loop_isolation(false)]
fn scan_close(toks: &Vec<Vec<char>>, start: usize, oc: char, cc: char) -> (r: (usize, bool))
    requires
        start <= toks.len(),
    ensures
        ({
            let (e, d) = spec_scan_close(
                toks@.map_values(|t: Vec<char>| t@),
                start as int,
                1,
                oc,
                cc,
            );
            &&& r.0 == e
            &&& r.1 == (d == 0)
            &&& start <= r.0 <= toks.len()
            &&& (d == 0 ==> r.0 > start)
        }),
{
    let ghost tv = toks@.map_values(|t: Vec<char>| t@);
    let mut j = start;
    let mut depth: i128 = 1;
    while j < toks.len() && depth > 0
        invariant
            start <= j <= toks.len(),
            -(j as int + 1) <= depth as int <= j as int + 1,
            spec_scan_close(tv, j as int, depth as int, oc, cc) == spec_scan_close(
                tv,
                start as int,
                1,
                oc,
                cc,
            ),
            (j == start && depth == 1) || j > start,
        decreases toks.len() - j,
    {
        let t = &toks[j];
        proof {
            assert(tv[j as int] == t@);
            if t@.len() == 1 && t@[0] == oc {
                assert(tv[j as int] =~= seq![oc]);
            }
            if t@.len() == 1 && t@[0] == cc {
                assert(tv[j as int] =~= seq![cc]);
            }
        }
        if t.len() == 1 && t[0] == oc {
            depth = depth + 1;
        } else if t.len() == 1 && t[0] == cc {
            proof {
                assert(tv[j as int] != seq![oc] || oc == cc);
            }
            depth = depth - 1;
        } else {
            proof {
                if tv[j as int].len() != 1 {
                    assert(tv[j as int] != seq![oc] && tv[j as int] != seq![cc]);
                } else {
                    assert(tv[j as int] =~= seq![tv[j as int][0]]);
                }
            }
        }
        j = j + 1;
    }
    (j, depth == 0)
}

/// The events of a chord body: every parsed element must be a plain event.
pub open spec fn spec_chord_events_from(s: Seq<ElemV>, k: int) -> Option<Seq<Event>>
    decreases s.len() - k,
{
    if k < 0 || k >= s.len() {
        Some(Seq::empty())
    } else {
        match s[k] {
            ElemV::Event(ev) => match spec_chord_events_from(s, k + 1) {
                Option::Some(rest) => Some(seq![ev] + rest),
                Option::None => None,
            },
            _ => None,
        }
    }
}

/// Parse a token range into a sequence of elements. `outer` concatenated
/// with the elements parsed so far at this level forms the visible context
/// for tie resolution; bracket groups recurse with that context. The first
/// token-level fault ends the sequence with its message.
pub open spec fn spec_parse_tokens_from(
    toks: Seq<Seq<char>>,
    i: int,
    outer: Seq<ElemV>,
    acc: Seq<ElemV>,
    nid: usize,
) -> Result<(Seq<ElemV>, usize), Seq<char>>
    decreases toks, (if toks.len() - i >= 0 { toks.len() - i } else { 0int }),
{
    if i < 0 || i >= toks.len() {
        Ok((acc, nid))
    } else if toks[i] == seq![','] {
        spec_parse_tokens_from(toks, i + 1, outer, acc, nid)
    } else if toks[i] == seq!['['] {
        let (e, d) = spec_scan_close(toks, i + 1, 1, '[', ']');
        if d != 0 {
            Err("Unmatched '['"@)
        } else {
            let lo = if 0 <= i + 1 <= toks.len() {
                i + 1
            } else {
                0
            };
            let hi = if e - 1 < lo {
                lo
            } else if e - 1 <= toks.len() {
                e - 1
            } else {
                toks.len() as int
            };
            let inner = toks.subrange(lo, hi);
            match spec_parse_tokens_from(inner, 0, outer + acc, Seq::empty(), nid) {
                Result::Err(msg) => Err(msg),
                Result::Ok(sub) => {
                    let nxt = if i < e <= toks.len() {
                        e
                    } else {
                        i + 1
                    };
                    spec_parse_tokens_from(
                        toks,
                        nxt,
                        outer,
                        acc.push(
                            ElemV::Subdivision {
                                div: (sub.0.len() as u32) as nat,
                                children: sub.0,
                            },
                        ),
                        sub.1,
                    )
                },
            }
        }
    } else if toks[i] == seq!['{'] {
        let (e, d) = spec_scan_close(toks, i + 1, 1, '{', '}');
        if d != 0 {
            Err("Unmatched '{'"@)
        } else {
            let lo = if 0 <= i + 1 <= toks.len() {
                i + 1
            } else {
                0
            };
            let hi = if e - 1 < lo {
                lo
            } else if e - 1 <= toks.len() {
                e - 1
            } else {
                toks.len() as int
            };
            let inner = toks.subrange(lo, hi);
            match spec_parse_tokens_from(inner, 0, outer + acc, Seq::empty(), nid) {
                Result::Err(msg) => Err(msg),
                Result::Ok(sub) => match spec_chord_events_from(sub.0, 0) {
                    Option::None => Err("Chord may contain only simple events"@),
                    Option::Some(evs) => {
                        let nxt = if i < e <= toks.len() {
                            e
                        } else {
                            i + 1
                        };
                        spec_parse_tokens_from(
                            toks,
                            nxt,
                            outer,
                            acc.push(
                                ElemV::Chord {
                                    events: evs,
                                    id: if evs.len() > 0 {
                                        evs[0].id
                                    } else {
                                        None
                                    },
                                },
                            ),
                            sub.1,
                        )
                    },
                },
            }
        }
    } else {
        match spec_parse_token(toks[i], outer + acc, nid) {
            Result::Err(msg) => Err(msg),
            Result::Ok(p) => spec_parse_tokens_from(toks, i + 1, outer, acc.push(p.0), p.1),
        }
    }
}

fn copy_token_range(toks: &Vec<Vec<char>>, from: usize, to: usize) -> (r: Vec<Vec<char>>)
    requires
        from <= to <= toks.len(),
    ensures
        r@.map_values(|t: Vec<char>| t@) =~= toks@.map_values(|t: Vec<char>| t@).subrange(
            from as int,
            to as int,
        ),
{
    let mut r: Vec<Vec<char>> = Vec::new();
    let mut x = from;
    while x < to
        invariant
            from <= x <= to <= toks.len(),
            r@.map_values(|t: Vec<char>| t@) =~= toks@.map_values(|t: Vec<char>| t@).subrange(
                from as int,
                x as int,
            ),
        decreases to - x,
    {
        let ghost rb = r@;
        let c = crate::text::copy_chars(&toks[x]);
        let ghost cv = c@;
        r.push(c);
        proof {
            assert(r@.map_values(|t: Vec<char>| t@) =~= rb.map_values(|t: Vec<char>| t@).push(
                cv,
            ));
            assert(toks@.map_values(|t: Vec<char>| t@).subrange(from as int, x as int + 1)
                =~= toks@.map_values(|t: Vec<char>| t@).subrange(from as int, x as int).push(
                toks@[x as int]@,
            ));
            assert(r@.map_values(|t: Vec<char>| t@) =~= toks@.map_values(
                |t: Vec<char>| t@,
            ).subrange(from as int, x as int + 1));
        }
        x = x + 1;
    }
    r
}

/// Parse one beat group's tokens into score elements, with `outer_prev` as
/// the context already visible for tie resolution.
#[verifier::loop_isolation(false)]
pub fn parse_tokens(tokens: &Vec<Vec<char>>, outer_prev: &Vec<ScoreElement>, next_id: usize) -> (r:
    Result<(Vec<ScoreElement>, usize), ParseError>)
    ensures
        ({
            let m = spec_parse_tokens_from(
                tokens@.map_values(|t: Vec<char>| t@),
                0,
                elems_view(outer_prev@),
                Seq::empty(),
                next_id,
            );
            &&& (r matches Ok(p) ==> m == Ok::<(Seq<ElemV>, usize), Seq<char>>(
                (elems_view(p.0@), p.1),
            ))
            &&& (r matches Err(e) ==> m == Err::<(Seq<ElemV>, usize), Seq<char>>(e@.message)
                && e@.line is None)
        }),
    decreases tokens@.len(),
{
    let ghost tv = tokens@.map_values(|t: Vec<char>| t@);
    let ghost outerv = elems_view(outer_prev@);
    let mut elems: Vec<ScoreElement> = Vec::new();
    let mut nid = next_id;
    let mut idx: usize = 0;
    proof {
        lemma_elems_view(elems@);
        assert(elems_view(elems@) =~= Seq::<ElemV>::empty());
    }
    while idx < tokens.len()
        invariant
            idx <= tokens.len(),
            spec_parse_tokens_from(tv, idx as int, outerv, elems_view(elems@), nid)
                == spec_parse_tokens_from(tv, 0, outerv, Seq::empty(), next_id),
        decreases tokens.len() - idx,
    {
        let ghost accv = elems_view(elems@);
        let t = &tokens[idx];
        proof {
            assert(tv[idx as int] == t@);
            reveal_strlit(",");
            reveal_strlit("[");
            reveal_strlit("{");
        }
        if t.len() == 1 && t[0] == ',' {
            proof {
                assert(tv[idx as int] =~= seq![',']);
            }
            idx = idx + 1;
        } else if t.len() == 1 && t[0] == '[' {
            proof {
                assert(tv[idx as int] =~= seq!['[']);
                assert(tv[idx as int] != seq![',']);
            }
            let (e, closed) = scan_close(tokens, idx + 1, '[', ']');
            if !closed {
                return Err(ParseError::new("Unmatched '['", None));
            }
            let inner = copy_token_range(tokens, idx + 1, e - 1);
            let mut combined = clone_elements(outer_prev);
            let mut tail = clone_elements(&elems);
            let ghost cb = combined@;
            let ghost tb = tail@;
            combined.append(&mut tail);
            proof {
                lemma_elems_view_concat(cb, tb);
            }
            match parse_tokens(&inner, &combined, nid) {
                Result::Err(err) => {
                    return Err(err);
                },
                Result::Ok(p) => {
                    let (subs, nid2) = p;
                    proof {
                        lemma_elems_view(subs@);
                    }
                    let div = subs.len() as u32;
                    let ghost eb = elems@;
                    let se = ScoreElement::Subdivision(
                        Subdivision { base_division: div, elements: subs },
                    );
                    elems.push(se);
                    proof {
                        lemma_elems_view_push(eb, se);
                        assert(elems_view(elems@) =~= accv.push(elem_view(se)));
                    }
                    nid = nid2;
                    idx = e;
                },
            }
        } else if t.len() == 1 && t[0] == '{' {
            proof {
                assert(tv[idx as int] =~= seq!['{']);
                assert(tv[idx as int] != seq![','] && tv[idx as int] != seq!['[']);
            }
            let (e, closed) = scan_close(tokens, idx + 1, '{', '}');
            if !closed {
                return Err(ParseError::new("Unmatched '{'", None));
            }
            let inner = copy_token_range(tokens, idx + 1, e - 1);
            let mut combined = clone_elements(outer_prev);
            let mut tail = clone_elements(&elems);
            let ghost cb = combined@;
            let ghost tb = tail@;
            combined.append(&mut tail);
            proof {
                lemma_elems_view_concat(cb, tb);
            }
            match parse_tokens(&inner, &combined, nid) {
                Result::Err(err) => {
                    return Err(err);
                },
                Result::Ok(p) => {
                    let (subs, nid2) = p;
                    let ghost subv = elems_view(subs@);
                    proof {
                        lemma_elems_view(subs@);
                    }
                    let mut evs: Vec<Event> = Vec::new();
                    let mut k: usize = 0;
                    let mut bad = false;
                    while k < subs.len() && !bad
                        invariant
                            k <= subs.len(),
                            subv == elems_view(subs@),
                            subv.len() == subs@.len(),
                            forall|x: int|
                                0 <= x < subs@.len() ==> subv[x] == elem_view(#[trigger] subs@[x]),
                            !bad ==> (match spec_chord_events_from(subv, k as int) {
                                Option::Some(rest) => spec_chord_events_from(subv, 0) == Some(
                                    evs@ + rest,
                                ),
                                Option::None => spec_chord_events_from(subv, 0) is None,
                            }),
                            bad ==> spec_chord_events_from(subv, 0) is None,
                        decreases subs.len() - k,
                    {
                        let ghost eb = evs@;
                        match &subs[k] {
                            ScoreElement::Event(ev) => {
                                evs.push(*ev);
                                proof {
                                    match spec_chord_events_from(subv, k as int + 1) {
                                        Option::Some(rest) => {
                                            assert(eb.push(*ev) + rest =~= eb + (seq![*ev]
                                                + rest));
                                        },
                                        Option::None => {
                                        },
                                    }
                                }
                            },
                            _ => {
                                bad = true;
                            },
                        }
                        k = k + 1;
                    }
                    if bad {
                        return Err(ParseError::new("Chord may contain only simple events", None));
                    }
                    proof {
                        assert(spec_chord_events_from(subv, k as int) == Some(
                            Seq::<Event>::empty(),
                        ));
                        assert(evs@ + Seq::<Event>::empty() =~= evs@);
                    }
                    let cid: Option<usize> = if evs.len() > 0 {
                        evs[0].id
                    } else {
                        None
                    };
                    let ghost eb = elems@;
                    let se = ScoreElement::Chord(Chord { events: evs, id: cid });
                    elems.push(se);
                    proof {
                        lemma_elems_view_push(eb, se);
                        assert(elems_view(elems@) =~= accv.push(elem_view(se)));
                    }
                    nid = nid2;
                    idx = e;
                },
            }
        } else {
            proof {
                assert(tv[idx as int] != seq![','] && tv[idx as int] != seq!['['] && tv[idx as int]
                    != seq!['{']) by {
                    if t@.len() != 1 {
                    } else {
                        assert(tv[idx as int] =~= seq![t@[0]]);
                    }
                }
            }
            let mut combined = clone_elements(outer_prev);
            let mut tail = clone_elements(&elems);
            let ghost cb = combined@;
            let ghost tb = tail@;
            combined.append(&mut tail);
            proof {
                lemma_elems_view_concat(cb, tb);
            }
            match parse_token(t, &combined, nid) {
                Result::Err(msg) => {
                    return Err(ParseError { message: msg, line: None });
                },
                Result::Ok(p) => {
                    let (se, nid2) = p;
                    let ghost eb = elems@;
                    elems.push(se);
                    proof {
                        lemma_elems_view_push(eb, se);
                        assert(elems_view(elems@) =~= accv.push(elem_view(se)));
                    }
                    nid = nid2;
                    idx = idx + 1;
                },
            }
        }
    }
    Ok((elems, nid))
}

// ------------------------------------------------------------------
// Whole-score parsing: one measure per line, errors accumulated.
// ------------------------------------------------------------------

/// The running state of the line-by-line parse: the sticky meter, the
/// measures and errors gathered so far, and the next event id.
pub struct PState {
    pub meter: Option<Meter>,
    pub measures: Seq<crate::data::MeasureV>,
    pub errors: Seq<ErrV>,
    pub nid: usize,
}

pub open spec fn spec_err(msg: Seq<char>, idx: usize) -> ErrV {
    ErrV { message: msg, line: Some(idx) }
}

/// Split a measure body's tokens into beats at depth-zero commas, parsing
/// each group independently with an empty outer context; group faults are
/// recorded at the measure's line and parsing goes on with the next beat.
pub open spec fn spec_beats_from(
    toks: Seq<Seq<char>>,
    k: int,
    depth: int,
    buf: Seq<Seq<char>>,
    beats: Seq<crate::data::BeatV>,
    errs: Seq<ErrV>,
    nid: usize,
    idx: usize,
) -> (Seq<crate::data::BeatV>, Seq<ErrV>, usize)
    decreases toks.len() - k,
{
    if k < 0 || k >= toks.len() {
        if buf.len() > 0 {
            match spec_parse_tokens_from(buf, 0, Seq::empty(), Seq::empty(), nid) {
                Result::Ok(p) => (
                    beats.push(
                        crate::data::BeatV { duration: Fraction { num: 0, den: 1 }, elements: p.0 },
                    ),
                    errs,
                    p.1,
                ),
                Result::Err(msg) => (beats, errs.push(spec_err(msg, idx)), nid),
            }
        } else {
            (beats, errs, nid)
        }
    } else {
        let t = toks[k];
        if t == seq!['['] || t == seq!['{'] {
            spec_beats_from(toks, k + 1, depth + 1, buf.push(t), beats, errs, nid, idx)
        } else if t == seq![']'] || t == seq!['}'] {
            spec_beats_from(toks, k + 1, depth - 1, buf.push(t), beats, errs, nid, idx)
        } else if t == seq![','] && depth == 0 {
            if buf.len() > 0 {
                match spec_parse_tokens_from(buf, 0, Seq::empty(), Seq::empty(), nid) {
                    Result::Ok(p) => spec_beats_from(
                        toks,
                        k + 1,
                        depth,
                        Seq::empty(),
                        beats.push(
                            crate::data::BeatV {
                                duration: Fraction { num: 0, den: 1 },
                                elements: p.0,
                            },
                        ),
                        errs,
                        p.1,
                        idx,
                    ),
                    Result::Err(msg) => spec_beats_from(
                        toks,
                        k + 1,
                        depth,
                        Seq::empty(),
                        beats,
                        errs.push(spec_err(msg, idx)),
                        nid,
                        idx,
                    ),
                }
            } else {
                spec_beats_from(toks, k + 1, depth, buf, beats, errs, nid, idx)
            }
        } else {
            spec_beats_from(toks, k + 1, depth, buf.push(t), beats, errs, nid, idx)
        }
    }
}

/// Process one source line: extract the measure number, the optional meter
/// (sticky across lines), the mandatory bracketed body, split it into
/// beats, check the beat count against the meter, and record the measure
/// when at least one beat parsed. Every fault is recorded at line `idx` and
/// aborts only this line.
pub open spec fn spec_parse_line(line: Seq<char>, idx: usize, st: PState) -> PState {
    let l = spec_trim(line);
    if l.len() == 0 {
        st
    } else {
        let ci = spec_find_char(l, ':', 0);
        if ci >= l.len() {
            PState {
                errors: st.errors.push(
                    spec_err("Measure number separator ':' is missing"@, idx),
                ),
                ..st
            }
        } else {
            let num_str = spec_trim(l.subrange(0, ci));
            if num_str.len() == 0 {
                PState {
                    errors: st.errors.push(
                        spec_err("Measure number is missing before ':'"@, idx),
                    ),
                    ..st
                }
            } else {
                match spec_parse_usize(num_str) {
                    Option::None => PState {
                        errors: st.errors.push(
                            spec_err(
                                "Invalid measure number '"@ + num_str + "'"@,
                                idx,
                            ),
                        ),
                        ..st
                    },
                    Option::Some(mno) => spec_parse_line_body(
                        spec_trim(l.subrange(ci + 1, l.len() as int)),
                        idx,
                        mno,
                        st,
                    ),
                }
            }
        }
    }
}

/// The rest of a line after its measure number.
pub open spec fn spec_parse_line_body(after: Seq<char>, idx: usize, mno: usize, st: PState) -> PState {
    let sp = spec_find_char(after, ' ', 0);
    let has_meter = sp < after.len() && spec_parse_meter(after.subrange(0, sp)) is Some;
    let meter_opt: Option<Meter> = if has_meter {
        spec_parse_meter(after.subrange(0, sp))
    } else {
        None
    };
    let content = if has_meter {
        spec_trim(after.subrange(sp + 1, after.len() as int))
    } else {
        after
    };
    if st.meter is None && meter_opt is None && st.measures.len() == 0 {
        PState {
            errors: st.errors.push(
                spec_err(
                    "No meter specified in the first measure (Measure "@ + crate::text::spec_udec(
                        mno as int,
                    ) + ")"@,
                    idx,
                ),
            ),
            ..st
        }
    } else {
        let cur: Option<Meter> = if meter_opt is Some {
            meter_opt
        } else {
            st.meter
        };
        let st2 = PState { meter: cur, ..st };
        if content.len() == 0 {
            if meter_opt is Some {
                st2
            } else {
                PState {
                    errors: st2.errors.push(
                        spec_err(
                            "No content found after measure number/meter (Measure "@
                                + crate::text::spec_udec(mno as int) + ")"@,
                            idx,
                        ),
                    ),
                    ..st2
                }
            }
        } else {
            match cur {
                Option::None => PState {
                    errors: st2.errors.push(
                        spec_err(
                            "Internal error: Meter not set (Measure "@ + crate::text::spec_udec(
                                mno as int,
                            ) + ")"@,
                            idx,
                        ),
                    ),
                    ..st2
                },
                Option::Some(mv) => spec_parse_measure_body(content, idx, mno, mv, st2),
            }
        }
    }
}

/// The bracketed body of a measure line.
pub open spec fn spec_parse_measure_body(
    content: Seq<char>,
    idx: usize,
    mno: usize,
    mv: Meter,
    st: PState,
) -> PState {
    let bs = spec_find_char(content, '[', 0);
    if bs >= content.len() {
        PState {
            errors: st.errors.push(
                spec_err(
                    "Missing '[' in content '"@ + content + "' (Measure "@
                        + crate::text::spec_udec(mno as int) + ")"@,
                    idx,
                ),
            ),
            ..st
        }
    } else {
        let be = spec_rfind_char(content, ']', content.len() as int);
        if be < 0 || be < bs + 1 {
            PState {
                errors: st.errors.push(
                    spec_err(
                        "Missing ']' (Measure "@ + crate::text::spec_udec(mno as int) + ")"@,
                        idx,
                    ),
                ),
                ..st
            }
        } else {
            let inner = content.subrange(bs + 1, be);
            let toks = spec_tokenize(inner);
            let (beats, errs, nid2) = spec_beats_from(
                toks,
                0,
                0,
                Seq::empty(),
                Seq::empty(),
                st.errors,
                st.nid,
                idx,
            );
            let errs2 = if beats.len() != mv.beats {
                errs.push(
                    spec_err(
                        "Number of beats ("@ + crate::text::spec_udec(beats.len() as int)
                            + ") does not match meter ("@ + crate::text::spec_udec(
                            mv.beats as int,
                        ) + ") (Measure "@ + crate::text::spec_udec(mno as int) + ")"@,
                        idx,
                    ),
                )
            } else {
                errs
            };
            let measures2 = if beats.len() > 0 {
                st.measures.push(
                    crate::data::MeasureV {
                        number: mno,
                        meter: mv,
                        duration: Fraction { num: 0, den: 1 },
                        unit_duration: Fraction { num: 0, den: 1 },
                        beats,
                    },
                )
            } else {
                st.measures
            };
            PState { meter: st.meter, measures: measures2, errors: errs2, nid: nid2 }
        }
    }
}

pub open spec fn eview(s: Seq<ParseError>) -> Seq<ErrV> {
    s.map_values(|e: ParseError| e@)
}

pub open spec fn mview(s: Seq<crate::data::Measure>) -> Seq<crate::data::MeasureV> {
    s.map_values(|m: crate::data::Measure| m@)
}

#[verifier::loop_isolation(false)]
fn split_beats(
    toks: &Vec<Vec<char>>,
    nid0: usize,
    idx: usize,
    errors: &mut Vec<ParseError>,
) -> (r: (Vec<Beat>, usize))
    ensures
        ({
            let m = spec_beats_from(
                toks@.map_values(|t: Vec<char>| t@),
                0,
                0,
                Seq::empty(),
                Seq::empty(),
                eview(old(errors)@),
                nid0,
                idx,
            );
            &&& r.0@.map_values(|b: Beat| b@) == m.0
            &&& eview(final(errors)@) == m.1
            &&& r.1 == m.2
        }),
{
    let ghost tv = toks@.map_values(|t: Vec<char>| t@);
    let mut beats: Vec<Beat> = Vec::new();
    let mut buf: Vec<Vec<char>> = Vec::new();
    let mut depth: i128 = 0;
    let mut nid = nid0;
    let mut k: usize = 0;
    let empty_ctx: Vec<ScoreElement> = Vec::new();
    proof {
        assert(buf@.map_values(|t: Vec<char>| t@) =~= Seq::<Seq<char>>::empty());
        assert(beats@.map_values(|b: Beat| b@) =~= Seq::<crate::data::BeatV>::empty());
        assert(elems_view(empty_ctx@) =~= Seq::<ElemV>::empty());
    }
    while k < toks.len()
        invariant
            k <= toks.len(),
            -(k as int) <= depth as int <= k as int,
            elems_view(empty_ctx@) == Seq::<ElemV>::empty(),
            spec_beats_from(
                tv,
                k as int,
                depth as int,
                buf@.map_values(|t: Vec<char>| t@),
                beats@.map_values(|b: Beat| b@),
                eview(errors@),
                nid,
                idx,
            ) == spec_beats_from(
                tv,
                0,
                0,
                Seq::empty(),
                Seq::empty(),
                eview(old(errors)@),
                nid0,
                idx,
            ),
        decreases toks.len() - k,
    {
        let ghost bufv = buf@.map_values(|t: Vec<char>| t@);
        let t = &toks[k];
        proof {
            assert(tv[k as int] == t@);
            if t@.len() == 1 {
                assert(tv[k as int] =~= seq![t@[0]]);
            }
        }
        let is_open = t.len() == 1 && (t[0] == '[' || t[0] == '{');
        let is_close = t.len() == 1 && (t[0] == ']' || t[0] == '}');
        let is_comma = t.len() == 1 && t[0] == ',';
        if is_open {
            let c = crate::text::copy_chars(t);
            buf.push(c);
            proof {
                assert(buf@.map_values(|t: Vec<char>| t@) =~= bufv.push(tv[k as int]));
            }
            depth = depth + 1;
        } else if is_close {
            let c = crate::text::copy_chars(t);
            buf.push(c);
            proof {
                assert(buf@.map_values(|t: Vec<char>| t@) =~= bufv.push(tv[k as int]));
            }
            depth = depth - 1;
        } else if is_comma && depth == 0 {
            if buf.len() > 0 {
                match parse_tokens(&buf, &empty_ctx, nid) {
                    Result::Ok(p) => {
                        let (elems, nid2) = p;
                        let ghost bb = beats@;
                        let b = Beat { duration: Fraction { num: 0, den: 1 }, elements: elems };
                        beats.push(b);
                        proof {
                            assert(beats@.map_values(|x: Beat| x@) =~= bb.map_values(
                                |x: Beat| x@,
                            ).push(b@));
                        }
                        nid = nid2;
                    },
                    Result::Err(mut e) => {
                        let ghost eb = errors@;
                        e.line = Some(idx);
                        proof {
                            assert(e@ == spec_err(e@.message, idx));
                        }
                        errors.push(e);
                        proof {
                            assert(eview(errors@) =~= eview(eb).push(
                                eview(errors@)[eview(errors@).len() - 1],
                            ));
                        }
                    },
                }
                buf = Vec::new();
                proof {
                    assert(buf@.map_values(|t: Vec<char>| t@) =~= Seq::<Seq<char>>::empty());
                }
            }
        } else {
            proof {
                if t@.len() != 1 {
                    assert(tv[k as int].len() != 1);
                }
            }
            let c = crate::text::copy_chars(t);
            buf.push(c);
            proof {
                assert(buf@.map_values(|t: Vec<char>| t@) =~= bufv.push(tv[k as int]));
            }
        }
        k = k + 1;
    }
    if buf.len() > 0 {
        match parse_tokens(&buf, &empty_ctx, nid) {
            Result::Ok(p) => {
                let (elems, nid2) = p;
                let ghost bb = beats@;
                let b = Beat { duration: Fraction { num: 0, den: 1 }, elements: elems };
                beats.push(b);
                proof {
                    assert(beats@.map_values(|x: Beat| x@) =~= bb.map_values(|x: Beat| x@).push(
                        b@,
                    ));
                }
                nid = nid2;
            },
            Result::Err(mut e) => {
                let ghost eb = errors@;
                e.line = Some(idx);
                proof {
                    assert(e@ == spec_err(e@.message, idx));
                }
                errors.push(e);
                proof {
                    assert(eview(errors@) =~= eview(eb).push(
                        eview(errors@)[eview(errors@).len() - 1],
                    ));
                }
            },
        }
    }
    (beats, nid)
}

/// Fold the per-line step over all lines.
pub open spec fn spec_parse_lines_from(lines: Seq<Seq<char>>, i: int, st: PState) -> PState
    decreases lines.len() - i,
{
    if i < 0 || i >= lines.len() {
        st
    } else {
        spec_parse_lines_from(lines, i + 1, spec_parse_line(lines[i], i as usize, st))
    }
}

/// An error whose message is `prefix` + the decimal of `mno` + `)`.
#[verifier::loop_isolation(false)]
fn push_measure_err(
    errors: &mut Vec<ParseError>,
    prefix: &str,
    mno: usize,
    idx: usize,
)
    ensures
        eview(final(errors)@) == eview(old(errors)@).push(
            spec_err(prefix@ + crate::text::spec_udec(mno as int) + ")"@, idx),
        ),
{
    let mut msg: Vec<char> = Vec::new();
    push_str_chars(&mut msg, prefix);
    let digits = usize_to_chars(mno);
    push_char_vec(&mut msg, &digits);
    push_str_chars(&mut msg, ")");
    proof {
        assert(msg@ =~= prefix@ + crate::text::spec_udec(mno as int) + ")"@);
    }
    let e = ParseError { message: chars_to_string(&msg), line: Some(idx) };
    let ghost eb = errors@;
    errors.push(e);
    proof {
        assert(eview(errors@) =~= eview(eb).push(
            spec_err(prefix@ + crate::text::spec_udec(mno as int) + ")"@, idx),
        ));
    }
}

/// An error with a fixed message.
#[verifier::loop_isolation(false)]
fn push_plain_err(errors: &mut Vec<ParseError>, msg: &str, idx: usize)
    ensures
        eview(final(errors)@) == eview(old(errors)@).push(spec_err(msg@, idx)),
{
    let ghost eb = errors@;
    errors.push(ParseError::new(msg, Some(idx)));
    proof {
        assert(eview(errors@) =~= eview(eb).push(spec_err(msg@, idx)));
    }
}

/// Process one source line against the running parse state.
#[verifier::loop_isolation(false)]
fn parse_line(
    line: &Vec<char>,
    idx: usize,
    meter: Option<Meter>,
    measures: &mut Vec<crate::data::Measure>,
    errors: &mut Vec<ParseError>,
    nid0: usize,
) -> (r: (Option<Meter>, usize))
    ensures
        ({
            let st2 = spec_parse_line(
                line@,
                idx,
                PState {
                    meter,
                    measures: mview(old(measures)@),
                    errors: eview(old(errors)@),
                    nid: nid0,
                },
            );
            &&& r.0 == st2.meter
            &&& mview(final(measures)@) == st2.measures
            &&& eview(final(errors)@) == st2.errors
            &&& r.1 == st2.nid
        }),
{
    let l = trim_chars(line);
    if l.len() == 0 {
        return (meter, nid0);
    }
    let ci = find_char(&l, ':', 0);
    if ci >= l.len() {
        push_plain_err(errors, "Measure number separator ':' is missing", idx);
        return (meter, nid0);
    }
    let head = copy_range(&l, 0, ci);
    let num_str = trim_chars(&head);
    if num_str.len() == 0 {
        push_plain_err(errors, "Measure number is missing before ':'", idx);
        return (meter, nid0);
    }
    let mno = match parse_usize_chars(&num_str) {
        Option::Some(m) => m,
        Option::None => {
            let mut msg: Vec<char> = Vec::new();
            push_str_chars(&mut msg, "Invalid measure number '");
            push_char_vec(&mut msg, &num_str);
            push_str_chars(&mut msg, "'");
            proof {
                assert(msg@ =~= "Invalid measure number '"@ + num_str@ + "'"@);
            }
            let ghost eb = errors@;
            errors.push(ParseError { message: chars_to_string(&msg), line: Some(idx) });
            proof {
                assert(eview(errors@) =~= eview(eb).push(
                    spec_err("Invalid measure number '"@ + num_str@ + "'"@, idx),
                ));
            }
            return (meter, nid0);
        },
    };
    let tail = copy_range(&l, ci + 1, l.len());
    let after = trim_chars(&tail);
    let sp = find_char(&after, ' ', 0);
    let meter_opt: Option<Meter> = if sp < after.len() {
        let mpart = copy_range(&after, 0, sp);
        parse_meter_chars(&mpart)
    } else {
        None
    };
    let content: Vec<char> = if meter_opt.is_some() {
        let rest = copy_range(&after, sp + 1, after.len());
        trim_chars(&rest)
    } else {
        crate::text::copy_chars(&after)
    };
    if meter.is_none() && meter_opt.is_none() && measures.len() == 0 {
        push_measure_err(errors, "No meter specified in the first measure (Measure ", mno, idx);
        return (meter, nid0);
    }
    let cur: Option<Meter> = if meter_opt.is_some() {
        meter_opt
    } else {
        meter
    };
    if content.len() == 0 {
        if meter_opt.is_some() {
            return (cur, nid0);
        }
        push_measure_err(
            errors,
            "No content found after measure number/meter (Measure ",
            mno,
            idx,
        );
        return (cur, nid0);
    }
    let mv = match cur {
        Option::Some(m) => m,
        Option::None => {
            push_measure_err(errors, "Internal error: Meter not set (Measure ", mno, idx);
            return (cur, nid0);
        },
    };
    let bs = find_char(&content, '[', 0);
    if bs >= content.len() {
        let mut msg: Vec<char> = Vec::new();
        push_str_chars(&mut msg, "Missing '[' in content '");
        push_char_vec(&mut msg, &content);
        push_str_chars(&mut msg, "' (Measure ");
        let digits = usize_to_chars(mno);
        push_char_vec(&mut msg, &digits);
        push_str_chars(&mut msg, ")");
        proof {
            assert(msg@ =~= "Missing '[' in content '"@ + content@ + "' (Measure "@
                + crate::text::spec_udec(mno as int) + ")"@);
        }
        let ghost eb = errors@;
        errors.push(ParseError { message: chars_to_string(&msg), line: Some(idx) });
        proof {
            assert(eview(errors@) =~= eview(eb).push(
                spec_err(
                    "Missing '[' in content '"@ + content@ + "' (Measure "@
                        + crate::text::spec_udec(mno as int) + ")"@,
                    idx,
                ),
            ));
        }
        return (cur, nid0);
    }
    let be = match rfind_char(&content, ']', content.len()) {
        Option::Some(be) => be,
        Option::None => {
            push_measure_err(errors, "Missing ']' (Measure ", mno, idx);
            return (cur, nid0);
        },
    };
    if be < bs + 1 {
        push_measure_err(errors, "Missing ']' (Measure ", mno, idx);
        return (cur, nid0);
    }
    let inner = copy_range(&content, bs + 1, be);
    let toks = tokenize_chars(&inner);
    let (beats, nid2) = split_beats(&toks, nid0, idx, errors);
    if beats.len() != mv.beats {
        let mut msg: Vec<char> = Vec::new();
        push_str_chars(&mut msg, "Number of beats (");
        let d1 = usize_to_chars(beats.len());
        push_char_vec(&mut msg, &d1);
        push_str_chars(&mut msg, ") does not match meter (");
        let d2 = usize_to_chars(mv.beats);
        push_char_vec(&mut msg, &d2);
        push_str_chars(&mut msg, ") (Measure ");
        let d3 = usize_to_chars(mno);
        push_char_vec(&mut msg, &d3);
        push_str_chars(&mut msg, ")");
        proof {
            assert(msg@ =~= "Number of beats ("@ + crate::text::spec_udec(beats@.len() as int)
                + ") does not match meter ("@ + crate::text::spec_udec(mv.beats as int)
                + ") (Measure "@ + crate::text::spec_udec(mno as int) + ")"@);
        }
        let ghost eb = errors@;
        errors.push(ParseError { message: chars_to_string(&msg), line: Some(idx) });
        proof {
            assert(eview(errors@) =~= eview(eb).push(
                spec_err(
                    "Number of beats ("@ + crate::text::spec_udec(beats@.len() as int)
                        + ") does not match meter ("@ + crate::text::spec_udec(mv.beats as int)
                        + ") (Measure "@ + crate::text::spec_udec(mno as int) + ")"@,
                    idx,
                ),
            ));
        }
    }
    if beats.len() > 0 {
        let ghost mb = measures@;
        let m = crate::data::Measure {
            number: mno,
            meter: mv,
            duration: Fraction { num: 0, den: 1 },
            unit_duration: Fraction { num: 0, den: 1 },
            beats,
        };
        measures.push(m);
        proof {
            assert(mview(measures@) =~= mview(mb).push(m@));
        }
    }
    (cur, nid2)
}

/// What parsing a whole text yields: the comment-stripped text is split
/// into lines and folded line by line; the result is the complete score
/// (one unnamed part) exactly when no error was recorded, and the full
/// error list otherwise.
pub open spec fn spec_parse_score(text: Seq<char>) -> Result<crate::data::ScoreV, Seq<ErrV>> {
    let lines = spec_lines(spec_strip(text));
    let st = spec_parse_lines_from(
        lines,
        0,
        PState { meter: None, measures: Seq::empty(), errors: Seq::empty(), nid: 0 },
    );
    if st.errors.len() == 0 {
        Ok(
            crate::data::ScoreV {
                parts: seq![
                    crate::data::PartV { name: Seq::<char>::empty(), measures: st.measures },
                ],
            },
        )
    } else {
        Err(st.errors)
    }
}

proof fn lemma_beats_errors_append(
    toks: Seq<Seq<char>>,
    k: int,
    depth: int,
    buf: Seq<Seq<char>>,
    beats: Seq<crate::data::BeatV>,
    errs: Seq<ErrV>,
    nid: usize,
    idx: usize,
)
    ensures
        ({
            let r = spec_beats_from(toks, k, depth, buf, beats, errs, nid, idx);
            &&& r.1.len() >= errs.len()
            &&& forall|x: int| 0 <= x < errs.len() ==> r.1[x] == errs[x]
            &&& forall|x: int| errs.len() <= x < r.1.len() ==> (#[trigger] r.1[x]).line == Some(
                idx,
            )
        }),
    decreases toks.len() - k,
{
    if k < 0 || k >= toks.len() {
        if buf.len() > 0 {
            match spec_parse_tokens_from(buf, 0, Seq::empty(), Seq::empty(), nid) {
                Result::Ok(p) => {
                },
                Result::Err(msg) => {
                    assert(spec_beats_from(toks, k, depth, buf, beats, errs, nid, idx).1
                        == errs.push(spec_err(msg, idx)));
                },
            }
        }
    } else {
        let t = toks[k];
        let r = spec_beats_from(toks, k, depth, buf, beats, errs, nid, idx);
        if t == seq!['['] || t == seq!['{'] {
            lemma_beats_errors_append(toks, k + 1, depth + 1, buf.push(t), beats, errs, nid, idx);
            assert(r == spec_beats_from(toks, k + 1, depth + 1, buf.push(t), beats, errs, nid, idx));
        } else if t == seq![']'] || t == seq!['}'] {
            lemma_beats_errors_append(toks, k + 1, depth - 1, buf.push(t), beats, errs, nid, idx);
            assert(r == spec_beats_from(toks, k + 1, depth - 1, buf.push(t), beats, errs, nid, idx));
        } else if t == seq![','] && depth == 0 {
            if buf.len() > 0 {
                match spec_parse_tokens_from(buf, 0, Seq::empty(), Seq::empty(), nid) {
                    Result::Ok(p) => {
                        let b2 = beats.push(
                            crate::data::BeatV {
                                duration: Fraction { num: 0, den: 1 },
                                elements: p.0,
                            },
                        );
                        lemma_beats_errors_append(
                            toks,
                            k + 1,
                            depth,
                            Seq::empty(),
                            b2,
                            errs,
                            p.1,
                            idx,
                        );
                        assert(r == spec_beats_from(toks, k + 1, depth, Seq::empty(), b2, errs, p.1, idx));
                    },
                    Result::Err(msg) => {
                        let e2 = errs.push(spec_err(msg, idx));
                        lemma_beats_errors_append(
                            toks,
                            k + 1,
                            depth,
                            Seq::empty(),
                            beats,
                            e2,
                            nid,
                            idx,
                        );
                        assert(r == spec_beats_from(toks, k + 1, depth, Seq::empty(), beats, e2, nid, idx));
                        assert forall|x: int| 0 <= x < errs.len() implies r.1[x] == errs[x] by {
                            assert(r.1[x] == e2[x]);
                        }
                        assert forall|x: int| errs.len() <= x < r.1.len() implies (#[trigger] r.1[x]).line
                            == Some(idx) by {
                            if x < e2.len() {
                                assert(r.1[x] == e2[x]);
                                assert(e2[x] == spec_err(msg, idx));
                            }
                        }
                    },
                }
            } else {
                lemma_beats_errors_append(toks, k + 1, depth, buf, beats, errs, nid, idx);
                assert(r == spec_beats_from(toks, k + 1, depth, buf, beats, errs, nid, idx));
            }
        } else {
            lemma_beats_errors_append(toks, k + 1, depth, buf.push(t), beats, errs, nid, idx);
            assert(r == spec_beats_from(toks, k + 1, depth, buf.push(t), beats, errs, nid, idx));
        }
    }
}

/// Processing one line never rewrites or drops recorded errors, and every
/// error it adds carries that line's own 0-based index.
pub proof fn lemma_line_errors_append(line: Seq<char>, idx: usize, st: PState)
    ensures
        ({
            let st2 = spec_parse_line(line, idx, st);
            &&& st2.errors.len() >= st.errors.len()
            &&& forall|x: int| 0 <= x < st.errors.len() ==> st2.errors[x] == st.errors[x]
            &&& forall|x: int|
                st.errors.len() <= x < st2.errors.len() ==> (#[trigger] st2.errors[x]).line
                    == Some(idx)
        }),
{
    let l = spec_trim(line);
    if l.len() == 0 {
    } else {
        let ci = spec_find_char(l, ':', 0);
        if ci >= l.len() {
        } else {
            let num_str = spec_trim(l.subrange(0, ci));
            if num_str.len() == 0 {
            } else {
                match spec_parse_usize(num_str) {
                    Option::None => {
                    },
                    Option::Some(mno) => {
                        lemma_line_body_errors_append(
                            spec_trim(l.subrange(ci + 1, l.len() as int)),
                            idx,
                            mno,
                            st,
                        );
                    },
                }
            }
        }
    }
}

proof fn lemma_line_body_errors_append(after: Seq<char>, idx: usize, mno: usize, st: PState)
    ensures
        ({
            let st2 = spec_parse_line_body(after, idx, mno, st);
            &&& st2.errors.len() >= st.errors.len()
            &&& forall|x: int| 0 <= x < st.errors.len() ==> st2.errors[x] == st.errors[x]
            &&& forall|x: int|
                st.errors.len() <= x < st2.errors.len() ==> (#[trigger] st2.errors[x]).line
                    == Some(idx)
        }),
{
    let sp = spec_find_char(after, ' ', 0);
    let has_meter = sp < after.len() && spec_parse_meter(after.subrange(0, sp)) is Some;
    let content = if has_meter {
        spec_trim(after.subrange(sp + 1, after.len() as int))
    } else {
        after
    };
    let meter_opt: Option<Meter> = if has_meter {
        spec_parse_meter(after.subrange(0, sp))
    } else {
        None
    };
    if st.meter is None && meter_opt is None && st.measures.len() == 0 {
    } else {
        let cur: Option<Meter> = if meter_opt is Some {
            meter_opt
        } else {
            st.meter
        };
        let st2 = PState { meter: cur, ..st };
        if content.len() == 0 {
        } else {
            match cur {
                Option::None => {
                },
                Option::Some(mv) => {
                    let bs = spec_find_char(content, '[', 0);
                    if bs >= content.len() {
                    } else {
                        let be = spec_rfind_char(content, ']', content.len() as int);
                        if be < 0 || be < bs + 1 {
                        } else {
                            let inner = content.subrange(bs + 1, be);
                            let toks = spec_tokenize(inner);
                            lemma_beats_errors_append(
                                toks,
                                0,
                                0,
                                Seq::empty(),
                                Seq::empty(),
                                st2.errors,
                                st2.nid,
                                idx,
                            );
                        }
                    }
                },
            }
        }
    }
}

/// The state after the first `j` lines.
pub open spec fn spec_state_upto(lines: Seq<Seq<char>>, j: int, st0: PState) -> PState
    decreases j,
{
    if j <= 0 {
        st0
    } else {
        spec_parse_line(lines[j - 1], (j - 1) as usize, spec_state_upto(lines, j - 1, st0))
    }
}

proof fn lemma_fold_split(lines: Seq<Seq<char>>, j: int, st0: PState)
    requires
        0 <= j <= lines.len(),
    ensures
        spec_parse_lines_from(lines, 0, st0) == spec_parse_lines_from(
            lines,
            j,
            spec_state_upto(lines, j, st0),
        ),
    decreases j,
{
    if j > 0 {
        lemma_fold_split(lines, j - 1, st0);
        lemma_fold_step(lines, j - 1, spec_state_upto(lines, j - 1, st0));
    }
}

proof fn lemma_fold_step(lines: Seq<Seq<char>>, j: int, st: PState)
    requires
        0 <= j < lines.len(),
    ensures
        spec_parse_lines_from(lines, j, st) == spec_parse_lines_from(
            lines,
            j + 1,
            spec_parse_line(lines[j], j as usize, st),
        ),
{
}

proof fn lemma_fold_errors_append(lines: Seq<Seq<char>>, i: int, st: PState)
    requires
        0 <= i <= lines.len(),
    ensures
        ({
            let st2 = spec_parse_lines_from(lines, i, st);
            &&& st2.errors.len() >= st.errors.len()
            &&& forall|x: int| 0 <= x < st.errors.len() ==> st2.errors[x] == st.errors[x]
        }),
    decreases lines.len() - i,
{
    if i < lines.len() {
        lemma_line_errors_append(lines[i], i as usize, st);
        lemma_fold_errors_append(lines, i + 1, spec_parse_line(lines[i], i as usize, st));
    }
}

/// Law (error exhaustiveness): when two distinct lines each record at least
/// one error, parsing returns the error list, and it contains an error
/// attributed to the first line's index and one attributed to the second's.
pub proof fn lemma_error_exhaustiveness(text: Seq<char>, i: int, j: int)
    requires
        0 <= i < j < spec_lines(spec_strip(text)).len(),
        ({
            let lines = spec_lines(spec_strip(text));
            let st0 = PState {
                meter: None,
                measures: Seq::empty(),
                errors: Seq::empty(),
                nid: 0,
            };
            &&& spec_parse_line(lines[i], i as usize, spec_state_upto(lines, i, st0)).errors.len()
                > spec_state_upto(lines, i, st0).errors.len()
            &&& spec_parse_line(lines[j], j as usize, spec_state_upto(lines, j, st0)).errors.len()
                > spec_state_upto(lines, j, st0).errors.len()
        }),
    ensures
        spec_parse_score(text) matches Err(es) && es.len() >= 2 && (exists|x: int|
            0 <= x < es.len() && (#[trigger] es[x]).line == Some(i as usize)) && (exists|x: int|
            0 <= x < es.len() && (#[trigger] es[x]).line == Some(j as usize)),
{
    let lines = spec_lines(spec_strip(text));
    let st0 = PState { meter: None, measures: Seq::empty(), errors: Seq::empty(), nid: 0 };
    let st_i = spec_state_upto(lines, i, st0);
    let st_i2 = spec_parse_line(lines[i], i as usize, st_i);
    let st_j = spec_state_upto(lines, j, st0);
    let st_j2 = spec_parse_line(lines[j], j as usize, st_j);
    lemma_line_errors_append(lines[i], i as usize, st_i);
    lemma_line_errors_append(lines[j], j as usize, st_j);
    let final_st = spec_parse_lines_from(lines, 0, st0);
    lemma_fold_split(lines, j + 1, st0);
    lemma_fold_errors_append(lines, j + 1, st_j2);
    // The error added at line j survives to the end.
    let kj = st_j.errors.len() as int;
    assert(st_j2.errors[kj].line == Some(j as usize));
    assert(final_st.errors[kj] == st_j2.errors[kj]);
    // The state before line j extends the state after line i, so the error
    // added at line i is already in it and survives as well.
    assert(spec_state_upto(lines, j, st0) == spec_parse_lines_from_upto_helper(lines, i + 1, j, st_i2)) by {
        lemma_state_upto_split(lines, i + 1, j, st0);
    }
    let ki = st_i.errors.len() as int;
    assert(st_i2.errors[ki].line == Some(i as usize));
    lemma_upto_errors_append(lines, i + 1, j, st_i2);
    assert(st_j.errors[ki] == st_i2.errors[ki]);
    assert(st_j2.errors[ki] == st_j.errors[ki]);
    assert(final_st.errors[ki] == st_j2.errors[ki]);
    assert(final_st.errors.len() >= 2);
    assert(spec_parse_score(text) matches Err(es) && es == final_st.errors);
    assert(final_st.errors[ki].line == Some(i as usize));
    assert(final_st.errors[kj].line == Some(j as usize));
}

/// The state after folding lines `a .. b` starting from `st`.
pub open spec fn spec_parse_lines_from_upto_helper(
    lines: Seq<Seq<char>>,
    a: int,
    b: int,
    st: PState,
) -> PState
    decreases b - a,
{
    if a >= b {
        st
    } else {
        spec_parse_lines_from_upto_helper(
            lines,
            a + 1,
            b,
            spec_parse_line(lines[a], a as usize, st),
        )
    }
}

proof fn lemma_state_upto_split(lines: Seq<Seq<char>>, a: int, b: int, st0: PState)
    requires
        0 < a <= b,
        b <= lines.len(),
    ensures
        spec_state_upto(lines, b, st0) == spec_parse_lines_from_upto_helper(
            lines,
            a,
            b,
            spec_state_upto(lines, a, st0),
        ),
    decreases b - a,
{
    if a < b {
        lemma_state_upto_split(lines, a, b - 1, st0);
        lemma_upto_helper_snoc(lines, a, b - 1, spec_state_upto(lines, a, st0));
    }
}

proof fn lemma_upto_helper_snoc(lines: Seq<Seq<char>>, a: int, b: int, st: PState)
    requires
        0 <= a <= b < lines.len(),
    ensures
        spec_parse_lines_from_upto_helper(lines, a, b + 1, st) == spec_parse_line(
            lines[b],
            b as usize,
            spec_parse_lines_from_upto_helper(lines, a, b, st),
        ),
    decreases b - a,
{
    if a < b {
        lemma_upto_helper_snoc(lines, a + 1, b, spec_parse_line(lines[a], a as usize, st));
    } else {
        assert(spec_parse_lines_from_upto_helper(
            lines,
            a + 1,
            b + 1,
            spec_parse_line(lines[a], a as usize, st),
        ) == spec_parse_line(lines[a], a as usize, st));
    }
}

proof fn lemma_upto_errors_append(lines: Seq<Seq<char>>, a: int, b: int, st: PState)
    requires
        0 <= a <= b <= lines.len(),
    ensures
        ({
            let st2 = spec_parse_lines_from_upto_helper(lines, a, b, st);
            &&& st2.errors.len() >= st.errors.len()
            &&& forall|x: int| 0 <= x < st.errors.len() ==> st2.errors[x] == st.errors[x]
        }),
    decreases b - a,
{
    if a < b {
        lemma_line_errors_append(lines[a], a as usize, st);
        lemma_upto_errors_append(lines, a + 1, b, spec_parse_line(lines[a], a as usize, st));
    }
}

/// Parse the whole notation text into a score with one unnamed part, or
/// into the complete, non-empty list of every error found. Exactly one of
/// the two is returned: a score only when no line had any fault.
#[verifier::loop_isolation(false)]
pub fn parse_score(input: &str) -> (r: Result<Score, Vec<ParseError>>)
    ensures
        (r matches Ok(sc) ==> spec_parse_score(input@) == Ok::<crate::data::ScoreV, Seq<ErrV>>(
            sc@,
        )),
        (r matches Err(es) ==> spec_parse_score(input@) == Err::<crate::data::ScoreV, Seq<ErrV>>(
            eview(es@),
        ) && es@.len() > 0),
{
    let cleaned = remove_comments_multiline(input);
    let chars = str_to_chars(cleaned.as_str());
    let lines = split_lines(&chars);
    let ghost lv = lines@.map_values(|l: Vec<char>| l@);
    proof {
        assert(lv == spec_lines(spec_strip(input@)));
    }
    let mut meter: Option<Meter> = None;
    let mut measures: Vec<crate::data::Measure> = Vec::new();
    let mut errors: Vec<ParseError> = Vec::new();
    let mut nid: usize = 0;
    let mut i: usize = 0;
    proof {
        assert(mview(measures@) =~= Seq::<crate::data::MeasureV>::empty());
        assert(eview(errors@) =~= Seq::<ErrV>::empty());
    }
    while i < lines.len()
        invariant
            i <= lines.len(),
            spec_parse_lines_from(
                lv,
                i as int,
                PState {
                    meter,
                    measures: mview(measures@),
                    errors: eview(errors@),
                    nid,
                },
            ) == spec_parse_lines_from(
                lv,
                0,
                PState {
                    meter: None,
                    measures: Seq::empty(),
                    errors: Seq::empty(),
                    nid: 0,
                },
            ),
        decreases lines.len() - i,
    {
        proof {
            assert(lv[i as int] == lines@[i as int]@);
        }
        let p = parse_line(&lines[i], i, meter, &mut measures, &mut errors, nid);
        meter = p.0;
        nid = p.1;
        i = i + 1;
    }
    if errors.len() == 0 {
        let mut parts: Vec<Part> = Vec::new();
        let ghost msv = mview(measures@);
        let part = Part { name: String::new(), measures };
        proof {
            assert(part@ == crate::data::PartV { name: Seq::<char>::empty(), measures: msv });
        }
        parts.push(part);
        let sc = Score { parts };
        proof {
            assert(sc@.parts =~= seq![
                crate::data::PartV { name: Seq::<char>::empty(), measures: msv },
            ]);
        }
        Ok(sc)
    } else {
        Err(errors)
    }
}

} // verus!
