//! Tie-run detection and greedy decomposition of exact durations into
//! canonical notation lengths.

use crate::data::{ElemV, Event, EventType, ScoreElement, Tie};
use crate::data::{elem_view, elems_view, lemma_elems_view};
use crate::frac::{Fraction, frac_valid, spec_frac_add};
use vstd::prelude::*;

verus! {

/// The fixed descending list of canonical notation lengths, in quarter-note
/// units: whole, dotted half, half, dotted quarter, quarter, dotted eighth,
/// eighth, sixteenth.
pub open spec fn canonical_values() -> Seq<Fraction> {
    seq![
        Fraction { num: 4, den: 1 },
        Fraction { num: 3, den: 1 },
        Fraction { num: 2, den: 1 },
        Fraction { num: 3, den: 2 },
        Fraction { num: 1, den: 1 },
        Fraction { num: 3, den: 4 },
        Fraction { num: 1, den: 2 },
        Fraction { num: 1, den: 4 },
    ]
}

/// Is `f` one of the canonical notation lengths?
pub open spec fn is_canonical(f: Fraction) -> bool {
    canonical_values().contains(f)
}

/// The canonical length at index `i`, in sixteenth-note units (quarter / 4).
pub open spec fn canonical_units(i: int) -> int {
    seq![16int, 12int, 8int, 6int, 4int, 3int, 2int, 1int][i]
}

/// The canonical notation lengths as an executable list.
pub fn get_note_durations() -> (r: Vec<Fraction>)
    ensures
        r@ == canonical_values(),
{
    let mut v: Vec<Fraction> = Vec::new();
    v.push(Fraction { num: 4, den: 1 });
    v.push(Fraction { num: 3, den: 1 });
    v.push(Fraction { num: 2, den: 1 });
    v.push(Fraction { num: 3, den: 2 });
    v.push(Fraction { num: 1, den: 1 });
    v.push(Fraction { num: 3, den: 4 });
    v.push(Fraction { num: 1, den: 2 });
    v.push(Fraction { num: 1, den: 4 });
    proof {
        assert(v@ =~= canonical_values());
    }
    v
}

/// Index of the largest canonical value not exceeding `r` sixteenth-units
/// over denominator `den`, scanning the fixed list from largest to smallest.
pub open spec fn spec_pick(r: int, den: int) -> Option<int> {
    if 16 * den <= r {
        Some(0int)
    } else if 12 * den <= r {
        Some(1int)
    } else if 8 * den <= r {
        Some(2int)
    } else if 6 * den <= r {
        Some(3int)
    } else if 4 * den <= r {
        Some(4int)
    } else if 3 * den <= r {
        Some(5int)
    } else if 2 * den <= r {
        Some(6int)
    } else if 1 * den <= r {
        Some(7int)
    } else {
        None
    }
}

/// Greedy decomposition of `r` sixteenth-units over denominator `den`:
/// repeatedly emit the largest canonical value that still fits.
pub open spec fn spec_decompose_from(r: int, den: int) -> Seq<Fraction>
    decreases r,
{
    if r <= 0 || den <= 0 {
        Seq::empty()
    } else {
        match spec_pick(r, den) {
            Option::None => Seq::empty(),
            Option::Some(i) => seq![canonical_values()[i]] + spec_decompose_from(
                r - canonical_units(i) * den,
                den,
            ),
        }
    }
}

/// Greedy decomposition of a duration `d`: the remainder starts at `d`
/// expressed in sixteenth-units over `d.den`.
pub open spec fn spec_decompose(d: Fraction) -> Seq<Fraction> {
    spec_decompose_from(4 * d.num, d.den as int)
}

/// Decompose a duration into canonical notation lengths, greedily from the
/// largest. The pieces sum to `d` exactly whenever `d` is a non-negative
/// multiple of a sixteenth; otherwise the remainder below one sixteenth is
/// dropped.
pub fn decompose(d: Fraction) -> (r: Vec<Fraction>)
    requires
        frac_valid(d),
    ensures
        r@ == spec_decompose(d),
{
    let den: i64 = d.den;
    let mut rem: i64 = 4 * d.num;
    let mut out: Vec<Fraction> = Vec::new();
    proof {
        assert(out@ + spec_decompose_from(rem as int, den as int) =~= spec_decompose(d));
    }
    while rem >= den
        invariant
            frac_valid(d),
            den == d.den,
            rem <= 4 * d.num,
            out@ + spec_decompose_from(rem as int, den as int) =~= spec_decompose(d),
        decreases rem,
    {
        let (idx, units, piece): (usize, i64, Fraction) = if 16 * den <= rem {
            (0, 16, Fraction { num: 4, den: 1 })
        } else if 12 * den <= rem {
            (1, 12, Fraction { num: 3, den: 1 })
        } else if 8 * den <= rem {
            (2, 8, Fraction { num: 2, den: 1 })
        } else if 6 * den <= rem {
            (3, 6, Fraction { num: 3, den: 2 })
        } else if 4 * den <= rem {
            (4, 4, Fraction { num: 1, den: 1 })
        } else if 3 * den <= rem {
            (5, 3, Fraction { num: 3, den: 4 })
        } else if 2 * den <= rem {
            (6, 2, Fraction { num: 1, den: 2 })
        } else {
            (7, 1, Fraction { num: 1, den: 4 })
        };
        proof {
            assert(spec_pick(rem as int, den as int) == Some(idx as int));
            assert(canonical_values()[idx as int] == piece);
            assert(canonical_units(idx as int) == units as int);
            assert(out@.push(piece) + spec_decompose_from(
                rem - units * den,
                den as int,
            ) =~= out@ + spec_decompose_from(rem as int, den as int));
        }
        out.push(piece);
        rem = rem - units * den;
    }
    proof {
        assert(spec_decompose_from(rem as int, den as int) =~= Seq::<Fraction>::empty());
        assert(out@ + Seq::<Fraction>::empty() =~= out@);
    }
    out
}

/// Every piece of a greedy decomposition is canonical, the pieces together
/// cover all of `r` but a remainder below one sixteenth (`den` units), and
/// the remainder is zero exactly when `den` divides `r`; at every step the
/// emitted piece is the largest canonical value that still fits.
pub proof fn lemma_decompose_from_props(r: int, den: int)
    requires
        den >= 1,
    ensures
        sum_units(spec_decompose_from(r, den)) * den <= if r >= 0 {
            r
        } else {
            0
        },
        r >= 0 ==> r - sum_units(spec_decompose_from(r, den)) * den < den,
        r % den == 0 && r >= 0 ==> sum_units(spec_decompose_from(r, den)) * den == r,
        forall|j: int|
            0 <= j < spec_decompose_from(r, den).len() ==> is_canonical(
                #[trigger] spec_decompose_from(r, den)[j],
            ),
    decreases
            if r >= 0 {
                r
            } else {
                0
            },
{
    if r <= 0 {
        assert(sum_units(Seq::<Fraction>::empty()) == 0);
        if r == 0 {
            assert(r % den == 0);
        }
    } else {
        match spec_pick(r, den) {
            Option::None => {
                assert(r < den);
                assert(sum_units(spec_decompose_from(r, den)) == 0);
                if r % den == 0 {
                    assert(r < den && r > 0);
                    assert(r % den == r) by (nonlinear_arith)
                        requires
                            0 < r < den,
                    ;
                }
            },
            Option::Some(i) => {
                let u = canonical_units(i);
                let rest = spec_decompose_from(r - u * den, den);
                lemma_decompose_from_props(r - u * den, den);
                let ps = spec_decompose_from(r, den);
                assert(ps == seq![canonical_values()[i]] + rest);
                assert(sum_units(ps) == piece_units(canonical_values()[i]) + sum_units(rest)) by {
                    lemma_sum_units_cons(canonical_values()[i], rest);
                }
                assert(piece_units(canonical_values()[i]) == u) by {
                    assert(piece_units(Fraction { num: 4, den: 1 }) == 16);
                    assert(piece_units(Fraction { num: 3, den: 1 }) == 12);
                    assert(piece_units(Fraction { num: 2, den: 1 }) == 8);
                    assert(piece_units(Fraction { num: 3, den: 2 }) == 6);
                    assert(piece_units(Fraction { num: 1, den: 1 }) == 4);
                    assert(piece_units(Fraction { num: 3, den: 4 }) == 3);
                    assert(piece_units(Fraction { num: 1, den: 2 }) == 2);
                    assert(piece_units(Fraction { num: 1, den: 4 }) == 1);
                }
                assert((sum_units(rest) + u) * den == sum_units(rest) * den + u * den)
                    by (nonlinear_arith);
                if r % den == 0 {
                    assert((r - u * den) % den == 0) by {
                        vstd::arithmetic::div_mod::lemma_mod_multiples_vanish(-u, r, den);
                        assert(den * -u + r == r - u * den) by (nonlinear_arith);
                    }
                }
                assert(forall|j: int| 0 <= j < ps.len() ==> is_canonical(#[trigger] ps[j])) by {
                    assert(canonical_values().contains(canonical_values()[i]));
                    assert(forall|j: int|
                        1 <= j < ps.len() ==> ps[j] == #[trigger] rest[j - 1]);
                }
            },
        }
    }
}

/// Law (greedy invariant): whenever the decomposition picks a piece, that
/// piece fits the remainder and every larger canonical value does not.
pub proof fn lemma_pick_is_greedy(r: int, den: int)
    requires
        den >= 1,
    ensures
        spec_pick(r, den) matches Some(i) ==> 0 <= i < 8 && canonical_units(i) * den <= r
            && forall|j: int| 0 <= j < i ==> #[trigger] canonical_units(j) * den > r,
{
    match spec_pick(r, den) {
        Option::None => {
        },
        Option::Some(i) => {
            assert forall|j: int| 0 <= j < i implies #[trigger] canonical_units(j) * den > r by {
                assert(canonical_units(0) == 16 && canonical_units(1) == 12 && canonical_units(2)
                    == 8 && canonical_units(3) == 6 && canonical_units(4) == 4 && canonical_units(
                    5,
                ) == 3 && canonical_units(6) == 2 && canonical_units(7) == 1);
            }
        },
    }
}

/// A canonical piece's length in sixteenth-units (its denominator is 1, 2 or 4).
pub open spec fn piece_units(p: Fraction) -> int {
    p.num * (if p.den == 1 {
        4int
    } else if p.den == 2 {
        2int
    } else {
        1int
    })
}

/// Total length of a piece list, in sixteenth-units.
pub open spec fn sum_units(ps: Seq<Fraction>) -> int
    decreases ps.len(),
{
    if ps.len() == 0 {
        0
    } else {
        piece_units(ps[0]) + sum_units(ps.drop_first())
    }
}

proof fn lemma_sum_units_cons(p: Fraction, rest: Seq<Fraction>)
    ensures
        sum_units(seq![p] + rest) == piece_units(p) + sum_units(rest),
{
    let s = seq![p] + rest;
    assert(s.len() == 1 + rest.len());
    assert(s[0] == p);
    assert(s.drop_first() =~= rest);
}

// ------------------------------------------------------------------
// Flattening the element tree into a run-detection sequence.
// ------------------------------------------------------------------

/// A flattened element: subdivisions are spliced away, everything else is kept.
#[derive(Debug)]
pub enum FlatUnit {
    Event(Event),
    Tie(Tie),
    Chord { events: Vec<Event>, id: Option<usize> },
}

/// Spec-level mirror of `FlatUnit`.
pub enum FlatV {
    Event(Event),
    Tie(Tie),
    Chord { events: Seq<Event>, id: Option<usize> },
}

pub open spec fn flat_view(u: FlatUnit) -> FlatV {
    match u {
        FlatUnit::Event(ev) => FlatV::Event(ev),
        FlatUnit::Tie(t) => FlatV::Tie(t),
        FlatUnit::Chord { events, id } => FlatV::Chord { events: events@, id },
    }
}

impl View for FlatUnit {
    type V = FlatV;

    open spec fn view(&self) -> FlatV {
        flat_view(*self)
    }
}

pub open spec fn flats_view(s: Seq<FlatUnit>) -> Seq<FlatV>
    decreases s.len(),
{
    if s.len() == 0 {
        Seq::empty()
    } else {
        seq![flat_view(s[0])] + flats_view(s.drop_first())
    }
}

/// `flats_view` maps the view pointwise.
pub proof fn lemma_flats_view(s: Seq<FlatUnit>)
    ensures
        flats_view(s).len() == s.len(),
        forall|i: int| 0 <= i < s.len() ==> flats_view(s)[i] == flat_view(s[i]),
    decreases s.len(),
{
    if s.len() > 0 {
        lemma_flats_view(s.drop_first());
    }
}

proof fn lemma_flats_view_push(s: Seq<FlatUnit>, u: FlatUnit)
    ensures
        flats_view(s.push(u)) =~= flats_view(s) + seq![flat_view(u)],
    decreases s.len(),
{
    lemma_flats_view(s);
    lemma_flats_view(s.push(u));
}

/// Depth-first flattening: subdivisions are transparent, their children are
/// spliced in order; events, ties and chords become flat units directly.
pub open spec fn spec_flatten_one(e: ElemV) -> Seq<FlatV>
    decreases e, 0int,
{
    match e {
        ElemV::Event(ev) => seq![FlatV::Event(ev)],
        ElemV::Tie(t) => seq![FlatV::Tie(t)],
        ElemV::Chord { events, id } => seq![FlatV::Chord { events, id }],
        ElemV::Subdivision { div, children } => spec_flatten_from(children, 0),
    }
}

pub open spec fn spec_flatten_from(s: Seq<ElemV>, i: int) -> Seq<FlatV>
    decreases s, (if s.len() - i >= 0 { s.len() - i } else { 0int }),
{
    if i < 0 || i >= s.len() {
        Seq::empty()
    } else {
        spec_flatten_one(s[i]) + spec_flatten_from(s, i + 1)
    }
}

pub open spec fn spec_flatten(s: Seq<ElemV>) -> Seq<FlatV> {
    spec_flatten_from(s, 0)
}

fn copy_events(v: &Vec<Event>) -> (r: Vec<Event>)
    ensures
        r@ == v@,
{
    let mut r: Vec<Event> = Vec::new();
    let mut i: usize = 0;
    while i < v.len()
        invariant
            i <= v.len(),
            r@ == v@.subrange(0, i as int),
        decreases v.len() - i,
    {
        r.push(v[i]);
        proof {
            assert(r@ =~= v@.subrange(0, i + 1));
        }
        i = i + 1;
    }
    proof {
        assert(v@.subrange(0, v@.len() as int) =~= v@);
    }
    r
}

fn flatten_from(elements: &Vec<ScoreElement>, i: usize, out: &mut Vec<FlatUnit>)
    requires
        i <= elements.len(),
    ensures
        flats_view(final(out)@) =~= flats_view(old(out)@) + spec_flatten_from(
            elems_view(elements@),
            i as int,
        ),
    decreases elements@, elements@.len() - i,
{
    proof {
        lemma_elems_view(elements@);
    }
    if i >= elements.len() {
        return ;
    }
    let ghost sv = elems_view(elements@);
    match &elements[i] {
        ScoreElement::Event(ev) => {
            let ghost before = out@;
            out.push(FlatUnit::Event(*ev));
            proof {
                lemma_flats_view_push(before, FlatUnit::Event(*ev));
            }
        },
        ScoreElement::Tie(t) => {
            let ghost before = out@;
            out.push(FlatUnit::Tie(*t));
            proof {
                lemma_flats_view_push(before, FlatUnit::Tie(*t));
            }
        },
        ScoreElement::Chord(c) => {
            let ghost before = out@;
            let u = FlatUnit::Chord { events: copy_events(&c.events), id: c.id };
            proof {
                assert(flat_view(u) == FlatV::Chord { events: c.events@, id: c.id });
            }
            out.push(u);
            proof {
                lemma_flats_view_push(before, u);
            }
        },
        ScoreElement::Subdivision(sub) => {
            proof {
                assert(elements@[i as int] == ScoreElement::Subdivision(*sub));
                assert(decreases_to!(elements@ => elements@[i as int]));
                assert(decreases_to!(elements@[i as int] => sub.elements@));
                assert(spec_flatten_one(sv[i as int]) == spec_flatten_from(
                    elems_view(sub.elements@),
                    0,
                ));
            }
            flatten_from(&sub.elements, 0, out);
        },
    }
    proof {
        assert(flats_view(out@) =~= flats_view(old(out)@) + spec_flatten_one(sv[i as int]));
    }
    let ghost mid = out@;
    flatten_from(elements, i + 1, out);
    proof {
        assert(spec_flatten_from(sv, i as int) == spec_flatten_one(sv[i as int])
            + spec_flatten_from(sv, i as int + 1));
        assert(flats_view(out@) =~= flats_view(mid) + spec_flatten_from(sv, i as int + 1));
        assert(flats_view(out@) =~= flats_view(old(out)@) + spec_flatten_from(sv, i as int));
    }
}

/// Flatten a measure's elements depth first.
pub fn flatten_elements(elements: &Vec<ScoreElement>) -> (r: Vec<FlatUnit>)
    ensures
        flats_view(r@) =~= spec_flatten(elems_view(elements@)),
{
    let mut out: Vec<FlatUnit> = Vec::new();
    proof {
        assert(flats_view(out@) =~= Seq::<FlatV>::empty());
    }
    flatten_from(elements, 0, &mut out);
    out
}

// ------------------------------------------------------------------
// Tie runs and notation entries.
// ------------------------------------------------------------------

/// The duration a flat unit contributes to a run: a chord contributes its
/// first event's duration (zero when empty).
pub open spec fn flat_dur(u: FlatV) -> Fraction {
    match u {
        FlatV::Event(ev) => ev.duration,
        FlatV::Tie(t) => t.duration,
        FlatV::Chord { events, .. } => if events.len() > 0 {
            events[0].duration
        } else {
            Fraction { num: 0, den: 1 }
        },
    }
}

/// Every flat unit's contributed duration is a valid fraction.
pub open spec fn flat_durs_valid(flat: Seq<FlatV>) -> bool {
    forall|j: int| 0 <= j < flat.len() ==> frac_valid(flat_dur(#[trigger] flat[j]))
}

/// Where the run that begins at `j` ends (exclusive). A run is extended by
/// ties (always) and by tie-flagged note events; a chord may start a run and
/// absorbs one immediately following tie, but never extends a running one.
pub open spec fn spec_run_end(flat: Seq<FlatV>, j: int, first: bool) -> int
    decreases flat.len() - j, (if first { 1int } else { 0int }),
{
    if j < 0 || j >= flat.len() {
        j
    } else {
        match flat[j] {
            FlatV::Event(ev) => if first || (ev.tie && !(ev.event_type is Rest)) {
                spec_run_end(flat, j + 1, false)
            } else {
                j
            },
            FlatV::Tie(t) => spec_run_end(flat, j + 1, first),
            FlatV::Chord { .. } => if first {
                if j + 1 < flat.len() && flat[j + 1] is Tie {
                    j + 2
                } else {
                    j + 1
                }
            } else {
                j
            },
        }
    }
}

/// A run neither shrinks nor overruns, and always advances from its start.
pub proof fn lemma_run_end_bounds(flat: Seq<FlatV>, j: int, first: bool)
    requires
        0 <= j <= flat.len(),
    ensures
        j <= spec_run_end(flat, j, first) <= flat.len(),
        j < flat.len() && first ==> spec_run_end(flat, j, first) >= j + 1,
    decreases flat.len() - j, (if first { 1int } else { 0int }),
{
    if j < flat.len() {
        match flat[j] {
            FlatV::Event(ev) => {
                lemma_run_end_bounds(flat, j + 1, false);
            },
            FlatV::Tie(t) => {
                lemma_run_end_bounds(flat, j + 1, first);
            },
            FlatV::Chord { .. } => {
            },
        }
    }
}

/// Event type and representative id of the run `[j, end)`: those of its
/// first event or chord; ties carry neither.
pub open spec fn spec_run_rep(flat: Seq<FlatV>, j: int, end: int) -> (EventType, Option<usize>)
    decreases end - j,
{
    if j < 0 || j >= end || j >= flat.len() {
        (EventType::Note, None)
    } else {
        match flat[j] {
            FlatV::Event(ev) => (ev.event_type, ev.id),
            FlatV::Tie(t) => spec_run_rep(flat, j + 1, end),
            FlatV::Chord { events, id } => (EventType::Note, id),
        }
    }
}

/// The exact duration of the run `[j, end)`, summed left to right starting
/// from `acc`; `None` when a partial sum leaves the representable range.
pub open spec fn spec_run_total(flat: Seq<FlatV>, j: int, end: int, acc: Fraction) -> Option<
    Fraction,
>
    decreases end - j,
{
    if j < 0 || j >= end || j >= flat.len() {
        Some(acc)
    } else {
        match spec_frac_add(acc, flat_dur(flat[j])) {
            Option::None => None,
            Option::Some(a2) => spec_run_total(flat, j + 1, end, a2),
        }
    }
}

/// One output entry of the decomposition engine.
#[derive(Debug)]
pub struct NoteEntry {
    pub measure: usize,
    pub id: usize,
    pub attributes: Vec<NoteAttributes>,
    /// For chord-originated runs, the ids of the simultaneous member events.
    pub source_ids: Option<Vec<usize>>,
}

/// Rendering attributes of one notation symbol.
#[derive(Debug)]
pub struct NoteAttributes {
    pub kind: String,
    pub accidental: String,
    pub duration: String,
}

pub struct AttrV {
    pub kind: Seq<char>,
    pub accidental: Seq<char>,
    pub duration: Seq<char>,
}

pub struct NoteEntryV {
    pub measure: usize,
    pub id: usize,
    pub attributes: Seq<AttrV>,
    pub source_ids: Option<Seq<usize>>,
}

impl View for NoteAttributes {
    type V = AttrV;

    open spec fn view(&self) -> AttrV {
        AttrV { kind: self.kind@, accidental: self.accidental@, duration: self.duration@ }
    }
}

impl View for NoteEntry {
    type V = NoteEntryV;

    open spec fn view(&self) -> NoteEntryV {
        NoteEntryV {
            measure: self.measure,
            id: self.id,
            attributes: self.attributes@.map_values(|a: NoteAttributes| a@),
            source_ids: match self.source_ids {
                Option::Some(v) => Some(v@),
                Option::None => None,
            },
        }
    }
}

pub open spec fn entries_view(s: Seq<NoteEntry>) -> Seq<NoteEntryV> {
    s.map_values(|e: NoteEntry| e@)
}

/// The duration string of a canonical piece, numerator over denominator.
pub open spec fn spec_piece_str(p: Fraction) -> Seq<char> {
    if p.num == 4 && p.den == 1 {
        "4/1"@
    } else if p.num == 3 && p.den == 1 {
        "3/1"@
    } else if p.num == 2 && p.den == 1 {
        "2/1"@
    } else if p.num == 3 && p.den == 2 {
        "3/2"@
    } else if p.num == 1 && p.den == 1 {
        "1/1"@
    } else if p.num == 3 && p.den == 4 {
        "3/4"@
    } else if p.num == 1 && p.den == 2 {
        "1/2"@
    } else if p.num == 1 && p.den == 4 {
        "1/4"@
    } else {
        "0/1"@
    }
}

fn piece_str(p: Fraction) -> (s: String)
    ensures
        s@ == spec_piece_str(p),
{
    if p.num == 4 && p.den == 1 {
        String::from_str("4/1")
    } else if p.num == 3 && p.den == 1 {
        String::from_str("3/1")
    } else if p.num == 2 && p.den == 1 {
        String::from_str("2/1")
    } else if p.num == 3 && p.den == 2 {
        String::from_str("3/2")
    } else if p.num == 1 && p.den == 1 {
        String::from_str("1/1")
    } else if p.num == 3 && p.den == 4 {
        String::from_str("3/4")
    } else if p.num == 1 && p.den == 2 {
        String::from_str("1/2")
    } else if p.num == 1 && p.den == 4 {
        String::from_str("1/4")
    } else {
        String::from_str("0/1")
    }
}

/// "rest" for rests, "note" for everything else.
pub open spec fn spec_kind_str(ty: EventType) -> Seq<char> {
    if ty is Rest {
        "rest"@
    } else {
        "note"@
    }
}

/// The ids of a chord's member events, in order, absent ids skipped.
pub open spec fn spec_chord_src(events: Seq<Event>) -> Seq<usize>
    decreases events.len(),
{
    if events.len() == 0 {
        Seq::empty()
    } else {
        (match events[0].id {
            Option::Some(id) => seq![id],
            Option::None => Seq::empty(),
        }) + spec_chord_src(events.drop_first())
    }
}

/// The per-voice source ids recorded for a run starting at unit `u`:
/// only chord-originated runs carry them.
pub open spec fn spec_src_of(u: FlatV) -> Option<Seq<usize>> {
    match u {
        FlatV::Chord { events, .. } => Some(spec_chord_src(events)),
        _ => None,
    }
}

/// The notation entry emitted for one canonical piece of a run.
pub open spec fn spec_entry(
    mnum: usize,
    ty: EventType,
    rep: Option<usize>,
    src: Option<Seq<usize>>,
    piece: Fraction,
) -> NoteEntryV {
    NoteEntryV {
        measure: mnum,
        id: match rep {
            Option::Some(x) => x,
            Option::None => 0,
        },
        attributes: seq![
            AttrV { kind: spec_kind_str(ty), accidental: "None"@, duration: spec_piece_str(piece) },
        ],
        source_ids: src,
    }
}

pub open spec fn spec_entries_from(
    mnum: usize,
    ty: EventType,
    rep: Option<usize>,
    src: Option<Seq<usize>>,
    pieces: Seq<Fraction>,
    k: int,
) -> Seq<NoteEntryV>
    decreases pieces.len() - k,
{
    if k < 0 || k >= pieces.len() {
        Seq::empty()
    } else {
        seq![spec_entry(mnum, ty, rep, src, pieces[k])] + spec_entries_from(
            mnum,
            ty,
            rep,
            src,
            pieces,
            k + 1,
        )
    }
}

/// The full grouping of the flat sequence from unit `i` on: detect the run,
/// sum it, decompose the sum, emit one entry per piece, and continue after
/// the run. `None` when a run's sum leaves the representable range.
pub open spec fn spec_group_from(mnum: usize, flat: Seq<FlatV>, i: int) -> Option<Seq<NoteEntryV>>
    decreases flat.len() - i,
{
    if i < 0 || i >= flat.len() {
        Some(Seq::empty())
    } else {
        let end = spec_run_end(flat, i, true);
        let next = if i < end <= flat.len() {
            end
        } else {
            i + 1
        };
        match spec_run_total(flat, i, end, Fraction { num: 0, den: 1 }) {
            Option::None => None,
            Option::Some(total) => {
                let (ty, rep) = spec_run_rep(flat, i, end);
                let entries = spec_entries_from(
                    mnum,
                    ty,
                    rep,
                    spec_src_of(flat[i]),
                    spec_decompose(total),
                    0,
                );
                match spec_group_from(mnum, flat, next) {
                    Option::None => None,
                    Option::Some(rest) => Some(entries + rest),
                }
            },
        }
    }
}

/// Law: the greedy decomposition of a valid duration `d` emits only canonical
/// values; their total never exceeds `d`; when `d` is a non-negative multiple
/// of a sixteenth (`d.den` divides `4 * d.num`) the pieces sum to `d` exactly,
/// and otherwise the dropped remainder is strictly below one sixteenth.
/// Lengths are measured in sixteenth-units: piece lengths sum to
/// `sum_units`, and `d` itself spans `4 * d.num / d.den` such units.
pub proof fn lemma_decompose_props(d: Fraction)
    requires
        frac_valid(d),
    ensures
        forall|j: int|
            0 <= j < spec_decompose(d).len() ==> is_canonical(#[trigger] spec_decompose(d)[j]),
        sum_units(spec_decompose(d)) * d.den <= if 4 * d.num >= 0 {
            4 * d.num
        } else {
            0
        },
        d.num >= 0 ==> 4 * d.num - sum_units(spec_decompose(d)) * d.den < d.den,
        d.num >= 0 && (4 * d.num) % (d.den as int) == 0 ==> sum_units(spec_decompose(d)) * d.den
            == 4 * d.num,
{
    lemma_decompose_from_props(4 * d.num, d.den as int);
}

/// Law: a tie marker immediately following a tie-flagged note event is merged
/// into that event's run, and the run's duration over those two units is the
/// exact arithmetic sum of both durations.
pub proof fn lemma_tie_absorption(flat: Seq<FlatV>, i: int)
    requires
        0 <= i,
        i + 1 < flat.len(),
        flat[i] matches FlatV::Event(ev) && ev.tie && ev.event_type is Note,
        flat[i + 1] is Tie,
        frac_valid(flat_dur(flat[i])),
        frac_valid(flat_dur(flat[i + 1])),
    ensures
        spec_run_end(flat, i, true) >= i + 2,
        spec_run_total(flat, i, i + 2, Fraction { num: 0, den: 1 }) matches Some(t) ==> frac_valid(
            t,
        ) && t.num * (flat_dur(flat[i]).den * flat_dur(flat[i + 1]).den) == (flat_dur(flat[i]).num
            * flat_dur(flat[i + 1]).den + flat_dur(flat[i + 1]).num * flat_dur(flat[i]).den)
            * t.den,
{
    let d1 = flat_dur(flat[i]);
    let d2 = flat_dur(flat[i + 1]);
    let z = Fraction { num: 0, den: 1 };
    lemma_run_end_bounds(flat, i + 2, false);
    assert(spec_run_end(flat, i, true) == spec_run_end(flat, i + 1, false));
    assert(spec_run_end(flat, i + 1, false) == spec_run_end(flat, i + 2, false));
    crate::frac::lemma_frac_add_props(z, d1);
    match spec_frac_add(z, d1) {
        Option::None => {
            assert(spec_run_total(flat, i, i + 2, z) is None);
        },
        Option::Some(a1) => {
            assert(spec_run_total(flat, i, i + 2, z) == spec_run_total(flat, i + 1, i + 2, a1));
            assert(a1.num * (1 * d1.den) == (0 * d1.den + d1.num * 1) * a1.den);
            assert(a1.num * d1.den == d1.num * a1.den) by (nonlinear_arith)
                requires
                    a1.num * (1 * d1.den) == (0 * d1.den + d1.num * 1) * a1.den,
            ;
            crate::frac::lemma_frac_add_props(a1, d2);
            match spec_frac_add(a1, d2) {
                Option::None => {
                    assert(spec_run_total(flat, i + 1, i + 2, a1) is None);
                },
                Option::Some(t) => {
                    assert(spec_run_total(flat, i + 2, i + 2, t) == Some(t));
                    assert(spec_run_total(flat, i + 1, i + 2, a1) == Some(t));
                    assert(t.num * (d1.den * d2.den) == (d1.num * d2.den + d2.num * d1.den)
                        * t.den) by (nonlinear_arith)
                        requires
                            t.num * (a1.den * d2.den) == (a1.num * d2.den + d2.num * a1.den)
                                * t.den,
                            a1.num * d1.den == d1.num * a1.den,
                            a1.den > 0,
                            d1.den > 0,
                            d2.den > 0,
                    ;
                },
            }
        },
    }
}

// ------------------------------------------------------------------
// Validity of durations through flattening.
// ------------------------------------------------------------------

/// Every duration stored in the element `e` is a valid fraction.
pub open spec fn elem_durs_valid(e: ElemV) -> bool
    decreases e, 0int,
{
    match e {
        ElemV::Event(ev) => frac_valid(ev.duration),
        ElemV::Tie(t) => frac_valid(t.duration),
        ElemV::Chord { events, .. } => forall|k: int|
            0 <= k < events.len() ==> frac_valid(#[trigger] events[k].duration),
        ElemV::Subdivision { children, .. } => elems_durs_valid_from(children, 0),
    }
}

pub open spec fn elems_durs_valid_from(s: Seq<ElemV>, i: int) -> bool
    decreases s, (if s.len() - i >= 0 { s.len() - i } else { 0int }),
{
    if i < 0 || i >= s.len() {
        true
    } else {
        elem_durs_valid(s[i]) && elems_durs_valid_from(s, i + 1)
    }
}

/// Every duration stored anywhere in the element sequence is valid.
pub open spec fn elems_durs_valid(s: Seq<ElemV>) -> bool {
    elems_durs_valid_from(s, 0)
}

/// Duration validity is pointwise over an element sequence.
pub proof fn lemma_elems_durs_valid_pointwise(s: Seq<ElemV>, i: int)
    requires
        0 <= i <= s.len(),
    ensures
        elems_durs_valid_from(s, i) <==> (forall|j: int|
            i <= j < s.len() ==> elem_durs_valid(#[trigger] s[j])),
    decreases s.len() - i,
{
    if i < s.len() {
        lemma_elems_durs_valid_pointwise(s, i + 1);
    }
}

/// Concatenation preserves duration validity.
pub proof fn lemma_elems_durs_valid_concat(a: Seq<ElemV>, b: Seq<ElemV>)
    requires
        elems_durs_valid(a),
        elems_durs_valid(b),
    ensures
        elems_durs_valid(a + b),
{
    lemma_elems_durs_valid_pointwise(a, 0);
    lemma_elems_durs_valid_pointwise(b, 0);
    lemma_elems_durs_valid_pointwise(a + b, 0);
    assert forall|j: int| 0 <= j < (a + b).len() implies elem_durs_valid(
        #[trigger] (a + b)[j],
    ) by {
        if j < a.len() {
            assert((a + b)[j] == a[j]);
        } else {
            assert((a + b)[j] == b[j - a.len()]);
        }
    }
}

proof fn lemma_flatten_one_durs(e: ElemV)
    requires
        elem_durs_valid(e),
    ensures
        flat_durs_valid(spec_flatten_one(e)),
    decreases e, 0int,
{
    match e {
        ElemV::Subdivision { children, .. } => {
            lemma_flatten_from_durs(children, 0);
        },
        _ => {
        },
    }
}

proof fn lemma_flatten_from_durs(s: Seq<ElemV>, i: int)
    requires
        elems_durs_valid_from(s, i),
    ensures
        flat_durs_valid(spec_flatten_from(s, i)),
    decreases s, (if s.len() - i >= 0 { s.len() - i } else { 0int }),
{
    if 0 <= i < s.len() {
        lemma_flatten_one_durs(s[i]);
        lemma_flatten_from_durs(s, i + 1);
        let head = spec_flatten_one(s[i]);
        let tail = spec_flatten_from(s, i + 1);
        assert forall|j: int| 0 <= j < (head + tail).len() implies frac_valid(
            flat_dur(#[trigger] (head + tail)[j]),
        ) by {
            if j < head.len() {
                assert((head + tail)[j] == head[j]);
            } else {
                assert((head + tail)[j] == tail[j - head.len()]);
            }
        }
    }
}

// ------------------------------------------------------------------
// Executable run scanning.
// ------------------------------------------------------------------

fn run_end(flat: &Vec<FlatUnit>, j: usize, first: bool) -> (end: usize)
    requires
        j <= flat.len(),
    ensures
        end as int == spec_run_end(flats_view(flat@), j as int, first),
        j <= end <= flat.len(),
    decreases flat.len() - j, (if first { 1int } else { 0int }),
{
    proof {
        lemma_flats_view(flat@);
    }
    if j >= flat.len() {
        return j;
    }
    match &flat[j] {
        FlatUnit::Event(ev) => {
            if first || (ev.tie && !matches!(ev.event_type, EventType::Rest)) {
                run_end(flat, j + 1, false)
            } else {
                j
            }
        },
        FlatUnit::Tie(t) => run_end(flat, j + 1, first),
        FlatUnit::Chord { .. } => {
            if first {
                if j + 1 < flat.len() && matches!(&flat[j + 1], FlatUnit::Tie(_)) {
                    j + 2
                } else {
                    j + 1
                }
            } else {
                j
            }
        },
    }
}

fn run_rep(flat: &Vec<FlatUnit>, j: usize, end: usize) -> (r: (EventType, Option<usize>))
    requires
        j <= end,
    ensures
        r == spec_run_rep(flats_view(flat@), j as int, end as int),
    decreases end - j,
{
    proof {
        lemma_flats_view(flat@);
    }
    if j >= end || j >= flat.len() {
        return (EventType::Note, None);
    }
    match &flat[j] {
        FlatUnit::Event(ev) => (ev.event_type, ev.id),
        FlatUnit::Tie(t) => run_rep(flat, j + 1, end),
        FlatUnit::Chord { events, id } => (EventType::Note, *id),
    }
}

fn run_total(flat: &Vec<FlatUnit>, j: usize, end: usize, acc: Fraction) -> (r: Option<Fraction>)
    requires
        j <= end,
        flat_durs_valid(flats_view(flat@)),
        frac_valid(acc),
    ensures
        r == spec_run_total(flats_view(flat@), j as int, end as int, acc),
        r matches Some(t) ==> frac_valid(t),
    decreases end - j,
{
    proof {
        lemma_flats_view(flat@);
    }
    if j >= end || j >= flat.len() {
        return Some(acc);
    }
    let d = match &flat[j] {
        FlatUnit::Event(ev) => ev.duration,
        FlatUnit::Tie(t) => t.duration,
        FlatUnit::Chord { events, .. } => {
            if events.len() > 0 {
                events[0].duration
            } else {
                Fraction::zero()
            }
        },
    };
    proof {
        assert(d == flat_dur(flats_view(flat@)[j as int]));
        assert(frac_valid(d));
    }
    match acc.add(d) {
        Option::None => None,
        Option::Some(a2) => {
            proof {
                crate::frac::lemma_frac_add_props(acc, d);
            }
            run_total(flat, j + 1, end, a2)
        },
    }
}

fn chord_src(events: &Vec<Event>) -> (r: Vec<usize>)
    ensures
        r@ == spec_chord_src(events@),
{
    let mut r: Vec<usize> = Vec::new();
    let mut k: usize = 0;
    proof {
        assert(events@.skip(0) =~= events@);
        assert(r@ + spec_chord_src(events@) =~= spec_chord_src(events@));
    }
    while k < events.len()
        invariant
            k <= events.len(),
            r@ + spec_chord_src(events@.skip(k as int)) =~= spec_chord_src(events@),
        decreases events.len() - k,
    {
        let ghost pre = r@;
        let ghost sk = events@.skip(k as int);
        proof {
            assert(sk[0] == events@[k as int]);
            assert(sk.drop_first() =~= events@.skip(k as int + 1));
        }
        match events[k].id {
            Option::Some(id) => {
                r.push(id);
                proof {
                    assert(pre.push(id) + spec_chord_src(events@.skip(k as int + 1)) =~= pre
                        + spec_chord_src(sk));
                }
            },
            Option::None => {
                proof {
                    assert(pre + spec_chord_src(events@.skip(k as int + 1)) =~= pre
                        + spec_chord_src(sk));
                }
            },
        }
        k = k + 1;
    }
    proof {
        assert(events@.skip(events@.len() as int) =~= Seq::<Event>::empty());
        assert(r@ + Seq::<usize>::empty() =~= r@);
    }
    r
}

fn copy_usize_vec(v: &Vec<usize>) -> (r: Vec<usize>)
    ensures
        r@ == v@,
{
    let mut r: Vec<usize> = Vec::new();
    let mut i: usize = 0;
    while i < v.len()
        invariant
            i <= v.len(),
            r@ == v@.subrange(0, i as int),
        decreases v.len() - i,
    {
        r.push(v[i]);
        proof {
            assert(r@ =~= v@.subrange(0, i + 1));
        }
        i = i + 1;
    }
    proof {
        assert(v@.subrange(0, v@.len() as int) =~= v@);
    }
    r
}

fn make_entry(
    mnum: usize,
    ty: EventType,
    rep: Option<usize>,
    src: &Option<Vec<usize>>,
    piece: Fraction,
) -> (e: NoteEntry)
    ensures
        e@ == spec_entry(
            mnum,
            ty,
            rep,
            match *src {
                Option::Some(v) => Some(v@),
                Option::None => None,
            },
            piece,
        ),
{
    let kind = if matches!(ty, EventType::Rest) {
        String::from_str("rest")
    } else {
        String::from_str("note")
    };
    let mut attrs: Vec<NoteAttributes> = Vec::new();
    attrs.push(
        NoteAttributes {
            kind,
            accidental: String::from_str("None"),
            duration: piece_str(piece),
        },
    );
    let id = match rep {
        Option::Some(x) => x,
        Option::None => 0,
    };
    let source_ids = match src {
        Option::Some(v) => Some(copy_usize_vec(v)),
        Option::None => None,
    };
    let e = NoteEntry { measure: mnum, id, attributes: attrs, source_ids };
    proof {
        assert(e@.attributes =~= spec_entry(
            mnum,
            ty,
            rep,
            match *src {
                Option::Some(v) => Some(v@),
                Option::None => None,
            },
            piece,
        ).attributes);
    }
    e
}

/// Group one measure's elements into notation entries: flatten, detect tie
/// runs, sum each run exactly, and decompose each sum greedily into canonical
/// lengths. `None` exactly when some run's sum leaves the representable range.
pub fn group_measure_elements(measure_num: usize, elements: &Vec<ScoreElement>) -> (r: Option<
    Vec<NoteEntry>,
>)
    requires
        elems_durs_valid(elems_view(elements@)),
    ensures
        (r is Some) == (spec_group_from(measure_num, spec_flatten(elems_view(elements@)), 0)
            is Some),
        r matches Some(v) ==> spec_group_from(measure_num, spec_flatten(elems_view(elements@)), 0)
            == Some(entries_view(v@)),
{
    let flat = flatten_elements(elements);
    let ghost fv = flats_view(flat@);
    proof {
        lemma_flats_view(flat@);
        lemma_flatten_from_durs(elems_view(elements@), 0);
        assert(fv == spec_flatten(elems_view(elements@)));
    }
    let mut out: Vec<NoteEntry> = Vec::new();
    let mut i: usize = 0;
    proof {
        assert(entries_view(out@) =~= Seq::<NoteEntryV>::empty());
        match spec_group_from(measure_num, fv, 0) {
            Option::Some(rest) => {
                assert(entries_view(out@) + rest =~= rest);
            },
            Option::None => {
            },
        }
    }
    while i < flat.len()
        invariant
            i <= flat.len(),
            fv == flats_view(flat@),
            fv.len() == flat@.len(),
            fv == spec_flatten(elems_view(elements@)),
            flat_durs_valid(fv),
            match spec_group_from(measure_num, fv, i as int) {
                Option::Some(rest) => spec_group_from(measure_num, fv, 0) == Some(
                    entries_view(out@) + rest,
                ),
                Option::None => spec_group_from(measure_num, fv, 0) is None,
            },
        decreases flat.len() - i,
    {
        proof {
            lemma_flats_view(flat@);
        }
        let end = run_end(&flat, i, true);
        proof {
            lemma_run_end_bounds(fv, i as int, true);
        }
        let total_opt = run_total(&flat, i, end, Fraction::zero());
        match total_opt {
            Option::None => {
                return None;
            },
            Option::Some(total) => {
                let (ty, rep) = run_rep(&flat, i, end);
                let src: Option<Vec<usize>> = match &flat[i] {
                    FlatUnit::Chord { events, .. } => Some(chord_src(events)),
                    _ => None,
                };
                let ghost srcv: Option<Seq<usize>> = match &src {
                    Option::Some(v) => Some(v@),
                    Option::None => None,
                };
                proof {
                    assert(fv[i as int] == flat_view(flat@[i as int]));
                    assert(srcv == spec_src_of(fv[i as int]));
                }
                let pieces = decompose(total);
                let ghost piecesv = pieces@;
                let ghost out_start = out@;
                let mut k: usize = 0;
                while k < pieces.len()
                    invariant
                        k <= pieces.len(),
                        piecesv == pieces@,
                        srcv == (match &src {
                            Option::Some(v) => Some(v@),
                            Option::None => None,
                        }),
                        entries_view(out@) + spec_entries_from(
                            measure_num,
                            ty,
                            rep,
                            srcv,
                            piecesv,
                            k as int,
                        ) =~= entries_view(out_start) + spec_entries_from(
                            measure_num,
                            ty,
                            rep,
                            srcv,
                            piecesv,
                            0,
                        ),
                    decreases pieces.len() - k,
                {
                    let ghost before = out@;
                    let e = make_entry(measure_num, ty, rep, &src, pieces[k]);
                    out.push(e);
                    proof {
                        assert(e@ == spec_entry(measure_num, ty, rep, srcv, piecesv[k as int]));
                        assert(spec_entries_from(measure_num, ty, rep, srcv, piecesv, k as int)
                            == seq![e@] + spec_entries_from(
                            measure_num,
                            ty,
                            rep,
                            srcv,
                            piecesv,
                            k as int + 1,
                        ));
                        assert(entries_view(before.push(e)) =~= entries_view(before) + seq![e@]);
                        assert(entries_view(out@) + spec_entries_from(
                            measure_num,
                            ty,
                            rep,
                            srcv,
                            piecesv,
                            k as int + 1,
                        ) =~= (entries_view(before) + seq![e@]) + spec_entries_from(
                            measure_num,
                            ty,
                            rep,
                            srcv,
                            piecesv,
                            k as int + 1,
                        ));
                        assert((entries_view(before) + seq![e@]) + spec_entries_from(
                            measure_num,
                            ty,
                            rep,
                            srcv,
                            piecesv,
                            k as int + 1,
                        ) =~= entries_view(before) + (seq![e@] + spec_entries_from(
                            measure_num,
                            ty,
                            rep,
                            srcv,
                            piecesv,
                            k as int + 1,
                        )));
                    }
                    k = k + 1;
                }
                proof {
                    assert(spec_entries_from(measure_num, ty, rep, srcv, piecesv, k as int)
                        =~= Seq::<NoteEntryV>::empty());
                    assert(entries_view(out@) =~= entries_view(out_start) + spec_entries_from(
                        measure_num,
                        ty,
                        rep,
                        srcv,
                        piecesv,
                        0,
                    ));
                }
                let next = if i < end && end <= flat.len() {
                    end
                } else {
                    i + 1
                };
                proof {
                    let gi = spec_group_from(measure_num, fv, i as int);
                    let gnext = spec_group_from(measure_num, fv, next as int);
                    assert(spec_run_total(fv, i as int, end as int, Fraction { num: 0, den: 1 })
                        == Some(total));
                    match gnext {
                        Option::Some(rest) => {
                            assert(gi == Some(
                                spec_entries_from(measure_num, ty, rep, srcv, piecesv, 0) + rest,
                            ));
                            assert(entries_view(out_start) + (spec_entries_from(
                                measure_num,
                                ty,
                                rep,
                                srcv,
                                piecesv,
                                0,
                            ) + rest) =~= entries_view(out@) + rest);
                        },
                        Option::None => {
                            assert(gi is None);
                        },
                    }
                }
                i = next;
            },
        }
    }
    proof {
        assert(spec_group_from(measure_num, fv, i as int) == Some(Seq::<NoteEntryV>::empty()));
        assert(entries_view(out@) + Seq::<NoteEntryV>::empty() =~= entries_view(out@));
    }
    Some(out)
}

} // verus!
