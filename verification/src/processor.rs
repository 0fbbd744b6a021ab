//! The duration assignment pass: derive each measure's exact beat length from
//! its meter and propagate it down the element tree by exact division.

use crate::data::{
    Beat, BeatV, ElemV, Event, Measure, MeasureV, Part, PartV, Score, ScoreElement, ScoreV,
    Subdivision, Chord, elems_view, lemma_elems_view,
};
use crate::frac::{
    Fraction, frac_valid, spec_frac_div, spec_frac_mul, spec_frac_new, lemma_frac_div_props,
    lemma_frac_mul_props, lemma_frac_new_props,
};
use vstd::prelude::*;

verus! {

/// Assignment of `slot` to a single element: events, ties and every event of
/// a chord receive `slot` itself; a subdivision divides `slot` evenly by its
/// `base_division` and assigns the quotient to its children. `None` when a
/// division has no representable exact result (or divides by zero).
pub open spec fn spec_assign_one(e: ElemV, slot: Fraction) -> Option<ElemV>
    decreases e, 0int,
{
    match e {
        ElemV::Event(ev) => Some(ElemV::Event(Event { duration: slot, ..ev })),
        ElemV::Tie(t) => Some(ElemV::Tie(crate::data::Tie { duration: slot, ..t })),
        ElemV::Chord { events, id } => Some(
            ElemV::Chord {
                events: events.map_values(|ev: Event| Event { duration: slot, ..ev }),
                id,
            },
        ),
        ElemV::Subdivision { div, children } => if div >= 4294967296int {
            None
        } else {
            match spec_frac_div(slot, div) {
                Option::None => None,
                Option::Some(sub_slot) => match spec_assign_from(children, 0, sub_slot) {
                    Option::None => None,
                    Option::Some(cs) => Some(ElemV::Subdivision { div, children: cs }),
                },
            }
        },
    }
}

pub open spec fn spec_assign_from(s: Seq<ElemV>, i: int, slot: Fraction) -> Option<Seq<ElemV>>
    decreases s, (if s.len() - i >= 0 { s.len() - i } else { 0int }),
{
    if i < 0 || i >= s.len() {
        Some(Seq::empty())
    } else {
        match spec_assign_one(s[i], slot) {
            Option::None => None,
            Option::Some(e2) => match spec_assign_from(s, i + 1, slot) {
                Option::None => None,
                Option::Some(rest) => Some(seq![e2] + rest),
            },
        }
    }
}

/// Assignment over a measure: the beat length is exactly `4 / unit` quarter
/// notes, the measure spans `beats` times that, and every beat receives the
/// full beat length regardless of its inner structure.
pub open spec fn spec_process_measure(m: MeasureV) -> Option<MeasureV> {
    match spec_frac_new(4, m.meter.unit as int) {
        Option::None => None,
        Option::Some(u) => if m.meter.beats >= 4294967296 {
            None
        } else {
            match spec_frac_mul(u, m.meter.beats as nat) {
                Option::None => None,
                Option::Some(total) => match spec_assign_beats(m.beats, 0, u) {
                    Option::None => None,
                    Option::Some(bs) => Some(
                        MeasureV {
                            number: m.number,
                            meter: m.meter,
                            duration: total,
                            unit_duration: u,
                            beats: bs,
                        },
                    ),
                },
            }
        },
    }
}

pub open spec fn spec_assign_beats(s: Seq<BeatV>, i: int, u: Fraction) -> Option<Seq<BeatV>>
    decreases s.len() - i,
{
    if i < 0 || i >= s.len() {
        Some(Seq::empty())
    } else {
        match spec_assign_from(s[i].elements, 0, u) {
            Option::None => None,
            Option::Some(es) => match spec_assign_beats(s, i + 1, u) {
                Option::None => None,
                Option::Some(rest) => Some(seq![BeatV { duration: u, elements: es }] + rest),
            },
        }
    }
}

pub open spec fn spec_process_measures(s: Seq<MeasureV>, i: int) -> Option<Seq<MeasureV>>
    decreases s.len() - i,
{
    if i < 0 || i >= s.len() {
        Some(Seq::empty())
    } else {
        match spec_process_measure(s[i]) {
            Option::None => None,
            Option::Some(m2) => match spec_process_measures(s, i + 1) {
                Option::None => None,
                Option::Some(rest) => Some(seq![m2] + rest),
            },
        }
    }
}

pub open spec fn spec_process_parts(s: Seq<PartV>, i: int) -> Option<Seq<PartV>>
    decreases s.len() - i,
{
    if i < 0 || i >= s.len() {
        Some(Seq::empty())
    } else {
        match spec_process_measures(s[i].measures, 0) {
            Option::None => None,
            Option::Some(ms) => match spec_process_parts(s, i + 1) {
                Option::None => None,
                Option::Some(rest) => Some(seq![PartV { name: s[i].name, measures: ms }] + rest),
            },
        }
    }
}

/// The whole duration assignment pass over a score.
pub open spec fn spec_process_score(s: ScoreV) -> Option<ScoreV> {
    match spec_process_parts(s.parts, 0) {
        Option::None => None,
        Option::Some(ps) => Some(ScoreV { parts: ps }),
    }
}

/// The exact rational sum of the beats' durations from index `i` on, as a
/// numerator/denominator pair of unbounded integers.
pub open spec fn beats_duration_sum(s: Seq<BeatV>, i: int) -> (int, int)
    decreases s.len() - i,
{
    if i < 0 || i >= s.len() {
        (0int, 1int)
    } else {
        let rest = beats_duration_sum(s, i + 1);
        let f = s[i].duration;
        (f.num * rest.1 + rest.0 * f.den, f.den * rest.1)
    }
}

proof fn lemma_beats_sum_equal(s: Seq<BeatV>, i: int, u: Fraction)
    requires
        0 <= i <= s.len(),
        frac_valid(u),
        forall|k: int| i <= k < s.len() ==> (#[trigger] s[k]).duration == u,
    ensures
        beats_duration_sum(s, i).1 >= 1,
        beats_duration_sum(s, i).0 * u.den == (s.len() - i) * u.num * beats_duration_sum(s, i).1,
    decreases s.len() - i,
{
    if i < s.len() {
        lemma_beats_sum_equal(s, i + 1, u);
        let n1 = beats_duration_sum(s, i + 1).0;
        let d1 = beats_duration_sum(s, i + 1).1;
        let n0 = beats_duration_sum(s, i).0;
        let d0 = beats_duration_sum(s, i).1;
        let cnt = s.len() - i;
        assert(s[i].duration == u);
        assert(n0 == u.num * d1 + n1 * u.den && d0 == u.den * d1);
        assert(n1 * u.den == (cnt - 1) * u.num * d1);
        assert(n0 * u.den == u.num * d1 * u.den + (n1 * u.den) * u.den) by (nonlinear_arith)
            requires
                n0 == u.num * d1 + n1 * u.den,
        ;
        assert((n1 * u.den) * u.den == ((cnt - 1) * u.num * d1) * u.den) by (nonlinear_arith)
            requires
                n1 * u.den == (cnt - 1) * u.num * d1,
        ;
        assert(u.num * d1 * u.den + ((cnt - 1) * u.num * d1) * u.den == cnt * u.num * (u.den
            * d1)) by (nonlinear_arith);
        assert(d0 >= 1) by (nonlinear_arith)
            requires
                d1 >= 1,
                u.den >= 1,
                d0 == u.den * d1,
        ;
        assert(n0 * u.den == cnt * u.num * d0);
        assert(beats_duration_sum(s, i).0 * u.den == (s.len() - i) * u.num * beats_duration_sum(
            s,
            i,
        ).1);
    } else {
        assert(beats_duration_sum(s, i) == (0int, 1int));
        assert(beats_duration_sum(s, i).0 * u.den == 0);
        assert((s.len() - i) * u.num * beats_duration_sum(s, i).1 == 0) by (nonlinear_arith)
            requires
                s.len() - i == 0,
                beats_duration_sum(s, i).1 == 1,
        ;
    }
}

/// Law: after duration assignment, every beat of a measure carries exactly
/// the measure's unit duration `4 / unit`; for a measure whose beat count
/// matches its meter, the exact sum of its beats' durations is `beats * 4 /
/// unit`, and so is the measure's own total duration.
pub proof fn lemma_measure_durations(m: MeasureV)
    requires
        spec_process_measure(m) is Some,
        m.beats.len() == m.meter.beats,
    ensures
        spec_process_measure(m) matches Some(m2) ==> {
            &&& m2.beats.len() == m.beats.len()
            &&& forall|k: int|
                0 <= k < m2.beats.len() ==> (#[trigger] m2.beats[k]).duration == m2.unit_duration
            &&& frac_valid(m2.unit_duration)
            &&& m2.unit_duration.num * (m.meter.unit as int) == 4 * m2.unit_duration.den
            &&& m2.duration.num * (m.meter.unit as int) == 4 * (m.meter.beats as int)
                * m2.duration.den
            &&& beats_duration_sum(m2.beats, 0).0 * (m.meter.unit as int) == 4 * (
            m.meter.beats as int) * beats_duration_sum(m2.beats, 0).1
            &&& beats_duration_sum(m2.beats, 0).1 >= 1
        },
{
    let u = spec_frac_new(4, m.meter.unit as int)->Some_0;
    lemma_frac_new_props(4, m.meter.unit as int);
    let total = spec_frac_mul(u, m.meter.beats as nat)->Some_0;
    lemma_frac_mul_props(u, m.meter.beats as nat);
    let bs = spec_assign_beats(m.beats, 0, u)->Some_0;
    lemma_assign_beats_durs(m.beats, 0, u);
    let m2 = spec_process_measure(m)->Some_0;
    assert(m2.beats == bs && m2.unit_duration == u && m2.duration == total);
    assert(u.num * (m.meter.unit as int) == 4 * u.den);
    assert(total.num * (m.meter.unit as int) == 4 * (m.meter.beats as int) * total.den)
        by (nonlinear_arith)
        requires
            total.num * u.den == u.num * (m.meter.beats as int) * total.den,
            u.num * (m.meter.unit as int) == 4 * u.den,
            u.den >= 1,
            m.meter.unit as int >= 1,
    ;
    lemma_beats_sum_equal(bs, 0, u);
    let sum = beats_duration_sum(bs, 0);
    assert(sum.0 * (m.meter.unit as int) == 4 * (m.meter.beats as int) * sum.1)
        by (nonlinear_arith)
        requires
            sum.0 * u.den == (bs.len() as int) * u.num * sum.1,
            bs.len() == m.meter.beats as int,
            u.num * (m.meter.unit as int) == 4 * u.den,
            u.den >= 1,
            sum.1 >= 1,
    ;
}

proof fn lemma_assign_beats_durs(s: Seq<BeatV>, i: int, u: Fraction)
    requires
        0 <= i <= s.len(),
        spec_assign_beats(s, i, u) is Some,
    ensures
        spec_assign_beats(s, i, u) matches Some(bs) ==> bs.len() == s.len() - i && forall|k: int|
            0 <= k < bs.len() ==> (#[trigger] bs[k]).duration == u,
    decreases s.len() - i,
{
    if i < s.len() {
        lemma_assign_beats_durs(s, i + 1, u);
    }
}

/// Law: after assignment, every event inside one chord carries one identical
/// duration: the chord's whole slot.
pub proof fn lemma_chord_homogeneity(events: Seq<Event>, id: Option<usize>, slot: Fraction)
    ensures
        spec_assign_one(ElemV::Chord { events, id }, slot) matches Some(c2) ==> c2 matches
            ElemV::Chord { events: es2, .. } && es2.len() == events.len() && forall|k: int|
            0 <= k < events.len() ==> (#[trigger] es2[k]).duration == slot,
{
}

/// Law: a subdivision with a positive division count equal to its child
/// count splits its slot exactly: each child receives `slot / div`, and
/// `div` such shares together make up the whole slot again.
pub proof fn lemma_subdivision_exact(div: nat, children: Seq<ElemV>, slot: Fraction)
    requires
        frac_valid(slot),
        1 <= div < 4294967296,
        spec_assign_one(ElemV::Subdivision { div, children }, slot) is Some,
    ensures
        spec_frac_div(slot, div) matches Some(q) ==> frac_valid(q) && (div * q.num) * slot.den
            == slot.num * q.den,
        spec_assign_one(ElemV::Subdivision { div, children }, slot) matches Some(s2) ==> s2
            matches ElemV::Subdivision { div: d2, children: c2 } && d2 == div && Some(c2)
            == spec_assign_from(children, 0, spec_frac_div(slot, div)->Some_0),
{
    lemma_frac_div_props(slot, div);
    match spec_frac_div(slot, div) {
        Option::None => {
        },
        Option::Some(q) => {
            assert((div * q.num) * slot.den == slot.num * q.den) by (nonlinear_arith)
                requires
                    q.num * (slot.den * div) == slot.num * q.den,
                    slot.den >= 1,
                    div >= 1,
            ;
        },
    }
}

proof fn lemma_assign_one_durs(e: ElemV, slot: Fraction)
    requires
        frac_valid(slot),
    ensures
        spec_assign_one(e, slot) matches Some(e2) ==> crate::grouping::elem_durs_valid(e2),
    decreases e, 0int,
{
    match e {
        ElemV::Subdivision { div, children } => {
            if div < 4294967296 {
                match spec_frac_div(slot, div) {
                    Option::None => {
                    },
                    Option::Some(sub_slot) => {
                        assert(div >= 1);
                        lemma_frac_div_props(slot, div);
                        lemma_assign_from_durs(children, 0, sub_slot);
                    },
                }
            }
        },
        _ => {
        },
    }
}

proof fn lemma_assign_from_durs(s: Seq<ElemV>, i: int, slot: Fraction)
    requires
        frac_valid(slot),
    ensures
        spec_assign_from(s, i, slot) matches Some(out) ==> crate::grouping::elems_durs_valid(out),
    decreases s, (if s.len() - i >= 0 { s.len() - i } else { 0int }),
{
    if 0 <= i < s.len() {
        match spec_assign_one(s[i], slot) {
            Option::None => {
            },
            Option::Some(e2) => {
                lemma_assign_one_durs(s[i], slot);
                match spec_assign_from(s, i + 1, slot) {
                    Option::None => {
                    },
                    Option::Some(rest) => {
                        lemma_assign_from_durs(s, i + 1, slot);
                        assert(crate::grouping::elems_durs_valid_from(seq![e2], 1));
                        assert(crate::grouping::elems_durs_valid(seq![e2]));
                        crate::grouping::lemma_elems_durs_valid_concat(seq![e2], rest);
                    },
                }
            },
        }
    }
}

/// The duration pass leaves only valid fractions in the tree: every element
/// of every beat of a processed score stores representable durations, as the
/// tie-run engine requires.
pub proof fn lemma_process_durs_valid(s: ScoreV)
    ensures
        spec_process_score(s) matches Some(s2) ==> crate::score_def::score_durs_valid(s2),
{
    match spec_process_parts(s.parts, 0) {
        Option::None => {
        },
        Option::Some(ps) => {
            lemma_process_parts_durs_valid(s.parts, 0);
        },
    }
}

proof fn lemma_process_parts_durs_valid(parts: Seq<PartV>, i: int)
    ensures
        spec_process_parts(parts, i) matches Some(ps) ==> forall|p: int, m: int, k: int|
            0 <= p < ps.len() && 0 <= m < ps[p].measures.len() && 0 <= k
                < ps[p].measures[m].beats.len() ==> crate::grouping::elems_durs_valid(
                #[trigger] ps[p].measures[m].beats[k].elements,
            ),
    decreases parts.len() - i,
{
    if 0 <= i < parts.len() {
        match spec_process_measures(parts[i].measures, 0) {
            Option::None => {
            },
            Option::Some(ms) => {
                lemma_process_measures_durs_valid(parts[i].measures, 0);
                match spec_process_parts(parts, i + 1) {
                    Option::None => {
                    },
                    Option::Some(rest) => {
                        lemma_process_parts_durs_valid(parts, i + 1);
                        let ps = spec_process_parts(parts, i)->Some_0;
                        assert forall|p: int, m: int, k: int|
                            0 <= p < ps.len() && 0 <= m < ps[p].measures.len() && 0 <= k
                                < ps[p].measures[m].beats.len() implies crate::grouping::elems_durs_valid(
                            #[trigger] ps[p].measures[m].beats[k].elements,
                        ) by {
                            if p == 0 {
                                assert(ps[p].measures == ms);
                            } else {
                                assert(ps[p] == rest[p - 1]);
                                assert(crate::grouping::elems_durs_valid(
                                    rest[p - 1].measures[m].beats[k].elements,
                                ));
                            }
                        }
                    },
                }
            },
        }
    }
}

proof fn lemma_process_measures_durs_valid(ms: Seq<MeasureV>, i: int)
    ensures
        spec_process_measures(ms, i) matches Some(out) ==> forall|m: int, k: int|
            0 <= m < out.len() && 0 <= k < out[m].beats.len()
                ==> crate::grouping::elems_durs_valid(#[trigger] out[m].beats[k].elements),
    decreases ms.len() - i,
{
    if 0 <= i < ms.len() {
        match spec_process_measure(ms[i]) {
            Option::None => {
            },
            Option::Some(m2) => {
                lemma_process_measure_durs_valid(ms[i]);
                match spec_process_measures(ms, i + 1) {
                    Option::None => {
                    },
                    Option::Some(rest) => {
                        lemma_process_measures_durs_valid(ms, i + 1);
                        let out = spec_process_measures(ms, i)->Some_0;
                        assert forall|m: int, k: int|
                            0 <= m < out.len() && 0 <= k < out[m].beats.len()
                                implies crate::grouping::elems_durs_valid(
                            #[trigger] out[m].beats[k].elements,
                        ) by {
                            if m == 0 {
                                assert(out[m] == m2);
                            } else {
                                assert(out[m] == rest[m - 1]);
                            }
                        }
                    },
                }
            },
        }
    }
}

proof fn lemma_process_measure_durs_valid(m: MeasureV)
    ensures
        spec_process_measure(m) matches Some(m2) ==> forall|k: int|
            0 <= k < m2.beats.len() ==> crate::grouping::elems_durs_valid(
                #[trigger] m2.beats[k].elements,
            ),
{
    match spec_frac_new(4, m.meter.unit as int) {
        Option::None => {
        },
        Option::Some(u) => {
            if m.meter.beats < 4294967296 {
                lemma_frac_new_props(4, m.meter.unit as int);
                lemma_assign_beats_durs_valid(m.beats, 0, u);
            }
        },
    }
}

proof fn lemma_assign_beats_durs_valid(s: Seq<BeatV>, i: int, u: Fraction)
    requires
        frac_valid(u),
    ensures
        spec_assign_beats(s, i, u) matches Some(bs) ==> forall|k: int|
            0 <= k < bs.len() ==> crate::grouping::elems_durs_valid(
                #[trigger] bs[k].elements,
            ),
    decreases s.len() - i,
{
    if 0 <= i < s.len() {
        match spec_assign_from(s[i].elements, 0, u) {
            Option::None => {
            },
            Option::Some(es) => {
                lemma_assign_from_durs(s[i].elements, 0, u);
                match spec_assign_beats(s, i + 1, u) {
                    Option::None => {
                    },
                    Option::Some(rest) => {
                        lemma_assign_beats_durs_valid(s, i + 1, u);
                        let bs = spec_assign_beats(s, i, u)->Some_0;
                        assert forall|k: int|
                            0 <= k < bs.len() implies crate::grouping::elems_durs_valid(
                            #[trigger] bs[k].elements,
                        ) by {
                            if k > 0 {
                                assert(bs[k] == rest[k - 1]);
                            }
                        }
                    },
                }
            },
        }
    }
}

#[verifier::loop_isolation(false)]
fn assign_elements(elements: &Vec<ScoreElement>, slot: Fraction) -> (r: Option<Vec<ScoreElement>>)
    requires
        frac_valid(slot),
    ensures
        (r is Some) == (spec_assign_from(elems_view(elements@), 0, slot) is Some),
        r matches Some(v) ==> spec_assign_from(elems_view(elements@), 0, slot) == Some(
            elems_view(v@),
        ),
    decreases elements@,
{
    let ghost sv = elems_view(elements@);
    proof {
        lemma_elems_view(elements@);
    }
    let mut out: Vec<ScoreElement> = Vec::new();
    let mut i: usize = 0;
    proof {
        assert(elems_view(out@) =~= Seq::<ElemV>::empty());
        match spec_assign_from(sv, 0, slot) {
            Option::Some(rest) => {
                assert(elems_view(out@) + rest =~= rest);
            },
            Option::None => {
            },
        }
    }
    while i < elements.len()
        invariant
            i <= elements.len(),
            frac_valid(slot),
            sv == elems_view(elements@),
            sv.len() == elements@.len(),
            forall|j: int| 0 <= j < sv.len() ==> sv[j] == crate::data::elem_view(elements@[j]),
            match spec_assign_from(sv, i as int, slot) {
                Option::Some(rest) => spec_assign_from(sv, 0, slot) == Some(
                    elems_view(out@) + rest,
                ),
                Option::None => spec_assign_from(sv, 0, slot) is None,
            },
        decreases elements@.len() - i,
    {
        let ghost before = out@;
        match &elements[i] {
            ScoreElement::Event(ev) => {
                out.push(ScoreElement::Event(Event { duration: slot, ..*ev }));
            },
            ScoreElement::Tie(t) => {
                out.push(ScoreElement::Tie(crate::data::Tie { duration: slot, ..*t }));
            },
            ScoreElement::Chord(c) => {
                let mut evs: Vec<Event> = Vec::new();
                let mut k: usize = 0;
                while k < c.events.len()
                    invariant
                        k <= c.events.len(),
                        evs@ =~= c.events@.subrange(0, k as int).map_values(
                            |ev: Event| Event { duration: slot, ..ev },
                        ),
                    decreases c.events.len() - k,
                {
                    evs.push(Event { duration: slot, ..c.events[k] });
                    proof {
                        assert(evs@ =~= c.events@.subrange(0, k as int + 1).map_values(
                            |ev: Event| Event { duration: slot, ..ev },
                        ));
                    }
                    k = k + 1;
                }
                proof {
                    assert(c.events@.subrange(0, c.events@.len() as int) =~= c.events@);
                    assert(evs@ =~= c.events@.map_values(
                        |ev: Event| Event { duration: slot, ..ev },
                    ));
                }
                out.push(ScoreElement::Chord(Chord { events: evs, id: c.id }));
            },
            ScoreElement::Subdivision(sub) => {
                proof {
                    assert(elements@[i as int] == ScoreElement::Subdivision(*sub));
                    assert(decreases_to!(elements@ => elements@[i as int]));
                    assert(decreases_to!(elements@[i as int] => sub.elements@));
                }
                match slot.div_count(sub.base_division) {
                    Option::None => {
                        proof {
                            assert(spec_assign_one(sv[i as int], slot) is None);
                        }
                        return None;
                    },
                    Option::Some(sub_slot) => {
                        proof {
                            crate::frac::lemma_frac_div_props(
                                slot,
                                sub.base_division as nat,
                            );
                        }
                        match assign_elements(&sub.elements, sub_slot) {
                            Option::None => {
                                proof {
                                    assert(spec_assign_one(sv[i as int], slot) is None);
                                }
                                return None;
                            },
                            Option::Some(cs) => {
                                proof {
                                    assert(spec_assign_one(sv[i as int], slot) == Some(
                                        ElemV::Subdivision {
                                            div: sub.base_division as nat,
                                            children: elems_view(cs@),
                                        },
                                    ));
                                }
                                out.push(
                                    ScoreElement::Subdivision(
                                        Subdivision {
                                            base_division: sub.base_division,
                                            elements: cs,
                                        },
                                    ),
                                );
                            },
                        }
                    },
                }
            },
        }
        proof {
            let e2 = spec_assign_one(sv[i as int], slot)->Some_0;
            assert(elems_view(before.push(out@[out@.len() - 1])) =~= elems_view(before) + seq![
                crate::data::elem_view(out@[out@.len() - 1]),
            ]) by {
                lemma_elems_view(before);
                lemma_elems_view(before.push(out@[out@.len() - 1]));
                assert(out@ == before.push(out@[out@.len() - 1]));
            }
            assert(crate::data::elem_view(out@[out@.len() - 1]) == e2);
            assert(spec_assign_from(sv, i as int, slot) matches Some(all) ==> all == seq![e2]
                + spec_assign_from(sv, i as int + 1, slot)->Some_0);
            match spec_assign_from(sv, i as int + 1, slot) {
                Option::Some(rest) => {
                    assert((elems_view(before) + seq![e2]) + rest =~= elems_view(before) + (seq![e2]
                        + rest));
                },
                Option::None => {
                },
            }
        }
        i = i + 1;
    }
    proof {
        assert(spec_assign_from(sv, i as int, slot) == Some(Seq::<ElemV>::empty()));
        assert(elems_view(out@) + Seq::<ElemV>::empty() =~= elems_view(out@));
    }
    Some(out)
}

/// Run the duration assignment pass over a whole score, replacing every
/// placeholder duration with the exact value derived from each measure's
/// meter. `None` exactly when some derived duration is not representable:
/// a zero or oversized meter component, an empty subdivision, or a
/// subdivision too deep for the fixed-size fraction.
#[verifier::loop_isolation(false)]
pub fn process_score(score: Score) -> (r: Option<Score>)
    ensures
        (r is Some) == (spec_process_score(score@) is Some),
        r matches Some(s2) ==> spec_process_score(score@) == Some(s2@),
{
    let mut parts: Vec<Part> = Vec::new();
    let mut i: usize = 0;
    proof {
        assert(score@.parts =~= score.parts@.map_values(|p: Part| p@));
        match spec_process_parts(score@.parts, 0) {
            Option::Some(rest) => {
                assert(parts@.map_values(|p: Part| p@) + rest =~= rest);
            },
            Option::None => {
            },
        }
    }
    while i < score.parts.len()
        invariant
            i <= score.parts.len(),
            score@.parts == score.parts@.map_values(|p: Part| p@),
            score@.parts.len() == score.parts@.len(),
            match spec_process_parts(score@.parts, i as int) {
                Option::Some(rest) => spec_process_parts(score@.parts, 0) == Some(
                    parts@.map_values(|p: Part| p@) + rest,
                ),
                Option::None => spec_process_parts(score@.parts, 0) is None,
            },
        decreases score.parts@.len() - i,
    {
        let ghost before = parts@;
        let part = &score.parts[i];
        let mut measures: Vec<Measure> = Vec::new();
        let mut j: usize = 0;
        proof {
            assert(score@.parts[i as int] == score.parts@[i as int]@);
            match spec_process_measures(score@.parts[i as int].measures, 0) {
                Option::Some(rest) => {
                    assert(measures@.map_values(|m: Measure| m@) + rest =~= rest);
                },
                Option::None => {
                },
            }
        }
        while j < part.measures.len()
            invariant
                j <= part.measures.len(),
                part@ == score@.parts[i as int],
                0 <= i < score.parts@.len(),
                score@.parts == score.parts@.map_values(|p: Part| p@),
                score@.parts[i as int] == score.parts@[i as int]@,
                match spec_process_measures(score@.parts[i as int].measures, j as int) {
                    Option::Some(rest) => spec_process_measures(
                        score@.parts[i as int].measures,
                        0,
                    ) == Some(measures@.map_values(|m: Measure| m@) + rest),
                    Option::None => spec_process_measures(score@.parts[i as int].measures, 0)
                        is None,
                },
            decreases part.measures@.len() - j,
        {
            let ghost mbefore = measures@;
            let m = &part.measures[j];
            let ghost mv = score@.parts[i as int].measures[j as int];
            proof {
                assert(mv == m@);
            }
            let unit_opt = if (m.meter.unit as u64) <= 9223372036854775807u64 {
                Fraction::new(4, m.meter.unit as i64)
            } else {
                proof {
                    lemma_meter_unit_too_big(m.meter.unit as int);
                }
                None
            };
            match unit_opt {
                Option::None => {
                    proof {
                        assert(spec_process_measure(mv) is None);
                    }
                    proof {
                        assert(spec_process_measures(
                            score@.parts[i as int].measures,
                            j as int,
                        ) is None);
                        assert(spec_process_parts(score@.parts, i as int) is None);
                        assert(spec_process_score(score@) is None);
                    }
                    return None;
                },
                Option::Some(u) => {
                    proof {
                        lemma_frac_new_props(4, m.meter.unit as int);
                    }
                    if (m.meter.beats as u64) >= 4294967296u64 {
                        proof {
                            assert(spec_process_measure(mv) is None);
                        }
                    proof {
                        assert(spec_process_measures(
                            score@.parts[i as int].measures,
                            j as int,
                        ) is None);
                        assert(spec_process_parts(score@.parts, i as int) is None);
                        assert(spec_process_score(score@) is None);
                    }
                        return None;
                    }
                    let total_opt = u.mul_count(m.meter.beats as u32);
                    match total_opt {
                        Option::None => {
                            proof {
                                assert(spec_process_measure(mv) is None);
                            }
                    proof {
                        assert(spec_process_measures(
                            score@.parts[i as int].measures,
                            j as int,
                        ) is None);
                        assert(spec_process_parts(score@.parts, i as int) is None);
                        assert(spec_process_score(score@) is None);
                    }
                            return None;
                        },
                        Option::Some(total) => {
                            let mut beats: Vec<Beat> = Vec::new();
                            let mut k: usize = 0;
                            proof {
                                match spec_assign_beats(mv.beats, 0, u) {
                                    Option::Some(rest) => {
                                        assert(beats@.map_values(|b: Beat| b@) + rest =~= rest);
                                    },
                                    Option::None => {
                                    },
                                }
                            }
                            while k < m.beats.len()
                                invariant
                                    k <= m.beats.len(),
                                    mv == m@,
                                    frac_valid(u),
                                    match spec_assign_beats(mv.beats, k as int, u) {
                                        Option::Some(rest) => spec_assign_beats(mv.beats, 0, u)
                                            == Some(beats@.map_values(|b: Beat| b@) + rest),
                                        Option::None => spec_assign_beats(mv.beats, 0, u) is None,
                                    },
                                decreases m.beats@.len() - k,
                            {
                                let ghost bbefore = beats@;
                                let b = &m.beats[k];
                                proof {
                                    assert(mv.beats[k as int] == b@);
                                }
                                match assign_elements(&b.elements, u) {
                                    Option::None => {
                                        proof {
                                            assert(spec_assign_beats(mv.beats, k as int, u)
                                                is None);
                                            assert(spec_assign_beats(mv.beats, 0, u) is None);
                                            assert(spec_process_measure(mv) is None);
                                        }
                    proof {
                        assert(spec_process_measures(
                            score@.parts[i as int].measures,
                            j as int,
                        ) is None);
                        assert(spec_process_parts(score@.parts, i as int) is None);
                        assert(spec_process_score(score@) is None);
                    }
                                        return None;
                                    },
                                    Option::Some(es) => {
                                        let nb = Beat { duration: u, elements: es };
                                        proof {
                                            assert(nb@ == BeatV {
                                                duration: u,
                                                elements: elems_view(es@),
                                            });
                                        }
                                        beats.push(nb);
                                        proof {
                                            let rest2 = spec_assign_beats(
                                                mv.beats,
                                                k as int + 1,
                                                u,
                                            );
                                            assert(beats@.map_values(|bb: Beat| bb@)
                                                =~= bbefore.map_values(|bb: Beat| bb@) + seq![
                                                nb@,
                                            ]);
                                            match rest2 {
                                                Option::Some(rest) => {
                                                    assert((bbefore.map_values(|bb: Beat| bb@)
                                                        + seq![nb@]) + rest =~= bbefore.map_values(
                                                        |bb: Beat| bb@,
                                                    ) + (seq![nb@] + rest));
                                                },
                                                Option::None => {
                                                },
                                            }
                                        }
                                    },
                                }
                                k = k + 1;
                            }
                            proof {
                                assert(spec_assign_beats(mv.beats, k as int, u) == Some(
                                    Seq::<BeatV>::empty(),
                                ));
                                assert(beats@.map_values(|b: Beat| b@) + Seq::<BeatV>::empty()
                                    =~= beats@.map_values(|b: Beat| b@));
                            }
                            let nm = Measure {
                                number: m.number,
                                meter: m.meter,
                                duration: total,
                                unit_duration: u,
                                beats,
                            };
                            proof {
                                assert(spec_process_measure(mv) == Some(nm@));
                            }
                            measures.push(nm);
                            proof {
                                let rest2 = spec_process_measures(
                                    score@.parts[i as int].measures,
                                    j as int + 1,
                                );
                                assert(measures@.map_values(|mm: Measure| mm@)
                                    =~= mbefore.map_values(|mm: Measure| mm@) + seq![nm@]);
                                match rest2 {
                                    Option::Some(rest) => {
                                        assert((mbefore.map_values(|mm: Measure| mm@) + seq![nm@])
                                            + rest =~= mbefore.map_values(|mm: Measure| mm@) + (
                                        seq![nm@] + rest));
                                    },
                                    Option::None => {
                                    },
                                }
                            }
                        },
                    }
                },
            }
            j = j + 1;
        }
        proof {
            assert(spec_process_measures(score@.parts[i as int].measures, j as int) == Some(
                Seq::<MeasureV>::empty(),
            ));
            assert(measures@.map_values(|m: Measure| m@) + Seq::<MeasureV>::empty()
                =~= measures@.map_values(|m: Measure| m@));
        }
        let np = Part { name: part.name.clone(), measures };
        proof {
            assert(np@ == PartV {
                name: part.name@,
                measures: measures@.map_values(|m: Measure| m@),
            });
        }
        parts.push(np);
        proof {
            let rest2 = spec_process_parts(score@.parts, i as int + 1);
            assert(parts@.map_values(|p: Part| p@) =~= before.map_values(|p: Part| p@) + seq![
                np@,
            ]);
            match rest2 {
                Option::Some(rest) => {
                    assert((before.map_values(|p: Part| p@) + seq![np@]) + rest
                        =~= before.map_values(|p: Part| p@) + (seq![np@] + rest));
                },
                Option::None => {
                },
            }
        }
        i = i + 1;
    }
    proof {
        assert(spec_process_parts(score@.parts, i as int) == Some(Seq::<PartV>::empty()));
        assert(parts@.map_values(|p: Part| p@) + Seq::<PartV>::empty() =~= parts@.map_values(
            |p: Part| p@,
        ));
    }
    let out = Score { parts };
    proof {
        assert(spec_process_score(score@) == Some(out@));
    }
    Some(out)
}

/// A meter denominator beyond `i64` can never yield a representable beat
/// length: the reduced denominator still exceeds the bound.
proof fn lemma_meter_unit_too_big(d: int)
    requires
        d > 9223372036854775807,
    ensures
        spec_frac_new(4, d) is None,
{
    let g = crate::frac::spec_gcd(4, d as nat);
    crate::frac::lemma_gcd_divides(4, d as nat);
    assert(g > 0);
    crate::frac::lemma_exact_div(g, 4);
    assert(g <= 4);
    crate::frac::lemma_exact_div(g, d as nat);
    assert(d as nat / g >= (d / 4) as nat) by {
        vstd::arithmetic::div_mod::lemma_div_is_ordered_by_denominator(d, g as int, 4);
    }
    assert(d / 4 > crate::frac::FRAC_BOUND as int) by {
        vstd::arithmetic::div_mod::lemma_div_is_ordered(
            9223372036854775808,
            d,
            4,
        );
    }
}

} // verus!
