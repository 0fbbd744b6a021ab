//! The structured score definition handed to serializers and renderers:
//! global tempo and key defaults, and per part its staff and dynamics
//! defaults plus the decomposed notation entries of every measure.

use crate::data::{MeasureV, Score, ScoreV, elems_view, lemma_elems_view, ElemV, Measure,
    ScoreElement};
use crate::grouping::{
    NoteEntry, NoteEntryV, elems_durs_valid, entries_view, group_measure_elements, spec_flatten,
    spec_group_from,
};
use vstd::prelude::*;

verus! {

/// A tempo mark: measure, position within it, and beats per minute.
#[derive(Debug)]
pub struct TempoSetting {
    pub measure: usize,
    pub position: u32,
    pub bpm: u32,
}

/// A key signature mark.
#[derive(Debug)]
pub struct KeySignatureSetting {
    pub measure: usize,
    pub position: u32,
    pub key: String,
}

/// A staff configuration mark.
#[derive(Debug)]
pub struct StavesSetting {
    pub measure: usize,
    pub position: u32,
    pub kind: String,
    pub lines: Vec<u8>,
}

/// A dynamics mark.
#[derive(Debug)]
pub struct DynamicsSetting {
    pub measure: usize,
    pub position: u32,
    pub level: String,
}

/// One part of the score definition.
#[derive(Debug)]
pub struct PartSetting {
    pub name: String,
    pub staves: Vec<StavesSetting>,
    pub dynamics: Vec<DynamicsSetting>,
    pub notes: Vec<NoteEntry>,
}

/// The score-wide section of the definition.
#[derive(Debug)]
pub struct ScoreSection {
    pub tempo: Vec<TempoSetting>,
    pub key_signature: Vec<KeySignatureSetting>,
    pub parts: Vec<PartSetting>,
}

/// The whole score definition.
#[derive(Debug)]
pub struct ScoreDef {
    pub score: ScoreSection,
}

/// All the elements of a measure, its beats' element lists concatenated.
pub open spec fn spec_measure_elems(m: MeasureV, k: int) -> Seq<ElemV>
    decreases m.beats.len() - k,
{
    if k < 0 || k >= m.beats.len() {
        Seq::empty()
    } else {
        m.beats[k].elements + spec_measure_elems(m, k + 1)
    }
}

/// The notation entries of a part: each measure's elements flattened,
/// grouped into tie runs and decomposed; `None` when a run's sum is not
/// representable.
pub open spec fn spec_part_notes(ms: Seq<MeasureV>, i: int) -> Option<Seq<NoteEntryV>>
    decreases ms.len() - i,
{
    if i < 0 || i >= ms.len() {
        Some(Seq::empty())
    } else {
        match spec_group_from(ms[i].number, spec_flatten(spec_measure_elems(ms[i], 0)), 0) {
            Option::None => None,
            Option::Some(notes) => match spec_part_notes(ms, i + 1) {
                Option::None => None,
                Option::Some(rest) => Some(notes + rest),
            },
        }
    }
}

/// Every measure of the score stores only valid durations.
pub open spec fn score_durs_valid(s: ScoreV) -> bool {
    forall|p: int, m: int, k: int|
        0 <= p < s.parts.len() && 0 <= m < s.parts[p].measures.len() && 0 <= k
            < s.parts[p].measures[m].beats.len() ==> elems_durs_valid(
            #[trigger] s.parts[p].measures[m].beats[k].elements,
        )
}

fn measure_elements(m: &Measure) -> (r: Vec<ScoreElement>)
    ensures
        elems_view(r@) == spec_measure_elems(m@, 0),
    decreases m.beats@.len(),
{
    let mut out: Vec<ScoreElement> = Vec::new();
    let mut k: usize = 0;
    proof {
        lemma_elems_view(out@);
        assert(elems_view(out@) + spec_measure_elems(m@, 0) =~= spec_measure_elems(m@, 0));
    }
    #[verifier::loop_isolation(false)]
    while k < m.beats.len()
        invariant
            k <= m.beats.len(),
            elems_view(out@) + spec_measure_elems(m@, k as int) =~= spec_measure_elems(m@, 0),
        decreases m.beats@.len() - k,
    {
        let ghost ob = out@;
        let b = &m.beats[k];
        let mut cloned = crate::parser::clone_elements(&b.elements);
        let ghost cb = cloned@;
        proof {
            assert(m@.beats[k as int] == b@);
        }
        out.append(&mut cloned);
        proof {
            crate::parser::lemma_elems_view_concat(ob, cb);
            assert(elems_view(out@) =~= elems_view(ob) + b@.elements);
            assert((elems_view(ob) + b@.elements) + spec_measure_elems(m@, k as int + 1)
                =~= elems_view(ob) + (b@.elements + spec_measure_elems(m@, k as int + 1)));
        }
        k = k + 1;
    }
    proof {
        assert(spec_measure_elems(m@, k as int) =~= Seq::<ElemV>::empty());
        assert(elems_view(out@) + Seq::<ElemV>::empty() =~= elems_view(out@));
    }
    out
}

/// Build the score definition: default tempo, key, staves and dynamics
/// marks, and per part the notation entries of all its measures in order.
/// `None` exactly when some tie run's duration sum is not representable.
#[verifier::loop_isolation(false)]
pub fn build_score_def(score: &Score) -> (r: Option<ScoreDef>)
    requires
        score_durs_valid(score@),
    ensures
        ({
            let sv = score@;
            &&& (r is Some) == (forall|p: int|
                0 <= p < sv.parts.len() ==> spec_part_notes(#[trigger] sv.parts[p].measures, 0)
                    is Some)
            &&& r matches Some(sd) ==> {
                &&& sd.score.tempo@.len() == 1
                &&& sd.score.tempo@[0].measure == 1 && sd.score.tempo@[0].position == 1
                    && sd.score.tempo@[0].bpm == 120
                &&& sd.score.key_signature@.len() == 1
                &&& sd.score.key_signature@[0].measure == 1 && sd.score.key_signature@[0].position
                    == 1 && sd.score.key_signature@[0].key@ == "C_Major"@
                &&& sd.score.parts@.len() == sv.parts.len()
                &&& forall|p: int|
                    0 <= p < sv.parts.len() ==> {
                        &&& (#[trigger] sd.score.parts@[p]).name@ == sv.parts[p].name
                        &&& sd.score.parts@[p].staves@.len() == 1
                        &&& sd.score.parts@[p].dynamics@.len() == 1
                        &&& Some(entries_view(sd.score.parts@[p].notes@)) == spec_part_notes(
                            sv.parts[p].measures,
                            0,
                        )
                    }
            }
        }),
{
    let ghost sv = score@;
    let mut parts: Vec<PartSetting> = Vec::new();
    let mut p: usize = 0;
    while p < score.parts.len()
        invariant
            p <= score.parts.len(),
            parts@.len() == p,
            forall|q: int|
                0 <= q < p as int ==> {
                    &&& (#[trigger] parts@[q]).name@ == sv.parts[q].name
                    &&& parts@[q].staves@.len() == 1
                    &&& parts@[q].dynamics@.len() == 1
                    &&& Some(entries_view(parts@[q].notes@)) == spec_part_notes(
                        sv.parts[q].measures,
                        0,
                    )
                },
            forall|q: int|
                0 <= q < p as int ==> spec_part_notes(#[trigger] sv.parts[q].measures, 0) is Some,
        decreases score.parts@.len() - p,
    {
        let part = &score.parts[p];
        proof {
            assert(sv.parts[p as int] == part@);
        }
        let mut notes: Vec<NoteEntry> = Vec::new();
        let mut m: usize = 0;
        proof {
            assert(entries_view(notes@) + spec_part_notes(part@.measures, 0)->Some_0
                =~= spec_part_notes(part@.measures, 0)->Some_0);
        }
        while m < part.measures.len()
            invariant
                m <= part.measures.len(),
                0 <= (p as int) < sv.parts.len(),
                part@ == sv.parts[p as int],
                match spec_part_notes(part@.measures, m as int) {
                    Option::Some(rest) => spec_part_notes(part@.measures, 0) == Some(
                        entries_view(notes@) + rest,
                    ),
                    Option::None => spec_part_notes(part@.measures, 0) is None,
                },
            decreases part.measures@.len() - m,
        {
            let ghost nb = notes@;
            let meas = &part.measures[m];
            proof {
                assert(part@.measures[m as int] == meas@);
            }
            let elements = measure_elements(meas);
            proof {
                assert forall|k: int|
                    0 <= k < meas@.beats.len() implies elems_durs_valid(
                    #[trigger] meas@.beats[k].elements,
                ) by {
                    assert(sv.parts[p as int].measures[m as int].beats[k].elements
                        == meas@.beats[k].elements);
                }
                lemma_measure_elems_durs_valid(meas@, 0);
            }
            match group_measure_elements(meas.number, &elements) {
                Option::None => {
                    proof {
                        assert(spec_part_notes(part@.measures, m as int) is None);
                        assert(spec_part_notes(sv.parts[p as int].measures, 0) is None);
                    }
                    return None;
                },
                Option::Some(mut entries) => {
                    let ghost eb = entries@;
                    notes.append(&mut entries);
                    proof {
                        assert(entries_view(notes@) =~= entries_view(nb) + entries_view(eb));
                        match spec_part_notes(part@.measures, m as int + 1) {
                            Option::Some(rest) => {
                                assert((entries_view(nb) + entries_view(eb)) + rest
                                    =~= entries_view(nb) + (entries_view(eb) + rest));
                            },
                            Option::None => {
                            },
                        }
                    }
                },
            }
            m = m + 1;
        }
        proof {
            assert(spec_part_notes(part@.measures, m as int) == Some(Seq::<NoteEntryV>::empty()));
            assert(entries_view(notes@) + Seq::<NoteEntryV>::empty() =~= entries_view(notes@));
        }
        let mut staves: Vec<StavesSetting> = Vec::new();
        let mut stave_lines: Vec<u8> = Vec::new();
        stave_lines.push(5);
        staves.push(
            StavesSetting {
                measure: 1,
                position: 1,
                kind: String::from_str("single"),
                lines: stave_lines,
            },
        );
        let mut dynamics: Vec<DynamicsSetting> = Vec::new();
        dynamics.push(DynamicsSetting { measure: 1, position: 1, level: String::from_str("P") });
        let ghost pb = parts@;
        parts.push(PartSetting { name: part.name.clone(), staves, dynamics, notes });
        p = p + 1;
    }
    let mut tempo: Vec<TempoSetting> = Vec::new();
    tempo.push(TempoSetting { measure: 1, position: 1, bpm: 120 });
    let mut key_signature: Vec<KeySignatureSetting> = Vec::new();
    key_signature.push(
        KeySignatureSetting { measure: 1, position: 1, key: String::from_str("C_Major") },
    );
    Some(ScoreDef { score: ScoreSection { tempo, key_signature, parts } })
}

proof fn lemma_measure_elems_durs_valid(m: MeasureV, k: int)
    requires
        forall|x: int| 0 <= x < m.beats.len() ==> elems_durs_valid(#[trigger] m.beats[x].elements),
        0 <= k <= m.beats.len(),
    ensures
        elems_durs_valid(spec_measure_elems(m, k)),
    decreases m.beats.len() - k,
{
    if k < m.beats.len() {
        lemma_measure_elems_durs_valid(m, k + 1);
        crate::grouping::lemma_elems_durs_valid_concat(
            m.beats[k].elements,
            spec_measure_elems(m, k + 1),
        );
    } else {
        assert(spec_measure_elems(m, k) =~= Seq::<ElemV>::empty());
    }
}

} // verus!
