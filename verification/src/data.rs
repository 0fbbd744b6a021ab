//! The score data model: a tree of parts, measures, beats and score elements,
//! with exact rational durations, plus its spec-level mirror used in contracts.

use crate::frac::Fraction;
use vstd::prelude::*;

verus! {

/// Note letters of the diatonic scale.
#[derive(Clone, Copy, Debug, PartialEq, Eq, Structural)]
pub enum NoteLetter {
    A,
    B,
    C,
    D,
    E,
    F,
    G,
}

/// Accidental applied to a note letter.
#[derive(Clone, Copy, Debug, PartialEq, Eq, Structural)]
pub enum Accidental {
    Sharp,
    Flat,
}

/// A pitch, either a raw numeric code or a spelled note name.
#[derive(Clone, Copy, Debug, PartialEq, Eq, Structural)]
pub enum Pitch {
    Midi(u8),
    NoteName { letter: NoteLetter, accidental: Option<Accidental>, octave: i32 },
}

/// A time signature: beat count over beat-unit denominator, e.g. 6/8.
#[derive(Clone, Copy, Debug, PartialEq, Eq, Structural)]
pub struct Meter {
    pub beats: usize,
    pub unit: usize,
}

/// Distinguishes sounding notes from silent rests.
#[derive(Clone, Copy, Debug, PartialEq, Eq, Structural)]
pub enum EventType {
    Note,
    Rest,
}

/// A single note or rest.
#[derive(Clone, Copy, Debug, PartialEq)]
pub struct Event {
    pub event_type: EventType,
    pub pitch: Option<Pitch>,
    /// Numeric pitch code times 100 (cents); absent for rests and for pitches
    /// outside the numeric range.
    pub pitch_cents: Option<u16>,
    /// Does this event tie into the following position?
    pub tie: bool,
    /// Exact duration in quarter-note units.
    pub duration: Fraction,
    /// Identifier assigned in source order by the parser.
    pub id: Option<usize>,
}

/// A tie-continuation marker carrying the pitch and duration it inherited.
#[derive(Clone, Copy, Debug, PartialEq)]
pub struct Tie {
    pub pitch: Option<Pitch>,
    pub pitch_cents: Option<u16>,
    pub duration: Fraction,
}

/// An even split of one time slot into `base_division` sub-slots.
#[derive(Debug)]
pub struct Subdivision {
    pub base_division: u32,
    pub elements: Vec<ScoreElement>,
}

/// Several events sounding in one identical time slot.
#[derive(Debug)]
pub struct Chord {
    pub events: Vec<Event>,
    /// Identifier of the chord, taken from its first event.
    pub id: Option<usize>,
}

/// The closed set of elements a beat may contain.
#[derive(Debug)]
pub enum ScoreElement {
    Event(Event),
    Subdivision(Subdivision),
    Chord(Chord),
    Tie(Tie),
}

/// One top-level slot of a measure's body.
#[derive(Debug)]
pub struct Beat {
    pub duration: Fraction,
    pub elements: Vec<ScoreElement>,
}

/// A measure: number, time signature, derived durations, and its beats.
#[derive(Debug)]
pub struct Measure {
    pub number: usize,
    pub meter: Meter,
    /// Total duration of the measure in quarter-note units.
    pub duration: Fraction,
    /// Duration of one beat in quarter-note units.
    pub unit_duration: Fraction,
    pub beats: Vec<Beat>,
}

/// A named instrument or voice line.
#[derive(Debug)]
pub struct Part {
    pub name: String,
    pub measures: Vec<Measure>,
}

/// The whole score, parts in performance order.
#[derive(Debug)]
pub struct Score {
    pub parts: Vec<Part>,
}

/// A duration split into an integer part and a proper fraction.
#[derive(Clone, Copy, Debug, PartialEq, Eq, Structural)]
pub struct Duration {
    pub int: i32,
    pub frac_num: i32,
    pub frac_den: i32,
}

// ------------------------------------------------------------------
// Spec-level mirror of the element tree, with sequences for vectors.
// ------------------------------------------------------------------

pub enum ElemV {
    Event(Event),
    Subdivision { div: nat, children: Seq<ElemV> },
    Chord { events: Seq<Event>, id: Option<usize> },
    Tie(Tie),
}

pub struct BeatV {
    pub duration: Fraction,
    pub elements: Seq<ElemV>,
}

pub struct MeasureV {
    pub number: usize,
    pub meter: Meter,
    pub duration: Fraction,
    pub unit_duration: Fraction,
    pub beats: Seq<BeatV>,
}

pub struct PartV {
    pub name: Seq<char>,
    pub measures: Seq<MeasureV>,
}

pub struct ScoreV {
    pub parts: Seq<PartV>,
}

pub open spec fn elem_view(e: ScoreElement) -> ElemV
    decreases e,
{
    match e {
        ScoreElement::Event(ev) => ElemV::Event(ev),
        ScoreElement::Tie(t) => ElemV::Tie(t),
        ScoreElement::Chord(c) => ElemV::Chord { events: c.events@, id: c.id },
        ScoreElement::Subdivision(s) => ElemV::Subdivision {
            div: s.base_division as nat,
            children: elems_view(s.elements@),
        },
    }
}

pub open spec fn elems_view(s: Seq<ScoreElement>) -> Seq<ElemV>
    decreases s,
{
    if s.len() == 0 {
        Seq::empty()
    } else {
        seq![elem_view(s[0])] + elems_view(s.drop_first())
    }
}

/// `elems_view` maps the view pointwise.
pub proof fn lemma_elems_view(s: Seq<ScoreElement>)
    ensures
        elems_view(s).len() == s.len(),
        forall|i: int| 0 <= i < s.len() ==> elems_view(s)[i] == elem_view(s[i]),
    decreases s,
{
    if s.len() > 0 {
        lemma_elems_view(s.drop_first());
    }
}

impl View for ScoreElement {
    type V = ElemV;

    open spec fn view(&self) -> ElemV {
        elem_view(*self)
    }
}

impl View for Beat {
    type V = BeatV;

    open spec fn view(&self) -> BeatV {
        BeatV { duration: self.duration, elements: elems_view(self.elements@) }
    }
}

impl View for Measure {
    type V = MeasureV;

    open spec fn view(&self) -> MeasureV {
        MeasureV {
            number: self.number,
            meter: self.meter,
            duration: self.duration,
            unit_duration: self.unit_duration,
            beats: self.beats@.map_values(|b: Beat| b@),
        }
    }
}

impl View for Part {
    type V = PartV;

    open spec fn view(&self) -> PartV {
        PartV { name: self.name@, measures: self.measures@.map_values(|m: Measure| m@) }
    }
}

impl View for Score {
    type V = ScoreV;

    open spec fn view(&self) -> ScoreV {
        ScoreV { parts: self.parts@.map_values(|p: Part| p@) }
    }
}

} // verus!
