//! Pitch parsing and conversion: raw numeric codes or note names with
//! accidental and octave, projected onto numeric codes and cents.

use crate::data::{Accidental, NoteLetter, Pitch};
use crate::text::{chars_to_string, parse_i32_chars, parse_usize_chars, push_str_chars,
    spec_parse_int, spec_parse_uint, str_to_chars};
use vstd::prelude::*;

verus! {

/// ASCII uppercasing, the only case folding note letters need.
pub open spec fn spec_upper(c: char) -> char {
    if 97 <= c as u32 <= 122 {
        ((c as u32 - 32) as u8) as char
    } else {
        c
    }
}

fn upper(c: char) -> (r: char)
    ensures
        r == spec_upper(c),
{
    let u = c as u32;
    if 97 <= u && u <= 122 {
        ((u - 32) as u8) as char
    } else {
        c
    }
}

/// What parsing a pitch token yields: a numeric code up to 255, or a note
/// letter with optional accidental and a signed octave; otherwise the error
/// the malformed part earns.
pub open spec fn spec_parse_pitch(s: Seq<char>) -> Result<Pitch, Seq<char>> {
    if spec_parse_uint(s) matches Some(val) && spec_parse_uint(s)->Some_0 <= 255 {
        Ok(Pitch::Midi(spec_parse_uint(s)->Some_0 as u8))
    } else if s.len() == 0 {
        Err("Empty input"@)
    } else {
        let letter = spec_letter_of(spec_upper(s[0]));
        if letter is None {
            Err("Invalid note letter: "@ + seq![s[0]])
        } else if s.len() == 1 {
            Err("Missing octave information"@)
        } else {
            let acc: Option<Accidental> = if s[1] == '#' {
                Some(Accidental::Sharp)
            } else if s[1] == 'b' {
                Some(Accidental::Flat)
            } else {
                None
            };
            let rest = if acc is Some {
                s.subrange(2, s.len() as int)
            } else {
                s.subrange(1, s.len() as int)
            };
            match spec_parse_int(rest) {
                Option::Some(val) => if i32::MIN <= val <= i32::MAX {
                    Ok(
                        Pitch::NoteName {
                            letter: letter->Some_0,
                            accidental: acc,
                            octave: val as i32,
                        },
                    )
                } else {
                    Err("Invalid octave"@)
                },
                Option::None => Err("Invalid octave"@),
            }
        }
    }
}

pub open spec fn spec_letter_of(c: char) -> Option<NoteLetter> {
    match c {
        'A' => Some(NoteLetter::A),
        'B' => Some(NoteLetter::B),
        'C' => Some(NoteLetter::C),
        'D' => Some(NoteLetter::D),
        'E' => Some(NoteLetter::E),
        'F' => Some(NoteLetter::F),
        'G' => Some(NoteLetter::G),
        _ => None,
    }
}

fn letter_of(c: char) -> (r: Option<NoteLetter>)
    ensures
        r == spec_letter_of(c),
{
    match c {
        'A' => Some(NoteLetter::A),
        'B' => Some(NoteLetter::B),
        'C' => Some(NoteLetter::C),
        'D' => Some(NoteLetter::D),
        'E' => Some(NoteLetter::E),
        'F' => Some(NoteLetter::F),
        'G' => Some(NoteLetter::G),
        _ => None,
    }
}

/// Parse one pitch token from its characters.
pub fn parse_pitch_chars(v: &Vec<char>) -> (r: Result<Pitch, String>)
    ensures
        (r matches Ok(p) ==> spec_parse_pitch(v@) == Ok::<Pitch, Seq<char>>(p)),
        (r matches Err(e) ==> spec_parse_pitch(v@) == Err::<Pitch, Seq<char>>(e@)),
{
    proof {
        crate::text::lemma_parse_uint_nonneg(v@);
    }
    match parse_usize_chars(v) {
        Option::Some(val) => {
            if val <= 255 {
                return Ok(Pitch::Midi(val as u8));
            }
        },
        Option::None => {
        },
    }
    if v.len() == 0 {
        return Err(String::from_str("Empty input"));
    }
    let letter = match letter_of(upper(v[0])) {
        Option::Some(l) => l,
        Option::None => {
            let mut msg: Vec<char> = Vec::new();
            push_str_chars(&mut msg, "Invalid note letter: ");
            msg.push(v[0]);
            proof {
                assert(msg@ =~= "Invalid note letter: "@ + seq![v@[0]]);
            }
            return Err(chars_to_string(&msg));
        },
    };
    if v.len() == 1 {
        return Err(String::from_str("Missing octave information"));
    }
    let acc: Option<Accidental> = if v[1] == '#' {
        Some(Accidental::Sharp)
    } else if v[1] == 'b' {
        Some(Accidental::Flat)
    } else {
        None
    };
    let start: usize = if acc.is_some() {
        2
    } else {
        1
    };
    let mut rest: Vec<char> = Vec::new();
    let mut i = start;
    while i < v.len()
        invariant
            start <= i <= v.len(),
            start <= 2 <= v.len() || start <= 1,
            rest@ == v@.subrange(start as int, i as int),
        decreases v.len() - i,
    {
        rest.push(v[i]);
        proof {
            assert(rest@ =~= v@.subrange(start as int, i as int + 1));
        }
        i = i + 1;
    }
    proof {
        assert(rest@ =~= v@.subrange(start as int, v@.len() as int));
    }
    match parse_i32_chars(&rest) {
        Option::Some(oct) => Ok(Pitch::NoteName { letter, accidental: acc, octave: oct }),
        Option::None => Err(String::from_str("Invalid octave")),
    }
}

/// Parse one pitch token.
pub fn parse_pitch(s: &str) -> (r: Result<Pitch, String>)
    ensures
        (r matches Ok(p) ==> spec_parse_pitch(s@) == Ok::<Pitch, Seq<char>>(p)),
        (r matches Err(e) ==> spec_parse_pitch(s@) == Err::<Pitch, Seq<char>>(e@)),
{
    let v = str_to_chars(s);
    parse_pitch_chars(&v)
}

/// The numeric pitch code of `p`: the raw code itself, or the letter's
/// semitone offset plus accidental shift in the given octave, accepted only
/// inside `[0, 127]`.
pub open spec fn spec_midi_code(p: Pitch) -> Result<u8, Seq<char>> {
    match p {
        Pitch::Midi(n) => Ok(n),
        Pitch::NoteName { letter, accidental, octave } => {
            let base = spec_letter_base(letter);
            let shift: int = match accidental {
                Option::Some(Accidental::Sharp) => 1,
                Option::Some(Accidental::Flat) => -1,
                Option::None => 0,
            };
            let m = (octave + 1) * 12 + base + shift;
            if 0 <= m <= 127 {
                Ok(m as u8)
            } else {
                Err("Pitch out of MIDI range"@)
            }
        },
    }
}

pub open spec fn spec_letter_base(letter: NoteLetter) -> int {
    match letter {
        NoteLetter::C => 0,
        NoteLetter::D => 2,
        NoteLetter::E => 4,
        NoteLetter::F => 5,
        NoteLetter::G => 7,
        NoteLetter::A => 9,
        NoteLetter::B => 11,
    }
}

/// The cents projection: the numeric code times 100.
pub open spec fn spec_cents(p: Pitch) -> Result<u16, Seq<char>> {
    match spec_midi_code(p) {
        Ok(n) => Ok((n as u16 * 100) as u16),
        Err(e) => Err(e),
    }
}

impl Pitch {
    /// Convert to a numeric pitch code in `[0, 127]`.
    pub fn midi_number(&self) -> (r: Result<u8, String>)
        ensures
            (r matches Ok(n) ==> spec_midi_code(*self) == Ok::<u8, Seq<char>>(n)),
            (r matches Err(e) ==> spec_midi_code(*self) == Err::<u8, Seq<char>>(e@)),
    {
        match self {
            Pitch::Midi(n) => Ok(*n),
            Pitch::NoteName { letter, accidental, octave } => {
                let base: i64 = match letter {
                    NoteLetter::C => 0,
                    NoteLetter::D => 2,
                    NoteLetter::E => 4,
                    NoteLetter::F => 5,
                    NoteLetter::G => 7,
                    NoteLetter::A => 9,
                    NoteLetter::B => 11,
                };
                let shift: i64 = match accidental {
                    Option::Some(Accidental::Sharp) => 1,
                    Option::Some(Accidental::Flat) => -1,
                    Option::None => 0,
                };
                let m = ((*octave as i64) + 1) * 12 + base + shift;
                if 0 <= m && m <= 127 {
                    Ok(m as u8)
                } else {
                    Err(String::from_str("Pitch out of MIDI range"))
                }
            },
        }
    }

    /// Convert to a numeric pitch code in `[0, 127]`.
    pub fn to_midi_number(&self) -> (r: Result<u8, String>)
        ensures
            (r matches Ok(n) ==> spec_midi_code(*self) == Ok::<u8, Seq<char>>(n)),
            (r matches Err(e) ==> spec_midi_code(*self) == Err::<u8, Seq<char>>(e@)),
    {
        self.midi_number()
    }

    /// Convert to hundredths of a semitone: the numeric code times 100.
    pub fn cents(&self) -> (r: Result<u16, String>)
        ensures
            (r matches Ok(n) ==> spec_cents(*self) == Ok::<u16, Seq<char>>(n)),
            (r matches Err(e) ==> spec_cents(*self) == Err::<u16, Seq<char>>(e@)),
    {
        match self.midi_number() {
            Ok(n) => Ok((n as u16) * 100),
            Err(e) => Err(e),
        }
    }
}

} // verus!
