//! Instrument sections of a notation file: `#[Instrument(Name)]` headers
//! open sections, and every following non-blank line belongs to the most
//! recent one.

use crate::comments::{spec_lines, split_lines};
use crate::text::{chars_to_string, copy_range, spec_trim, str_to_chars, trim_chars};
use vstd::prelude::*;

verus! {

/// One named instrument section and its raw measure lines.
#[derive(Debug)]
pub struct InstrumentSection {
    pub name: String,
    pub measures: Vec<String>,
}

pub struct SectionV {
    pub name: Seq<char>,
    pub measures: Seq<Seq<char>>,
}

impl View for InstrumentSection {
    type V = SectionV;

    open spec fn view(&self) -> SectionV {
        SectionV {
            name: self.name@,
            measures: self.measures@.map_values(|m: String| m@),
        }
    }
}

/// Is `l` an instrument header, `#[Instrument(` ... `)]`?
pub open spec fn spec_is_header(l: Seq<char>) -> bool {
    l.len() >= 15 && l.subrange(0, 13) == "#[Instrument("@ && l.subrange(
        l.len() - 2,
        l.len() as int,
    ) == ")]"@
}

/// The name inside an instrument header.
pub open spec fn spec_header_name(l: Seq<char>) -> Seq<char> {
    l.subrange(13, l.len() - 2)
}

/// The instrument sections of `text`, line by line: a header closes the
/// current section and opens a new one; non-blank lines are trimmed and
/// appended to the current section; lines before the first header are
/// dropped; the last section is closed at the end of input.
pub open spec fn spec_sections_from(
    lines: Seq<Seq<char>>,
    i: int,
    cur: Option<SectionV>,
    out: Seq<SectionV>,
) -> Seq<SectionV>
    decreases lines.len() - i,
{
    if i < 0 || i >= lines.len() {
        match cur {
            Option::Some(sec) => out.push(sec),
            Option::None => out,
        }
    } else {
        let l = lines[i];
        if spec_is_header(l) {
            let out2 = match cur {
                Option::Some(sec) => out.push(sec),
                Option::None => out,
            };
            spec_sections_from(
                lines,
                i + 1,
                Some(SectionV { name: spec_header_name(l), measures: Seq::empty() }),
                out2,
            )
        } else {
            match cur {
                Option::Some(sec) => if spec_trim(l).len() == 0 {
                    spec_sections_from(lines, i + 1, Some(sec), out)
                } else {
                    spec_sections_from(
                        lines,
                        i + 1,
                        Some(
                            SectionV { name: sec.name, measures: sec.measures.push(spec_trim(l)) },
                        ),
                        out,
                    )
                },
                Option::None => spec_sections_from(lines, i + 1, None, out),
            }
        }
    }
}

pub open spec fn spec_parse_instruments(text: Seq<char>) -> Seq<SectionV> {
    spec_sections_from(spec_lines(text), 0, None, Seq::empty())
}

fn is_header(l: &Vec<char>) -> (r: bool)
    ensures
        r == spec_is_header(l@),
{
    proof {
        reveal_strlit("#[Instrument(");
        reveal_strlit(")]");
    }
    if l.len() < 15 {
        proof {
            assert(!spec_is_header(l@));
        }
        return false;
    }
    let prefix = str_to_chars("#[Instrument(");
    let mut i: usize = 0;
    while i < 13
        invariant
            i <= 13,
            prefix@ == "#[Instrument("@,
            prefix@.len() == 13,
            l@.len() >= 15,
            forall|x: int| 0 <= x < i ==> l@[x] == prefix@[x],
        decreases 13 - i,
    {
        if l[i] != prefix[i] {
            proof {
                assert(l@.subrange(0, 13) != "#[Instrument("@);
            }
            return false;
        }
        i = i + 1;
    }
    proof {
        assert(l@.subrange(0, 13) =~= "#[Instrument("@);
    }
    if l[l.len() - 2] != ')' || l[l.len() - 1] != ']' {
        proof {
            if l@.subrange(l@.len() - 2, l@.len() as int) == ")]"@ {
                assert(l@.subrange(l@.len() - 2, l@.len() as int)[0] == l@[l@.len() - 2]);
                assert(l@.subrange(l@.len() - 2, l@.len() as int)[1] == l@[l@.len() - 1]);
            }
        }
        return false;
    }
    proof {
        assert(l@.subrange(l@.len() - 2, l@.len() as int) =~= ")]"@);
    }
    true
}

/// Extract the instrument sections of a notation file.
#[verifier::loop_isolation(false)]
pub fn parse_instruments(input: &str) -> (r: Vec<InstrumentSection>)
    ensures
        r@.map_values(|s: InstrumentSection| s@) == spec_parse_instruments(input@),
{
    let chars = str_to_chars(input);
    let lines = split_lines(&chars);
    let ghost lv = lines@.map_values(|l: Vec<char>| l@);
    let mut out: Vec<InstrumentSection> = Vec::new();
    let mut cur_name: Option<String> = None;
    let mut cur_measures: Vec<String> = Vec::new();
    let mut i: usize = 0;
    proof {
        assert(out@.map_values(|s: InstrumentSection| s@) =~= Seq::<SectionV>::empty());
        assert(cur_measures@.map_values(|m: String| m@) =~= Seq::<Seq<char>>::empty());
    }
    while i < lines.len()
        invariant
            i <= lines.len(),
            cur_name is None ==> cur_measures@.len() == 0,
            spec_sections_from(
                lv,
                i as int,
                match cur_name {
                    Option::Some(n) => Some(
                        SectionV {
                            name: n@,
                            measures: cur_measures@.map_values(|m: String| m@),
                        },
                    ),
                    Option::None => None,
                },
                out@.map_values(|s: InstrumentSection| s@),
            ) == spec_parse_instruments(input@),
        decreases lines.len() - i,
    {
        let ghost outv = out@.map_values(|s: InstrumentSection| s@);
        let l = &lines[i];
        proof {
            assert(lv[i as int] == l@);
        }
        if is_header(l) {
            let name_chars = copy_range(l, 13, l.len() - 2);
            match cur_name {
                Option::Some(n) => {
                    let sec = InstrumentSection { name: n, measures: cur_measures };
                    out.push(sec);
                    proof {
                        assert(out@.map_values(|s: InstrumentSection| s@) =~= outv.push(sec@));
                    }
                    cur_measures = Vec::new();
                },
                Option::None => {
                },
            }
            cur_name = Some(chars_to_string(&name_chars));
            proof {
                assert(cur_measures@.map_values(|m: String| m@) =~= Seq::<Seq<char>>::empty());
            }
        } else {
            match &cur_name {
                Option::Some(_) => {
                    let t = trim_chars(l);
                    if t.len() > 0 {
                        let ghost mb = cur_measures@;
                        cur_measures.push(chars_to_string(&t));
                        proof {
                            assert(cur_measures@.map_values(|m: String| m@) =~= mb.map_values(
                                |m: String| m@,
                            ).push(spec_trim(l@)));
                        }
                    }
                },
                Option::None => {
                },
            }
        }
        i = i + 1;
    }
    match cur_name {
        Option::Some(n) => {
            let ghost outv = out@.map_values(|s: InstrumentSection| s@);
            let sec = InstrumentSection { name: n, measures: cur_measures };
            out.push(sec);
            proof {
                assert(out@.map_values(|s: InstrumentSection| s@) =~= outv.push(sec@));
            }
        },
        Option::None => {
        },
    }
    out
}

} // verus!
