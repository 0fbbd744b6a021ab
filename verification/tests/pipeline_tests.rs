use vec_score_drawer::convert::vsc_score_to_data_score;
use vec_score_drawer::data::{EventType, ScoreElement};
use vec_score_drawer::diagnostics::diagnostics_for;
use vec_score_drawer::frac::Fraction;
use vec_score_drawer::grouping::{flatten_elements, group_measure_elements};
use vec_score_drawer::parser::parse_score;
use vec_score_drawer::processor::process_score;
use vec_score_drawer::score_def::build_score_def;
use vec_score_drawer::vsc::parse_instruments;

#[test]
fn durations_follow_the_meter() {
    let score = parse_score("1: 6/8 [r, r, r, r, r, r]").unwrap();
    let processed = process_score(score).unwrap();
    let m = &processed.parts[0].measures[0];
    // Beat length is exactly 4/8 = 1/2 quarter; the measure spans 6 * 1/2 = 3.
    assert_eq!(m.unit_duration, Fraction { num: 1, den: 2 });
    assert_eq!(m.duration, Fraction { num: 3, den: 1 });
    assert_eq!(m.beats.len(), 6);
    for b in &m.beats {
        assert_eq!(b.duration, Fraction { num: 1, den: 2 });
        match &b.elements[0] {
            ScoreElement::Event(ev) => assert_eq!(ev.duration, Fraction { num: 1, den: 2 }),
            _ => panic!("expected an event"),
        }
    }
}

#[test]
fn subdivision_divides_exactly() {
    let score = parse_score("1: 1/4 [[72, 74, 76]]").unwrap();
    let processed = process_score(score).unwrap();
    let m = &processed.parts[0].measures[0];
    assert_eq!(m.unit_duration, Fraction { num: 1, den: 1 });
    match &m.beats[0].elements[0] {
        ScoreElement::Subdivision(s) => {
            for e in &s.elements {
                match e {
                    ScoreElement::Event(ev) => {
                        assert_eq!(ev.duration, Fraction { num: 1, den: 3 });
                    },
                    _ => panic!("expected an event"),
                }
            }
        },
        _ => panic!("expected a subdivision"),
    }
}

#[test]
fn chord_members_share_one_duration() {
    let score = parse_score("5: 2/4 [{72, 76, 79}, {72, 77, 81}]").unwrap();
    let processed = process_score(score).unwrap();
    let m = &processed.parts[0].measures[0];
    for beat in &m.beats {
        match &beat.elements[0] {
            ScoreElement::Chord(c) => {
                for ev in &c.events {
                    assert_eq!(ev.duration, Fraction { num: 1, den: 1 });
                }
            },
            _ => panic!("expected a chord"),
        }
    }
}

#[test]
fn empty_subdivision_has_no_exact_durations() {
    let score = parse_score("1: 1/4 [[]]").unwrap();
    assert!(process_score(score).is_none());
}

#[test]
fn zero_meter_unit_has_no_exact_durations() {
    let score = parse_score("1: 1/0 [r]").unwrap();
    assert!(process_score(score).is_none());
}

#[test]
fn tie_run_merges_durations() {
    // Scenario: the tied event and the following tie merge into one run of
    // exactly two quarter units, decomposed as one half note.
    let score = parse_score("1: 4/4 [72-, t, 76, 79]").unwrap();
    let processed = process_score(score).unwrap();
    let m = &processed.parts[0].measures[0];
    let mut elements = Vec::new();
    for b in &m.beats {
        for e in &b.elements {
            match e {
                ScoreElement::Event(ev) => elements.push(ScoreElement::Event(*ev)),
                ScoreElement::Tie(t) => elements.push(ScoreElement::Tie(*t)),
                _ => panic!("flat measure expected"),
            }
        }
    }
    let entries = group_measure_elements(m.number, &elements).unwrap();
    assert_eq!(entries.len(), 3);
    assert_eq!(entries[0].attributes[0].duration, "2/1");
    assert_eq!(entries[0].attributes[0].kind, "note");
    assert_eq!(entries[0].attributes[0].accidental, "None");
    assert_eq!(entries[0].id, 0);
    assert_eq!(entries[0].measure, 1);
    assert_eq!(entries[0].source_ids, None);
    assert_eq!(entries[1].attributes[0].duration, "1/1");
    assert_eq!(entries[1].id, 1);
    assert_eq!(entries[2].attributes[0].duration, "1/1");
    assert_eq!(entries[2].id, 2);
}

#[test]
fn rests_do_not_merge() {
    let score = parse_score("1: 2/4 [r, r]").unwrap();
    let processed = process_score(score).unwrap();
    let m = &processed.parts[0].measures[0];
    let mut elements = Vec::new();
    for b in &m.beats {
        for e in &b.elements {
            match e {
                ScoreElement::Event(ev) => elements.push(ScoreElement::Event(*ev)),
                _ => panic!("flat measure expected"),
            }
        }
    }
    let entries = group_measure_elements(m.number, &elements).unwrap();
    assert_eq!(entries.len(), 2);
    assert_eq!(entries[0].attributes[0].kind, "rest");
    assert_eq!(entries[0].attributes[0].duration, "1/1");
    assert_eq!(entries[1].attributes[0].kind, "rest");
}

#[test]
fn chord_run_records_source_ids_and_absorbs_a_tie() {
    let score = parse_score("3: 2/4 [{60, 64}, t]").unwrap();
    let processed = process_score(score).unwrap();
    let m = &processed.parts[0].measures[0];
    let mut elements = Vec::new();
    for b in &m.beats {
        for e in &b.elements {
            match e {
                ScoreElement::Chord(c) => elements.push(
                    ScoreElement::Chord(vec_score_drawer::data::Chord {
                        events: c.events.clone(),
                        id: c.id,
                    }),
                ),
                ScoreElement::Tie(t) => elements.push(ScoreElement::Tie(*t)),
                _ => panic!("unexpected element"),
            }
        }
    }
    let entries = group_measure_elements(m.number, &elements).unwrap();
    assert_eq!(entries.len(), 1);
    assert_eq!(entries[0].attributes[0].duration, "2/1");
    assert_eq!(entries[0].id, 0);
    assert_eq!(entries[0].source_ids, Some(vec![0, 1]));
}

#[test]
fn flatten_splices_subdivisions() {
    let score = parse_score("1: 2/4 [[60, 62], 64]").unwrap();
    let m = &score.parts[0].measures[0];
    let mut elements = Vec::new();
    for b in &m.beats {
        for e in &b.elements {
            match e {
                ScoreElement::Event(ev) => elements.push(ScoreElement::Event(*ev)),
                ScoreElement::Subdivision(s) => {
                    let mut kids = Vec::new();
                    for k in &s.elements {
                        match k {
                            ScoreElement::Event(ev) => kids.push(ScoreElement::Event(*ev)),
                            _ => panic!("unexpected nested element"),
                        }
                    }
                    elements.push(ScoreElement::Subdivision(
                        vec_score_drawer::data::Subdivision {
                            base_division: s.base_division,
                            elements: kids,
                        },
                    ));
                },
                _ => panic!("unexpected element"),
            }
        }
    }
    let flat = flatten_elements(&elements);
    assert_eq!(flat.len(), 3);
}

#[test]
fn score_def_has_defaults_and_notes() {
    let score = parse_score("1: 2/4 [60, 62]").unwrap();
    let processed = process_score(score).unwrap();
    let def = build_score_def(&processed).unwrap();
    assert_eq!(def.score.tempo.len(), 1);
    assert_eq!(def.score.tempo[0].bpm, 120);
    assert_eq!(def.score.key_signature[0].key, "C_Major");
    assert_eq!(def.score.parts.len(), 1);
    let part = &def.score.parts[0];
    assert_eq!(part.name, "");
    assert_eq!(part.staves.len(), 1);
    assert_eq!(part.staves[0].kind, "single");
    assert_eq!(part.staves[0].lines, vec![5]);
    assert_eq!(part.dynamics[0].level, "P");
    assert_eq!(part.notes.len(), 2);
    assert_eq!(part.notes[0].attributes[0].duration, "1/1");
    assert_eq!(part.notes[1].attributes[0].duration, "1/1");
}

#[test]
fn diagnostics_cover_the_whole_line() {
    let diags = diagnostics_for("1: 4/4 [r, r, r, r]\nbad line here");
    assert_eq!(diags.len(), 1);
    assert_eq!(diags[0].line, 1);
    assert_eq!(diags[0].col_start, 0);
    assert_eq!(diags[0].col_end, "bad line here".chars().count());
    assert_eq!(diags[0].message, "Measure number separator ':' is missing");
}

#[test]
fn diagnostics_empty_on_success() {
    assert!(diagnostics_for("1: 4/4 [r, r, r, r]").is_empty());
}

#[test]
fn instruments_split_into_sections() {
    let text = "#[Instrument(Piano)]\n1: 4/4 [r, r, r, r]\n\n#[Instrument(Bass)]\n2: [r, r, r, r]\n";
    let sections = parse_instruments(text);
    assert_eq!(sections.len(), 2);
    assert_eq!(sections[0].name, "Piano");
    assert_eq!(sections[0].measures, vec!["1: 4/4 [r, r, r, r]"]);
    assert_eq!(sections[1].name, "Bass");
    assert_eq!(sections[1].measures, vec!["2: [r, r, r, r]"]);
}

#[test]
fn instruments_ignore_leading_lines() {
    let sections = parse_instruments("stray\n#[Instrument(X)]\nm");
    assert_eq!(sections.len(), 1);
    assert_eq!(sections[0].name, "X");
    assert_eq!(sections[0].measures, vec!["m"]);
}

#[test]
fn convert_is_identity() {
    let score = parse_score("1: 1/4 [60]").unwrap();
    let converted = vsc_score_to_data_score(score);
    assert_eq!(converted.parts.len(), 1);
    assert_eq!(converted.parts[0].measures.len(), 1);
}
