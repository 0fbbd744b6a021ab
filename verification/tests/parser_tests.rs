use vec_score_drawer::comments::remove_comments_multiline;
use vec_score_drawer::data::{Accidental, EventType, NoteLetter, Pitch, ScoreElement};
use vec_score_drawer::error::ParseError;
use vec_score_drawer::parser::{parse_meter, parse_score};
use vec_score_drawer::pitch::parse_pitch;
use vec_score_drawer::tokenizer::tokenize;

#[test]
fn tokenize_splits_punctuation_and_words() {
    let t = tokenize("72-, t [x]{y}");
    assert_eq!(t, vec!["72-", ",", "t", "[", "x", "]", "{", "y", "}"]);
}

#[test]
fn tokenize_whitespace_does_not_flush_words() {
    // Whitespace is dropped without flushing the word buffer: only
    // punctuation or the end of input ends a word.
    let t = tokenize("  a\t b ");
    assert_eq!(t, vec!["ab"]);
    assert_eq!(tokenize("a ,b"), vec!["a", ",", "b"]);
}

#[test]
fn comments_line_and_block() {
    assert_eq!(remove_comments_multiline("a // x\nb"), "a \nb");
    assert_eq!(remove_comments_multiline("a /* x */ b"), "a  b");
}

#[test]
fn comments_preserve_newlines_across_blocks() {
    let out = remove_comments_multiline("a /* x\ny */ b\nc");
    assert_eq!(out, "a \n b\nc");
    assert_eq!(out.lines().count(), 3);
}

#[test]
fn comments_unterminated_block_swallows_rest() {
    assert_eq!(remove_comments_multiline("a /* x"), "a ");
}

#[test]
fn meter_parses_and_rejects() {
    let m = parse_meter("6/8").unwrap();
    assert_eq!(m.beats, 6);
    assert_eq!(m.unit, 8);
    assert!(parse_meter("4").is_none());
    assert!(parse_meter("a/4").is_none());
    assert!(parse_meter("").is_none());
    // Only the first two slash-separated fields are read.
    let m2 = parse_meter("4/4/9").unwrap();
    assert_eq!((m2.beats, m2.unit), (4, 4));
}

#[test]
fn pitch_numeric_and_named() {
    assert_eq!(parse_pitch("72").unwrap(), Pitch::Midi(72));
    assert_eq!(parse_pitch("255").unwrap(), Pitch::Midi(255));
    match parse_pitch("C#4").unwrap() {
        Pitch::NoteName { letter, accidental, octave } => {
            assert_eq!(letter, NoteLetter::C);
            assert_eq!(accidental, Some(Accidental::Sharp));
            assert_eq!(octave, 4);
        },
        _ => panic!("expected a note name"),
    }
    match parse_pitch("bb-1").unwrap() {
        Pitch::NoteName { letter, accidental, octave } => {
            assert_eq!(letter, NoteLetter::B);
            assert_eq!(accidental, Some(Accidental::Flat));
            assert_eq!(octave, -1);
        },
        _ => panic!("expected a note name"),
    }
}

#[test]
fn pitch_errors() {
    assert_eq!(parse_pitch("").unwrap_err(), "Empty input");
    assert_eq!(parse_pitch("300").unwrap_err(), "Invalid note letter: 3");
    assert_eq!(parse_pitch("H4").unwrap_err(), "Invalid note letter: H");
    assert_eq!(parse_pitch("C").unwrap_err(), "Missing octave information");
    assert_eq!(parse_pitch("C#x").unwrap_err(), "Invalid octave");
}

#[test]
fn midi_number_and_cents() {
    assert_eq!(parse_pitch("C#4").unwrap().midi_number().unwrap(), 61);
    assert_eq!(parse_pitch("A4").unwrap().cents().unwrap(), 6900);
    // A raw numeric code is not re-checked against 127.
    assert_eq!(Pitch::Midi(200).midi_number().unwrap(), 200);
    assert_eq!(Pitch::Midi(60).to_midi_number().unwrap(), 60);
    // A named pitch far outside the range fails.
    assert!(parse_pitch("C99").unwrap().midi_number().is_err());
    assert_eq!(
        parse_pitch("C99").unwrap().midi_number().unwrap_err(),
        "Pitch out of MIDI range"
    );
}

#[test]
fn parse_single_measure() {
    let score = parse_score("1: 4/4 [72-, t, 76, 79]").unwrap();
    assert_eq!(score.parts.len(), 1);
    let part = &score.parts[0];
    assert_eq!(part.measures.len(), 1);
    let m = &part.measures[0];
    assert_eq!(m.number, 1);
    assert_eq!((m.meter.beats, m.meter.unit), (4, 4));
    assert_eq!(m.beats.len(), 4);
    match &m.beats[0].elements[0] {
        ScoreElement::Event(ev) => {
            assert_eq!(ev.event_type, EventType::Note);
            assert_eq!(ev.pitch, Some(Pitch::Midi(72)));
            assert_eq!(ev.pitch_cents, Some(7200));
            assert!(ev.tie);
            assert_eq!(ev.id, Some(0));
        },
        _ => panic!("expected an event"),
    }
    // Each beat is parsed with an empty outer context, so a tie in its own
    // beat inherits no pitch from a previous beat; the merge happens later,
    // in tie-run detection.
    match &m.beats[1].elements[0] {
        ScoreElement::Tie(t) => {
            assert_eq!(t.pitch, None);
            assert_eq!(t.pitch_cents, None);
        },
        _ => panic!("expected a tie"),
    }
}

#[test]
fn tie_inherits_within_its_own_beat() {
    // Inside a nested group the comma only separates elements, so the tie
    // sees the tied note in its context and inherits its pitch.
    let score = parse_score("1: 1/4 [[72-, t]]").unwrap();
    let beat = &score.parts[0].measures[0].beats[0];
    match &beat.elements[0] {
        ScoreElement::Subdivision(sub) => {
            assert_eq!(sub.base_division, 2);
            match &sub.elements[1] {
                ScoreElement::Tie(t) => {
                    assert_eq!(t.pitch, Some(Pitch::Midi(72)));
                    assert_eq!(t.pitch_cents, Some(7200));
                },
                _ => panic!("expected a tie"),
            }
        },
        _ => panic!("expected a subdivision"),
    }
}

#[test]
fn parse_chords_measure() {
    let score = parse_score("5: 2/4 [{72, 76, 79}, {72, 77, 81}]").unwrap();
    let m = &score.parts[0].measures[0];
    assert_eq!(m.number, 5);
    assert_eq!(m.beats.len(), 2);
    for beat in &m.beats {
        assert_eq!(beat.elements.len(), 1);
        match &beat.elements[0] {
            ScoreElement::Chord(c) => {
                assert_eq!(c.events.len(), 3);
            },
            _ => panic!("expected a chord"),
        }
    }
}

#[test]
fn beat_count_mismatch_is_the_only_error() {
    let errs = parse_score("1: 4/4 [a4, b4, c4]").unwrap_err();
    assert_eq!(errs.len(), 1);
    assert_eq!(
        errs[0].message,
        "Number of beats (3) does not match meter (4) (Measure 1)"
    );
    assert_eq!(errs[0].line, Some(0));
}

#[test]
fn two_malformed_lines_two_errors() {
    let errs = parse_score("1 4/4 [72]\nx: 4/4 [72]").unwrap_err();
    assert!(errs.len() >= 2);
    assert!(errs.iter().any(|e| e.line == Some(0)));
    assert!(errs.iter().any(|e| e.line == Some(1)));
    assert_eq!(errs[0].message, "Measure number separator ':' is missing");
    assert_eq!(errs[1].message, "Invalid measure number 'x'");
}

#[test]
fn sticky_meter_carries_forward() {
    let score = parse_score("1: 4/4 [r, r, r, r]\n2: [r, r, r, r]").unwrap();
    let ms = &score.parts[0].measures;
    assert_eq!(ms.len(), 2);
    assert_eq!((ms[1].meter.beats, ms[1].meter.unit), (4, 4));
}

#[test]
fn missing_first_meter_is_reported() {
    let errs = parse_score("1: [r]").unwrap_err();
    assert_eq!(errs.len(), 1);
    assert_eq!(
        errs[0].message,
        "No meter specified in the first measure (Measure 1)"
    );
}

#[test]
fn missing_brackets_are_reported() {
    let errs = parse_score("1: 4/4 r, r").unwrap_err();
    assert_eq!(errs.len(), 1);
    assert_eq!(errs[0].message, "Missing '[' in content 'r, r' (Measure 1)");
    let errs2 = parse_score("1: 4/4 [r, r").unwrap_err();
    assert_eq!(errs2[0].message, "Missing ']' (Measure 1)");
}

#[test]
fn unmatched_nested_bracket_is_reported() {
    let errs = parse_score("1: 4/4 [[72]").unwrap_err();
    assert!(errs.iter().any(|e| e.message == "Unmatched '['"));
}

#[test]
fn chord_with_nested_group_is_rejected() {
    let errs = parse_score("1: 1/4 [{[72]}]").unwrap_err();
    assert!(errs.iter().any(|e| e.message == "Chord may contain only simple events"));
}

#[test]
fn invalid_pitch_token_is_reported() {
    // The bad beat is dropped, so the independent beat-count check fires too.
    let errs = parse_score("1: 1/4 [zz]").unwrap_err();
    assert_eq!(errs.len(), 2);
    assert_eq!(errs[0].message, "Invalid pitch `zz`: Invalid note letter: z");
    assert_eq!(errs[0].line, Some(0));
    assert_eq!(
        errs[1].message,
        "Number of beats (0) does not match meter (1) (Measure 1)"
    );
}

#[test]
fn comments_keep_line_numbers_for_errors() {
    let errs = parse_score("/* a\nb */\nbad line").unwrap_err();
    assert_eq!(errs.len(), 1);
    assert_eq!(errs[0].line, Some(2));
}

#[test]
fn empty_input_parses_to_empty_score() {
    let score = parse_score("").unwrap();
    assert_eq!(score.parts.len(), 1);
    assert!(score.parts[0].measures.is_empty());
}

#[test]
fn parse_error_display() {
    let e = ParseError::new("boom", Some(4));
    assert_eq!(e.display_string(), "Line 5: boom");
    let e2 = ParseError::new("boom", None);
    assert_eq!(e2.display_string(), "boom");
}

#[test]
fn tie_without_predecessor_keeps_no_pitch() {
    let score = parse_score("1: 1/4 [t]").unwrap();
    match &score.parts[0].measures[0].beats[0].elements[0] {
        ScoreElement::Tie(t) => {
            assert_eq!(t.pitch, None);
            assert_eq!(t.pitch_cents, None);
        },
        _ => panic!("expected a tie"),
    }
}

#[test]
fn subdivision_counts_its_children() {
    let score = parse_score("1: 1/4 [[72, 74, 76]]").unwrap();
    match &score.parts[0].measures[0].beats[0].elements[0] {
        ScoreElement::Subdivision(s) => {
            assert_eq!(s.base_division, 3);
            assert_eq!(s.elements.len(), 3);
        },
        _ => panic!("expected a subdivision"),
    }
}
