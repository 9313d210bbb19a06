use beatlang::lexer::{tokenizer, LexError, Token};
use beatlang::parser::{parse, Axiom, Block, Expected, ParseError};
use beatlang::pitch::pitch_to_frequency;
use beatlang::pretty::pretty_print;
use beatlang::render::{plan_bar, BarPlan, Effect, RenderError};

fn plan(source: &str) -> Result<BarPlan, RenderError> {
    let tree: Axiom = parse(source.to_string()).expect("source parses");
    plan_bar(&tree)
}

#[test]
fn minimal_silent_bar() {
    let p = plan("BPM 60\n4/4\n").unwrap();
    assert_eq!(p.length, 176000);
    assert!(p.notes.is_empty());
}

#[test]
fn single_instrument() {
    let p = plan("BPM 60\n4/4\nsimple(0,0,0,0)\n").unwrap();
    assert_eq!(p.length, 176000);
    let offsets: Vec<usize> = p.notes.iter().map(|n| n.offset).collect();
    assert_eq!(offsets, vec![0, 44000, 88000, 132000]);
    for n in &p.notes {
        assert_eq!(n.frequency, 262);
        assert!(n.effects.is_empty());
    }
}

#[test]
fn note_count_mismatch() {
    match plan("BPM 60\n4/4\nsimple(0,0,0)\n") {
        Err(RenderError::NoteCount { found, expected }) => {
            assert_eq!(found, 3);
            assert_eq!(expected, 4);
        }
        other => panic!("unexpected result {:?}", other),
    }
}

#[test]
fn unknown_instrument() {
    match plan("BPM 60\n4/4\nviolin(0,0,0,0)\n") {
        Err(RenderError::UnknownInstrument(name)) => assert_eq!(name, "violin"),
        other => panic!("unexpected result {:?}", other),
    }
}

#[test]
fn nested_filter_stack() {
    let p = plan("BPM 60\n4/4\n<lp:2000>(<lp:500>(simple(0,0,0,0)))\n").unwrap();
    assert_eq!(p.notes.len(), 4);
    for n in &p.notes {
        assert_eq!(n.effects, vec![Effect::LowPass(2000), Effect::LowPass(500)]);
    }
}

#[test]
fn malformed_header() {
    match parse("BPM\n4/4\n".to_string()) {
        Err(ParseError::Unexpected(Expected::Number, Some(Token::Newline))) => {}
        other => panic!("unexpected result {:?}", other),
    }
}

#[test]
fn filter_stack_order_with_own_filters() {
    let p = plan("BPM 120\n2/4\n<lp:100>(<echo:1>(simple<lp:7>(1,13)))\n").unwrap();
    assert_eq!(p.length, 44000);
    assert_eq!(p.notes.len(), 2);
    assert_eq!(
        p.notes[0].effects,
        vec![Effect::LowPass(100), Effect::Echo(44000), Effect::LowPass(7)]
    );
    assert_eq!(p.notes[0].offset, 0);
    assert_eq!(p.notes[1].offset, 22000);
    assert_eq!(p.notes[0].frequency, 277);
    assert_eq!(p.notes[1].frequency, 138);
}

#[test]
fn bar_length_rounds_down() {
    let p = plan("BPM 7\n3/4\n").unwrap();
    assert_eq!(p.length, (2_640_000 / 7) * 3);
}

#[test]
fn zero_tempo_is_refused() {
    assert!(matches!(plan("BPM 0\n4/4\n"), Err(RenderError::ZeroTempo)));
}

#[test]
fn filter_errors() {
    assert!(matches!(
        plan("BPM 60\n1/4\n<hp:3>(simple(0))\n"),
        Err(RenderError::UnknownFilter(ref n)) if n == "hp"
    ));
    assert!(matches!(
        plan("BPM 60\n1/4\n<echo:99999999999999999>(simple(0))\n"),
        Err(RenderError::DelayTooLong(99999999999999999))
    ));
}

#[test]
fn note_count_comes_before_instrument_name() {
    assert!(matches!(
        plan("BPM 60\n2/4\nviolin(0)\n"),
        Err(RenderError::NoteCount { found: 1, expected: 2 })
    ));
}

#[test]
fn header_out_of_range() {
    assert!(matches!(
        parse("BPM 256\n4/4\n".to_string()),
        Err(ParseError::OutOfRange(256))
    ));
}

#[test]
fn header_bounds_accepted() {
    let a = parse("BPM 255\n255/1\n".to_string()).unwrap();
    assert_eq!(a.bpm, 255);
    assert_eq!(a.signature, (255, 1));
    assert!(a.blocks.is_empty());
}

#[test]
fn nested_blocks_parse() {
    let a = parse("bpm 90\n3/4\n\n<lp:20, echo:2>(\n  simple(1,2,3)\n)\nsimple(4,5,6)".to_string())
        .unwrap();
    assert_eq!(a.bpm, 90);
    assert_eq!(a.blocks.len(), 2);
    match &a.blocks[0] {
        Block::Recursive(r) => {
            assert_eq!(r.filters.len(), 2);
            assert_eq!(r.filters[0].name, "lp");
            assert_eq!(r.filters[0].value, 20);
            assert_eq!(r.filters[1].name, "echo");
            assert_eq!(r.blocks.len(), 1);
        }
        _ => panic!("expected a group"),
    }
    match &a.blocks[1] {
        Block::Instrument(i) => {
            assert_eq!(i.instrument, "simple");
            let pitches: Vec<usize> = i.notes.iter().map(|n| n.pitch).collect();
            assert_eq!(pitches, vec![4, 5, 6]);
        }
        _ => panic!("expected an instrument"),
    }
}

#[test]
fn stray_close_paren_at_top_level() {
    assert!(matches!(
        parse("BPM 60\n1/4\n)\n".to_string()),
        Err(ParseError::Unexpected(Expected::BlockOrEnd, Some(Token::RightParen)))
    ));
}

#[test]
fn unclosed_group() {
    assert!(matches!(
        parse("BPM 60\n1/4\n(simple(0)\n".to_string()),
        Err(ParseError::Unexpected(Expected::RightParen, None))
    ));
}

#[test]
fn tokens_of_a_line() {
    let t = tokenizer("<lp:20>(\r\n\n\t x_y\n".to_string()).unwrap();
    assert_eq!(
        t,
        vec![
            Token::LeftAngle,
            Token::Identifier("lp".to_string()),
            Token::Colon,
            Token::Number(20),
            Token::RightAngle,
            Token::LeftParen,
            Token::Newline,
            Token::Identifier("x_y".to_string()),
            Token::Newline,
        ]
    );
}

#[test]
fn newlines_never_adjacent() {
    let t = tokenizer("\n\n a \n\r\n\n b\n\n".to_string()).unwrap();
    for w in t.windows(2) {
        assert!(!(w[0] == Token::Newline && w[1] == Token::Newline));
    }
    assert_eq!(t.len(), 5);
}

#[test]
fn bpm_in_any_case() {
    for w in ["bpm", "Bpm", "BPM", "bPm"] {
        assert_eq!(tokenizer(w.to_string()).unwrap(), vec![Token::BpmKeyword]);
    }
    assert_eq!(
        tokenizer("bpms".to_string()).unwrap(),
        vec![Token::Identifier("bpms".to_string())]
    );
}

#[test]
fn lexical_errors() {
    assert_eq!(tokenizer("a$".to_string()), Err(LexError::UnexpectedChar('$')));
    assert_eq!(tokenizer("07".to_string()), Err(LexError::LeadingZero));
    assert_eq!(tokenizer("0".to_string()), Ok(vec![Token::Number(0)]));
    assert_eq!(
        tokenizer("99999999999999999999".to_string()),
        Err(LexError::NumberTooLarge)
    );
    assert_eq!(
        tokenizer("9223372036854775807".to_string()),
        Ok(vec![Token::Number(9223372036854775807)])
    );
    assert!(matches!(
        parse("BPM 60\n4/4\n_x(0)\n".to_string()),
        Err(ParseError::Lex(LexError::UnexpectedChar('_')))
    ));
}

#[test]
fn pitch_mapping() {
    assert_eq!(pitch_to_frequency(0), 262);
    assert_eq!(pitch_to_frequency(9), 440);
    assert_eq!(pitch_to_frequency(11), 494);
    assert_eq!(pitch_to_frequency(12), 131);
    assert_eq!(pitch_to_frequency(21), 220);
    assert_eq!(pitch_to_frequency(33), 110);
    assert_eq!(pitch_to_frequency(12 * 9), 0);
    assert_eq!(pitch_to_frequency(usize::MAX), 0);
}

#[test]
fn pretty_print_round_trip() {
    let source = "bpm 60\n\n4/4\r\n<lp:2000, echo:1>(\tsimple(0,12,7,100)\n)\nx_y(3)";
    let tokens = tokenizer(source.to_string()).unwrap();
    let printed = pretty_print(&tokens);
    assert_eq!(
        printed,
        "BPM 60 \n 4 / 4 \n < lp : 2000 , echo : 1 > ( simple ( 0 , 12 , 7 , 100 ) \n ) \n x_y ( 3 ) "
    );
    assert_eq!(tokenizer(printed).unwrap(), tokens);
}

#[test]
fn pretty_print_negative_number() {
    let printed = pretty_print(&vec![Token::Number(-42), Token::Number(isize::MIN)]);
    assert_eq!(printed, format!("-42 {} ", isize::MIN));
}
