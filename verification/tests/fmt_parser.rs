use openvaf::fmt_parser::{parse_real_fmt_spec, FmtSpecError, ParserState, TextRange};

/// Parse the specification that starts at the `%` at byte 0 of `lit`.
fn parse(lit: &str) -> (openvaf::fmt_parser::ParseResult, usize) {
    let chars: Vec<(usize, char)> = lit.char_indices().collect();
    let pos = chars.get(1).copied();
    let mut cursor = 2.min(chars.len());
    let res = parse_real_fmt_spec(0, 7, pos, &chars, &mut cursor);
    (res, cursor)
}

#[test]
fn width_and_precision() {
    let (res, cursor) = parse("%5.2f rest");
    assert!(res.err.is_none());
    assert!(res.dynamic_args.is_empty());
    assert_eq!(res.end, 5);
    assert_eq!(cursor, 5);
}

#[test]
fn flags_then_conversion() {
    let (res, _) = parse("%-+ #010.3g");
    assert!(res.err.is_none());
    assert_eq!(res.end, 11);
}

#[test]
fn dynamic_width_and_precision() {
    let (res, cursor) = parse("%*.*e");
    assert!(res.err.is_none());
    assert_eq!(res.dynamic_args, vec![1, 3]);
    assert_eq!(res.end, 5);
    assert_eq!(cursor, 5);
}

#[test]
fn real_conversion_r() {
    let (res, _) = parse("%R");
    assert!(res.err.is_none());
    assert_eq!(res.end, 2);
}

#[test]
fn unterminated() {
    let (res, _) = parse("%5");
    assert_eq!(res.end, 2);
    assert_eq!(res.err, Some(FmtSpecError::InvalidFmtSpecifierEnd { fmt_lit: 7, lit_range: TextRange { start: 0, end: 2 } }));
}

#[test]
fn invalid_char_after_dot() {
    let (res, cursor) = parse("%.x");
    assert_eq!(
        res.err,
        Some(FmtSpecError::InvalidFmtSpecifierChar {
            fmt_lit: 7,
            lit_range: TextRange { start: 2, end: 3 },
            err_char: 'x',
            candidates: ParserState::AnyPrecision.candidates(),
        })
    );
    assert_eq!(cursor, 3);
}

#[test]
fn conversion_not_allowed_right_after_dot() {
    let (res, _) = parse("%.f");
    assert!(matches!(res.err, Some(FmtSpecError::InvalidFmtSpecifierChar { err_char: 'f', .. })));
}

#[test]
fn multibyte_char_end() {
    let (res, _) = parse("%é");
    assert_eq!(
        res.err,
        Some(FmtSpecError::InvalidFmtSpecifierChar {
            fmt_lit: 7,
            lit_range: TextRange { start: 1, end: 3 },
            err_char: 'é',
            candidates: ParserState::Flags.candidates(),
        })
    );
    assert_eq!(res.end, 3);
}

#[test]
fn parser_states() {
    assert!(ParserState::Flags.start_precision());
    assert!(ParserState::DynamicWidth.start_precision());
    assert!(!ParserState::AnyPrecision.start_precision());
    assert!(ParserState::FixedWidth.eat_number());
    assert!(ParserState::FixedPrecision.eat_number());
    assert!(!ParserState::Flags.eat_number());
    assert_eq!(ParserState::DynamicPrecsion.candidates(), vec!['e', 'E', 'f', 'F', 'g', 'G', 'r', 'R']);
    assert_eq!(ParserState::Flags.candidates().len(), 41);
}

#[test]
fn grammar_words_are_read_exactly() {
    // each of these begins with a word of the specification grammar, ending at byte 3
    for lit in ["%-*E tail", "%12gE", "%.7rR", "%#*f1"] {
        let (res, cursor) = parse(lit);
        assert!(res.err.is_none(), "{}", lit);
        assert_eq!(cursor, 4, "{}", lit);
        assert_eq!(res.end, 4, "{}", lit);
    }
    // none of these begins with one
    for lit in ["%*5f", "%5*f", "%.f", "%1.2.3f", "%-", "%+d"] {
        let (res, _) = parse(lit);
        assert!(res.err.is_some(), "{}", lit);
    }
}
