use xbf::common::XBFErrorKind;
use xbf::generators::common::match_brackets;
use xbf::lexer::Lexer;

#[test]
fn clear_cell_idiom_maps_both_directions() {
    let tokens = Lexer::new("[-]").lex();
    let map = match_brackets(&tokens).unwrap();
    assert_eq!(map.len(), 2);
    assert_eq!(map.get(&0), Some(&2));
    assert_eq!(map.get(&2), Some(&0));
}

#[test]
fn nested_loops_map_to_their_own_partners() {
    let tokens = Lexer::new("[[]]").lex();
    let map = match_brackets(&tokens).unwrap();
    assert_eq!(map.len(), 4);
    assert_eq!(map.get(&0), Some(&3));
    assert_eq!(map.get(&3), Some(&0));
    assert_eq!(map.get(&1), Some(&2));
    assert_eq!(map.get(&2), Some(&1));
}

#[test]
fn map_has_two_entries_per_pair() {
    let tokens = Lexer::new("[][[]][->+<]").lex();
    let map = match_brackets(&tokens).unwrap();
    let pairs = tokens
        .iter()
        .filter(|t| *t.get_typ() == xbf::lexer::TokenType::BracketOpen)
        .count();
    assert_eq!(map.len(), 2 * pairs);
    for (k, v) in map.iter() {
        assert_eq!(map.get(v), Some(k));
    }
}

#[test]
fn lone_close_fails_at_line_one_column_one() {
    let tokens = Lexer::new("]").lex();
    let err = match_brackets(&tokens).unwrap_err();
    assert_eq!(err.kind, XBFErrorKind::MismatchedClose);
    assert_eq!(err.ln, 1);
    assert_eq!(err.col, 1);
    assert_eq!(err.msg(), "Error on line 1, col 1: mismatched ']'");
}

#[test]
fn lone_open_fails_at_line_one_column_one() {
    let tokens = Lexer::new("[").lex();
    let err = match_brackets(&tokens).unwrap_err();
    assert_eq!(err.kind, XBFErrorKind::MismatchedOpen);
    assert_eq!(err.ln, 1);
    assert_eq!(err.col, 1);
    assert_eq!(err.msg(), "Error on line 1, col 1: mismatched '['");
}

#[test]
fn first_stray_close_is_reported() {
    let tokens = Lexer::new("[]\n]]").lex();
    let err = match_brackets(&tokens).unwrap_err();
    assert_eq!(err.kind, XBFErrorKind::MismatchedClose);
    assert_eq!(err.ln, 2);
}

#[test]
fn oldest_pending_open_is_reported() {
    let tokens = Lexer::new("[[]").lex();
    let err = match_brackets(&tokens).unwrap_err();
    assert_eq!(err.kind, XBFErrorKind::MismatchedOpen);
    assert_eq!(err.ln, 1);
    assert_eq!(err.col, 1);
}

#[test]
fn structural_kinds_are_distinct_from_internal_faults() {
    assert_ne!(XBFErrorKind::MismatchedClose, XBFErrorKind::InternalFormatting);
    assert_ne!(XBFErrorKind::MismatchedOpen, XBFErrorKind::InternalFormatting);
    assert_ne!(XBFErrorKind::MismatchedClose, XBFErrorKind::MismatchedOpen);
}
