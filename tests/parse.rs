use tsml::lexer::{lex, LexToken};
use tsml::parser::{parse_tokens, ParserErrorKind, TokenPosition};
use tsml::tree::{FileTree, GroupsMap, TsmlError};

fn parse(text: &str) -> Result<(GroupsMap, Vec<String>), TsmlError> {
    parse_tokens(lex(text))
}

fn describe(t: &FileTree) -> String {
    match t {
        FileTree::Regular { path, .. } => format!("R({})", path),
        FileTree::Symlink { path, target_path, .. } => format!("S({}->{})", path, target_path),
        FileTree::Directory { path, children, .. } => {
            let inner: Vec<String> = children.iter().map(describe).collect();
            format!("D({},[{}])", path, inner.join(","))
        },
    }
}

fn group<'a>(map: &'a GroupsMap, name: &str) -> &'a Vec<FileTree> {
    &map.iter().find(|(k, _)| k == name).expect("group present").1
}

fn describe_group(map: &GroupsMap, name: &str) -> Vec<String> {
    group(map, name).iter().map(describe).collect()
}

fn error_of(text: &str) -> (TokenPosition, ParserErrorKind) {
    match parse(text) {
        Err(TsmlError::ParserError(pos, kind)) => (pos, kind),
        Err(TsmlError::PathWithoutName) => panic!("unexpected serializer error"),
        Ok(_) => panic!("expected a parse error"),
    }
}

#[test]
fn regular_and_directory() {
    let (map, order) = parse("\"a\"\n\"b\": [\"c\"]\n").unwrap();
    assert_eq!(order, vec!["main".to_string()]);
    assert_eq!(describe_group(&map, "main"), vec!["R(a)", "D(b,[R(b/c)])"]);
}

#[test]
fn symlink_entry() {
    let (map, _) = parse("\"x\" > \"y\"\n").unwrap();
    assert_eq!(describe_group(&map, "main"), vec!["S(x->y)"]);
}

#[test]
fn direct_tags() {
    let (map, _) = parse("(t1, t2) \"f\"\n").unwrap();
    let files = group(&map, "main");
    assert_eq!(files.len(), 1);
    assert_eq!(describe(&files[0]), "R(f)");
    let tags = files[0].extra().as_ref().unwrap();
    let mut direct = tags.direct_tags.clone();
    direct.sort();
    assert_eq!(direct, vec!["t1".to_string(), "t2".to_string()]);
    assert!(tags.group_tags.is_empty());
}

#[test]
fn group_marker() {
    let (map, order) = parse("- [grp]\n\"f\"\n").unwrap();
    assert_eq!(order, vec!["main".to_string(), "grp".to_string()]);
    assert_eq!(describe_group(&map, "grp"), vec!["R(f)"]);
    assert!(group(&map, "main").is_empty());
}

#[test]
fn unclosed_bracket() {
    let (pos, kind) = error_of("\"a\": [\"b\"\n");
    assert!(matches!(kind, ParserErrorKind::BracketUnclosed));
    assert_eq!((pos.line, pos.column, pos.start_index), (1, 5, 5));
}

#[test]
fn comma_at_top_level() {
    let (pos, kind) = error_of("\"a\", \"b\"\n");
    assert!(matches!(kind, ParserErrorKind::CommasOutsideOfBrackets));
    assert_eq!((pos.line, pos.column, pos.start_index), (1, 3, 3));
}

#[test]
fn error_position_on_later_line() {
    let (pos, kind) = error_of("\"a\"\n\"b\", \"c\"\n");
    assert!(matches!(kind, ParserErrorKind::CommasOutsideOfBrackets));
    assert_eq!((pos.line, pos.column, pos.start_index), (2, 3, 7));
}

#[test]
fn brackets_balance_on_success() {
    let text = "\"a\": [\"b\": [\"c\", \"d\"], \"e\"]\n\"f\": []\n";
    let tokens = lex(text);
    let opens = tokens.iter().filter(|t| matches!(t.token, LexToken::OpenBracket)).count();
    let closes = tokens.iter().filter(|t| matches!(t.token, LexToken::CloseBracket)).count();
    assert!(parse_tokens(tokens).is_ok());
    assert_eq!(opens, 3);
    assert_eq!(opens, closes);
}

#[test]
fn group_order_first_seen() {
    let (map, order) = parse("- [x]\n\"a\"\n- [y]\n\"b\"\n- [x]\n\"c\"\n").unwrap();
    assert_eq!(order, vec!["main".to_string(), "x".to_string(), "y".to_string()]);
    let keys: Vec<&String> = map.iter().map(|(k, _)| k).collect();
    assert_eq!(keys, vec!["main", "x", "y"]);
    assert_eq!(describe_group(&map, "x"), vec!["R(a)", "R(c)"]);
    assert_eq!(describe_group(&map, "y"), vec!["R(b)"]);
}

#[test]
fn nested_paths_are_flattened() {
    let (map, _) = parse("\"b\": [\"c\": [\"d\"], \"e\" > \"t\"]\n").unwrap();
    assert_eq!(describe_group(&map, "main"), vec!["D(b,[D(b/c,[R(b/c/d)]),S(b/e->t)])"]);
}

#[test]
fn group_tags_reach_every_entry() {
    let (map, order) = parse("(g1) - [grp]\n\"a\"\n(d) \"b\"\n").unwrap();
    assert_eq!(order, vec!["main".to_string(), "grp".to_string()]);
    let files = group(&map, "grp");
    assert_eq!(files.len(), 2);
    for f in files {
        let tags = f.extra().as_ref().unwrap();
        assert_eq!(tags.group_tags, vec!["g1".to_string()]);
    }
    assert!(files[0].extra().as_ref().unwrap().direct_tags.is_empty());
    assert_eq!(files[1].extra().as_ref().unwrap().direct_tags, vec!["d".to_string()]);
}

#[test]
fn innermost_unclosed_bracket() {
    let (pos, kind) = error_of("\"a\": [\n    \"b\": [\"c\"\n");
    assert!(matches!(kind, ParserErrorKind::BracketUnclosed));
    assert_eq!((pos.line, pos.column, pos.start_index), (2, 9, 16));
}

#[test]
fn unexpected_close() {
    let (_, kind) = error_of("\"a\"\n]\n");
    assert!(matches!(kind, ParserErrorKind::BracketUnexpectedClose));
}

#[test]
fn unexpected_open() {
    let (_, kind) = error_of("[\"a\"]\n");
    assert!(matches!(kind, ParserErrorKind::BracketUnexpectedOpen));
    let (_, kind) = error_of("\"x\" > \"y\": [\"a\"]\n");
    assert!(matches!(kind, ParserErrorKind::BracketUnexpectedOpen));
}

#[test]
fn open_right_after_close() {
    let (pos, kind) = error_of("\"a\": [\"b\"] [\"c\"]\n");
    assert!(matches!(kind, ParserErrorKind::BracketUnexpectedOpen));
    assert_eq!((pos.line, pos.column, pos.start_index), (1, 11, 11));
}

#[test]
fn entry_after_closed_directory() {
    let (map, _) = parse("\"a\": [\"b\"]\n\"c\": [\"d\"]\n").unwrap();
    assert_eq!(describe_group(&map, "main"), vec!["D(a,[R(a/b)])", "D(c,[R(c/d)])"]);
}

#[test]
fn missing_symlink_target() {
    let (pos, kind) = error_of("\"x\" >\n");
    assert!(matches!(kind, ParserErrorKind::MissingSymlinkTarget));
    assert_eq!((pos.line, pos.column, pos.start_index), (1, 4, 4));
    let (_, kind) = error_of("\"x\" >");
    assert!(matches!(kind, ParserErrorKind::MissingSymlinkTarget));
}

#[test]
fn tag_after_tag() {
    let (_, kind) = error_of("(a) (b) \"f\"\n");
    assert!(matches!(kind, ParserErrorKind::TagAfterTag));
}

#[test]
fn value_after_value() {
    let (_, kind) = error_of("\"a\" \"b\"\n");
    assert!(matches!(kind, ParserErrorKind::ValueAfterValue));
}

#[test]
fn group_inside_brackets() {
    let (_, kind) = error_of("\"d\": [\n- [g]\n]\n");
    assert!(matches!(kind, ParserErrorKind::GroupInsideBrackets));
}

#[test]
fn group_not_followed_by_newline() {
    let (_, kind) = error_of("- [g] \"a\"\n");
    assert!(matches!(kind, ParserErrorKind::GroupNotFollowedByNewline));
}

#[test]
fn stray_symlink_arrow() {
    let (_, kind) = error_of("> \"a\"\n");
    assert!(matches!(kind, ParserErrorKind::UnexpectedSymlinkArrow));
}

#[test]
fn lex_errors_do_not_stop_parsing() {
    let tokens = lex("\"a\" ?\n\"b\n");
    assert!(tokens.iter().any(|t| matches!(t.token, LexToken::LexError)));
    let (map, _) = parse_tokens(tokens).unwrap();
    assert_eq!(describe_group(&map, "main"), vec!["R(a)"]);
}

#[test]
fn empty_text() {
    let (map, order) = parse("").unwrap();
    assert_eq!(order, vec!["main".to_string()]);
    assert_eq!(map.len(), 1);
    assert!(group(&map, "main").is_empty());
}

#[test]
fn lexer_spans_are_bytes() {
    let tokens = lex("\"é\" > \"x\"\n- [g]\n(a, , b )");
    let spans: Vec<(usize, usize)> = tokens.iter().map(|t| (t.start, t.end)).collect();
    assert_eq!(spans, vec![(0, 4), (5, 6), (7, 10), (10, 11), (11, 16), (16, 17), (17, 26)]);
    match &tokens[0].token {
        LexToken::Value(v) => assert_eq!(v, "é"),
        _ => panic!("expected a value"),
    }
    match &tokens[4].token {
        LexToken::Group(g) => assert_eq!(g, "g"),
        _ => panic!("expected a group marker"),
    }
    match &tokens[6].token {
        LexToken::Tags(t) => assert_eq!(t, &vec!["a".to_string(), "b".to_string()]),
        _ => panic!("expected tags"),
    }
}
