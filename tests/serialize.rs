use tsml::lexer::lex;
use tsml::parser::parse_tokens;
use tsml::serializer::groups_to_tsml;
use tsml::tree::{FileTree, Groups, Tags, TsmlError};

fn regular(path: &str) -> FileTree {
    FileTree::new_regular_with_extra(path, None)
}

fn shape(t: &FileTree) -> String {
    let name = t.path().rsplit('/').next().unwrap().to_string();
    match t {
        FileTree::Regular { .. } => format!("R({})", name),
        FileTree::Symlink { target_path, .. } => format!("S({}->{})", name, target_path),
        FileTree::Directory { children, .. } => {
            let inner: Vec<String> = children.iter().map(shape).collect();
            format!("D({},[{}])", name, inner.join(","))
        },
    }
}

fn shapes(map: &Vec<(String, Vec<FileTree>)>) -> Vec<(String, Vec<String>)> {
    map.iter().map(|(k, v)| (k.clone(), v.iter().map(shape).collect())).collect()
}

#[test]
fn writes_nested_groups() {
    let mut tags = Tags::new();
    tags.add_direct_tag("t1".to_string());
    tags.add_direct_tag("t2".to_string());
    let mut dir = regular("b");
    dir.to_directory(vec![regular("b/c")]);
    let mut link = regular("x");
    link.to_symlink("y");
    let groups = Groups {
        map: vec![
            ("main".to_string(), vec![regular("a"), dir, link]),
            ("grp/".to_string(), vec![FileTree::new_regular_with_extra("f", Some(tags))]),
        ],
    };
    let text = groups_to_tsml(&groups).unwrap();
    assert_eq!(
        text,
        "\"a\"\n\"b\": [\n    \"c\"\n]\n\"x\" > \"y\"\n\n- [grp]\n(t1, t2) \"f\"\n"
    );
}

#[test]
fn closes_every_level() {
    let mut inner = regular("a/b");
    inner.to_directory(vec![regular("a/b/c")]);
    let mut outer = regular("a");
    outer.to_directory(vec![inner]);
    let mut empty = regular("e");
    empty.to_directory(vec![]);
    let groups = Groups { map: vec![("main".to_string(), vec![outer, empty, regular("z")])] };
    let text = groups_to_tsml(&groups).unwrap();
    assert_eq!(
        text,
        "\"a\": [\n    \"b\": [\n        \"c\"\n    ]\n]\n\"e\": [\n]\n\"z\"\n"
    );
}

fn one_symlink(target: &str) -> Result<String, TsmlError> {
    let mut link = regular("x");
    link.to_symlink(target);
    groups_to_tsml(&Groups { map: vec![("main".to_string(), vec![link])] })
}

#[test]
fn target_without_name() {
    assert!(matches!(one_symlink("a/.."), Err(TsmlError::PathWithoutName)));
    assert!(matches!(one_symlink(""), Err(TsmlError::PathWithoutName)));
    assert!(matches!(one_symlink("/"), Err(TsmlError::PathWithoutName)));
    assert!(matches!(one_symlink("."), Err(TsmlError::PathWithoutName)));
    let groups = Groups { map: vec![("main".to_string(), vec![regular("")])] };
    assert!(matches!(groups_to_tsml(&groups), Err(TsmlError::PathWithoutName)));
}

#[test]
fn file_name_ignores_trailing_slash_and_dot() {
    assert_eq!(one_symlink("dir/").unwrap(), "\"x\" > \"dir\"\n");
    assert_eq!(one_symlink("a/b/.").unwrap(), "\"x\" > \"b\"\n");
    assert_eq!(one_symlink("../t//").unwrap(), "\"x\" > \"t\"\n");
    let groups = Groups { map: vec![("main".to_string(), vec![regular("a/.")])] };
    assert_eq!(groups_to_tsml(&groups).unwrap(), "\"a\"\n");
}

#[test]
fn empty_main_group() {
    let groups = Groups { map: vec![("main".to_string(), vec![])] };
    assert_eq!(groups_to_tsml(&groups).unwrap(), "");
}

#[test]
fn repeated_tag_written_once() {
    let mut tags = Tags::new();
    tags.add_direct_tag("t".to_string());
    tags.add_direct_tag("t".to_string());
    let groups = Groups {
        map: vec![("main".to_string(), vec![FileTree::new_regular_with_extra("f", Some(tags))])],
    };
    assert_eq!(groups_to_tsml(&groups).unwrap(), "(t) \"f\"\n");
}

#[test]
fn round_trip_keeps_structure() {
    let text = "\"a\"\n(t) \"b\": [\"c\" > \"d\", \"e\": [\"f\"], \"g\": []]\n- [other]\n\"h\" > \"i\"\n";
    let (map, order) = parse_tokens(lex(text)).unwrap();
    assert_eq!(order, vec!["main".to_string(), "other".to_string()]);
    let first = shapes(&map);
    let written = groups_to_tsml(&Groups { map }).unwrap();
    let (again, order_again) = parse_tokens(lex(&written)).unwrap();
    assert_eq!(order_again, order);
    assert_eq!(shapes(&again), first);
    let paths: Vec<String> = match &again[0].1[1] {
        FileTree::Directory { children, .. } => children.iter().map(|c| c.path().clone()).collect(),
        _ => panic!("expected a directory"),
    };
    assert_eq!(paths, vec!["b/c", "b/e", "b/g"]);
}
