//! Reading the annotations of a batch: names, declarations, source text, and
//! where the annotations stand among the tokens.

use purtel::attributes::{chars_of, holds_name, names_in_list, trimmed_part, PurtelTaskAttributes};
use purtel::codegen::{declaration_list, param_usages_source};
use purtel::tokens::{
    is_group, purtel_task_traverse_token_stream, unwrap_block, BlockError, Delimiter, TokenTree,
};
use purtel::PurtelParamUsageKind::{READ, WRITE};

fn attributes(write: Option<&str>, read: Option<&str>) -> PurtelTaskAttributes {
    PurtelTaskAttributes::new(write.map(|s| s.to_string()), read.map(|s| s.to_string()))
}

fn strings(names: &[&str]) -> Vec<String> {
    names.iter().map(|s| s.to_string()).collect()
}

#[test]
fn names_are_split_at_commas_and_trimmed() {
    let task = attributes(Some("data1, data2"), Some("  data3 ,\tdata4\n"));
    assert_eq!(task.write_params(), strings(&["data1", "data2"]));
    assert_eq!(task.read_params(), strings(&["data3", "data4"]));
}

#[test]
fn missing_list_names_nothing() {
    let task = attributes(None, None);
    assert_eq!(task.write_params(), Vec::<String>::new());
    assert_eq!(task.read_params(), Vec::<String>::new());
    assert!(task.param_usages().is_empty());
}

#[test]
fn empty_pieces_are_names_too() {
    assert_eq!(names_in_list(""), strings(&[""]));
    assert_eq!(names_in_list("a,"), strings(&["a", ""]));
    assert_eq!(names_in_list(",a"), strings(&["", "a"]));
    assert_eq!(names_in_list(" , ,"), strings(&["", "", ""]));
    assert_eq!(names_in_list("a b"), strings(&["a b"]));
}

#[test]
fn white_space_is_what_unicode_says() {
    // U+00A0 and U+3000 are white space, U+200B is not
    assert_eq!(names_in_list("\u{a0}a\u{3000},\u{200b}b"), strings(&["a", "\u{200b}b"]));
    assert_eq!(names_in_list("  \u{e4}\u{f6}  "), strings(&["\u{e4}\u{f6}"]));
}

#[test]
fn part_of_a_string_is_trimmed() {
    let text = "ab,  cd  ,ef";
    let chars = chars_of(text);
    assert_eq!(chars, text.chars().collect::<Vec<char>>());
    assert_eq!(trimmed_part(text, &chars, 3, 9), "cd");
    assert_eq!(trimmed_part(text, &chars, 3, 5), "");
    assert_eq!(trimmed_part(text, &chars, 0, 12), text);
    assert_eq!(trimmed_part(text, &chars, 4, 4), "");
}

#[test]
fn written_names_are_not_read_as_well() {
    let task = attributes(Some("data1, data2"), Some("data2, data3, data1, data"));
    assert_eq!(task.write_params(), strings(&["data1", "data2"]));
    assert_eq!(task.read_params(), strings(&["data3", "data"]));
    let only_read = attributes(None, Some("data2, data3"));
    assert_eq!(only_read.read_params(), strings(&["data2", "data3"]));
}

#[test]
fn membership_is_by_whole_names() {
    let names = strings(&["data1", "data2"]);
    assert!(holds_name(&names, &"data1".to_string()));
    assert!(!holds_name(&names, &"data".to_string()));
    assert!(!holds_name(&Vec::new(), &"data".to_string()));
}

#[test]
fn annotation_declares_writes_then_reads() {
    let task = attributes(Some("w1,w2"), Some("r1, w2"));
    let usages = task.param_usages();
    let seen: Vec<(String, bool)> =
        usages.iter().map(|u| (u.identifier().to_string(), u.kind() == WRITE)).collect();
    assert_eq!(
        seen,
        vec![("w1".to_string(), true), ("w2".to_string(), true), ("r1".to_string(), false)]
    );
    assert_eq!(usages[2].kind(), READ);
}

#[test]
fn declarations_follow_the_annotations() {
    let batch = vec![
        attributes(None, Some("data1")),
        attributes(Some("data1, data2"), None),
        attributes(None, None),
    ];
    let declarations = declaration_list(&batch);
    assert_eq!(declarations.len(), 3);
    assert_eq!(declarations[0].len(), 1);
    assert_eq!(declarations[0][0].identifier(), "data1");
    assert_eq!(declarations[0][0].kind(), READ);
    assert_eq!(declarations[1].len(), 2);
    assert_eq!(declarations[1][1].identifier(), "data2");
    assert_eq!(declarations[1][1].kind(), WRITE);
    assert!(declarations[2].is_empty());
}

#[test]
fn source_text_builds_the_declarations() {
    let batch = vec![attributes(Some("a"), Some("b, a")), attributes(None, None)];
    let expected = String::new()
        + "let param_usages = vec![\n"
        + "  vec![\n"
        + "    purtel::PurtelParamUsage::new(\"a\", purtel::PurtelParamUsageKind::WRITE),"
        + "    purtel::PurtelParamUsage::new(\"b\", purtel::PurtelParamUsageKind::READ),"
        + "  ],\n"
        + "  vec![\n"
        + "  ],\n"
        + "];";
    assert_eq!(param_usages_source(&batch), expected);
    assert_eq!(param_usages_source(&Vec::new()), "let param_usages = vec![\n];");
}

fn ident(name: &str) -> TokenTree {
    TokenTree::Ident(name.to_string())
}

fn punct(mark: char) -> TokenTree {
    TokenTree::Punct { mark, joint: false }
}

fn group(delimiter: Delimiter, stream: Vec<TokenTree>) -> TokenTree {
    TokenTree::Group { delimiter, stream }
}

/// The names of the words in `stream`, groups not entered.
fn words(stream: &Vec<TokenTree>) -> Vec<String> {
    let mut names = Vec::new();
    for tree in stream {
        if let TokenTree::Ident(name) = tree {
            names.push(name.clone());
        }
    }
    names
}

#[test]
fn annotations_are_found_at_any_depth() {
    // #[purtel_task(write = "a")] let t1 = { #[purtel_task(read = "a")] x };  #[other(purtel_task)] (y)
    let stream = vec![
        punct('#'),
        group(
            Delimiter::Bracket,
            vec![
                ident("purtel_task"),
                group(
                    Delimiter::Parenthesis,
                    vec![ident("write"), punct('='), TokenTree::Literal("\"a\"".to_string())],
                ),
            ],
        ),
        ident("let"),
        ident("t1"),
        punct('='),
        group(
            Delimiter::Brace,
            vec![
                punct('#'),
                group(
                    Delimiter::Bracket,
                    vec![
                        ident("purtel_task"),
                        group(
                            Delimiter::Parenthesis,
                            vec![
                                ident("read"),
                                punct('='),
                                TokenTree::Literal("\"a\"".to_string()),
                            ],
                        ),
                    ],
                ),
                ident("x"),
            ],
        ),
        punct(';'),
        punct('#'),
        group(
            Delimiter::Bracket,
            vec![ident("other"), group(Delimiter::Parenthesis, vec![ident("purtel_task")])],
        ),
        group(Delimiter::Parenthesis, vec![ident("y")]),
    ];
    let mut found = Vec::new();
    purtel_task_traverse_token_stream(&stream, &mut found);
    let seen: Vec<Vec<String>> = found.iter().map(|stream| words(stream)).collect();
    assert_eq!(seen, vec![strings(&["write"]), strings(&["read"])]);
}

#[test]
fn group_after_the_marker_is_taken_whatever_lies_between() {
    let stream = vec![
        ident("purtel_task"),
        punct('!'),
        ident("between"),
        group(Delimiter::Brace, vec![ident("first"), group(Delimiter::Brace, vec![ident("inner")])]),
        group(Delimiter::Brace, vec![ident("second")]),
        ident("purtel_task_"),
        group(Delimiter::Brace, vec![ident("third")]),
    ];
    let mut found = Vec::new();
    purtel_task_traverse_token_stream(&stream, &mut found);
    let seen: Vec<Vec<String>> = found.iter().map(|stream| words(stream)).collect();
    assert_eq!(seen, vec![strings(&["first"])]);
    // earlier finds stay where they are
    purtel_task_traverse_token_stream(&stream, &mut found);
    assert_eq!(found.len(), 2);
}

#[test]
fn block_is_the_last_group_in_braces() {
    let stream = vec![
        group(Delimiter::Parenthesis, vec![ident("a")]),
        ident("b"),
        group(Delimiter::Brace, vec![ident("c"), ident("d")]),
        punct(';'),
    ];
    let contents = unwrap_block(stream).unwrap();
    assert_eq!(words(&contents), strings(&["c", "d"]));
}

#[test]
fn stream_without_a_block_is_refused() {
    assert_eq!(unwrap_block(vec![]).err(), Some(BlockError::NoGroup));
    assert_eq!(
        unwrap_block(vec![ident("a"), punct(';')]).err(),
        Some(BlockError::NoGroup)
    );
    let stream =
        vec![group(Delimiter::Brace, vec![ident("c")]), group(Delimiter::Bracket, vec![ident("d")])];
    assert_eq!(unwrap_block(stream).err(), Some(BlockError::NotBraces));
    assert!(is_group(&group(Delimiter::Invisible, vec![])));
    assert!(!is_group(&ident("a")));
}
