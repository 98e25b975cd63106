use lib::preprocess::{char_literals, preprocess, strip_comments, substitute};

#[test]
fn constants_are_replaced() {
    assert_eq!(preprocess("#def N @ 5\nrg r0 N;"), vec!["rg r0 5".to_string()]);
    assert_eq!(preprocess("#def N @ 5\nrg r0 NN;"), vec!["rg r0 NN".to_string()]);
}

#[test]
fn macros_expand_with_their_arguments() {
    assert_eq!(
        preprocess("#def set r v @ rg r v; syscall 1\nset r1 7;"),
        vec!["rg r1 7".to_string(), "syscall 1".to_string()]
    );
}

#[test]
fn comments_are_removed() {
    assert_eq!(
        preprocess("a; // x\nb; /* c */ d;"),
        vec!["a".to_string(), "b".to_string(), "d".to_string()]
    );
    assert_eq!(preprocess("/* a /* b */ c */ e;"), vec!["e".to_string()]);
}

#[test]
fn character_literals_become_numbers() {
    assert_eq!(preprocess("rg r0 'A';"), vec!["rg r0 65".to_string()]);
    assert_eq!(preprocess("rg r0 '\\n';"), vec!["rg r0 10".to_string()]);
}

#[test]
fn statements_are_cut_at_braces() {
    assert_eq!(
        preprocess("loop { a; b }"),
        vec!["loop {".to_string(), "a".to_string(), "b }".to_string()]
    );
}

fn chars(s: &str) -> Vec<char> {
    s.chars().collect()
}

#[test]
fn text_without_comments_is_kept() {
    let text = chars("rg r0 5 * 3; load r1 [r4]\n");
    assert_eq!(strip_comments(&text), text);
    assert_eq!(strip_comments(&chars("a /* b */ c")), chars("a   c"));
}

#[test]
fn text_without_literals_is_kept() {
    let text = chars("rg r0 \"x\"; syscall 1");
    assert_eq!(char_literals(&text), text);
    assert_eq!(char_literals(&chars("'a' '\\t'")), chars("97 9"));
}

#[test]
fn an_empty_table_replaces_nothing() {
    let text = chars("rg r0 N + M_2;");
    assert_eq!(substitute(&Vec::new(), &text), text);
    let table = vec![(chars("N"), Some(chars("5"))), (chars("M_2"), None)];
    assert_eq!(substitute(&table, &text), chars("rg r0 5 + M_2;"));
}

#[test]
fn a_plain_source_is_only_cut_into_statements() {
    assert_eq!(
        preprocess("loop {rg r0 1;}"),
        vec!["loop {".to_string(), "rg r0 1".to_string(), "}".to_string()]
    );
    assert_eq!(preprocess("a;\n  b ; c"), vec!["a".to_string(), "b".to_string(), "c".to_string()]);
}

#[test]
fn a_table_without_the_text_s_words_replaces_nothing() {
    let text = chars("rg r0 N + M_2;");
    let table = vec![(chars("X"), Some(chars("5"))), (chars("N1"), Some(chars("6")))];
    assert_eq!(substitute(&table, &text), text);
}
