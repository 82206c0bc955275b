use shtola::{lexer, merge, HashMap, ShFile};

#[test]
fn text_without_fence_is_all_body() {
    let (meta, body) = lexer("title: A\nbody");
    assert_eq!(meta, "");
    assert_eq!(body, "title: A\nbody");
}

#[test]
fn fence_not_on_its_own_line_is_no_fence() {
    let (meta, body) = lexer("----\na\n---\nb");
    assert_eq!(meta, "");
    assert_eq!(body, "----\na\n---\nb");
}

#[test]
fn fenced_text_splits_into_meta_and_body() {
    let (meta, body) = lexer("---\ntitle: A\nn: 2\n---\nbody\ntext\n");
    assert_eq!(meta, "title: A\nn: 2");
    assert_eq!(body, "body\ntext\n");
}

#[test]
fn unclosed_fence_is_all_body() {
    let (meta, body) = lexer("---\ntitle: A\nbody");
    assert_eq!(meta, "");
    assert_eq!(body, "---\ntitle: A\nbody");
}

#[test]
fn empty_text_is_empty_body() {
    let (meta, body) = lexer("");
    assert_eq!(meta, "");
    assert_eq!(body, "");
}

#[test]
fn adjacent_fences_give_empty_meta() {
    let (meta, body) = lexer("---\n---\nbody");
    assert_eq!(meta, "");
    assert_eq!(body, "body");
}

#[test]
fn closing_fence_at_end_gives_empty_body() {
    let (meta, body) = lexer("---\nk: v\n---");
    assert_eq!(meta, "k: v");
    assert_eq!(body, "");
}

#[test]
fn first_closing_fence_wins() {
    let (meta, body) = lexer("---\nk: v\n---\nx\n---\ny");
    assert_eq!(meta, "k: v");
    assert_eq!(body, "x\n---\ny");
}

#[test]
fn non_ascii_text_is_split_by_characters() {
    let (meta, body) = lexer("---\nt: é\n---\nünï");
    assert_eq!(meta, "t: é");
    assert_eq!(body, "ünï");
}

#[test]
fn merge_prefers_updates_and_keeps_the_rest() {
    let mut base: HashMap<String, ShFile> = HashMap::new();
    base.insert("a".to_string(), ShFile { frontmatter: vec![], content: b"old a".to_vec() });
    base.insert("b".to_string(), ShFile { frontmatter: vec![], content: b"old b".to_vec() });
    base.insert("c".to_string(), ShFile { frontmatter: vec![], content: b"old c".to_vec() });
    let mut updates: HashMap<String, ShFile> = HashMap::new();
    updates.insert("b".to_string(), ShFile { frontmatter: vec![], content: b"new b".to_vec() });
    updates.insert("d".to_string(), ShFile { frontmatter: vec![], content: b"new d".to_vec() });
    let m = merge(&updates, &base);
    assert_eq!(m.len(), 4);
    assert_eq!(m.get("a").unwrap().content, b"old a".to_vec());
    assert_eq!(m.get("b").unwrap().content, b"new b".to_vec());
    assert_eq!(m.get("c").unwrap().content, b"old c".to_vec());
    assert_eq!(m.get("d").unwrap().content, b"new d".to_vec());
    assert_eq!(base.get("b").unwrap().content, b"old b".to_vec());
    assert_eq!(updates.len(), 2);
}
