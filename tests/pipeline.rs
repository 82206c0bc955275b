use shtola::{HashMap, ReadError, ShFile, Shtola, SourceFile, IR};

#[test]
fn read_works() {
    let mut s = Shtola::new();
    s.source("/fixtures/simple".to_string());
    s.destination("/fixtures/dest".to_string());
    let files = vec![SourceFile {
        path: "/fixtures/simple/hello.txt".to_string(),
        text: "hello".to_string(),
    }];
    let r = s.build(&files).unwrap();
    assert_eq!(r.files.len(), 1);
    let keys: Vec<&String> = r.files.keys().collect();
    assert_eq!(keys[0].as_str(), "hello.txt");
}

#[test]
fn single_file_without_stages_is_written_as_read() {
    let mut s = Shtola::new();
    s.source("/site/src".to_string());
    s.destination("/site/out".to_string());
    s.clean(false);
    let files = vec![SourceFile {
        path: "/site/src/hello.txt".to_string(),
        text: "hello".to_string(),
    }];
    let r = s.build(&files).unwrap();
    assert_eq!(r.files.len(), 1);
    assert!(r.files.contains_key("hello.txt"));
    let out = r.outputs();
    assert_eq!(out, vec![("hello.txt".to_string(), b"hello".to_vec())]);
}

#[test]
fn no_stages_keep_every_file_at_its_path() {
    let mut s = Shtola::new();
    s.source("/site/src".to_string());
    let files = vec![
        SourceFile { path: "/site/src/index.html".to_string(), text: "<p>hi</p>".to_string() },
        SourceFile { path: "/site/src/css/main.css".to_string(), text: "body {}\n".to_string() },
        SourceFile { path: "/site/src/a/b/c.txt".to_string(), text: "---\nno close\n".to_string() },
    ];
    let r = s.build(&files).unwrap();
    let mut out = r.outputs();
    out.sort();
    assert_eq!(
        out,
        vec![
            ("a/b/c.txt".to_string(), b"---\nno close\n".to_vec()),
            ("css/main.css".to_string(), b"body {}\n".to_vec()),
            ("index.html".to_string(), b"<p>hi</p>".to_vec()),
        ]
    );
}

#[test]
fn front_matter_is_parsed_and_stripped() {
    let mut s = Shtola::new();
    s.source("/site".to_string());
    s.frontmatter(true);
    let files = vec![SourceFile {
        path: "/site/a.md".to_string(),
        text: "---\ntitle: A\n---\nbody text".to_string(),
    }];
    let r = s.build(&files).unwrap();
    let f = r.files.get("a.md").unwrap();
    assert_eq!(f.frontmatter.len(), 1);
    assert_eq!(f.frontmatter[0]["title"].as_str(), Some("A"));
    assert_eq!(f.content, b"body text".to_vec());
}

#[test]
fn front_matter_left_unparsed_when_disabled() {
    let mut s = Shtola::new();
    s.source("/site".to_string());
    let files = vec![SourceFile {
        path: "/site/a.md".to_string(),
        text: "---\ntitle: A\n---\nbody text".to_string(),
    }];
    let r = s.build(&files).unwrap();
    let f = r.files.get("a.md").unwrap();
    assert_eq!(f.frontmatter.len(), 0);
    assert_eq!(f.content, b"body text".to_vec());
}

#[test]
fn malformed_front_matter_fails_the_build() {
    let mut s = Shtola::new();
    s.source("/site".to_string());
    s.frontmatter(true);
    let files = vec![
        SourceFile { path: "/site/ok.md".to_string(), text: "fine".to_string() },
        SourceFile { path: "/site/bad.md".to_string(), text: "---\nkey: [unclosed\n---\nbody".to_string() },
        SourceFile { path: "/elsewhere/x.md".to_string(), text: "x".to_string() },
    ];
    match s.build(&files) {
        Err(ReadError::FrontMatter(p, _)) => assert_eq!(p, "/site/bad.md"),
        other => panic!("unexpected result: {:?}", other.map(|ir| ir.files.len())),
    }
}

#[test]
fn file_outside_the_root_fails_the_build() {
    let mut s = Shtola::new();
    s.source("/site".to_string());
    let files = vec![SourceFile { path: "relative/x.md".to_string(), text: "x".to_string() }];
    match s.build(&files) {
        Err(ReadError::NotUnderSource(p)) => assert_eq!(p, "relative/x.md"),
        other => panic!("unexpected result: {:?}", other.map(|ir| ir.files.len())),
    }
}

#[test]
fn stage_output_is_written() {
    let mut s = Shtola::new();
    s.source("/fixtures/simple".to_string());
    s.destination("/fixtures/dest".to_string());
    s.clean(true);
    let mw = Box::new(|ir: IR| {
        let mut update_hash: HashMap<String, ShFile> = HashMap::new();
        for (k, v) in &ir.files {
            update_hash.insert(
                k.clone(),
                ShFile { frontmatter: v.frontmatter.clone(), content: "hello".into() },
            );
        }
        IR { files: update_hash.union(ir.files), ..ir }
    });
    s.register(mw);
    let files = vec![SourceFile {
        path: "/fixtures/simple/hello.txt".to_string(),
        text: "something else".to_string(),
    }];
    let r = s.build(&files).unwrap();
    assert_eq!(r.outputs(), vec![("hello.txt".to_string(), b"hello".to_vec())]);
}

#[test]
fn stages_run_in_registration_order() {
    let mut s = Shtola::new();
    s.source("/src".to_string());
    s.register(|ir: IR| {
        let mut files = ir.files.clone();
        for (k, v) in &ir.files {
            files.insert(k.clone(), ShFile { frontmatter: v.frontmatter.clone(), content: b"X".to_vec() });
        }
        IR { files, ..ir }
    });
    s.register(|ir: IR| {
        let mut files = ir.files.clone();
        for (k, v) in &ir.files {
            assert_eq!(v.content, b"X".to_vec());
            let mut content = v.content.clone();
            content.extend_from_slice(b"Y");
            files.insert(k.clone(), ShFile { frontmatter: v.frontmatter.clone(), content });
        }
        IR { files, ..ir }
    });
    let files = vec![
        SourceFile { path: "/src/one.txt".to_string(), text: "1".to_string() },
        SourceFile { path: "/src/two.txt".to_string(), text: "2".to_string() },
    ];
    let r = s.build(&files).unwrap();
    let mut out = r.outputs();
    out.sort();
    assert_eq!(
        out,
        vec![("one.txt".to_string(), b"XY".to_vec()), ("two.txt".to_string(), b"XY".to_vec())]
    );
}

#[test]
fn build_keeps_settings_without_stages() {
    let mut s = Shtola::new();
    s.source("/in".to_string());
    s.destination("/out".to_string());
    s.clean(true);
    let r = s.build(&Vec::new()).unwrap();
    assert_eq!(r.files.len(), 0);
    assert_eq!(r.config.source, "/in");
    assert_eq!(r.config.destination, "/out");
    assert!(r.config.clean);
    assert!(!r.config.frontmatter);
}

#[test]
fn ignores_are_appended_once_each() {
    let mut s = Shtola::new();
    let mut first = vec!["a".to_string(), "b".to_string(), "a".to_string()];
    s.ignores(&mut first);
    assert!(first.is_empty());
    let mut second = vec!["b".to_string(), "c".to_string()];
    s.ignores(&mut second);
    assert_eq!(s.config().ignores, vec!["a".to_string(), "b".to_string(), "c".to_string()]);
}

#[test]
fn new_engine_has_default_settings() {
    let s = Shtola::new();
    let c = s.config();
    assert!(c.ignores.is_empty());
    assert_eq!(c.source, "");
    assert_eq!(c.destination, "");
    assert!(!c.clean);
    assert!(!c.frontmatter);
}
