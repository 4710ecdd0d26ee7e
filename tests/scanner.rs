use salt_spray::counts::LintCounts;
use salt_spray::scan::{
    count_suppressed_lints, find_supressed_lints, is_source_file, source_paths, Attr, Decl,
    SourceFile,
};

fn allow(lints: &[&str]) -> Attr {
    Attr {
        path: Some("allow".to_string()),
        list: Some(lints.iter().map(|l| Some(l.to_string())).collect()),
    }
}

fn leaf() -> Decl {
    Decl::Leaf(vec![])
}

fn pairs(c: &LintCounts) -> Vec<(String, usize)> {
    let mut v: Vec<(String, usize)> = (0..c.len())
        .map(|i| {
            let (l, n) = c.entry(i);
            (l.clone(), n)
        })
        .collect();
    v.sort();
    v
}

#[test]
fn impl_block_suppression_counts_each_method() {
    let file = SourceFile {
        attrs: vec![],
        decls: vec![Decl::Container(vec![allow(&["dead_code"])], vec![leaf(), leaf(), leaf()])],
    };
    let c = count_suppressed_lints(&file);
    assert_eq!(pairs(&c), vec![("dead_code".to_string(), 3)]);
}

#[test]
fn leaf_suppression_counts_one() {
    let file = SourceFile {
        attrs: vec![],
        decls: vec![Decl::Leaf(vec![allow(&["unused_mut", "dead_code"])]), leaf()],
    };
    let c = count_suppressed_lints(&file);
    assert_eq!(c.get(&"unused_mut".to_string()), 1);
    assert_eq!(c.get(&"dead_code".to_string()), 1);
    assert_eq!(c.len(), 2);
}

#[test]
fn file_attributes_count_top_level_declarations() {
    let file = SourceFile {
        attrs: vec![allow(&["unused_imports"])],
        decls: vec![leaf(), leaf(), Decl::Opaque, leaf()],
    };
    let c = count_suppressed_lints(&file);
    assert_eq!(pairs(&c), vec![("unused_imports".to_string(), 4)]);
}

#[test]
fn empty_file_attribute_counts_one() {
    let file = SourceFile { attrs: vec![allow(&["missing_docs"])], decls: vec![] };
    let c = count_suppressed_lints(&file);
    assert_eq!(pairs(&c), vec![("missing_docs".to_string(), 1)]);
}

#[test]
fn empty_container_counts_one() {
    let file = SourceFile {
        attrs: vec![],
        decls: vec![Decl::Container(vec![allow(&["dead_code"])], vec![])],
    };
    assert_eq!(count_suppressed_lints(&file).get(&"dead_code".to_string()), 1);
}

#[test]
fn nested_modules_are_walked() {
    let inner = Decl::Container(
        vec![allow(&["dead_code"])],
        vec![Decl::Leaf(vec![allow(&["dead_code"])]), leaf()],
    );
    let outer = Decl::Container(vec![allow(&["unsafe_code"])], vec![inner, leaf(), leaf()]);
    let file = SourceFile { attrs: vec![], decls: vec![outer] };
    let c = count_suppressed_lints(&file);
    assert_eq!(
        pairs(&c),
        vec![("dead_code".to_string(), 3), ("unsafe_code".to_string(), 3)]
    );
}

#[test]
fn other_attributes_and_entries_are_ignored() {
    let derive = Attr {
        path: Some("derive".to_string()),
        list: Some(vec![Some("Debug".to_string())]),
    };
    let bare_allow = Attr { path: Some("allow".to_string()), list: None };
    let odd_entries = Attr {
        path: Some("allow".to_string()),
        list: Some(vec![None, Some("dead_code".to_string())]),
    };
    let qualified = Attr { path: None, list: Some(vec![Some("dead_code".to_string())]) };
    let file = SourceFile {
        attrs: vec![],
        decls: vec![Decl::Leaf(vec![derive, bare_allow, odd_entries, qualified]), Decl::Opaque],
    };
    let c = count_suppressed_lints(&file);
    assert_eq!(pairs(&c), vec![("dead_code".to_string(), 1)]);
}

#[test]
fn repeated_suppressions_add_up() {
    let file = SourceFile {
        attrs: vec![],
        decls: vec![
            Decl::Leaf(vec![allow(&["dead_code"]), allow(&["dead_code"])]),
            Decl::Container(vec![allow(&["dead_code"])], vec![leaf(), leaf()]),
        ],
    };
    assert_eq!(count_suppressed_lints(&file).get(&"dead_code".to_string()), 4);
}

#[test]
fn counts_saturate() {
    let mut c = LintCounts::new();
    c.add(&"dead_code".to_string(), usize::MAX - 1);
    c.add(&"dead_code".to_string(), 5);
    assert_eq!(c.get(&"dead_code".to_string()), usize::MAX);
    assert_eq!(c.get(&"deprecated".to_string()), 0);
}

#[test]
fn source_files_are_recognised_by_extension() {
    assert!(is_source_file(&"src/lib.rs".to_string()));
    assert!(is_source_file(&"a.rs".to_string()));
    assert!(!is_source_file(&"README.md".to_string()));
    assert!(!is_source_file(&".rs".to_string()));
    assert!(!is_source_file(&"dir/.rs".to_string()));
    assert!(!is_source_file(&"a.rsx".to_string()));
    assert!(!is_source_file(&"".to_string()));
}

#[test]
fn observed_ledger_keeps_paths_as_given() {
    let a = SourceFile { attrs: vec![], decls: vec![Decl::Leaf(vec![allow(&["dead_code"])])] };
    let b = SourceFile { attrs: vec![allow(&["deprecated"])], decls: vec![leaf(), leaf()] };
    let empty = SourceFile { attrs: vec![], decls: vec![] };
    let sources = vec![
        ("./a.rs".to_string(), empty),
        ("b.rs".to_string(), b),
        ("./a.rs".to_string(), a),
    ];
    let (observed, examined) = find_supressed_lints(&sources);
    assert_eq!(examined, vec!["./a.rs".to_string(), "b.rs".to_string(), "./a.rs".to_string()]);
    assert_eq!(observed.len(), 2);
    assert_eq!(observed.count(&"./a.rs".to_string(), &"dead_code".to_string()), 1);
    assert_eq!(observed.count(&"b.rs".to_string(), &"deprecated".to_string()), 2);
    assert_eq!(observed.count(&"a.rs".to_string(), &"dead_code".to_string()), 0);
}

#[test]
fn non_source_names_give_an_empty_ledger() {
    let leafy = || SourceFile { attrs: vec![allow(&["dead_code"])], decls: vec![leaf()] };
    let sources = vec![
        ("README.md".to_string(), leafy()),
        ("Cargo.toml".to_string(), leafy()),
        ("src/main".to_string(), leafy()),
    ];
    let (observed, examined) = find_supressed_lints(&sources);
    assert_eq!(observed.len(), 0);
    assert!(examined.is_empty());
}

#[test]
fn only_source_names_are_kept() {
    let leafy = || SourceFile { attrs: vec![allow(&["dead_code"])], decls: vec![leaf()] };
    let sources = vec![
        ("notes.txt".to_string(), leafy()),
        ("src/lib.rs".to_string(), leafy()),
    ];
    let (observed, examined) = find_supressed_lints(&sources);
    assert_eq!(observed.len(), 1);
    assert_eq!(observed.count(&"src/lib.rs".to_string(), &"dead_code".to_string()), 1);
    assert_eq!(examined, vec!["src/lib.rs".to_string()]);
    let names = vec![
        "README.md".to_string(),
        "src/a.rs".to_string(),
        "Cargo.toml".to_string(),
        "b.rs".to_string(),
    ];
    assert_eq!(source_paths(&names), vec!["src/a.rs".to_string(), "b.rs".to_string()]);
}
