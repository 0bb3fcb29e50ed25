use whim::library::{home_link, page_href, Document, Library, Timestamp};
use whim::md_content::MdContent;

fn at(seconds: i64) -> Timestamp {
    Timestamp { unix_seconds: seconds, nanosecond: 0, offset_seconds: 0 }
}

#[test]
fn document_from_content() {
    let content = MdContent::new("# Title\n\nbody\n");
    let doc = Document::open(&content, at(10));
    assert_eq!(doc.name(), "Title");
    assert_eq!(doc.mod_time(), at(10));
    assert_eq!(doc.content_hash(), whim::fnv1_hash::Hashable::hash(&content));
    let untitled = Document::open(&MdContent::new("plain text\n"), at(10));
    assert_eq!(untitled.name(), "");
}

#[test]
fn document_update_only_on_change() {
    let doc = Document::open(&MdContent::new("# A\n"), at(1));
    assert!(!doc.has_changed(&MdContent::new("# A\n")));
    assert!(doc.has_changed(&MdContent::new("# B\n")));
    let same = doc.copy().update(&MdContent::new("# A\n"), at(2));
    assert_eq!(same.mod_time(), at(1));
    assert_eq!(same.name(), "A");
    let changed = doc.update(&MdContent::new("# B\n"), at(3));
    assert_eq!(changed.mod_time(), at(3));
    assert_eq!(changed.name(), "B");
}

#[test]
fn library_keeps_one_document_per_path() {
    let mut lib = Library::new();
    lib.add_document("a.md".to_string(), Document::open(&MdContent::new("# A\n"), at(1)));
    lib.add_document("b.md".to_string(), Document::open(&MdContent::new("# B\n"), at(1)));
    lib.add_document("a.md".to_string(), Document::open(&MdContent::new("# C\n"), at(2)));
    assert_eq!(lib.documents().len(), 2);
    assert!(lib.contains(&"a.md".to_string()));
    assert!(!lib.contains(&"c.md".to_string()));
    let a = lib.documents().iter().find(|(p, _)| p == "a.md").unwrap();
    assert_eq!(a.1.name(), "C");
}

#[test]
fn library_from_documents_later_wins() {
    let lib = Library::from_documents(vec![
        ("a.md".to_string(), Document::open(&MdContent::new("# One\n"), at(1))),
        ("a.md".to_string(), Document::open(&MdContent::new("# Two\n"), at(1))),
    ]);
    assert_eq!(lib.documents().len(), 1);
    assert_eq!(lib.documents()[0].1.name(), "Two");
}

#[test]
fn scan_for_new_keeps_unknown_paths_in_order() {
    let mut lib = Library::new();
    lib.add_document("a.md".to_string(), Document::open(&MdContent::new("# A\n"), at(1)));
    let found = vec!["c.md".to_string(), "a.md".to_string(), "b.md".to_string()];
    assert_eq!(lib.scan_for_new(&found), vec!["c.md".to_string(), "b.md".to_string()]);
}

#[test]
fn update_and_changed_docs() {
    let mut lib = Library::new();
    lib.add_document("a.md".to_string(), Document::open(&MdContent::new("# A\n"), at(1)));
    lib.add_document("b.md".to_string(), Document::open(&MdContent::new("# B\n"), at(1)));
    lib.add_document("c.md".to_string(), Document::open(&MdContent::new("# C\n"), at(1)));
    let reads = vec![
        Some(MdContent::new("# A\n")),
        Some(MdContent::new("# B2\n")),
        None,
    ];
    assert_eq!(lib.changed_docs(&reads), vec!["b.md".to_string()]);
    let lib = lib.update(reads, at(5));
    assert_eq!(lib.documents().len(), 2);
    let a = lib.documents().iter().find(|(p, _)| p == "a.md").unwrap();
    assert_eq!(a.1.mod_time(), at(1));
    let b = lib.documents().iter().find(|(p, _)| p == "b.md").unwrap();
    assert_eq!(b.1.name(), "B2");
    assert_eq!(b.1.mod_time(), at(5));
    assert!(!lib.contains(&"c.md".to_string()));
}

#[test]
fn links_to_home_and_pages() {
    assert_eq!(home_link(&"a.md".to_string()), "index.html");
    assert_eq!(home_link(&"notes/a.md".to_string()), "../index.html");
    assert_eq!(home_link(&"./x/y/z.md".to_string()), "../../../index.html");
    assert_eq!(home_link(&"/x/y.md".to_string()), "../index.html");
    assert_eq!(page_href("notes/a.md"), "notes/a.html");
    assert_eq!(page_href("x.md.md"), "x.html.html");
    assert_eq!(page_href("readme"), "readme");
    assert_eq!(page_href(".mdx"), ".htmlx");
}
