use modmerge::localization::{
    fix_xml_declaration, preprocess_localization, strip_bad_comments, StringsTable,
};
use modmerge::map::PathMap;
use modmerge::patch::{Patch, PatchError, SourceChange};
use modmerge::value::{ItemChange, Value};

fn path(segs: &[&str]) -> Vec<String> {
    segs.iter().map(|s| s.to_string()).collect()
}

fn table() -> StringsTable {
    StringsTable::from_languages(&vec![
        (
            "english".to_string(),
            vec![
                ("hello".to_string(), "Hello".to_string()),
                ("bye".to_string(), "Bye".to_string()),
            ],
        ),
        (
            "french".to_string(),
            vec![("hello".to_string(), "Bonjour".to_string())],
        ),
    ])
}

#[test]
fn languages_load_with_later_entries_replacing_earlier() {
    let t = StringsTable::from_languages(&vec![
        (
            "english".to_string(),
            vec![
                ("hello".to_string(), "Hi".to_string()),
                ("hello".to_string(), "Hello".to_string()),
            ],
        ),
    ]);
    assert_eq!(t.0.len(), 1);
    assert_eq!(t.0[0].1 .0, vec![("hello".to_string(), "Hello".to_string())]);
}

#[test]
fn table_flattens_by_language_and_key() {
    let t = table();
    let m = t.to_map();
    assert_eq!(m.len(), 3);
    assert_eq!(
        m.get(&path(&["english", "hello"])),
        Some(&Value::Text("Hello".to_string()))
    );
    assert_eq!(
        m.get(&path(&["french", "hello"])),
        Some(&Value::Text("Bonjour".to_string()))
    );
}

#[test]
fn table_apply_sets_and_removes_translations() {
    let mut t = table();
    let mut p: Patch = PathMap::new();
    p.insert(
        path(&["english", "hello"]),
        ItemChange::Put(Value::Text("Hey".to_string())),
    );
    p.insert(path(&["english", "bye"]), ItemChange::Removed);
    p.insert(
        path(&["german", "hello"]),
        ItemChange::Put(Value::Text("Hallo".to_string())),
    );
    t.apply_patch(&p).unwrap();
    let m = t.to_map();
    assert_eq!(
        m.get(&path(&["english", "hello"])),
        Some(&Value::Text("Hey".to_string()))
    );
    assert_eq!(m.get(&path(&["english", "bye"])), None);
    assert_eq!(
        m.get(&path(&["german", "hello"])),
        Some(&Value::Text("Hallo".to_string()))
    );
}

#[test]
fn table_apply_rejects_stale_removal_and_leaves_tables_unchanged() {
    let mut t = table();
    let before = t.clone();
    let mut p: Patch = PathMap::new();
    p.insert(path(&["english", "missing"]), ItemChange::Removed);
    assert_eq!(t.apply_patch(&p), Err(PatchError::MissingKey));
    assert_eq!(t, before);
}

#[test]
fn table_merge_classifies_paths() {
    let t = table();
    let sources = vec![
        SourceChange {
            source: "alpha".to_string(),
            changes: vec![
                (
                    path(&["english", "hello"]),
                    ItemChange::Put(Value::Text("Hi".to_string())),
                ),
                (
                    path(&["english", "bye"]),
                    ItemChange::Put(Value::Text("Later".to_string())),
                ),
            ],
        },
        SourceChange {
            source: "beta".to_string(),
            changes: vec![(
                path(&["english", "hello"]),
                ItemChange::Put(Value::Text("Yo".to_string())),
            )],
        },
    ];
    let (merged, conflicts) = t.merge_patches(&sources);
    assert_eq!(merged.len(), 1);
    assert_eq!(
        merged.get(&path(&["english", "bye"])),
        Some(&ItemChange::Put(Value::Text("Later".to_string())))
    );
    assert_eq!(conflicts.len(), 1);
    let cs = conflicts.get(&path(&["english", "hello"])).unwrap();
    assert_eq!(cs.len(), 2);
}

#[test]
fn too_high_xml_version_is_rewritten() {
    let fixed = fix_xml_declaration("<?xml version=\"2.0\" encoding=\"UTF-8\"?>\n<root/>");
    assert_eq!(
        fixed,
        "<?xml version=\"1.0\" encoding=\"UTF-8\"?>\n<root/>"
    );
}

#[test]
fn supported_xml_version_is_kept() {
    let text = "<?xml version=\"1.0\" encoding=\"UTF-8\"?>\n<root/>";
    assert_eq!(fix_xml_declaration(text), text);
}

#[test]
fn malformed_comments_are_stripped() {
    assert_eq!(strip_bad_comments("a<!---x--->b"), "ab");
    assert_eq!(
        strip_bad_comments("a<!--- one --->b<!--- two --->c"),
        "abc"
    );
    assert_eq!(strip_bad_comments("a<!---unclosed"), "a<!---unclosed");
    assert_eq!(strip_bad_comments("plain"), "plain");
}

#[test]
fn preprocess_applies_both_tolerances() {
    let out = preprocess_localization(
        "<?xml version=\"3.1\"?>\n<root><!---bad---><language id=\"english\"/></root>",
    );
    assert_eq!(
        out,
        "<?xml version=\"1.0\" encoding=\"UTF-8\"?>\n<root><language id=\"english\"/></root>"
    );
}
