use janim_backend::locales::{
    extract_translations, merge_mapping, remove_entries, todo_finished, todo_readable, Yaml, YamlKey,
};

fn k(s: &str) -> YamlKey {
    YamlKey::Str(s.to_string())
}

fn s(v: &str) -> Yaml {
    Yaml::Str(v.to_string())
}

fn langs(pairs: &[(&str, &str)]) -> Yaml {
    Yaml::Mapping(pairs.iter().map(|(l, t)| (k(l), s(t))).collect())
}

fn todo_table() -> Vec<(YamlKey, Yaml)> {
    vec![
        (k("_version"), Yaml::Other(2)),
        (k("Hello"), langs(&[("en", "Hello"), ("zh", "你好"), ("ja", "Hello")])),
        (k("Bye"), langs(&[("en", "Bye")])),
        (k("Wait"), langs(&[("zh", "Wait")])),
    ]
}

#[test]
fn extract_keeps_default_and_changed() {
    let todo = todo_table();
    assert!(todo_readable(&todo));
    let (moved, count) = extract_translations(&todo);
    assert_eq!(count, 2);
    assert_eq!(
        moved,
        vec![
            (k("Hello"), langs(&[("en", "Hello"), ("zh", "你好")])),
            (k("Bye"), langs(&[("en", "Bye")])),
        ]
    );
}

#[test]
fn remove_takes_moved_translations_out() {
    let mut todo = todo_table();
    let (moved, _) = extract_translations(&todo);
    remove_entries(&mut todo, &moved);
    // "Bye" lost its last translation and left; the last entry took its place
    assert_eq!(
        todo,
        vec![
            (k("_version"), Yaml::Other(2)),
            (k("Hello"), langs(&[("ja", "Hello")])),
            (k("Wait"), langs(&[("zh", "Wait")])),
        ]
    );
    assert!(!todo_finished(&todo));
}

#[test]
fn finished_when_only_version_left() {
    let mut todo = vec![(k("_version"), Yaml::Other(2)), (k("Bye"), langs(&[("en", "Bye")]))];
    let (moved, count) = extract_translations(&todo);
    assert_eq!(count, 1);
    remove_entries(&mut todo, &moved);
    assert_eq!(todo, vec![(k("_version"), Yaml::Other(2))]);
    assert!(todo_finished(&todo));
    assert!(!todo_finished(&vec![(k("other"), Yaml::Other(2))]));
}

#[test]
fn merge_inserts_and_merges_nested() {
    let mut app = vec![
        (k("_version"), Yaml::Other(2)),
        (k("Hello"), langs(&[("en", "Hi"), ("fr", "Salut")])),
    ];
    let moved = vec![
        (k("Hello"), langs(&[("en", "Hello"), ("zh", "你好")])),
        (k("Bye"), langs(&[("en", "Bye")])),
    ];
    merge_mapping(&mut app, &moved);
    assert_eq!(
        app,
        vec![
            (k("_version"), Yaml::Other(2)),
            (k("Hello"), langs(&[("en", "Hello"), ("fr", "Salut"), ("zh", "你好")])),
            (k("Bye"), langs(&[("en", "Bye")])),
        ]
    );
}

#[test]
fn merge_replaces_non_mapping_values() {
    let mut app = vec![(k("Hello"), s("plain"))];
    let moved = vec![(k("Hello"), langs(&[("en", "Hello")]))];
    merge_mapping(&mut app, &moved);
    assert_eq!(app, vec![(k("Hello"), langs(&[("en", "Hello")]))]);
}

#[test]
fn tagged_values_read_through_tags() {
    let todo = vec![(k("Hi"), Yaml::Tagged(1, Box::new(langs(&[("en", "Hi"), ("de", "Hallo")]))))];
    assert!(todo_readable(&todo));
    let (moved, count) = extract_translations(&todo);
    assert_eq!(count, 1);
    assert_eq!(moved, vec![(k("Hi"), langs(&[("en", "Hi"), ("de", "Hallo")]))]);
    let mut todo2 = todo;
    remove_entries(&mut todo2, &moved);
    assert!(todo2.is_empty());
}

#[test]
fn unreadable_tables_are_reported() {
    assert!(!todo_readable(&vec![(k("Hi"), s("not a table"))]));
    assert!(!todo_readable(&vec![(YamlKey::Other(3, None), langs(&[("en", "x")]))]));
    assert!(!todo_readable(&vec![(k("Hi"), Yaml::Mapping(vec![(k("en"), Yaml::Other(1))]))]));
    assert!(!todo_readable(&vec![(k("Hi"), langs(&[("en", "x")])), (k("Hi"), langs(&[("en", "y")]))]));
    assert!(todo_readable(&vec![(k("_version"), Yaml::Other(2))]));
}
