use record_diff::Diff;

#[test]
fn no_diff() {
    let start = vec!["first", "second", "third"];
    let edit = vec!["first", "second", "third"];

    let diff = Diff::diff_hash(start, edit);
    let empty: Vec<&str> = vec![];

    assert_eq!(diff.added, empty);
    assert_eq!(diff.removed, empty);
}

#[test]
fn added() {
    let start = vec!["first", "second", "third"];
    let edit = vec!["first", "second", "third", "fourth"];

    let diff = Diff::diff_hash(start, edit);

    let added: Vec<&str> = vec!["fourth"];
    let removed: Vec<&str> = vec![];

    assert_eq!(diff.added, added);
    assert_eq!(diff.removed, removed);
}

#[test]
fn removed() {
    let start = vec!["first", "second", "third", "fourth"];
    let edit = vec!["first", "second", "third"];

    let diff = Diff::diff_hash(start, edit);

    let added: Vec<&str> = vec![];
    let removed: Vec<&str> = vec!["fourth"];

    assert_eq!(diff.added, added);
    assert_eq!(diff.removed, removed);
}

#[test]
fn added_and_removed() {
    let start = vec!["first", "second", "third", "fourth", "sixth"];
    let edit = vec!["first", "second", "third", "fifth", "seventh"];

    let diff = Diff::diff_hash(start, edit);

    let added: Vec<&str> = vec!["fifth", "seventh"];
    let removed: Vec<&str> = vec!["fourth", "sixth"];

    assert_eq!(diff.added, added);
    assert_eq!(diff.removed, removed);
}
