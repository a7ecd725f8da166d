use record_diff::Diff;

fn none() -> Vec<&'static str> {
    Vec::new()
}

#[test]
fn both_lists_empty_when_both_sides_are_empty() {
    let diff = Diff::diff_hash(vec![], vec![]);
    assert_eq!(diff.added, none());
    assert_eq!(diff.removed, none());
}

#[test]
fn everything_is_added_to_an_empty_document() {
    let diff = Diff::diff_hash(vec![], vec!["a", "b"]);
    assert_eq!(diff.added, vec!["a", "b"]);
    assert_eq!(diff.removed, none());
}

#[test]
fn everything_is_removed_from_an_emptied_document() {
    let diff = Diff::diff_hash(vec!["a", "b"], vec![]);
    assert_eq!(diff.added, none());
    assert_eq!(diff.removed, vec!["a", "b"]);
}

#[test]
fn a_record_is_listed_once_for_each_time_it_occurs() {
    let diff = Diff::diff_hash(vec!["a", "old", "a", "old"], vec!["new", "a", "new", "new"]);
    assert_eq!(diff.added, vec!["new", "new", "new"]);
    assert_eq!(diff.removed, vec!["old", "old"]);
}

#[test]
fn how_often_a_shared_record_occurs_does_not_matter() {
    let diff = Diff::diff_hash(vec!["a"], vec!["a", "a", "a"]);
    assert_eq!(diff.added, none());
    assert_eq!(diff.removed, none());
}

#[test]
fn moved_records_are_no_change() {
    let diff = Diff::diff_hash(vec!["a", "b", "c"], vec!["c", "a", "b"]);
    assert_eq!(diff.added, none());
    assert_eq!(diff.removed, none());
}

#[test]
fn each_list_keeps_the_order_of_its_document() {
    let start = vec!["z", "keep", "y", "x", "keep too", "w"];
    let edit = vec!["d", "keep too", "c", "b", "keep", "a"];
    let diff = Diff::diff_hash(start, edit);
    assert_eq!(diff.added, vec!["d", "c", "b", "a"]);
    assert_eq!(diff.removed, vec!["z", "y", "x", "w"]);
}

#[test]
fn records_are_compared_by_what_they_say() {
    let one = String::from("same words");
    let other = String::from("same words");
    let diff = Diff::diff_hash(vec![one.as_str(), "a "], vec![other.as_str(), "a"]);
    assert_eq!(diff.added, vec!["a"]);
    assert_eq!(diff.removed, vec!["a "]);
}

#[test]
fn the_other_direction_swaps_the_lists() {
    let a = "one\n**1\ntwo\n**2\nthree\n**3\ntwo";
    let b = "**0\nthree\n**1\nfour\n**2\nfive\n**3\nfour";
    let forth = Diff::diff(a, b);
    let back = Diff::diff(b, a);
    assert_eq!(forth.added, vec!["four", "five", "four"]);
    assert_eq!(forth.removed, vec!["one", "two", "two"]);
    assert_eq!(forth.added, back.removed);
    assert_eq!(forth.removed, back.added);
}

#[test]
fn a_document_does_not_differ_from_itself() {
    let text = "one\n**1\ntwo\n**2\none\n**3\n\n**4\nthree";
    let diff = Diff::diff(text, text);
    assert_eq!(diff.added, none());
    assert_eq!(diff.removed, none());
    assert_eq!(
        diff,
        Diff {
            added: vec![],
            removed: vec![],
        }
    );
}

#[test]
fn added_and_removed_records_come_from_their_documents() {
    let before = "shared\n**\nonly before\n**\nshared too";
    let after = "only after\n**\nshared too\n**\nshared";
    let diff = Diff::diff(before, after);
    assert_eq!(diff.added, vec!["only after"]);
    assert_eq!(diff.removed, vec!["only before"]);
}
