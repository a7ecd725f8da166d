//! The result of a comparison, and the comparison of two texts.

use crate::differ::{
    difference, kept_places, lemma_only_changes, lemma_order_is_kept, lemma_same_is_empty,
    taken_in_order,
};
use crate::render::report_of;
use crate::segment::records;
use vstd::prelude::*;

verus! {

/// What a comparison found, as a mathematical value: the records that only
/// the later document holds, and those that only the earlier one holds.
pub struct Changes {
    pub added: Seq<Seq<char>>,
    pub removed: Seq<Seq<char>>,
}

/// The records added to and removed from a document, each list in the order
/// of the document it was taken from.
#[derive(Debug, PartialEq, Eq)]
pub struct Diff<'a> {
    pub added: Vec<&'a str>,
    pub removed: Vec<&'a str>,
}

impl<'a> View for Diff<'a> {
    type V = Changes;

    open spec fn view(&self) -> Changes {
        Changes { added: self.added.deep_view(), removed: self.removed.deep_view() }
    }
}

/// What changed from the document `before` to the document `after`.
pub open spec fn comparison(before: Seq<char>, after: Seq<char>) -> Changes {
    difference(records(before), records(after))
}

impl<'a> Diff<'a> {
    /// Compares two documents record by record: a record of `to` that `from`
    /// lacks is added, a record of `from` that `to` lacks is removed.
    pub fn diff(from: &'a str, to: &'a str) -> (changes: Self)
        ensures
            changes@ == comparison(from@, to@),
    {
        let start = Diff::seperate(from);
        let edit = Diff::seperate(to);
        Diff::diff_hash(start, edit)
    }
}

/// The added records stand in the order in which the later document holds
/// them, the removed ones in the order of the earlier document.
pub proof fn lemma_diff_keeps_order(before: Seq<char>, after: Seq<char>)
    ensures
        taken_in_order(
            comparison(before, after).added,
            records(after),
            kept_places(records(after), records(before)),
        ),
        taken_in_order(
            comparison(before, after).removed,
            records(before),
            kept_places(records(before), records(after)),
        ),
{
    lemma_order_is_kept(records(after), records(before));
    lemma_order_is_kept(records(before), records(after));
}

/// Comparing two documents the other way round swaps what is added and what
/// is removed.
pub proof fn lemma_diff_swapped(before: Seq<char>, after: Seq<char>)
    ensures
        comparison(before, after).added == comparison(after, before).removed,
        comparison(before, after).removed == comparison(after, before).added,
{
}

/// A document compared with itself: nothing is added and nothing removed.
pub proof fn lemma_diff_of_same(text: Seq<char>)
    ensures
        comparison(text, text).added == Seq::<Seq<char>>::empty(),
        comparison(text, text).removed == Seq::<Seq<char>>::empty(),
{
    lemma_same_is_empty(records(text));
}

/// No added record is a record of the earlier document, no removed record is
/// one of the later, and a record that both documents hold is in neither
/// list.
pub proof fn lemma_diff_holds_changes_only(before: Seq<char>, after: Seq<char>, record: Seq<char>)
    ensures
        comparison(before, after).added.contains(record) <==> records(after).contains(record)
            && !records(before).contains(record),
        comparison(before, after).removed.contains(record) <==> records(before).contains(record)
            && !records(after).contains(record),
{
    lemma_only_changes(records(before), records(after), record);
}

/// The report on what changed from the document `before` to the document
/// `after`.
pub fn compare(before: &str, after: &str) -> (report: String)
    ensures
        report@ == report_of(comparison(before@, after@)),
{
    Diff::diff(before, after).report()
}

} // verus!
