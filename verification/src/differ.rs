//! The differ: which records only one of two documents holds.
//!
//! Records are compared by what they say, not by where they stand: a record
//! is added if the earlier document holds no equal record, and removed if the
//! later one holds none.

use crate::diff::{Changes, Diff};
use vstd::hash_set::StringHashSet;
use vstd::prelude::*;

verus! {

/// The test that a record passes if `other` holds no record equal to it.
pub open spec fn lacks(other: Seq<Seq<char>>) -> spec_fn(Seq<char>) -> bool {
    |record: Seq<char>| !other.contains(record)
}

/// The records of `records` that `other` lacks, each as often as it occurs
/// and in the order of `records`.
pub open spec fn absent_from(records: Seq<Seq<char>>, other: Seq<Seq<char>>) -> Seq<Seq<char>> {
    records.filter(lacks(other))
}

/// What changed from `before` to `after`.
pub open spec fn difference(before: Seq<Seq<char>>, after: Seq<Seq<char>>) -> Changes {
    Changes { added: absent_from(after, before), removed: absent_from(before, after) }
}

/// The places of `records` whose record `other` lacks, in rising order.
pub open spec fn kept_places(records: Seq<Seq<char>>, other: Seq<Seq<char>>) -> Seq<int>
    decreases records.len(),
{
    if records.len() == 0 {
        seq![]
    } else if other.contains(records.last()) {
        kept_places(records.drop_last(), other)
    } else {
        kept_places(records.drop_last(), other).push(records.len() - 1)
    }
}

/// `part` holds the items that `whole` has at the places `at`, and the places
/// rise: `part` keeps the order of `whole`.
pub open spec fn taken_in_order<T>(part: Seq<T>, whole: Seq<T>, at: Seq<int>) -> bool {
    &&& at.len() == part.len()
    &&& forall|i: int| 0 <= i < at.len() ==> 0 <= #[trigger] at[i] < whole.len() && part[i] == whole[at[i]]
    &&& forall|i: int, j: int| 0 <= i < j < at.len() ==> #[trigger] at[i] < #[trigger] at[j]
}

/// A set that holds the records of `records` and no others.
fn record_set(records: &Vec<&str>) -> (set: StringHashSet)
    ensures
        set@ == records.deep_view().to_set(),
{
    let mut set = StringHashSet::new();
    let mut i: usize = 0;
    while i < records.len()
        invariant
            i <= records.len(),
            forall|r: Seq<char>| set@.contains(r) <==> records.deep_view().take(i as int).contains(r),
        decreases records.len() - i,
    {
        let ghost seen = records.deep_view().take(i as int);
        set.insert(records[i].to_owned());
        i += 1;
        proof {
            assert(records.deep_view().take(i as int) =~= seen.push(records[i - 1]@));
            assert forall|r: Seq<char>| set@.contains(r) <==> seen.push(records[i - 1]@).contains(
                r,
            ) by {
                vstd::seq_lib::lemma_seq_contains_after_push(seen, records[i - 1]@, r);
            }
        }
    }
    proof {
        assert(records.deep_view().take(i as int) =~= records.deep_view());
    }
    set
}

/// The records of `records` that are not in `others`, whose records `set`
/// holds.
fn absent<'a>(
    records: &Vec<&'a str>,
    set: &StringHashSet,
    Ghost(other): Ghost<Seq<Seq<char>>>,
) -> (kept: Vec<&'a str>)
    requires
        set@ == other.to_set(),
    ensures
        kept.deep_view() == absent_from(records.deep_view(), other),
{
    let mut kept: Vec<&'a str> = Vec::new();
    let mut i: usize = 0;
    while i < records.len()
        invariant
            i <= records.len(),
            set@ == other.to_set(),
            kept.deep_view() == absent_from(records.deep_view().take(i as int), other),
        decreases records.len() - i,
    {
        let ghost seen = records.deep_view().take(i as int);
        let record = records[i];
        if !set.contains(record) {
            kept.push(record);
        }
        i += 1;
        proof {
            assert(records.deep_view().take(i as int) =~= seen.push(record@));
            seen.lemma_filter_push(record@, lacks(other));
        }
    }
    proof {
        assert(records.deep_view().take(i as int) =~= records.deep_view());
    }
    kept
}

impl<'a> Diff<'a> {
    /// Compares two lists of records: what `edit` holds and `start` lacks is
    /// added, what `start` holds and `edit` lacks is removed.
    pub fn diff_hash(start: Vec<&'a str>, edit: Vec<&'a str>) -> (changes: Self)
        ensures
            changes@ == difference(start.deep_view(), edit.deep_view()),
    {
        let in_start = record_set(&start);
        let in_edit = record_set(&edit);
        let added = absent(&edit, &in_start, Ghost(start.deep_view()));
        let removed = absent(&start, &in_edit, Ghost(edit.deep_view()));
        Diff { added, removed }
    }
}

/// The added records keep the order of the later document and the removed
/// ones that of the earlier: each list holds, at rising places of its
/// document, every occurrence of a record that the other document lacks, and
/// nothing else.
pub proof fn lemma_order_is_kept(records: Seq<Seq<char>>, other: Seq<Seq<char>>)
    ensures
        taken_in_order(absent_from(records, other), records, kept_places(records, other)),
        forall|k: int|
            0 <= k < records.len() ==> (kept_places(records, other).contains(k) <==> !other.contains(
                #[trigger] records[k],
            )),
    decreases records.len(),
{
    reveal(Seq::filter);
    let places = kept_places(records, other);
    if records.len() > 0 {
        let front = records.drop_last();
        let last = records.len() - 1;
        lemma_order_is_kept(front, other);
        let front_places = kept_places(front, other);
        assert forall|k: int| 0 <= k < records.len() implies (places.contains(k) <==> !other.contains(
            #[trigger] records[k],
        )) by {
            if k < last {
                assert(records[k] == front[k]);
            }
            if !other.contains(records.last()) {
                vstd::seq_lib::lemma_seq_contains_after_push(front_places, last, k);
                if front_places.contains(k) {
                    let i = choose|i: int| 0 <= i < front_places.len() && front_places[i] == k;
                    assert(0 <= front_places[i] < front.len());
                }
            }
        }
    }
}

/// A record is added only if the later document holds it and the earlier one
/// does not, and removed only if the earlier holds it and the later does not;
/// a record that both hold is in neither list.
pub proof fn lemma_only_changes(before: Seq<Seq<char>>, after: Seq<Seq<char>>, record: Seq<char>)
    ensures
        difference(before, after).added.contains(record) <==> after.contains(record)
            && !before.contains(record),
        difference(before, after).removed.contains(record) <==> before.contains(record)
            && !after.contains(record),
{
    lemma_absent_holds(after, before, record);
    lemma_absent_holds(before, after, record);
}

/// What `absent_from` holds: the records of `records` that `other` lacks.
pub proof fn lemma_absent_holds(records: Seq<Seq<char>>, other: Seq<Seq<char>>, record: Seq<char>)
    ensures
        absent_from(records, other).contains(record) <==> records.contains(record)
            && !other.contains(record),
{
    if absent_from(records, other).contains(record) {
        records.lemma_filter_contains_rev(lacks(other), record);
    }
    if records.contains(record) && !other.contains(record) {
        let i = choose|i: int| 0 <= i < records.len() && records[i] == record;
        records.lemma_filter_contains(lacks(other), i);
    }
}

/// Comparing in the other direction swaps the two lists.
pub proof fn lemma_swapped(before: Seq<Seq<char>>, after: Seq<Seq<char>>)
    ensures
        difference(before, after).added == difference(after, before).removed,
        difference(before, after).removed == difference(after, before).added,
{
}

/// A list of records compared with itself: nothing added, nothing removed.
pub proof fn lemma_same_is_empty(records: Seq<Seq<char>>)
    ensures
        difference(records, records).added == Seq::<Seq<char>>::empty(),
        difference(records, records).removed == Seq::<Seq<char>>::empty(),
{
    let kept = absent_from(records, records);
    if kept.len() > 0 {
        assert(kept.contains(kept[0]));
        lemma_absent_holds(records, records, kept[0]);
    }
}

} // verus!
