//! The tree of a directory does not depend on the order in which the
//! directory was listed.

use vstd::prelude::*;
use vstd::multiset::Multiset;
use vstd::seq_lib::{
    lemma_multiset_commutative, to_multiset_contains, to_multiset_len, to_multiset_remove,
};
use crate::tree::TreeEntryView;
use crate::work_tree::{
    entry_record, records, tree_content, tree_digest, tree_entries, WorkEntry,
};
use crate::tree_order::{
    canonical, lemma_canonical, lemma_lex_antisymmetric, lemma_lex_total, precedes, sort_key,
    sorted,
};

verus! {

/// Whether the entries differ in what they are sorted by, and none is there
/// twice.
pub open spec fn distinct(entries: Multiset<TreeEntryView>) -> bool {
    &&& forall|e: TreeEntryView| entries.count(e) <= 1
    &&& forall|a: TreeEntryView, b: TreeEntryView|
        entries.count(a) > 0 && entries.count(b) > 0 && sort_key(a.name, a.is_dir()) == sort_key(
            b.name,
            b.is_dir(),
        ) ==> a == b
}

/// The last entry of a sorted list may stand behind every entry of it.
proof fn lemma_last_is_greatest(entries: Seq<TreeEntryView>, e: TreeEntryView)
    requires
        sorted(entries),
        entries.len() > 0,
        entries.contains(e),
    ensures
        precedes(e, entries.last()),
{
    let k = choose|k: int| 0 <= k < entries.len() && entries[k] == e;
    if k < entries.len() - 1 {
        assert(precedes(entries[k], entries[entries.len() - 1]));
    } else {
        lemma_lex_total(sort_key(e.name, e.is_dir()), sort_key(e.name, e.is_dir()));
    }
}

/// Distinct entries have one sorted order.
pub proof fn lemma_sorted_is_unique(x: Seq<TreeEntryView>, y: Seq<TreeEntryView>)
    requires
        sorted(x),
        sorted(y),
        x.to_multiset() == y.to_multiset(),
        distinct(x.to_multiset()),
    ensures
        x == y,
    decreases x.len(),
{
    to_multiset_len(x);
    to_multiset_len(y);
    if x.len() == 0 {
        assert(x =~= y);
    } else {
        let last_x = x.last();
        let last_y = y.last();
        assert(x.contains(last_x)) by {
            assert(x[x.len() - 1] == last_x);
        }
        assert(y.contains(last_y)) by {
            assert(y[y.len() - 1] == last_y);
        }
        to_multiset_contains(x, last_x);
        to_multiset_contains(x, last_y);
        to_multiset_contains(y, last_x);
        to_multiset_contains(y, last_y);
        lemma_last_is_greatest(x, last_y);
        lemma_last_is_greatest(y, last_x);
        lemma_lex_antisymmetric(
            sort_key(last_x.name, last_x.is_dir()),
            sort_key(last_y.name, last_y.is_dir()),
        );
        assert(last_x == last_y);
        let front_x = x.drop_last();
        let front_y = y.drop_last();
        assert(front_x =~= x.remove(x.len() - 1));
        assert(front_y =~= y.remove(y.len() - 1));
        to_multiset_remove(x, x.len() - 1);
        to_multiset_remove(y, y.len() - 1);
        assert(front_x.to_multiset() == front_y.to_multiset());
        assert(sorted(front_x)) by {
            assert forall|i: int, j: int| 0 <= i < j < front_x.len() implies precedes(
                front_x[i],
                front_x[j],
            ) by {
                assert(precedes(x[i], x[j]));
            }
        }
        assert(sorted(front_y)) by {
            assert forall|i: int, j: int| 0 <= i < j < front_y.len() implies precedes(
                front_y[i],
                front_y[j],
            ) by {
                assert(precedes(y[i], y[j]));
            }
        }
        assert(distinct(front_x.to_multiset())) by {
            lemma_smaller_is_distinct(x.to_multiset(), last_x);
        }
        lemma_sorted_is_unique(front_x, front_y);
        assert(x =~= front_x.push(last_x));
        assert(y =~= front_y.push(last_y));
    }
}

/// Distinct entries stay distinct when one is taken away.
proof fn lemma_smaller_is_distinct(entries: Multiset<TreeEntryView>, e: TreeEntryView)
    requires
        distinct(entries),
    ensures
        distinct(entries.remove(e)),
{
    let fewer = entries.remove(e);
    assert forall|a: TreeEntryView| fewer.count(a) <= entries.count(a) by {
        lemma_remove_count(entries, e, a);
    }
    assert forall|a: TreeEntryView| fewer.count(a) <= 1 by {
        assert(fewer.count(a) <= entries.count(a));
    }
    assert forall|a: TreeEntryView, b: TreeEntryView|
        fewer.count(a) > 0 && fewer.count(b) > 0 && sort_key(a.name, a.is_dir()) == sort_key(
            b.name,
            b.is_dir(),
        ) implies a == b by {
        assert(fewer.count(a) <= entries.count(a));
        assert(fewer.count(b) <= entries.count(b));
    }
}

/// Taking an entry away adds none.
proof fn lemma_remove_count(entries: Multiset<TreeEntryView>, e: TreeEntryView, a: TreeEntryView)
    ensures
        entries.remove(e).count(a) <= entries.count(a),
{
    broadcast use vstd::multiset::group_multiset_properties;

}

/// Lists of the same distinct entries have the same canonical form: the
/// order in which the entries are given does not matter.
pub proof fn lemma_canonical_of_reordered(one: Seq<TreeEntryView>, other: Seq<TreeEntryView>)
    requires
        one.to_multiset() == other.to_multiset(),
        distinct(one.to_multiset()),
    ensures
        canonical(one) == canonical(other),
{
    lemma_canonical(one);
    lemma_canonical(other);
    lemma_sorted_is_unique(canonical(one), canonical(other));
}

/// Whether the names of a listing are such as a directory has: no two the
/// same, and none with a `/` in it.
pub open spec fn proper_names(listing: Seq<WorkEntry>) -> bool {
    &&& forall|i: int| 0 <= i < listing.len() ==> !(#[trigger] listing[i]).name@.contains(0x2fu8)
    &&& forall|i: int, j: int|
        0 <= i < j < listing.len() ==> (#[trigger] listing[i]).name@ != (#[trigger] listing[j]).name@
}

/// The entries that two listings leave, one after the other, are those that
/// the listings joined leave.
proof fn lemma_records_joined(front: Seq<WorkEntry>, back: Seq<WorkEntry>)
    ensures
        records(front + back) == records(front) + records(back),
    decreases back.len(),
{
    if back.len() == 0 {
        assert(front + back =~= front);
        assert(records(front) + records(back) =~= records(front));
    } else {
        lemma_records_joined(front, back.drop_last());
        assert((front + back).drop_last() =~= front + back.drop_last());
        assert((front + back).last() == back.last());
        assert(records(front + back) =~= records(front) + records(back));
    }
}

/// The entries that a listing leaves are those that it leaves without one of
/// its names, and what that name leaves.
proof fn lemma_records_without(listing: Seq<WorkEntry>, k: int)
    requires
        0 <= k < listing.len(),
    ensures
        records(listing).to_multiset() == records(listing.remove(k)).to_multiset().add(
            records(seq![listing[k]]).to_multiset(),
        ),
{
    let front = listing.take(k);
    let one = seq![listing[k]];
    let back = listing.skip(k + 1);
    assert(listing =~= front + one + back);
    assert(listing.remove(k) =~= front + back);
    lemma_records_joined(front, one);
    lemma_records_joined(front + one, back);
    lemma_records_joined(front, back);
    lemma_multiset_commutative(records(front), records(one));
    lemma_multiset_commutative(records(front) + records(one), records(back));
    lemma_multiset_commutative(records(front), records(back));
    assert(records(listing).to_multiset() =~= records(listing.remove(k)).to_multiset().add(
        records(one).to_multiset(),
    )) by {
        broadcast use vstd::multiset::group_multiset_properties;

    }
}

/// Listings of the same names leave the same entries.
proof fn lemma_records_of_reordered(one: Seq<WorkEntry>, other: Seq<WorkEntry>)
    requires
        one.to_multiset() == other.to_multiset(),
    ensures
        records(one).to_multiset() == records(other).to_multiset(),
    decreases one.len(),
{
    to_multiset_len(one);
    to_multiset_len(other);
    if one.len() == 0 {
        assert(one =~= other);
    } else {
        let last = one.last();
        assert(one.contains(last)) by {
            assert(one[one.len() - 1] == last);
        }
        to_multiset_contains(one, last);
        to_multiset_contains(other, last);
        let k = choose|k: int| 0 <= k < other.len() && other[k] == last;
        assert(one.drop_last() =~= one.remove(one.len() - 1));
        to_multiset_remove(one, one.len() - 1);
        to_multiset_remove(other, k);
        lemma_records_of_reordered(one.drop_last(), other.remove(k));
        lemma_records_without(one, one.len() - 1);
        lemma_records_without(other, k);
    }
}

/// Each entry that a listing leaves has the name of one of its names.
proof fn lemma_record_names(listing: Seq<WorkEntry>, p: int)
    requires
        0 <= p < records(listing).len(),
    ensures
        exists|i: int| 0 <= i < listing.len() && (#[trigger] listing[i]).name@ == records(
            listing,
        )[p].name,
    decreases listing.len(),
{
    let front = listing.drop_last();
    if p < records(front).len() {
        lemma_record_names(front, p);
        let i = choose|i: int| 0 <= i < front.len() && (#[trigger] front[i]).name@ == records(
            front,
        )[p].name;
        assert(listing[i].name@ == records(listing)[p].name);
    } else {
        assert(entry_record(listing.last()) is Some);
        assert(listing[listing.len() - 1].name@ == records(listing)[p].name);
    }
}

/// The entries that a listing with proper names leaves differ in their
/// names.
proof fn lemma_records_differ(listing: Seq<WorkEntry>, p: int, q: int)
    requires
        proper_names(listing),
        0 <= p < q < records(listing).len(),
    ensures
        records(listing)[p].name != records(listing)[q].name,
    decreases listing.len(),
{
    let front = listing.drop_last();
    assert(proper_names(front)) by {
        assert forall|i: int| 0 <= i < front.len() implies !(#[trigger] front[i]).name@.contains(
            0x2fu8,
        ) by {
            assert(front[i] == listing[i]);
        }
        assert forall|i: int, j: int| 0 <= i < j < front.len() implies (#[trigger] front[i]).name@
            != (#[trigger] front[j]).name@ by {
            assert(front[i] == listing[i] && front[j] == listing[j]);
        }
    }
    if q < records(front).len() {
        lemma_records_differ(front, p, q);
    } else {
        assert(entry_record(listing.last()) is Some);
        lemma_record_names(front, p);
        let i = choose|i: int| 0 <= i < front.len() && (#[trigger] front[i]).name@ == records(
            front,
        )[p].name;
        assert(listing[i].name@ != listing[listing.len() - 1].name@);
    }
}

/// Names without `/` that are sorted alike are the same.
proof fn lemma_same_key_same_name(a: TreeEntryView, b: TreeEntryView)
    requires
        !a.name.contains(0x2fu8),
        !b.name.contains(0x2fu8),
        sort_key(a.name, a.is_dir()) == sort_key(b.name, b.is_dir()),
    ensures
        a.name == b.name,
{
    let ka = sort_key(a.name, a.is_dir());
    let kb = sort_key(b.name, b.is_dir());
    if a.is_dir() == b.is_dir() {
        if a.is_dir() {
            assert(a.name =~= ka.drop_last());
            assert(b.name =~= kb.drop_last());
        }
    } else if a.is_dir() {
        assert(kb[kb.len() - 1] == 0x2fu8);
        assert(b.name.contains(0x2fu8));
    } else {
        assert(ka[ka.len() - 1] == 0x2fu8);
        assert(a.name.contains(0x2fu8));
    }
}

/// The entries that a listing with proper names leaves are distinct.
proof fn lemma_records_are_distinct(listing: Seq<WorkEntry>)
    requires
        proper_names(listing),
    ensures
        distinct(records(listing).to_multiset()),
{
    let all = records(listing);
    assert(all.no_duplicates()) by {
        assert forall|p: int, q: int| 0 <= p < all.len() && 0 <= q < all.len() && p != q implies all[p]
            != all[q] by {
            if p < q {
                lemma_records_differ(listing, p, q);
            } else {
                lemma_records_differ(listing, q, p);
            }
        }
    }
    all.lemma_multiset_has_no_duplicates();
    assert forall|e: TreeEntryView| all.to_multiset().count(e) <= 1 by {
        if all.to_multiset().count(e) > 0 {
            assert(all.to_multiset().contains(e));
        }
    }
    assert forall|a: TreeEntryView, b: TreeEntryView|
        all.to_multiset().count(a) > 0 && all.to_multiset().count(b) > 0 && sort_key(
            a.name,
            a.is_dir(),
        ) == sort_key(b.name, b.is_dir()) implies a == b by {
        to_multiset_contains(all, a);
        to_multiset_contains(all, b);
        let p = choose|p: int| 0 <= p < all.len() && all[p] == a;
        let q = choose|q: int| 0 <= q < all.len() && all[q] == b;
        lemma_record_names(listing, p);
        lemma_record_names(listing, q);
        lemma_same_key_same_name(a, b);
        if p < q {
            lemma_records_differ(listing, p, q);
        } else if q < p {
            lemma_records_differ(listing, q, p);
        }
    }
}

/// The tree of a directory does not depend on the order of its listing:
/// listings of the same names, no two names the same and none with a `/`,
/// have the same tree.
pub proof fn lemma_tree_ignores_listing_order(one: Seq<WorkEntry>, other: Seq<WorkEntry>)
    requires
        one.to_multiset() == other.to_multiset(),
        proper_names(one),
    ensures
        tree_entries(one) == tree_entries(other),
        tree_content(one) == tree_content(other),
        tree_digest(one) == tree_digest(other),
{
    lemma_records_of_reordered(one, other);
    lemma_records_are_distinct(one);
    lemma_canonical_of_reordered(records(one), records(other));
}

} // verus!
