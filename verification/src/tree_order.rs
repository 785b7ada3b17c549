//! The order of the entries of a tree.
//!
//! Names are compared byte by byte. Where one name is a prefix of the other,
//! one more byte decides: the end of a directory's name counts as `/`, the
//! end of any other name as nothing at all, which sorts before every byte.
//! A directory `foo` thus sorts like `foo/`: after `foo.txt`, before
//! `foobar`.
//!
//! Among the names of one directory, which are distinct and hold no `/`,
//! this is a strict total order. So that every list has one sorted form, the
//! few ties that other names leave are broken by ordering the names as
//! given, with `/` appended to those of directories.

use vstd::prelude::*;
use vstd::seq_lib::to_multiset_build;
use crate::tree::{views, TreeEntry, TreeEntryView};

verus! {

/// How one entry stands to another.
#[derive(Clone, Copy, Debug, PartialEq, Eq, Structural)]
pub enum Relation {
    Before,
    Same,
    After,
}

/// The byte that stands for the end of a name: `/` for a directory, none
/// for anything else.
pub open spec fn end_mark(is_dir: bool) -> Option<u8> {
    if is_dir {
        Some(0x2fu8)
    } else {
        None
    }
}

/// The order of two bytes of which either may be absent; an absent one
/// comes first.
pub open spec fn byte_order(a: Option<u8>, b: Option<u8>) -> Relation {
    match (a, b) {
        (None, None) => Relation::Same,
        (None, Some(_)) => Relation::Before,
        (Some(_), None) => Relation::After,
        (Some(x), Some(y)) => if x < y {
            Relation::Before
        } else if x > y {
            Relation::After
        } else {
            Relation::Same
        },
    }
}

/// The order of two names: by the first byte in which they differ; where
/// one ends first, by its end mark against the other's next byte.
pub open spec fn name_order(a: Seq<u8>, a_dir: bool, b: Seq<u8>, b_dir: bool) -> Relation
    decreases a.len(),
{
    if a.len() == 0 && b.len() == 0 {
        Relation::Same
    } else if a.len() == 0 {
        byte_order(end_mark(a_dir), Some(b[0]))
    } else if b.len() == 0 {
        byte_order(Some(a[0]), end_mark(b_dir))
    } else if a[0] != b[0] {
        byte_order(Some(a[0]), Some(b[0]))
    } else {
        name_order(a.drop_first(), a_dir, b.drop_first(), b_dir)
    }
}

/// A name as it is sorted: with `/` appended where it is a directory's.
pub open spec fn sort_key(name: Seq<u8>, is_dir: bool) -> Seq<u8> {
    if is_dir {
        name.push(0x2fu8)
    } else {
        name
    }
}

/// Lexicographic order of byte strings: a prefix comes first.
pub open spec fn lex_le(x: Seq<u8>, y: Seq<u8>) -> bool
    decreases x.len(),
{
    if x.len() == 0 {
        true
    } else if y.len() == 0 {
        false
    } else if x[0] != y[0] {
        x[0] < y[0]
    } else {
        lex_le(x.drop_first(), y.drop_first())
    }
}

/// How a tie of `name_order` is broken, so that the outcome is the order of
/// the sort keys.
pub open spec fn tie_break(a: Seq<u8>, a_dir: bool, b: Seq<u8>, b_dir: bool) -> bool {
    if a.len() == b.len() {
        !a_dir || b_dir
    } else if a.len() < b.len() {
        true
    } else {
        a.len() == b.len() + 1 && !a_dir
    }
}

/// Whether `a` may stand before `b` in a tree.
pub open spec fn precedes(a: TreeEntryView, b: TreeEntryView) -> bool {
    lex_le(sort_key(a.name, a.is_dir()), sort_key(b.name, b.is_dir()))
}

/// Whether each entry of a list may stand before all that follow it.
pub open spec fn sorted(entries: Seq<TreeEntryView>) -> bool {
    forall|i: int, j: int| 0 <= i < j < entries.len() ==> precedes(entries[i], entries[j])
}

/// A sorted list with one more entry, put behind all that may stand before
/// it.
pub open spec fn insert_sorted(entries: Seq<TreeEntryView>, e: TreeEntryView) -> Seq<
    TreeEntryView,
>
    decreases entries.len(),
{
    if entries.len() == 0 {
        seq![e]
    } else if precedes(entries.last(), e) {
        entries.push(e)
    } else {
        insert_sorted(entries.drop_last(), e).push(entries.last())
    }
}

/// The entries of a list in the order of a tree. Entries that tie keep
/// the order in which they were given.
pub open spec fn canonical(entries: Seq<TreeEntryView>) -> Seq<TreeEntryView>
    decreases entries.len(),
{
    if entries.len() == 0 {
        Seq::<TreeEntryView>::empty()
    } else {
        insert_sorted(canonical(entries.drop_last()), entries.last())
    }
}

/// Any two byte strings are ordered one way or the other.
pub proof fn lemma_lex_total(x: Seq<u8>, y: Seq<u8>)
    ensures
        lex_le(x, y) || lex_le(y, x),
    decreases x.len(),
{
    if x.len() > 0 && y.len() > 0 && x[0] == y[0] {
        lemma_lex_total(x.drop_first(), y.drop_first());
    }
}

/// The lexicographic order is transitive.
pub proof fn lemma_lex_transitive(x: Seq<u8>, y: Seq<u8>, z: Seq<u8>)
    requires
        lex_le(x, y),
        lex_le(y, z),
    ensures
        lex_le(x, z),
    decreases x.len(),
{
    if x.len() > 0 && y.len() > 0 && z.len() > 0 && x[0] == y[0] && y[0] == z[0] {
        lemma_lex_transitive(x.drop_first(), y.drop_first(), z.drop_first());
    }
}

/// Byte strings that are ordered both ways are the same.
pub proof fn lemma_lex_antisymmetric(x: Seq<u8>, y: Seq<u8>)
    requires
        lex_le(x, y),
        lex_le(y, x),
    ensures
        x == y,
    decreases x.len(),
{
    if x.len() > 0 && y.len() > 0 {
        lemma_lex_antisymmetric(x.drop_first(), y.drop_first());
        assert(x =~= seq![x[0]] + x.drop_first());
        assert(y =~= seq![y[0]] + y.drop_first());
    } else {
        assert(x =~= y);
    }
}

/// The order of the sort keys agrees with `name_order` wherever that
/// decides, and is `tie_break` where it does not.
pub proof fn lemma_keys_follow_names(a: Seq<u8>, a_dir: bool, b: Seq<u8>, b_dir: bool)
    ensures
        lex_le(sort_key(a, a_dir), sort_key(b, b_dir)) == match name_order(a, a_dir, b, b_dir) {
            Relation::Before => true,
            Relation::After => false,
            Relation::Same => tie_break(a, a_dir, b, b_dir),
        },
    decreases a.len(),
{
    let ka = sort_key(a, a_dir);
    let kb = sort_key(b, b_dir);
    reveal_with_fuel(lex_le, 3);
    if a.len() > 0 && b.len() > 0 {
        assert(ka[0] == a[0] && kb[0] == b[0]);
        if a[0] == b[0] {
            lemma_keys_follow_names(a.drop_first(), a_dir, b.drop_first(), b_dir);
            assert(ka.drop_first() =~= sort_key(a.drop_first(), a_dir));
            assert(kb.drop_first() =~= sort_key(b.drop_first(), b_dir));
        }
    } else if a.len() == 0 && b.len() == 0 {
        if a_dir && b_dir {
            assert(ka.drop_first().len() == 0);
        }
    } else if a.len() == 0 {
        assert(kb[0] == b[0]);
        if a_dir {
            assert(ka.drop_first().len() == 0);
        }
    } else {
        assert(ka[0] == a[0]);
        if b_dir {
            assert(kb.drop_first().len() == 0);
            if a[0] == 0x2fu8 {
                let rest = ka.drop_first();
                assert(a_dir ==> rest.len() == a.len());
                assert(!a_dir ==> rest.len() == a.len() - 1);
            }
        }
    }
}

/// Among names without `/` that differ, `name_order` never ties, and says
/// `Before` exactly where the sort keys are in order: a directory sorts as
/// its name with `/` appended.
pub proof fn lemma_names_of_one_directory(a: Seq<u8>, a_dir: bool, b: Seq<u8>, b_dir: bool)
    requires
        a != b,
        !a.contains(0x2fu8),
        !b.contains(0x2fu8),
    ensures
        name_order(a, a_dir, b, b_dir) != Relation::Same,
        name_order(a, a_dir, b, b_dir) == Relation::Before <==> lex_le(
            sort_key(a, a_dir),
            sort_key(b, b_dir),
        ),
    decreases a.len(),
{
    lemma_keys_follow_names(a, a_dir, b, b_dir);
    if a.len() > 0 && b.len() > 0 {
        if a[0] == b[0] {
            let ra = a.drop_first();
            let rb = b.drop_first();
            assert(ra != rb) by {
                if ra == rb {
                    assert(a =~= seq![a[0]] + ra);
                    assert(b =~= seq![b[0]] + rb);
                }
            }
            assert(!ra.contains(0x2fu8)) by {
                if ra.contains(0x2fu8) {
                    let i = choose|i: int| 0 <= i < ra.len() && ra[i] == 0x2fu8;
                    assert(a[i + 1] == 0x2fu8);
                }
            }
            assert(!rb.contains(0x2fu8)) by {
                if rb.contains(0x2fu8) {
                    let i = choose|i: int| 0 <= i < rb.len() && rb[i] == 0x2fu8;
                    assert(b[i + 1] == 0x2fu8);
                }
            }
            lemma_names_of_one_directory(ra, a_dir, rb, b_dir);
        }
    } else if a.len() == 0 && b.len() == 0 {
        assert(a =~= b);
    } else if a.len() == 0 {
        assert(b[0] != 0x2fu8);
    } else {
        assert(a[0] != 0x2fu8);
    }
}

/// Inserting into a sorted list leaves it sorted, and adds the entry and
/// nothing else.
pub proof fn lemma_insert_sorted(entries: Seq<TreeEntryView>, e: TreeEntryView)
    requires
        sorted(entries),
    ensures
        sorted(insert_sorted(entries, e)),
        insert_sorted(entries, e).len() == entries.len() + 1,
        insert_sorted(entries, e).to_multiset() == entries.to_multiset().insert(e),
    decreases entries.len(),
{
    let out = insert_sorted(entries, e);
    if entries.len() == 0 {
        assert(out =~= entries.push(e));
        to_multiset_build(entries, e);
    } else if precedes(entries.last(), e) {
        to_multiset_build(entries, e);
        assert forall|i: int, j: int| 0 <= i < j < out.len() implies precedes(out[i], out[j]) by {
            if j == out.len() - 1 {
                if i < entries.len() - 1 {
                    assert(precedes(entries[i], entries.last()));
                    lemma_lex_transitive(
                        sort_key(entries[i].name, entries[i].is_dir()),
                        sort_key(entries.last().name, entries.last().is_dir()),
                        sort_key(e.name, e.is_dir()),
                    );
                }
            } else {
                assert(precedes(entries[i], entries[j]));
            }
        }
    } else {
        let front = entries.drop_last();
        let last = entries.last();
        assert(sorted(front)) by {
            assert forall|i: int, j: int| 0 <= i < j < front.len() implies precedes(
                front[i],
                front[j],
            ) by {
                assert(precedes(entries[i], entries[j]));
            }
        }
        lemma_insert_sorted(front, e);
        let inner = insert_sorted(front, e);
        to_multiset_build(inner, last);
        to_multiset_build(front, last);
        assert(front.push(last) =~= entries);
        assert(entries.to_multiset().insert(e) =~= front.to_multiset().insert(e).insert(last));
        lemma_lex_total(
            sort_key(last.name, last.is_dir()),
            sort_key(e.name, e.is_dir()),
        );
        assert(precedes(e, last));
        assert forall|i: int| 0 <= i < inner.len() implies precedes(inner[i], last) by {
            // every entry of `inner` is `e` or an entry of `front`
            assert(inner.to_multiset().count(inner[i]) > 0) by {
                inner.to_multiset_ensures();
                assert(inner.contains(inner[i]));
            }
            if inner[i] != e {
                assert(front.to_multiset().count(inner[i]) > 0);
                front.to_multiset_ensures();
                assert(front.contains(inner[i]));
                let k = choose|k: int| 0 <= k < front.len() && front[k] == inner[i];
                assert(precedes(entries[k], entries[entries.len() - 1]));
            }
        }
        assert forall|i: int, j: int| 0 <= i < j < out.len() implies precedes(out[i], out[j]) by {
            if j == out.len() - 1 {
                assert(out[i] == inner[i]);
            } else {
                assert(precedes(inner[i], inner[j]));
            }
        }
    }
}

/// The canonical form of a list is sorted and holds the same entries, each
/// as often as the list does.
pub proof fn lemma_canonical(entries: Seq<TreeEntryView>)
    ensures
        sorted(canonical(entries)),
        canonical(entries).len() == entries.len(),
        canonical(entries).to_multiset() == entries.to_multiset(),
    decreases entries.len(),
{
    if entries.len() == 0 {
        assert(canonical(entries) =~= entries);
    } else {
        let front = entries.drop_last();
        lemma_canonical(front);
        lemma_insert_sorted(canonical(front), entries.last());
        to_multiset_build(front, entries.last());
        assert(front.push(entries.last()) =~= entries);
    }
}

/// In the canonical form no entry stands before one that `name_order`
/// puts before it.
pub proof fn lemma_canonical_follows_name_order(entries: Seq<TreeEntryView>, i: int, j: int)
    requires
        0 <= i < j < entries.len(),
    ensures
        name_order(
            canonical(entries)[i].name,
            canonical(entries)[i].is_dir(),
            canonical(entries)[j].name,
            canonical(entries)[j].is_dir(),
        ) != Relation::After,
{
    lemma_canonical(entries);
    let out = canonical(entries);
    assert(precedes(out[i], out[j]));
    lemma_keys_follow_names(out[i].name, out[i].is_dir(), out[j].name, out[j].is_dir());
}

/// Inserting behind the last entry that may stand before `e` is
/// `insert_sorted`.
pub proof fn lemma_insert_at(entries: Seq<TreeEntryView>, e: TreeEntryView, at: int)
    requires
        0 <= at <= entries.len(),
        at > 0 ==> precedes(entries[at - 1], e),
        forall|j: int| at <= j < entries.len() ==> !precedes(entries[j], e),
    ensures
        insert_sorted(entries, e) == entries.insert(at, e),
    decreases entries.len(),
{
    if entries.len() == 0 {
        assert(entries.insert(at, e) =~= seq![e]);
    } else if at == entries.len() {
        assert(entries.insert(at, e) =~= entries.push(e));
    } else {
        let front = entries.drop_last();
        assert(!precedes(entries[entries.len() - 1], e));
        lemma_insert_at(front, e, at);
        assert(entries.insert(at, e) =~= front.insert(at, e).push(entries.last()));
    }
}

/// The order of two bytes of which either may be absent.
fn order_of(a: Option<u8>, b: Option<u8>) -> (relation: Relation)
    ensures
        relation == byte_order(a, b),
{
    match (a, b) {
        (None, None) => Relation::Same,
        (None, Some(_)) => Relation::Before,
        (Some(_), None) => Relation::After,
        (Some(x), Some(y)) => if x < y {
            Relation::Before
        } else if x > y {
            Relation::After
        } else {
            Relation::Same
        },
    }
}

/// Compares two names of one directory, each with whether it is a
/// directory's.
pub fn compare_names(a: &[u8], a_dir: bool, b: &[u8], b_dir: bool) -> (relation: Relation)
    ensures
        relation == name_order(a@, a_dir, b@, b_dir),
{
    let mut i: usize = 0;
    assert(a@.skip(0) =~= a@ && b@.skip(0) =~= b@);
    while i < a.len() && i < b.len() && a[i] == b[i]
        invariant
            i <= a.len(),
            i <= b.len(),
            name_order(a@, a_dir, b@, b_dir) == name_order(
                a@.skip(i as int),
                a_dir,
                b@.skip(i as int),
                b_dir,
            ),
        decreases a.len() - i,
    {
        assert(a@.skip(i as int).drop_first() =~= a@.skip(i + 1));
        assert(b@.skip(i as int).drop_first() =~= b@.skip(i + 1));
        i += 1;
    }
    let next_a: Option<u8> = if i < a.len() {
        Some(a[i])
    } else if a_dir {
        Some(0x2f)
    } else {
        None
    };
    let next_b: Option<u8> = if i < b.len() {
        Some(b[i])
    } else if b_dir {
        Some(0x2f)
    } else {
        None
    };
    if i == a.len() && i == b.len() {
        Relation::Same
    } else {
        order_of(next_a, next_b)
    }
}

/// Whether `a` may stand before `b` in a tree.
pub fn entry_precedes(a: &TreeEntry, b: &TreeEntry) -> (before: bool)
    ensures
        before == precedes(a@, b@),
{
    let a_dir = a.is_dir();
    let b_dir = b.is_dir();
    proof {
        lemma_keys_follow_names(a.name@, a_dir, b.name@, b_dir);
    }
    match compare_names(a.name.as_slice(), a_dir, b.name.as_slice(), b_dir) {
        Relation::Before => true,
        Relation::After => false,
        Relation::Same => if a.name.len() == b.name.len() {
            !a_dir || b_dir
        } else if a.name.len() < b.name.len() {
            true
        } else {
            a.name.len() - 1 == b.name.len() && !a_dir
        },
    }
}

/// Sorts the entries into the order of a tree.
pub fn sort_entries(entries: &mut Vec<TreeEntry>)
    ensures
        views(final(entries)@) == canonical(views(old(entries)@)),
{
    let ghost given = views(entries@);
    let mut i: usize = 0;
    assert(views(entries@).take(0) =~= Seq::<TreeEntryView>::empty());
    while i < entries.len()
        invariant
            i <= entries.len(),
            entries@.len() == given.len(),
            views(entries@).take(i as int) == canonical(given.take(i as int)),
            views(entries@).skip(i as int) == given.skip(i as int),
        decreases entries.len() - i,
    {
        let ghost before = views(entries@);
        let entry = entries.remove(i);
        let ghost done = before.take(i as int);
        assert(views(entries@) =~= before.remove(i as int));
        assert(entry@ == given[i as int]) by {
            assert(before.skip(i as int)[0] == given.skip(i as int)[0]);
        }
        let mut at: usize = i;
        while at > 0 && !entry_precedes(&entries[at - 1], &entry)
            invariant
                at <= i,
                i < given.len(),
                entries@.len() == given.len() - 1,
                views(entries@).take(i as int) == done,
                forall|j: int| at <= j < i ==> !precedes(done[j], entry@),
            decreases at,
        {
            assert(done[at - 1] == views(entries@)[at - 1]);
            at -= 1;
        }
        proof {
            if at > 0 {
                assert(done[at - 1] == views(entries@)[at - 1]);
            }
            lemma_insert_at(done, entry@, at as int);
        }
        let ghost middle = views(entries@);
        entries.insert(at, entry);
        proof {
            assert(views(entries@) =~= middle.insert(at as int, given[i as int]));
            let longer = given.take(i + 1);
            assert(longer.drop_last() =~= given.take(i as int));
            assert(longer.last() == given[i as int]);
            assert(views(entries@).take(i + 1) =~= done.insert(at as int, given[i as int]));
            let tail = views(entries@).skip(i + 1);
            assert forall|k: int| 0 <= k < tail.len() implies #[trigger] tail[k] == given.skip(
                i + 1,
            )[k] by {
                assert(before.skip(i as int)[k + 1] == given.skip(i as int)[k + 1]);
            }
            assert(tail =~= given.skip(i + 1));
        }
        i += 1;
    }
    assert(views(entries@).take(entries@.len() as int) =~= views(entries@));
    assert(given.take(given.len() as int) =~= given);
}

} // verus!
