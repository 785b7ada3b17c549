//! Snapshots of a working directory.

use vstd::prelude::*;
use crate::bytes::equal;
use crate::error::StoreError;
use crate::object::{object_digest, storable, Kind, ObjectView};
use crate::store::{store_object, StoredObject};
use crate::tree::{
    dir_mode, exec_mode, file_mode, link_mode, serialize, tree_bytes, views, TreeEntry,
    TreeEntryView,
};
use crate::tree_order::{canonical, lemma_canonical, sort_entries, sorted};

verus! {

/// What a name in a directory stands for.
#[derive(Debug)]
pub enum WorkNode {
    /// A directory, with what it lists.
    Directory(Vec<WorkEntry>),
    /// A regular file, with its permission bits and its bytes.
    File { mode: u32, content: Vec<u8> },
    /// Anything else, such as a symbolic link, with the bytes read from it.
    Other { content: Vec<u8> },
}

/// One name of a directory listing.
#[derive(Debug)]
pub struct WorkEntry {
    pub name: Vec<u8>,
    pub node: WorkNode,
}

/// Whether a name is left out of every snapshot: `.git` and `target`.
pub open spec fn is_excluded(name: Seq<u8>) -> bool {
    name =~= seq![0x2eu8, 0x67, 0x69, 0x74] || name =~= seq![
        0x74u8,
        0x61,
        0x72,
        0x67,
        0x65,
        0x74,
    ]
}

/// The mode of a regular file with the given permission bits.
pub open spec fn mode_of_bits(mode: u32) -> Seq<u8> {
    if mode & 0o111 != 0 {
        exec_mode()
    } else {
        file_mode()
    }
}

/// The tree entry that a name of a listing leaves, if any: none for an
/// excluded name and for a directory whose own tree has no entry.
pub open spec fn entry_record(entry: WorkEntry) -> Option<TreeEntryView>
    decreases entry, 0nat,
{
    if is_excluded(entry.name@) {
        None
    } else {
        match entry.node {
            WorkNode::Directory(children) => {
                let below = canonical(records(children@));
                if below.len() == 0 {
                    None
                } else {
                    Some(
                        TreeEntryView {
                            mode: dir_mode(),
                            name: entry.name@,
                            digest: object_digest(Kind::Tree, serialize(below)),
                        },
                    )
                }
            },
            WorkNode::File { mode, content } => Some(
                TreeEntryView {
                    mode: mode_of_bits(mode),
                    name: entry.name@,
                    digest: object_digest(Kind::Blob, content@),
                },
            ),
            WorkNode::Other { content } => Some(
                TreeEntryView {
                    mode: link_mode(),
                    name: entry.name@,
                    digest: object_digest(Kind::Blob, content@),
                },
            ),
        }
    }
}

/// The tree entries that the names of a listing leave, in the order of the
/// listing.
pub open spec fn records(listing: Seq<WorkEntry>) -> Seq<TreeEntryView>
    decreases listing, 1nat,
{
    if listing.len() == 0 {
        Seq::<TreeEntryView>::empty()
    } else {
        match entry_record(listing.last()) {
            None => records(listing.drop_last()),
            Some(record) => records(listing.drop_last()).push(record),
        }
    }
}

/// The entries of the tree of a listing, in the order of a tree.
pub open spec fn tree_entries(listing: Seq<WorkEntry>) -> Seq<TreeEntryView> {
    canonical(records(listing))
}

/// The content of the tree of a listing.
pub open spec fn tree_content(listing: Seq<WorkEntry>) -> Seq<u8> {
    serialize(tree_entries(listing))
}

/// The name of the tree of a listing; none where the tree has no entry.
pub open spec fn tree_digest(listing: Seq<WorkEntry>) -> Option<Seq<u8>> {
    if tree_entries(listing).len() == 0 {
        None
    } else {
        Some(object_digest(Kind::Tree, tree_content(listing)))
    }
}

/// The objects that a name of a listing gives rise to: a blob for a file,
/// for a directory all the objects of its own snapshot.
pub open spec fn entry_objects(entry: WorkEntry) -> Seq<ObjectView>
    decreases entry, 0nat,
{
    if is_excluded(entry.name@) {
        Seq::<ObjectView>::empty()
    } else {
        match entry.node {
            WorkNode::Directory(children) => {
                let below = canonical(records(children@));
                if below.len() == 0 {
                    listing_objects(children@)
                } else {
                    listing_objects(children@).push(
                        ObjectView { kind: Kind::Tree, content: serialize(below) },
                    )
                }
            },
            WorkNode::File { mode, content } => seq![
                ObjectView { kind: Kind::Blob, content: content@ },
            ],
            WorkNode::Other { content } => seq![ObjectView { kind: Kind::Blob, content: content@ }],
        }
    }
}

/// The objects that the names of a listing give rise to, in the order of
/// the listing.
pub open spec fn listing_objects(listing: Seq<WorkEntry>) -> Seq<ObjectView>
    decreases listing, 1nat,
{
    if listing.len() == 0 {
        Seq::<ObjectView>::empty()
    } else {
        listing_objects(listing.drop_last()) + entry_objects(listing.last())
    }
}

/// All the objects of the snapshot of a listing: those of its names, then
/// its own tree, where it has one.
pub open spec fn tree_objects(listing: Seq<WorkEntry>) -> Seq<ObjectView> {
    if tree_entries(listing).len() == 0 {
        listing_objects(listing)
    } else {
        listing_objects(listing).push(
            ObjectView { kind: Kind::Tree, content: tree_content(listing) },
        )
    }
}

/// Whether `ready` holds the objects `of`, one for one, each made ready for
/// the store.
pub open spec fn all_stored(ready: Seq<StoredObject>, of: Seq<ObjectView>) -> bool {
    &&& ready.len() == of.len()
    &&& forall|i: int| 0 <= i < ready.len() ==> (#[trigger] ready[i]).stores(of[i])
}

/// Whether one of the objects cannot be compressed, so that the list cannot
/// be stored.
pub open spec fn cannot_store(objects: Seq<ObjectView>) -> bool {
    exists|i: int|
        0 <= i < objects.len() && !storable((#[trigger] objects[i]).kind, objects[i].content)
}

/// The snapshot of a directory, ready for the store.
#[derive(Debug)]
pub struct TreeWrite {
    /// The name of the directory's tree; none where it has no entry.
    pub root: Option<[u8; 20]>,
    /// Every object of the snapshot, the directory's own tree last.
    pub objects: Vec<StoredObject>,
}

impl TreeWrite {
    /// Whether this is the snapshot of `listing`.
    pub open spec fn snapshot_of(&self, listing: Seq<WorkEntry>) -> bool {
        &&& match self.root {
            Some(digest) => tree_digest(listing) == Some(digest@),
            None => tree_digest(listing) is None,
        }
        &&& all_stored(self.objects@, tree_objects(listing))
    }
}

/// Whether a name is left out of every snapshot.
pub fn excluded(name: &[u8]) -> (out: bool)
    ensures
        out == is_excluded(name@),
{
    let git: [u8; 4] = [0x2e, 0x67, 0x69, 0x74];
    let target: [u8; 6] = [0x74, 0x61, 0x72, 0x67, 0x65, 0x74];
    assert(git@ =~= seq![0x2eu8, 0x67, 0x69, 0x74]);
    assert(target@ =~= seq![0x74u8, 0x61, 0x72, 0x67, 0x65, 0x74]);
    equal(name, git.as_slice()) || equal(name, target.as_slice())
}

/// The mode of a regular file with the given permission bits: `100755`
/// where any executable bit is set, else `100644`.
pub fn file_mode_of(mode: u32) -> (text: Vec<u8>)
    ensures
        text@ == mode_of_bits(mode),
{
    let mut text: Vec<u8> = Vec::new();
    text.push(0x31);
    text.push(0x30);
    text.push(0x30);
    if mode & 0o111 != 0 {
        text.push(0x37);
        text.push(0x35);
        text.push(0x35);
        assert(text@ =~= exec_mode());
    } else {
        text.push(0x36);
        text.push(0x34);
        text.push(0x34);
        assert(text@ =~= file_mode());
    }
    text
}

/// The mode of a directory.
fn dir_mode_text() -> (text: Vec<u8>)
    ensures
        text@ == dir_mode(),
{
    let mut text: Vec<u8> = Vec::new();
    text.push(0x34);
    text.push(0x30);
    text.push(0x30);
    text.push(0x30);
    text.push(0x30);
    assert(text@ =~= dir_mode());
    text
}

/// The mode of what is neither a directory nor a regular file.
fn link_mode_text() -> (text: Vec<u8>)
    ensures
        text@ == link_mode(),
{
    let mut text: Vec<u8> = Vec::new();
    text.push(0x31);
    text.push(0x32);
    text.push(0x30);
    text.push(0x30);
    text.push(0x30);
    text.push(0x30);
    assert(text@ =~= link_mode());
    text
}

/// Lists joined hold the objects of the lists joined.
proof fn lemma_all_stored_joined(
    a: Seq<StoredObject>,
    x: Seq<ObjectView>,
    b: Seq<StoredObject>,
    y: Seq<ObjectView>,
)
    requires
        all_stored(a, x),
        all_stored(b, y),
    ensures
        all_stored(a + b, x + y),
{
    assert forall|i: int| 0 <= i < (a + b).len() implies (#[trigger] (a + b)[i]).stores(
        (x + y)[i],
    ) by {
        if i < a.len() {
            assert(a[i].stores(x[i]));
        } else {
            assert(b[i - a.len()].stores(y[i - a.len()]));
        }
    }
}

/// Objects of which each was made ready can all be stored.
pub proof fn lemma_stored_can_be_stored(ready: Seq<StoredObject>, of: Seq<ObjectView>)
    requires
        all_stored(ready, of),
    ensures
        !cannot_store(of),
{
    if cannot_store(of) {
        let i = choose|i: int|
            0 <= i < of.len() && !storable((#[trigger] of[i]).kind, of[i].content);
        assert(ready[i].stores(of[i]));
    }
}

/// The objects of a name of a listing are among those of the listing, in
/// one piece.
proof fn lemma_objects_of_entry(listing: Seq<WorkEntry>, i: int)
    requires
        0 <= i < listing.len(),
    ensures
        listing_objects(listing.take(i)).len() + entry_objects(listing[i]).len()
            <= listing_objects(listing).len(),
        forall|k: int|
            0 <= k < entry_objects(listing[i]).len() ==> listing_objects(listing)[listing_objects(
                listing.take(i),
            ).len() + k] == #[trigger] entry_objects(listing[i])[k],
    decreases listing.len(),
{
    let front = listing.drop_last();
    if i == listing.len() - 1 {
        assert(front =~= listing.take(i));
    } else {
        lemma_objects_of_entry(front, i);
        assert(front.take(i) =~= listing.take(i));
        assert(front[i] == listing[i]);
    }
}

/// Where the objects of a name of a listing cannot be stored, neither can
/// the snapshot of the listing.
proof fn lemma_cannot_store_part(listing: Seq<WorkEntry>, i: int)
    requires
        0 <= i < listing.len(),
        cannot_store(entry_objects(listing[i])),
    ensures
        cannot_store(tree_objects(listing)),
{
    let part = entry_objects(listing[i]);
    let k = choose|k: int| 0 <= k < part.len() && !storable((#[trigger] part[k]).kind, part[k].content);
    lemma_objects_of_entry(listing, i);
    let at = listing_objects(listing.take(i)).len() + k;
    assert(listing_objects(listing)[at] == part[k]);
    assert(tree_objects(listing)[at] == part[k]);
}

/// Takes the snapshot of a directory from its listing.
///
/// Names are taken in the order of a tree, `.git` and `target` left out. A
/// file becomes a blob; a directory becomes the tree of its own listing, and
/// leaves no entry where that tree has none. Where no entry is left at
/// all, there is no tree: `root` is `None`. Fails with `Io` where the
/// compressor fails on one of the objects, and only there; nothing is to
/// be stored then.
pub fn write_tree_for(listing: &Vec<WorkEntry>) -> (written: Result<TreeWrite, StoreError>)
    ensures
        match written {
            Ok(snapshot) => snapshot.snapshot_of(listing@) && !cannot_store(
                tree_objects(listing@),
            ),
            Err(e) => e == StoreError::Io && cannot_store(tree_objects(listing@)),
        },
    decreases listing,
{
    let mut entries: Vec<TreeEntry> = Vec::new();
    let mut objects: Vec<StoredObject> = Vec::new();
    let mut i: usize = 0;
    assert(listing@.take(0) =~= Seq::<WorkEntry>::empty());
    assert(views(entries@) =~= Seq::<TreeEntryView>::empty());
    while i < listing.len()
        invariant
            i <= listing.len(),
            views(entries@) == records(listing@.take(i as int)),
            all_stored(objects@, listing_objects(listing@.take(i as int))),
        decreases listing.len() - i,
    {
        let entry = &listing[i];
        let ghost upto = listing@.take(i + 1);
        let ghost before = objects@;
        let ghost before_entries = views(entries@);
        assert(upto.drop_last() =~= listing@.take(i as int));
        assert(upto.last() == *entry);
        if excluded(entry.name.as_slice()) {
            assert(entry_objects(*entry) =~= Seq::<ObjectView>::empty());
            assert(listing_objects(upto) == listing_objects(upto.drop_last()) + entry_objects(
                upto.last(),
            ));
            assert(listing_objects(upto) =~= listing_objects(listing@.take(i as int)));
            assert(entry_record(*entry) is None);
            assert(records(upto) == records(upto.drop_last()));
        } else {
            match &entry.node {
                WorkNode::Directory(children) => {
                    let mut below = match write_tree_for(children) {
                        Ok(below) => below,
                        Err(e) => {
                            proof {
                                assert(entry_objects(*entry) == tree_objects(children@));
                                lemma_cannot_store_part(listing@, i as int);
                            }
                            return Err(e);
                        },
                    };
                    let ghost added = below.objects@;
                    assert(all_stored(added, entry_objects(*entry)));
                    objects.append(&mut below.objects);
                    proof {
                        lemma_all_stored_joined(
                            before,
                            listing_objects(listing@.take(i as int)),
                            added,
                            entry_objects(*entry),
                        );
                    }
                    match below.root {
                        Some(digest) => {
                            let record = TreeEntry {
                                mode: dir_mode_text(),
                                name: vstd::slice::slice_to_vec(entry.name.as_slice()),
                                digest,
                            };
                            assert(Some(record@) == entry_record(*entry));
                            entries.push(record);
                            assert(views(entries@) =~= before_entries.push(record@));
                        },
                        None => {
                            assert(entry_record(*entry) is None);
                        },
                    }
                },
                WorkNode::File { mode, content } => {
                    let blob = match store_object(Kind::Blob, content.as_slice()) {
                        Ok(blob) => blob,
                        Err(e) => {
                            proof {
                                let part = entry_objects(*entry);
                                assert(!storable(part[0].kind, part[0].content));
                                lemma_cannot_store_part(listing@, i as int);
                            }
                            return Err(e);
                        },
                    };
                    let record = TreeEntry {
                        mode: file_mode_of(*mode),
                        name: vstd::slice::slice_to_vec(entry.name.as_slice()),
                        digest: blob.digest,
                    };
                    assert(Some(record@) == entry_record(*entry));
                    entries.push(record);
                    assert(views(entries@) =~= before_entries.push(record@));
                    objects.push(blob);
                    proof {
                        lemma_all_stored_joined(
                            before,
                            listing_objects(listing@.take(i as int)),
                            seq![blob],
                            entry_objects(*entry),
                        );
                        assert(objects@ =~= before + seq![blob]);
                    }
                },
                WorkNode::Other { content } => {
                    let blob = match store_object(Kind::Blob, content.as_slice()) {
                        Ok(blob) => blob,
                        Err(e) => {
                            proof {
                                let part = entry_objects(*entry);
                                assert(!storable(part[0].kind, part[0].content));
                                lemma_cannot_store_part(listing@, i as int);
                            }
                            return Err(e);
                        },
                    };
                    let record = TreeEntry {
                        mode: link_mode_text(),
                        name: vstd::slice::slice_to_vec(entry.name.as_slice()),
                        digest: blob.digest,
                    };
                    assert(Some(record@) == entry_record(*entry));
                    entries.push(record);
                    assert(views(entries@) =~= before_entries.push(record@));
                    objects.push(blob);
                    proof {
                        lemma_all_stored_joined(
                            before,
                            listing_objects(listing@.take(i as int)),
                            seq![blob],
                            entry_objects(*entry),
                        );
                        assert(objects@ =~= before + seq![blob]);
                    }
                },
            }
        }
        i += 1;
    }
    assert(listing@.take(listing.len() as int) =~= listing@);
    sort_entries(&mut entries);
    proof {
        lemma_canonical(records(listing@));
    }
    if entries.len() == 0 {
        proof {
            lemma_stored_can_be_stored(objects@, tree_objects(listing@));
        }
        return Ok(TreeWrite { root: None, objects });
    }
    let content = tree_bytes(&entries);
    let tree = match store_object(Kind::Tree, content.as_slice()) {
        Ok(tree) => tree,
        Err(e) => {
            proof {
                let all = tree_objects(listing@);
                assert(!storable(all[all.len() - 1].kind, all[all.len() - 1].content));
            }
            return Err(e);
        },
    };
    let root = tree.digest;
    let ghost before = objects@;
    objects.push(tree);
    proof {
        lemma_all_stored_joined(
            before,
            listing_objects(listing@),
            seq![tree],
            seq![ObjectView { kind: Kind::Tree, content: tree_content(listing@) }],
        );
        assert(objects@ =~= before + seq![tree]);
        assert(tree_objects(listing@) =~= listing_objects(listing@) + seq![
            ObjectView { kind: Kind::Tree, content: tree_content(listing@) },
        ]);
        lemma_stored_can_be_stored(objects@, tree_objects(listing@));
    }
    Ok(TreeWrite { root: Some(root), objects })
}

/// Whether a name of a listing leaves no entry in the tree: it is excluded,
/// or it is a directory whose own listing has no tree.
pub open spec fn leaves_nothing(entry: WorkEntry) -> bool {
    ||| is_excluded(entry.name@)
    ||| entry.node matches WorkNode::Directory(children) && tree_digest(children@) is None
}

/// The names that leave no entry are those for which `entry_record` is
/// `None`, and a listing leaves as many entries as it has other names.
pub proof fn lemma_records(listing: Seq<WorkEntry>)
    ensures
        forall|i: int|
            0 <= i < listing.len() ==> (leaves_nothing(#[trigger] listing[i]) <==> entry_record(
                listing[i],
            ) is None),
        records(listing).len() <= listing.len(),
        records(listing).len() == 0 <==> forall|i: int|
            0 <= i < listing.len() ==> leaves_nothing(#[trigger] listing[i]),
    decreases listing.len(),
{
    if listing.len() > 0 {
        let front = listing.drop_last();
        lemma_records(front);
        assert forall|i: int| 0 <= i < listing.len() implies (leaves_nothing(
            #[trigger] listing[i],
        ) <==> entry_record(listing[i]) is None) by {}
        if records(listing).len() == 0 {
            assert forall|i: int| 0 <= i < listing.len() implies leaves_nothing(
                #[trigger] listing[i],
            ) by {
                if i < listing.len() - 1 {
                    assert(leaves_nothing(front[i]));
                }
            }
        }
        if forall|i: int| 0 <= i < listing.len() ==> leaves_nothing(#[trigger] listing[i]) {
            assert(leaves_nothing(listing[listing.len() - 1]));
            assert forall|i: int| 0 <= i < front.len() implies leaves_nothing(
                #[trigger] front[i],
            ) by {
                assert(leaves_nothing(listing[i]));
            }
        }
    }
}

/// Empty subtrees are left out: a listing has no tree exactly where each of
/// its names is excluded or is a directory that has no tree itself, and
/// such names leave no entry in the tree of the directory that lists them.
pub proof fn lemma_empty_subtree_elision(listing: Seq<WorkEntry>)
    ensures
        tree_digest(listing) is None <==> forall|i: int|
            0 <= i < listing.len() ==> leaves_nothing(#[trigger] listing[i]),
        forall|i: int|
            0 <= i < listing.len() && leaves_nothing(#[trigger] listing[i]) ==> entry_record(
                listing[i],
            ) is None,
        listing.len() == 0 ==> tree_digest(listing) is None,
{
    lemma_records(listing);
    lemma_canonical(records(listing));
}

/// The entries of a tree are in order, and are the entries that the names
/// of the listing leave, each once.
pub proof fn lemma_tree_is_sorted(listing: Seq<WorkEntry>)
    ensures
        sorted(tree_entries(listing)),
        tree_entries(listing).to_multiset() == records(listing).to_multiset(),
{
    lemma_canonical(records(listing));
}

} // verus!
