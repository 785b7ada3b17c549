//! Trees: the entries of a directory snapshot and their stored form.
//!
//! A tree's content is its entries one after another, each
//! `"<mode> <name>\0"` followed by the 20 raw bytes of the digest of the
//! object it refers to.

use vstd::prelude::*;
use crate::bytes::append;

verus! {

/// The mode of a directory: `40000`.
pub open spec fn dir_mode() -> Seq<u8> {
    seq![0x34u8, 0x30, 0x30, 0x30, 0x30]
}

/// The mode of a regular file that is not executable: `100644`.
pub open spec fn file_mode() -> Seq<u8> {
    seq![0x31u8, 0x30, 0x30, 0x36, 0x34, 0x34]
}

/// The mode of an executable file: `100755`.
pub open spec fn exec_mode() -> Seq<u8> {
    seq![0x31u8, 0x30, 0x30, 0x37, 0x35, 0x35]
}

/// The mode of a symbolic link, and of whatever else is no directory and no
/// regular file: `120000`.
pub open spec fn link_mode() -> Seq<u8> {
    seq![0x31u8, 0x32, 0x30, 0x30, 0x30, 0x30]
}

/// An entry of a tree, seen as a value.
pub struct TreeEntryView {
    pub mode: Seq<u8>,
    pub name: Seq<u8>,
    pub digest: Seq<u8>,
}

impl TreeEntryView {
    /// Whether the entry refers to a directory.
    pub open spec fn is_dir(self) -> bool {
        self.mode =~= dir_mode()
    }

    /// The stored form of the entry.
    pub open spec fn bytes(self) -> Seq<u8> {
        self.mode + seq![0x20u8] + self.name + seq![0u8] + self.digest
    }
}

/// An entry of a tree: mode, name, and the digest of the object referred to.
#[derive(Debug)]
pub struct TreeEntry {
    pub mode: Vec<u8>,
    pub name: Vec<u8>,
    pub digest: [u8; 20],
}

impl View for TreeEntry {
    type V = TreeEntryView;

    open spec fn view(&self) -> TreeEntryView {
        TreeEntryView { mode: self.mode@, name: self.name@, digest: self.digest@ }
    }
}

/// The entries of a list, each seen as a value.
pub open spec fn views(entries: Seq<TreeEntry>) -> Seq<TreeEntryView> {
    Seq::new(entries.len(), |i: int| entries[i]@)
}

/// The stored form of a list of entries: each entry's, in order.
pub open spec fn serialize(entries: Seq<TreeEntryView>) -> Seq<u8>
    decreases entries.len(),
{
    if entries.len() == 0 {
        Seq::<u8>::empty()
    } else {
        serialize(entries.drop_last()) + entries.last().bytes()
    }
}

impl TreeEntry {
    /// Whether the entry refers to a directory.
    pub fn is_dir(&self) -> (dir: bool)
        ensures
            dir == self@.is_dir(),
    {
        let dir = self.mode.len() == 5 && self.mode[0] == 0x34 && self.mode[1] == 0x30
            && self.mode[2] == 0x30 && self.mode[3] == 0x30 && self.mode[4] == 0x30;
        proof {
            if dir {
                assert(self.mode@ =~= dir_mode());
            }
        }
        dir
    }

    /// Appends the stored form of the entry to `out`.
    pub fn write_to(&self, out: &mut Vec<u8>)
        ensures
            final(out)@ == old(out)@ + self@.bytes(),
    {
        append(out, self.mode.as_slice());
        out.push(0x20);
        append(out, self.name.as_slice());
        out.push(0);
        append(out, self.digest.as_slice());
        assert(out@ =~= old(out)@ + self@.bytes());
    }
}

/// The content of the tree that holds `entries`, in the order given.
pub fn tree_bytes(entries: &Vec<TreeEntry>) -> (content: Vec<u8>)
    ensures
        content@ == serialize(views(entries@)),
{
    let mut content: Vec<u8> = Vec::new();
    let mut i: usize = 0;
    while i < entries.len()
        invariant
            i <= entries.len(),
            content@ == serialize(views(entries@).take(i as int)),
        decreases entries.len() - i,
    {
        entries[i].write_to(&mut content);
        proof {
            let upto = views(entries@).take(i + 1);
            assert(upto.drop_last() =~= views(entries@).take(i as int));
            assert(upto.last() == entries@[i as int]@);
        }
        i += 1;
    }
    assert(views(entries@).take(entries.len() as int) =~= views(entries@));
    content
}

} // verus!
