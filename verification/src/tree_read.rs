//! Reading the content of a tree back into its entries.

use vstd::prelude::*;
use vstd::utf8::valid_utf8;
use crate::bytes::{find, lemma_position, lemma_position_is, position};
use crate::codec::utf8_text;
use crate::error::StoreError;
use crate::tree::{serialize, views, TreeEntry, TreeEntryView};

verus! {

/// The entry at the start of `rest`, and how many bytes it takes:
/// `"<mode> <name>\0"`, split at the first space, then 20 bytes of digest.
/// `CorruptEntry` where there is no NUL, where what stands before it is not
/// UTF-8 or has no space, and where fewer than 20 bytes follow it.
pub open spec fn parse_entry(rest: Seq<u8>) -> Result<(TreeEntryView, int), StoreError> {
    let nul = position(rest, 0);
    let line = rest.take(nul);
    let space = position(line, 0x20);
    if nul == rest.len() || !valid_utf8(line) || space == line.len() || rest.len() - (nul + 1)
        < 20 {
        Err(StoreError::CorruptEntry)
    } else {
        Ok(
            (
                TreeEntryView {
                    mode: line.take(space),
                    name: line.skip(space + 1),
                    digest: rest.subrange(nul + 1, nul + 21),
                },
                nul + 21,
            ),
        )
    }
}

/// The entries that the content of a tree holds, in its order; the first
/// entry that cannot be read fails the whole.
pub open spec fn parse_tree(content: Seq<u8>) -> Result<Seq<TreeEntryView>, StoreError>
    decreases content.len(),
    via parse_tree_ends
{
    if content.len() == 0 {
        Ok(Seq::<TreeEntryView>::empty())
    } else {
        match parse_entry(content) {
            Err(e) => Err(e),
            Ok((entry, used)) => match parse_tree(content.skip(used)) {
                Err(e) => Err(e),
                Ok(rest) => Ok(seq![entry] + rest),
            },
        }
    }
}

#[via_fn]
proof fn parse_tree_ends(content: Seq<u8>) {
    lemma_position(content, 0);
}

/// Reads the entry that starts at `at`, and says where the next one starts.
fn read_entry(content: &[u8], at: usize) -> (read: Result<(TreeEntry, usize), StoreError>)
    requires
        at <= content@.len(),
    ensures
        match read {
            Ok((entry, next)) => parse_entry(content@.skip(at as int)) == Ok::<
                (TreeEntryView, int),
                StoreError,
            >((entry@, next - at)) && at < next <= content@.len(),
            Err(e) => parse_entry(content@.skip(at as int)) == Err::<
                (TreeEntryView, int),
                StoreError,
            >(e),
        },
{
    let rest = vstd::slice::slice_subrange(content, at, content.len());
    assert(rest@ =~= content@.skip(at as int));
    let nul = find(rest, 0);
    if nul == rest.len() {
        return Err(StoreError::CorruptEntry);
    }
    let line = vstd::slice::slice_subrange(rest, 0, nul);
    assert(line@ =~= rest@.take(nul as int));
    if utf8_text(line).is_none() {
        return Err(StoreError::CorruptEntry);
    }
    let space = find(line, 0x20);
    if space == line.len() {
        return Err(StoreError::CorruptEntry);
    }
    if rest.len() - (nul + 1) < 20 {
        return Err(StoreError::CorruptEntry);
    }
    let mode = vstd::slice::slice_to_vec(vstd::slice::slice_subrange(line, 0, space));
    let name = vstd::slice::slice_to_vec(vstd::slice::slice_subrange(line, space + 1, line.len()));
    assert(mode@ =~= line@.take(space as int));
    assert(name@ =~= line@.skip(space + 1));
    let raw = vstd::slice::slice_subrange(rest, nul + 1, nul + 21);
    let mut digest: [u8; 20] = [0u8; 20];
    let mut i: usize = 0;
    while i < 20
        invariant
            i <= 20,
            raw@.len() == 20,
            forall|j: int| 0 <= j < i ==> digest@[j] == raw@[j],
        decreases 20 - i,
    {
        digest[i] = raw[i];
        i += 1;
    }
    assert(digest@ =~= raw@);
    Ok((TreeEntry { mode, name, digest }, at + nul + 21))
}

/// Reads all the entries of a tree. `CorruptEntry` where one cannot be read.
pub fn read_tree(content: &[u8]) -> (read: Result<Vec<TreeEntry>, StoreError>)
    ensures
        match read {
            Ok(entries) => parse_tree(content@) == Ok::<Seq<TreeEntryView>, StoreError>(
                views(entries@),
            ),
            Err(e) => parse_tree(content@) == Err::<Seq<TreeEntryView>, StoreError>(e),
        },
{
    let mut entries: Vec<TreeEntry> = Vec::new();
    let mut at: usize = 0;
    assert(content@.skip(0) =~= content@);
    assert(views(entries@) =~= Seq::<TreeEntryView>::empty());
    while at < content.len()
        invariant
            at <= content.len(),
            parse_tree(content@) == match parse_tree(content@.skip(at as int)) {
                Err(e) => Err::<Seq<TreeEntryView>, StoreError>(e),
                Ok(rest) => Ok(views(entries@) + rest),
            },
        decreases content.len() - at,
    {
        let ghost before = views(entries@);
        let ghost here = content@.skip(at as int);
        match read_entry(content, at) {
            Err(e) => {
                return Err(e);
            },
            Ok((entry, next)) => {
                proof {
                    assert(here.skip(next - at) =~= content@.skip(next as int));
                    let after = parse_tree(content@.skip(next as int));
                    if after is Ok {
                        assert(before + (seq![entry@] + after->Ok_0) =~= before.push(entry@)
                            + after->Ok_0);
                    }
                }
                entries.push(entry);
                assert(views(entries@) =~= before.push(entry@));
                at = next;
            },
        }
    }
    assert(content@.skip(content.len() as int) =~= Seq::<u8>::empty());
    assert(views(entries@) + Seq::<TreeEntryView>::empty() =~= views(entries@));
    Ok(entries)
}

/// A cursor over the entries of a tree: each entry is read when it is asked
/// for, and the cursor never goes back.
pub struct TreeReader {
    content: Vec<u8>,
    at: usize,
}

impl TreeReader {
    #[verifier::type_invariant]
    spec fn within(self) -> bool {
        self.at <= self.content@.len()
    }

    /// What is still to be read.
    pub closed spec fn remaining(&self) -> Seq<u8> {
        self.content@.skip(self.at as int)
    }

    /// A cursor at the start of the content of a tree.
    pub fn new(content: Vec<u8>) -> (reader: TreeReader)
        ensures
            reader.remaining() == content@,
    {
        assert(content@.skip(0) =~= content@);
        TreeReader { content, at: 0 }
    }

    /// The next entry. `None` at the end; after an entry that cannot be
    /// read, which is given as `CorruptEntry`, the cursor is at the end.
    pub fn next_entry(&mut self) -> (next: Option<Result<TreeEntry, StoreError>>)
        ensures
            match next {
                None => old(self).remaining().len() == 0 && final(self).remaining().len() == 0,
                Some(Ok(entry)) => {
                    &&& old(self).remaining().len() > 0
                    &&& parse_entry(old(self).remaining()) matches Ok((read, used))
                    &&& read == entry@
                    &&& final(self).remaining() == old(self).remaining().skip(used)
                },
                Some(Err(e)) => old(self).remaining().len() > 0 && parse_entry(
                    old(self).remaining(),
                ) == Err::<(TreeEntryView, int), StoreError>(e) && final(self).remaining().len()
                    == 0,
            },
    {
        proof {
            use_type_invariant(&*self);
        }
        if self.at == self.content.len() {
            return None;
        }
        match read_entry(self.content.as_slice(), self.at) {
            Ok((entry, next)) => {
                assert(self.content@.skip(self.at as int).skip(next - self.at)
                    =~= self.content@.skip(next as int));
                self.at = next;
                Some(Ok(entry))
            },
            Err(e) => {
                self.at = self.content.len();
                Some(Err(e))
            },
        }
    }
}

/// Whether an entry can be told apart from what follows it in a tree: the
/// mode holds no space and no NUL, the name no NUL, the two with a space
/// between them are UTF-8, and the digest is 20 bytes.
pub open spec fn readable(entry: TreeEntryView) -> bool {
    &&& !entry.mode.contains(0x20u8)
    &&& !entry.mode.contains(0u8)
    &&& !entry.name.contains(0u8)
    &&& valid_utf8(entry.mode + seq![0x20u8] + entry.name)
    &&& entry.digest.len() == 20
}

/// The stored form of a readable entry, whatever follows it, reads as that
/// entry and takes as many bytes as the entry has.
pub proof fn lemma_parse_entry(entry: TreeEntryView, beyond: Seq<u8>)
    requires
        readable(entry),
    ensures
        parse_entry(entry.bytes() + beyond) == Ok::<(TreeEntryView, int), StoreError>(
            (entry, entry.bytes().len() as int),
        ),
{
    let rest = entry.bytes() + beyond;
    let line = entry.mode + seq![0x20u8] + entry.name;
    let nul = line.len() as int;
    assert forall|j: int| 0 <= j < nul implies rest[j] != 0 by {
        assert(rest[j] == line[j]);
        if j < entry.mode.len() {
            assert(entry.mode.contains(line[j]));
        } else if j > entry.mode.len() {
            assert(entry.name.contains(line[j]));
        }
    }
    assert(rest[nul] == 0);
    lemma_position_is(rest, 0, nul);
    assert(rest.take(nul) =~= line);
    let space = entry.mode.len() as int;
    assert forall|j: int| 0 <= j < space implies line[j] != 0x20 by {
        assert(entry.mode.contains(line[j]));
    }
    lemma_position_is(line, 0x20, space);
    assert(line.take(space) =~= entry.mode);
    assert(line.skip(space + 1) =~= entry.name);
    assert(rest.subrange(nul + 1, nul + 21) =~= entry.digest);
}

/// The stored form of a list is that of its first entry, then that of
/// the others.
proof fn lemma_serialize_from_the_front(first: TreeEntryView, others: Seq<TreeEntryView>)
    ensures
        serialize(seq![first] + others) == first.bytes() + serialize(others),
    decreases others.len(),
{
    let all = seq![first] + others;
    if others.len() == 0 {
        assert(all.drop_last() =~= Seq::<TreeEntryView>::empty());
        assert(serialize(all.drop_last()) =~= Seq::<u8>::empty());
        assert(serialize(all) =~= first.bytes() + serialize(others));
    } else {
        lemma_serialize_from_the_front(first, others.drop_last());
        assert(all.drop_last() =~= seq![first] + others.drop_last());
        assert(all.last() == others.last());
        assert(serialize(all) =~= first.bytes() + serialize(others));
    }
}

/// Round trip: the stored form of readable entries reads back as those
/// entries, in their order.
pub proof fn lemma_read_tree_after_write(entries: Seq<TreeEntryView>)
    requires
        forall|i: int| 0 <= i < entries.len() ==> readable(#[trigger] entries[i]),
    ensures
        parse_tree(serialize(entries)) == Ok::<Seq<TreeEntryView>, StoreError>(entries),
    decreases entries.len(),
{
    if entries.len() == 0 {
        assert(parse_tree(serialize(entries)) matches Ok(read) && read =~= entries);
    } else {
        let first = entries[0];
        let others = entries.drop_first();
        assert(entries =~= seq![first] + others);
        lemma_serialize_from_the_front(first, others);
        assert(readable(first));
        lemma_parse_entry(first, serialize(others));
        assert forall|i: int| 0 <= i < others.len() implies readable(#[trigger] others[i]) by {
            assert(others[i] == entries[i + 1]);
        }
        lemma_read_tree_after_write(others);
        let content = serialize(entries);
        assert(content.skip(first.bytes().len() as int) =~= serialize(others));
    }
}

} // verus!
