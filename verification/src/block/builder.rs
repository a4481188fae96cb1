//! The builder of a block: it takes entries until the block is full.

use crate::block::{
    all_parse, entries_of, entry_at, entry_bytes, lemma_parse_entry_bytes,
    lemma_parse_entry_extends, Block,
};
use crate::run::Entry;
use crate::utils::{put_slice, put_u16, SIZEOF_U16};
use vstd::prelude::*;

verus! {

/// Packs entries into one block of bounded size.
pub struct BlockBuilder {
    occupy_size: usize,
    block_size: usize,
    data: Vec<u8>,
    offsets: Vec<u16>,
}

/// The bytes of a run of entries, one entry after the other.
#[verifier::opaque]
pub open spec fn entries_bytes(entries: Seq<Entry>) -> Seq<u8>
    decreases entries.len(),
{
    if entries.len() == 0 {
        Seq::empty()
    } else {
        entries_bytes(entries.drop_last()) + entry_bytes(entries.last().0, entries.last().1)
    }
}

/// Where each entry of a run starts among the bytes of the run.
#[verifier::opaque]
pub open spec fn entry_offsets(entries: Seq<Entry>) -> Seq<u16> {
    Seq::new(entries.len(), |i: int| entries_bytes(entries.take(i)).len() as u16)
}

/// The bytes that an entry takes in a block: its framing, its key and value,
/// and its slot among the offsets.
pub open spec fn entry_cost(key: Seq<u8>, value: Seq<u8>) -> int {
    (key.len() + value.len() + 6) as int
}

/// The bytes that a run of entries takes in one block, without the count.
pub open spec fn cost_sum(entries: Seq<Entry>) -> int
    decreases entries.len(),
{
    if entries.len() == 0 {
        0
    } else {
        cost_sum(entries.drop_last()) + entry_cost(entries.last().0, entries.last().1)
    }
}

/// Whether a block that holds `open` takes one more entry: the entry with
/// its offset still leaves room for the count within `size`, and the entry's
/// offset fits sixteen bits.
pub open spec fn block_takes(open: Seq<Entry>, entry: Entry, size: int) -> bool {
    &&& cost_sum(open) + entry_cost(entry.0, entry.1) + 2 <= size
    &&& cost_sum(open) - 2 * open.len() <= 65535
}

impl BlockBuilder {
    /// The size that the finished block should not exceed.
    pub closed spec fn target_size(&self) -> int {
        self.block_size as int
    }

    /// The entries admitted so far, in order.
    pub closed spec fn entries(&self) -> Seq<Entry> {
        entries_of(self.data@, self.offsets@)
    }

    /// The bytes that the admitted entries take: entries and offsets.
    pub open spec fn occupied(&self) -> int {
        cost_sum(self.entries())
    }

    /// What the builder keeps true of itself.
    pub closed spec fn wf(&self) -> bool {
        &&& all_parse(self.data@, self.offsets@)
        &&& self.occupy_size == self.data@.len() + 2 * self.offsets@.len()
        &&& self.occupy_size == cost_sum(self.entries())
        &&& self.data@.len() >= 5 * self.offsets@.len()
        &&& self.data@.len() <= 65535 + 131074
        &&& self.offsets@.len() == 0 ==> self.data@.len() == 0
        &&& self.data@ == entries_bytes(self.entries())
        &&& self.offsets@ == entry_offsets(self.entries())
    }

    /// Whether `add` takes the entry: always into an empty builder; else when
    /// the entry with its offset still leaves room for the count within the
    /// target size, and the entry's offset fits sixteen bits.
    pub open spec fn admits(&self, key: Seq<u8>, value: Seq<u8>) -> bool {
        self.entries().len() == 0 || block_takes(self.entries(), (key, value), self.target_size())
    }

    /// A block of at most 65535 bytes takes every entry that, with its
    /// offset and the count, fits the target size; it turns away every other
    /// entry but the first.
    pub proof fn lemma_capacity(&self, key: Seq<u8>, value: Seq<u8>)
        requires
            self.wf(),
            self.target_size() <= 65535,
        ensures
            self.admits(key, value) <==> self.entries().len() == 0 || self.occupied() + entry_cost(
                key,
                value,
            ) + 2 <= self.target_size(),
    {
    }

    /// A builder for a block of about `block_size` bytes.
    pub fn new(block_size: usize) -> (b: Self)
        ensures
            b.wf(),
            b.entries() == Seq::<Entry>::empty(),
            b.target_size() == block_size,
    {
        let b = Self { occupy_size: 0, block_size, data: Vec::new(), offsets: Vec::new() };
        proof {
            reveal(entries_bytes);
            reveal(entry_offsets);
            assert(b.entries() =~= Seq::<Entry>::empty());
            assert(b.offsets@ =~= entry_offsets(b.entries()));
        }
        b
    }

    /// Adds an entry to the block, or returns false and changes nothing when
    /// the block is full.
    #[must_use]
    pub fn add(&mut self, key: &[u8], value: &[u8]) -> (admitted: bool)
        requires
            old(self).wf(),
            0 < key@.len() <= 65535,
            value@.len() <= 65535,
        ensures
            final(self).wf(),
            admitted == old(self).admits(key@, value@),
            admitted ==> final(self).entries() == old(self).entries().push((key@, value@)),
            !admitted ==> *final(self) == *old(self),
            final(self).target_size() == old(self).target_size(),
    {
        let entry_total_size = self.entry_size(key, value) + SIZEOF_U16;
        if !self.is_empty() && (self.data.len() > 65535 || self.occupy_size + entry_total_size
            + SIZEOF_U16 > self.block_size) {
            return false;
        }
        let offset = self.data.len();
        let encoded = self.entry_encode(key, value);
        put_slice(&mut self.data, encoded.as_slice());
        self.offsets.push(offset as u16);
        self.occupy_size += entry_total_size;
        proof {
            let entry = (key@, value@);
            assert(self.data@ == old(self).data@ + entry_bytes(key@, value@));
            assert(self.offsets@ == old(self).offsets@.push(old(self).data@.len() as u16));
            lemma_push_entry(old(self).data@, old(self).offsets@, key@, value@);
            assert(self.entries() == old(self).entries().push(entry));
            lemma_push_bytes(old(self).entries(), entry);
            assert(self.data@ == entries_bytes(self.entries()));
            assert(self.offsets@ == entry_offsets(self.entries()));
            assert(self.entries().drop_last() =~= old(self).entries());
        }
        true
    }

    /// Whether no entry has been added.
    pub fn is_empty(&self) -> (b: bool)
        ensures
            b == (self.entries().len() == 0),
    {
        self.offsets.is_empty()
    }

    /// The finished block.
    pub fn build(self) -> (block: Block)
        requires
            self.wf(),
        ensures
            block.parses(),
            block.entries() == self.entries(),
            block.data@ == entries_bytes(self.entries()),
            block.offsets@ == entry_offsets(self.entries()),
            block.offsets@.len() <= 65535,
            block.data@.len() + 2 * block.offsets@.len() == cost_sum(self.entries()),
    {
        Block { data: self.data, offsets: self.offsets }
    }

    /// The bytes of one entry: the key's length, the key, the value's length,
    /// the value.
    fn entry_encode(&self, key: &[u8], value: &[u8]) -> (arr: Vec<u8>)
        requires
            key@.len() <= 65535,
            value@.len() <= 65535,
        ensures
            arr@ == entry_bytes(key@, value@),
    {
        let mut arr = Vec::new();
        put_u16(&mut arr, key.len() as u16);
        put_slice(&mut arr, key);
        put_u16(&mut arr, value.len() as u16);
        put_slice(&mut arr, value);
        assert(arr@ =~= entry_bytes(key@, value@));
        arr
    }

    /// The number of bytes that an entry takes in the entry region.
    fn entry_size(&self, key: &[u8], value: &[u8]) -> (n: usize)
        requires
            key@.len() <= 65535,
            value@.len() <= 65535,
        ensures
            n == key@.len() + value@.len() + 4,
    {
        SIZEOF_U16 + key.len() + SIZEOF_U16 + value.len()
    }
}

/// The bytes and the offsets of a run with one more entry are those of the
/// run, then the bytes of the entry and the offset at which they start.
pub proof fn lemma_push_bytes(entries: Seq<Entry>, entry: Entry)
    ensures
        entries_bytes(entries.push(entry)) == entries_bytes(entries) + entry_bytes(
            entry.0,
            entry.1,
        ),
        entry_offsets(entries.push(entry)) == entry_offsets(entries).push(
            entries_bytes(entries).len() as u16,
        ),
{
    reveal(entries_bytes);
    reveal(entry_offsets);
    let now = entries.push(entry);
    assert(now.drop_last() =~= entries);
    assert forall|i: int| 0 <= i < now.len() implies entry_offsets(now)[i] == entry_offsets(
        entries,
    ).push(entries_bytes(entries).len() as u16)[i] by {
        if i < entries.len() {
            assert(now.take(i) =~= entries.take(i));
        } else {
            assert(now.take(i) =~= entries);
        }
    }
    assert(entry_offsets(now) =~= entry_offsets(entries).push(
        entries_bytes(entries).len() as u16,
    ));
}

/// Putting the bytes of an entry behind the entry region, and its offset
/// behind the offsets, adds that entry to the end and leaves the others.
pub proof fn lemma_push_entry(data: Seq<u8>, offsets: Seq<u16>, key: Seq<u8>, value: Seq<u8>)
    requires
        all_parse(data, offsets),
        data.len() <= 65535,
        0 < key.len() <= 65535,
        value.len() <= 65535,
    ensures
        all_parse(data + entry_bytes(key, value), offsets.push(data.len() as u16)),
        entries_of(data + entry_bytes(key, value), offsets.push(data.len() as u16)) == entries_of(
            data,
            offsets,
        ).push((key, value)),
{
    let d1 = data + entry_bytes(key, value);
    let o1 = offsets.push(data.len() as u16);
    lemma_parse_entry_bytes(data, key, value);
    assert forall|i: int| 0 <= i < o1.len() implies {
        &&& (#[trigger] entry_at(d1, o1, i)) is Some
        &&& entry_at(d1, o1, i).unwrap().0.len() > 0
        &&& entry_at(d1, o1, i) == if i < offsets.len() {
            entry_at(data, offsets, i)
        } else {
            Some((key, value))
        }
    } by {
        if i < offsets.len() {
            assert(entry_at(data, offsets, i) is Some);
            lemma_parse_entry_extends(data, entry_bytes(key, value), offsets[i] as int);
        }
    }
    assert(entries_of(d1, o1) =~= entries_of(data, offsets).push((key, value)));
}

} // verus!
