//! A block: a run of entries in ascending key order, the unit that a table
//! reads and caches.
//!
//! On the wire a block is its entries, then the offset of each entry as a
//! `u16`, then the number of entries as a `u16`. An entry is the key's length
//! as a `u16`, the key, the value's length as a `u16`, the value.

pub mod builder;
pub mod iterator;

pub use builder::BlockBuilder;
pub use iterator::BlockIterator;

use crate::error::LsmError;
use crate::run::{Entry, sorted};
use crate::utils::{be16, put_u16, two_u8_to_u16, u16_of, SIZEOF_U16};
use vstd::prelude::*;
use vstd::slice::{slice_subrange, slice_to_vec};

verus! {

/// The bytes of one entry.
pub open spec fn entry_bytes(key: Seq<u8>, value: Seq<u8>) -> Seq<u8> {
    be16(key.len() as u16) + key + be16(value.len() as u16) + value
}

/// The entry that starts at `off` in `data`, if a whole entry stands there.
pub open spec fn parse_entry(data: Seq<u8>, off: int) -> Option<Entry> {
    if off < 0 || off + 2 > data.len() {
        None
    } else {
        let klen = u16_of(data[off], data[off + 1]) as int;
        if off + 2 + klen + 2 > data.len() {
            None
        } else {
            let vlen = u16_of(data[off + 2 + klen], data[off + 3 + klen]) as int;
            if off + 4 + klen + vlen > data.len() {
                None
            } else {
                Some(
                    (
                        data.subrange(off + 2, off + 2 + klen),
                        data.subrange(off + 4 + klen, off + 4 + klen + vlen),
                    ),
                )
            }
        }
    }
}

/// The bytes of a list of offsets: two for each, in order.
pub open spec fn offsets_bytes(offsets: Seq<u16>) -> Seq<u8> {
    Seq::new(
        2 * offsets.len(),
        |i: int|
            if i % 2 == 0 {
                (offsets[i / 2] / 256) as u8
            } else {
                (offsets[i / 2] % 256) as u8
            },
    )
}

/// The bytes of a block with the given entry region and offsets.
pub open spec fn encoded(data: Seq<u8>, offsets: Seq<u16>) -> Seq<u8> {
    data + offsets_bytes(offsets) + be16((offsets.len() % 65536) as u16)
}

/// The number of entries that the last two bytes of `buf` announce.
pub open spec fn announced(buf: Seq<u8>) -> int {
    u16_of(buf[buf.len() - 2], buf[buf.len() - 1]) as int
}

/// `buf` is long enough to hold the offsets that it announces.
pub open spec fn decodable(buf: Seq<u8>) -> bool {
    buf.len() >= 2 && 2 + 2 * announced(buf) <= buf.len()
}

/// The entry region of an encoded block.
pub open spec fn decoded_data(buf: Seq<u8>) -> Seq<u8> {
    buf.take(buf.len() - 2 - 2 * announced(buf))
}

/// The offsets of an encoded block.
pub open spec fn decoded_offsets(buf: Seq<u8>) -> Seq<u16> {
    let base = buf.len() - 2 - 2 * announced(buf);
    Seq::new(announced(buf) as nat, |i: int| u16_of(buf[base + 2 * i], buf[base + 2 * i + 1]))
}

/// The entry that the `i`-th offset points at, if there is such an offset
/// and a whole entry stands there.
pub open spec fn entry_at(data: Seq<u8>, offsets: Seq<u16>, i: int) -> Option<Entry> {
    if 0 <= i < offsets.len() {
        parse_entry(data, offsets[i] as int)
    } else {
        None
    }
}

/// Every offset points at a whole entry with a key that is not empty.
pub open spec fn all_parse(data: Seq<u8>, offsets: Seq<u16>) -> bool {
    forall|i: int|
        0 <= i < offsets.len() ==> {
            &&& (#[trigger] entry_at(data, offsets, i)) is Some
            &&& entry_at(data, offsets, i).unwrap().0.len() > 0
        }
}

/// The entries that the offsets point at, in the order of the offsets.
pub open spec fn entries_of(data: Seq<u8>, offsets: Seq<u16>) -> Seq<Entry> {
    Seq::new(offsets.len(), |i: int| entry_at(data, offsets, i).unwrap())
}

/// A sorted run of entries with the offset of each.
pub struct Block {
    pub data: Vec<u8>,
    pub offsets: Vec<u16>,
}

impl Block {
    /// The entry that the `i`-th offset points at.
    pub open spec fn entry(&self, i: int) -> Option<Entry> {
        entry_at(self.data@, self.offsets@, i)
    }

    /// Every offset points at a whole entry with a key that is not empty.
    pub open spec fn parses(&self) -> bool {
        all_parse(self.data@, self.offsets@)
    }

    /// The entries of the block, in the order of its offsets.
    pub open spec fn entries(&self) -> Seq<Entry> {
        entries_of(self.data@, self.offsets@)
    }

    /// The block parses and its keys ascend strictly.
    pub open spec fn wf(&self) -> bool {
        self.parses() && sorted(self.entries())
    }

    /// A block that is read back from the bytes of this block holds what
    /// this block holds: the same entry region, the same offsets, and so the
    /// same entries in the same order.
    pub proof fn lemma_round_trip(&self, back: &Block)
        requires
            self.offsets@.len() <= 65535,
            back.data@ == decoded_data(encoded(self.data@, self.offsets@)),
            back.offsets@ == decoded_offsets(encoded(self.data@, self.offsets@)),
        ensures
            decodable(encoded(self.data@, self.offsets@)),
            back.data@ == self.data@,
            back.offsets@ == self.offsets@,
            back.entries() == self.entries(),
            back.parses() == self.parses(),
    {
        lemma_decode_encoded(self.data@, self.offsets@);
    }

    /// The bytes of the block: entries, offsets, count.
    pub fn encode(&self) -> (buf: Vec<u8>)
        ensures
            buf@ == encoded(self.data@, self.offsets@),
    {
        let mut buf = self.data.clone();
        assert(buf@ =~= self.data@);
        let n = self.offsets.len();
        let mut i: usize = 0;
        while i < n
            invariant
                n == self.offsets.len(),
                i <= n,
                buf@ == self.data@ + offsets_bytes(self.offsets@.take(i as int)),
            decreases n - i,
        {
            let ghost before = buf@;
            put_u16(&mut buf, self.offsets[i]);
            proof {
                let prev = self.offsets@.take(i as int);
                let next = self.offsets@.take(i + 1);
                assert(offsets_bytes(next) =~= offsets_bytes(prev) + be16(self.offsets@[i as int]))
                    by {
                    assert forall|j: int| 0 <= j < 2 * next.len() implies offsets_bytes(next)[j]
                        == (offsets_bytes(prev) + be16(self.offsets@[i as int]))[j] by {
                        if j < 2 * i {
                            assert(next[j / 2] == prev[j / 2]);
                        } else {
                            assert(j / 2 == i);
                        }
                    }
                }
                assert(buf@ =~= self.data@ + offsets_bytes(next));
            }
            i += 1;
        }
        assert(self.offsets@.take(n as int) =~= self.offsets@);
        put_u16(&mut buf, (n % 65536) as u16);
        buf
    }

    /// Reads a block back from its bytes: the count at the end, the offsets
    /// before it, and the rest as the entry region. Fails when the bytes are
    /// too short to hold a count, or to hold the offsets that the count
    /// announces.
    pub fn decode(buf: &[u8]) -> (r: Result<Self, LsmError>)
        ensures
            r is Ok <==> decodable(buf@),
            r is Ok ==> r->Ok_0.data@ == decoded_data(buf@) && r->Ok_0.offsets@
                == decoded_offsets(buf@),
            r is Err ==> r->Err_0 == LsmError::Format,
    {
        let len = buf.len();
        if len < SIZEOF_U16 {
            return Err(LsmError::Format);
        }
        let n = two_u8_to_u16(slice_subrange(buf, len - SIZEOF_U16, len)) as usize;
        if n > (len - SIZEOF_U16) / SIZEOF_U16 {
            return Err(LsmError::Format);
        }
        let base = len - SIZEOF_U16 - n * SIZEOF_U16;
        let mut offsets: Vec<u16> = Vec::new();
        let mut i: usize = 0;
        while i < n
            invariant
                i <= n,
                n == announced(buf@),
                len == buf@.len(),
                base + 2 * n + 2 == len,
                offsets@ == decoded_offsets(buf@).take(i as int),
            decreases n - i,
        {
            let at = base + i * SIZEOF_U16;
            let off = two_u8_to_u16(slice_subrange(buf, at, at + SIZEOF_U16));
            offsets.push(off);
            assert(offsets@ =~= decoded_offsets(buf@).take(i + 1));
            i += 1;
        }
        assert(decoded_offsets(buf@).take(n as int) =~= decoded_offsets(buf@));
        let data = slice_to_vec(slice_subrange(buf, 0, base));
        Ok(Block { data, offsets })
    }
}

/// Decoding the bytes of a block gives back its entry region and its
/// offsets, as long as the count of entries fits the two bytes that hold it.
pub proof fn lemma_decode_encoded(data: Seq<u8>, offsets: Seq<u16>)
    requires
        offsets.len() <= 65535,
    ensures
        decodable(encoded(data, offsets)),
        decoded_data(encoded(data, offsets)) == data,
        decoded_offsets(encoded(data, offsets)) == offsets,
        entries_of(
            decoded_data(encoded(data, offsets)),
            decoded_offsets(encoded(data, offsets)),
        ) == entries_of(data, offsets),
{
    let buf = encoded(data, offsets);
    let n = offsets.len() as int;
    assert(buf.len() == data.len() + 2 * n + 2);
    assert(buf[buf.len() - 2] == be16(n as u16)[0]);
    assert(buf[buf.len() - 1] == be16(n as u16)[1]);
    assert(announced(buf) == n);
    assert(decoded_data(buf) =~= data);
    assert forall|i: int| 0 <= i < n implies decoded_offsets(buf)[i] == offsets[i] by {
        let base = data.len() as int;
        assert(buf[base + 2 * i] == offsets_bytes(offsets)[2 * i]);
        assert(buf[base + 2 * i + 1] == offsets_bytes(offsets)[2 * i + 1]);
        assert((2 * i) / 2 == i);
        assert((2 * i + 1) / 2 == i);
        assert((2 * i) % 2 == 0);
        assert((2 * i + 1) % 2 == 1);
    }
    assert(decoded_offsets(buf) =~= offsets);
}

/// An entry that parses in `data` parses the same with more bytes behind.
pub proof fn lemma_parse_entry_extends(data: Seq<u8>, more: Seq<u8>, off: int)
    requires
        parse_entry(data, off) is Some,
    ensures
        parse_entry(data + more, off) == parse_entry(data, off),
{
    let klen = u16_of(data[off], data[off + 1]) as int;
    let vlen = u16_of(data[off + 2 + klen], data[off + 3 + klen]) as int;
    let all = data + more;
    assert(all[off] == data[off]);
    assert(all[off + 1] == data[off + 1]);
    assert(all[off + 2 + klen] == data[off + 2 + klen]);
    assert(all[off + 3 + klen] == data[off + 3 + klen]);
    assert(all.subrange(off + 2, off + 2 + klen) =~= data.subrange(off + 2, off + 2 + klen));
    assert(all.subrange(off + 4 + klen, off + 4 + klen + vlen) =~= data.subrange(
        off + 4 + klen,
        off + 4 + klen + vlen,
    ));
}

/// The bytes of an entry, put behind `data`, parse as that entry.
pub proof fn lemma_parse_entry_bytes(data: Seq<u8>, key: Seq<u8>, value: Seq<u8>)
    requires
        key.len() <= 65535,
        value.len() <= 65535,
    ensures
        parse_entry(data + entry_bytes(key, value), data.len() as int) == Some((key, value)),
{
    let off = data.len() as int;
    let e = entry_bytes(key, value);
    let all = data + e;
    let klen = key.len() as int;
    let vlen = value.len() as int;
    assert(e.len() == 4 + klen + vlen);
    assert(all[off] == be16(klen as u16)[0]);
    assert(all[off + 1] == be16(klen as u16)[1]);
    assert(all[off + 2 + klen] == be16(vlen as u16)[0]);
    assert(all[off + 3 + klen] == be16(vlen as u16)[1]);
    assert(u16_of(all[off], all[off + 1]) == klen);
    assert(u16_of(all[off + 2 + klen], all[off + 3 + klen]) == vlen);
    assert(all.subrange(off + 2, off + 2 + klen) =~= key);
    assert(all.subrange(off + 4 + klen, off + 4 + klen + vlen) =~= value);
}

} // verus!
