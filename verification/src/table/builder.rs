//! The builder of a table: it lays entries out in blocks and writes the
//! index behind them.

use crate::block::{all_parse, encoded, entries_of, lemma_decode_encoded, BlockBuilder};
use crate::block::builder::{
    block_takes, cost_sum, entries_bytes, entry_cost, entry_offsets,
};
use crate::error::LsmError;
use crate::run::{Entry, sorted};
use crate::table::{
    block_entries, block_ok, blocks_ok, entries_from, footer_metas, footer_offset, footer_ok,
    lemma_parse_metas_bytes, metas_bytes, metas_fit, metas_view, region, BlockCache, BlockMeta,
    FileObject, MetaView, SsTable,
};
use crate::utils::{be32, lemma_be32_round_trip, put_slice, put_u32};
use std::sync::Arc;
use vstd::prelude::*;
use vstd::slice::slice_to_vec;

verus! {

/// The blocks of a table stay what they are when bytes are put behind them.
pub proof fn lemma_blocks_ok_extend(
    bytes: Seq<u8>,
    metas: Seq<MetaView>,
    end: int,
    more: Seq<u8>,
)
    requires
        blocks_ok(bytes, metas, end),
    ensures
        blocks_ok(bytes + more, metas, end),
        forall|i: int| entries_from(bytes + more, metas, end, i) == entries_from(bytes, metas, end, i),
        forall|i: int|
            0 <= i < metas.len() ==> #[trigger] region(bytes + more, metas, end, i) == region(
                bytes,
                metas,
                end,
                i,
            ),
{
    let all = bytes + more;
    assert forall|i: int| 0 <= i < metas.len() implies region(all, metas, end, i) == region(
        bytes,
        metas,
        end,
        i,
    ) by {
        assert(block_ok(bytes, metas, end, i));
        assert(region(all, metas, end, i) =~= region(bytes, metas, end, i));
    }
    assert forall|i: int| 0 <= i < metas.len() implies #[trigger] block_ok(all, metas, end, i) by {
        assert(block_ok(bytes, metas, end, i));
    }
    assert forall|i: int| entries_from(all, metas, end, i) == entries_from(bytes, metas, end, i) by {
        lemma_entries_from_same(all, bytes, metas, end, end, i);
    }
}

/// Two files whose blocks have the same bytes hold the same entries.
proof fn lemma_entries_from_same(
    a: Seq<u8>,
    b: Seq<u8>,
    metas: Seq<MetaView>,
    end_a: int,
    end_b: int,
    i: int,
)
    requires
        forall|j: int| 0 <= j < metas.len() ==> region(a, metas, end_a, j) == region(b, metas, end_b, j),
    ensures
        entries_from(a, metas, end_a, i) == entries_from(b, metas, end_b, i),
    decreases metas.len() - i,
{
    if 0 <= i < metas.len() {
        lemma_entries_from_same(a, b, metas, end_a, end_b, i + 1);
    }
}

/// The entries from block `i` on, in a table with one more block at the end,
/// are those of the table without it and then those of the new block.
proof fn lemma_entries_from_push(
    bytes: Seq<u8>,
    metas: Seq<MetaView>,
    more: Seq<u8>,
    meta: MetaView,
    i: int,
)
    requires
        0 <= i <= metas.len(),
        forall|j: int|
            0 <= j < metas.len() ==> region(
                bytes + more,
                metas.push(meta),
                (bytes + more).len() as int,
                j,
            ) == region(bytes, metas, bytes.len() as int, j),
    ensures
        entries_from(bytes + more, metas.push(meta), (bytes + more).len() as int, i)
            == entries_from(bytes, metas, bytes.len() as int, i) + block_entries(
            bytes + more,
            metas.push(meta),
            (bytes + more).len() as int,
            metas.len() as int,
        ),
    decreases metas.len() - i,
{
    let nb = bytes + more;
    let nm = metas.push(meta);
    let ne = nb.len() as int;
    let last = block_entries(nb, nm, ne, metas.len() as int);
    if i == metas.len() {
        assert(entries_from(nb, nm, ne, i + 1) =~= Seq::<Entry>::empty());
        assert(entries_from(bytes, metas, bytes.len() as int, i) =~= Seq::<Entry>::empty());
        assert(entries_from(nb, nm, ne, i) =~= last);
        assert(Seq::<Entry>::empty() + last =~= last);
    } else {
        lemma_entries_from_push(bytes, metas, more, meta, i + 1);
        assert(block_entries(nb, nm, ne, i) == block_entries(bytes, metas, bytes.len() as int, i));
        assert((block_entries(bytes, metas, bytes.len() as int, i) + entries_from(
            bytes,
            metas,
            bytes.len() as int,
            i + 1,
        )) + last =~= block_entries(bytes, metas, bytes.len() as int, i) + (entries_from(
            bytes,
            metas,
            bytes.len() as int,
            i + 1,
        ) + last));
    }
}

/// Putting the bytes of a block behind the blocks of a table, and the
/// block's offset and first key behind the index, adds the block's entries
/// to the end of the table's and leaves the others.
pub proof fn lemma_push_block(
    bytes: Seq<u8>,
    metas: Seq<MetaView>,
    data: Seq<u8>,
    offsets: Seq<u16>,
)
    requires
        blocks_ok(bytes, metas, bytes.len() as int),
        all_parse(data, offsets),
        0 < offsets.len() <= 65535,
    ensures
        blocks_ok(
            bytes + encoded(data, offsets),
            metas.push((bytes.len() as int, entries_of(data, offsets)[0].0)),
            (bytes + encoded(data, offsets)).len() as int,
        ),
        entries_from(
            bytes + encoded(data, offsets),
            metas.push((bytes.len() as int, entries_of(data, offsets)[0].0)),
            (bytes + encoded(data, offsets)).len() as int,
            0,
        ) == entries_from(bytes, metas, bytes.len() as int, 0) + entries_of(data, offsets),
{
    let more = encoded(data, offsets);
    let meta = (bytes.len() as int, entries_of(data, offsets)[0].0);
    let nb = bytes + more;
    let nm = metas.push(meta);
    let ne = nb.len() as int;
    let m = metas.len() as int;
    assert forall|j: int| 0 <= j < m implies region(nb, nm, ne, j) == region(
        bytes,
        metas,
        bytes.len() as int,
        j,
    ) by {
        assert(block_ok(bytes, metas, bytes.len() as int, j));
        assert(nm[j] == metas[j]);
        if j + 1 < m {
            assert(nm[j + 1] == metas[j + 1]);
        }
        assert(region(nb, nm, ne, j) =~= region(bytes, metas, bytes.len() as int, j));
    }
    assert(region(nb, nm, ne, m) =~= more);
    lemma_decode_encoded(data, offsets);
    assert forall|j: int| 0 <= j < nm.len() implies #[trigger] block_ok(nb, nm, ne, j) by {
        if j < m {
            assert(block_ok(bytes, metas, bytes.len() as int, j));
            assert(nm[j] == metas[j]);
            if j + 1 < m {
                assert(nm[j + 1] == metas[j + 1]);
            }
        }
    }
    lemma_entries_from_push(bytes, metas, more, meta, 0);
}

/// Putting the bytes of a block behind the blocks of a table, and the
/// block's offset behind the index, puts the block behind the blocks that
/// the table is laid out in.
pub proof fn lemma_push_block_laid(
    bytes: Seq<u8>,
    metas: Seq<MetaView>,
    blocks: Seq<Seq<Entry>>,
    block: Seq<Entry>,
    first_key: Seq<u8>,
)
    requires
        blocks_ok(bytes, metas, bytes.len() as int),
        blocks_laid(bytes, metas, bytes.len() as int, blocks),
        block_bytes(block).len() == cost_sum(block) + 2,
    ensures
        blocks_laid(
            bytes + block_bytes(block),
            metas.push((bytes.len() as int, first_key)),
            (bytes + block_bytes(block)).len() as int,
            blocks.push(block),
        ),
{
    let more = block_bytes(block);
    let nb = bytes + more;
    let nm = metas.push((bytes.len() as int, first_key));
    let ne = nb.len() as int;
    let m = metas.len() as int;
    let now = blocks.push(block);
    lemma_blocks_len_push(blocks, block);
    assert forall|i: int| 0 <= i < now.len() implies (#[trigger] nm[i]).0 == blocks_len(
        now.take(i),
    ) && region(nb, nm, ne, i) == block_bytes(now[i]) by {
        if i < m {
            assert(block_ok(bytes, metas, bytes.len() as int, i));
            assert(nm[i] == metas[i]);
            if i + 1 < m {
                assert(nm[i + 1] == metas[i + 1]);
            }
            assert(region(nb, nm, ne, i) =~= region(bytes, metas, bytes.len() as int, i));
            assert(now.take(i) == blocks.take(i));
        } else {
            assert(region(nb, nm, ne, i) =~= more);
            assert(now.take(i) == blocks.take(i));
            assert(blocks.take(i) =~= blocks);
        }
    }
}

/// The bytes of a table's file: the blocks, the index, and the offset of the
/// index.
pub open spec fn file_bytes(blocks: Seq<u8>, metas: Seq<MetaView>) -> Seq<u8> {
    blocks + metas_bytes(metas) + be32(blocks.len() as u32)
}

/// A file made of blocks, their index and the offset of the index holds the
/// blocks as they were, and ends with the index and its offset.
pub proof fn lemma_file(blocks: Seq<u8>, metas: Seq<MetaView>)
    requires
        blocks.len() <= u32::MAX,
        metas_fit(metas),
        blocks_ok(blocks, metas, blocks.len() as int),
    ensures
        footer_ok(file_bytes(blocks, metas)),
        footer_offset(file_bytes(blocks, metas)) == blocks.len(),
        footer_metas(file_bytes(blocks, metas)) == metas,
        file_bytes(blocks, metas).take(blocks.len() as int) == blocks,
        blocks_ok(file_bytes(blocks, metas), metas, blocks.len() as int),
        forall|i: int|
            entries_from(file_bytes(blocks, metas), metas, blocks.len() as int, i) == entries_from(
                blocks,
                metas,
                blocks.len() as int,
                i,
            ),
        forall|i: int|
            0 <= i < metas.len() ==> #[trigger] region(
                file_bytes(blocks, metas),
                metas,
                blocks.len() as int,
                i,
            ) == region(blocks, metas, blocks.len() as int, i),
{
    let offset = blocks.len() as u32;
    let tail = metas_bytes(metas) + be32(offset);
    let file = file_bytes(blocks, metas);
    assert(file =~= blocks + tail);
    lemma_blocks_ok_extend(blocks, metas, blocks.len() as int, tail);
    lemma_be32_round_trip(offset);
    let n = file.len() as int;
    assert(n == blocks.len() + metas_bytes(metas).len() + 4);
    assert(file[n - 4] == be32(offset)[0]);
    assert(file[n - 3] == be32(offset)[1]);
    assert(file[n - 2] == be32(offset)[2]);
    assert(file[n - 1] == be32(offset)[3]);
    assert(footer_offset(file) == blocks.len());
    assert(file.subrange(blocks.len() as int, n - 4) =~= metas_bytes(metas));
    lemma_parse_metas_bytes(metas);
    assert(file.take(blocks.len() as int) =~= blocks);
}

/// How a builder with blocks of `size` bytes lays out a run of entries: the
/// blocks that are full, and the entries of the block that is still open.
pub open spec fn split(entries: Seq<Entry>, size: int) -> (Seq<Seq<Entry>>, Seq<Entry>)
    decreases entries.len(),
{
    if entries.len() == 0 {
        (Seq::empty(), Seq::empty())
    } else {
        let before = split(entries.drop_last(), size);
        let entry = entries.last();
        if before.1.len() == 0 || block_takes(before.1, entry, size) {
            (before.0, before.1.push(entry))
        } else {
            (before.0.push(before.1), seq![entry])
        }
    }
}

/// The blocks of the table that a builder makes of a run of entries.
pub open spec fn blocks_of(entries: Seq<Entry>, size: int) -> Seq<Seq<Entry>> {
    let laid = split(entries, size);
    if laid.1.len() == 0 {
        laid.0
    } else {
        laid.0.push(laid.1)
    }
}

/// The bytes that a list of blocks takes.
pub open spec fn blocks_len(blocks: Seq<Seq<Entry>>) -> int
    decreases blocks.len(),
{
    if blocks.len() == 0 {
        0
    } else {
        blocks_len(blocks.drop_last()) + cost_sum(blocks.last()) + 2
    }
}

/// The bytes that the blocks of a table take, which is the offset of the
/// table's index. A table without entries has one block, which is empty.
pub open spec fn blocks_bytes(entries: Seq<Entry>, size: int) -> int {
    blocks_len(split(entries, size).0) + cost_sum(split(entries, size).1) + 2
}

/// The bytes of a block that holds the entries `block`.
pub open spec fn block_bytes(block: Seq<Entry>) -> Seq<u8> {
    encoded(entries_bytes(block), entry_offsets(block))
}

/// The blocks that the index lists are the blocks `blocks`, one behind the
/// other from the start of `bytes` up to `end`.
pub open spec fn blocks_laid(
    bytes: Seq<u8>,
    metas: Seq<MetaView>,
    end: int,
    blocks: Seq<Seq<Entry>>,
) -> bool {
    &&& metas.len() == blocks.len()
    &&& end == blocks_len(blocks)
    &&& forall|i: int|
        0 <= i < blocks.len() ==> {
            &&& (#[trigger] metas[i]).0 == blocks_len(blocks.take(i))
            &&& region(bytes, metas, end, i) == block_bytes(blocks[i])
        }
}

/// The bytes of a list of blocks with one more block are those of the list
/// and then those of the block.
pub proof fn lemma_blocks_len_push(blocks: Seq<Seq<Entry>>, block: Seq<Entry>)
    ensures
        blocks_len(blocks.push(block)) == blocks_len(blocks) + cost_sum(block) + 2,
        forall|i: int| 0 <= i <= blocks.len() ==> #[trigger] blocks.push(block).take(i) == blocks.take(i),
{
    assert(blocks.push(block).drop_last() =~= blocks);
    assert forall|i: int| 0 <= i <= blocks.len() implies #[trigger] blocks.push(block).take(i)
        == blocks.take(i) by {
        assert(blocks.push(block).take(i) =~= blocks.take(i));
    }
}

/// Builds a table from entries that come in ascending key order.
pub struct SsTableBuilder {
    pub meta: Vec<BlockMeta>,
    pub data: Vec<u8>,
    block_builder: BlockBuilder,
    block_size: usize,
}

impl SsTableBuilder {
    /// The index of the blocks that are finished and stand in `data`.
    closed spec fn finished(&self) -> Seq<MetaView> {
        if self.block_builder.entries().len() == 0 {
            metas_view(self.meta@)
        } else {
            metas_view(self.meta@).drop_last()
        }
    }

    /// Every first key in the index is short enough for its length field.
    closed spec fn keys_fit(&self) -> bool {
        forall|i: int| 0 <= i < self.meta@.len() ==> (#[trigger] self.meta@[i]).first_key@.len() <= 65535
    }

    /// What the builder keeps true of itself.
    pub closed spec fn wf(&self) -> bool {
        &&& self.block_builder.wf()
        &&& self.block_builder.target_size() == self.block_size
        &&& self.keys_fit()
        &&& blocks_ok(self.data@, self.finished(), self.data@.len() as int)
        &&& self.block_builder.entries().len() > 0 ==> {
            &&& self.meta@.len() > 0
            &&& self.meta@.last().offset == self.data@.len()
            &&& self.meta@.last().first_key@ == self.block_builder.entries()[0].0
        }
        &&& self.block_builder.entries().len() == 0 ==> self.meta@.len() == 0 && self.data@.len()
            == 0
        &&& self.laid_out()
    }

    /// The blocks stand as `split` says.
    closed spec fn laid_out(&self) -> bool {
        let open = self.block_builder.entries();
        let laid = split(self.entries(), self.block_size as int);
        &&& laid.1 == open
        &&& blocks_laid(self.data@, self.finished(), self.data@.len() as int, laid.0)
    }

    /// The entries added so far, in order.
    pub closed spec fn entries(&self) -> Seq<Entry> {
        entries_from(self.data@, self.finished(), self.data@.len() as int, 0)
            + self.block_builder.entries()
    }

    /// The target size of a block.
    pub closed spec fn target_size(&self) -> int {
        self.block_size as int
    }

    /// The number of bytes that the blocks take that are full.
    pub open spec fn finished_size(&self) -> int {
        blocks_len(split(self.entries(), self.target_size()).0)
    }

    /// The number of bytes that all the blocks take once the open block is
    /// finished too.
    pub open spec fn blocks_size(&self) -> int {
        blocks_bytes(self.entries(), self.target_size())
    }

    /// The open block is finished and a new one not yet begun.
    closed spec fn flushed(&self) -> bool {
        &&& self.block_builder.wf()
        &&& self.block_builder.entries().len() == 0
        &&& self.block_builder.target_size() == self.block_size
        &&& self.keys_fit()
        &&& blocks_ok(self.data@, metas_view(self.meta@), self.data@.len() as int)
    }

    /// The blocks of the builder, all of them finished, are `blocks`.
    closed spec fn holds_blocks(&self, blocks: Seq<Seq<Entry>>) -> bool {
        blocks_laid(self.data@, metas_view(self.meta@), self.data@.len() as int, blocks)
    }

    /// A builder of a table whose blocks have about `block_size` bytes.
    pub fn new(block_size: usize) -> (b: Self)
        ensures
            b.wf(),
            b.entries() == Seq::<Entry>::empty(),
            b.target_size() == block_size,
            b.finished_size() == 0,
    {
        let b = Self {
            meta: Vec::new(),
            data: Vec::new(),
            block_builder: BlockBuilder::new(block_size),
            block_size,
        };
        proof {
            assert(b.finished() =~= Seq::<MetaView>::empty());
            assert(b.entries() =~= Seq::<Entry>::empty());
            assert(b.block_builder.entries() =~= Seq::<Entry>::empty());
        }
        b
    }

    /// Adds an entry to the table: to the open block, or, when that block
    /// is full, to a new block after it.
    pub fn add(&mut self, key: &[u8], value: &[u8])
        requires
            old(self).wf(),
            0 < key@.len() <= 65535,
            value@.len() <= 65535,
        ensures
            final(self).wf(),
            final(self).entries() == old(self).entries().push((key@, value@)),
            final(self).target_size() == old(self).target_size(),
    {
        let ghost entry = (key@, value@);
        if self.block_builder.is_empty() {
            self.meta.push(BlockMeta { offset: self.data.len(), first_key: slice_to_vec(key) });
            let r = self.block_builder.add(key, value);
            proof {
                assert(self.finished() =~= Seq::<MetaView>::empty());
                assert(old(self).finished() =~= Seq::<MetaView>::empty());
                assert(self.block_builder.entries()[0] == entry);
                assert(self.entries() =~= old(self).entries().push(entry));
                assert(self.entries().drop_last() =~= old(self).entries());
                assert(self.block_builder.entries().drop_last()
                    =~= old(self).block_builder.entries());
                assert(self.block_builder.entries() =~= old(self).block_builder.entries().push(
                    entry,
                ));
            }
            return ;
        }
        let r = self.block_builder.add(key, value);
        if r {
            proof {
                assert(self.block_builder.entries()[0] == old(self).block_builder.entries()[0]);
                assert(self.entries() =~= old(self).entries().push(entry));
                assert(self.entries().drop_last() =~= old(self).entries());
                assert(self.block_builder.entries().drop_last()
                    =~= old(self).block_builder.entries());
            }
            return ;
        }
        self.finish_block();
        let ghost flushed_meta = self.meta@;
        self.meta.push(BlockMeta { offset: self.data.len(), first_key: slice_to_vec(key) });
        let r = self.block_builder.add(key, value);
        proof {
            assert(metas_view(self.meta@).drop_last() =~= metas_view(flushed_meta));
            assert(self.block_builder.entries()[0] == entry);
            assert(self.keys_fit()) by {
                assert forall|i: int| 0 <= i < self.meta@.len() implies (
                #[trigger] self.meta@[i]).first_key@.len() <= 65535 by {
                    if i < flushed_meta.len() {
                        assert(self.meta@[i] == flushed_meta[i]);
                    }
                }
            }
            assert(self.entries() =~= old(self).entries().push(entry));
            assert(self.entries().drop_last() =~= old(self).entries());
            let open = self.block_builder.entries();
            let before = old(self).block_builder.entries();
            assert(open =~= seq![entry]);
            assert(open.drop_last() =~= Seq::<Entry>::empty());
            assert(cost_sum(open.drop_last()) == 0);
            assert(cost_sum(open) == entry_cost(key@, value@));
            assert(!block_takes(before, entry, self.block_size as int));
            let laid = split(old(self).entries(), self.block_size as int);
            assert(laid.1 == before);
            assert(split(self.entries(), self.block_size as int) == (laid.0.push(before), open));
            assert(self.finished() == metas_view(flushed_meta));
        }
    }

    /// Closes the open block: puts its bytes behind the finished blocks and
    /// opens an empty block.
    fn finish_block(&mut self)
        requires
            old(self).wf(),
        ensures
            final(self).flushed(),
            final(self).meta@ == old(self).meta@,
            final(self).block_size == old(self).block_size,
            entries_from(
                final(self).data@,
                metas_view(final(self).meta@),
                final(self).data@.len() as int,
                0,
            ) == old(self).entries(),
            final(self).data@.len() == old(self).blocks_size(),
            old(self).block_builder.entries().len() > 0 ==> final(self).holds_blocks(
                split(old(self).entries(), old(self).block_size as int).0.push(
                    old(self).block_builder.entries(),
                ),
            ),
            old(self).block_builder.entries().len() == 0 ==> final(self).data@ == block_bytes(
                Seq::<Entry>::empty(),
            ),
    {
        let mut block_builder = BlockBuilder::new(self.block_size);
        std::mem::swap(&mut self.block_builder, &mut block_builder);
        let block = block_builder.build();
        let bytes = block.encode();
        put_slice(&mut self.data, bytes.as_slice());
        proof {
            let metas = old(self).finished();
            let open = old(self).block_builder.entries();
            let full = split(old(self).entries(), old(self).block_size as int).0;
            assert(bytes@ == block_bytes(open));
            assert(bytes@.len() == cost_sum(open) + 2);
            if block.offsets@.len() > 0 {
                lemma_push_block(old(self).data@, metas, block.data@, block.offsets@);
                assert(metas_view(self.meta@) =~= metas.push(
                    (old(self).data@.len() as int, block.entries()[0].0),
                ));
                lemma_push_block_laid(old(self).data@, metas, full, open, block.entries()[0].0);
            } else {
                assert(metas_view(self.meta@) =~= Seq::<MetaView>::empty());
                assert(entries_from(self.data@, metas_view(self.meta@), self.data@.len() as int, 0)
                    =~= Seq::<Entry>::empty());
                assert(old(self).entries() =~= Seq::<Entry>::empty());
                assert(self.data@ =~= bytes@);
            }
        }
    }

    /// The number of bytes that the finished blocks take.
    pub fn estimated_size(&self) -> (n: usize)
        requires
            self.wf(),
        ensures
            n == self.finished_size(),
    {
        self.data.len()
    }

    /// Finishes the table: closes the open block, puts the index behind the
    /// blocks and the offset of the index behind that, and hands the bytes
    /// to a file object. Fails when the blocks take more bytes than an
    /// offset of 32 bits can address.
    pub fn build(self, id: usize, block_cache: Option<Arc<BlockCache>>, path: &str) -> (r: Result<
        SsTable,
        LsmError,
    >)
        requires
            self.wf(),
        ensures
            r is Ok <==> self.blocks_size() <= u32::MAX,
            r is Err ==> r->Err_0 == LsmError::TooLarge,
            r is Ok ==> {
                let table = r->Ok_0;
                &&& table.layout_ok()
                &&& table.entries() == self.entries()
                &&& (sorted(self.entries()) ==> table.wf())
                &&& (self.entries().len() > 0 ==> table.metas().len() > 0)
                &&& table.id() == id
                &&& table.cached() == (block_cache is Some)
                &&& footer_ok(table.bytes())
                &&& table.meta_offset() == footer_offset(table.bytes())
                &&& table.metas() == footer_metas(table.bytes())
                &&& table.built_from(self.entries(), self.target_size())
            },
    {
        let mut this = self;
        this.finish_block();
        let block_meta_offset = this.data.len();
        if block_meta_offset as u64 > u32::MAX as u64 {
            return Err(LsmError::TooLarge);
        }
        let ghost blocks = this.data@;
        let ghost metas = metas_view(this.meta@);
        let mut buf = this.data;
        BlockMeta::encode_block_meta(this.meta.as_slice(), &mut buf);
        put_u32(&mut buf, block_meta_offset as u32);
        proof {
            assert(metas_fit(metas)) by {
                assert forall|i: int| 0 <= i < metas.len() implies 0 <= (#[trigger] metas[i]).0
                    <= u32::MAX && metas[i].1.len() <= u16::MAX by {
                    assert(block_ok(blocks, metas, blocks.len() as int, i));
                    assert(this.meta@[i].first_key@.len() <= 65535);
                }
            }
            lemma_file(blocks, metas);
            assert(buf@ == file_bytes(blocks, metas));
            if self.entries().len() > 0 {
                if metas.len() == 0 {
                    assert(entries_from(blocks, metas, blocks.len() as int, 0)
                        =~= Seq::<Entry>::empty());
                }
                let laid = blocks_of(self.entries(), self.block_size as int);
                assert(blocks_laid(blocks, metas, blocks.len() as int, laid));
            }
        }
        let file = match FileObject::create(path, buf) {
            Ok(file) => file,
            Err(e) => {
                return Err(e);
            },
        };
        Ok(SsTable::assemble(file, this.meta, block_meta_offset, id, block_cache))
    }

    /// Finishes the table without a cache, under the id 0.
    pub fn build_for_test(self, path: &str) -> (r: Result<SsTable, LsmError>)
        requires
            self.wf(),
        ensures
            r is Ok <==> self.blocks_size() <= u32::MAX,
            r is Err ==> r->Err_0 == LsmError::TooLarge,
            r is Ok ==> {
                let table = r->Ok_0;
                &&& table.layout_ok()
                &&& table.entries() == self.entries()
                &&& (sorted(self.entries()) ==> table.wf())
                &&& (self.entries().len() > 0 ==> table.metas().len() > 0)
                &&& table.id() == 0
                &&& !table.cached()
                &&& footer_ok(table.bytes())
                &&& table.meta_offset() == footer_offset(table.bytes())
                &&& table.metas() == footer_metas(table.bytes())
                &&& table.built_from(self.entries(), self.target_size())
            },
    {
        self.build(0, None, path)
    }
}

} // verus!
