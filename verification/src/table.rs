//! A sorted string table: blocks of entries one after another, then the
//! index of the blocks, then the offset at which the index starts.
//!
//! An entry of the index is the block's offset as a `u32`, the length of the
//! block's first key as a `u16`, and that key.

pub mod builder;
pub mod iterator;
mod validate;

pub use builder::SsTableBuilder;
pub use iterator::SsTableIterator;

use crate::block::{all_parse, decodable, decoded_data, decoded_offsets, entries_of, Block};
use crate::error::LsmError;
use crate::key::{key_le, key_lt, key_order, KeyOrder};
use crate::run::{Entry, sorted};
use crate::utils::{
    be16, be32, get_u16, get_u32, lemma_be16_round_trip, lemma_be32_round_trip, put_slice,
    put_u16, put_u32, u16_of, u32_of, SIZEOF_U16, SIZEOF_USIZE,
};
use std::sync::Arc;
use vstd::prelude::*;
use vstd::slice::{slice_subrange, slice_to_vec};

verus! {

/// Where a block starts in the table's file, and the block's first key.
pub struct BlockMeta {
    /// Offset of this data block.
    pub offset: usize,
    /// The first key of the data block.
    pub first_key: Vec<u8>,
}

/// An index entry as contracts speak of it: the offset and the first key.
pub type MetaView = (int, Seq<u8>);

/// The index entries of a list of `BlockMeta`.
pub open spec fn metas_view(metas: Seq<BlockMeta>) -> Seq<MetaView> {
    Seq::new(metas.len(), |i: int| (metas[i].offset as int, metas[i].first_key@))
}

/// The bytes of one index entry. An offset or a length that does not fit its
/// field is cut to the field's width.
pub open spec fn meta_bytes(m: MetaView) -> Seq<u8> {
    be32((m.0 % 0x1_0000_0000) as u32) + be16((m.1.len() % 0x1_0000) as u16) + m.1
}

/// The bytes of an index: its entries one after another.
pub open spec fn metas_bytes(metas: Seq<MetaView>) -> Seq<u8>
    decreases metas.len(),
{
    if metas.len() == 0 {
        Seq::empty()
    } else {
        meta_bytes(metas[0]) + metas_bytes(metas.skip(1))
    }
}

/// The index that `buf` spells, if it is a whole number of index entries.
pub open spec fn parse_metas(buf: Seq<u8>) -> Option<Seq<MetaView>>
    decreases buf.len(),
{
    if buf.len() == 0 {
        Some(Seq::empty())
    } else if buf.len() < 6 {
        None
    } else {
        let key_len = u16_of(buf[4], buf[5]) as int;
        if 6 + key_len > buf.len() {
            None
        } else {
            match parse_metas(buf.skip(6 + key_len)) {
                None => None,
                Some(others) => Some(
                    seq![(u32_of(buf[0], buf[1], buf[2], buf[3]) as int, buf.subrange(6, 6 + key_len))]
                        + others,
                ),
            }
        }
    }
}

/// Every offset fits 32 bits and every first key's length fits 16.
pub open spec fn metas_fit(metas: Seq<MetaView>) -> bool {
    forall|i: int|
        0 <= i < metas.len() ==> 0 <= (#[trigger] metas[i]).0 <= u32::MAX && metas[i].1.len()
            <= u16::MAX
}

/// The bytes of an index with one more entry are the bytes of the index and
/// then those of the entry.
pub proof fn lemma_metas_bytes_push(metas: Seq<MetaView>, m: MetaView)
    ensures
        metas_bytes(metas.push(m)) == metas_bytes(metas) + meta_bytes(m),
    decreases metas.len(),
{
    if metas.len() == 0 {
        let one = metas.push(m);
        assert(one.skip(1) =~= Seq::<MetaView>::empty());
        assert(metas_bytes(one.skip(1)) =~= Seq::<u8>::empty());
        assert(one[0] == m);
        assert(metas_bytes(one) == meta_bytes(m) + metas_bytes(one.skip(1)));
        assert(metas_bytes(one) =~= metas_bytes(metas) + meta_bytes(m));
    } else {
        assert(metas.push(m)[0] == metas[0]);
        assert(metas.push(m).skip(1) =~= metas.skip(1).push(m));
        lemma_metas_bytes_push(metas.skip(1), m);
        assert(metas_bytes(metas.push(m)) =~= metas_bytes(metas) + meta_bytes(m));
    }
}

/// The bytes of an index entry, with more bytes behind, parse as that entry
/// and whatever the bytes behind parse as.
#[verifier::rlimit(50)]
pub proof fn lemma_parse_meta_bytes(m: MetaView, tail: Seq<u8>)
    requires
        0 <= m.0 <= u32::MAX,
        m.1.len() <= u16::MAX,
    ensures
        parse_metas(meta_bytes(m) + tail) == match parse_metas(tail) {
            None => None,
            Some(others) => Some(seq![m] + others),
        },
{
    let offset = be32(m.0 as u32);
    let len = be16(m.1.len() as u16);
    let key_len = m.1.len() as int;
    assert(m.0 % 0x1_0000_0000 == m.0);
    assert(key_len % 0x1_0000 == key_len);
    let head = meta_bytes(m);
    assert(head == offset + len + m.1);
    let buf = head + tail;
    lemma_be32_round_trip(m.0 as u32);
    lemma_be16_round_trip(m.1.len() as u16);
    assert(offset.len() == 4 && len.len() == 2);
    assert(head.len() == 6 + key_len);
    assert(buf.len() == 6 + key_len + tail.len());
    assert(buf[0] == offset[0] && buf[1] == offset[1] && buf[2] == offset[2] && buf[3]
        == offset[3]);
    assert(buf[4] == len[0] && buf[5] == len[1]);
    let read_len = u16_of(buf[4], buf[5]) as int;
    assert(read_len == key_len);
    let read_offset = u32_of(buf[0], buf[1], buf[2], buf[3]) as int;
    assert(read_offset == m.0);
    assert(buf.skip(6 + read_len) =~= tail);
    assert(buf.subrange(6, 6 + read_len) =~= m.1);
}

/// Reading back the bytes of an index gives the index, as long as its
/// offsets and key lengths fit their fields.
pub proof fn lemma_parse_metas_bytes(metas: Seq<MetaView>)
    requires
        metas_fit(metas),
    ensures
        parse_metas(metas_bytes(metas)) == Some(metas),
    decreases metas.len(),
{
    if metas.len() == 0 {
    } else {
        let rest = metas.skip(1);
        assert(metas_fit(rest)) by {
            assert forall|i: int| 0 <= i < rest.len() implies 0 <= (#[trigger] rest[i]).0
                <= u32::MAX && rest[i].1.len() <= u16::MAX by {
                assert(rest[i] == metas[i + 1]);
            }
        }
        lemma_parse_metas_bytes(rest);
        lemma_parse_meta_bytes(metas[0], metas_bytes(rest));
        assert(seq![metas[0]] + rest =~= metas);
    }
}

impl BlockMeta {
    /// Appends the bytes of an index to `buf`.
    pub fn encode_block_meta(block_meta: &[BlockMeta], buf: &mut Vec<u8>)
        ensures
            final(buf)@ == old(buf)@ + metas_bytes(metas_view(block_meta@)),
    {
        let n = block_meta.len();
        let mut estimated_size: usize = 0;
        let mut i: usize = 0;
        while i < n
            invariant
                n == block_meta@.len(),
                i <= n,
            decreases n - i,
        {
            // offset, first_key_len, first_key
            estimated_size = estimated_size.saturating_add(SIZEOF_USIZE);
            estimated_size = estimated_size.saturating_add(SIZEOF_U16);
            estimated_size = estimated_size.saturating_add(block_meta[i].first_key.len());
            i += 1;
        }
        buf.reserve(estimated_size);
        let ghost metas = metas_view(block_meta@);
        let mut i: usize = 0;
        while i < n
            invariant
                n == block_meta@.len(),
                i <= n,
                metas == metas_view(block_meta@),
                buf@ == old(buf)@ + metas_bytes(metas.take(i as int)),
            decreases n - i,
        {
            let meta = &block_meta[i];
            let ghost before = buf@;
            put_u32(buf, ((meta.offset as u64) % 0x1_0000_0000) as u32);
            put_u16(buf, (meta.first_key.len() % 0x1_0000) as u16);
            put_slice(buf, meta.first_key.as_slice());
            proof {
                assert(metas.take(i + 1) =~= metas.take(i as int).push(metas[i as int]));
                lemma_metas_bytes_push(metas.take(i as int), metas[i as int]);
                assert(buf@ =~= before + meta_bytes(metas[i as int]));
            }
            i += 1;
        }
        assert(metas.take(n as int) =~= metas);
    }

    /// Reads an index back from its bytes; fails when the bytes are not a
    /// whole number of index entries.
    pub fn decode_block_meta(buf: &[u8]) -> (r: Result<Vec<BlockMeta>, LsmError>)
        ensures
            match r {
                Ok(metas) => parse_metas(buf@) == Some(metas_view(metas@)),
                Err(e) => parse_metas(buf@) is None && e == LsmError::Format,
            },
    {
        let len = buf.len();
        let mut metas: Vec<BlockMeta> = Vec::new();
        let mut pos: usize = 0;
        proof {
            assert(buf@.skip(0) =~= buf@);
            match parse_metas(buf@) {
                None => {},
                Some(others) => {
                    assert(metas_view(metas@) + others =~= others);
                },
            }
        }
        while pos < len
            invariant
                len == buf@.len(),
                pos <= len,
                parse_metas(buf@) == match parse_metas(buf@.skip(pos as int)) {
                    None => None,
                    Some(others) => Some(metas_view(metas@) + others),
                },
            decreases len - pos,
        {
            let ghost here = buf@.skip(pos as int);
            if len - pos < SIZEOF_USIZE + SIZEOF_U16 {
                return Err(LsmError::Format);
            }
            let offset = get_u32(slice_subrange(buf, pos, len)) as usize;
            let first_key_len = get_u16(slice_subrange(buf, pos + SIZEOF_USIZE, len)) as usize;
            proof {
                assert(buf@.subrange(pos as int, len as int) =~= here);
                assert(buf@.subrange(pos + 4, len as int)[0] == here[4]);
                assert(buf@.subrange(pos + 4, len as int)[1] == here[5]);
            }
            let key_at = pos + SIZEOF_USIZE + SIZEOF_U16;
            if first_key_len > len - key_at {
                return Err(LsmError::Format);
            }
            let first_key = slice_to_vec(slice_subrange(buf, key_at, key_at + first_key_len));
            let ghost old_metas = metas@;
            metas.push(BlockMeta { offset, first_key });
            proof {
                assert(buf@.subrange(key_at as int, key_at + first_key_len) =~= here.subrange(
                    6,
                    6 + first_key_len,
                ));
                assert(here.skip(6 + first_key_len) =~= buf@.skip(key_at + first_key_len));
                let one = (offset as int, first_key@);
                assert(metas_view(metas@) =~= metas_view(old_metas).push(one));
                match parse_metas(buf@.skip(key_at + first_key_len)) {
                    None => {},
                    Some(others) => {
                        assert(metas_view(old_metas) + (seq![one] + others) =~= metas_view(
                            metas@,
                        ) + others);
                    },
                }
            }
            pos = key_at + first_key_len;
        }
        proof {
            assert(buf@.skip(pos as int) =~= Seq::<u8>::empty());
            assert(metas_view(metas@) + Seq::<MetaView>::empty() =~= metas_view(metas@));
        }
        Ok(metas)
    }
}

/// The bytes of a stored file, held in memory.
pub struct FileObject {
    data: Vec<u8>,
}

impl FileObject {
    /// The bytes of the file.
    pub closed spec fn bytes(&self) -> Seq<u8> {
        self.data@
    }

    /// The `len` bytes that start at `offset`; fails when the file does not
    /// hold them.
    pub fn read(&self, offset: u64, len: u64) -> (r: Result<Vec<u8>, LsmError>)
        ensures
            match r {
                Ok(bytes) => offset + len <= self.bytes().len() && bytes@ == self.bytes().subrange(
                    offset as int,
                    offset + len,
                ),
                Err(e) => offset + len > self.bytes().len() && e == LsmError::Format,
            },
    {
        let size = self.data.len() as u64;
        if offset > size || len > size - offset {
            return Err(LsmError::Format);
        }
        let from = offset as usize;
        let to = (offset + len) as usize;
        Ok(slice_to_vec(slice_subrange(self.data.as_slice(), from, to)))
    }

    /// The number of bytes in the file.
    pub fn size(&self) -> (n: u64)
        ensures
            n == self.bytes().len(),
    {
        self.data.len() as u64
    }

    /// A file object that holds `data`. The path names where the bytes
    /// belong; nothing is written there.
    pub fn create(path: &str, data: Vec<u8>) -> (r: Result<Self, LsmError>)
        ensures
            r is Ok,
            r->Ok_0.bytes() == data@,
    {
        let _ = path;
        Ok(FileObject { data })
    }
}

/// Where block `i` ends: where the next block starts, or at `end` for the
/// last block.
pub open spec fn block_end(metas: Seq<MetaView>, end: int, i: int) -> int {
    if i + 1 < metas.len() {
        metas[i + 1].0
    } else {
        end
    }
}

/// The bytes of block `i`.
pub open spec fn region(bytes: Seq<u8>, metas: Seq<MetaView>, end: int, i: int) -> Seq<u8> {
    bytes.subrange(metas[i].0, block_end(metas, end, i))
}

/// Block `i` lies inside `bytes` and is long enough for its offsets.
pub open spec fn region_ok(bytes: Seq<u8>, metas: Seq<MetaView>, end: int, i: int) -> bool {
    &&& 0 <= i < metas.len()
    &&& 0 <= metas[i].0 <= block_end(metas, end, i) <= bytes.len()
    &&& decodable(region(bytes, metas, end, i))
}

/// The entries of block `i`.
pub open spec fn block_entries(bytes: Seq<u8>, metas: Seq<MetaView>, end: int, i: int) -> Seq<
    Entry,
> {
    let r = region(bytes, metas, end, i);
    entries_of(decoded_data(r), decoded_offsets(r))
}

/// Block `i` can be read, every entry of it parses, it is not empty, and
/// the index holds its first key.
pub open spec fn block_ok(bytes: Seq<u8>, metas: Seq<MetaView>, end: int, i: int) -> bool {
    let r = region(bytes, metas, end, i);
    &&& region_ok(bytes, metas, end, i)
    &&& all_parse(decoded_data(r), decoded_offsets(r))
    &&& block_entries(bytes, metas, end, i).len() > 0
    &&& metas[i].1 == block_entries(bytes, metas, end, i)[0].0
}

/// Every block that the index lists is in order.
pub open spec fn blocks_ok(bytes: Seq<u8>, metas: Seq<MetaView>, end: int) -> bool {
    &&& 0 <= end <= bytes.len()
    &&& forall|i: int| 0 <= i < metas.len() ==> #[trigger] block_ok(bytes, metas, end, i)
}

/// The entries of the blocks from block `i` on, in order.
pub open spec fn entries_from(bytes: Seq<u8>, metas: Seq<MetaView>, end: int, i: int) -> Seq<
    Entry,
>
    decreases metas.len() - i,
{
    if i < 0 || i >= metas.len() {
        Seq::empty()
    } else {
        block_entries(bytes, metas, end, i) + entries_from(bytes, metas, end, i + 1)
    }
}

/// The offset of the index, as the last four bytes of a table's file give it.
pub open spec fn footer_offset(bytes: Seq<u8>) -> int {
    let n = bytes.len();
    u32_of(bytes[n - 4], bytes[n - 3], bytes[n - 2], bytes[n - 1]) as int
}

/// The file ends with an index and the offset at which that index starts.
pub open spec fn footer_ok(bytes: Seq<u8>) -> bool {
    &&& bytes.len() >= 4
    &&& footer_offset(bytes) <= bytes.len() - 4
    &&& parse_metas(bytes.subrange(footer_offset(bytes), bytes.len() - 4)) is Some
}

/// The index at the end of a table's file.
pub open spec fn footer_metas(bytes: Seq<u8>) -> Seq<MetaView> {
    parse_metas(bytes.subrange(footer_offset(bytes), bytes.len() - 4)).unwrap()
}

/// A block as the cache holds it: with the file and the range of bytes that
/// it was read from, so that whoever finds it can tell whether it is the
/// block that they look for.
pub struct CachedBlock {
    block: Arc<Block>,
    file: Arc<FileObject>,
    start: usize,
    end: usize,
}

impl CachedBlock {
    /// The block is what the bytes between `start` and `end` of the file
    /// decode to.
    #[verifier::type_invariant]
    spec fn read_from_file(self) -> bool {
        let r = self.file.bytes().subrange(self.start as int, self.end as int);
        &&& self.start <= self.end <= self.file.bytes().len()
        &&& decodable(r)
        &&& self.block.data@ == decoded_data(r)
        &&& self.block.offsets@ == decoded_offsets(r)
    }

    /// The block that is held.
    pub closed spec fn block(&self) -> Block {
        *self.block
    }

    /// The file that the block was read from.
    pub closed spec fn file(&self) -> FileObject {
        *self.file
    }

    /// Where in the file the bytes of the block start.
    pub closed spec fn from(&self) -> int {
        self.start as int
    }

    /// Where in the file the bytes of the block end.
    pub closed spec fn to(&self) -> int {
        self.end as int
    }

    /// The block is what the bytes between `from` and `to` of the file
    /// decode to.
    pub open spec fn decoded_from_file(&self) -> bool {
        let r = self.file().bytes().subrange(self.from(), self.to());
        &&& 0 <= self.from() <= self.to() <= self.file().bytes().len()
        &&& decodable(r)
        &&& self.block().data@ == decoded_data(r)
        &&& self.block().offsets@ == decoded_offsets(r)
    }

    /// The block that is held, if it was read from the bytes between
    /// `start` and `end` of the file that is asked for. Whether the file is
    /// the same, the caller has found out and says in `same_file`.
    fn block_of(&self, same_file: bool, start: usize, end: usize) -> (r: Option<Arc<Block>>)
        ensures
            r is Some <==> same_file && self.from() == start && self.to() == end,
            r is Some ==> *r.unwrap() == self.block(),
            self.decoded_from_file(),
    {
        proof {
            use_type_invariant(self);
        }
        if same_file && self.start == start && self.end == end {
            Some(share(&self.block))
        } else {
            None
        }
    }
}

/// A bounded cache of blocks, shared by the tables of a store. A block is
/// filed under its table's id and its place in the table.
pub type BlockCache = moka::sync::Cache<(usize, usize), Arc<CachedBlock>>;

/// `moka::sync::Cache`: nothing is known of what is inside.
#[verifier::external_type_specification]
#[verifier::external_body]
#[verifier::reject_recursive_types(K)]
#[verifier::reject_recursive_types(V)]
#[verifier::reject_recursive_types(S)]
pub struct ExCache<K, V, S>(moka::sync::Cache<K, V, S>);

/// `moka::sync::Cache::new`: an empty cache that holds up to `max_capacity`
/// blocks.
#[verifier::external_body]
pub(crate) fn new_block_cache(max_capacity: u64) -> (cache: BlockCache) {
    moka::sync::Cache::new(max_capacity)
}

/// `Arc::clone`: another handle to the same value.
#[verifier::external_body]
pub(crate) fn share<T>(a: &Arc<T>) -> (r: Arc<T>)
    ensures
        r == *a,
{
    Arc::clone(a)
}

/// `Arc::ptr_eq`: where it says yes, the two handles are handles to one
/// allocation, and so to one value.
#[verifier::external_body]
fn same_allocation<T>(a: &Arc<T>, b: &Arc<T>) -> (r: bool)
    ensures
        r ==> *a == *b,
{
    Arc::ptr_eq(a, b)
}

/// `moka::sync::Cache::try_get_with`: the block filed under the table's id
/// and `block_idx`, which the cache holds or else has the table load while
/// others who ask for the same block wait. Nothing is claimed of what comes
/// back.
#[verifier::external_body]
fn cache_get_with(cache: &BlockCache, table: &SsTable, block_idx: usize) -> (r: Option<
    Arc<CachedBlock>,
>)
{
    cache.try_get_with((table.id, block_idx), || table.load_block(block_idx)).ok()
}

/// An open table: the file, and the index of its blocks.
pub struct SsTable {
    pub file: Arc<FileObject>,
    pub block_metas: Vec<BlockMeta>,
    pub block_meta_offset: usize,
    /// The id under which the blocks of the table are cached.
    pub id: usize,
    /// The cache through which the table reads its blocks, if it has one.
    pub block_cache: Option<Arc<BlockCache>>,
}

impl SsTable {
    /// The index of the table.
    pub open spec fn metas(&self) -> Seq<MetaView> {
        metas_view(self.block_metas@)
    }

    /// The bytes of the table's file.
    pub open spec fn bytes(&self) -> Seq<u8> {
        self.file.bytes()
    }

    /// The offset at which the blocks end and the index starts.
    pub open spec fn meta_offset(&self) -> int {
        self.block_meta_offset as int
    }

    /// A table made of its parts.
    pub(crate) fn assemble(
        file: FileObject,
        block_metas: Vec<BlockMeta>,
        block_meta_offset: usize,
        id: usize,
        block_cache: Option<Arc<BlockCache>>,
    ) -> (table: Self)
        ensures
            table.bytes() == file.bytes(),
            table.metas() == metas_view(block_metas@),
            table.meta_offset() == block_meta_offset,
            table.id() == id,
            table.cached() == (block_cache is Some),
    {
        Self { file: Arc::new(file), block_metas, block_meta_offset, id, block_cache }
    }

    /// The id under which the table's blocks are cached.
    pub open spec fn id(&self) -> usize {
        self.id
    }

    /// Whether the table reads its blocks through a cache.
    pub open spec fn cached(&self) -> bool {
        self.block_cache is Some
    }

    /// Every block that the index lists is in order.
    pub open spec fn layout_ok(&self) -> bool {
        blocks_ok(self.bytes(), self.metas(), self.meta_offset())
    }

    /// The entries of the table, block after block.
    pub open spec fn entries(&self) -> Seq<Entry> {
        self.entries_from(0)
    }

    /// The entries of the blocks from block `i` on.
    pub open spec fn entries_from(&self, i: int) -> Seq<Entry> {
        entries_from(self.bytes(), self.metas(), self.meta_offset(), i)
    }

    /// The entries of block `i`.
    pub open spec fn block_entries(&self, i: int) -> Seq<Entry> {
        block_entries(self.bytes(), self.metas(), self.meta_offset(), i)
    }

    /// The bytes of block `i`.
    pub open spec fn region(&self, i: int) -> Seq<u8> {
        region(self.bytes(), self.metas(), self.meta_offset(), i)
    }

    /// Block `i` lies inside the file and is long enough for its offsets.
    pub open spec fn region_ok(&self, i: int) -> bool {
        region_ok(self.bytes(), self.metas(), self.meta_offset(), i)
    }

    /// `block` is block `i` of the table.
    pub open spec fn is_block(&self, i: int, block: Block) -> bool {
        &&& block.data@ == decoded_data(self.region(i))
        &&& block.offsets@ == decoded_offsets(self.region(i))
    }

    /// The file of the table is what a builder with blocks of `size` bytes
    /// makes of the entries `entries`: the blocks that it lays the entries
    /// out in, one behind the other, each with its offset in the index;
    /// then the index; then the offset of the index.
    pub open spec fn built_from(&self, entries: Seq<Entry>, size: int) -> bool {
        &&& self.meta_offset() == builder::blocks_bytes(entries, size)
        &&& entries.len() > 0 ==> builder::blocks_laid(
            self.bytes(),
            self.metas(),
            self.meta_offset(),
            builder::blocks_of(entries, size),
        )
        &&& entries.len() == 0 ==> self.metas().len() == 0 && self.bytes().take(2)
            == builder::block_bytes(Seq::<Entry>::empty())
        &&& self.bytes() == builder::file_bytes(
            self.bytes().take(self.meta_offset()),
            self.metas(),
        )
    }

    /// The table is laid out in order and its keys ascend strictly.
    pub open spec fn wf(&self) -> bool {
        self.layout_ok() && sorted(self.entries())
    }

    /// Opens a table without a cache, under the id 0.
    pub fn open_for_test(file: FileObject) -> (r: Result<Self, LsmError>)
        ensures
            r is Ok <==> footer_ok(file.bytes()),
            r is Ok ==> r->Ok_0.opened_from(file, 0) && !r->Ok_0.cached(),
            r is Err ==> r->Err_0 == LsmError::Format,
    {
        Self::open(0, None, file)
    }

    /// The table holds `file` and the index that the file ends with.
    pub open spec fn opened_from(&self, file: FileObject, id: usize) -> bool {
        &&& self.bytes() == file.bytes()
        &&& self.id() == id
        &&& self.meta_offset() == footer_offset(file.bytes())
        &&& self.metas() == footer_metas(file.bytes())
    }

    /// Opens the table that `file` holds: reads the offset of the index
    /// from the end of the file, and then the index.
    pub fn open(id: usize, block_cache: Option<Arc<BlockCache>>, file: FileObject) -> (r: Result<
        Self,
        LsmError,
    >)
        ensures
            r is Ok <==> footer_ok(file.bytes()),
            r is Ok ==> r->Ok_0.opened_from(file, id) && r->Ok_0.cached() == (block_cache is Some),
            r is Err ==> r->Err_0 == LsmError::Format,
    {
        let size = file.size();
        if size < SIZEOF_USIZE as u64 {
            return Err(LsmError::Format);
        }
        let footer_at = size - SIZEOF_USIZE as u64;
        let offset_bytes = match file.read(footer_at, SIZEOF_USIZE as u64) {
            Ok(bytes) => bytes,
            Err(e) => {
                return Err(e);
            },
        };
        let block_meta_offset = get_u32(offset_bytes.as_slice());
        if block_meta_offset as u64 > footer_at {
            return Err(LsmError::Format);
        }
        let meta_bytes = match file.read(
            block_meta_offset as u64,
            footer_at - block_meta_offset as u64,
        ) {
            Ok(bytes) => bytes,
            Err(e) => {
                return Err(e);
            },
        };
        let block_metas = match BlockMeta::decode_block_meta(meta_bytes.as_slice()) {
            Ok(metas) => metas,
            Err(e) => {
                return Err(e);
            },
        };
        Ok(Self::assemble(file, block_metas, block_meta_offset as usize, id, block_cache))
    }

    /// Where block `block_idx` starts and ends in the file, if the index
    /// lists the block and the file holds that range.
    fn block_range(&self, block_idx: usize) -> (r: Option<(usize, usize)>)
        ensures
            match r {
                Some((start, end)) => {
                    &&& block_idx < self.metas().len()
                    &&& start == self.metas()[block_idx as int].0
                    &&& end == block_end(self.metas(), self.meta_offset(), block_idx as int)
                    &&& start <= end <= self.bytes().len()
                },
                None => !self.region_ok(block_idx as int),
            },
    {
        if block_idx >= self.block_metas.len() {
            return None;
        }
        let start_offset = self.block_metas[block_idx].offset;
        let end_offset = if block_idx + 1 == self.block_metas.len() {
            self.block_meta_offset
        } else {
            self.block_metas[block_idx + 1].offset
        };
        if start_offset > end_offset || end_offset as u64 > self.file.size() {
            return None;
        }
        Some((start_offset, end_offset))
    }

    /// Reads block `block_idx` from the file for the cache, and notes where
    /// it was read from; fails where `read_block` fails.
    fn load_block(&self, block_idx: usize) -> (r: Result<Arc<CachedBlock>, LsmError>)
        ensures
            r is Ok <==> self.region_ok(block_idx as int),
            r is Err ==> r->Err_0 == LsmError::Format,
            r is Ok ==> {
                let held = r->Ok_0;
                &&& self.is_block(block_idx as int, held.block())
                &&& held.file().bytes() == self.bytes()
                &&& held.from() == self.metas()[block_idx as int].0
                &&& held.to() == block_end(self.metas(), self.meta_offset(), block_idx as int)
            },
    {
        let (start, end) = match self.block_range(block_idx) {
            Some(range) => range,
            None => {
                return Err(LsmError::Format);
            },
        };
        let block_data = match self.file.read(start as u64, (end - start) as u64) {
            Ok(bytes) => bytes,
            Err(e) => {
                return Err(e);
            },
        };
        let block = match Block::decode(block_data.as_slice()) {
            Ok(block) => Arc::new(block),
            Err(e) => {
                return Err(e);
            },
        };
        Ok(Arc::new(CachedBlock { block, file: share(&self.file), start, end }))
    }

    /// Reads block `block_idx` from the file; fails when the index lists no
    /// such block or the file does not hold a whole block there.
    pub fn read_block(&self, block_idx: usize) -> (r: Result<Arc<Block>, LsmError>)
        ensures
            r is Ok <==> self.region_ok(block_idx as int),
            r is Ok ==> self.is_block(block_idx as int, *r->Ok_0),
            r is Err ==> r->Err_0 == LsmError::Format,
    {
        let (start, end) = match self.block_range(block_idx) {
            Some(range) => range,
            None => {
                return Err(LsmError::Format);
            },
        };
        let block_data = match self.file.read(start as u64, (end - start) as u64) {
            Ok(bytes) => bytes,
            Err(e) => {
                return Err(e);
            },
        };
        match Block::decode(block_data.as_slice()) {
            Ok(block) => Ok(Arc::new(block)),
            Err(e) => Err(e),
        }
    }

    /// Reads block `block_idx` through the cache, if the table has one: the
    /// cached block where the cache holds the block of this file, and the
    /// block as the file gives it otherwise.
    pub fn read_block_cached(&self, block_idx: usize) -> (r: Result<Arc<Block>, LsmError>)
        ensures
            r is Ok <==> self.region_ok(block_idx as int),
            r is Ok ==> self.is_block(block_idx as int, *r->Ok_0),
            r is Err ==> r->Err_0 == LsmError::Format,
    {
        if let Some(block_cache) = &self.block_cache {
            if let Some((start, end)) = self.block_range(block_idx) {
                if let Some(held) = cache_get_with(block_cache, self, block_idx) {
                    let same_file = same_allocation(&held.file, &self.file);
                    if let Some(block) = held.block_of(same_file, start, end) {
                        return Ok(block);
                    }
                }
            }
        }
        self.read_block(block_idx)
    }

    /// The number of index entries whose first key is `key` or comes before
    /// it, counted from the start of the index up to the first that is not.
    pub open spec fn leading_le(metas: Seq<MetaView>, key: Seq<u8>) -> int
        decreases metas.len(),
    {
        if metas.len() == 0 || !key_le(metas[0].1, key) {
            0
        } else {
            1 + Self::leading_le(metas.skip(1), key)
        }
    }

    /// The first keys of the index ascend strictly.
    pub open spec fn first_keys_sorted(metas: Seq<MetaView>) -> bool {
        forall|i: int, j: int|
            0 <= i < j < metas.len() ==> key_lt(#[trigger] metas[i].1, #[trigger] metas[j].1)
    }

    /// The place of the block that may hold `key`: the last block whose
    /// first key is `key` or comes before it, and the first block if there
    /// is none.
    pub open spec fn block_idx_of(metas: Seq<MetaView>, key: Seq<u8>) -> int {
        if Self::leading_le(metas, key) == 0 {
            0
        } else {
            Self::leading_le(metas, key) - 1
        }
    }

    /// Finds the block that may hold `key`, by halving the index.
    pub fn find_block_idx(&self, key: &[u8]) -> (idx: usize)
        ensures
            idx < self.metas().len() || idx == 0,
            Self::first_keys_sorted(self.metas()) ==> idx == Self::block_idx_of(self.metas(), key@),
    {
        let n = self.block_metas.len();
        let ghost metas = self.metas();
        let ghost good = Self::first_keys_sorted(metas);
        let mut low: usize = 0;
        let mut high: usize = n;
        while low < high
            invariant
                n == self.block_metas@.len(),
                metas == self.metas(),
                good == Self::first_keys_sorted(metas),
                low <= high <= n,
                good ==> forall|i: int| 0 <= i < low ==> key_le(#[trigger] metas[i].1, key@),
                good ==> forall|i: int| high <= i < n ==> key_lt(key@, #[trigger] metas[i].1),
            decreases high - low,
        {
            let mid = low + (high - low) / 2;
            match key_order(self.block_metas[mid].first_key.as_slice(), key) {
                KeyOrder::Greater => {
                    proof {
                        if good {
                            assert forall|i: int| mid <= i < n implies key_lt(
                                key@,
                                #[trigger] metas[i].1,
                            ) by {
                                if i > mid {
                                    crate::key::lemma_key_lt_transitive(
                                        key@,
                                        metas[mid as int].1,
                                        metas[i].1,
                                    );
                                }
                            }
                        }
                    }
                    high = mid;
                },
                _ => {
                    proof {
                        if good {
                            assert forall|i: int| 0 <= i < mid + 1 implies key_le(
                                #[trigger] metas[i].1,
                                key@,
                            ) by {
                                if i < mid {
                                    if metas[mid as int].1 != key@ {
                                        crate::key::lemma_key_lt_transitive(
                                            metas[i].1,
                                            metas[mid as int].1,
                                            key@,
                                        );
                                    }
                                }
                            }
                        }
                    }
                    low = mid + 1;
                },
            }
        }
        proof {
            if good {
                Self::lemma_leading_le_is(metas, key@, low as int);
            }
        }
        if low == 0 {
            low
        } else {
            low - 1
        }
    }

    /// `at` is the count of leading first keys up to `key` when every first
    /// key before `at` is `key` or comes before it, and the one at `at`, if
    /// any, comes after.
    pub proof fn lemma_leading_le_is(metas: Seq<MetaView>, key: Seq<u8>, at: int)
        requires
            0 <= at <= metas.len(),
            forall|i: int| 0 <= i < at ==> key_le(#[trigger] metas[i].1, key),
            at < metas.len() ==> key_lt(key, metas[at].1),
        ensures
            Self::leading_le(metas, key) == at,
        decreases metas.len(),
    {
        if metas.len() == 0 {
        } else if at == 0 {
            crate::key::lemma_key_lt_asymmetric(key, metas[0].1);
        } else {
            assert(key_le(metas[0].1, key));
            let t = metas.skip(1);
            assert forall|i: int| 0 <= i < at - 1 implies key_le(#[trigger] t[i].1, key) by {
                assert(t[i] == metas[i + 1]);
            }
            Self::lemma_leading_le_is(t, key, at - 1);
        }
    }

    /// The number of blocks in the table.
    pub fn num_of_blocks(&self) -> (n: usize)
        ensures
            n == self.metas().len(),
    {
        self.block_metas.len()
    }
}

} // verus!
