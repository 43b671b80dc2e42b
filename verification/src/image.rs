//! The device image: block-0 descriptor, partition table, and the raw byte
//! buffer, with the decode/encode orchestration and the mutation API.
//!
//! Two dirty flags gate re-serialization: one for the descriptor block, one
//! for the partition table. The table is self-terminating on disk: every
//! record carries the table's total length, and decoding reads records from
//! block 1 until that many have been read.
use vstd::prelude::*;

use crate::record::{DriverData, DriverDataView, DriverDescriptorBlock, DescView, PartitionEntry,
    PartView, parse_desc, parse_part_at, desc_enc, desc_byte, part_enc, part_byte,
    spec_free_type, write_desc, write_part, parse_desc_block, parse_part_block, lemma_desc_round,
    lemma_part_round, lemma_parse_part_unchanged, lemma_parse_desc_unchanged, BLOCK_BYTES,
    PART_RECORD_BYTES, DESC_HEADER_BYTES, DRIVER_RECORD_BYTES};
use crate::label::label_ascii;

verus! {

/// The errors of this library: every failure is a deterministic structural
/// condition of the inputs and current state.
#[derive(Debug, Clone, PartialEq, Eq)]
pub enum ApmError {
    /// Bad magic or signature, or too few bytes: raised only while decoding
    /// an image.
    Format,
    /// No sufficiently large free region before the device's end.
    NoSpace,
    /// A label longer than its fixed on-disk slot.
    LabelTooLong,
}

/// The whole in-memory device image.
#[derive(Debug)]
pub struct ApmMap {
    /// Whether the descriptor block must be re-serialized into block 0.
    update_driver_desc: bool,
    /// The block-0 descriptor.
    driver_desc: DriverDescriptorBlock,
    /// Whether the partition table must be re-serialized into blocks 1..
    update_partition_table: bool,
    /// The ordered partition table; entries are append-only.
    partitions: Vec<PartitionEntry>,
    /// The full raw device bytes, payload regions included.
    raw_data: Vec<u8>,
}

/// The mathematical value of a device image.
pub ghost struct ImageView {
    /// Whether block 0 must be re-serialized.
    pub desc_dirty: bool,
    /// The descriptor block.
    pub desc: DescView,
    /// Whether the partition table must be re-serialized.
    pub table_dirty: bool,
    /// The ordered partition table.
    pub partitions: Seq<PartView>,
    /// The raw device bytes.
    pub raw: Seq<u8>,
}

impl View for ApmMap {
    type V = ImageView;

    closed spec fn view(&self) -> ImageView {
        ImageView {
            desc_dirty: self.update_driver_desc,
            desc: self.driver_desc@,
            table_dirty: self.update_partition_table,
            partitions: self.partitions@.map_values(|p: PartitionEntry| p@),
            raw: self.raw_data@,
        }
    }
}

/// Whole blocks needed to hold `len` bytes: the length rounded up to the
/// next 512-byte boundary.
pub open spec fn blocks_of(len: int) -> int {
    (len + 511) / 512
}

/// The record `p` with its replicated table-length field set to `n`.
pub open spec fn count_set(p: PartView, n: int) -> PartView {
    PartView { partition_count: n as u32, ..p }
}

/// The table with every record's replicated table-length field set to the
/// table's length.
pub open spec fn set_counts(parts: Seq<PartView>) -> Seq<PartView> {
    Seq::new(parts.len(), |i: int| count_set(parts[i], parts.len() as int))
}

/// The bump allocator's frontier: one past the highest used extent, and
/// block 1 when no used extent exists (block 0 holds the descriptor).
pub open spec fn hole_after(parts: Seq<PartView>) -> int
    decreases parts.len(),
{
    if parts.len() == 0 {
        1
    } else {
        let rest = hole_after(parts.drop_last());
        let last = parts.last();
        if last.ty == spec_free_type() {
            rest
        } else if last.start + last.length > rest {
            last.start + last.length
        } else {
            rest
        }
    }
}

/// The device's block count as the allocator sees it: the buffer's whole
/// blocks, capped at what a 32-bit start field can address.
pub open spec fn device_blocks(raw_len: int) -> int {
    if raw_len / 512 > 0xffff_ffff {
        0xffff_ffff
    } else {
        raw_len / 512
    }
}

impl ImageView {
    /// The table's length.
    pub open spec fn n(self) -> int {
        self.partitions.len() as int
    }

    /// A well-formed image: at least the seeded record, a table that fits
    /// the buffer ahead of the payload area, records the codec can write,
    /// and a descriptor that fits block 0.
    pub open spec fn wf(self) -> bool {
        &&& 1 <= self.n() <= 0xffff_ffff
        &&& 512 * self.n() + PART_RECORD_BYTES <= self.raw.len()
        &&& forall|i: int| 0 <= i < self.n() ==> (#[trigger] self.partitions[i]).codec_wf()
        &&& self.desc.wf()
    }

    /// Every record's replicated table-length field equals the table's
    /// length.
    pub open spec fn counts_ok(self) -> bool {
        forall|i: int|
            0 <= i < self.n() ==> (#[trigger] self.partitions[i]).partition_count == self.n()
    }

    /// Every record's mirrored pair agrees: data-length equals length.
    pub open spec fn mirrored(self) -> bool {
        forall|i: int| 0 <= i < self.n() ==> (#[trigger] self.partitions[i]).mirrored()
    }

    /// The partition record a fresh image is seeded with: the whole-table
    /// map entry at block 1, 63 blocks long.
    pub open spec fn seed_record() -> PartView {
        PartView {
            partition_count: 1,
            start: 1,
            length: 0x3f,
            data_count: 0x3f,
            name: "Apple"@,
            ty: "Apple_partition_map"@,
            ..PartView::fresh()
        }
    }
}

impl ApmMap {
    /// A fresh image: a zero-filled buffer of `blocks` 512-byte blocks, the
    /// fresh descriptor carrying the block count, and one seeded
    /// partition-map record, with both parts marked dirty.
    ///
    /// The device must at least hold the descriptor block and one table
    /// record, and the buffer's byte length must be addressable.
    pub fn new(blocks: u32) -> (r: Self)
        requires
            2 <= blocks,
            blocks as int * 512 <= usize::MAX as int,
        ensures
            r@.wf(),
            r@.counts_ok(),
            r@.mirrored(),
            r@.desc_dirty && r@.table_dirty,
            r@.desc == (DescView { blk_count: blocks, ..DescView::fresh() }),
            r@.partitions =~= seq![ImageView::seed_record()],
            r@.raw.len() == blocks as int * 512,
            forall|k: int| 0 <= k < r@.raw.len() ==> r@.raw[k] == 0u8,
    {
        let entry = PartitionEntry::new().with_start(1).with_length(0x3f).with_partition_count(
            1,
        ).with_name("Apple").with_type("Apple_partition_map");
        proof {
            reveal_strlit("Apple");
            reveal_strlit("Apple_partition_map");
            assert(entry@ =~= ImageView::seed_record());
        }
        let mut partitions: Vec<PartitionEntry> = Vec::new();
        partitions.push(entry);
        let raw_data: Vec<u8> = vec![0u8; (blocks as usize) * 512];
        let r = Self {
            update_driver_desc: true,
            driver_desc: DriverDescriptorBlock::default().with_blk_count(blocks),
            update_partition_table: true,
            partitions,
            raw_data,
        };
        proof {
            assert(r@.partitions =~= seq![ImageView::seed_record()]);
            assert(ImageView::seed_record().codec_wf()) by {
                reveal_strlit("Apple");
                reveal_strlit("Apple_partition_map");
            }
        }
        r
    }

    /// The stored block size in bytes.
    pub fn block_size(&self) -> (r: u16)
        ensures
            r == self@.desc.block_size,
    {
        self.driver_desc.block_size()
    }

    /// The device size in blocks as the descriptor records it.
    pub fn blk_count(&self) -> (r: u32)
        ensures
            r == self@.desc.blk_count,
    {
        self.driver_desc.blk_count()
    }

    /// The reserved device-type word.
    pub fn dev_type(&self) -> (r: u16)
        ensures
            r == self@.desc.dev_type,
    {
        self.driver_desc.dev_type()
    }

    /// The reserved device-id word.
    pub fn dev_id(&self) -> (r: u16)
        ensures
            r == self@.desc.dev_id,
    {
        self.driver_desc.dev_id()
    }

    /// The reserved data word.
    pub fn data(&self) -> (r: u32)
        ensures
            r == self@.desc.data,
    {
        self.driver_desc.data()
    }

    /// The partition table.
    pub fn partitions(&self) -> (r: &Vec<PartitionEntry>)
        ensures
            r@.map_values(|p: PartitionEntry| p@) == self@.partitions,
    {
        &self.partitions
    }

    /// The driver list.
    pub fn drivers(&self) -> (r: &Vec<DriverData>)
        ensures
            r@.map_values(|d: DriverData| d@) == self@.desc.drivers,
    {
        self.driver_desc.drivers()
    }

    /// The whole raw buffer.
    pub fn raw(&self) -> (r: &[u8])
        ensures
            r@ == self@.raw,
    {
        self.raw_data.as_slice()
    }

    /// Sets every record's replicated table-length field to the table's
    /// current length.
    pub fn update_partition_count(&mut self)
        requires
            old(self)@.n() <= 0xffff_ffff,
        ensures
            final(self)@ == (ImageView {
                partitions: set_counts(old(self)@.partitions),
                ..old(self)@
            }),
            final(self)@.counts_ok(),
    {
        let count = self.partitions.len();
        let n = self.partitions.len();
        let mut i: usize = 0;
        while i < n
            invariant
                i <= n,
                n == self.partitions@.len() <= 0xffff_ffff,
                count == n,
                self.update_driver_desc == old(self).update_driver_desc,
                self.driver_desc == old(self).driver_desc,
                self.update_partition_table == old(self).update_partition_table,
                self.raw_data == old(self).raw_data,
                forall|j: int|
                    i <= j < n ==> self.partitions@[j] == old(self).partitions@[j],
                forall|j: int|
                    0 <= j < i ==> (#[trigger] self.partitions@[j])@ == count_set(
                        old(self).partitions@[j]@,
                        n as int,
                    ),
            decreases n - i,
        {
            self.partitions[i].set_partition_count(count as u32);
            i = i + 1;
        }
        proof {
            assert(final(self)@.partitions =~= set_counts(old(self)@.partitions));
            assert(final(self)@ =~= (ImageView {
                partitions: set_counts(old(self)@.partitions),
                ..old(self)@
            }));
        }
    }
}

/// The allocator's frontier never falls inside block 0.
pub proof fn lemma_hole_after_low(parts: Seq<PartView>)
    ensures
        hole_after(parts) >= 1,
    decreases parts.len(),
{
    if parts.len() > 0 {
        lemma_hole_after_low(parts.drop_last());
    }
}

impl ImageView {
    /// The buffer's partition-table region still parses back to the
    /// in-memory table, record for record, and the table's first record
    /// declares the table's length as decoding would discover it.
    pub open spec fn table_synced(self) -> bool {
        &&& self.n() == self.partitions[0].partition_count as int
        &&& forall|i: int|
            0 <= i < self.n() ==> parse_part_at(self.raw, 512 * (1 + i)) == Some(
                #[trigger] self.partitions[i],
            )
    }

    /// Block 0 still parses back to the in-memory descriptor.
    pub open spec fn desc_synced(self) -> bool {
        parse_desc(self.raw) == Some(self.desc)
    }

    /// Every part of the buffer not marked dirty still matches the
    /// in-memory structures, so an encode that skips it loses nothing.
    pub open spec fn synced(self) -> bool {
        &&& self.table_dirty || self.table_synced()
        &&& self.desc_dirty || self.desc_synced()
    }
}

/// Whether an extent of `sz` blocks at the allocator's frontier stays
/// inside the device.
pub open spec fn alloc_ok(m: ImageView, sz: int) -> bool {
    hole_after(m.partitions) + sz <= device_blocks(m.raw.len() as int)
}

/// Whether the table can take one more record: its region must stay inside
/// the buffer and its length inside the replicated 32-bit count field.
pub open spec fn table_can_grow(m: ImageView) -> bool {
    &&& 512 * (m.n() + 1) + PART_RECORD_BYTES <= m.raw.len()
    &&& m.n() + 1 <= 0xffff_ffff
}

/// The record that appending a partition builds, before the table-wide
/// count recomputation.
pub open spec fn pushed_record(name: Seq<char>, ty: Seq<char>, start: int, len: int) -> PartView {
    PartView {
        start: start as u32,
        length: len as u32,
        data_count: len as u32,
        name,
        ty,
        ..PartView::fresh()
    }
}

impl ApmMap {
    /// Copies `data` into `buf` at `off` and zero-fills the rest of the
    /// extent's `ext` bytes, leaving all bytes outside `[off, off + ext)`
    /// alone.
    fn write_payload(buf: &mut Vec<u8>, off: usize, data: &[u8], ext: usize)
        requires
            data@.len() <= ext,
            off + ext <= old(buf)@.len(),
        ensures
            final(buf)@.len() == old(buf)@.len(),
            forall|k: int|
                0 <= k < old(buf)@.len() && !(off <= k < off + ext) ==> final(buf)@[k] == old(
                    buf,
                )@[k],
            forall|k: int|
                off <= k < off + data@.len() ==> final(buf)@[k] == data@[k - off],
            forall|k: int| off + data@.len() <= k < off + ext ==> final(buf)@[k] == 0u8,
    {
        let buf_len = buf.len();
        let n = data.len();
        let mut i: usize = 0;
        while i < n
            invariant
                i <= n,
                n == data@.len() <= ext,
                off + ext <= buf@.len() && buf@.len() <= usize::MAX,
                buf@.len() == old(buf)@.len(),
                forall|k: int|
                    0 <= k < old(buf)@.len() && !(off <= k < off + i) ==> buf@[k] == old(
                        buf,
                    )@[k],
                forall|k: int| off <= k < off + i ==> buf@[k] == data@[k - off],
            decreases n - i,
        {
            buf[off + i] = *vstd::slice::slice_index_get(data, i);
            i = i + 1;
        }
        crate::wire::put_zeros(buf, off + n, ext - n);
    }

    /// The start block for a new extent of `size` blocks: the bump
    /// allocator's frontier, or a capacity error when the extent would run
    /// past the device's end.
    fn find_hole(&self, size: u64) -> (r: Result<u32, ApmError>)
        ensures
            r matches Ok(h) ==> h == hole_after(self@.partitions) && alloc_ok(self@, size as int),
            r is Err <==> !alloc_ok(self@, size as int),
            r is Err ==> r == Err::<u32, ApmError>(ApmError::NoSpace),
    {
        let n = self.partitions.len();
        let mut hole: u64 = 1;
        let mut i: usize = 0;
        proof {
            assert(self@.partitions.take(0) =~= Seq::<PartView>::empty());
        }
        while i < n
            invariant
                i <= n,
                n == self.partitions@.len(),
                self@.partitions.len() == n,
                hole == hole_after(self@.partitions.take(i as int)),
                hole <= 0x2_0000_0000u64,
            decreases n - i,
        {
            proof {
                lemma_hole_after_low(self@.partitions.take(i as int));
                assert(self@.partitions.take(i + 1).drop_last() =~= self@.partitions.take(
                    i as int,
                ));
                assert(self@.partitions.take(i + 1).last() == self@.partitions[i as int]);
            }
            let p = &self.partitions[i];
            if !p.is_free_type() {
                let e = p.extent_end();
                if e > hole {
                    hole = e;
                }
            }
            i = i + 1;
        }
        proof {
            assert(self@.partitions.take(n as int) =~= self@.partitions);
            lemma_hole_after_low(self@.partitions);
        }
        let total64: u64 = (self.raw_data.len() / 512) as u64;
        let cap: u64 = if total64 > 0xffff_ffff {
            0xffff_ffff
        } else {
            total64
        };
        if size > 0xffff_ffff_ffff || hole + size > cap {
            Err(ApmError::NoSpace)
        } else {
            Ok(hole as u32)
        }
    }
}

impl ApmMap {
    /// Whole blocks needed for `len` payload bytes.
    fn blocks_for(len: usize) -> (r: u64)
        ensures
            r == blocks_of(len as int),
    {
        let q = (len as u64) / 512;
        let rem = (len as u64) % 512;
        let r = q + if rem != 0 {
            1
        } else {
            0
        };
        proof {
            assert(r == blocks_of(len as int)) by (nonlinear_arith)
                requires
                    q == (len as u64) / 512,
                    rem == (len as u64) % 512,
                    r == q + (if rem != 0 { 1u64 } else { 0u64 }),
            ;
        }
        r
    }

    /// Appends a partition holding `data`: rounds the payload up to whole
    /// blocks, places it at the allocator's frontier, copies it in with the
    /// rounding remainder zero-filled, appends the record, and recomputes
    /// every record's replicated table length.
    ///
    /// A too-long label is reported before anything changes, as is an
    /// extent that would run past the device's end or a table with no room
    /// for one more record; on any error the image is left untouched.
    pub fn push_partition(&mut self, name: &str, ty: &str, data: &[u8]) -> (r: Result<
        (),
        ApmError,
    >)
        requires
            old(self)@.wf(),
            label_ascii(name@),
            label_ascii(ty@),
        ensures
            final(self)@.wf(),
            r is Err ==> final(self)@ == old(self)@,
            r == Err::<(), ApmError>(ApmError::LabelTooLong) <==> name@.len() > 32 || ty@.len()
                > 32,
            r == Err::<(), ApmError>(ApmError::NoSpace) <==> name@.len() <= 32 && ty@.len() <= 32
                && !(alloc_ok(old(self)@, blocks_of(data@.len() as int)) && table_can_grow(
                old(self)@,
            )),
            r is Ok <==> name@.len() <= 32 && ty@.len() <= 32 && alloc_ok(
                old(self)@,
                blocks_of(data@.len() as int),
            ) && table_can_grow(old(self)@),
            r is Ok ==> final(self)@.partitions =~= set_counts(
                old(self)@.partitions.push(
                    pushed_record(
                        name@,
                        ty@,
                        hole_after(old(self)@.partitions),
                        blocks_of(data@.len() as int),
                    ),
                ),
            ),
            r is Ok ==> final(self)@.table_dirty && final(self)@.desc_dirty == old(
                self,
            )@.desc_dirty && final(self)@.desc == old(self)@.desc,
            r is Ok ==> payload_written(
                old(self)@.raw,
                final(self)@.raw,
                hole_after(old(self)@.partitions),
                data@,
            ),
            r is Ok ==> final(self)@.counts_ok(),
            old(self)@.mirrored() ==> final(self)@.mirrored(),
            old(self)@.synced() ==> final(self)@.synced(),
    {
        let ghost pre = self@;
        if name.unicode_len() > 32 || ty.unicode_len() > 32 {
            return Err(ApmError::LabelTooLong);
        }
        let blocks = Self::blocks_for(data.len());
        let n = self.partitions.len();
        if (n as u64) + 1 > 0xffff_ffff || 512 * ((n as u64) + 1) + (PART_RECORD_BYTES as u64)
            > self.raw_data.len() as u64 {
            return Err(ApmError::NoSpace);
        }
        let hole = match self.find_hole(blocks) {
            Ok(h) => h,
            Err(_) => {
                return Err(ApmError::NoSpace);
            },
        };
        proof {
            lemma_hole_after_low(pre.partitions);
            let total = pre.raw.len() as int / 512;
            assert((hole + blocks) * 512 <= total * 512) by (nonlinear_arith)
                requires
                    hole + blocks <= total,
                    512 > 0,
            ;
            assert(total * 512 <= pre.raw.len());
        }
        let off: usize = (hole as usize) * 512;
        let ext: usize = (blocks as usize) * 512;
        Self::write_payload(&mut self.raw_data, off, data, ext);
        let entry = PartitionEntry::new().with_start(hole).with_length(blocks as u32).with_name(
            name,
        ).with_type(ty);
        self.partitions.push(entry);
        proof {
            assert(self@.partitions =~= pre.partitions.push(
                pushed_record(name@, ty@, hole as int, blocks as int),
            ));
        }
        self.update_partition_count();
        self.update_partition_table = true;
        proof {
            assert(final(self)@.partitions =~= set_counts(
                pre.partitions.push(pushed_record(name@, ty@, hole as int, blocks as int)),
            ));
            if !pre.desc_dirty && pre.desc_synced() {
                lemma_parse_desc_unchanged(final(self)@.raw, pre.raw);
            }
        }
        Ok(())
    }
}

/// Exactly the payload write of an append: `data` copied to the extent at
/// block `h`, the rounding remainder zero-filled, and every byte outside
/// the extent unchanged.
pub open spec fn payload_written(pre: Seq<u8>, post: Seq<u8>, h: int, data: Seq<u8>) -> bool {
    let b = blocks_of(data.len() as int);
    &&& post.len() == pre.len()
    &&& forall|k: int| 512 * h <= k < 512 * h + data.len() ==> post[k] == data[k - 512 * h]
    &&& forall|k: int| 512 * h + data.len() <= k < 512 * (h + b) ==> post[k] == 0u8
    &&& forall|k: int|
        0 <= k < pre.len() && !(512 * h <= k < 512 * (h + b)) ==> post[k] == pre[k]
}

/// Whether the descriptor's driver list can take one more record and still
/// serialize inside block 0.
pub open spec fn desc_can_grow(d: DescView) -> bool {
    DESC_HEADER_BYTES + DRIVER_RECORD_BYTES * (d.drivers.len() + 1) <= BLOCK_BYTES
}

impl ApmMap {
    /// Appends a partition at a caller-chosen start block, attaching the
    /// conventional boot-code metadata of a legacy boot driver. No overlap
    /// check is made against existing entries: the caller answers for the
    /// position, which must lie past block 0 with the whole rounded extent
    /// inside the buffer.
    pub fn push_partition_at(&mut self, name: &str, ty: &str, proc: &str, data: &[u8],
        start: u32) -> (r: Result<(), ApmError>)
        requires
            old(self)@.wf(),
            label_ascii(name@),
            label_ascii(ty@),
            label_ascii(proc@),
            start >= 1,
            (start as int + blocks_of(data@.len() as int)) * 512 <= old(self)@.raw.len(),
        ensures
            final(self)@.wf(),
            r is Err ==> final(self)@ == old(self)@,
            r == Err::<(), ApmError>(ApmError::LabelTooLong) <==> name@.len() > 32 || ty@.len()
                > 32 || proc@.len() > 16,
            r == Err::<(), ApmError>(ApmError::NoSpace) <==> name@.len() <= 32 && ty@.len() <= 32
                && proc@.len() <= 16 && !table_can_grow(old(self)@),
            r is Ok <==> name@.len() <= 32 && ty@.len() <= 32 && proc@.len() <= 16
                && table_can_grow(old(self)@),
            r is Ok ==> final(self)@.partitions =~= set_counts(
                old(self)@.partitions.push(
                    (PartView {
                        boot_size: 9392,
                        boot_checksum: 0xf624,
                        proc_type: proc@,
                        ..pushed_record(
                            name@,
                            ty@,
                            start as int,
                            blocks_of(data@.len() as int),
                        )
                    }),
                ),
            ),
            r is Ok ==> final(self)@.table_dirty && final(self)@.desc_dirty == old(
                self,
            )@.desc_dirty && final(self)@.desc == old(self)@.desc,
            r is Ok ==> payload_written(old(self)@.raw, final(self)@.raw, start as int, data@),
            r is Ok ==> final(self)@.counts_ok(),
            old(self)@.mirrored() ==> final(self)@.mirrored(),
            old(self)@.synced() ==> final(self)@.synced(),
    {
        let ghost pre = self@;
        if name.unicode_len() > 32 || ty.unicode_len() > 32 || proc.unicode_len() > 16 {
            return Err(ApmError::LabelTooLong);
        }
        let blocks = Self::blocks_for(data.len());
        let n = self.partitions.len();
        if (n as u64) + 1 > 0xffff_ffff || 512 * ((n as u64) + 1) + (PART_RECORD_BYTES as u64)
            > self.raw_data.len() as u64 {
            return Err(ApmError::NoSpace);
        }
        proof {
            assert((start as int + blocks as int) * 512 == 512 * (start as int) + 512 * (
            blocks as int)) by (nonlinear_arith);
        }
        let off: usize = (start as usize) * 512;
        let ext: usize = (blocks as usize) * 512;
        Self::write_payload(&mut self.raw_data, off, data, ext);
        let entry = PartitionEntry::new().with_start(start).with_length(
            blocks as u32,
        ).with_name(name).with_type(ty).with_checksum(0xf624).with_boot_code_size(
            9392,
        ).with_proc_type(proc);
        self.partitions.push(entry);
        proof {
            assert(self@.partitions =~= pre.partitions.push(
                (PartView {
                    boot_size: 9392,
                    boot_checksum: 0xf624,
                    proc_type: proc@,
                    ..pushed_record(name@, ty@, start as int, blocks as int)
                }),
            ));
        }
        self.update_partition_count();
        self.update_partition_table = true;
        proof {
            assert(final(self)@.partitions =~= set_counts(
                pre.partitions.push(
                    (PartView {
                        boot_size: 9392,
                        boot_checksum: 0xf624,
                        proc_type: proc@,
                        ..pushed_record(name@, ty@, start as int, blocks as int)
                    }),
                ),
            ));
            if !pre.desc_dirty && pre.desc_synced() {
                lemma_parse_desc_unchanged(final(self)@.raw, pre.raw);
            }
        }
        Ok(())
    }

    /// Appends a driver: places its payload at the allocator's frontier
    /// and appends its record to the descriptor block's list.
    ///
    /// A capacity error is returned, with the image untouched, when the
    /// extent would run past the device's end, when its block count would
    /// not fit the record's 16-bit size field, or when one more record
    /// would push the descriptor block past block 0.
    #[verifier::rlimit(60)]
    pub fn push_driver(&mut self, ty: u16, data: &[u8]) -> (r: Result<(), ApmError>)
        requires
            old(self)@.wf(),
        ensures
            final(self)@.wf(),
            r is Err ==> final(self)@ == old(self)@,
            r is Err ==> r == Err::<(), ApmError>(ApmError::NoSpace),
            r is Err <==> !(alloc_ok(old(self)@, blocks_of(data@.len() as int)) && desc_can_grow(
                old(self)@.desc,
            ) && blocks_of(data@.len() as int) <= 0xffff),
            r is Ok ==> final(self)@.desc == (DescView {
                drivers: old(self)@.desc.drivers.push(
                    (DriverDataView {
                        start: hole_after(old(self)@.partitions) as u32,
                        size: blocks_of(data@.len() as int) as u16,
                        system_type: ty,
                    }),
                ),
                ..old(self)@.desc
            }),
            r is Ok ==> final(self)@.desc_dirty && final(self)@.table_dirty == old(
                self,
            )@.table_dirty && final(self)@.partitions == old(self)@.partitions,
            r is Ok ==> payload_written(
                old(self)@.raw,
                final(self)@.raw,
                hole_after(old(self)@.partitions),
                data@,
            ),
            old(self)@.counts_ok() ==> final(self)@.counts_ok(),
            old(self)@.mirrored() ==> final(self)@.mirrored(),
            old(self)@.synced() && hole_after(old(self)@.partitions) >= 1 + old(self)@.n()
                ==> final(self)@.synced(),
    {
        let ghost pre = self@;
        let cur_len = self.raw_data.len();
        let blocks = Self::blocks_for(data.len());
        let nd = self.driver_desc.drivers().len();
        if DESC_HEADER_BYTES + DRIVER_RECORD_BYTES * (nd + 1) > BLOCK_BYTES || blocks > 0xffff {
            return Err(ApmError::NoSpace);
        }
        let hole = match self.find_hole(blocks) {
            Ok(h) => h,
            Err(_) => {
                return Err(ApmError::NoSpace);
            },
        };
        proof {
            lemma_hole_after_low(pre.partitions);
            let total = pre.raw.len() as int / 512;
            assert((hole + blocks) * 512 <= total * 512) by (nonlinear_arith)
                requires
                    hole + blocks <= total,
                    512 > 0,
            ;
            assert((hole as int + blocks as int) * 512 == (hole as int) * 512 + (
            blocks as int) * 512) by (nonlinear_arith);
            assert(total * 512 <= pre.raw.len());
        }
        let off: usize = (hole as usize) * 512;
        let ext: usize = (blocks as usize) * 512;
        Self::write_payload(&mut self.raw_data, off, data, ext);
        self.driver_desc.push_driver_data(DriverData::new(hole, blocks as u16, ty));
        self.update_driver_desc = true;
        proof {
            let post = final(self)@;
            if pre.synced() && hole_after(pre.partitions) >= 1 + pre.n() {
                if !pre.table_dirty {
                    assert forall|i: int| 0 <= i < post.n() implies parse_part_at(
                        post.raw,
                        512 * (1 + i),
                    ) == Some(#[trigger] post.partitions[i]) by {
                        assert(512 * (1 + i) + PART_RECORD_BYTES <= 512 * (1 + pre.n())
                            <= 512 * (hole as int)) by (nonlinear_arith)
                            requires
                                0 <= i < pre.n(),
                                PART_RECORD_BYTES <= 512,
                                1 + pre.n() <= hole as int,
                        ;
                        lemma_parse_part_unchanged(post.raw, pre.raw, 512 * (1 + i));
                    }
                }
            }
        }
        Ok(())
    }
}

/// Whether byte `k` lies inside one of the `n` record windows of the
/// table region: within the first 136 bytes of one of blocks 1 ..= n.
pub open spec fn in_table_region(n: int, k: int) -> bool {
    &&& 512 <= k
    &&& (k - 512) / 512 < n
    &&& (k - 512) % 512 < PART_RECORD_BYTES
}

/// Byte `k` of the buffer after an encode of `m`: the serialized
/// descriptor where that is dirty, the serialized records (with their
/// replicated table length recomputed) where the table is dirty, and the
/// buffer's existing byte everywhere else.
pub open spec fn encoded_byte(m: ImageView, k: int) -> u8 {
    if m.desc_dirty && k < m.desc.enc_len() {
        desc_byte(m.desc, k)
    } else if m.table_dirty && in_table_region(m.n(), k) {
        part_byte(count_set(m.partitions[(k - 512) / 512], m.n()), (k - 512) % 512)
    } else {
        m.raw[k]
    }
}

/// The whole buffer an encode of `m` leaves behind and returns.
pub open spec fn encode_spec(m: ImageView) -> Seq<u8> {
    Seq::new(m.raw.len(), |k: int| encoded_byte(m, k))
}

impl ApmMap {
    /// Re-serializes whatever is marked dirty into the raw buffer — the
    /// descriptor with its driver count recomputed, the table with every
    /// record's replicated length recomputed — and returns the full
    /// buffer, untouched payload regions included. Repeatable: the dirty
    /// flags are not cleared, and a second call writes the same bytes.
    #[verifier::rlimit(60)]
    pub fn encode(&mut self) -> (r: Result<Vec<u8>, ApmError>)
        requires
            old(self)@.wf(),
        ensures
            final(self)@.wf(),
            r is Ok,
            final(self)@.raw == encode_spec(old(self)@),
            r matches Ok(out) ==> out@ == final(self)@.raw,
            final(self)@.desc == old(self)@.desc,
            final(self)@.desc_dirty == old(self)@.desc_dirty,
            final(self)@.table_dirty == old(self)@.table_dirty,
            final(self)@.partitions == (if old(self)@.table_dirty {
                set_counts(old(self)@.partitions)
            } else {
                old(self)@.partitions
            }),
            old(self)@.table_dirty ==> final(self)@.counts_ok(),
            old(self)@.mirrored() ==> final(self)@.mirrored(),
            old(self)@.synced() ==> final(self)@.table_synced() && final(self)@.desc_synced(),
    {
        let ghost pre = self@;
        let raw_len = self.raw_data.len();
        if self.update_driver_desc {
            write_desc(&mut self.raw_data, &self.driver_desc);
        }
        let ghost after_desc = self.raw_data@;
        if self.update_partition_table {
            self.update_partition_count();
            let ghost cparts = self@.partitions;
            let n = self.partitions.len();
            proof {
                assert(cparts =~= set_counts(pre.partitions));
                assert(self.raw_data@.len() == pre.raw.len());
                assert forall|j: int| 0 <= j < n implies (#[trigger] cparts[j]).codec_wf() by {
                    assert(cparts[j] == count_set(pre.partitions[j], pre.n()));
                    assert(pre.partitions[j].codec_wf());
                }
            }
            let mut i: usize = 0;
            while i < n
                invariant
                    i <= n,
                    n == self.partitions@.len(),
                    self@.partitions == cparts,
                    512 * n + PART_RECORD_BYTES <= self.raw_data@.len(),
                    self.raw_data@.len() == after_desc.len() <= usize::MAX,
                    forall|j: int| 0 <= j < n ==> (#[trigger] cparts[j]).codec_wf(),
                    self.update_driver_desc == pre.desc_dirty,
                    self.update_partition_table,
                    self.driver_desc@ == pre.desc,
                    forall|j: int, t: int|
                        0 <= j < i && 0 <= t < PART_RECORD_BYTES ==> self.raw_data@[512 * (1
                            + j) + t] == #[trigger] part_enc(cparts[j])[t],
                    forall|k: int|
                        0 <= k < after_desc.len() && !(512 <= k < 512 * (1 + i) && (k - 512)
                            % 512 < PART_RECORD_BYTES) ==> self.raw_data@[k] == after_desc[k],
                decreases n - i,
            {
                let ghost loop_pre = self.raw_data@;
                let off: usize = 512 * (1 + i);
                proof {
                    assert(self.partitions@[i as int]@ == cparts[i as int]);
                }
                write_part(&mut self.raw_data, off, &self.partitions[i]);
                proof {
                    assert forall|j: int, t: int|
                        0 <= j < i + 1 && 0 <= t < PART_RECORD_BYTES implies self.raw_data@[512
                        * (1 + j) + t] == #[trigger] part_enc(cparts[j])[t] by {
                        if j < i {
                            assert((512 * (1 + j) + t - 512) % 512 == t) by (nonlinear_arith)
                                requires
                                    0 <= j,
                                    0 <= t < 512,
                            ;
                            assert(512 * (1 + j) + t < 512 * (1 + i));
                            assert(self.raw_data@[512 * (1 + j) + t] == loop_pre[512 * (1 + j)
                                + t]);
                        }
                    }
                    assert forall|k: int|
                        0 <= k < after_desc.len() && !(512 <= k < 512 * (1 + i + 1) && (k
                            - 512) % 512 < PART_RECORD_BYTES) implies self.raw_data@[k]
                        == after_desc[k] by {
                        if 512 * (1 + i) <= k < 512 * (1 + i) + PART_RECORD_BYTES {
                            assert((k - 512) % 512 < PART_RECORD_BYTES) by (nonlinear_arith)
                                requires
                                    512 * (1 + i) <= k < 512 * (1 + i) + PART_RECORD_BYTES,
                                    0 <= i,
                            ;
                        } else {
                            assert(self.raw_data@[k] == loop_pre[k]);
                        }
                    }
                }
                i = i + 1;
            }
        }
        let out = vstd::slice::slice_to_vec(self.raw_data.as_slice());
        proof {
            lemma_encode_bytes(pre, after_desc, final(self)@);
            if pre.synced() {
                lemma_encode_synced(pre, final(self)@);
            }
        }
        Ok(out)
    }
}

/// Each record window of the table region maps back to its record index
/// and offset.
proof fn lemma_region_split(n: int, k: int)
    requires
        in_table_region(n, k),
    ensures
        512 * (1 + (k - 512) / 512) + (k - 512) % 512 == k,
        0 <= (k - 512) / 512,
        0 <= (k - 512) % 512 < PART_RECORD_BYTES,
{
    vstd::arithmetic::div_mod::lemma_fundamental_div_mod(k - 512, 512);
    vstd::arithmetic::div_mod::lemma_mod_bound(k - 512, 512);
    vstd::arithmetic::div_mod::lemma_div_pos_is_pos(k - 512, 512);
}

/// After the two encode phases the buffer is exactly `encode_spec` of the
/// image as it stood before them.
proof fn lemma_encode_bytes(pre: ImageView, after_desc: Seq<u8>, post: ImageView)
    requires
        pre.wf(),
        after_desc.len() == pre.raw.len(),
        pre.desc_dirty ==> forall|k: int|
            0 <= k < pre.desc.enc_len() ==> after_desc[k] == #[trigger] desc_enc(pre.desc)[k],
        pre.desc_dirty ==> forall|k: int|
            pre.desc.enc_len() <= k < pre.raw.len() ==> after_desc[k] == pre.raw[k],
        !pre.desc_dirty ==> after_desc == pre.raw,
        post.raw.len() == after_desc.len(),
        pre.table_dirty ==> forall|j: int, t: int|
            0 <= j < pre.n() && 0 <= t < PART_RECORD_BYTES ==> post.raw[512 * (1 + j) + t]
                == #[trigger] part_enc(set_counts(pre.partitions)[j])[t],
        pre.table_dirty ==> forall|k: int|
            0 <= k < after_desc.len() && !(512 <= k < 512 * (1 + pre.n()) && (k - 512) % 512
                < PART_RECORD_BYTES) ==> post.raw[k] == after_desc[k],
        !pre.table_dirty ==> post.raw == after_desc,
    ensures
        post.raw == encode_spec(pre),
{
    assert(pre.desc.enc_len() <= BLOCK_BYTES);
    assert forall|k: int| 0 <= k < pre.raw.len() implies post.raw[k] == encoded_byte(
        pre,
        k,
    ) by {
        assert(pre.desc.enc_len() <= BLOCK_BYTES);
        if pre.desc_dirty && k < pre.desc.enc_len() {
            assert(pre.desc.enc_len() <= BLOCK_BYTES);
            if pre.table_dirty {
                assert(!(512 <= k < 512 * (1 + pre.n()) && (k - 512) % 512
                    < PART_RECORD_BYTES));
            }
            assert(post.raw[k] == after_desc[k]);
            assert(after_desc[k] == desc_enc(pre.desc)[k]);
            assert(desc_enc(pre.desc)[k] == desc_byte(pre.desc, k));
        } else if pre.table_dirty && in_table_region(pre.n(), k) {
            lemma_region_split(pre.n(), k);
            let j = (k - 512) / 512;
            let t = (k - 512) % 512;
            assert(post.raw[512 * (1 + j) + t] == part_enc(set_counts(pre.partitions)[j])[t]);
            assert(set_counts(pre.partitions)[j] == count_set(pre.partitions[j], pre.n()));
        } else {
            if pre.table_dirty {
                if 512 <= k < 512 * (1 + pre.n()) {
                    vstd::arithmetic::div_mod::lemma_fundamental_div_mod(k - 512, 512);
                    vstd::arithmetic::div_mod::lemma_mod_bound(k - 512, 512);
                    assert((k - 512) / 512 < pre.n()) by (nonlinear_arith)
                        requires
                            k - 512 == 512 * ((k - 512) / 512) + ((k - 512) % 512),
                            0 <= (k - 512) % 512,
                            k < 512 * (1 + pre.n()),
                    ;
                    assert((k - 512) % 512 >= PART_RECORD_BYTES);
                }
                assert(!(512 <= k < 512 * (1 + pre.n()) && (k - 512) % 512
                    < PART_RECORD_BYTES));
            }
            assert(post.raw[k] == after_desc[k]);
            if pre.desc_dirty {
                assert(pre.desc.enc_len() <= BLOCK_BYTES);
                assert(after_desc[k] == pre.raw[k]);
            }
        }
    }
    assert(post.raw =~= encode_spec(pre));
}

/// An encode leaves every part of the buffer parsing back to the
/// in-memory structures, provided nothing clean had gone stale.
proof fn lemma_encode_synced(pre: ImageView, post: ImageView)
    requires
        pre.wf(),
        pre.synced(),
        post.raw == encode_spec(pre),
        post.desc == pre.desc,
        post.partitions == (if pre.table_dirty {
            set_counts(pre.partitions)
        } else {
            pre.partitions
        }),
    ensures
        post.table_synced(),
        post.desc_synced(),
{
    let e = encode_spec(pre);
    assert(e.len() == pre.raw.len());
    // Block 0: either freshly serialized, or untouched and already synced.
    if pre.desc_dirty {
        assert forall|k: int| 0 <= k < pre.desc.enc_len() implies e.subrange(
            0,
            pre.desc.enc_len(),
        )[k] == desc_enc(pre.desc)[k] by {
            if in_table_region(pre.n(), k) {
                assert(false);
            }
        }
        assert(e.subrange(0, pre.desc.enc_len()) =~= desc_enc(pre.desc));
        assert(pre.desc.drivers.len() <= 0xffff) by {
            assert(pre.desc.enc_len() <= BLOCK_BYTES);
        }
        lemma_desc_round(pre.desc, e);
    } else {
        assert forall|k: int| 0 <= k < BLOCK_BYTES implies e[k] == #[trigger] pre.raw[k] by {
            if in_table_region(pre.n(), k) {
                assert(false);
            }
        }
        lemma_parse_desc_unchanged(e, pre.raw);
    }
    // The table: either freshly serialized, or untouched and already synced.
    if pre.table_dirty {
        let cparts = set_counts(pre.partitions);
        assert forall|j: int| 0 <= j < pre.n() implies parse_part_at(e, 512 * (1 + j)) == Some(
            #[trigger] cparts[j],
        ) by {
            assert forall|t: int| 0 <= t < PART_RECORD_BYTES implies e.subrange(
                512 * (1 + j),
                512 * (1 + j) + PART_RECORD_BYTES,
            )[t] == part_enc(cparts[j])[t] by {
                let k = 512 * (1 + j) + t;
                assert((k - 512) / 512 == j && (k - 512) % 512 == t) by (nonlinear_arith)
                    requires
                        k == 512 * (1 + j) + t,
                        0 <= j,
                        0 <= t < 512,
                ;
                assert(512 <= k && (k - 512) / 512 < pre.n());
                assert(!(pre.desc_dirty && k < pre.desc.enc_len()));
                assert(e[k] == part_byte(count_set(pre.partitions[j], pre.n()), t));
            }
            assert(e.subrange(512 * (1 + j), 512 * (1 + j) + PART_RECORD_BYTES) =~= part_enc(
                cparts[j],
            ));
            assert(cparts[j].codec_wf());
            lemma_part_round(cparts[j], e, 512 * (1 + j));
        }
        assert(post.partitions[0].partition_count == pre.n() as u32);
        assert(post.n() == post.partitions[0].partition_count as int);
    } else {
        assert forall|j: int| 0 <= j < pre.n() implies parse_part_at(e, 512 * (1 + j)) == Some(
            #[trigger] pre.partitions[j],
        ) by {
            assert(512 * (1 + j) + PART_RECORD_BYTES <= 512 * pre.n() + PART_RECORD_BYTES);
            assert forall|k: int|
                512 * (1 + j) <= k < 512 * (1 + j) + PART_RECORD_BYTES implies e[k]
                == #[trigger] pre.raw[k] by {
                assert(!(pre.desc_dirty && k < pre.desc.enc_len())) by {
                    assert(pre.desc.enc_len() <= BLOCK_BYTES);
                    assert(k >= 512);
                }
            }
            lemma_parse_part_unchanged(e, pre.raw, 512 * (1 + j));
            assert(parse_part_at(pre.raw, 512 * (1 + j)) == Some(pre.partitions[j]));
        }
    }
}

/// The first `n` partition records parsed from blocks 1 ..= n of `b`:
/// `None` as soon as one of them fails to parse.
pub open spec fn parse_table(b: Seq<u8>, n: int) -> Option<Seq<PartView>>
    decreases n,
{
    if n <= 0 {
        Some(Seq::empty())
    } else {
        match parse_table(b, n - 1) {
            Option::None => None,
            Option::Some(ps) => match parse_part_at(b, 512 * n) {
                Option::None => None,
                Option::Some(p) => Some(ps.push(p)),
            },
        }
    }
}

/// The image decoded from `b`: the descriptor out of block 0, then
/// partition records from block 1 on until as many have been read as the
/// record at block 1 declares. `None` on any structural mismatch — a bad
/// magic or signature, too few bytes, or a declared record count of zero,
/// which no table can satisfy (its own record is already one).
pub open spec fn decode_spec(b: Seq<u8>) -> Option<ImageView> {
    match parse_desc(b) {
        Option::None => None,
        Option::Some(d) => match parse_part_at(b, 512) {
            Option::None => None,
            Option::Some(first) => {
                if first.partition_count == 0 {
                    None
                } else {
                    match parse_table(b, first.partition_count as int) {
                        Option::None => None,
                        Option::Some(ps) => Some(
                            ImageView {
                                desc_dirty: false,
                                desc: d,
                                table_dirty: false,
                                partitions: ps,
                                raw: b,
                            },
                        ),
                    }
                }
            },
        },
    }
}

/// A parsed table holds one record per block, each the parse of its own
/// block.
pub proof fn lemma_parse_table_index(b: Seq<u8>, n: int)
    requires
        parse_table(b, n) is Some,
        n >= 0,
    ensures
        parse_table(b, n).unwrap().len() == n,
        forall|j: int|
            0 <= j < n ==> parse_part_at(b, 512 * (1 + j)) == Some(
                #[trigger] parse_table(b, n).unwrap()[j],
            ),
    decreases n,
{
    if n > 0 {
        lemma_parse_table_index(b, n - 1);
        assert(512 * (1 + (n - 1)) == 512 * n);
    }
}

/// Conversely, when every block parses, the table parse succeeds and
/// returns exactly those records.
pub proof fn lemma_parse_table_all(b: Seq<u8>, ps: Seq<PartView>, n: int)
    requires
        n >= 0,
        ps.len() >= n,
        forall|j: int|
            0 <= j < n ==> parse_part_at(b, 512 * (1 + j)) == Some(#[trigger] ps[j]),
    ensures
        parse_table(b, n) == Some(ps.take(n)),
    decreases n,
{
    if n == 0 {
        assert(ps.take(0) =~= Seq::<PartView>::empty());
    } else {
        lemma_parse_table_all(b, ps, n - 1);
        assert(512 * (1 + (n - 1)) == 512 * n);
        assert(ps.take(n - 1).push(ps[n - 1]) =~= ps.take(n));
    }
}

/// A failed table parse stays failed as the requested length grows.
pub proof fn lemma_parse_table_none(b: Seq<u8>, j: int, n: int)
    requires
        parse_table(b, j) is None,
        j <= n,
    ensures
        parse_table(b, n) is None,
    decreases n - j,
{
    if j < n {
        lemma_parse_table_none(b, j + 1, n);
    }
}

/// A buffer that parses, decoded and then re-examined: the decoded
/// in-memory image is well formed and both of its parts are in sync with
/// the buffer it keeps.
pub proof fn lemma_decode_wf(b: Seq<u8>, m: ImageView)
    requires
        decode_spec(b) == Some(m),
    ensures
        m.wf(),
        m.table_synced(),
        m.desc_synced(),
        !m.desc_dirty && !m.table_dirty,
        m.raw == b,
{
    let first = parse_part_at(b, 512).unwrap();
    let n = first.partition_count as int;
    lemma_parse_table_index(b, n);
    assert(m.partitions.len() == n);
    assert(1 <= n <= 0xffff_ffff);
    assert(512 * (1 + (n - 1)) == 512 * n);
    assert(parse_part_at(b, 512 * (1 + (n - 1))) is Some);
    assert(512 * n + PART_RECORD_BYTES <= b.len());
    assert forall|i: int| 0 <= i < n implies (#[trigger] m.partitions[i]).codec_wf() by {
        let off = 512 * (1 + i);
        assert(parse_part_at(b, off) == Some(m.partitions[i]));
        crate::label::lemma_label_dec_chars(b.subrange(off + 16, off + 48));
        crate::label::lemma_label_dec_chars(b.subrange(off + 48, off + 80));
        crate::label::lemma_label_dec_chars(b.subrange(off + 120, off + 136));
    }
    assert(m.partitions[0] == first) by {
        assert(512 * (1 + 0) == 512);
    }
    assert(parse_desc(b) is Some);
    let d = parse_desc(b).unwrap();
    assert(d.wf()) by {
        assert(DESC_HEADER_BYTES + DRIVER_RECORD_BYTES * d.drivers.len() <= BLOCK_BYTES);
    }
}

impl ApmMap {
    /// Decodes a whole device image: block 0 as the descriptor, then
    /// partition records from block 1 until as many have been read as the
    /// first record declares, however many further bytes follow. On any
    /// structural mismatch — a bad magic or signature, too few bytes, or
    /// a declared record count of zero — a format error is returned and
    /// no image is built.
    pub fn decode(data: Vec<u8>) -> (r: Result<Self, ApmError>)
        ensures
            r is Ok <==> decode_spec(data@) is Some,
            r matches Ok(m) ==> Some(m@) == decode_spec(data@),
            r matches Ok(m) ==> m@.wf() && m@.table_synced() && m@.desc_synced()
                && !m@.desc_dirty && !m@.table_dirty && m@.raw == data@,
            r matches Err(e) ==> e == ApmError::Format,
    {
        let data_len = data.len();
        let desc = match parse_desc_block(data.as_slice()) {
            Some(d) => d,
            None => {
                return Err(ApmError::Format);
            },
        };
        let first = match parse_part_block(data.as_slice(), 512) {
            Some(p) => p,
            None => {
                return Err(ApmError::Format);
            },
        };
        let c = first.partition_count();
        if c == 0 {
            return Err(ApmError::Format);
        }
        let n: u64 = c as u64;
        let ghost target_n = parse_part_at(data@, 512).unwrap().partition_count as int;
        let mut partitions: Vec<PartitionEntry> = Vec::new();
        partitions.push(first);
        proof {
            assert(512 * 1 == 512);
            assert(parse_table(data@, 0) == Some(Seq::<PartView>::empty()));
            assert(partitions@.map_values(|p: PartitionEntry| p@) =~= Seq::<
                PartView,
            >::empty().push(parse_part_at(data@, 512).unwrap()));
        }
        let mut i: u64 = 1;
        while i < n
            invariant
                1 <= i <= n,
                n == target_n,
                n <= 0xffff_ffff,
                data_len == data@.len(),
                parse_desc(data@) is Some,
                parse_part_at(data@, 512) is Some,
                target_n == parse_part_at(data@, 512).unwrap().partition_count as int,
                target_n >= 1,
                partitions@.len() == i,
                parse_table(data@, i as int) == Some(
                    partitions@.map_values(|p: PartitionEntry| p@),
                ),
            decreases n - i,
        {
            let off64: u64 = 512 * (i + 1);
            if off64 > data_len as u64 || (data_len as u64) - off64 < PART_RECORD_BYTES as u64 {
                proof {
                    assert(parse_part_at(data@, 512 * (1 + i as int)) is None);
                    assert(parse_table(data@, i as int + 1) is None);
                    lemma_parse_table_none(data@, i as int + 1, n as int);
                }
                return Err(ApmError::Format);
            }
            let off: usize = off64 as usize;
            let p = match parse_part_block(data.as_slice(), off) {
                Some(p) => p,
                None => {
                    proof {
                        assert(parse_table(data@, i as int + 1) is None);
                        lemma_parse_table_none(data@, i as int + 1, n as int);
                    }
                    return Err(ApmError::Format);
                },
            };
            partitions.push(p);
            proof {
                assert(partitions@.map_values(|q: PartitionEntry| q@) =~= parse_table(
                    data@,
                    i as int,
                ).unwrap().push(p@));
            }
            i = i + 1;
        }
        let m = Self {
            update_driver_desc: false,
            driver_desc: desc,
            update_partition_table: false,
            partitions,
            raw_data: data,
        };
        proof {
            assert(decode_spec(m.raw_data@) == Some(m@)) by {
                assert(m@.partitions == parse_table(m.raw_data@, target_n).unwrap());
                assert(decode_spec(m.raw_data@).unwrap() =~= m@);
            }
            lemma_decode_wf(m.raw_data@, m@);
        }
        Ok(m)
    }
}

/// Any well-formed, in-sync image re-serialized by an encode decodes back
/// to the same table and descriptor: every record keeps its start, length,
/// name, type and remaining fields, with only the replicated table-length
/// field rewritten to the table's length where the table was dirty.
pub proof fn lemma_encode_decode_round(m: ImageView)
    requires
        m.wf(),
        m.synced(),
    ensures
        decode_spec(encode_spec(m)) matches Some(m2) ==> {
            &&& m2.desc == m.desc
            &&& m2.partitions.len() == m.partitions.len()
            &&& forall|i: int|
                0 <= i < m.n() ==> (#[trigger] m2.partitions[i]) == (if m.table_dirty {
                    count_set(m.partitions[i], m.n())
                } else {
                    m.partitions[i]
                })
        },
        decode_spec(encode_spec(m)) is Some,
{
    let e = encode_spec(m);
    let post = ImageView {
        desc_dirty: m.desc_dirty,
        desc: m.desc,
        table_dirty: m.table_dirty,
        partitions: if m.table_dirty {
            set_counts(m.partitions)
        } else {
            m.partitions
        },
        raw: e,
    };
    lemma_encode_synced(m, post);
    assert(parse_desc(e) == Some(m.desc));
    assert(512 * (1 + 0) == 512);
    assert(parse_part_at(e, 512) == Some(post.partitions[0]));
    let first = parse_part_at(e, 512).unwrap();
    assert(first.partition_count as int == post.n());
    assert(first.partition_count != 0);
    lemma_parse_table_all(e, post.partitions, post.n());
    assert(post.partitions.take(post.n()) =~= post.partitions);
    assert(decode_spec(e).unwrap().partitions == post.partitions);
    assert forall|i: int| 0 <= i < m.n() implies (#[trigger] post.partitions[i]) == (
    if m.table_dirty {
        count_set(m.partitions[i], m.n())
    } else {
        m.partitions[i]
    }) by {}
}

impl ApmMap {
    /// The payload bytes of driver `num`: the blocks its record points at.
    /// Defined when the record exists and its extent lies inside the
    /// buffer.
    pub fn driver_bytes(&self, num: usize) -> (r: &[u8])
        requires
            num < self@.desc.drivers.len(),
            (self@.desc.drivers[num as int].start + self@.desc.drivers[num as int].size) * 512
                <= self@.raw.len(),
        ensures
            r@ == self@.raw.subrange(
                self@.desc.drivers[num as int].start * 512,
                (self@.desc.drivers[num as int].start + self@.desc.drivers[num as int].size)
                    * 512,
            ),
    {
        let raw_len = self.raw_data.len();
        let d = &self.driver_desc.drivers()[num];
        proof {
            let dv = self@.desc.drivers[num as int];
            assert(d@ == dv);
            assert((dv.start as int) * 512 + (dv.size as int) * 512 == (dv.start + dv.size)
                * 512) by (nonlinear_arith);
            assert((dv.start as int) * 512 >= 0);
        }
        let lo: usize = (d.start() as usize) * 512;
        let hi: usize = lo + (d.size() as usize) * 512;
        vstd::slice::slice_subrange(self.raw_data.as_slice(), lo, hi)
    }

    /// The payload bytes of partition `idx`, or `None` when no such record
    /// exists or its extent runs past the buffer.
    pub fn partition_data(&self, idx: usize) -> (r: Option<&[u8]>)
        ensures
            r is Some <==> idx < self@.n() && (self@.partitions[idx as int].start
                + self@.partitions[idx as int].length) * 512 <= self@.raw.len(),
            r matches Some(s) ==> s@ == self@.raw.subrange(
                self@.partitions[idx as int].start * 512,
                (self@.partitions[idx as int].start + self@.partitions[idx as int].length)
                    * 512,
            ),
    {
        let raw_len = self.raw_data.len();
        if idx >= self.partitions.len() {
            return None;
        }
        let p = &self.partitions[idx];
        let start64 = (p.start() as u64) * 512;
        let end64 = p.extent_end() * 512;
        proof {
            let pv = self@.partitions[idx as int];
            assert(p@ == pv);
            assert((pv.start as int) * 512 + (pv.length as int) * 512 == (pv.start + pv.length)
                * 512) by (nonlinear_arith);
        }
        if end64 > raw_len as u64 {
            return None;
        }
        Some(vstd::slice::slice_subrange(self.raw_data.as_slice(), start64 as usize,
            end64 as usize))
    }

    /// Overwrites the payload of partition `idx` with `src`, which must
    /// fill the extent exactly; returns whether anything was written.
    /// Nothing changes when the record does not exist, its extent runs
    /// past the buffer, or `src` has the wrong length. A write to an
    /// extent past the table region leaves a synced image in sync; one
    /// into the table region — the map partition's own payload — is a
    /// rewrite of the table bytes themselves.
    pub fn partition_data_mut(&mut self, idx: usize, src: &[u8]) -> (r: bool)
        ensures
            r <==> idx < old(self)@.n() && (old(self)@.partitions[idx as int].start + old(
                self,
            )@.partitions[idx as int].length) * 512 <= old(self)@.raw.len() && src@.len()
                == old(self)@.partitions[idx as int].length * 512,
            !r ==> final(self)@ == old(self)@,
            r ==> final(self)@ == (ImageView {
                raw: final(self)@.raw,
                ..old(self)@
            }) && final(self)@.raw.len() == old(self)@.raw.len(),
            r ==> forall|k: int|
                old(self)@.partitions[idx as int].start * 512 <= k < old(
                    self,
                )@.partitions[idx as int].start * 512 + src@.len() ==> final(self)@.raw[k]
                    == src@[k - old(self)@.partitions[idx as int].start * 512],
            r ==> forall|k: int|
                0 <= k < old(self)@.raw.len() && !(old(self)@.partitions[idx as int].start * 512
                    <= k < old(self)@.partitions[idx as int].start * 512 + src@.len())
                    ==> final(self)@.raw[k] == old(self)@.raw[k],
            old(self)@.wf() && old(self)@.synced() && (!r || old(
                self,
            )@.partitions[idx as int].start >= 1 + old(self)@.n()) ==> final(self)@.synced(),
    {
        let ghost pre = self@;
        let raw_len = self.raw_data.len();
        if idx >= self.partitions.len() {
            return false;
        }
        let p = &self.partitions[idx];
        let start64 = (p.start() as u64) * 512;
        let end64 = p.extent_end() * 512;
        proof {
            let pv = self@.partitions[idx as int];
            assert(p@ == pv);
            assert((pv.start as int) * 512 + (pv.length as int) * 512 == (pv.start + pv.length)
                * 512) by (nonlinear_arith);
        }
        if end64 > raw_len as u64 {
            return false;
        }
        if src.len() as u64 != end64 - start64 {
            return false;
        }
        Self::write_payload(&mut self.raw_data, start64 as usize, src, src.len());
        proof {
            let post = final(self)@;
            let st = pre.partitions[idx as int].start as int;
            if pre.wf() && pre.synced() && st >= 1 + pre.n() {
                if !pre.desc_dirty {
                    lemma_parse_desc_unchanged(post.raw, pre.raw);
                }
                if !pre.table_dirty {
                    assert forall|i: int| 0 <= i < post.n() implies parse_part_at(
                        post.raw,
                        512 * (1 + i),
                    ) == Some(#[trigger] post.partitions[i]) by {
                        assert(512 * (1 + i) + PART_RECORD_BYTES <= 512 * (1 + pre.n())
                            <= 512 * st) by (nonlinear_arith)
                            requires
                                0 <= i < pre.n(),
                                PART_RECORD_BYTES <= 512,
                                1 + pre.n() <= st,
                        ;
                        lemma_parse_part_unchanged(post.raw, pre.raw, 512 * (1 + i));
                    }
                }
            }
        }
        true
    }

    /// The indices of the used partitions — those whose type is not the
    /// free-space sentinel — in increasing order.
    pub fn partitions_used(&self) -> (r: Vec<usize>)
        ensures
            forall|k: int|
                0 <= k < r@.len() ==> 0 <= #[trigger] r@[k] < self@.n() && self@.partitions[r@[k]
                    as int].ty != spec_free_type(),
            forall|i: int|
                0 <= i < self@.n() && (#[trigger] self@.partitions[i]).ty != spec_free_type()
                    ==> r@.contains(i as usize),
            forall|k1: int, k2: int| 0 <= k1 < k2 < r@.len() ==> r@[k1] < r@[k2],
    {
        let n = self.partitions.len();
        let mut r: Vec<usize> = Vec::new();
        let mut i: usize = 0;
        while i < n
            invariant
                i <= n,
                n == self@.n(),
                n == self.partitions@.len(),
                forall|k: int|
                    0 <= k < r@.len() ==> 0 <= #[trigger] r@[k] < i && self@.partitions[r@[k]
                        as int].ty != spec_free_type(),
                forall|j: int|
                    0 <= j < i && (#[trigger] self@.partitions[j]).ty != spec_free_type()
                        ==> r@.contains(j as usize),
                forall|k1: int, k2: int| 0 <= k1 < k2 < r@.len() ==> r@[k1] < r@[k2],
            decreases n - i,
        {
            let ghost prev = r@;
            if !self.partitions[i].is_free_type() {
                r.push(i);
                proof {
                    assert forall|j: int|
                        0 <= j < i + 1 && (#[trigger] self@.partitions[j]).ty
                            != spec_free_type() implies r@.contains(j as usize) by {
                        if j < i {
                            let k = choose|k: int|
                                0 <= k < prev.len() && prev[k] == j as usize;
                            assert(r@[k] == j as usize);
                        } else {
                            assert(r@[r@.len() - 1] == i);
                        }
                    }
                }
            }
            i = i + 1;
        }
        r
    }
}

/// Re-serialization is repeatable: encoding the image an encode leaves
/// behind writes back exactly the same bytes, so repeated calls with no
/// intervening mutation return byte-identical buffers.
pub proof fn lemma_encode_repeatable(m: ImageView)
    requires
        m.wf(),
    ensures
        encode_spec(
            ImageView {
                partitions: if m.table_dirty {
                    set_counts(m.partitions)
                } else {
                    m.partitions
                },
                raw: encode_spec(m),
                ..m
            },
        ) == encode_spec(m),
{
    let m1 = ImageView {
        partitions: if m.table_dirty {
            set_counts(m.partitions)
        } else {
            m.partitions
        },
        raw: encode_spec(m),
        ..m
    };
    assert(m1.n() == m.n());
    assert forall|k: int| 0 <= k < m.raw.len() implies encoded_byte(m1, k) == encoded_byte(
        m,
        k,
    ) by {
        if m.desc_dirty && k < m.desc.enc_len() {
        } else if m.table_dirty && in_table_region(m.n(), k) {
            let j = (k - 512) / 512;
            lemma_region_split(m.n(), k);
            assert(m1.partitions[j] == count_set(m.partitions[j], m.n()));
            assert(count_set(count_set(m.partitions[j], m.n()), m.n()) == count_set(
                m.partitions[j],
                m.n(),
            ));
        } else {
            assert(m1.raw[k] == encoded_byte(m, k));
        }
    }
    assert(encode_spec(m1) =~= encode_spec(m));
}

} // verus!
