//! The fixed-layout records of the partition map: the block-0 driver
//! descriptor with its driver list, and the 512-byte partition record.
//!
//! Every field sits at a fixed offset, big-endian. The spec functions here
//! give the byte image of each record and the result of parsing one out of a
//! buffer; the executable codec is proved against them, and the parse of an
//! encoded record is proved to give the record back.
use vstd::prelude::*;

use crate::label::{label_dec, label_enc, label_fits, write_label, read_label};
use crate::wire::{be16_byte, be32_byte, read16, read32, get_be16, get_be32, put_be16, put_be32,
    put_zeros, lemma_be16_round, lemma_be32_round};

verus! {

/// Bytes in one device block.
pub const BLOCK_BYTES: usize = 512;

/// Bytes of a partition record's fields (the rest of its block is left as
/// it is).
pub const PART_RECORD_BYTES: usize = 136;

/// Bytes of the descriptor block's fixed header, before the driver list.
pub const DESC_HEADER_BYTES: usize = 18;

/// Bytes of one driver record inside the descriptor block.
pub const DRIVER_RECORD_BYTES: usize = 8;

/// The larger of the two recognized partition-record signatures.
pub const PART_SIG_PM: u16 = 0x504d;

/// The alternate legacy partition-record signature.
pub const PART_SIG_TS: u16 = 0x5453;

/// One driver record: where the driver sits and what system it targets.
#[derive(Clone, Debug)]
pub struct DriverData {
    /// Physical start block of the driver code.
    start: u32,
    /// Size in 512-byte blocks.
    size: u16,
    /// Operating system or processor the driver targets.
    system_type: u16,
}

/// The mathematical value of a driver record.
pub ghost struct DriverDataView {
    /// Physical start block of the driver code.
    pub start: u32,
    /// Size in 512-byte blocks.
    pub size: u16,
    /// Operating system or processor the driver targets.
    pub system_type: u16,
}

impl View for DriverData {
    type V = DriverDataView;

    closed spec fn view(&self) -> DriverDataView {
        DriverDataView { start: self.start, size: self.size, system_type: self.system_type }
    }
}

impl DriverData {
    /// Builds a driver record from its three fields.
    pub fn new(start: u32, size: u16, system_type: u16) -> (r: Self)
        ensures
            r@ == (DriverDataView { start, size, system_type }),
    {
        Self { start, size, system_type }
    }

    /// The driver's start block.
    pub fn start(&self) -> (r: u32)
        ensures
            r == self@.start,
    {
        self.start
    }

    /// The driver's size in blocks.
    pub fn size(&self) -> (r: u16)
        ensures
            r == self@.size,
    {
        self.size
    }

    /// The system type the driver targets.
    pub fn ty(&self) -> (r: u16)
        ensures
            r == self@.system_type,
    {
        self.system_type
    }
}

/// The block-0 header: device geometry and the ordered driver list.
#[derive(Clone, Debug)]
pub struct DriverDescriptorBlock {
    /// Block size of the device in bytes.
    block_size: u16,
    /// Size of the device in blocks.
    blk_count: u32,
    /// Reserved.
    dev_type: u16,
    /// Reserved.
    dev_id: u16,
    /// Reserved.
    data: u32,
    /// Drivers installed on the disk, in order; a driver's index is its
    /// external number. The on-disk count field is recomputed from this
    /// list whenever the block is serialized.
    drivers: Vec<DriverData>,
}

/// The mathematical value of the descriptor block.
pub ghost struct DescView {
    /// Block size of the device in bytes.
    pub block_size: u16,
    /// Size of the device in blocks.
    pub blk_count: u32,
    /// Reserved.
    pub dev_type: u16,
    /// Reserved.
    pub dev_id: u16,
    /// Reserved.
    pub data: u32,
    /// Drivers installed on the disk, in order.
    pub drivers: Seq<DriverDataView>,
}

impl View for DriverDescriptorBlock {
    type V = DescView;

    closed spec fn view(&self) -> DescView {
        DescView {
            block_size: self.block_size,
            blk_count: self.blk_count,
            dev_type: self.dev_type,
            dev_id: self.dev_id,
            data: self.data,
            drivers: self.drivers@.map_values(|d: DriverData| d@),
        }
    }
}

impl DescView {
    /// The descriptor block with the conventional fresh-device values and
    /// no drivers.
    pub open spec fn fresh() -> DescView {
        DescView {
            block_size: 0x200,
            blk_count: 0,
            dev_type: 1,
            dev_id: 1,
            data: 0,
            drivers: Seq::empty(),
        }
    }

    /// Serialized size: the fixed header plus one slot per driver.
    pub open spec fn enc_len(self) -> int {
        DESC_HEADER_BYTES + DRIVER_RECORD_BYTES * self.drivers.len()
    }

    /// The driver list must leave its serialization inside block 0.
    pub open spec fn wf(self) -> bool {
        self.enc_len() <= BLOCK_BYTES
    }
}

impl Default for DriverDescriptorBlock {
    /// The conventional fresh-device header: 512-byte blocks, no drivers.
    fn default() -> (r: Self)
        ensures
            r@ == DescView::fresh(),
    {
        let r = Self {
            block_size: 0x200,
            blk_count: 0,
            dev_type: 1,
            dev_id: 1,
            data: 0,
            drivers: Vec::new(),
        };
        proof {
            assert(r@.drivers =~= Seq::<DriverDataView>::empty());
        }
        r
    }
}

impl DriverDescriptorBlock {
    /// Appends one driver record to the list.
    pub fn push_driver_data(&mut self, data: DriverData)
        ensures
            final(self)@ == (DescView {
                drivers: old(self)@.drivers.push(data@),
                ..old(self)@
            }),
    {
        self.drivers.push(data);
        proof {
            assert(final(self)@.drivers =~= old(self)@.drivers.push(data@));
        }
    }

    /// The device size in blocks.
    pub fn blk_count(&self) -> (r: u32)
        ensures
            r == self@.blk_count,
    {
        self.blk_count
    }

    /// Sets the device size in blocks.
    pub fn set_blk_count(&mut self, blk_count: u32)
        ensures
            final(self)@ == (DescView { blk_count, ..old(self)@ }),
    {
        self.blk_count = blk_count;
        proof {
            assert(final(self)@.drivers =~= old(self)@.drivers);
        }
    }

    /// The same header with the device size replaced.
    pub fn with_blk_count(self, blk_count: u32) -> (r: Self)
        ensures
            r@ == (DescView { blk_count, ..self@ }),
    {
        let ghost pre = self@;
        let mut s = self;
        s.set_blk_count(blk_count);
        s
    }

    /// The stored block size in bytes.
    pub fn block_size(&self) -> (r: u16)
        ensures
            r == self@.block_size,
    {
        self.block_size
    }

    /// The reserved device-type word.
    pub fn dev_type(&self) -> (r: u16)
        ensures
            r == self@.dev_type,
    {
        self.dev_type
    }

    /// The reserved device-id word.
    pub fn dev_id(&self) -> (r: u16)
        ensures
            r == self@.dev_id,
    {
        self.dev_id
    }

    /// The reserved data word.
    pub fn data(&self) -> (r: u32)
        ensures
            r == self@.data,
    {
        self.data
    }

    /// The driver list.
    pub fn drivers(&self) -> (r: &Vec<DriverData>)
        ensures
            r@.map_values(|d: DriverData| d@) == self@.drivers,
    {
        &self.drivers
    }
}

/// Byte `i` of the serialized descriptor block.
pub open spec fn desc_byte(d: DescView, i: int) -> u8 {
    if i == 0 {
        0x45u8
    } else if i == 1 {
        0x52u8
    } else if i < 4 {
        be16_byte(d.block_size, i - 2)
    } else if i < 8 {
        be32_byte(d.blk_count, i - 4)
    } else if i < 10 {
        be16_byte(d.dev_type, i - 8)
    } else if i < 12 {
        be16_byte(d.dev_id, i - 10)
    } else if i < 16 {
        be32_byte(d.data, i - 12)
    } else if i < 18 {
        be16_byte(d.drivers.len() as u16, i - 16)
    } else {
        let k = (i - 18) / 8;
        let j = (i - 18) % 8;
        if j < 4 {
            be32_byte(d.drivers[k].start, j)
        } else if j < 6 {
            be16_byte(d.drivers[k].size, j - 4)
        } else {
            be16_byte(d.drivers[k].system_type, j - 6)
        }
    }
}

/// The serialized descriptor block: magic, geometry, driver count, then the
/// driver records. The count field is the list's length.
pub open spec fn desc_enc(d: DescView) -> Seq<u8> {
    Seq::new(d.enc_len() as nat, |i: int| desc_byte(d, i))
}

/// The descriptor block parsed from the front of `b`: `None` on a bad
/// magic, or when the declared driver list would run past block 0 or past
/// the buffer.
pub open spec fn parse_desc(b: Seq<u8>) -> Option<DescView> {
    if b.len() < DESC_HEADER_BYTES {
        None
    } else if b[0] != 0x45 || b[1] != 0x52 {
        None
    } else {
        let dc = read16(b, 16) as int;
        if DESC_HEADER_BYTES + DRIVER_RECORD_BYTES * dc > BLOCK_BYTES || DESC_HEADER_BYTES
            + DRIVER_RECORD_BYTES * dc > b.len() {
            None
        } else {
            Some(
                DescView {
                    block_size: read16(b, 2),
                    blk_count: read32(b, 4),
                    dev_type: read16(b, 8),
                    dev_id: read16(b, 10),
                    data: read32(b, 12),
                    drivers: Seq::new(
                        dc as nat,
                        |k: int|
                            DriverDataView {
                                start: read32(b, 18 + 8 * k),
                                size: read16(b, 18 + 8 * k + 4),
                                system_type: read16(b, 18 + 8 * k + 6),
                            },
                    ),
                },
            )
        }
    }
}

/// A buffer whose front holds the serialization of a well-formed descriptor
/// block parses back to exactly that block.
pub proof fn lemma_desc_round(d: DescView, b: Seq<u8>)
    requires
        d.wf(),
        d.drivers.len() <= 0xffff,
        b.len() >= d.enc_len(),
        b.subrange(0, d.enc_len()) == desc_enc(d),
    ensures
        parse_desc(b) == Some(d),
{
    let n = d.drivers.len() as int;
    let e = d.enc_len();
    assert forall|i: int| 0 <= i < e implies #[trigger] b[i] == desc_byte(d, i) by {
        assert(b.subrange(0, e)[i] == desc_enc(d)[i]);
    }
    assert(b[0] == 0x45 && b[1] == 0x52);
    lemma_be16_round(d.block_size);
    lemma_be32_round(d.blk_count);
    lemma_be16_round(d.dev_type);
    lemma_be16_round(d.dev_id);
    lemma_be32_round(d.data);
    lemma_be16_round(d.drivers.len() as u16);
    assert(read16(b, 16) == d.drivers.len() as u16);
    assert(read16(b, 16) as int == n);
    let p = parse_desc(b).unwrap();
    assert(p.block_size == d.block_size);
    assert(p.blk_count == d.blk_count);
    assert forall|k: int| 0 <= k < n implies p.drivers[k] == d.drivers[k] by {
        assert forall|j: int| 0 <= j < 8 implies #[trigger] b[18 + 8 * k + j] == desc_byte(
            d,
            18 + 8 * k + j,
        ) && (18 + 8 * k + j - 18) / 8 == k && (18 + 8 * k + j - 18) % 8 == j by {
            assert(18 + 8 * k + j < e);
            assert((8 * k + j) / 8 == k && (8 * k + j) % 8 == j) by (nonlinear_arith)
                requires
                    0 <= j < 8,
                    0 <= k,
            ;
        }
        lemma_be32_round(d.drivers[k].start);
        lemma_be16_round(d.drivers[k].size);
        lemma_be16_round(d.drivers[k].system_type);
    }
    assert(p.drivers =~= d.drivers);
    assert(p =~= d);
}

/// Serializes `desc` into the front of `buf`, leaving every byte past its
/// serialized length alone.
pub fn write_desc(buf: &mut Vec<u8>, desc: &DriverDescriptorBlock)
    requires
        desc@.wf(),
        old(buf)@.len() >= BLOCK_BYTES,
    ensures
        final(buf)@.len() == old(buf)@.len(),
        forall|k: int|
            desc@.enc_len() <= k < old(buf)@.len() ==> final(buf)@[k] == old(buf)@[k],
        forall|k: int| 0 <= k < desc@.enc_len() ==> final(buf)@[k] == desc_enc(desc@)[k],
{
    let n = desc.drivers.len();
    put_be16(buf, 0, 0x4552);
    proof {
        assert(be16_byte(0x4552u16, 0) == 0x45u8 && be16_byte(0x4552u16, 1) == 0x52u8)
            by (bit_vector);
    }
    put_be16(buf, 2, desc.block_size);
    put_be32(buf, 4, desc.blk_count);
    put_be16(buf, 8, desc.dev_type);
    put_be16(buf, 10, desc.dev_id);
    put_be32(buf, 12, desc.data);
    put_be16(buf, 16, n as u16);
    let mut k: usize = 0;
    while k < n
        invariant
            k <= n,
            n == desc.drivers@.len(),
            desc@.wf(),
            desc@.drivers.len() == n,
            buf@.len() == old(buf)@.len() >= BLOCK_BYTES,
            forall|i: int|
                18 + 8 * n <= i < old(buf)@.len() ==> buf@[i] == old(buf)@[i],
            forall|i: int| 0 <= i < 18 ==> buf@[i] == desc_byte(desc@, i),
            forall|i: int| 18 <= i < 18 + 8 * k ==> buf@[i] == desc_byte(desc@, i),
        decreases n - k,
    {
        let ghost pre = buf@;
        let d = &desc.drivers[k];
        let off = 18 + 8 * k;
        put_be32(buf, off, d.start);
        put_be16(buf, off + 4, d.size);
        put_be16(buf, off + 6, d.system_type);
        proof {
            assert(desc@.drivers[k as int] == desc.drivers@[k as int]@);
            assert forall|i: int| 18 <= i < 18 + 8 * (k + 1) implies buf@[i] == desc_byte(
                desc@,
                i,
            ) by {
                if i < 18 + 8 * k {
                    assert(buf@[i] == pre[i]);
                } else {
                    let j = i - (18 + 8 * k);
                    assert((8 * (k as int) + j) / 8 == k as int && (8 * (k as int) + j) % 8
                        == j) by (nonlinear_arith)
                        requires
                            0 <= j < 8,
                            0 <= k as int,
                    ;
                }
            }
        }
        k = k + 1;
    }
}

/// Parses the descriptor block from the front of `b`.
pub fn parse_desc_block(b: &[u8]) -> (r: Option<DriverDescriptorBlock>)
    ensures
        r is Some <==> parse_desc(b@) is Some,
        r matches Some(d) ==> parse_desc(b@) == Some(d@) && d@.wf(),
{
    let len = b.len();
    if len < DESC_HEADER_BYTES {
        return None;
    }
    if *vstd::slice::slice_index_get(b, 0) != 0x45 || *vstd::slice::slice_index_get(b, 1)
        != 0x52 {
        return None;
    }
    let dc = get_be16(b, 16) as usize;
    if DESC_HEADER_BYTES + DRIVER_RECORD_BYTES * dc > BLOCK_BYTES || DESC_HEADER_BYTES
        + DRIVER_RECORD_BYTES * dc > len {
        return None;
    }
    let ghost target = parse_desc(b@).unwrap();
    let mut drivers: Vec<DriverData> = Vec::new();
    let mut k: usize = 0;
    while k < dc
        invariant
            k <= dc,
            DESC_HEADER_BYTES + DRIVER_RECORD_BYTES * dc <= b@.len(),
            DESC_HEADER_BYTES + DRIVER_RECORD_BYTES * dc <= BLOCK_BYTES,
            target == parse_desc(b@).unwrap(),
            parse_desc(b@) is Some,
            target.drivers.len() == dc,
            drivers@.len() == k,
            forall|i: int|
                0 <= i < k ==> (#[trigger] drivers@[i])@ == target.drivers[i],
        decreases dc - k,
    {
        let off = DESC_HEADER_BYTES + DRIVER_RECORD_BYTES * k;
        let d = DriverData::new(get_be32(b, off), get_be16(b, off + 4), get_be16(b, off + 6));
        drivers.push(d);
        k = k + 1;
    }
    let r = DriverDescriptorBlock {
        block_size: get_be16(b, 2),
        blk_count: get_be32(b, 4),
        dev_type: get_be16(b, 8),
        dev_id: get_be16(b, 10),
        data: get_be32(b, 12),
        drivers,
    };
    proof {
        assert(r@.drivers =~= target.drivers);
        assert(r@ =~= target);
    }
    Some(r)
}

/// One 512-byte partition-table entry.
#[derive(Clone, Debug)]
pub struct PartitionEntry {
    /// Record signature, one of the two recognized magic values.
    sig: u16,
    /// The total number of records in the table; every record carries it.
    partition_count: u32,
    /// Starting block of the partition.
    start: u32,
    /// Length in blocks.
    length: u32,
    /// Partition name, at most 32 bytes on disk.
    name: String,
    /// Partition type, at most 32 bytes on disk.
    ty: String,
    /// Start of data in blocks.
    data_start: u32,
    /// Length of data in blocks, kept equal to `length`.
    data_count: u32,
    /// Status flag word.
    status: u32,
    /// Start of boot code in blocks.
    boot_start: u32,
    /// Size of boot code in blocks.
    boot_size: u32,
    /// Load address of the boot code.
    boot_load_address: u32,
    /// Boot code entry point.
    boot_entry: u32,
    /// Checksum of the boot code.
    boot_checksum: u32,
    /// Processor type, at most 16 bytes on disk.
    proc_type: String,
}

/// The mathematical value of a partition record.
pub ghost struct PartView {
    /// Record signature.
    pub sig: u16,
    /// The table length replicated into this record.
    pub partition_count: u32,
    /// Starting block.
    pub start: u32,
    /// Length in blocks.
    pub length: u32,
    /// Partition name.
    pub name: Seq<char>,
    /// Partition type.
    pub ty: Seq<char>,
    /// Start of data in blocks.
    pub data_start: u32,
    /// Length of data in blocks.
    pub data_count: u32,
    /// Status flag word.
    pub status: u32,
    /// Start of boot code in blocks.
    pub boot_start: u32,
    /// Size of boot code in blocks.
    pub boot_size: u32,
    /// Load address of the boot code.
    pub boot_load_address: u32,
    /// Boot code entry point.
    pub boot_entry: u32,
    /// Checksum of the boot code.
    pub boot_checksum: u32,
    /// Processor type.
    pub proc_type: Seq<char>,
}

impl View for PartitionEntry {
    type V = PartView;

    closed spec fn view(&self) -> PartView {
        PartView {
            sig: self.sig,
            partition_count: self.partition_count,
            start: self.start,
            length: self.length,
            name: self.name@,
            ty: self.ty@,
            data_start: self.data_start,
            data_count: self.data_count,
            status: self.status,
            boot_start: self.boot_start,
            boot_size: self.boot_size,
            boot_load_address: self.boot_load_address,
            boot_entry: self.boot_entry,
            boot_checksum: self.boot_checksum,
            proc_type: self.proc_type@,
        }
    }
}

impl PartView {
    /// A fresh record: the primary signature, the conventional status word,
    /// and everything else empty or zero.
    pub open spec fn fresh() -> PartView {
        PartView {
            sig: PART_SIG_PM,
            partition_count: 0,
            start: 0,
            length: 0,
            name: Seq::empty(),
            ty: Seq::empty(),
            data_start: 0,
            data_count: 0,
            status: 0xb7,
            boot_start: 0,
            boot_size: 0,
            boot_load_address: 0,
            boot_entry: 0,
            boot_checksum: 0,
            proc_type: Seq::empty(),
        }
    }

    /// A record the codec can serialize and read back: a recognized
    /// signature and each label inside its slot. Parsing any record
    /// establishes this.
    pub open spec fn codec_wf(self) -> bool {
        &&& self.sig == PART_SIG_PM || self.sig == PART_SIG_TS
        &&& label_fits(self.name, 32)
        &&& label_fits(self.ty, 32)
        &&& label_fits(self.proc_type, 16)
    }

    /// The mirrored pair: data-length equals length.
    pub open spec fn mirrored(self) -> bool {
        self.data_count == self.length
    }

    /// A fully well-formed record, as every record this library builds is.
    pub open spec fn wf(self) -> bool {
        self.codec_wf() && self.mirrored()
    }
}

/// Byte `i` of a serialized partition record.
pub open spec fn part_byte(p: PartView, i: int) -> u8 {
    if i < 2 {
        be16_byte(p.sig, i)
    } else if i < 4 {
        0u8
    } else if i < 8 {
        be32_byte(p.partition_count, i - 4)
    } else if i < 12 {
        be32_byte(p.start, i - 8)
    } else if i < 16 {
        be32_byte(p.length, i - 12)
    } else if i < 48 {
        label_enc(p.name, 32)[i - 16]
    } else if i < 80 {
        label_enc(p.ty, 32)[i - 48]
    } else if i < 84 {
        be32_byte(p.data_start, i - 80)
    } else if i < 88 {
        be32_byte(p.data_count, i - 84)
    } else if i < 92 {
        be32_byte(p.status, i - 88)
    } else if i < 96 {
        be32_byte(p.boot_start, i - 92)
    } else if i < 100 {
        be32_byte(p.boot_size, i - 96)
    } else if i < 104 {
        be32_byte(p.boot_load_address, i - 100)
    } else if i < 108 {
        0u8
    } else if i < 112 {
        be32_byte(p.boot_entry, i - 108)
    } else if i < 116 {
        0u8
    } else if i < 120 {
        be32_byte(p.boot_checksum, i - 116)
    } else {
        label_enc(p.proc_type, 16)[i - 120]
    }
}

/// The serialized fields of a partition record: 136 bytes, reserved gaps
/// zero-filled, labels zero-padded to their slots.
pub open spec fn part_enc(p: PartView) -> Seq<u8> {
    Seq::new(PART_RECORD_BYTES as nat, |i: int| part_byte(p, i))
}

/// The partition record parsed from `b` at offset `off`: `None` when fewer
/// than 136 bytes remain or the signature is not one of the two recognized
/// magic values.
pub open spec fn parse_part_at(b: Seq<u8>, off: int) -> Option<PartView> {
    if off < 0 || off + PART_RECORD_BYTES > b.len() {
        None
    } else {
        let sig = read16(b, off);
        if sig != PART_SIG_PM && sig != PART_SIG_TS {
            None
        } else {
            Some(
                PartView {
                    sig,
                    partition_count: read32(b, off + 4),
                    start: read32(b, off + 8),
                    length: read32(b, off + 12),
                    name: label_dec(b.subrange(off + 16, off + 48)),
                    ty: label_dec(b.subrange(off + 48, off + 80)),
                    data_start: read32(b, off + 80),
                    data_count: read32(b, off + 84),
                    status: read32(b, off + 88),
                    boot_start: read32(b, off + 92),
                    boot_size: read32(b, off + 96),
                    boot_load_address: read32(b, off + 100),
                    boot_entry: read32(b, off + 108),
                    boot_checksum: read32(b, off + 116),
                    proc_type: label_dec(b.subrange(off + 120, off + 136)),
                },
            )
        }
    }
}

/// A buffer region holding the serialization of a well-formed partition
/// record parses back to exactly that record.
pub proof fn lemma_part_round(p: PartView, b: Seq<u8>, off: int)
    requires
        p.codec_wf(),
        0 <= off,
        off + PART_RECORD_BYTES <= b.len(),
        b.subrange(off, off + PART_RECORD_BYTES) == part_enc(p),
    ensures
        parse_part_at(b, off) == Some(p),
{
    assert forall|i: int| off <= i < off + PART_RECORD_BYTES implies #[trigger] b[i]
        == part_byte(p, i - off) by {
        assert(b.subrange(off, off + PART_RECORD_BYTES)[i - off] == part_enc(p)[i - off]);
    }
    lemma_be16_round(p.sig);
    assert(read16(b, off) == p.sig);
    assert(p.sig == PART_SIG_PM || p.sig == PART_SIG_TS);
    lemma_be32_round(p.partition_count);
    lemma_be32_round(p.start);
    lemma_be32_round(p.length);
    lemma_be32_round(p.data_start);
    lemma_be32_round(p.data_count);
    lemma_be32_round(p.status);
    lemma_be32_round(p.boot_start);
    lemma_be32_round(p.boot_size);
    lemma_be32_round(p.boot_load_address);
    lemma_be32_round(p.boot_entry);
    lemma_be32_round(p.boot_checksum);
    assert(b.subrange(off + 16, off + 48) =~= label_enc(p.name, 32));
    assert(b.subrange(off + 48, off + 80) =~= label_enc(p.ty, 32));
    assert(b.subrange(off + 120, off + 136) =~= label_enc(p.proc_type, 16));
    crate::label::lemma_label_round(p.name, 32);
    crate::label::lemma_label_round(p.ty, 32);
    crate::label::lemma_label_round(p.proc_type, 16);
    let q = parse_part_at(b, off).unwrap();
    assert(q =~= p);
}

/// Serializes `p` into `buf` at offset `off`, leaving all other bytes
/// alone.
pub fn write_part(buf: &mut Vec<u8>, off: usize, p: &PartitionEntry)
    requires
        p@.codec_wf(),
        off + PART_RECORD_BYTES <= old(buf)@.len(),
    ensures
        final(buf)@.len() == old(buf)@.len(),
        forall|k: int|
            0 <= k < old(buf)@.len() && !(off <= k < off + PART_RECORD_BYTES)
                ==> final(buf)@[k] == old(buf)@[k],
        forall|i: int|
            0 <= i < PART_RECORD_BYTES ==> final(buf)@[off + i] == part_enc(p@)[i],
{
    let buf_len = buf.len();
    put_be16(buf, off, p.sig);
    put_zeros(buf, off + 2, 2);
    put_be32(buf, off + 4, p.partition_count);
    put_be32(buf, off + 8, p.start);
    put_be32(buf, off + 12, p.length);
    write_label(buf, off + 16, p.name.as_str(), 32);
    write_label(buf, off + 48, p.ty.as_str(), 32);
    put_be32(buf, off + 80, p.data_start);
    put_be32(buf, off + 84, p.data_count);
    put_be32(buf, off + 88, p.status);
    put_be32(buf, off + 92, p.boot_start);
    put_be32(buf, off + 96, p.boot_size);
    put_be32(buf, off + 100, p.boot_load_address);
    put_zeros(buf, off + 104, 4);
    put_be32(buf, off + 108, p.boot_entry);
    put_zeros(buf, off + 112, 4);
    put_be32(buf, off + 116, p.boot_checksum);
    write_label(buf, off + 120, p.proc_type.as_str(), 16);
    assert forall|i: int| 0 <= i < PART_RECORD_BYTES implies final(buf)@[off + i] == part_enc(
        p@,
    )[i] by {
        assert(part_enc(p@)[i] == part_byte(p@, i));
    }
}

/// Parses the partition record stored in `b` at offset `off`.
pub fn parse_part_block(b: &[u8], off: usize) -> (r: Option<PartitionEntry>)
    ensures
        r is Some <==> parse_part_at(b@, off as int) is Some,
        r matches Some(p) ==> parse_part_at(b@, off as int) == Some(p@) && p@.codec_wf(),
{
    let len = b.len();
    if off > len || len - off < PART_RECORD_BYTES {
        return None;
    }
    let sig = get_be16(b, off);
    if sig != PART_SIG_PM && sig != PART_SIG_TS {
        return None;
    }
    let length = get_be32(b, off + 12);
    let data_count = get_be32(b, off + 84);
    let r = PartitionEntry {
        sig,
        partition_count: get_be32(b, off + 4),
        start: get_be32(b, off + 8),
        length,
        name: read_label(b, off + 16, 32),
        ty: read_label(b, off + 48, 32),
        data_start: get_be32(b, off + 80),
        data_count,
        status: get_be32(b, off + 88),
        boot_start: get_be32(b, off + 92),
        boot_size: get_be32(b, off + 96),
        boot_load_address: get_be32(b, off + 100),
        boot_entry: get_be32(b, off + 108),
        boot_checksum: get_be32(b, off + 116),
        proc_type: read_label(b, off + 120, 16),
    };
    proof {
        assert(r@ =~= parse_part_at(b@, off as int).unwrap());
    }
    Some(r)
}

impl PartitionEntry {
    /// A fresh record with the primary signature, the conventional status
    /// word, and empty labels.
    pub fn new() -> (r: Self)
        ensures
            r@ == PartView::fresh(),
            r@.wf(),
    {
        let r = Self {
            sig: PART_SIG_PM,
            partition_count: 0,
            start: 0,
            length: 0,
            name: String::new(),
            ty: String::new(),
            data_start: 0,
            data_count: 0,
            status: 0xb7,
            boot_start: 0,
            boot_size: 0,
            boot_load_address: 0,
            boot_entry: 0,
            boot_checksum: 0,
            proc_type: String::new(),
        };
        proof {
            assert(r@ =~= PartView::fresh());
        }
        r
    }

    /// Start of data in blocks.
    pub fn data_start(&self) -> (r: u32)
        ensures
            r == self@.data_start,
    {
        self.data_start
    }

    /// Length of data in blocks.
    pub fn data_size(&self) -> (r: u32)
        ensures
            r == self@.data_count,
    {
        self.data_count
    }

    /// Start of boot code in blocks.
    pub fn boot_start(&self) -> (r: u32)
        ensures
            r == self@.boot_start,
    {
        self.boot_start
    }

    /// Size of boot code in blocks.
    pub fn boot_size(&self) -> (r: u32)
        ensures
            r == self@.boot_size,
    {
        self.boot_size
    }

    /// Load address of the boot code.
    pub fn boot_load_address(&self) -> (r: u32)
        ensures
            r == self@.boot_load_address,
    {
        self.boot_load_address
    }

    /// Boot code entry point.
    pub fn boot_entry(&self) -> (r: u32)
        ensures
            r == self@.boot_entry,
    {
        self.boot_entry
    }

    /// The record with the boot checksum replaced.
    pub fn with_checksum(self, checksum: u32) -> (r: Self)
        ensures
            r@ == (PartView { boot_checksum: checksum, ..self@ }),
    {
        let mut s = self;
        s.boot_checksum = checksum;
        s
    }

    /// The record with the boot-code size replaced.
    pub fn with_boot_code_size(self, size: u32) -> (r: Self)
        ensures
            r@ == (PartView { boot_size: size, ..self@ }),
    {
        let mut s = self;
        s.boot_size = size;
        s
    }

    /// Checksum of the boot code.
    pub fn boot_checksum(&self) -> (r: u32)
        ensures
            r == self@.boot_checksum,
    {
        self.boot_checksum
    }

    /// The partition type label.
    pub fn part_type(&self) -> (r: &str)
        ensures
            r@ == self@.ty,
    {
        self.ty.as_str()
    }

    /// The processor type label.
    pub fn proc_type(&self) -> (r: &str)
        ensures
            r@ == self@.proc_type,
    {
        self.proc_type.as_str()
    }

    /// The record with the processor type replaced.
    pub fn with_proc_type(self, t: &str) -> (r: Self)
        ensures
            r@ == (PartView { proc_type: t@, ..self@ }),
    {
        let mut s = self;
        s.set_proc_type(t);
        s
    }

    /// Replaces the processor type label.
    pub fn set_proc_type(&mut self, t: &str)
        ensures
            final(self)@ == (PartView { proc_type: t@, ..old(self)@ }),
    {
        self.proc_type = t.to_owned();
    }

    /// The record with the partition type replaced.
    pub fn with_type(self, name: &str) -> (r: Self)
        ensures
            r@ == (PartView { ty: name@, ..self@ }),
    {
        let mut s = self;
        s.set_type(name);
        s
    }

    /// Replaces the partition type label.
    pub fn set_type(&mut self, name: &str)
        ensures
            final(self)@ == (PartView { ty: name@, ..old(self)@ }),
    {
        self.ty = name.to_owned();
    }

    /// The partition name label.
    pub fn name(&self) -> (r: &str)
        ensures
            r@ == self@.name,
    {
        self.name.as_str()
    }

    /// The record with the name replaced.
    pub fn with_name(self, name: &str) -> (r: Self)
        ensures
            r@ == (PartView { name: name@, ..self@ }),
    {
        let mut s = self;
        s.set_name(name);
        s
    }

    /// Replaces the name label.
    pub fn set_name(&mut self, name: &str)
        ensures
            final(self)@ == (PartView { name: name@, ..old(self)@ }),
    {
        self.name = name.to_owned();
    }

    /// The status flag word.
    pub fn status(&self) -> (r: u32)
        ensures
            r == self@.status,
    {
        self.status
    }

    /// The record with the status word replaced.
    pub fn with_status(self, status: u32) -> (r: Self)
        ensures
            r@ == (PartView { status, ..self@ }),
    {
        let mut s = self;
        s.status = status;
        s
    }

    /// Replaces the status flag word.
    pub fn set_status(&mut self, status: u32)
        ensures
            final(self)@ == (PartView { status, ..old(self)@ }),
    {
        self.status = status;
    }

    /// The table length replicated into this record.
    pub fn partition_count(&self) -> (r: u32)
        ensures
            r == self@.partition_count,
    {
        self.partition_count
    }

    /// The record with the replicated table length replaced.
    pub fn with_partition_count(self, cnt: u32) -> (r: Self)
        ensures
            r@ == (PartView { partition_count: cnt, ..self@ }),
    {
        let mut s = self;
        s.partition_count = cnt;
        s
    }

    /// Replaces the replicated table length.
    pub fn set_partition_count(&mut self, cnt: u32)
        ensures
            final(self)@ == (PartView { partition_count: cnt, ..old(self)@ }),
    {
        self.partition_count = cnt;
    }

    /// The partition's length in blocks. Defined on records whose mirrored
    /// pair agrees, which every operation of this library maintains.
    pub fn length(&self) -> (r: u32)
        requires
            self@.mirrored(),
        ensures
            r == self@.length,
            r == self@.data_count,
    {
        self.length
    }

    /// The record with both of the mirrored length fields replaced.
    pub fn with_length(self, len: u32) -> (r: Self)
        ensures
            r@ == (PartView { length: len, data_count: len, ..self@ }),
            r@.mirrored(),
    {
        let mut s = self;
        s.set_length(len);
        s
    }

    /// Replaces both of the mirrored length fields, keeping them equal.
    pub fn set_length(&mut self, len: u32)
        ensures
            final(self)@ == (PartView { length: len, data_count: len, ..old(self)@ }),
            final(self)@.mirrored(),
    {
        self.length = len;
        self.data_count = len;
    }

    /// The partition's start block.
    pub fn start(&self) -> (r: u32)
        ensures
            r == self@.start,
    {
        self.start
    }

    /// The record with the start block replaced.
    pub fn with_start(self, start: u32) -> (r: Self)
        ensures
            r@ == (PartView { start, ..self@ }),
    {
        let mut s = self;
        s.start = start;
        s
    }

    /// Replaces the start block.
    pub fn set_start(&mut self, start: u32)
        ensures
            final(self)@ == (PartView { start, ..old(self)@ }),
    {
        self.start = start;
    }
}

/// The type label that marks an entry as free space, skipped by the
/// allocator.
pub open spec fn spec_free_type() -> Seq<char> {
    "Apple_Free"@
}

impl PartitionEntry {
    /// Whether this entry's type is the free-space sentinel.
    pub fn is_free_type(&self) -> (r: bool)
        ensures
            r == (self@.ty == spec_free_type()),
    {
        let sentinel: String = "Apple_Free".to_owned();
        self.ty == sentinel
    }

    /// The first block past this partition's extent.
    pub fn extent_end(&self) -> (r: u64)
        ensures
            r == self@.start + self@.length,
    {
        self.start as u64 + self.length as u64
    }
}

/// Parsing a partition record reads only its own 136-byte region: buffers
/// equal there parse the same record.
pub proof fn lemma_parse_part_unchanged(a: Seq<u8>, b: Seq<u8>, off: int)
    requires
        0 <= off,
        off + PART_RECORD_BYTES <= a.len(),
        off + PART_RECORD_BYTES <= b.len(),
        forall|k: int| off <= k < off + PART_RECORD_BYTES ==> a[k] == #[trigger] b[k],
    ensures
        parse_part_at(a, off) == parse_part_at(b, off),
{
    assert forall|k: int| off <= k < off + PART_RECORD_BYTES implies #[trigger] a[k] == b[k] by {}
    assert(read16(a, off) == read16(b, off));
    if read16(a, off) == PART_SIG_PM || read16(a, off) == PART_SIG_TS {
        assert(a.subrange(off + 16, off + 48) =~= b.subrange(off + 16, off + 48));
        assert(a.subrange(off + 48, off + 80) =~= b.subrange(off + 48, off + 80));
        assert(a.subrange(off + 120, off + 136) =~= b.subrange(off + 120, off + 136));
        assert(parse_part_at(a, off).unwrap() =~= parse_part_at(b, off).unwrap());
    }
}

/// Parsing the descriptor block reads only block 0: buffers equal there
/// parse the same block.
pub proof fn lemma_parse_desc_unchanged(a: Seq<u8>, b: Seq<u8>)
    requires
        a.len() >= BLOCK_BYTES,
        b.len() >= BLOCK_BYTES,
        forall|k: int| 0 <= k < BLOCK_BYTES ==> a[k] == #[trigger] b[k],
    ensures
        parse_desc(a) == parse_desc(b),
{
    assert(a[0] == b[0] && a[1] == b[1]);
    if a[0] == 0x45 && a[1] == 0x52 {
        assert(read16(a, 16) == read16(b, 16));
        let dc = read16(a, 16) as int;
        if DESC_HEADER_BYTES + DRIVER_RECORD_BYTES * dc <= BLOCK_BYTES {
            let pa = parse_desc(a).unwrap();
            let pb = parse_desc(b).unwrap();
            assert forall|k: int| 0 <= k < dc implies pa.drivers[k] == pb.drivers[k] by {
                assert(18 + 8 * k + 8 <= 512);
            }
            assert(pa.drivers =~= pb.drivers);
            assert(pa =~= pb);
        }
    }
}

} // verus!
