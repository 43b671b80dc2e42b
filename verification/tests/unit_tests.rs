use apm::apple_checksum;
use apm::record::{DriverData, DriverDescriptorBlock, PartitionEntry};

#[test]
fn checksum_known_values() {
    assert_eq!(apple_checksum(b"abc"), 0x0556);
    assert_eq!(apple_checksum(&[1]), 0x0002);
    assert_eq!(apple_checksum(&[0x80, 0x80]), 0x0300);
}

#[test]
fn checksum_zero_becomes_sentinel() {
    assert_eq!(apple_checksum(&[]), 0xffff);
}

#[test]
fn partition_entry_defaults() {
    let p = PartitionEntry::new();
    assert_eq!(p.start(), 0);
    assert_eq!(p.length(), 0);
    assert_eq!(p.partition_count(), 0);
    assert_eq!(p.status(), 0xb7);
    assert_eq!(p.name(), "");
    assert_eq!(p.part_type(), "");
    assert_eq!(p.proc_type(), "");
    assert_eq!(p.boot_start(), 0);
    assert_eq!(p.boot_size(), 0);
    assert_eq!(p.boot_load_address(), 0);
    assert_eq!(p.boot_entry(), 0);
    assert_eq!(p.boot_checksum(), 0);
    assert_eq!(p.data_start(), 0);
    assert_eq!(p.data_size(), 0);
}

#[test]
fn partition_entry_builders_and_setters() {
    let p = PartitionEntry::new()
        .with_start(5)
        .with_length(9)
        .with_name("n")
        .with_type("t")
        .with_proc_type("proc")
        .with_status(0x33)
        .with_partition_count(4)
        .with_checksum(0xdead)
        .with_boot_code_size(77);
    assert_eq!(p.start(), 5);
    assert_eq!(p.length(), 9);
    assert_eq!(p.data_size(), 9);
    assert_eq!(p.name(), "n");
    assert_eq!(p.part_type(), "t");
    assert_eq!(p.proc_type(), "proc");
    assert_eq!(p.status(), 0x33);
    assert_eq!(p.partition_count(), 4);
    assert_eq!(p.boot_checksum(), 0xdead);
    assert_eq!(p.boot_size(), 77);

    let mut q = PartitionEntry::new();
    q.set_start(2);
    q.set_length(3);
    q.set_name("abc");
    q.set_type("xyz");
    q.set_proc_type("pp");
    q.set_status(1);
    q.set_partition_count(8);
    assert_eq!(q.start(), 2);
    assert_eq!(q.length(), 3);
    assert_eq!(q.data_size(), 3);
    assert_eq!(q.name(), "abc");
    assert_eq!(q.part_type(), "xyz");
    assert_eq!(q.proc_type(), "pp");
    assert_eq!(q.status(), 1);
    assert_eq!(q.partition_count(), 8);
}

#[test]
fn driver_data_fields() {
    let d = DriverData::new(10, 3, 1);
    assert_eq!(d.start(), 10);
    assert_eq!(d.size(), 3);
    assert_eq!(d.ty(), 1);
}

#[test]
fn descriptor_block_defaults_and_drivers() {
    let mut b = DriverDescriptorBlock::default().with_blk_count(100);
    assert_eq!(b.blk_count(), 100);
    assert_eq!(b.block_size(), 0x200);
    assert_eq!(b.dev_type(), 1);
    assert_eq!(b.dev_id(), 1);
    assert_eq!(b.data(), 0);
    assert_eq!(b.drivers().len(), 0);
    b.push_driver_data(DriverData::new(1, 2, 3));
    assert_eq!(b.drivers().len(), 1);
    assert_eq!(b.drivers()[0].start(), 1);
    b.set_blk_count(7);
    assert_eq!(b.blk_count(), 7);
}
