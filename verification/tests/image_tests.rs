use apm::{ApmError, ApmMap};

#[test]
fn fresh_image_seed() {
    let m = ApmMap::new(2048);
    assert_eq!(m.block_size(), 0x200);
    assert_eq!(m.blk_count(), 2048);
    assert_eq!(m.dev_type(), 1);
    assert_eq!(m.dev_id(), 1);
    assert_eq!(m.data(), 0);
    let parts = m.partitions();
    assert_eq!(parts.len(), 1);
    let p = &parts[0];
    assert_eq!(p.name(), "Apple");
    assert_eq!(p.part_type(), "Apple_partition_map");
    assert_eq!(p.start(), 1);
    assert_eq!(p.length(), 0x3f);
    assert_eq!(p.partition_count(), 1);
    assert_eq!(m.raw().len(), 2048 * 512);
}

#[test]
fn fresh_image_encode_decode_preserves_seed() {
    let mut m = ApmMap::new(2048);
    let bytes = m.encode().unwrap();
    let d = ApmMap::decode(bytes).unwrap();
    assert_eq!(d.blk_count(), 2048);
    let parts = d.partitions();
    assert_eq!(parts.len(), 1);
    assert_eq!(parts[0].name(), "Apple");
    assert_eq!(parts[0].part_type(), "Apple_partition_map");
    assert_eq!(parts[0].start(), 1);
    assert_eq!(parts[0].length(), 0x3f);
}

#[test]
fn round_trip_preserves_records() {
    let mut m = ApmMap::new(2048);
    let payload: Vec<u8> = (0..1000u32).map(|v| v as u8).collect();
    m.push_partition("MacOS", "Apple_HFS", &payload).unwrap();
    m.push_driver(7, &[5u8; 600]).unwrap();
    let bytes = m.encode().unwrap();
    let d = ApmMap::decode(bytes).unwrap();
    let orig = m.partitions();
    let redone = d.partitions();
    assert_eq!(orig.len(), redone.len());
    for (a, b) in orig.iter().zip(redone.iter()) {
        assert_eq!(a.start(), b.start());
        assert_eq!(a.length(), b.length());
        assert_eq!(a.name(), b.name());
        assert_eq!(a.part_type(), b.part_type());
        assert_eq!(a.status(), b.status());
        assert_eq!(a.proc_type(), b.proc_type());
    }
    let da = m.drivers();
    let db = d.drivers();
    assert_eq!(da.len(), db.len());
    assert_eq!(da.len(), 1);
    for (a, b) in da.iter().zip(db.iter()) {
        assert_eq!(a.start(), b.start());
        assert_eq!(a.size(), b.size());
        assert_eq!(a.ty(), b.ty());
    }
}

#[test]
fn partition_count_tracks_table_length() {
    let mut m = ApmMap::new(2048);
    m.push_partition("one", "Apple_HFS", &[1u8; 100]).unwrap();
    m.push_partition("two", "Apple_HFS", &[2u8; 100]).unwrap();
    for p in m.partitions().iter() {
        assert_eq!(p.partition_count(), 3);
    }
    let bytes = m.encode().unwrap();
    let d = ApmMap::decode(bytes).unwrap();
    assert_eq!(d.partitions().len(), 3);
    for p in d.partitions().iter() {
        assert_eq!(p.partition_count(), 3);
    }
}

#[test]
fn data_length_mirrors_length() {
    let mut m = ApmMap::new(2048);
    m.push_partition("one", "Apple_HFS", &[9u8; 2000]).unwrap();
    for p in m.partitions().iter() {
        assert_eq!(p.data_size(), p.length());
    }
    let bytes = m.encode().unwrap();
    let d = ApmMap::decode(bytes).unwrap();
    for p in d.partitions().iter() {
        assert_eq!(p.data_size(), p.length());
    }
}

#[test]
fn allocation_rounds_up_and_zero_fills() {
    let mut m = ApmMap::new(2048);
    let payload = [0xabu8; 513];
    m.push_partition("odd", "Apple_HFS", &payload).unwrap();
    let p = &m.partitions()[1];
    assert_eq!(p.length(), 2);
    let start = p.start() as usize;
    let raw = m.raw();
    assert_eq!(&raw[start * 512..start * 512 + 513], &payload[..]);
    assert!(raw[start * 512 + 513..(start + 2) * 512].iter().all(|b| *b == 0));
}

#[test]
fn allocation_failure_leaves_buffer_unchanged() {
    let mut m = ApmMap::new(2048);
    let before = m.raw().to_vec();
    let huge = vec![1u8; 2048 * 512];
    let r = m.push_partition("big", "Apple_HFS", &huge);
    assert_eq!(r, Err(ApmError::NoSpace));
    assert_eq!(m.raw(), &before[..]);
    assert_eq!(m.partitions().len(), 1);
}

#[test]
fn decode_stops_at_declared_count() {
    let mut m = ApmMap::new(2048);
    m.push_partition("one", "Apple_HFS", &[1u8; 10]).unwrap();
    m.push_partition("two", "Apple_HFS", &[2u8; 10]).unwrap();
    let mut bytes = m.encode().unwrap();
    // The table declares 3 records; scribble over everything from block 4 on.
    for b in bytes[4 * 512..].iter_mut() {
        *b = 0xff;
    }
    let d = ApmMap::decode(bytes).unwrap();
    assert_eq!(d.partitions().len(), 3);
    assert_eq!(d.partitions()[1].name(), "one");
    assert_eq!(d.partitions()[2].name(), "two");
}

#[test]
fn label_boundary() {
    let mut m = ApmMap::new(2048);
    let name32: String = "a".repeat(32);
    m.push_partition(&name32, "Apple_HFS", &[1u8; 10]).unwrap();
    let bytes = m.encode().unwrap();
    let d = ApmMap::decode(bytes).unwrap();
    assert_eq!(d.partitions()[1].name(), name32);

    let name33: String = "a".repeat(33);
    let before = m.raw().to_vec();
    let r = m.push_partition(&name33, "Apple_HFS", &[1u8; 10]);
    assert_eq!(r, Err(ApmError::LabelTooLong));
    assert_eq!(m.raw(), &before[..]);
    let r2 = m.push_partition("ok", &"t".repeat(33), &[1u8; 10]);
    assert_eq!(r2, Err(ApmError::LabelTooLong));
}

#[test]
fn decode_rejects_garbage() {
    assert_eq!(ApmMap::decode(vec![0u8; 100]).unwrap_err(), ApmError::Format);
    assert_eq!(ApmMap::decode(Vec::new()).unwrap_err(), ApmError::Format);
}

#[test]
fn decode_rejects_bad_signature() {
    let mut m = ApmMap::new(64);
    let mut bytes = m.encode().unwrap();
    bytes[512] = 0;
    bytes[513] = 0;
    assert_eq!(ApmMap::decode(bytes).unwrap_err(), ApmError::Format);
}

#[test]
fn decode_rejects_zero_declared_count() {
    let mut m = ApmMap::new(64);
    let mut bytes = m.encode().unwrap();
    // Zero out the first record's partition-count field (4 bytes at
    // offset 4 of block 1): no table can satisfy a declared count of 0.
    for b in bytes[512 + 4..512 + 8].iter_mut() {
        *b = 0;
    }
    assert_eq!(ApmMap::decode(bytes).unwrap_err(), ApmError::Format);
}

#[test]
fn decode_rejects_truncated_table() {
    let mut m = ApmMap::new(2048);
    m.push_partition("one", "Apple_HFS", &[1u8; 10]).unwrap();
    let bytes = m.encode().unwrap();
    // The table declares 2 records; cut the buffer before the second.
    let d = ApmMap::decode(bytes[..512 + 136].to_vec());
    assert_eq!(d.unwrap_err(), ApmError::Format);
}

#[test]
fn push_partition_at_attaches_boot_metadata() {
    let mut m = ApmMap::new(2048);
    m.push_partition_at("boot", "Apple_Driver43", "68000", &[3u8; 700], 64).unwrap();
    let bytes = m.encode().unwrap();
    let d = ApmMap::decode(bytes).unwrap();
    let p = &d.partitions()[1];
    assert_eq!(p.start(), 64);
    assert_eq!(p.length(), 2);
    assert_eq!(p.boot_checksum(), 0xf624);
    assert_eq!(p.boot_size(), 9392);
    assert_eq!(p.proc_type(), "68000");
    assert_eq!(p.name(), "boot");
}

#[test]
fn push_driver_records_extent() {
    let mut m = ApmMap::new(2048);
    let payload = [0x5au8; 1500];
    m.push_driver(1, &payload).unwrap();
    let drivers = m.drivers();
    assert_eq!(drivers.len(), 1);
    let d = &drivers[0];
    assert_eq!(d.start(), 64);
    assert_eq!(d.size(), 3);
    assert_eq!(d.ty(), 1);
    let bytes = m.driver_bytes(0);
    assert_eq!(&bytes[..1500], &payload[..]);
    assert!(bytes[1500..].iter().all(|b| *b == 0));
}

#[test]
fn push_driver_capacity_error() {
    let mut m = ApmMap::new(2048);
    let before = m.raw().to_vec();
    let r = m.push_driver(1, &vec![1u8; 2048 * 512]);
    assert_eq!(r, Err(ApmError::NoSpace));
    assert_eq!(m.raw(), &before[..]);
    assert_eq!(m.drivers().len(), 0);
}

#[test]
fn partition_data_reads_payload() {
    let mut m = ApmMap::new(2048);
    let payload: Vec<u8> = (0..600u32).map(|v| (v % 251) as u8).collect();
    m.push_partition("p", "Apple_HFS", &payload).unwrap();
    let data = m.partition_data(1).unwrap();
    assert_eq!(data.len(), 2 * 512);
    assert_eq!(&data[..600], &payload[..]);
    assert!(m.partition_data(9).is_none());
}

#[test]
fn partition_data_mut_replaces_payload() {
    let mut m = ApmMap::new(2048);
    m.push_partition("p", "Apple_HFS", &[1u8; 1024]).unwrap();
    let fresh = vec![0x77u8; 1024];
    assert!(m.partition_data_mut(1, &fresh));
    assert_eq!(m.partition_data(1).unwrap(), &fresh[..]);
    // Wrong length or index: nothing written.
    assert!(!m.partition_data_mut(1, &[0u8; 10]));
    assert!(!m.partition_data_mut(9, &fresh));
    assert_eq!(m.partition_data(1).unwrap(), &fresh[..]);
}

#[test]
fn partitions_used_skips_free_entries() {
    let mut m = ApmMap::new(2048);
    m.push_partition("free", "Apple_Free", &[0u8; 10]).unwrap();
    m.push_partition("used", "Apple_HFS", &[1u8; 10]).unwrap();
    let used = m.partitions_used();
    assert_eq!(used, vec![0, 2]);
}

#[test]
fn allocator_skips_free_entries() {
    let mut m = ApmMap::new(2048);
    m.push_partition("free", "Apple_Free", &[0u8; 512 * 4]).unwrap();
    let free_start = m.partitions()[1].start();
    m.push_partition("used", "Apple_HFS", &[1u8; 10]).unwrap();
    // The free entry does not advance the frontier, so the used one lands
    // at the same start.
    assert_eq!(m.partitions()[2].start(), free_start);
}

#[test]
fn encode_is_repeatable() {
    let mut m = ApmMap::new(2048);
    m.push_partition("p", "Apple_HFS", &[8u8; 100]).unwrap();
    let once = m.encode().unwrap();
    let twice = m.encode().unwrap();
    assert_eq!(once, twice);
}
