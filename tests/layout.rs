use rtipc::cache::{cacheline_aligned, max_cacheline_size, mem_align, resolve_cacheline_size, MIN_CACHELINE};
use rtipc::codec::{push_u16, push_u32, read_u16, read_u32};
use rtipc::error::{HeaderError, MemError};
use rtipc::header::{Header, HEADER_SIZE, RTIC_MAGIC, RTIC_VERSION};
use rtipc::table::{ChannelTable, Span};
use rtipc::{ChannelError, ChannelParam, CreateError};

#[test]
fn alignment_rounds_up() {
    assert_eq!(mem_align(0, 64), 0);
    assert_eq!(mem_align(1, 64), 64);
    assert_eq!(mem_align(64, 64), 64);
    assert_eq!(mem_align(65, 64), 128);
    assert_eq!(cacheline_aligned(20, 128), 128);
    assert_eq!(mem_align(10, 3), 12);
}

#[test]
fn cacheline_resolution_takes_the_largest() {
    assert_eq!(resolve_cacheline_size(None, None), MIN_CACHELINE);
    assert_eq!(resolve_cacheline_size(Some(64), None), 64);
    assert_eq!(resolve_cacheline_size(Some(64), Some(128)), 128);
    assert_eq!(resolve_cacheline_size(Some(4), Some(2)), 8);
    assert!(max_cacheline_size() >= MIN_CACHELINE);
}

#[test]
fn channel_sizes() {
    let p = ChannelParam { add_msgs: 0, msg_size: 12 };
    assert_eq!(p.queue_size(64), 64);
    assert_eq!(p.data_size(64), 3 * 64);
    assert_eq!(p.size(64), 256);
    assert_eq!(p.msg_offset(2, 64), 64 + 128);
    let q = ChannelParam { add_msgs: 10, msg_size: 8 };
    // 15 index words of 4 bytes round up to 64
    assert_eq!(q.queue_size(64), 64);
    assert_eq!(q.data_size(64), 13 * 64);
    assert_eq!(q.checked_size(64), Some(64 + 13 * 64));
    let r = ChannelParam { add_msgs: 20, msg_size: 100 };
    assert_eq!(r.queue_size(64), 128);
    assert_eq!(r.data_size(64), 23 * 128);
    assert_eq!(ChannelParam { add_msgs: 0, msg_size: 0 }.checked_size(64), None);
    assert_eq!(ChannelParam { add_msgs: usize::MAX, msg_size: 1 }.checked_size(64), None);
}

#[test]
fn codec_is_little_endian() {
    let mut out = Vec::new();
    push_u16(&mut out, 0x1f0c);
    push_u32(&mut out, 0x13579BDF);
    assert_eq!(out, vec![0x0c, 0x1f, 0xDF, 0x9B, 0x57, 0x13]);
    assert_eq!(read_u16(&out, 0), 0x1f0c);
    assert_eq!(read_u32(&out, 2), 0x13579BDF);
}

#[test]
fn header_round_trip() {
    let h = Header::new(1, 2, 0x13579BDF, 64);
    assert_eq!(h.magic, RTIC_MAGIC);
    assert_eq!(h.version, RTIC_VERSION);
    assert_eq!(h.num_channels, [1, 2]);
    assert_eq!(h.atomic_size, 4);
    let bytes = h.to_bytes();
    assert_eq!(bytes.len(), HEADER_SIZE);
    assert_eq!(Header::from_bytes(&bytes, 0x13579BDF, 64), Ok(h));
}

#[test]
fn header_errors_in_order() {
    let h = Header::new(1, 2, 7, 64);
    let good = h.to_bytes();
    assert_eq!(Header::from_bytes(&good[..10], 7, 64), Err(HeaderError::Size));
    let mut bad = good.clone();
    bad[0] ^= 1;
    bad[2] ^= 1;
    assert_eq!(Header::from_bytes(&bad, 8, 128), Err(HeaderError::Magic));
    let mut bad = good.clone();
    bad[2] = 2;
    assert_eq!(Header::from_bytes(&bad, 8, 128), Err(HeaderError::Version));
    assert_eq!(Header::from_bytes(&good, 8, 128), Err(HeaderError::Cookie));
    assert_eq!(Header::from_bytes(&good, 7, 128), Err(HeaderError::CachelineSize));
    let mut bad = good.clone();
    bad[18] = 8;
    assert_eq!(Header::from_bytes(&bad, 7, 64), Err(HeaderError::AtomicSize));
}

#[test]
fn table_layout_and_round_trip() {
    let consumers = [ChannelParam { add_msgs: 0, msg_size: 12 }];
    let producers = [
        ChannelParam { add_msgs: 0, msg_size: 12 },
        ChannelParam { add_msgs: 10, msg_size: 8 },
    ];
    let t = ChannelTable::new(&consumers, &producers, 64, 64);
    assert_eq!(t.consumers[0].span, Span { offset: 64, size: 256 });
    assert_eq!(t.producers[0].span, Span { offset: 320, size: 256 });
    assert_eq!(t.producers[1].span, Span { offset: 576, size: 64 + 13 * 64 });
    assert_eq!(ChannelTable::calc_offset(3), 24);
    assert_eq!(ChannelTable::calc_size(3), 24);
    let bytes = t.to_bytes();
    assert_eq!(bytes.len(), 24);
    // the attaching side swaps the roles
    let back = ChannelTable::from_bytes(&bytes, 2, 1, 64, 64).unwrap();
    assert_eq!(back.producers.len(), 1);
    assert_eq!(back.consumers.len(), 2);
    assert_eq!(back.producers[0], t.consumers[0]);
    assert_eq!(back.consumers[0], t.producers[0]);
    assert_eq!(back.consumers[1], t.producers[1]);
}

#[test]
fn table_errors() {
    let t = ChannelTable::new(&[ChannelParam { add_msgs: 0, msg_size: 12 }], &[], 64, 64);
    let bytes = t.to_bytes();
    assert_eq!(ChannelTable::from_bytes(&bytes, 2, 0, 64, 64).err(), Some(MemError::Size));
    let zero = vec![0u8; 8];
    assert_eq!(ChannelTable::from_bytes(&zero, 1, 0, 64, 64).err(), Some(MemError::Value));
    assert_eq!(ChannelTable::from_bytes(&bytes, 0, 1, usize::MAX - 10, 64).err(), Some(MemError::Size));
}

#[test]
fn error_conversions() {
    assert_eq!(ChannelError::from(MemError::Index), ChannelError::Mem(MemError::Index));
    assert_eq!(HeaderError::from(MemError::Alignment), HeaderError::Size);
    assert!(matches!(CreateError::from(MemError::Value), CreateError::Mem(MemError::Value)));
    assert!(matches!(
        CreateError::from(HeaderError::Cookie),
        CreateError::Header(HeaderError::Cookie)
    ));
}
