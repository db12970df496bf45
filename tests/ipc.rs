use std::sync::atomic::AtomicU32;

use rtipc::channel::{FetchResult, LocalIndices, SharedIndices};
use rtipc::error::{ChannelError, HeaderError, MemError};
use rtipc::header::HEADER_SIZE;
use rtipc::error::CreateError;
use rtipc::ipc::{attach_table, calc_offset_channels, calc_shm_size, plan_region, RtIpc};
use rtipc::ChannelParam;

const COOKIE: u32 = 0x13579BDF;

fn creator_params() -> (Vec<ChannelParam>, Vec<ChannelParam>) {
    (
        vec![ChannelParam { add_msgs: 0, msg_size: 12 }],
        vec![
            ChannelParam { add_msgs: 0, msg_size: 12 },
            ChannelParam { add_msgs: 10, msg_size: 8 },
        ],
    )
}

#[test]
fn region_size_is_sum_of_parts() {
    let (c, p) = creator_params();
    let offset = calc_offset_channels(3, 64);
    assert_eq!(offset, 64);
    let size = calc_shm_size(&c, &p, 64).unwrap();
    assert_eq!(size, offset + c[0].size(64) + p[0].size(64) + p[1].size(64));
    assert_eq!(size, 64 + 256 + 256 + 896);
    assert!(matches!(calc_shm_size(&[], &[], 64), Err(CreateError::Argument)));
    let zero = [ChannelParam { add_msgs: 0, msg_size: 0 }];
    assert!(matches!(calc_shm_size(&zero, &[], 64), Err(CreateError::Argument)));
}

#[test]
fn creator_and_attacher_agree() {
    let (c, p) = creator_params();
    let plan = plan_region(&c, &p, COOKIE, 64).unwrap();
    assert_eq!(plan.header.len(), HEADER_SIZE);
    assert_eq!(plan.table_bytes.len(), 24);
    let table = attach_table(&plan.header, &plan.table_bytes, COOKIE, 64).unwrap();
    assert_eq!(table.producers.len(), 1);
    assert_eq!(table.consumers.len(), 2);
    assert_eq!(table.producers[0], plan.table.consumers[0]);
    assert_eq!(table.consumers[0], plan.table.producers[0]);
    assert_eq!(table.consumers[1], plan.table.producers[1]);
    let end = table.consumers[1].span.offset + table.consumers[1].span.size;
    assert_eq!(end, plan.size);
}

#[test]
fn attacher_with_other_cookie_is_refused() {
    let (c, p) = creator_params();
    let plan = plan_region(&c, &p, COOKIE, 64).unwrap();
    let r = attach_table(&plan.header, &plan.table_bytes, COOKIE + 1, 64);
    assert!(matches!(r, Err(CreateError::Header(HeaderError::Cookie))));
}

#[test]
fn attacher_with_other_cacheline_is_refused() {
    let (c, p) = creator_params();
    let plan = plan_region(&c, &p, COOKIE, 64).unwrap();
    let r = attach_table(&plan.header, &plan.table_bytes, COOKIE, 128);
    assert!(matches!(r, Err(CreateError::Header(HeaderError::CachelineSize))));
}

#[test]
fn attacher_with_short_table_is_refused() {
    let (c, p) = creator_params();
    let plan = plan_region(&c, &p, COOKIE, 64).unwrap();
    let r = attach_table(&plan.header, &plan.table_bytes[..16], COOKIE, 64);
    assert!(matches!(r, Err(CreateError::Mem(MemError::Size))));
}

fn local_ipc() -> RtIpc<LocalIndices> {
    let (c, p) = creator_params();
    let plan = plan_region(&c, &p, COOKIE, 64).unwrap();
    let cm = vec![LocalIndices { cells: vec![0; 5] }];
    let pm = vec![LocalIndices { cells: vec![0; 5] }, LocalIndices { cells: vec![0; 15] }];
    RtIpc::construct(&plan.table, cm, pm, true).unwrap()
}

#[test]
fn construct_checks_word_counts() {
    let (c, p) = creator_params();
    let plan = plan_region(&c, &p, COOKIE, 64).unwrap();
    let cm = vec![LocalIndices { cells: vec![0; 5] }];
    let pm = vec![LocalIndices { cells: vec![0; 5] }, LocalIndices { cells: vec![0; 14] }];
    assert!(matches!(
        RtIpc::construct(&plan.table, cm, pm, true),
        Err(CreateError::Mem(MemError::Size))
    ));
}

#[test]
fn handles_are_taken_once() {
    let mut ipc = local_ipc();
    assert!(ipc.take_producer::<u32>(0).is_ok());
    assert_eq!(ipc.take_producer::<u32>(0).err(), Some(ChannelError::Index));
    assert!(ipc.take_producer::<u32>(1).is_ok());
    assert_eq!(ipc.take_producer::<u32>(2).err(), Some(ChannelError::Mem(MemError::Index)));
    assert!(ipc.take_consumer::<u32>(0).is_ok());
    assert_eq!(ipc.take_consumer::<u32>(0).err(), Some(ChannelError::Index));
}

#[test]
fn message_size_guard() {
    let mut ipc = local_ipc();
    // producer 1 carries 8-byte messages
    assert_eq!(ipc.take_producer::<[u8; 9]>(1).err(), Some(ChannelError::Mem(MemError::Size)));
    let mut ipc = local_ipc();
    assert!(ipc.take_producer::<u64>(1).is_ok());
    assert!(ipc.take_consumer::<[u8; 12]>(0).is_ok());
    let mut ipc = local_ipc();
    assert_eq!(ipc.take_consumer::<[u8; 13]>(0).err(), Some(ChannelError::Mem(MemError::Size)));
}

#[test]
fn typed_handles_over_shared_words() {
    let (c, p) = creator_params();
    let plan = plan_region(&c, &p, COOKIE, 64).unwrap();
    let words: Vec<AtomicU32> = (0..5).map(|_| AtomicU32::new(0)).collect();
    let extra: Vec<AtomicU32> = (0..20).map(|_| AtomicU32::new(0)).collect();
    let cm = vec![SharedIndices { cells: &words[..] }];
    let pm = vec![SharedIndices { cells: &extra[..5] }, SharedIndices { cells: &extra[5..] }];
    let mut creator = RtIpc::construct(&plan.table, cm, pm, true).unwrap();
    let table = attach_table(&plan.header, &plan.table_bytes, COOKIE, 64).unwrap();
    let cm = vec![SharedIndices { cells: &extra[..5] }, SharedIndices { cells: &extra[5..] }];
    let pm = vec![SharedIndices { cells: &words[..] }];
    let mut attacher = RtIpc::construct(&table, cm, pm, false).unwrap();

    let mut tx = attacher.take_producer::<u64>(0).unwrap();
    let mut rx = creator.take_consumer::<u64>(0).unwrap();
    let mut slots = [0u64; 3];
    assert_eq!(rx.fetch_tail(), FetchResult::Empty);
    slots[tx.msg_slot() as usize] = 42;
    assert!(tx.try_put());
    assert_eq!(rx.fetch_tail(), FetchResult::New);
    assert_eq!(slots[rx.msg_slot() as usize], 42);
    slots[tx.msg_slot() as usize] = 43;
    assert!(!tx.force_put());
    assert!(rx.fetch_head());
    assert_eq!(slots[rx.msg_slot() as usize], 43);
    assert_eq!(rx.fetch_tail(), FetchResult::Same);
}
