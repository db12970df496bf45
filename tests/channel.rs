use std::sync::atomic::AtomicU32;

use rtipc::channel::{
    ConsumerChannel, FetchResult, LocalIndices, ProducerChannel, SharedIndices, INVALID_INDEX,
};
use rtipc::ChannelParam;

fn cells(param: &ChannelParam) -> Vec<AtomicU32> {
    (0..2 + 3 + param.add_msgs).map(|_| AtomicU32::new(0)).collect()
}

fn pair<'a>(
    words: &'a [AtomicU32],
    param: &ChannelParam,
) -> (ProducerChannel<SharedIndices<'a>>, ConsumerChannel<SharedIndices<'a>>) {
    let mut p = ProducerChannel::new(SharedIndices { cells: words }, param).unwrap();
    p.init();
    let c = ConsumerChannel::new(SharedIndices { cells: words }, param).unwrap();
    (p, c)
}

#[test]
fn basic_fifo() {
    let param = ChannelParam { add_msgs: 0, msg_size: 8 };
    let words = cells(&param);
    let (mut p, mut c) = pair(&words, &param);
    let mut slots = vec![0u32; 3];
    slots[p.current() as usize] = 0xA;
    assert!(p.try_put());
    slots[p.current() as usize] = 0xB;
    assert!(p.try_put());
    assert_eq!(c.fetch_tail(), FetchResult::New);
    assert_eq!(slots[c.current() as usize], 0xA);
    assert_eq!(c.fetch_tail(), FetchResult::New);
    assert_eq!(slots[c.current() as usize], 0xB);
    assert_eq!(c.fetch_tail(), FetchResult::Same);
    assert_eq!(slots[c.current() as usize], 0xB);
}

#[test]
fn fetch_before_any_publish_is_empty() {
    let param = ChannelParam { add_msgs: 1, msg_size: 8 };
    let words = cells(&param);
    let (_p, mut c) = pair(&words, &param);
    assert_eq!(c.fetch_tail(), FetchResult::Empty);
    assert!(!c.fetch_head());
    assert_eq!(c.fetch_tail(), FetchResult::Empty);
}

#[test]
fn overrun_without_consumer() {
    let param = ChannelParam { add_msgs: 0, msg_size: 8 };
    let words = cells(&param);
    let (mut p, mut c) = pair(&words, &param);
    let mut slots = vec![0u32; 3];
    let mut discarded = Vec::new();
    for v in [0xA, 0xB, 0xC, 0xD] {
        slots[p.current() as usize] = v;
        discarded.push(p.force_put());
    }
    assert_eq!(discarded, vec![false, false, true, true]);
    assert_eq!(c.fetch_tail(), FetchResult::New);
    assert_eq!(slots[c.current() as usize], 0xC);
    assert_eq!(c.fetch_tail(), FetchResult::New);
    assert_eq!(slots[c.current() as usize], 0xD);
    assert_eq!(c.fetch_tail(), FetchResult::Same);
}

#[test]
fn fetch_head_skips_to_latest() {
    let param = ChannelParam { add_msgs: 2, msg_size: 8 };
    let words = cells(&param);
    let (mut p, mut c) = pair(&words, &param);
    let mut slots = vec![0u32; 5];
    for v in [0xA, 0xB, 0xC, 0xD, 0xE] {
        slots[p.current() as usize] = v;
        p.force_put();
    }
    assert!(c.fetch_head());
    assert_eq!(slots[c.current() as usize], 0xE);
    assert_eq!(c.fetch_tail(), FetchResult::Same);
    assert_eq!(c.fetch_tail(), FetchResult::Same);
    slots[p.current() as usize] = 0xF;
    p.force_put();
    assert_eq!(c.fetch_tail(), FetchResult::New);
    assert_eq!(slots[c.current() as usize], 0xF);
}

#[test]
fn try_put_refused_when_full() {
    let param = ChannelParam { add_msgs: 0, msg_size: 8 };
    let words = cells(&param);
    let (mut p, mut c) = pair(&words, &param);
    let mut slots = vec![0u32; 3];
    slots[p.current() as usize] = 0xA;
    assert!(p.try_put());
    slots[p.current() as usize] = 0xB;
    assert!(p.try_put());
    let before = p.current();
    slots[p.current() as usize] = 0xC;
    assert!(!p.try_put());
    assert_eq!(p.current(), before);
    assert_eq!(c.fetch_tail(), FetchResult::New);
    assert_eq!(slots[c.current() as usize], 0xA);
    // the consumer holds A; B is still unread
    assert_eq!(c.fetch_tail(), FetchResult::New);
    assert_eq!(slots[c.current() as usize], 0xB);
}

#[test]
fn overrun_while_consumer_holds_tail() {
    let param = ChannelParam { add_msgs: 0, msg_size: 8 };
    let words = cells(&param);
    let (mut p, mut c) = pair(&words, &param);
    let mut slots = vec![0u32; 3];
    slots[p.current() as usize] = 0xA;
    assert!(!p.force_put());
    slots[p.current() as usize] = 0xB;
    assert!(!p.force_put());
    assert_eq!(c.fetch_tail(), FetchResult::New);
    let held = c.current();
    assert_eq!(slots[held as usize], 0xA);
    slots[p.current() as usize] = 0xC;
    assert!(p.force_put());
    // the producer never takes the slot the consumer reads
    assert_ne!(p.current(), held);
    assert_eq!(slots[held as usize], 0xA);
    assert_eq!(c.fetch_tail(), FetchResult::New);
    assert_eq!(slots[c.current() as usize], 0xC);
    slots[p.current() as usize] = 0xD;
    assert!(!p.force_put());
    assert_eq!(c.fetch_tail(), FetchResult::New);
    assert_eq!(slots[c.current() as usize], 0xD);
    assert_eq!(c.fetch_tail(), FetchResult::Same);
}

#[test]
fn lossless_when_producer_stays_behind() {
    let param = ChannelParam { add_msgs: 1, msg_size: 8 };
    let n = 4usize;
    let words = cells(&param);
    let (mut p, mut c) = pair(&words, &param);
    let mut slots = vec![0u32; n];
    let mut next_value = 1u32;
    let mut expected = 1u32;
    let mut pending = 0usize;
    for round in 0..200usize {
        let puts = round % n;
        for _ in 0..puts {
            slots[p.current() as usize] = next_value;
            if p.try_put() {
                next_value += 1;
                pending += 1;
            } else {
                // refused only when no slot is free
                assert!(pending + 1 >= n - 1);
            }
        }
        let fetches = (round * 7) % 3 + 1;
        for _ in 0..fetches {
            match c.fetch_tail() {
                FetchResult::New => {
                    assert_eq!(slots[c.current() as usize], expected);
                    expected += 1;
                    pending -= 1;
                }
                FetchResult::Same | FetchResult::Empty => assert_eq!(pending, 0),
            }
        }
    }
    assert_eq!(expected + pending as u32, next_value);
}

#[test]
fn force_put_never_repeats_or_goes_back() {
    let param = ChannelParam { add_msgs: 2, msg_size: 8 };
    let words = cells(&param);
    let (mut p, mut c) = pair(&words, &param);
    let mut slots = vec![0u32; 5];
    let mut last_seen = 0u32;
    let mut value = 0u32;
    for round in 0..300usize {
        for _ in 0..(round % 9) {
            value += 1;
            slots[p.current() as usize] = value;
            p.force_put();
        }
        for _ in 0..(round % 4) {
            if c.fetch_tail() == FetchResult::New {
                let v = slots[c.current() as usize];
                assert!(v > last_seen);
                last_seen = v;
            }
        }
    }
    loop {
        match c.fetch_tail() {
            FetchResult::New => {
                let v = slots[c.current() as usize];
                assert!(v > last_seen);
                last_seen = v;
            }
            _ => break,
        }
    }
    assert_eq!(last_seen, value);
}

#[test]
fn local_indices_follow_the_protocol() {
    let param = ChannelParam { add_msgs: 0, msg_size: 4 };
    let mut p = ProducerChannel::new(LocalIndices { cells: vec![7; 5] }, &param).unwrap();
    p.init();
    assert_eq!(p.mem.cells, vec![INVALID_INDEX, INVALID_INDEX, 1, 2, 0]);
    assert!(p.try_put());
    assert_eq!(p.mem.cells, vec![0, 0, INVALID_INDEX, 2, 0]);
    assert_eq!(p.current(), 1);
}

#[test]
fn channel_rejects_wrong_word_count() {
    let param = ChannelParam { add_msgs: 1, msg_size: 4 };
    assert!(ProducerChannel::new(LocalIndices { cells: vec![0; 5] }, &param).is_err());
    assert!(ConsumerChannel::new(LocalIndices { cells: vec![0; 7] }, &param).is_err());
    assert!(ConsumerChannel::new(LocalIndices { cells: vec![0; 6] }, &param).is_ok());
}
