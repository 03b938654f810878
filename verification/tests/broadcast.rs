use crossbytes::broadcast::{
    align, is_aligned8, BroadcastRx, BroadcastTx, MsgTypeId, RxErr, TxErr, HEADER_SIZE,
    TRAILER_SIZE,
};
use crossbytes::bytes::Bytes;

#[test]
fn test_align() {
    assert_eq!(16, align(12, 8));
    assert_eq!(16, align(16, 8));
    assert_eq!(8, align(6, 8));
}

#[test]
fn test_is_aligned8() {
    assert!(is_aligned8(0));
    assert!(is_aligned8(16));
    assert!(is_aligned8(280));
    assert!(!is_aligned8(9));
    assert!(!is_aligned8(12));
}

#[test]
fn test_send_receive() {
    let bytes = Bytes::heap_allocate(32 + TRAILER_SIZE);
    let mut tx = BroadcastTx::new(bytes);
    let mut rx = BroadcastRx::new(tx.region());
    let msg_id = MsgTypeId(1);
    let res = tx.transmit(4u32, msg_id, &[0xFFu8, 0xF0u8, 0, 0]);
    assert!(res.is_ok());

    let rec = rx.receive_next(tx.region()).unwrap();
    assert_eq!(1, rec.msg_id.0);
    assert_eq!(4, rec.payload.len());
    let one = rec.payload[0];
    let two = rec.payload[1];

    assert_eq!(one, 0xFFu8);
    assert_eq!(two, 0xF0u8);
}

#[test]
fn test_slow_receiver() {
    let bytes = Bytes::heap_allocate(32 + TRAILER_SIZE);
    let mut tx = BroadcastTx::new(bytes);
    let mut rx = BroadcastRx::new(tx.region());
    for i in 1..5u32 {
        let msg_id = MsgTypeId(i);
        let res = tx.transmit(4u32, msg_id, &[i as u8, i as u8, 0, 0]);
        assert!(res.is_ok());
    }

    let res = rx.receive_next(tx.region()).map(|rec| rec.record_size);
    assert_eq!(Err(RxErr::Overwritten), res);
    assert_eq!(1, rx.lapped_count());

    // the next receive should deliver the latest message
    let rec = rx.receive_next(tx.region()).unwrap();
    assert_eq!(4, rec.msg_id.0);
    assert_eq!(4, rec.payload[0]);
    assert_eq!(4, rec.payload[1]);
    assert_eq!(4 + HEADER_SIZE, rec.record_size);
}

#[test]
fn test_overwrite_during_read() {
    let bytes = Bytes::heap_allocate(32 + TRAILER_SIZE);
    let mut tx = BroadcastTx::new(bytes);
    let mut rx = BroadcastRx::new(tx.region());
    let msg_id = MsgTypeId(1);
    let res = tx.transmit(4u32, msg_id, &[1u8, 1u8, 0, 0]);
    assert!(res.is_ok());

    // scenario: between the read and its validation, the publisher updates
    let pending = rx.receive_begin(tx.region()).unwrap();
    for i in 1..5u32 {
        let _ = tx.transmit(4u32, MsgTypeId(i), &[i as u8, i as u8, 0, 0]);
    }
    let res = rx.commit_read(tx.region(), pending.record_size, pending.next_position);
    assert_eq!(Err(RxErr::Overwritten), res);
    assert_eq!(1, rx.lapped_count());

    let rec = rx.receive_next(tx.region()).unwrap();
    assert_eq!(rec.msg_id, MsgTypeId(4));
    assert_eq!(4, rec.payload[0]);
    assert_eq!(4, rec.payload[1]);
}

#[test]
fn test_late_joiner_read_latest() {
    let bytes = Bytes::heap_allocate(32 + TRAILER_SIZE);
    let mut tx = BroadcastTx::new(bytes);
    for i in 1..5u32 {
        let msg_id = MsgTypeId(i);
        let res = tx.transmit(4u32, msg_id, &[i as u8, i as u8, 0, 0]);
        assert!(res.is_ok());
    }

    let mut rx = BroadcastRx::new(tx.region());

    // the first receive should deliver the latest message
    let rec = rx.receive_next(tx.region()).unwrap();
    assert_eq!(4, rec.msg_id.0);
    assert_eq!(4, rec.payload[0]);
    assert_eq!(4, rec.payload[1]);
    assert_eq!(4 + HEADER_SIZE, rec.record_size);
}

#[test]
fn test_transmit_rejects_padding_type() {
    let bytes = Bytes::heap_allocate(32 + TRAILER_SIZE);
    let mut tx = BroadcastTx::new(bytes);
    let res = tx.transmit(4u32, MsgTypeId(0), &[1, 2, 3, 4]);
    assert_eq!(Err(TxErr::InvalidMsgType), res);
    assert_eq!(0, tx.region().tail());
}

#[test]
fn test_transmit_rejects_oversized_message() {
    let bytes = Bytes::heap_allocate(32 + TRAILER_SIZE);
    let mut tx = BroadcastTx::new(bytes);
    // the cap is an eighth of the 32-byte ring
    let res = tx.transmit(5u32, MsgTypeId(1), &[1, 2, 3, 4, 5]);
    assert_eq!(Err(TxErr::MsgTooLarge(5)), res);
    let res = tx.transmit(4u32, MsgTypeId(1), &[1, 2, 3, 4]);
    assert_eq!(Ok(16), res);
}

#[test]
fn test_no_element_when_caught_up() {
    let bytes = Bytes::heap_allocate(32 + TRAILER_SIZE);
    let mut tx = BroadcastTx::new(bytes);
    let mut rx = BroadcastRx::new(tx.region());
    let res = rx.receive_next(tx.region()).map(|rec| rec.record_size);
    assert_eq!(Err(RxErr::NoElement), res);
    tx.transmit(4u32, MsgTypeId(1), &[1, 2, 3, 4]).unwrap();
    assert!(rx.receive_next(tx.region()).is_ok());
    let res = rx.receive_next(tx.region()).map(|rec| rec.record_size);
    assert_eq!(Err(RxErr::NoElement), res);
}

#[test]
fn test_padding_wrap() {
    let bytes = Bytes::heap_allocate(256 + TRAILER_SIZE);
    let mut tx = BroadcastTx::new(bytes);
    // each 12-byte payload consumes 24 bytes; ten of them end at offset 240
    for i in 0..10u32 {
        let res = tx.transmit(12u32, MsgTypeId(1 + i), &[i as u8; 12]);
        assert_eq!(Ok(24), res);
    }
    assert_eq!(240, tx.region().tail());
    // the next frame would straddle the ring end: a 16-byte padding record
    // fills the gap and the record itself starts at offset zero
    let res = tx.transmit(12u32, MsgTypeId(99), &[7u8; 12]);
    assert_eq!(Ok(24 + 16), res);
    assert_eq!(280, tx.region().tail());
    assert_eq!(280, tx.region().tail_intent());
    assert_eq!(240, tx.region().latest());

    // a fresh receiver lands on the padding, steps over it, and delivers the
    // real record
    let mut rx = BroadcastRx::new(tx.region());
    let rec = rx.receive_next(tx.region()).unwrap();
    assert_eq!(99, rec.msg_id.0);
    assert_eq!(12 + HEADER_SIZE, rec.record_size);
    assert_eq!(7, rec.payload[0]);
    let res = rx.receive_next(tx.region()).map(|rec| rec.record_size);
    assert_eq!(Err(RxErr::NoElement), res);
}

#[test]
fn test_lapped_count_increments() {
    let bytes = Bytes::heap_allocate(32 + TRAILER_SIZE);
    let mut tx = BroadcastTx::new(bytes);
    let mut rx = BroadcastRx::new(tx.region());
    assert_eq!(0, rx.lapped_count());
    for i in 1..5u32 {
        tx.transmit(4u32, MsgTypeId(i), &[i as u8, 0, 0, 0]).unwrap();
    }
    assert!(rx.receive_next(tx.region()).is_err());
    assert_eq!(1, rx.lapped_count());
    // catch up, then get lapped again
    assert!(rx.receive_next(tx.region()).is_ok());
    for i in 1..5u32 {
        tx.transmit(4u32, MsgTypeId(i), &[i as u8, 0, 0, 0]).unwrap();
    }
    assert!(rx.receive_next(tx.region()).is_err());
    assert_eq!(2, rx.lapped_count());
}

#[test]
fn test_long_run_consistency() {
    let bytes = Bytes::heap_allocate(1024 + TRAILER_SIZE);
    let mut tx = BroadcastTx::new(bytes);
    let mut rx = BroadcastRx::new(tx.region());
    let mut last_va0: Option<u64> = None;
    let mut last_id: u32 = 0;
    let mut laps_at_last_delivery: u64 = 0;
    let mut delivered: u64 = 0;
    for v in 0..2000u64 {
        let mut payload = [0u8; 16];
        payload[..8].copy_from_slice(&v.to_le_bytes());
        payload[8..].copy_from_slice(&(v + 1).to_le_bytes());
        let id = 1 + (v % 2) as u32;
        let res = tx.transmit(16u32, MsgTypeId(id), &payload);
        assert!(res.is_ok());
        if v % 7 == 0 {
            loop {
                match rx.receive_next(tx.region()) {
                    Ok(rec) => {
                        assert_eq!(16, rec.payload.len());
                        let mut a = [0u8; 8];
                        a.copy_from_slice(&rec.payload[0..8]);
                        let va0 = u64::from_le_bytes(a);
                        let mut b = [0u8; 8];
                        b.copy_from_slice(&rec.payload[8..16]);
                        let va1 = u64::from_le_bytes(b);
                        // no torn frames: the two words are consistent
                        assert_eq!(va1, va0 + 1);
                        if let Some(prev) = last_va0 {
                            assert!(va0 > prev);
                            // adjacent records never repeat a type id
                            if rx.lapped_count() == laps_at_last_delivery {
                                assert_ne!(last_id, rec.msg_id.0);
                            }
                        }
                        last_va0 = Some(va0);
                        last_id = rec.msg_id.0;
                        laps_at_last_delivery = rx.lapped_count();
                        delivered += 1;
                    }
                    Err(RxErr::Overwritten) => {
                        continue;
                    }
                    Err(_) => {
                        break;
                    }
                }
            }
        }
    }
    assert!(delivered > 100);
}
