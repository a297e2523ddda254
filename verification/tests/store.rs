use session_log::codec::{encode, encode_frame, Aux, DecodeError, Frame, Record};
use session_log::error::Error;
use session_log::store::SessionStore;

fn point(t: u64, lat: f64, long: f64) -> Record {
    Record { timestamp: t, latitude_bits: lat.to_bits(), longitude_bits: long.to_bits(), aux: None }
}

fn rich(t: u64) -> Record {
    Record {
        timestamp: t,
        latitude_bits: 10.0f64.to_bits(),
        longitude_bits: 20.0f64.to_bits(),
        aux: Some(Aux {
            speed_bits: 12.5f64.to_bits(),
            heading_bits: 270.0f64.to_bits(),
            channels: [9, 8, 7, 6],
        }),
    }
}

fn fresh() -> SessionStore {
    SessionStore::open_or_create(Vec::new()).unwrap()
}

/// Two sessions, the first stopped, the second left open.
fn two_sessions() -> SessionStore {
    let mut store = fresh();
    store.start_session(100).unwrap();
    store.append(&point(1, 1.0, 1.0)).unwrap();
    store.append(&rich(2)).unwrap();
    store.stop_session().unwrap();
    store.start_session(200).unwrap();
    store.append(&point(3, 3.0, 3.0)).unwrap();
    store
}

#[test]
fn example_scenario() {
    let mut store = fresh();
    assert_eq!(store.start_session(1000), Ok(1000));
    let first = point(0, 45.0, -73.0);
    let second = point(10, 45.001, -73.001);
    assert_eq!(store.append(&first), Ok(()));
    assert_eq!(store.append(&second), Ok(()));
    assert_eq!(store.get_last(), Some(second));
    assert_eq!(store.list_sessions(), vec![1000]);
    assert_eq!(store.get_session(1000), Ok(vec![first, second]));
    assert_eq!(store.stop_session(), Ok(()));
    assert_eq!(store.append(&point(20, 45.002, -73.002)), Err(Error::NoOpenSession));
}

#[test]
fn new_store_is_empty() {
    let store = fresh();
    assert_eq!(store.list_sessions(), Vec::<u64>::new());
    assert_eq!(store.get_last(), None);
    assert_eq!(store.open_session(), None);
    assert_eq!(store.write_cursor(), 0);
    assert_eq!(store.bytes(), &[] as &[u8]);
    assert_eq!(store.get_session(1), Err(Error::NotFound));
}

#[test]
fn log_is_the_frames_in_order() {
    let mut store = fresh();
    store.start_session(1000).unwrap();
    store.append(&point(0, 45.0, -73.0)).unwrap();
    store.append(&rich(5)).unwrap();
    store.stop_session().unwrap();
    let mut expected = encode_frame(&Frame::Start(1000));
    expected.extend(encode(&point(0, 45.0, -73.0)));
    expected.extend(encode(&rich(5)));
    expected.extend(encode_frame(&Frame::Stop(1000)));
    assert_eq!(store.bytes(), expected.as_slice());
    assert_eq!(store.write_cursor(), 18 + 34 + 58 + 18);
}

#[test]
fn session_ids_are_strictly_increasing() {
    let mut store = fresh();
    let mut ids = Vec::new();
    for now in [50u64, 50, 10, 51, 52, 0, 1000, 1000] {
        let id = store.start_session(now).unwrap();
        store.stop_session().unwrap();
        ids.push(id);
    }
    assert_eq!(ids, vec![50, 51, 52, 53, 54, 55, 1000, 1001]);
    for pair in ids.windows(2) {
        assert!(pair[0] < pair[1]);
    }
    assert_eq!(store.list_sessions(), ids);
}

#[test]
fn next_session_id_plans_what_start_session_gives() {
    let mut store = fresh();
    assert_eq!(store.next_session_id(7), Ok(7));
    assert_eq!(store.start_session(7), Ok(7));
    assert_eq!(store.next_session_id(8), Err(Error::SessionAlreadyOpen));
    store.stop_session().unwrap();
    assert_eq!(store.next_session_id(3), Ok(8));
    assert_eq!(store.next_session_id(9), Ok(9));
    assert_eq!(store.start_session(3), Ok(8));
}

#[test]
fn second_start_fails_while_a_session_is_open() {
    let mut store = fresh();
    store.start_session(1).unwrap();
    let before = store.bytes().to_vec();
    assert_eq!(store.start_session(2), Err(Error::SessionAlreadyOpen));
    assert_eq!(store.bytes(), before.as_slice());
    assert_eq!(store.open_session(), Some(1));
    assert_eq!(store.list_sessions(), vec![1]);
}

#[test]
fn append_fails_with_no_session_open() {
    let mut store = fresh();
    assert_eq!(store.append(&point(0, 0.0, 0.0)), Err(Error::NoOpenSession));
    assert_eq!(store.write_cursor(), 0);
    assert_eq!(store.get_last(), None);
}

#[test]
fn stop_fails_with_no_session_open() {
    let mut store = fresh();
    assert_eq!(store.stop_session(), Err(Error::NoOpenSession));
    store.start_session(1).unwrap();
    store.stop_session().unwrap();
    let before = store.bytes().to_vec();
    assert_eq!(store.stop_session(), Err(Error::NoOpenSession));
    assert_eq!(store.bytes(), before.as_slice());
}

#[test]
fn no_identifier_is_left_behind_the_greatest() {
    let mut store = fresh();
    assert_eq!(store.start_session(u64::MAX), Ok(u64::MAX));
    store.stop_session().unwrap();
    let before = store.bytes().to_vec();
    assert_eq!(store.start_session(5), Err(Error::IdSpaceExhausted));
    assert_eq!(store.next_session_id(u64::MAX), Err(Error::IdSpaceExhausted));
    assert_eq!(store.bytes(), before.as_slice());
}

#[test]
fn records_come_back_in_append_order() {
    let mut store = fresh();
    store.start_session(1).unwrap();
    let records: Vec<Record> = (0..50).map(|t| point(t * 10, t as f64, -(t as f64))).collect();
    for r in &records {
        store.append(r).unwrap();
    }
    let back = store.get_session(1).unwrap();
    assert_eq!(back, records);
    for pair in back.windows(2) {
        assert!(pair[0].timestamp <= pair[1].timestamp);
    }
}

#[test]
fn records_are_kept_as_appended_even_out_of_time_order() {
    let mut store = fresh();
    store.start_session(1).unwrap();
    store.append(&point(10, 0.0, 0.0)).unwrap();
    store.append(&point(5, 0.0, 0.0)).unwrap();
    assert_eq!(store.get_session(1), Ok(vec![point(10, 0.0, 0.0), point(5, 0.0, 0.0)]));
}

#[test]
fn sessions_keep_their_own_records() {
    let store = two_sessions();
    assert_eq!(store.list_sessions(), vec![100, 200]);
    assert_eq!(store.get_session(100), Ok(vec![point(1, 1.0, 1.0), rich(2)]));
    assert_eq!(store.get_session(200), Ok(vec![point(3, 3.0, 3.0)]));
    assert_eq!(store.get_session(150), Err(Error::NotFound));
    assert_eq!(store.get_last(), Some(point(3, 3.0, 3.0)));
    assert_eq!(store.open_session(), Some(200));
}

#[test]
fn open_session_shows_all_records_so_far() {
    let mut store = fresh();
    store.start_session(1).unwrap();
    assert_eq!(store.get_session(1), Ok(vec![]));
    for n in 0..5u64 {
        store.append(&point(n, 0.0, 0.0)).unwrap();
        assert_eq!(store.get_session(1).unwrap().len() as u64, n + 1);
    }
}

#[test]
fn last_record_outlives_its_session() {
    let mut store = fresh();
    store.start_session(1).unwrap();
    store.append(&rich(4)).unwrap();
    store.stop_session().unwrap();
    store.start_session(2).unwrap();
    assert_eq!(store.get_last(), Some(rich(4)));
}

#[test]
fn reopening_recovers_everything() {
    let store = two_sessions();
    let again = SessionStore::open_or_create(store.bytes().to_vec()).unwrap();
    assert_eq!(again.list_sessions(), vec![100, 200]);
    assert_eq!(again.get_session(100), Ok(vec![point(1, 1.0, 1.0), rich(2)]));
    assert_eq!(again.get_session(200), Ok(vec![point(3, 3.0, 3.0)]));
    assert_eq!(again.get_last(), Some(point(3, 3.0, 3.0)));
    assert_eq!(again.bytes(), store.bytes());
    assert_eq!(again.write_cursor(), store.write_cursor());
}

#[test]
fn session_without_stop_marker_is_closed_on_reopening() {
    let store = two_sessions();
    let mut again = SessionStore::open_or_create(store.bytes().to_vec()).unwrap();
    assert_eq!(again.open_session(), None);
    assert_eq!(again.append(&point(9, 0.0, 0.0)), Err(Error::NoOpenSession));
    assert_eq!(again.stop_session(), Err(Error::NoOpenSession));
    assert_eq!(again.start_session(0), Ok(201));
    again.append(&point(9, 0.0, 0.0)).unwrap();
    let third = SessionStore::open_or_create(again.bytes().to_vec()).unwrap();
    assert_eq!(third.list_sessions(), vec![100, 200, 201]);
    assert_eq!(third.get_session(200), Ok(vec![point(3, 3.0, 3.0)]));
    assert_eq!(third.get_session(201), Ok(vec![point(9, 0.0, 0.0)]));
}

#[test]
fn truncated_final_frame_is_dropped_at_every_cut() {
    let store = two_sessions();
    let whole = store.bytes().to_vec();
    for tail in [encode(&point(4, 4.0, 4.0)), encode(&rich(4)), encode_frame(&Frame::Stop(200))] {
        for k in 0..tail.len() {
            let mut image = whole.clone();
            image.extend(&tail[..k]);
            let opened = SessionStore::open_or_create(image).unwrap();
            assert_eq!(opened.bytes(), whole.as_slice());
            assert_eq!(opened.write_cursor(), whole.len());
            assert_eq!(opened.list_sessions(), vec![100, 200]);
            assert_eq!(opened.get_session(100), Ok(vec![point(1, 1.0, 1.0), rich(2)]));
            assert_eq!(opened.get_session(200), Ok(vec![point(3, 3.0, 3.0)]));
            assert_eq!(opened.get_last(), Some(point(3, 3.0, 3.0)));
        }
    }
}

#[test]
fn writing_goes_on_where_the_cut_frame_began() {
    let store = two_sessions();
    let whole = store.bytes().to_vec();
    let mut image = whole.clone();
    image.extend(&encode(&rich(4))[..40]);
    let mut opened = SessionStore::open_or_create(image).unwrap();
    assert_eq!(opened.start_session(300), Ok(300));
    let mut expected = whole;
    expected.extend(encode_frame(&Frame::Start(300)));
    assert_eq!(opened.bytes(), expected.as_slice());
    let again = SessionStore::open_or_create(opened.bytes().to_vec()).unwrap();
    assert_eq!(again.list_sessions(), vec![100, 200, 300]);
}

#[test]
fn bit_flip_in_any_frame_fails_the_opening() {
    let store = two_sessions();
    let whole = store.bytes().to_vec();
    // Frames lie at 0 (start), 18 (record), 52 (extended record), 110 (stop),
    // 128 (start), 146 (record).
    let frames = [(0usize, 18usize), (18, 34), (52, 58), (110, 18), (128, 18), (146, 34)];
    assert_eq!(whole.len(), 180);
    for (at, len) in frames {
        for i in at + 6..at + len {
            for bit in 0..8 {
                let mut image = whole.clone();
                image[i] ^= 1 << bit;
                assert_eq!(
                    SessionStore::open_or_create(image).err(),
                    Some(Error::Decode(DecodeError::Corrupt))
                );
            }
        }
    }
}

#[test]
fn record_before_any_session_is_corrupt() {
    let image = encode(&point(1, 1.0, 1.0));
    assert_eq!(
        SessionStore::open_or_create(image).err(),
        Some(Error::Decode(DecodeError::Corrupt))
    );
}

#[test]
fn stop_marker_of_another_session_is_corrupt() {
    let mut image = encode_frame(&Frame::Start(1));
    image.extend(encode_frame(&Frame::Stop(2)));
    assert_eq!(
        SessionStore::open_or_create(image).err(),
        Some(Error::Decode(DecodeError::Corrupt))
    );
}

#[test]
fn identifier_that_does_not_grow_is_corrupt() {
    for second in [1u64, 0] {
        let mut image = encode_frame(&Frame::Start(1));
        image.extend(encode_frame(&Frame::Stop(1)));
        image.extend(encode_frame(&Frame::Start(second)));
        assert_eq!(
            SessionStore::open_or_create(image).err(),
            Some(Error::Decode(DecodeError::Corrupt))
        );
    }
}

#[test]
fn record_after_stop_marker_is_corrupt() {
    let mut image = encode_frame(&Frame::Start(1));
    image.extend(encode_frame(&Frame::Stop(1)));
    image.extend(encode(&point(1, 1.0, 1.0)));
    assert_eq!(
        SessionStore::open_or_create(image).err(),
        Some(Error::Decode(DecodeError::Corrupt))
    );
}

#[test]
fn garbage_header_is_corrupt() {
    let mut image = encode_frame(&Frame::Start(1));
    image.extend([0xffu8; 6]);
    assert_eq!(
        SessionStore::open_or_create(image).err(),
        Some(Error::Decode(DecodeError::Corrupt))
    );
}

#[test]
fn start_marker_closes_a_session_left_open() {
    let mut image = encode_frame(&Frame::Start(1));
    image.extend(encode(&point(1, 1.0, 1.0)));
    image.extend(encode_frame(&Frame::Start(2)));
    image.extend(encode(&point(2, 2.0, 2.0)));
    image.extend(encode_frame(&Frame::Stop(2)));
    let store = SessionStore::open_or_create(image).unwrap();
    assert_eq!(store.list_sessions(), vec![1, 2]);
    assert_eq!(store.get_session(1), Ok(vec![point(1, 1.0, 1.0)]));
    assert_eq!(store.get_session(2), Ok(vec![point(2, 2.0, 2.0)]));
}
