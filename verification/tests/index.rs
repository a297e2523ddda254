use session_log::codec::{encode, encode_frame, DecodeError, Frame, Record};
use session_log::error::Error;
use session_log::index::{SessionEntry, SessionIndex};
use session_log::scan::read_records;

fn sample(t: u64) -> Record {
    Record { timestamp: t, latitude_bits: 0, longitude_bits: 0, aux: None }
}

/// Three sessions: two stopped, with two and no records, and one open.
fn three_session_log() -> Vec<u8> {
    let mut log = encode_frame(&Frame::Start(10));
    log.extend(encode(&sample(1)));
    log.extend(encode(&sample(2)));
    log.extend(encode_frame(&Frame::Stop(10)));
    log.extend(encode_frame(&Frame::Start(20)));
    log.extend(encode_frame(&Frame::Stop(20)));
    log.extend(encode_frame(&Frame::Start(30)));
    log.extend(encode(&sample(3)));
    log
}

#[test]
fn empty_index_knows_no_session() {
    let index = SessionIndex::new();
    assert_eq!(index.session_ids(), Vec::<u64>::new());
    assert_eq!(index.open_session(), None);
    assert_eq!(index.newest_id(), None);
    assert_eq!(index.last_record(), None);
    assert_eq!(index.valid_len(), 0);
    assert_eq!(index.range_for(1), Err(Error::NotFound));
}

#[test]
fn rebuild_of_no_bytes_is_empty() {
    let index = SessionIndex::rebuild(&[]).unwrap();
    assert_eq!(index.session_ids(), Vec::<u64>::new());
    assert_eq!(index.valid_len(), 0);
}

#[test]
fn rebuild_finds_sessions_in_start_order() {
    let index = SessionIndex::rebuild(&three_session_log()).unwrap();
    assert_eq!(index.session_ids(), vec![10, 20, 30]);
    assert_eq!(index.newest_id(), Some(30));
}

#[test]
fn rebuild_finds_byte_ranges() {
    let log = three_session_log();
    let index = SessionIndex::rebuild(&log).unwrap();
    assert_eq!(index.range_for(10), Ok((0, 104)));
    assert_eq!(index.range_for(20), Ok((104, 140)));
    assert_eq!(index.range_for(30), Ok((140, 192)));
    assert_eq!(index.valid_len(), 192);
    assert_eq!(log.len(), 192);
}

#[test]
fn rebuild_counts_records() {
    let index = SessionIndex::rebuild(&three_session_log()).unwrap();
    assert_eq!(index.entry_for(10), Ok(SessionEntry { id: 10, start: 0, end: 104, records: 2 }));
    assert_eq!(index.entry_for(20), Ok(SessionEntry { id: 20, start: 104, end: 140, records: 0 }));
    assert_eq!(index.entry_for(30), Ok(SessionEntry { id: 30, start: 140, end: 192, records: 1 }));
}

#[test]
fn unknown_session_is_not_found() {
    let index = SessionIndex::rebuild(&three_session_log()).unwrap();
    for id in [0u64, 9, 11, 19, 21, 29, 31, u64::MAX] {
        assert_eq!(index.range_for(id), Err(Error::NotFound));
        assert_eq!(index.entry_for(id), Err(Error::NotFound));
    }
}

#[test]
fn lookup_finds_every_session_among_many() {
    let mut log = Vec::new();
    for n in 0..100u64 {
        log.extend(encode_frame(&Frame::Start(n * 3 + 1)));
        log.extend(encode_frame(&Frame::Stop(n * 3 + 1)));
    }
    let index = SessionIndex::rebuild(&log).unwrap();
    for n in 0..100u64 {
        let at = (n as usize) * 36;
        assert_eq!(index.range_for(n * 3 + 1), Ok((at, at + 36)));
        assert_eq!(index.range_for(n * 3), Err(Error::NotFound));
        assert_eq!(index.range_for(n * 3 + 2), Err(Error::NotFound));
    }
}

#[test]
fn rebuild_reports_the_session_without_stop_marker_as_open() {
    let index = SessionIndex::rebuild(&three_session_log()).unwrap();
    assert_eq!(index.open_session(), Some(30));
    let mut log = three_session_log();
    log.extend(encode_frame(&Frame::Stop(30)));
    assert_eq!(SessionIndex::rebuild(&log).unwrap().open_session(), None);
}

#[test]
fn rebuild_remembers_the_last_record() {
    let index = SessionIndex::rebuild(&three_session_log()).unwrap();
    assert_eq!(index.last_record(), Some(sample(3)));
}

#[test]
fn rebuild_stops_quietly_at_a_cut_frame() {
    let whole = three_session_log();
    let tail = encode(&sample(4));
    for k in 0..tail.len() {
        let mut log = whole.clone();
        log.extend(&tail[..k]);
        let index = SessionIndex::rebuild(&log).unwrap();
        assert_eq!(index.valid_len(), whole.len());
        assert_eq!(index.session_ids(), vec![10, 20, 30]);
        assert_eq!(index.entry_for(30).unwrap().records, 1);
        assert_eq!(index.last_record(), Some(sample(3)));
    }
}

#[test]
fn rebuild_fails_on_damage_in_the_middle() {
    let mut log = three_session_log();
    log[18 + 10] ^= 0x40;
    assert_eq!(SessionIndex::rebuild(&log).err(), Some(DecodeError::Corrupt));
}

#[test]
fn rebuild_fails_on_damage_in_the_last_frame() {
    let mut log = three_session_log();
    let last = log.len() - 1;
    log[last] ^= 0x01;
    assert_eq!(SessionIndex::rebuild(&log).err(), Some(DecodeError::Corrupt));
}

#[test]
fn rebuild_fails_on_a_frame_out_of_place() {
    let mut log = three_session_log();
    log.extend(encode_frame(&Frame::Stop(10)));
    assert_eq!(SessionIndex::rebuild(&log).err(), Some(DecodeError::Corrupt));
}

#[test]
fn session_bytes_hold_the_session_records() {
    let log = three_session_log();
    let index = SessionIndex::rebuild(&log).unwrap();
    let (start, end) = index.range_for(10).unwrap();
    assert_eq!(read_records(&log[start..end]), Ok(vec![sample(1), sample(2)]));
    let (start, end) = index.range_for(20).unwrap();
    assert_eq!(read_records(&log[start..end]), Ok(vec![]));
}

#[test]
fn read_records_tells_cut_from_damage() {
    let log = three_session_log();
    assert_eq!(read_records(&log), Ok(vec![sample(1), sample(2), sample(3)]));
    assert_eq!(read_records(&log[..100]), Err(DecodeError::Truncated));
    assert_eq!(read_records(&log[..17]), Err(DecodeError::Truncated));
    let mut damaged = log.clone();
    damaged[60] ^= 0x80;
    assert_eq!(read_records(&damaged), Err(DecodeError::Corrupt));
    assert_eq!(read_records(&[]), Ok(vec![]));
}

#[test]
fn only_the_session_without_stop_marker_is_open() {
    let index = SessionIndex::rebuild(&three_session_log()).unwrap();
    assert_eq!(index.is_closed(10), Ok(true));
    assert_eq!(index.is_closed(20), Ok(true));
    assert_eq!(index.is_closed(30), Ok(false));
    assert_eq!(index.is_closed(40), Err(Error::NotFound));
}
