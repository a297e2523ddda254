use session_log::codec::Record;
use session_log::error::Error;
use session_log::facade::QueryFacade;
use session_log::store::SessionStore;

fn fix(t: u64) -> Record {
    Record {
        timestamp: t,
        latitude_bits: 48.5f64.to_bits(),
        longitude_bits: 9.0f64.to_bits(),
        aux: None,
    }
}

#[test]
fn facade_answers_as_the_store_does() {
    let mut store = SessionStore::open_or_create(Vec::new()).unwrap();
    store.start_session(5).unwrap();
    store.append(&fix(1)).unwrap();
    store.stop_session().unwrap();
    store.start_session(6).unwrap();
    store.append(&fix(2)).unwrap();
    store.append(&fix(3)).unwrap();
    let facade = QueryFacade::new(&store);
    assert_eq!(facade.list_sessions(), vec![5, 6]);
    assert_eq!(facade.get_session(5), Ok(vec![fix(1)]));
    assert_eq!(facade.get_session(6), Ok(vec![fix(2), fix(3)]));
    assert_eq!(facade.get_session(7), Err(Error::NotFound));
    assert_eq!(facade.get_last(), Some(fix(3)));
}

#[test]
fn facade_on_an_empty_store() {
    let store = SessionStore::open_or_create(Vec::new()).unwrap();
    let facade = QueryFacade::new(&store);
    assert_eq!(facade.list_sessions(), Vec::<u64>::new());
    assert_eq!(facade.get_last(), None);
    assert_eq!(facade.get_session(0), Err(Error::NotFound));
}

#[test]
fn reader_sees_whole_records_before_and_after_an_append() {
    let mut store = SessionStore::open_or_create(Vec::new()).unwrap();
    store.start_session(1).unwrap();
    for n in 0..10u64 {
        let before = QueryFacade::new(&store).get_session(1).unwrap();
        assert_eq!(before.len() as u64, n);
        store.append(&fix(n)).unwrap();
        let after = QueryFacade::new(&store).get_session(1).unwrap();
        assert_eq!(after.len() as u64, n + 1);
        assert_eq!(after[..n as usize], before[..]);
        assert_eq!(after[n as usize], fix(n));
    }
}
