use ashmem::device::AshmemError;
use ashmem::iov::{kstrtobool, toggle_read, toggle_write, IovIter, Kiocb};
use ashmem::shrinker::{
    count_objects, scan_objects, CountObjects, ReclaimToggle, ScanObjects, MAX_COUNT,
    MAX_SCANNED, SHRINK_EMPTY, SHRINK_STOP,
};
use ashmem::task::Kuid;
use ashmem::tracker::Tracker;

#[test]
fn kstrtobool_accepts_the_boolean_words() {
    for s in [b"1".to_vec(), b"y".to_vec(), b"Y".to_vec(), b"yes".to_vec(), b"on".to_vec()] {
        assert_eq!(kstrtobool(&s), Ok(true), "{:?}", s);
    }
    for s in [b"0".to_vec(), b"n".to_vec(), b"N".to_vec(), b"no".to_vec(), b"off".to_vec()] {
        assert_eq!(kstrtobool(&s), Ok(false), "{:?}", s);
    }
    for s in [b"".to_vec(), b"true".to_vec(), b"ox".to_vec(), b"o".to_vec(), b"2".to_vec()] {
        assert_eq!(kstrtobool(&s), Err(AshmemError::InvalidArgument), "{:?}", s);
    }
}

#[test]
fn toggle_read_shows_the_state_once() {
    let mut kiocb = Kiocb::new(0);
    let mut iov = IovIter::new(Vec::new(), 16);
    assert_eq!(toggle_read(true, &mut kiocb, &mut iov), Ok(2));
    assert_eq!(iov.as_raw().as_slice(), b"1\n");
    assert_eq!(kiocb.ki_pos(), 2);
    // a later read is end of file
    assert_eq!(toggle_read(true, &mut kiocb, &mut iov), Ok(0));
    assert_eq!(iov.as_raw().as_slice(), b"1\n");

    let mut kiocb = Kiocb::new(0);
    let mut iov = IovIter::new(Vec::new(), 16);
    assert_eq!(toggle_read(false, &mut kiocb, &mut iov), Ok(2));
    assert_eq!(iov.as_raw().as_slice(), b"0\n");
}

#[test]
fn toggle_read_needs_two_bytes_of_room() {
    let mut kiocb = Kiocb::new(0);
    let mut iov = IovIter::new(Vec::new(), 1);
    assert_eq!(toggle_read(true, &mut kiocb, &mut iov), Err(AshmemError::BadAddress));
    assert_eq!(kiocb.ki_pos(), 0);
    assert!(iov.as_raw().is_empty());
}

#[test]
fn toggle_write_parses_and_consumes() {
    let mut iov = IovIter::new(b"0\n".to_vec(), 0);
    assert_eq!(toggle_write(&mut iov), Ok((false, 2)));

    let mut iov = IovIter::new(b"on".to_vec(), 0);
    assert_eq!(toggle_write(&mut iov), Ok((true, 2)));

    let mut iov = IovIter::new(b"garbage".to_vec(), 0);
    assert_eq!(toggle_write(&mut iov), Err(AshmemError::InvalidArgument));

    // only the first fifteen bytes are looked at
    let mut iov = IovIter::new(vec![121u8; 40], 0);
    assert_eq!(toggle_write(&mut iov), Ok((true, 15)));
    assert_eq!(iov.pos, 15);
}

#[test]
fn reclaim_toggle_flips() {
    let mut knob = ReclaimToggle::new();
    assert!(knob.get_reclaim_enabled());
    knob.set_reclaim_enabled(false);
    assert!(!knob.get_reclaim_enabled());
    knob.set_reclaim_enabled(true);
    assert!(knob.get_reclaim_enabled());
}

#[test]
fn count_protocol_uses_its_sentinels() {
    let mut t = Tracker::new();
    assert_eq!(count_objects(&t).value(), SHRINK_EMPTY);
    let obj = t.open_object();
    t.unpin(obj, 0, 41);
    assert_eq!(count_objects(&t).value(), 42);
}

#[test]
fn count_and_scan_words_clamp() {
    assert_eq!(CountObjects::new(7).value(), 7);
    assert_eq!(CountObjects::new(usize::MAX).value(), MAX_COUNT);
    assert_eq!(CountObjects::empty().value(), SHRINK_EMPTY);
    assert_eq!(ScanObjects::from_count(7).value(), 7);
    assert_eq!(ScanObjects::from_count(usize::MAX).value(), MAX_SCANNED);
    assert_eq!(ScanObjects::stop().value(), SHRINK_STOP);
}

#[test]
fn scan_stops_without_filesystem_leave() {
    let mut t = Tracker::new();
    let obj = t.open_object();
    t.unpin(obj, 0, 9);
    let (word, discards) = scan_objects(&mut t, 10, false, false);
    assert_eq!(word.value(), SHRINK_STOP);
    assert!(discards.is_empty());
    assert_eq!(t.lru_count(), 10);
}

#[test]
fn scan_frees_and_reports() {
    let mut t = Tracker::new();
    let obj = t.open_object();
    t.unpin(obj, 0, 9);
    let (word, discards) = scan_objects(&mut t, 10, true, false);
    assert_eq!(word.value(), 10);
    assert_eq!(discards.len(), 1);
    assert_eq!(discards[0].obj, obj);
    assert_eq!(discards[0].byte_start, 0);
    assert_eq!(discards[0].byte_len, 10 * 4096);
    assert_eq!(t.lru_count(), 0);
}

#[test]
fn kuid_round_trips() {
    let id = Kuid::from_raw(4321);
    assert_eq!(id.into_raw(), 4321);
}
