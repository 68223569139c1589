use ashmem::device::{
    purge_all_caches, AshmemError, AshmemObject, PinCommand, PinStatus, PinUnpinOutcome,
    Settings, WasPurged, PROT_EXEC, PROT_MASK, PROT_READ, PROT_WRITE,
};
use ashmem::pages::PAGE_SIZE;
use ashmem::task::{Kuid, Task, CAP_SYS_ADMIN, READ_IMPLIES_EXEC};
use ashmem::tracker::Tracker;

fn plain_task() -> Task {
    Task { personality: 0, capabilities: 0, pid: 1, euid: Kuid::from_raw(1000) }
}

fn admin_task() -> Task {
    Task { personality: 0, capabilities: 1u64 << (CAP_SYS_ADMIN as u64), pid: 1, euid: Kuid::from_raw(0) }
}

fn backed_object(t: &mut Tracker, pages: usize) -> AshmemObject {
    let obj = t.open_object();
    let mut o = AshmemObject::new(obj);
    o.set_size(pages * PAGE_SIZE).unwrap();
    o.set_backing();
    o
}

#[test]
fn pin_unpin_requires_backing() {
    let mut t = Tracker::new();
    let obj = t.open_object();
    let o = AshmemObject::new(obj);
    let r = o.pin_unpin(&mut t, PinCommand::Unpin, 0, PAGE_SIZE);
    assert_eq!(r, Err(AshmemError::InvalidArgument));
}

#[test]
fn pin_unpin_rejects_unaligned_requests() {
    let mut t = Tracker::new();
    let o = backed_object(&mut t, 16);
    let r = o.pin_unpin(&mut t, PinCommand::Unpin, 1, PAGE_SIZE);
    assert_eq!(r, Err(AshmemError::InvalidArgument));
    let r = o.pin_unpin(&mut t, PinCommand::Unpin, 0, PAGE_SIZE + 7);
    assert_eq!(r, Err(AshmemError::InvalidArgument));
    // out of the object's aligned size
    let r = o.pin_unpin(&mut t, PinCommand::Unpin, 16 * PAGE_SIZE, PAGE_SIZE);
    assert_eq!(r, Err(AshmemError::InvalidArgument));
    // the object is untouched by refused requests
    assert_eq!(t.lru_count(), 0);
}

#[test]
fn pin_unpin_zero_length_means_onward() {
    let mut t = Tracker::new();
    let o = backed_object(&mut t, 16);
    // unpin everything from page 4 onward
    let r = o.pin_unpin(&mut t, PinCommand::Unpin, 4 * PAGE_SIZE, 0);
    assert_eq!(r, Ok(PinUnpinOutcome::Unpinned));
    assert_eq!(t.lru_count(), 12);
    let r = o.pin_unpin(&mut t, PinCommand::GetPinStatus, 4 * PAGE_SIZE, 12 * PAGE_SIZE);
    assert_eq!(r, Ok(PinUnpinOutcome::Status(PinStatus::Unpinned)));
    let r = o.pin_unpin(&mut t, PinCommand::GetPinStatus, 0, 4 * PAGE_SIZE);
    assert_eq!(r, Ok(PinUnpinOutcome::Status(PinStatus::Pinned)));
    // a zero length at the aligned end has no pages: refused
    let r = o.pin_unpin(&mut t, PinCommand::Unpin, 16 * PAGE_SIZE, 0);
    assert_eq!(r, Err(AshmemError::InvalidArgument));
}

#[test]
fn pin_unpin_round_trip_through_the_surface() {
    let mut t = Tracker::new();
    let o = backed_object(&mut t, 16);
    o.pin_unpin(&mut t, PinCommand::Unpin, 0, 16 * PAGE_SIZE).unwrap();
    let r = o.pin_unpin(&mut t, PinCommand::Pin, 4 * PAGE_SIZE, 4 * PAGE_SIZE);
    assert_eq!(r, Ok(PinUnpinOutcome::Pinned(WasPurged::No)));
    assert_eq!(t.lru_count(), 12);
    let r = o.pin_unpin(&mut t, PinCommand::GetPinStatus, 4 * PAGE_SIZE, 4 * PAGE_SIZE);
    assert_eq!(r, Ok(PinUnpinOutcome::Status(PinStatus::Pinned)));
}

#[test]
fn purge_all_needs_the_capability() {
    let mut t = Tracker::new();
    let o = backed_object(&mut t, 16);
    o.pin_unpin(&mut t, PinCommand::Unpin, 0, 0).unwrap();
    assert_eq!(t.lru_count(), 16);

    let (r, discards) = purge_all_caches(&mut t, &plain_task());
    assert_eq!(r, Err(AshmemError::PermissionDenied));
    assert_eq!(discards.len(), 0);
    assert_eq!(t.lru_count(), 16);
}

#[test]
fn purge_all_reports_the_backlog_and_drains_it() {
    let mut t = Tracker::new();
    let obj = t.open_object();
    t.unpin(obj, 0, 999);
    assert_eq!(t.lru_count(), 1000);

    let (r, discards) = purge_all_caches(&mut t, &admin_task());
    assert_eq!(r, Ok(1000));
    assert_eq!(discards.len(), 1);
    assert_eq!(discards[0].byte_len, 1000 * PAGE_SIZE);
    assert_eq!(t.lru_count(), 0);

    // repeated calls converge to an empty backlog
    let (r, discards) = purge_all_caches(&mut t, &admin_task());
    assert_eq!(r, Ok(0));
    assert_eq!(discards.len(), 0);
    // the purged pages still answer unpinned
    assert!(t.range_has_unpinned_page(obj, 0, 999));
}

#[test]
fn set_size_only_before_backing() {
    let mut o = AshmemObject::new(0);
    assert_eq!(o.set_size(3 * PAGE_SIZE), Ok(()));
    assert_eq!(o.get_size(), 3 * PAGE_SIZE);
    o.set_backing();
    assert_eq!(o.set_size(PAGE_SIZE), Err(AshmemError::InvalidArgument));
    assert_eq!(o.get_size(), 3 * PAGE_SIZE);
}

#[test]
fn set_size_rejects_unalignable_sizes() {
    let mut o = AshmemObject::new(0);
    assert_eq!(o.set_size(usize::MAX), Err(AshmemError::InvalidArgument));
    assert_eq!(o.get_size(), 0);
}

#[test]
fn prot_mask_can_only_drop_bits() {
    let mut o = AshmemObject::new(0);
    let s = Settings { ignore_unset_prot_read: false, ignore_unset_prot_exec: false };
    assert_eq!(o.get_prot_mask(), PROT_MASK);
    assert_eq!(o.set_prot_mask(PROT_READ | PROT_WRITE, &plain_task(), &s), Ok(()));
    assert_eq!(o.get_prot_mask(), PROT_READ | PROT_WRITE);
    // adding exec back is refused
    assert_eq!(
        o.set_prot_mask(PROT_READ | PROT_EXEC, &plain_task(), &s),
        Err(AshmemError::InvalidArgument)
    );
    assert_eq!(o.get_prot_mask(), PROT_READ | PROT_WRITE);
}

#[test]
fn prot_mask_read_implies_exec_personality() {
    let mut o = AshmemObject::new(0);
    let s = Settings { ignore_unset_prot_read: false, ignore_unset_prot_exec: false };
    let legacy = Task {
        personality: READ_IMPLIES_EXEC,
        capabilities: 0,
        pid: 1,
        euid: Kuid::from_raw(1000),
    };
    // asking for read keeps exec set under this personality
    assert_eq!(o.set_prot_mask(PROT_READ, &legacy, &s), Ok(()));
    assert_eq!(o.get_prot_mask(), PROT_READ | PROT_EXEC);
}

#[test]
fn prot_mask_ignore_knobs_keep_bits() {
    let mut o = AshmemObject::new(0);
    let s = Settings { ignore_unset_prot_read: true, ignore_unset_prot_exec: true };
    // an attempt to drop read and exec is overridden by the knobs
    assert_eq!(o.set_prot_mask(PROT_WRITE, &plain_task(), &s), Ok(()));
    assert_eq!(o.get_prot_mask(), PROT_MASK);
}

#[test]
fn names_round_trip() {
    let mut o = AshmemObject::new(0);
    // an unnamed object answers with the default name
    assert_eq!(o.get_name(), b"dev/ashmem\0".to_vec());
    assert_eq!(o.full_name(), b"dev/ashmem\0".to_vec());

    let mut buf = vec![0u8; 256];
    buf[..5].copy_from_slice(b"hello");
    assert_eq!(o.set_name(&buf), Ok(()));
    assert_eq!(o.get_name(), b"hello\0".to_vec());
    assert_eq!(o.full_name(), b"dev/ashmem/hello\0".to_vec());
}

#[test]
fn set_name_truncates_unterminated_buffers() {
    let mut o = AshmemObject::new(0);
    let buf = vec![97u8; 256];
    assert_eq!(o.set_name(&buf), Ok(()));
    let name = o.get_name();
    // 255 bytes of name, then the terminator
    assert_eq!(name.len(), 256);
    assert!(name[..255].iter().all(|&c| c == 97));
    assert_eq!(name[255], 0);
}

#[test]
fn set_name_refused_after_backing() {
    let mut o = AshmemObject::new(0);
    o.set_backing();
    let buf = vec![0u8; 256];
    assert_eq!(o.set_name(&buf), Err(AshmemError::InvalidArgument));
}

#[test]
fn mmap_prepare_checks_the_size() {
    let mut o = AshmemObject::new(0);
    assert_eq!(o.mmap_prepare(PAGE_SIZE, false), Err(AshmemError::InvalidArgument));
    o.set_size(PAGE_SIZE + 1).unwrap();
    // a mapping may take up to the aligned size
    assert!(o.mmap_prepare(2 * PAGE_SIZE, false).is_ok());
    assert_eq!(o.mmap_prepare(2 * PAGE_SIZE + 1, false), Err(AshmemError::InvalidArgument));
    let plan = o.mmap_prepare(PAGE_SIZE, true).unwrap();
    assert!(plan.needs_backing_file);
    assert!(plan.use_zero_setup);
    assert!(!plan.clear_mayread && !plan.clear_maywrite && !plan.clear_mayexec);
}

#[test]
fn io_check_orders_its_errors() {
    let mut o = AshmemObject::new(0);
    assert_eq!(o.io_check(), Err(AshmemError::InvalidArgument));
    o.set_size(PAGE_SIZE).unwrap();
    assert_eq!(o.io_check(), Err(AshmemError::BadFileDescriptor));
    o.set_backing();
    assert_eq!(o.io_check(), Ok(()));
}
