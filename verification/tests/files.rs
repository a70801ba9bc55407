use kernel_sched::fs::{
    open_action, sys_close, sys_open, FdTable, OpenAction, OpenFile, OpenFlags, ALL, CREATE,
    RDONLY, RDWR, TRUNC, WRONLY,
};

fn flags(bits: u32) -> OpenFlags {
    OpenFlags::from_bits(bits).unwrap()
}

#[test]
fn flag_values() {
    assert_eq!(RDONLY, 0);
    assert_eq!(WRONLY, 1);
    assert_eq!(RDWR, 2);
    assert_eq!(CREATE, 512);
    assert_eq!(TRUNC, 1024);
    assert_eq!(ALL, 1539);
}

#[test]
fn from_bits_refuses_unknown_bits() {
    assert!(OpenFlags::from_bits(0).is_some());
    assert_eq!(OpenFlags::from_bits(CREATE | WRONLY).unwrap().bits(), 513);
    assert!(OpenFlags::from_bits(ALL).is_some());
    assert!(OpenFlags::from_bits(4).is_none());
    assert!(OpenFlags::from_bits(ALL | 2048).is_none());
    assert!(OpenFlags::from_bits(u32::MAX).is_none());
}

#[test]
fn read_write_follows_the_access_flags() {
    assert_eq!(flags(RDONLY).read_write(), (true, false));
    assert_eq!(flags(WRONLY).read_write(), (false, true));
    assert_eq!(flags(RDWR).read_write(), (true, true));
    assert_eq!(flags(CREATE).read_write(), (true, true));
    assert_eq!(flags(TRUNC).read_write(), (true, true));
    assert_eq!(flags(CREATE | WRONLY).read_write(), (false, true));
    assert_eq!(flags(RDWR | WRONLY).read_write(), (false, true));
}

#[test]
fn contains_and_is_empty() {
    assert!(flags(0).is_empty());
    assert!(!flags(RDWR).is_empty());
    assert!(flags(CREATE | WRONLY).contains(flags(CREATE)));
    assert!(flags(CREATE | WRONLY).contains(flags(WRONLY)));
    assert!(!flags(CREATE).contains(flags(CREATE | WRONLY)));
    assert!(flags(TRUNC).contains(flags(RDONLY)));
    assert!(flags(0).contains(flags(0)));
}

#[test]
fn open_action_by_flags_and_existence() {
    assert_eq!(open_action(flags(CREATE), true), OpenAction::Clear);
    assert_eq!(open_action(flags(CREATE), false), OpenAction::Create);
    assert_eq!(open_action(flags(CREATE | TRUNC | WRONLY), false), OpenAction::Create);
    assert_eq!(open_action(flags(RDONLY), false), OpenAction::Fail);
    assert_eq!(open_action(flags(TRUNC), false), OpenAction::Fail);
    assert_eq!(open_action(flags(RDONLY), true), OpenAction::Open);
    assert_eq!(open_action(flags(RDWR), true), OpenAction::Open);
    assert_eq!(open_action(flags(TRUNC | WRONLY), true), OpenAction::Clear);
}

#[test]
fn open_takes_the_lowest_free_descriptor() {
    let mut table = FdTable::new();
    assert_eq!(sys_open(&mut table, flags(RDONLY), None), -1);
    assert_eq!(table.get(0), None);
    assert_eq!(sys_open(&mut table, flags(RDONLY), Some(10)), 0);
    assert_eq!(sys_open(&mut table, flags(WRONLY), Some(11)), 1);
    assert_eq!(sys_open(&mut table, flags(RDWR | CREATE), Some(12)), 2);
    assert_eq!(table.get(0), Some(OpenFile { readable: true, writable: false, inode_id: 10 }));
    assert_eq!(table.get(1), Some(OpenFile { readable: false, writable: true, inode_id: 11 }));
    assert_eq!(table.get(2), Some(OpenFile { readable: true, writable: true, inode_id: 12 }));
    assert_eq!(table.get(3), None);
    assert_eq!(sys_close(&mut table, 1), 0);
    assert_eq!(table.get(1), None);
    assert_eq!(sys_open(&mut table, flags(RDONLY), None), -1);
    assert_eq!(sys_open(&mut table, flags(RDONLY), Some(13)), 1);
    assert_eq!(sys_open(&mut table, flags(RDONLY), Some(14)), 3);
}

#[test]
fn close_refuses_what_is_not_open() {
    let mut table = FdTable::new();
    assert_eq!(sys_close(&mut table, 0), -1);
    assert_eq!(sys_open(&mut table, flags(RDONLY), Some(1)), 0);
    assert_eq!(sys_close(&mut table, 1), -1);
    assert_eq!(sys_close(&mut table, usize::MAX), -1);
    assert_eq!(sys_close(&mut table, 0), 0);
    assert_eq!(sys_close(&mut table, 0), -1);
}

#[test]
fn files_are_found_by_the_access_they_allow() {
    let mut table = FdTable::new();
    sys_open(&mut table, flags(RDONLY), Some(1));
    sys_open(&mut table, flags(WRONLY), Some(2));
    sys_open(&mut table, flags(RDWR), Some(3));
    assert_eq!(table.readable_file(0).map(|f| f.inode_id), Some(1));
    assert_eq!(table.writable_file(0), None);
    assert_eq!(table.readable_file(1), None);
    assert_eq!(table.writable_file(1).map(|f| f.inode_id), Some(2));
    assert_eq!(table.readable_file(2).map(|f| f.inode_id), Some(3));
    assert_eq!(table.writable_file(2).map(|f| f.inode_id), Some(3));
    assert_eq!(table.readable_file(3), None);
    assert_eq!(table.writable_file(3), None);
}
