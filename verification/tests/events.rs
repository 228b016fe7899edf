use repx::events::{
    decode_event, encode_event, Event, EventKind, EventPayload, FileCloseEvent, FileMmapEvent,
    FileOpenEvent, FilePathEvent, ProcessExecEvent, ProcessExitEvent, ProcessForkEvent,
    RecordError, MAX_PATH_LEN, MAX_PREFIX_LEN, MAX_WATCH_PREFIXES, RECORD_LEN,
};
use repx::tp_offsets::{MAX_OFFSET_KEY, OPENAT_ENTER_DFD, UNLINKAT_EXIT_RET};

fn path(text: &str) -> [u8; 256] {
    let mut bytes = [0u8; 256];
    bytes[..text.len()].copy_from_slice(text.as_bytes());
    bytes
}

#[test]
fn event_size_stays_small_enough_for_bursty_builds() {
    assert!(core::mem::size_of::<Event>() <= 320);
}

#[test]
fn unknown_event_kinds_are_rejected() {
    assert_eq!(EventKind::try_from(3), Ok(EventKind::ProcessExec));
    assert_eq!(EventKind::try_from(9), Ok(EventKind::ProcessFork));
    assert!(EventKind::try_from(u32::MAX).is_err());
}

#[test]
fn every_kind_has_its_own_number() {
    for number in 1..=9u32 {
        assert_eq!(EventKind::try_from(number).map(|kind| kind.code()), Ok(number));
    }
    assert!(EventKind::try_from(0).is_err());
    assert!(EventKind::try_from(10).is_err());
}

#[test]
fn limits_are_those_of_the_probes() {
    assert_eq!(MAX_PATH_LEN, 256);
    assert_eq!(MAX_WATCH_PREFIXES, 8);
    assert_eq!(MAX_PREFIX_LEN, 128);
    assert_eq!(RECORD_LEN, 304);
    assert_eq!(OPENAT_ENTER_DFD, 0);
    assert_eq!(UNLINKAT_EXIT_RET + 1, MAX_OFFSET_KEY);
}

#[test]
fn open_records_are_read_field_by_field() {
    let mut record = vec![0u8; RECORD_LEN];
    record[0] = 1;
    record[4] = 1;
    record[8..16].copy_from_slice(&0x0102030405060708u64.to_le_bytes());
    record[16..20].copy_from_slice(&11u32.to_le_bytes());
    record[20..24].copy_from_slice(&10u32.to_le_bytes());
    record[24..28].copy_from_slice(&3i32.to_le_bytes());
    record[28..32].copy_from_slice(&(-100i32).to_le_bytes());
    record[32..36].copy_from_slice(&0x241u32.to_le_bytes());
    record[36..44].copy_from_slice(b"/tmp/out");
    record[292..296].copy_from_slice(&8u32.to_le_bytes());
    let event = decode_event(&record).unwrap();
    assert_eq!(event.source, 1);
    assert_eq!(event.timestamp_ns, 0x0102030405060708);
    match event.payload {
        EventPayload::FileOpen(open) => {
            assert_eq!((open.pid, open.tgid, open.fd), (11, 10, 3));
            assert_eq!((open.dfd, open.flags, open.path_len), (-100, 0x241, 8));
            assert_eq!(&open.path[..9], b"/tmp/out\0");
        }
        _ => panic!("not an open"),
    }
}

#[test]
fn records_that_hold_no_event_are_rejected() {
    assert_eq!(decode_event(&[]).err(), Some(RecordError::Short));
    assert_eq!(decode_event(&vec![1u8; RECORD_LEN - 1]).err(), Some(RecordError::Short));
    let mut record = vec![0u8; RECORD_LEN];
    assert_eq!(decode_event(&record).err(), Some(RecordError::UnknownKind(0)));
    record[0] = 10;
    record[3] = 1;
    assert_eq!(decode_event(&record).err(), Some(RecordError::UnknownKind(0x0100_000a)));
}

#[test]
fn records_give_back_what_was_written() {
    let half = FilePathEvent {
        pid: 1,
        tgid: 2,
        dfd: -100,
        flags: 4,
        operation_id: u64::MAX - 1,
        path: path("a"),
        path_len: 1,
    };
    let payloads = vec![
        EventPayload::FileOpen(FileOpenEvent {
            pid: 1,
            tgid: 2,
            fd: -3,
            dfd: 4,
            flags: 5,
            path: path("/a"),
            path_len: 2,
        }),
        EventPayload::FileClose(FileCloseEvent { pid: 1, tgid: 2, fd: i32::MIN }),
        EventPayload::FileMmap(FileMmapEvent { pid: 1, tgid: 2, fd: 3, prot: 4, flags: u32::MAX }),
        EventPayload::FileRenameSource(half),
        EventPayload::FileRenameDestination(half),
        EventPayload::FileUnlink(half),
        EventPayload::ProcessExec(ProcessExecEvent {
            pid: 1,
            tgid: 2,
            filename: path("/bin/sh"),
            filename_len: 7,
        }),
        EventPayload::ProcessExit(ProcessExitEvent { pid: 1, tgid: 2, exit_code: -7 }),
        EventPayload::ProcessFork(ProcessForkEvent { parent_pid: 1, child_pid: 2 }),
    ];
    for payload in payloads {
        let record = encode_event(&Event { source: 1, timestamp_ns: 77, payload });
        assert_eq!(record.len(), RECORD_LEN);
        let event = decode_event(&record).unwrap();
        assert_eq!(encode_event(&event), record);
        assert_eq!((event.source, event.timestamp_ns), (1, 77));
    }
}

#[test]
fn the_halves_of_a_rename_have_distinct_records() {
    let half = FilePathEvent {
        pid: 1,
        tgid: 2,
        dfd: 3,
        flags: 4,
        operation_id: 5,
        path: path("/x"),
        path_len: 2,
    };
    let source = Event { source: 0, timestamp_ns: 0, payload: EventPayload::FileRenameSource(half) };
    let destination =
        Event { source: 0, timestamp_ns: 0, payload: EventPayload::FileRenameDestination(half) };
    assert_ne!(encode_event(&source), encode_event(&destination));
    match decode_event(&encode_event(&source)).unwrap().payload {
        EventPayload::FileRenameSource(read) => {
            assert_eq!((read.pid, read.tgid, read.dfd, read.flags), (1, 2, 3, 4));
            assert_eq!((read.operation_id, read.path_len), (5, 2));
            assert_eq!(&read.path[..3], b"/x\0");
        }
        _ => panic!("not the source of a rename"),
    }
}
