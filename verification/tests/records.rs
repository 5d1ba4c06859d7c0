use procwatch::inotify_api::{
    encode_record, inotify_event, read_le_u32, write_le_u32, EventDecoder, Mask, EVENT_HEADER_LEN,
    IN_ALL_EVENTS, IN_CLOEXEC, IN_KNOWN_BITS, IN_NONBLOCK, IN_OPEN_FLAGS,
};

fn buffer_of(bytes: &[u8]) -> [u8; 1024] {
    let mut buf = [0u8; 1024];
    buf[..bytes.len()].copy_from_slice(bytes);
    buf
}

#[test]
fn constants_have_the_kernel_values() {
    assert_eq!(IN_CLOEXEC, 0o2000000);
    assert_eq!(IN_NONBLOCK, 0o4000);
    assert_eq!(IN_ALL_EVENTS, 0xfff);
    assert_eq!(IN_OPEN_FLAGS, 0o2004000);
    assert_eq!(IN_KNOWN_BITS, 0xfff | 0x4000 | 0x8000 | 0x4000_0000);
    assert_eq!(EVENT_HEADER_LEN, 16);
}

#[test]
fn mask_new_reports_each_single_kind_by_itself() {
    assert_eq!(Mask::new(0x1), Some(vec![Mask::IN_ACCESS]));
    assert_eq!(Mask::new(0x2), Some(vec![Mask::IN_MODIFY]));
    assert_eq!(Mask::new(0x4), Some(vec![Mask::IN_ATTRIB]));
    assert_eq!(Mask::new(0x8), Some(vec![Mask::IN_CLOSE_WRITE]));
    assert_eq!(Mask::new(0x10), Some(vec![Mask::IN_CLOSE_NOWRITE]));
    assert_eq!(Mask::new(0x20), Some(vec![Mask::IN_OPEN]));
    assert_eq!(Mask::new(0x40), Some(vec![Mask::IN_MOVED_FROM]));
    assert_eq!(Mask::new(0x80), Some(vec![Mask::IN_MOVED_TO]));
    assert_eq!(Mask::new(0x100), Some(vec![Mask::IN_CREATE]));
    assert_eq!(Mask::new(0x200), Some(vec![Mask::IN_DELETE]));
    assert_eq!(Mask::new(0x400), Some(vec![Mask::IN_DELETE_SELF]));
    assert_eq!(Mask::new(0x800), Some(vec![Mask::IN_MOVE_SELF]));
    assert_eq!(Mask::new(0x4000), Some(vec![Mask::IN_Q_OVERFLOW]));
    assert_eq!(Mask::new(0x8000), Some(vec![Mask::IN_IGNORED]));
    assert_eq!(Mask::new(0x4000_0000), Some(vec![Mask::IN_ISDIR]));
}

#[test]
fn mask_new_reports_the_parts_of_a_union() {
    assert_eq!(
        Mask::new(0x8 | 0x10),
        Some(vec![Mask::IN_CLOSE_WRITE, Mask::IN_CLOSE_NOWRITE])
    );
    assert_eq!(Mask::new(0x40 | 0x80), Some(vec![Mask::IN_MOVED_FROM, Mask::IN_MOVED_TO]));
}

#[test]
fn mask_new_reports_every_kind_of_a_mask_of_several() {
    // What arrives when a subdirectory is created.
    assert_eq!(Mask::new(0x4000_0100), Some(vec![Mask::IN_CREATE, Mask::IN_ISDIR]));
    assert_eq!(Mask::new(0x3), Some(vec![Mask::IN_ACCESS, Mask::IN_MODIFY]));
    assert_eq!(Mask::new(0x4000_0200), Some(vec![Mask::IN_DELETE, Mask::IN_ISDIR]));
    assert_eq!(
        Mask::new(0xfff),
        Some(vec![
            Mask::IN_ACCESS,
            Mask::IN_MODIFY,
            Mask::IN_ATTRIB,
            Mask::IN_CLOSE_WRITE,
            Mask::IN_CLOSE_NOWRITE,
            Mask::IN_OPEN,
            Mask::IN_MOVED_FROM,
            Mask::IN_MOVED_TO,
            Mask::IN_CREATE,
            Mask::IN_DELETE,
            Mask::IN_DELETE_SELF,
            Mask::IN_MOVE_SELF,
        ])
    );
}

#[test]
fn mask_new_of_no_bits_reports_no_kind() {
    assert_eq!(Mask::new(0), Some(vec![]));
}

#[test]
fn mask_new_reports_undefined_exactly_for_bits_without_a_name() {
    assert_eq!(Mask::new(0x1000), Some(vec![Mask::Undefined]));
    assert_eq!(Mask::new(0x2000), Some(vec![Mask::Undefined]));
    assert_eq!(Mask::new(0x8000_0000), Some(vec![Mask::Undefined]));
    assert_eq!(Mask::new(0x1000 | 0x2), Some(vec![Mask::IN_MODIFY, Mask::Undefined]));
    assert_eq!(Mask::new(!0x4000_cfff), Some(vec![Mask::Undefined]));
    let every = Mask::new(u32::MAX).unwrap();
    assert_eq!(every.len(), 16);
    assert_eq!(every.last(), Some(&Mask::Undefined));
    let known = Mask::new(0x4000_cfff).unwrap();
    assert_eq!(known.len(), 15);
    assert!(!known.contains(&Mask::Undefined));
}

#[test]
fn mask_new_reports_a_kind_exactly_if_its_bit_is_set() {
    let kinds = [
        Mask::IN_ACCESS,
        Mask::IN_MODIFY,
        Mask::IN_ATTRIB,
        Mask::IN_CLOSE_WRITE,
        Mask::IN_CLOSE_NOWRITE,
        Mask::IN_OPEN,
        Mask::IN_MOVED_FROM,
        Mask::IN_MOVED_TO,
        Mask::IN_CREATE,
        Mask::IN_DELETE,
        Mask::IN_DELETE_SELF,
        Mask::IN_MOVE_SELF,
        Mask::IN_Q_OVERFLOW,
        Mask::IN_IGNORED,
        Mask::IN_ISDIR,
    ];
    for mask in [0u32, 0x3, 0x18, 0x4000_0100, 0x1234_5678, 0xdead_beef, 0x8000_0001, u32::MAX] {
        let reported = Mask::new(mask).unwrap();
        for kind in kinds {
            assert_eq!(reported.contains(&kind), mask & kind.bits() != 0);
        }
        assert_eq!(reported.contains(&Mask::Undefined), mask & !0x4000_cfff != 0);
        assert!(!reported.contains(&Mask::IN_CLOSE));
        assert!(!reported.contains(&Mask::IN_MOVE));
    }
}

#[test]
fn mask_bits_are_the_kernel_values() {
    assert_eq!(Mask::IN_ACCESS.bits(), 0x1);
    assert_eq!(Mask::IN_MODIFY.bits(), 0x2);
    assert_eq!(Mask::IN_ATTRIB.bits(), 0x4);
    assert_eq!(Mask::IN_CLOSE_WRITE.bits(), 0x8);
    assert_eq!(Mask::IN_CLOSE_NOWRITE.bits(), 0x10);
    assert_eq!(Mask::IN_OPEN.bits(), 0x20);
    assert_eq!(Mask::IN_MOVED_FROM.bits(), 0x40);
    assert_eq!(Mask::IN_MOVED_TO.bits(), 0x80);
    assert_eq!(Mask::IN_CREATE.bits(), 0x100);
    assert_eq!(Mask::IN_DELETE.bits(), 0x200);
    assert_eq!(Mask::IN_DELETE_SELF.bits(), 0x400);
    assert_eq!(Mask::IN_MOVE_SELF.bits(), 0x800);
    assert_eq!(Mask::IN_Q_OVERFLOW.bits(), 0x4000);
    assert_eq!(Mask::IN_IGNORED.bits(), 0x8000);
    assert_eq!(Mask::IN_ISDIR.bits(), 0x4000_0000);
    assert_eq!(Mask::Undefined.bits(), 0);
    assert_eq!(Mask::IN_CLOSE.bits(), Mask::IN_CLOSE_WRITE.bits() | Mask::IN_CLOSE_NOWRITE.bits());
    assert_eq!(Mask::IN_MOVE.bits(), Mask::IN_MOVED_FROM.bits() | Mask::IN_MOVED_TO.bits());
}

#[test]
fn mask_is_set_treats_a_union_as_either_part() {
    assert!(Mask::IN_CLOSE.is_set(0x8));
    assert!(Mask::IN_CLOSE.is_set(0x10));
    assert!(!Mask::IN_CLOSE.is_set(0x20));
    assert!(Mask::IN_MOVE.is_set(0x80));
    assert!(!Mask::IN_MOVE.is_set(0x100));
    assert!(Mask::Undefined.is_set(0x2000));
    assert!(!Mask::Undefined.is_set(0x4000_cfff));
    assert!(!Mask::IN_CREATE.is_set(0));
}

#[test]
fn le_u32_reads_least_significant_byte_first() {
    assert_eq!(read_le_u32(&[0x78, 0x56, 0x34, 0x12], 0), 0x1234_5678);
    assert_eq!(read_le_u32(&[9, 0xff, 0xff, 0xff, 0xff], 1), u32::MAX);
    assert_eq!(read_le_u32(&[0, 0, 0, 0], 0), 0);
    assert_eq!(read_le_u32(&[0, 1, 0, 0], 0), 256);
}

#[test]
fn le_u32_writes_least_significant_byte_first() {
    let mut out = vec![7u8];
    write_le_u32(&mut out, 0x1234_5678);
    assert_eq!(out, vec![7, 0x78, 0x56, 0x34, 0x12]);
    let mut all = Vec::new();
    write_le_u32(&mut all, u32::MAX);
    assert_eq!(all, vec![0xff; 4]);
    for v in [0u32, 1, 255, 256, 65535, 65536, 0x00ff_ffff, 0x0100_0000, 0xdead_beef] {
        let mut bytes = Vec::new();
        write_le_u32(&mut bytes, v);
        assert_eq!(bytes, v.to_le_bytes().to_vec());
        assert_eq!(read_le_u32(&bytes, 0), v);
    }
}

#[test]
fn encode_record_lays_out_header_then_name() {
    let bytes = encode_record(7, 0x100, 0, b"foo.txt");
    assert_eq!(
        bytes,
        vec![
            7, 0, 0, 0, // watch id
            0, 1, 0, 0, // mask
            0, 0, 0, 0, // cookie
            7, 0, 0, 0, // name length
            b'f', b'o', b'o', b'.', b't', b'x', b't',
        ]
    );
    assert_eq!(
        encode_record(-1, 0x4000, 0, b""),
        vec![0xff, 0xff, 0xff, 0xff, 0, 0x40, 0, 0, 0, 0, 0, 0, 0, 0, 0, 0]
    );
    assert_eq!(&encode_record(i32::MIN, 0, 0, b"")[..4], &[0, 0, 0, 0x80]);
    assert_eq!(&encode_record(i32::MAX, 0, 0, b"")[..4], &[0xff, 0xff, 0xff, 0x7f]);
}

#[test]
fn record_round_trips() {
    let bytes = encode_record(7, Mask::IN_CREATE.bits(), 0, b"foo.txt");
    let event = inotify_event::decode_at(&bytes, 0).expect("a whole record");
    assert_eq!(event.wd, 7);
    assert_eq!(event.mask, vec![Mask::IN_CREATE]);
    assert_eq!(event.cookie, 0);
    assert_eq!(event.len, 7);
    assert_eq!(event.name, Some(b"foo.txt".to_vec()));
    assert_eq!(event.file_name(), b"foo.txt".to_vec());
    assert_eq!(event.size(), 23);
}

#[test]
fn record_round_trips_through_a_read_buffer() {
    let bytes = encode_record(7, Mask::IN_CREATE.bits(), 0, b"foo.txt");
    let buf = buffer_of(&bytes);
    let event = inotify_event::new(&buf, bytes.len()).expect("a whole record");
    assert_eq!(
        event,
        inotify_event {
            wd: 7,
            mask: vec![Mask::IN_CREATE],
            cookie: 0,
            len: 7,
            name: Some(b"foo.txt".to_vec()),
        }
    );
}

#[test]
fn new_decodes_only_the_first_record_of_the_buffer() {
    let mut bytes = encode_record(1, 0x2, 0, b"first");
    bytes.extend(encode_record(2, 0x4, 0, b"second"));
    let event = inotify_event::new(&buffer_of(&bytes), bytes.len()).unwrap();
    assert_eq!(event.wd, 1);
    assert_eq!(event.name, Some(b"first".to_vec()));
}

#[test]
fn new_refuses_a_name_that_runs_past_the_buffer() {
    let mut buf = [0u8; 1024];
    buf[12..16].copy_from_slice(&1009u32.to_le_bytes());
    assert_eq!(inotify_event::new(&buf, 1024), None);
    buf[12..16].copy_from_slice(&1008u32.to_le_bytes());
    let event = inotify_event::new(&buf, 1024).unwrap();
    assert_eq!(event.len, 1008);
    assert_eq!(event.name, Some(vec![0u8; 1008]));
    assert_eq!(inotify_event::new(&buf, 1023), None);
    buf[12..16].copy_from_slice(&u32::MAX.to_le_bytes());
    assert_eq!(inotify_event::new(&buf, 1024), None);
}

#[test]
fn new_takes_no_stale_byte_for_part_of_a_name() {
    // A read of 20 bytes: a header that declares seven name bytes, and four
    // of them. What an earlier read left behind them is not the name.
    let mut buf = [b'x'; 1024];
    let bytes = encode_record(7, Mask::IN_CREATE.bits(), 0, b"foo.txt");
    buf[..20].copy_from_slice(&bytes[..20]);
    assert_eq!(inotify_event::new(&buf, 20), None);
    for valid in 0..23 {
        assert_eq!(inotify_event::new(&buffer_of(&bytes), valid), None);
    }
    assert!(inotify_event::new(&buffer_of(&bytes), 23).is_some());
    assert!(inotify_event::new(&buffer_of(&bytes), 24).is_some());
}

#[test]
fn an_empty_name_field_gives_no_name() {
    let event = inotify_event::decode_at(&encode_record(3, 0x400, 0, b""), 0).unwrap();
    assert_eq!(event.len, 0);
    assert_eq!(event.name, None);
    assert_eq!(event.file_name(), Vec::<u8>::new());
    assert_eq!(event.size(), 16);
    assert_eq!(event.mask, vec![Mask::IN_DELETE_SELF]);
}

#[test]
fn the_name_field_is_kept_to_its_declared_length() {
    let bytes = encode_record(5, 0x100, 0, b"foo.txt\0\0\0\0\0\0\0\0\0");
    let event = inotify_event::decode_at(&bytes, 0).unwrap();
    assert_eq!(event.len, 16);
    assert_eq!(event.name, Some(b"foo.txt\0\0\0\0\0\0\0\0\0".to_vec()));
    assert_eq!(event.file_name(), b"foo.txt".to_vec());
}

#[test]
fn zero_bytes_of_a_neighbour_do_not_reach_into_a_name() {
    // The second record starts with a zero watch id: its bytes lie right
    // behind the first name and must not shorten or lengthen it.
    let mut bytes = encode_record(1, 0x100, 0, b"ab");
    bytes.extend(encode_record(0, 0x200, 0, b"cd"));
    let first = inotify_event::decode_at(&bytes, 0).unwrap();
    assert_eq!(first.name, Some(b"ab".to_vec()));
    let second = inotify_event::decode_at(&bytes, 18).unwrap();
    assert_eq!(second.wd, 0);
    assert_eq!(second.name, Some(b"cd".to_vec()));
}

#[test]
fn file_name_stops_at_the_first_zero_byte() {
    let event = inotify_event {
        wd: 1,
        mask: vec![],
        cookie: 0,
        len: 5,
        name: Some(b"a\0b\0\0".to_vec()),
    };
    assert_eq!(event.file_name(), b"a".to_vec());
    let leading = inotify_event { wd: 1, mask: vec![], cookie: 0, len: 2, name: Some(vec![0, 65]) };
    assert_eq!(leading.file_name(), Vec::<u8>::new());
}

#[test]
fn negative_watch_ids_are_read_in_twos_complement() {
    let event = inotify_event::decode_at(&encode_record(-1, 0x4000, 0, b""), 0).unwrap();
    assert_eq!(event.wd, -1);
    assert_eq!(event.mask, vec![Mask::IN_Q_OVERFLOW]);
    let low = inotify_event::decode_at(&encode_record(i32::MIN, 0, 0, b""), 0).unwrap();
    assert_eq!(low.wd, i32::MIN);
    let high = inotify_event::decode_at(&encode_record(i32::MAX, 0, 0, b""), 0).unwrap();
    assert_eq!(high.wd, i32::MAX);
}

#[test]
fn cookie_and_unknown_bits_are_decoded() {
    let event = inotify_event::decode_at(&encode_record(9, 0x40 | 0x2000, 0xdead_beef, b"x"), 0)
        .unwrap();
    assert_eq!(event.cookie, 0xdead_beef);
    assert_eq!(event.mask, vec![Mask::IN_MOVED_FROM, Mask::Undefined]);
}

#[test]
fn decode_at_refuses_a_cut_header() {
    let bytes = encode_record(7, 0x100, 0, b"foo.txt");
    for cut in 0..16 {
        assert_eq!(inotify_event::decode_at(&bytes[..cut], 0), None);
    }
    assert_eq!(inotify_event::decode_at(&bytes, bytes.len()), None);
    assert_eq!(inotify_event::decode_at(&bytes, bytes.len() + 1), None);
    assert_eq!(inotify_event::decode_at(&bytes, usize::MAX), None);
    assert_eq!(inotify_event::decode_at(&bytes, 8), None);
}

#[test]
fn decode_at_refuses_a_cut_name() {
    let bytes = encode_record(7, 0x100, 0, b"foo.txt");
    for cut in 16..bytes.len() {
        assert_eq!(inotify_event::decode_at(&bytes[..cut], 0), None);
    }
    assert!(inotify_event::decode_at(&bytes, 0).is_some());
}

#[test]
fn reports_looks_through_unions() {
    let event = inotify_event::decode_at(&encode_record(1, 0x8 | 0x4000_0000, 0, b""), 0).unwrap();
    assert!(event.reports(Mask::IN_CLOSE_WRITE));
    assert!(event.reports(Mask::IN_CLOSE));
    assert!(event.reports(Mask::IN_ISDIR));
    assert!(!event.reports(Mask::IN_CLOSE_NOWRITE));
    assert!(!event.reports(Mask::IN_MOVE));
    assert!(!event.reports(Mask::Undefined));
    let moved = inotify_event::decode_at(&encode_record(1, 0x80, 3, b"n"), 0).unwrap();
    assert!(moved.reports(Mask::IN_MOVE));
    assert!(!moved.reports(Mask::IN_MOVED_FROM));
}

#[test]
fn two_records_in_one_read_give_two_events_in_order() {
    let mut bytes = encode_record(1, Mask::IN_CREATE.bits(), 0, b"a");
    bytes.extend(encode_record(1, Mask::IN_DELETE.bits(), 0, b"b"));
    let mut decoder = EventDecoder::new();
    let events = decoder.feed(&bytes, bytes.len());
    assert_eq!(events.len(), 2);
    assert_eq!(events[0].mask, vec![Mask::IN_CREATE]);
    assert_eq!(events[0].name, Some(b"a".to_vec()));
    assert_eq!(events[1].mask, vec![Mask::IN_DELETE]);
    assert_eq!(events[1].name, Some(b"b".to_vec()));
    assert!(decoder.pending().is_empty());
}

#[test]
fn a_cut_name_waits_for_the_next_read() {
    let bytes = encode_record(4, Mask::IN_MODIFY.bits(), 0, b"notes.txt");
    let mut decoder = EventDecoder::new();
    let first = decoder.feed(&bytes[..20], 20);
    assert_eq!(first, vec![]);
    assert_eq!(decoder.pending(), &bytes[..20].to_vec());
    let second = decoder.feed(&bytes[20..], bytes.len() - 20);
    assert_eq!(second.len(), 1);
    assert_eq!(second[0].wd, 4);
    assert_eq!(second[0].name, Some(b"notes.txt".to_vec()));
    assert!(decoder.pending().is_empty());
}

#[test]
fn a_cut_header_waits_for_the_next_read() {
    let mut bytes = encode_record(1, 0x100, 0, b"whole");
    bytes.extend(encode_record(2, 0x200, 0, b"cut"));
    let mut decoder = EventDecoder::new();
    let first = decoder.feed(&bytes[..25], 25);
    assert_eq!(first.len(), 1);
    assert_eq!(first[0].name, Some(b"whole".to_vec()));
    assert_eq!(decoder.pending(), &bytes[21..25].to_vec());
    let second = decoder.feed(&bytes[25..], bytes.len() - 25);
    assert_eq!(second.len(), 1);
    assert_eq!(second[0].wd, 2);
    assert_eq!(second[0].name, Some(b"cut".to_vec()));
}

#[test]
fn feed_reads_only_the_valid_bytes() {
    let bytes = encode_record(1, 0x100, 0, b"a");
    let mut buf = [0xaau8; 64];
    buf[..bytes.len()].copy_from_slice(&bytes);
    let mut decoder = EventDecoder::new();
    let events = decoder.feed(&buf, bytes.len());
    assert_eq!(events.len(), 1);
    assert!(decoder.pending().is_empty());
    assert_eq!(decoder.feed(&buf, 0), vec![]);
    assert!(decoder.pending().is_empty());
}

#[test]
fn bytes_may_arrive_in_any_two_parts() {
    let mut bytes = encode_record(1, 0x100, 0, b"alpha");
    bytes.extend(encode_record(-2, 0x200 | 0x4000_0000, 77, b""));
    bytes.extend(encode_record(3, 0x1000, 0, b"gamma\0\0\0"));
    let mut whole = EventDecoder::new();
    let expected = whole.feed(&bytes, bytes.len());
    assert_eq!(expected.len(), 3);
    for cut in 0..=bytes.len() {
        let mut decoder = EventDecoder::new();
        let mut events = decoder.feed(&bytes[..cut], cut);
        events.extend(decoder.feed(&bytes[cut..], bytes.len() - cut));
        assert_eq!(events, expected);
        assert!(decoder.pending().is_empty());
    }
}

#[test]
fn bytes_may_arrive_one_at_a_time() {
    let mut bytes = encode_record(1, 0x100, 0, b"alpha");
    bytes.extend(encode_record(2, 0x200, 0, b"beta"));
    let mut decoder = EventDecoder::new();
    let mut events = Vec::new();
    for b in &bytes {
        events.extend(decoder.feed(&[*b], 1));
    }
    assert_eq!(events.len(), 2);
    assert_eq!(events[0].name, Some(b"alpha".to_vec()));
    assert_eq!(events[1].name, Some(b"beta".to_vec()));
}
