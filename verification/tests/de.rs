use pm64::bgm::cmd::{Command, CommandSeq, Event, MarkerId};
use pm64::bgm::de::{offset_label_string, Error, OffsetEventMap};
use pm64::bgm::{Bgm, Drum, Instrument, Segment, TrackList};
use pm64::id::IdGen;
use pm64::rw::{IoError, Reader};

/// Make sure that parsing garbage data returns an error.
#[test]
fn garbage() {
    let data = "use std::collections::btree_map::{BTreeMap, Entry};\nuse std::fmt;\n".as_bytes();
    let mut ids = IdGen::new();
    assert!(Bgm::from_bytes(data, &mut ids).is_err());
}

#[test]
fn decode_subroutine() {
    let bytecode: Vec<u8> = vec![
        0x01, // Delay(1) - at offset 0 (subroutine start)
        0x09, // Delay(9)
        0xFE, 0x00, 0x00, 15, // Subroutine { start = 0, length = 15 }
        0xFE, 0x00, 0x00, 15, // Subroutine { start = 0, length = 15 }
        0xFE, 0x00, 0x00, 15, // Subroutine { start = 0, length = 15 }
        0x01, // Delay(1)
        0x00, // End - at offset 15
    ];

    let mut ids = IdGen::new();
    let seq = CommandSeq::decode(&mut Reader::new(&bytecode), &mut ids).unwrap();

    let start_labels: Vec<&MarkerId> = seq
        .at_time(0)
        .into_iter()
        .take_while(|cmd| {
            matches!(
                cmd,
                Event {
                    command: Command::Marker { .. },
                    ..
                }
            )
        })
        .map(|cmd| match cmd {
            Event {
                command: Command::Marker { label },
                ..
            } => label,
            _ => unreachable!(),
        })
        .collect();
    let end_labels: Vec<&MarkerId> = seq
        .at_time(11)
        .into_iter()
        .take_while(|cmd| {
            matches!(
                cmd,
                Event {
                    command: Command::Marker { .. },
                    ..
                }
            )
        })
        .map(|cmd| match cmd {
            Event {
                command: Command::Marker { label },
                ..
            } => label,
            _ => unreachable!(),
        })
        .collect();
    let subroutine_labels: Vec<(&MarkerId, &MarkerId)> = seq
        .at_time(10)
        .into_iter()
        .take_while(|cmd| {
            matches!(
                cmd,
                Event {
                    command: Command::Detour { .. },
                    ..
                }
            )
        })
        .map(|cmd| match cmd {
            Event {
                command: Command::Detour {
                    start_label, end_label, ..
                },
                ..
            } => (start_label, end_label),
            _ => unreachable!(),
        })
        .collect();

    assert_eq!(start_labels.len(), 1);
    assert_eq!(end_labels.len(), 1);
    assert_eq!(subroutine_labels.len(), 3);

    // Check start markers
    assert_eq!(subroutine_labels[0].0, start_labels[0]);
    assert_eq!(subroutine_labels[1].0, start_labels[0]);
    assert_eq!(subroutine_labels[2].0, start_labels[0]);

    // Check end markers
    assert_eq!(subroutine_labels[0].1, end_labels[0]);
    assert_eq!(subroutine_labels[1].1, end_labels[0]);
    assert_eq!(subroutine_labels[2].1, end_labels[0]);
}

fn decode_commands(bytes: &[u8]) -> Result<Vec<Command>, Error> {
    let mut ids = IdGen::new();
    CommandSeq::decode(&mut Reader::new(bytes), &mut ids).map(|s| s.as_slice().iter().map(|e| e.command.clone()).collect())
}

#[test]
fn decodes_each_kind_of_command() {
    let bytes = [
        0x10, // Delay(16)
        0x79, 0x05, // long delay: 0x78 + 256 + 5
        0x90, 0x40, 0x20, // short note
        0x91, 0x41, 0xC1, 0x02, // long note: 0xC0 + 0x0102
        0xE0, 0x00, 0x78, // tempo 120
        0xEA, 0xFF, // pan -1
        0xEF, 0xFF, 0xFE, // bend -2
        0xFD, 0x01, 0x02, 0x03, 0x04, // event trigger
        0xF3, // tremolo stop
        0x00, // End
    ];
    assert_eq!(
        decode_commands(&bytes).unwrap(),
        vec![
            Command::Delay(16),
            Command::Delay(0x78 + 256 + 5),
            Command::Note { pitch: 0x90, velocity: 0x40, length: 0x20 },
            Command::Note { pitch: 0x91, velocity: 0x41, length: 0xC0 + 0x0102 },
            Command::MasterTempo(120),
            Command::SubTrackPan(-1),
            Command::SegTrackTune { bend: -2 },
            Command::EventTrigger { event_info: 0x01020304 },
            Command::TrackTremoloStop,
            Command::End,
        ]
    );
}

#[test]
fn unknown_command_byte_is_an_error() {
    assert!(matches!(decode_commands(&[0xE7]), Err(Error::UnknownSeqCommand(0xE7))));
    assert!(matches!(decode_commands(&[0xD4]), Err(Error::UnknownSeqCommand(0xD4))));
}

#[test]
fn truncated_sequence_is_an_error() {
    assert!(matches!(decode_commands(&[0x90, 0x40]), Err(Error::Io(IoError::UnexpectedEof))));
    assert!(matches!(decode_commands(&[0x10]), Err(Error::Io(IoError::UnexpectedEof))));
}

#[test]
fn detour_before_sequence_start_is_invalid() {
    let bytes = [0x00, 0x00, 0xFE, 0x00, 0x01, 0x05, 0x00];
    let mut ids = IdGen::new();
    let mut r = Reader::new(&bytes);
    r.seek(2);
    assert!(matches!(CommandSeq::decode(&mut r, &mut ids), Err(Error::Io(IoError::InvalidData))));
}

#[test]
fn offset_labels_are_upper_hex() {
    assert_eq!(offset_label_string(0), "Offset 0x0");
    assert_eq!(offset_label_string(0x1F), "Offset 0x1F");
    assert_eq!(offset_label_string(0xABC), "Offset 0xABC");
}

#[test]
fn offset_event_map_orders_markers_before_commands() {
    let mut ids = IdGen::new();
    let mut map = OffsetEventMap::new();
    let e = Event::new(&mut ids, Command::Delay(1));
    map.insert(3, e);
    let label = map.upsert_marker(&mut ids, 3);
    assert_eq!(label, "Offset 0x3");
    let again = map.upsert_marker(&mut ids, 3);
    assert_eq!(again, label);
    assert_eq!(map.last_offset(), 4);
    assert_eq!(OffsetEventMap::atob(3), 8);
    assert_eq!(OffsetEventMap::btoa(8), 4);
    let seq = map.into_command_seq();
    let cmds: Vec<Command> = seq.as_slice().iter().map(|e| e.command.clone()).collect();
    assert_eq!(cmds, vec![Command::Marker { label: "Offset 0x3".to_string() }, Command::Delay(1)]);
}

fn minimal_song(name: &[u8; 4]) -> Vec<u8> {
    let mut data = vec![0u8; 0x24];
    data[0..4].copy_from_slice(b"BGM ");
    data[4..8].copy_from_slice(&0x24u32.to_be_bytes());
    data[8..12].copy_from_slice(name);
    data[0x10] = 4;
    data
}

#[test]
fn decodes_minimal_song() {
    let data = minimal_song(b"Test");
    let mut ids = IdGen::new();
    let (bgm, meta) = Bgm::from_bytes(&data, &mut ids).unwrap();
    assert_eq!(bgm.name, "Test");
    assert!(meta.is_none());
    assert!(bgm.variations.iter().all(|v| v.is_none()));
    assert!(bgm.drums.is_empty());
    assert!(bgm.track_lists.is_empty());
}

#[test]
fn header_errors() {
    let mut ids = IdGen::new();
    let mut data = minimal_song(b"Test");
    data[0] = b'X';
    assert!(matches!(Bgm::from_bytes(&data, &mut ids), Err(Error::InvalidMagic)));

    let mut data = minimal_song(b"Test");
    data[0x10] = 3;
    assert!(matches!(Bgm::from_bytes(&data, &mut ids), Err(Error::InvalidNumVariations(3))));

    let mut data = minimal_song(b"Test");
    data[0x0D] = 1;
    assert!(matches!(Bgm::from_bytes(&data, &mut ids), Err(Error::Io(IoError::InvalidData))));

    let data = minimal_song(b"Test");
    assert!(matches!(Bgm::from_bytes(&data[..0x20], &mut ids), Err(Error::Io(IoError::UnexpectedEof))));
    assert!(matches!(Bgm::from_bytes(&data[..2], &mut ids), Err(Error::Io(IoError::UnexpectedEof))));
}

#[test]
fn decodes_drums_and_instruments() {
    let mut data = minimal_song(b"Drum");
    data[0x1C..0x1E].copy_from_slice(&(0x24u16 / 4).to_be_bytes());
    data[0x1E..0x20].copy_from_slice(&1u16.to_be_bytes());
    data[0x20..0x22].copy_from_slice(&(0x30u16 / 4).to_be_bytes());
    data[0x22..0x24].copy_from_slice(&1u16.to_be_bytes());
    data.extend_from_slice(&[1, 2, 3, 4, 5, 0xFF, 7, 8, 9, 10, 11, 12]);
    data.extend_from_slice(&[1, 2, 3, 0x80, 5, 6, 7, 8]);
    let len = data.len() as u32;
    data[4..8].copy_from_slice(&len.to_be_bytes());
    let mut ids = IdGen::new();
    let (bgm, _) = Bgm::from_bytes(&data, &mut ids).unwrap();
    assert_eq!(
        bgm.drums,
        vec![Drum {
            bank: 1,
            patch: 2,
            coarse_tune: 3,
            fine_tune: 4,
            volume: 5,
            pan: -1,
            reverb: 7,
            rand_tune: 8,
            rand_volume: 9,
            rand_pan: 10,
            rand_reverb: 11,
            pad_0b: 12,
        }]
    );
    assert_eq!(
        bgm.instruments,
        vec![Instrument {
            bank: 1,
            patch: 2,
            volume: 3,
            pan: -128,
            reverb: 5,
            coarse_tune: 6,
            fine_tune: 7,
            pad_07: 8,
        }]
    );
}

#[test]
fn unknown_segment_command_is_an_error() {
    let mut data = minimal_song(b"Segs");
    data[0x14..0x16].copy_from_slice(&(0x24u16 / 4).to_be_bytes());
    data.extend_from_slice(&0x2000_0000u32.to_be_bytes());
    data.extend_from_slice(&[0, 0, 0, 0]);
    let mut ids = IdGen::new();
    assert!(matches!(Bgm::from_bytes(&data, &mut ids), Err(Error::UnknownSegmentCommand(0x2000_0000))));
}

#[test]
fn segment_decode_works_with_any_track_list_keys() {
    let mut bgm = Bgm::new();
    let mut three = TrackList::new_default();
    three.pos = Some(0x80);
    let mut seven = TrackList::new_default();
    seven.pos = Some(0x80);
    bgm.track_lists.insert(7, seven);
    bgm.track_lists.insert(3, three);
    let mut data = vec![0u8; 0x100];
    data[0..4].copy_from_slice(&[0x10, 0x00, 0x00, 0x10]);
    let mut ids = IdGen::new();

    // A list already read at the position is named by its key, the first in key order.
    let mut f = Reader::new(&data);
    let seg = Segment::decode(&mut f, &mut bgm, &mut ids, 0x40).unwrap();
    assert!(matches!(seg, Segment::Subseg { track_list: 3, .. }));
    assert_eq!(bgm.track_lists.len(), 2);

    // A list read at a new position is kept under the key after the largest one.
    let mut f = Reader::new(&data);
    let seg = Segment::decode(&mut f, &mut bgm, &mut ids, 0x20).unwrap();
    assert!(matches!(seg, Segment::Subseg { track_list: 8, .. }));
    assert_eq!(bgm.track_lists.get(&8).unwrap().pos, Some(0x60));

    // A list past the end of the input cannot be read.
    let mut f = Reader::new(&data);
    assert_eq!(
        Segment::decode(&mut f, &mut bgm, &mut ids, 0x1000).unwrap_err(),
        Error::Io(IoError::UnexpectedEof)
    );
}
