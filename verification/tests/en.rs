use pm64::bgm::cmd::{Command, CommandSeq};
use pm64::bgm::en::{polyphony_to_polyphonic_idx, Error};
use pm64::bgm::mamar::Metadata;
use pm64::bgm::{Bgm, Drum, Instrument, Polyphony, Segment, TrackList, Variation};
use pm64::id::IdGen;
use pm64::rw::{Reader, Writer};

fn encode_commands(commands: Vec<Command>) -> Result<Vec<u8>, Error> {
    let mut ids = IdGen::new();
    let seq = CommandSeq::from_commands(&mut ids, commands);
    let mut w = Writer::new();
    seq.encode(&mut w)?;
    Ok(w.into_inner())
}

fn encode_commands_at(pos: usize, commands: Vec<Command>) -> Result<Vec<u8>, Error> {
    let mut ids = IdGen::new();
    let seq = CommandSeq::from_commands(&mut ids, commands);
    let mut w = Writer::new();
    w.seek(pos);
    seq.encode(&mut w)?;
    Ok(w.into_inner())
}

fn marker(label: &str) -> Command {
    Command::Marker { label: label.to_string() }
}

fn detour(start: &str, end: &str) -> Command {
    Command::Detour { start_label: start.to_string(), end_label: end.to_string() }
}

#[test]
fn short_delay_takes_one_byte() {
    assert_eq!(encode_commands(vec![Command::Delay(0x10)]).unwrap(), vec![0x10]);
    assert_eq!(encode_commands(vec![Command::Delay(0)]).unwrap(), Vec::<u8>::new());
}

#[test]
fn long_delays_are_split() {
    assert_eq!(encode_commands(vec![Command::Delay(300)]).unwrap(), vec![0x78, 0x78, 0x3C]);
    assert_eq!(encode_commands(vec![Command::Delay(600)]).unwrap(), vec![0x79, 0x78, 0x68]);
    assert_eq!(encode_commands(vec![Command::Delay(0x78)]).unwrap(), vec![0x78, 0x00]);
}

#[test]
fn notes_take_three_or_four_bytes() {
    assert_eq!(
        encode_commands(vec![Command::Note { pitch: 0x90, velocity: 0x40, length: 0x20 }]).unwrap(),
        vec![0x90, 0x40, 0x20]
    );
    assert_eq!(
        encode_commands(vec![Command::Note { pitch: 0x91, velocity: 0x41, length: 0xC0 + 0x0102 }]).unwrap(),
        vec![0x91, 0x41, 0xC1, 0x02]
    );
    // Lengths past the largest that the format holds are cut to it.
    assert_eq!(
        encode_commands(vec![Command::Note { pitch: 1, velocity: 2, length: 0xFFFF }]).unwrap(),
        vec![1, 2, 0xD3, 0x3F]
    );
}

#[test]
fn commands_with_operands() {
    assert_eq!(
        encode_commands(vec![
            Command::MasterTempo(120),
            Command::SubTrackPan(-1),
            Command::SegTrackTune { bend: -2 },
            Command::EventTrigger { event_info: 0x01020304 },
            Command::End,
        ])
        .unwrap(),
        vec![0xE0, 0x00, 0x78, 0xEA, 0xFF, 0xEF, 0xFF, 0xFE, 0xFD, 1, 2, 3, 4, 0x00]
    );
}

#[test]
fn detour_is_filled_in_from_markers() {
    let bytes = encode_commands_at(
        0x10,
        vec![marker("a"), Command::Delay(1), Command::Delay(2), marker("b"), detour("a", "b"), Command::End],
    )
    .unwrap();
    assert_eq!(&bytes[0x10..], &[0x01, 0x02, 0xFE, 0x00, 0x10, 0x02, 0x00]);
}

#[test]
fn detour_may_name_later_markers() {
    let bytes = encode_commands(vec![detour("s", "e"), marker("s"), Command::Delay(5), marker("e"), Command::End]).unwrap();
    assert_eq!(bytes, vec![0xFE, 0x00, 0x04, 0x01, 0x05, 0x00]);
}

#[test]
fn detour_errors() {
    assert_eq!(encode_commands(vec![detour("x", "e"), marker("e")]), Err(Error::MissingStartMarker("x".to_string())));
    assert_eq!(encode_commands(vec![marker("s"), detour("s", "y")]), Err(Error::MissingEndMarker("y".to_string())));
    assert_eq!(
        encode_commands(vec![marker("e"), Command::Delay(1), marker("s"), detour("s", "e")]),
        Err(Error::UnorderedMarkers("e".to_string()))
    );
    let mut far = vec![marker("s")];
    for _ in 0..200 {
        far.push(Command::MasterVolume(1));
    }
    far.push(marker("e"));
    far.push(detour("s", "e"));
    assert_eq!(encode_commands(far), Err(Error::EndMarkerTooFarAway("e".to_string())));
}

#[test]
fn drum_encodes_to_twelve_bytes_and_back() {
    let drum = Drum {
        bank: 1,
        patch: 2,
        coarse_tune: 3,
        fine_tune: 4,
        volume: 5,
        pan: -1,
        reverb: 7,
        rand_tune: 8,
        rand_volume: 9,
        rand_pan: 10,
        rand_reverb: 11,
        pad_0b: 12,
    };
    let mut w = Writer::new();
    drum.encode(&mut w).unwrap();
    let bytes = w.into_inner();
    assert_eq!(bytes, vec![1, 2, 3, 4, 5, 0xFF, 7, 8, 9, 10, 11, 12]);
    let back = Drum::decode(&mut Reader::new(&bytes)).unwrap();
    assert_eq!(back, drum);
}

#[test]
fn instrument_encodes_to_eight_bytes_and_back() {
    let instrument = Instrument {
        bank: 0x30,
        patch: 7,
        volume: 100,
        pan: -128,
        reverb: 0,
        coarse_tune: 1,
        fine_tune: 2,
        pad_07: 0,
    };
    let mut w = Writer::new();
    instrument.encode(&mut w).unwrap();
    let bytes = w.into_inner();
    assert_eq!(bytes, vec![0x30, 7, 100, 0x80, 0, 1, 2, 0]);
    let back = Instrument::decode(&mut Reader::new(&bytes)).unwrap();
    assert_eq!(back, instrument);
}

#[test]
fn segment_entries() {
    let mut w = Writer::new();
    let r = Segment::Subseg { id: None, track_list: 9 }.encode(&mut w).unwrap();
    assert_eq!(r, Some((2, 9)));
    let r = Segment::EndLoop { id: None, label_index: 3, iter_count: 2 }.encode(&mut w).unwrap();
    assert_eq!(r, None);
    Segment::Unknown6 { id: None, label_index: 1, iter_count: 1 }.encode(&mut w).unwrap();
    assert_eq!(w.into_inner(), vec![0x10, 0x00, 0x00, 0x00, 0x50, 0x00, 0x00, 0x43, 0x00, 0x21]);
}

#[test]
fn polyphonic_index_of_voice_counts() {
    assert_eq!(polyphony_to_polyphonic_idx(0), 0);
    assert_eq!(polyphony_to_polyphonic_idx(1), 1);
    assert_eq!(polyphony_to_polyphonic_idx(2), 5);
    assert_eq!(polyphony_to_polyphonic_idx(3), 6);
    assert_eq!(polyphony_to_polyphonic_idx(4), 7);
}

#[test]
fn empty_song_header() {
    let mut bgm = Bgm::new();
    bgm.name = "Abc ".to_string();
    let mut w = Writer::new();
    let metadata = bgm.encode(&mut w).unwrap();
    assert!(!metadata.has_data());
    let bytes = w.into_inner();
    assert_eq!(&bytes[0..4], b"BGM ");
    assert_eq!(u32::from_be_bytes([bytes[4], bytes[5], bytes[6], bytes[7]]) as usize, 0x24);
    assert_eq!(&bytes[8..12], b"Abc ");
    assert_eq!(bytes[0x10], 4);
    assert_eq!(bytes.len(), 0x24);
    let mut ids = IdGen::new();
    let (back, meta) = Bgm::from_bytes(&bytes, &mut ids).unwrap();
    assert_eq!(back.name, "Abc ");
    assert!(meta.is_none());
}

#[test]
fn oversized_metadata_is_refused() {
    let bgm = Bgm::new();
    let mut w = Writer::new();
    let empty: Metadata = bgm.encode(&mut w).unwrap();
    let small = vec![0u8; 0x10];
    assert_eq!(Bgm::write_metadata(&mut w, &empty, &small), Ok(()));
    let mut named = Metadata::new();
    named.add_track_name(0, "x".to_string());
    let payload = vec![0u8; 0x9000];
    assert_eq!(Bgm::write_metadata(&mut w, &named, &payload), Err(Error::TooBig));
}

#[test]
fn metadata_after_a_song_of_a_multiple_of_eight_bytes_reads_back() {
    let mut bgm = Bgm::new();
    bgm.drums = vec![Drum { bank: 1, ..Default::default() }];
    let mut w = Writer::new();
    bgm.encode(&mut w).unwrap();
    assert_eq!(w.position(), 0x30);
    let mut named = Metadata::new();
    named.add_track_name(1, "x".to_string());
    let payload = vec![7u8, 8, 9];
    assert_eq!(Bgm::write_metadata(&mut w, &named, &payload), Ok(()));
    let bytes = w.into_inner();
    assert_eq!(&bytes[0x30..0x35], b"MAMAR");
    assert_eq!(&bytes[0x38..], &payload[..]);
    let mut ids = IdGen::new();
    let (back, meta) = Bgm::from_bytes(&bytes, &mut ids).unwrap();
    assert_eq!(meta, Some(0x38));
    assert_eq!(back.drums, bgm.drums);
}

#[test]
fn refused_metadata_leaves_the_song_and_metadata_written() {
    let bgm = Bgm::new();
    let mut w = Writer::new();
    bgm.encode(&mut w).unwrap();
    let mut w2 = Writer::new();
    bgm.encode(&mut w2).unwrap();
    let song = w2.into_inner();
    let mut named = Metadata::new();
    named.add_track_name(0, "x".to_string());
    let payload = vec![1u8; 0x9000];
    assert_eq!(Bgm::write_metadata(&mut w, &named, &payload), Err(Error::TooBig));
    let bytes = w.into_inner();
    assert_eq!(&bytes[..song.len()], &song[..]);
    assert_eq!(&bytes[0x28..0x2D], b"MAMAR");
    assert_eq!(bytes.len(), 0x30 + 0x9000);
}

#[test]
fn song_without_variations_reads_back() {
    let mut bgm = Bgm::new();
    bgm.name = "Tst".to_string();
    bgm.drums = vec![
        Drum { bank: 1, patch: 2, pan: -64, volume: 100, ..Default::default() },
        Drum { bank: 3, reverb: 9, ..Default::default() },
    ];
    bgm.instruments = vec![Instrument { bank: 0x30, patch: 4, volume: 90, pan: 64, ..Default::default() }];
    let mut w = Writer::new();
    let metadata = bgm.encode(&mut w).unwrap();
    assert!(!metadata.has_data());
    let bytes = w.into_inner();
    assert_eq!(bytes.len(), 0x24 + 2 * 12 + 8);
    assert_eq!(&bytes[0x1C..0x24], &[0, 9, 0, 2, 0, 0x0F, 0, 1]);
    let mut ids = IdGen::new();
    let (back, meta) = Bgm::from_bytes(&bytes, &mut ids).unwrap();
    assert!(meta.is_none());
    assert_eq!(back.name, bgm.name);
    assert_eq!(back.drums, bgm.drums);
    assert_eq!(back.instruments, bgm.instruments);
    assert!(back.variations.iter().all(|v| v.is_none()));
    assert!(back.track_lists.is_empty());
}

#[test]
fn song_with_variations_reads_back() {
    let mut ids = IdGen::new();
    let mut bgm = Bgm::new();
    bgm.name = "One".to_string();
    bgm.instruments = vec![Instrument { bank: 0x30, patch: 1, ..Default::default() }];
    // Tracks with automatic polyphony are written with the voice count computed from their
    // notes, so these tracks all say theirs.
    let mut first = TrackList::new_default();
    for t in first.tracks.iter_mut() {
        t.polyphony = Polyphony::Manual { voices: 1 };
    }
    first.tracks[1].name = "Lead".to_string();
    first.tracks[0].is_disabled = false;
    first.tracks[0].polyphony = Polyphony::Manual { voices: 2 };
    first.tracks[0].commands = CommandSeq::from_commands(
        &mut ids,
        vec![
            Command::MasterTempo(120),
            Command::Note { pitch: 0x90, velocity: 0x40, length: 0x20 },
            Command::Delay(0x30),
            Command::End,
        ],
    );
    let mut second = TrackList::new_default();
    for t in second.tracks.iter_mut() {
        t.polyphony = Polyphony::Link { parent: 2 };
    }
    second.tracks[3].polyphony = Polyphony::Other { priority: 3 };
    second.tracks[3].is_drum_track = true;
    second.tracks[3].name = "Kit".to_string();
    second.tracks[3].commands = CommandSeq::from_commands(&mut ids, vec![Command::Delay(5), Command::End]);
    let mut third = TrackList::new_default();
    for t in third.tracks.iter_mut() {
        t.polyphony = Polyphony::Manual { voices: 3 };
    }
    third.tracks[2].commands = CommandSeq::from_commands(
        &mut ids,
        vec![Command::Note { pitch: 0x95, velocity: 0x60, length: 0x10 }, Command::Delay(0x10), Command::End],
    );
    let a = bgm.add_track_list(first.clone());
    let b = bgm.add_track_list(second.clone());
    let c = bgm.add_track_list(third.clone());
    bgm.variations[0] = Some(Variation {
        segments: vec![
            Segment::StartLoop { id: None, label_index: 0 },
            Segment::Subseg { id: None, track_list: b },
            Segment::Wait { id: None },
            Segment::Subseg { id: None, track_list: a },
            Segment::Subseg { id: None, track_list: b },
            Segment::EndLoop { id: None, label_index: 0, iter_count: 3 },
        ],
    });
    bgm.variations[2] = Some(Variation {
        segments: vec![Segment::Subseg { id: None, track_list: a }, Segment::Subseg { id: None, track_list: c }],
    });
    let mut w = Writer::new();
    let names = bgm.encode(&mut w).unwrap();
    assert!(names.has_data());
    let bytes = w.into_inner();
    let mut ids2 = IdGen::new();
    let (mut back, meta) = Bgm::from_bytes(&bytes, &mut ids2).unwrap();
    // The names that encoding noted go back to the tracks of the lists read back.
    names.apply_to_bgm(&mut back);
    assert!(meta.is_none());
    assert_eq!(back.name, bgm.name);
    assert_eq!(back.instruments, bgm.instruments);
    assert!(back.variations[1].is_none() && back.variations[3].is_none());
    let segs = &back.variations[0].as_ref().unwrap().segments;
    assert_eq!(segs.len(), 6);
    assert!(matches!(segs[0], Segment::StartLoop { label_index: 0, .. }));
    assert!(matches!(segs[2], Segment::Wait { .. }));
    assert!(matches!(segs[5], Segment::EndLoop { label_index: 0, iter_count: 3, .. }));
    // The subsegments name the lists in the order they are read: the first one's list is list 1,
    // and a list named twice is written and read once.
    assert!(matches!(segs[1], Segment::Subseg { track_list: 1, .. }));
    assert!(matches!(segs[3], Segment::Subseg { track_list: 2, .. }));
    assert!(matches!(segs[4], Segment::Subseg { track_list: 1, .. }));
    // The third variation's subsegments name the list already read for the second entry of the
    // first one, then a list read for them.
    let segs2 = &back.variations[2].as_ref().unwrap().segments;
    assert_eq!(segs2.len(), 2);
    assert!(matches!(segs2[0], Segment::Subseg { track_list: 2, .. }));
    assert!(matches!(segs2[1], Segment::Subseg { track_list: 3, .. }));
    assert_eq!(back.track_lists.len(), 3);
    let lists: Vec<&TrackList> = [&segs[1], &segs[3], &segs2[1]]
        .iter()
        .map(|s| match s {
            Segment::Subseg { track_list, .. } => &back.track_lists[track_list],
            _ => panic!("not a subsegment"),
        })
        .collect();
    for (got, want) in lists.iter().zip([&second, &first, &third]) {
        for (g, t) in got.tracks.iter().zip(want.tracks.iter()) {
            assert_eq!(g.is_disabled, t.is_disabled);
            assert_eq!(g.polyphony, t.polyphony);
            assert_eq!(g.is_drum_track, t.is_drum_track);
            assert_eq!(g.name, t.name);
            let gc: Vec<Command> = g.commands.iter().map(|e| e.command.clone()).collect();
            let tc: Vec<Command> = t.commands.iter().map(|e| e.command.clone()).collect();
            assert_eq!(gc, tc);
        }
    }
}

#[test]
fn long_delays_read_back_as_pieces_of_the_same_length() {
    for d in [0x78usize, 0x177, 0x1000, 5000] {
        let bytes = encode_commands(vec![Command::Delay(d), Command::End]).unwrap();
        let mut r = Reader::new(&bytes);
        let mut ids = IdGen::new();
        let back = CommandSeq::decode(&mut r, &mut ids).unwrap();
        assert_eq!(back.len_time(), d);
        assert!(back.iter().all(|e| matches!(e.command, Command::Delay(_) | Command::End)));
        assert_eq!(back.iter().last().map(|e| e.command.clone()), Some(Command::End));
    }
}
