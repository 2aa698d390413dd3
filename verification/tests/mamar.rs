use pm64::bgm::cmd::{Command, CommandSeq};
use pm64::bgm::mamar::Metadata;
use pm64::bgm::{Bgm, Segment, Track, TrackList, Variation};
use pm64::id::IdGen;
use pm64::rw::Writer;
use std::collections::HashMap;

fn as_bytes(bgm: &Bgm) -> Vec<u8> {
    let mut w = Writer::new();
    let metadata = bgm.encode(&mut w).unwrap();
    let payload = rmp_serde::to_vec(&(metadata.track_names().clone(),)).unwrap();
    Bgm::write_metadata(&mut w, &metadata, &payload).unwrap();
    w.into_inner()
}

fn from_bytes(data: &[u8]) -> Bgm {
    let mut ids = IdGen::new();
    let (mut bgm, at) = Bgm::from_bytes(data, &mut ids).unwrap();
    if let Some(at) = at {
        let (names,): (HashMap<u16, Vec<String>>,) = rmp_serde::from_slice(&data[at as usize..]).unwrap();
        Metadata::from_track_names(names).apply_to_bgm(&mut bgm);
    }
    bgm
}

#[test]
fn encode_decode_metadata_preserves_track_names() {
    let mut tracks = Vec::new();
    for _ in 0..16 {
        tracks.push(Track::default());
    }
    let track_list = TrackList { pos: Some(0x1234), tracks };
    let mut bgm = Bgm::new();
    bgm.name = String::new();
    bgm.track_lists.insert(0x1234, track_list);
    bgm.variations[0] = Some(Variation {
        segments: vec![Segment::Subseg { id: Some(0), track_list: 0x1234 }],
    });

    let mut metadata = Metadata::new();
    metadata.add_track_name(0x1234, "My Cool Track".to_string());

    metadata.apply_to_bgm(&mut bgm);
    assert_eq!(bgm.track_lists[&0x1234].tracks[1].name, "My Cool Track");

    let data = as_bytes(&bgm);

    let bgm2 = from_bytes(&data);
    assert_eq!(bgm2.track_lists.len(), 1);
    for (_, track_list) in bgm2.track_lists {
        assert_eq!(track_list.tracks[1].name, "My Cool Track");
    }
}

#[test]
fn metadata_without_names_has_no_data() {
    let mut m = Metadata::new();
    assert!(!m.has_data());
    m.add_track_name(1, String::new());
    assert!(!m.has_data());
    m.add_track_name(1, "x".to_string());
    assert!(m.has_data());
    assert_eq!(m.track_names()[&1], vec![String::new(), "x".to_string()]);
}

#[test]
fn song_roundtrip_keeps_commands() {
    let mut ids = IdGen::new();
    let mut tracks = Vec::new();
    for i in 0..16 {
        let mut t = Track::default();
        if i == 1 {
            t.is_disabled = false;
            t.commands = CommandSeq::from_commands(
                &mut ids,
                vec![
                    Command::Note { pitch: 0x90, velocity: 100, length: 20 },
                    Command::Delay(48),
                    Command::MasterVolume(90),
                    Command::End,
                ],
            );
        }
        tracks.push(t);
    }
    let mut bgm = Bgm::new();
    bgm.name = "Song".to_string();
    bgm.track_lists.insert(1, TrackList { pos: None, tracks });
    bgm.variations[0] = Some(Variation { segments: vec![Segment::Subseg { id: None, track_list: 1 }] });
    let data = as_bytes(&bgm);
    let back = from_bytes(&data);
    assert_eq!(back.name, "Song");
    assert_eq!(back.track_lists.len(), 1);
    let tl = &back.track_lists[&1];
    let cmds: Vec<Command> = tl.tracks[1].commands.as_slice().iter().map(|e| e.command.clone()).collect();
    assert_eq!(
        cmds,
        vec![
            Command::Note { pitch: 0x90, velocity: 100, length: 20 },
            Command::Delay(48),
            Command::MasterVolume(90),
            Command::End,
        ]
    );
    assert!(!tl.tracks[1].is_disabled);
    assert!(tl.tracks[2].is_disabled);
}
