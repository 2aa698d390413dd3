use pm64::bgm::cmd::{Command, CommandSeq};
use pm64::bgm::{Bgm, NoSpace, Polyphony, Segment, Track, TrackList, Variation};
use pm64::id::IdGen;

fn list_with_master(ids: &mut IdGen, commands: Vec<Command>) -> TrackList {
    let mut tl = TrackList::new_default();
    tl.tracks[0].commands = CommandSeq::from_commands(ids, commands);
    tl
}

#[test]
fn new_song_is_empty() {
    let bgm = Bgm::new();
    assert_eq!(bgm.name, "New Song");
    assert_eq!(bgm.variations.len(), 4);
    assert!(bgm.variations.iter().all(|v| v.is_none()));
    assert!(bgm.track_lists.is_empty());
}

#[test]
fn variations_fill_up() {
    let mut bgm = Bgm::new();
    assert!(bgm.can_add_variation());
    for i in 0..4 {
        assert_eq!(bgm.add_variation(), Ok(i));
    }
    assert!(!bgm.can_add_variation());
    assert_eq!(bgm.add_variation(), Err(NoSpace));
    bgm.variations[2] = None;
    assert_eq!(bgm.add_variation(), Ok(2));
}

#[test]
fn track_lists_get_increasing_ids_and_are_found_by_position() {
    let mut bgm = Bgm::new();
    let a = bgm.add_track_list(TrackList { pos: Some(0x40), tracks: TrackList::new_default().tracks });
    let b = bgm.add_track_list(TrackList { pos: Some(0x80), tracks: TrackList::new_default().tracks });
    let c = bgm.add_track_list(TrackList { pos: Some(0x40), tracks: TrackList::new_default().tracks });
    assert_eq!((a, b, c), (1, 2, 3));
    assert_eq!(bgm.track_list_ids(), vec![1, 2, 3]);
    assert_eq!(bgm.find_track_list_with_pos(0x40), Some(1));
    assert_eq!(bgm.find_track_list_with_pos(0x80), Some(2));
    assert_eq!(bgm.find_track_list_with_pos(0x10), None);
}

#[test]
fn polyphony_raw_fields() {
    assert_eq!(Polyphony::from_raw(5, 0), Polyphony::Manual { voices: 2 });
    assert_eq!(Polyphony::from_raw(9, 3), Polyphony::Link { parent: 2 });
    assert_eq!(Polyphony::from_raw(0x42, 0), Polyphony::Other { priority: 0x42 });
    assert_eq!(Polyphony::Manual { voices: 3 }.to_polyphonic_idx(), 6);
    assert_eq!(Polyphony::Link { parent: 2 }.to_parent_idx(), 3);
    assert_eq!(Polyphony::Link { parent: 2 }.to_polyphonic_idx(), 0);
    for p in [
        Polyphony::Automatic,
        Polyphony::Manual { voices: 4 },
        Polyphony::Link { parent: 7 },
        Polyphony::Other { priority: 9 },
    ] {
        assert_eq!(Polyphony::from_raw(p.to_polyphonic_idx(), p.to_parent_idx()), p);
    }
}

#[test]
fn track_split_keeps_settings() {
    let mut ids = IdGen::new();
    let mut t = Track::default();
    t.name = "Lead".to_string();
    t.is_disabled = false;
    t.commands = CommandSeq::from_commands(&mut ids, vec![Command::Delay(10), Command::End]);
    let after = t.split_at(&mut ids, 4);
    assert_eq!(after.name, "Lead");
    assert!(!after.is_disabled);
    assert_eq!(t.commands.len_time(), 4);
    assert_eq!(after.commands.len_time(), 6);
}

#[test]
fn split_variation_inserts_new_segment() {
    let mut ids = IdGen::new();
    let mut bgm = Bgm::new();
    let tl = list_with_master(&mut ids, vec![Command::Delay(100), Command::End]);
    assert_eq!(tl.len_time(), 100);
    let id = bgm.add_track_list(tl);
    bgm.variations[0] = Some(Variation { segments: vec![Segment::Subseg { id: Some(500), track_list: id }] });

    // Splitting at a segment boundary does nothing.
    bgm.split_variation_at(&mut ids, 0, 0);
    bgm.split_variation_at(&mut ids, 0, 100);
    assert_eq!(bgm.variations[0].as_ref().unwrap().segments.len(), 1);
    // Neither does naming a variation that is not there.
    bgm.split_variation_at(&mut ids, 1, 40);
    bgm.split_variation_at(&mut ids, 9, 40);

    bgm.split_variation_at(&mut ids, 0, 40);
    let segs = &bgm.variations[0].as_ref().unwrap().segments;
    assert_eq!(segs.len(), 2);
    assert_eq!(segs[0], Segment::Subseg { id: Some(500), track_list: id });
    let new_list = match segs[1] {
        Segment::Subseg { id: Some(_), track_list } => track_list,
        ref other => panic!("unexpected segment {:?}", other),
    };
    assert_ne!(new_list, id);
    assert_eq!(bgm.track_lists[&id].len_time(), 40);
    assert_eq!(bgm.track_lists[&new_list].len_time(), 60);
    assert_eq!(bgm.track_lists[&new_list].pos, None);
}

#[test]
fn segment_ids_are_added_in_order_and_stripped() {
    let mut bgm = Bgm::new();
    bgm.variations[0] = Some(Variation { segments: vec![Segment::Wait { id: None }, Segment::Subseg { id: None, track_list: 3 }] });
    bgm.variations[2] = Some(Variation { segments: vec![Segment::StartLoop { id: Some(1), label_index: 2 }] });
    let mut ids = IdGen::starting_at(10);
    bgm.add_segment_ids(&mut ids);
    assert_eq!(
        bgm.variations[0].as_ref().unwrap().segments,
        vec![Segment::Wait { id: Some(10) }, Segment::Subseg { id: Some(11), track_list: 3 }]
    );
    assert!(bgm.variations[1].is_none());
    assert_eq!(bgm.variations[2].as_ref().unwrap().segments, vec![Segment::StartLoop { id: Some(12), label_index: 2 }]);

    bgm.strip_segment_ids();
    assert_eq!(
        bgm.variations[0].as_ref().unwrap().segments,
        vec![Segment::Wait { id: None }, Segment::Subseg { id: None, track_list: 3 }]
    );
    assert_eq!(bgm.variations[2].as_ref().unwrap().segments, vec![Segment::StartLoop { id: None, label_index: 2 }]);
}
