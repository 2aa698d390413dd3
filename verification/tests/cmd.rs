use pm64::bgm::cmd::{Command, CommandSeq, Event};
use pm64::id::IdGen;

fn note(ids: &mut IdGen) -> Event {
    Event::new(
        ids,
        Command::Note {
            pitch: 0,
            velocity: 0,
            length: 0,
        },
    )
}

fn seq_of(ids: &mut IdGen, commands: Vec<Command>) -> CommandSeq {
    CommandSeq::from_commands(ids, commands)
}

fn commands(seq: &CommandSeq) -> Vec<Command> {
    seq.as_slice().iter().map(|e| e.command.clone()).collect()
}

#[test]
fn insert_end() {
    let mut ids = IdGen::new();
    let mut seq = CommandSeq::new();

    let a = vec![note(&mut ids), note(&mut ids)];
    seq.insert_many_start(&mut ids, 0, a);
    let b = vec![note(&mut ids), note(&mut ids)];
    seq.insert_many_start(&mut ids, 10, b);

    seq.insert_end(&mut ids, 0, Command::Marker { label: "test1".into() });
    seq.insert_end(&mut ids, 10, Command::Marker { label: "test2".into() });

    assert!(matches!(seq.as_slice()[2].command, Command::Marker { .. }));

    assert!(matches!(seq.as_slice().last().unwrap().command, Command::Marker { .. }));
}

#[test]
fn max_polyphony() {
    let mut ids = IdGen::new();
    let seq = CommandSeq::new();
    assert_eq!(seq.max_polyphony(), 0);

    let seq = seq_of(
        &mut ids,
        vec![Command::Note {
            pitch: 100,
            velocity: 100,
            length: 10,
        }],
    );
    assert_eq!(seq.max_polyphony(), 1);

    let seq = seq_of(
        &mut ids,
        vec![
            Command::Note {
                pitch: 100,
                velocity: 100,
                length: 10,
            },
            Command::Delay(15),
            Command::Note {
                pitch: 100, // same pitch
                velocity: 100,
                length: 10,
            },
        ],
    );
    assert_eq!(seq.max_polyphony(), 1);

    let seq = seq_of(
        &mut ids,
        vec![
            Command::Note {
                pitch: 100,
                velocity: 100,
                length: 10,
            },
            Command::Note {
                pitch: 200,
                velocity: 100,
                length: 10,
            },
        ],
    );
    assert_eq!(seq.max_polyphony(), 2);

    let seq = seq_of(
        &mut ids,
        vec![
            Command::Note {
                pitch: 100,
                velocity: 100,
                length: 10,
            },
            Command::Delay(10), // note should finish
            Command::Note {
                pitch: 200,
                velocity: 100,
                length: 10,
            },
        ],
    );
    assert_eq!(seq.max_polyphony(), 1);
}

#[test]
fn split_at() {
    let mut ids = IdGen::new();
    let mut seq = seq_of(
        &mut ids,
        vec![
            Command::Marker { label: "A".to_string() },
            Command::Delay(5),
            Command::Marker { label: "B".to_string() },
            Command::Delay(5),
            Command::End,
        ],
    );
    let split = seq.split_at(&mut ids, 4);

    assert!(matches!(
        seq.as_slice()[0],
        Event {
            command: Command::Marker { .. },
            ..
        }
    ));
    assert_eq!(seq.len_time(), 4);
    assert_eq!(split.len_time(), 6);
}

#[test]
fn split_past_the_end_keeps_the_length() {
    let mut ids = IdGen::new();
    let mut seq = seq_of(&mut ids, vec![Command::Delay(5), Command::End]);
    let rest = seq.split_at(&mut ids, 10);
    assert_eq!(seq.len_time(), 5);
    assert_eq!(rest.len_time(), 0);
    assert!(rest.is_empty());
    assert_eq!(seq.as_slice().last().map(|e| e.command.clone()), Some(Command::End));
}

#[test]
fn insert_start_keeps_other_times() {
    let mut ids = IdGen::new();
    let mut seq = seq_of(&mut ids, vec![Command::Delay(10), Command::End]);
    seq.insert_start(&mut ids, 4, Command::MasterVolume(3));
    assert_eq!(
        commands(&seq),
        vec![Command::Delay(4), Command::MasterVolume(3), Command::Delay(6), Command::End]
    );
    assert_eq!(seq.len_time(), 10);
}

#[test]
fn insert_end_places_after_group() {
    let mut ids = IdGen::new();
    let mut seq = seq_of(
        &mut ids,
        vec![Command::Delay(5), Command::MasterVolume(1), Command::Delay(5), Command::End],
    );
    seq.insert_end(&mut ids, 5, Command::MasterVolume(2));
    assert_eq!(
        commands(&seq),
        vec![
            Command::Delay(5),
            Command::MasterVolume(1),
            Command::MasterVolume(2),
            Command::Delay(5),
            Command::End
        ]
    );
}

#[test]
fn insert_past_the_end_extends_time() {
    let mut ids = IdGen::new();
    let mut seq = seq_of(&mut ids, vec![Command::Delay(3)]);
    seq.insert_start(&mut ids, 10, Command::End);
    assert_eq!(commands(&seq), vec![Command::Delay(3), Command::Delay(7), Command::End]);
    assert_eq!(seq.len_time(), 10);
}

#[test]
fn split_keeps_total_time() {
    let mut ids = IdGen::new();
    let mut seq = seq_of(&mut ids, vec![Command::Delay(7), Command::MasterTempo(120), Command::Delay(3)]);
    let total = seq.len_time();
    let rest = seq.split_at(&mut ids, 5);
    assert_eq!(seq.len_time() + rest.len_time(), total);
    assert_eq!(seq.len_time(), 5);
}

#[test]
fn shrink_keeps_time_and_drops_empty_delays() {
    let mut ids = IdGen::new();
    let mut seq = seq_of(
        &mut ids,
        vec![Command::Delay(0), Command::Delay(4), Command::Delay(0), Command::End],
    );
    seq.shrink();
    assert_eq!(seq.len_time(), 4);
    assert_eq!(commands(&seq), vec![Command::Delay(4), Command::End]);
}

#[test]
fn zero_all_delays_keeps_commands_at_time_zero() {
    let mut ids = IdGen::new();
    let mut seq = seq_of(&mut ids, vec![Command::Delay(4), Command::MasterVolume(1), Command::End]);
    seq.zero_all_delays(&mut ids);
    assert_eq!(seq.len_time(), 0);
    assert!(commands(&seq).contains(&Command::MasterVolume(1)));
}

#[test]
fn pitch_range_spans_notes() {
    let mut ids = IdGen::new();
    let seq = seq_of(
        &mut ids,
        vec![
            Command::Note { pitch: 0x90, velocity: 1, length: 1 },
            Command::Note { pitch: 0xA0, velocity: 1, length: 1 },
        ],
    );
    let r = seq.pitch_range();
    // The range starts out as 0..0, so its start never rises above 0.
    assert_eq!(r.start, 0);
    assert_eq!(r.end, 0xA1);
}

#[test]
fn at_time_lists_group() {
    let mut ids = IdGen::new();
    let seq = seq_of(
        &mut ids,
        vec![Command::MasterVolume(1), Command::Delay(2), Command::MasterVolume(2), Command::MasterVolume(3)],
    );
    let at2: Vec<Command> = seq.at_time(2).into_iter().map(|e| e.command.clone()).collect();
    assert_eq!(at2, vec![Command::MasterVolume(2), Command::MasterVolume(3)]);
    let at0: Vec<Command> = seq.at_time(0).into_iter().map(|e| e.command.clone()).collect();
    assert_eq!(at0, vec![Command::MasterVolume(1), Command::Delay(2)]);
}

#[test]
fn playback_time_counts_last_note() {
    let mut ids = IdGen::new();
    let seq = seq_of(&mut ids, vec![Command::Delay(4), Command::Note { pitch: 0x90, velocity: 1, length: 10 }]);
    assert_eq!(seq.playback_time(), 14);
    assert_eq!(seq.len_time(), 4);
    assert_eq!(CommandSeq::new().playback_time(), 0);
}

#[test]
fn playback_time_waits_for_a_long_note_before_the_end() {
    let mut ids = IdGen::new();
    let seq = seq_of(
        &mut ids,
        vec![Command::Note { pitch: 0x80, velocity: 100, length: 100 }, Command::Delay(10), Command::End],
    );
    assert_eq!(seq.playback_time(), 100);
    assert_eq!(seq.len_time(), 10);
    let delays = seq_of(&mut ids, vec![Command::Delay(3), Command::MasterVolume(1), Command::Delay(5)]);
    assert_eq!(delays.playback_time(), delays.len_time());
}
