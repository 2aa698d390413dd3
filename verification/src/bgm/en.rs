//! Encoding of [`Bgm`](crate::bgm::Bgm) values into song files.

use vstd::prelude::*;

use crate::bgm::cmd::{commands_of, polyphony_state, Command, CommandSeq, Event, MarkerId};
use crate::bgm::{
    drum_bytes, instrument_bytes, spec_parent_idx, Bgm, Drum, Instrument, Polyphony, Segment, Track, TrackList, TrackListId,
};
use crate::bgm::de::bgm_magic;
use crate::bgm::mamar::{has_names, Metadata, MAGIC, MAGIC_MAX_LEN};
use std::collections::HashMap;
use crate::bgm::cmd::{delay_of, lemma_time_at_len, lemma_time_at_monotone, lemma_time_at_step, polyphony_defined, time_at, total_time};
use crate::rw::{
    align_up, cstring_field, i16_bytes, i8_byte, lemma_overwrite_concat, overwrite, u16_bytes, u32_bytes, zeros, IoError,
    WriteExt, Writer,
};

verus! {

broadcast use crate::rw::group_rw;

/// Why a song could not be encoded.
#[derive(Debug, Clone, PartialEq, Eq)]
pub enum Error {
    /// A detour names a start marker that its sequence does not hold.
    MissingStartMarker(MarkerId),
    /// A detour names an end marker that its sequence does not hold.
    MissingEndMarker(MarkerId),
    /// A detour's end marker comes before its start marker.
    UnorderedMarkers(MarkerId),
    /// A detour's end marker lies more than 255 bytes after its start marker.
    EndMarkerTooFarAway(MarkerId),
    /// The song is too large for the game to load.
    TooBig,
    /// Writing failed.
    Io(IoError),
}

impl Drum {
    /// Writes the drum's twelve bytes.
    pub fn encode(&self, f: &mut Writer) -> (r: Result<(), Error>)
        requires
            old(f).cursor() + 12 <= usize::MAX,
        ensures
            r is Ok,
            final(f).contents() == overwrite(old(f).contents(), old(f).cursor(), drum_bytes(*self)),
            final(f).cursor() == old(f).cursor() + 12,
    {
        let bytes = [
            self.bank,
            self.patch,
            self.coarse_tune,
            self.fine_tune,
            self.volume,
            byte_of_i8(self.pan),
            self.reverb,
            self.rand_tune,
            self.rand_volume,
            self.rand_pan,
            self.rand_reverb,
            self.pad_0b,
        ];
        assert(bytes@ =~= drum_bytes(*self));
        match f.write_all(&bytes) {
            Ok(()) => Ok(()),
            Err(e) => Err(Error::Io(e)),
        }
    }
}

impl Instrument {
    /// Writes the instrument's eight bytes.
    pub fn encode(&self, f: &mut Writer) -> (r: Result<(), Error>)
        requires
            old(f).cursor() + 8 <= usize::MAX,
        ensures
            r is Ok,
            final(f).contents() == overwrite(old(f).contents(), old(f).cursor(), instrument_bytes(*self)),
            final(f).cursor() == old(f).cursor() + 8,
    {
        let bytes = [
            self.bank,
            self.patch,
            self.volume,
            byte_of_i8(self.pan),
            self.reverb,
            self.coarse_tune,
            self.fine_tune,
            self.pad_07,
        ];
        assert(bytes@ =~= instrument_bytes(*self));
        match f.write_all(&bytes) {
            Ok(()) => Ok(()),
            Err(e) => Err(Error::Io(e)),
        }
    }
}

fn byte_of_i8(v: i8) -> (r: u8)
    ensures
        r == i8_byte(v),
{
    if v < 0 {
        (v as i16 + 256) as u8
    } else {
        v as u8
    }
}

/// The 16-bit word after the command word of a loop-like segment entry: the label in bits 0-4
/// and the iteration count in bits 5-11.
pub open spec fn loop_word(label_index: u8, iter_count: u8) -> u16 {
    ((label_index % 32) + (iter_count % 128) * 32) as u16
}

/// The bytes that a segment entry is written as. A subsegment's track offset is filled in
/// later. The entries of the two unknown kinds keep only their second word, written where the
/// first would go.
pub open spec fn segment_bytes(seg: Segment) -> Seq<u8> {
    match seg {
        Segment::Subseg { .. } => u16_bytes(0x1000) + u16_bytes(0),
        Segment::Wait { .. } => u16_bytes(0x4000) + u16_bytes(0),
        Segment::StartLoop { label_index, .. } => u16_bytes(0x3000) + u16_bytes(label_index),
        Segment::EndLoop { label_index, iter_count, .. } => u16_bytes(0x5000) + u16_bytes(loop_word(label_index, iter_count)),
        Segment::Unknown6 { label_index, iter_count, .. } => u16_bytes(loop_word(label_index, iter_count)),
        Segment::Unknown7 { label_index, iter_count, .. } => u16_bytes(loop_word(label_index, iter_count)),
    }
}

impl Segment {
    /// Writes the segment entry. For a subsegment, returns where its track offset goes and the
    /// track list it names.
    pub fn encode(&self, f: &mut Writer) -> (r: Result<Option<(u64, TrackListId)>, Error>)
        requires
            old(f).cursor() + 4 <= usize::MAX,
        ensures
            final(f).contents() == overwrite(old(f).contents(), old(f).cursor(), segment_bytes(*self)),
            final(f).cursor() == old(f).cursor() + segment_bytes(*self).len(),
            r == Ok::<Option<(u64, TrackListId)>, Error>(
                match *self {
                    Segment::Subseg { track_list, .. } => Some(((old(f).cursor() + 2) as u64, track_list)),
                    _ => None,
                },
            ),
    {
        let ghost c0 = f.contents();
        let ghost p = f.cursor();
        let (first, second): (u16, u16) = match self {
            Segment::Subseg { .. } => (0x1000, 0),
            Segment::Wait { .. } => (0x4000, 0),
            Segment::StartLoop { label_index, .. } => (0x3000, *label_index),
            Segment::EndLoop { label_index, iter_count, .. } => (
                0x5000,
                ((*label_index % 32) as u16) + ((*iter_count % 128) as u16) * 32,
            ),
            Segment::Unknown6 { label_index, iter_count, .. } => (
                0x6000,
                ((*label_index % 32) as u16) + ((*iter_count % 128) as u16) * 32,
            ),
            Segment::Unknown7 { label_index, iter_count, .. } => (
                0x7000,
                ((*label_index % 32) as u16) + ((*iter_count % 128) as u16) * 32,
            ),
        };
        let _ = f.write_u16_be(first);
        let tracks_pos = f.position() as u64;
        match self {
            Segment::Unknown6 { .. } | Segment::Unknown7 { .. } => {
                f.seek(f.position() - 2);
            },
            _ => {},
        }
        let ghost c1 = f.contents();
        let _ = f.write_u16_be(second);
        proof {
            match *self {
                Segment::Unknown6 { .. } | Segment::Unknown7 { .. } => {
                    assert(overwrite(c1, p, u16_bytes(second)) =~= overwrite(c0, p, u16_bytes(second)));
                },
                _ => {
                    assert(overwrite(c1, p + 2, u16_bytes(second)) =~= overwrite(
                        c0,
                        p,
                        u16_bytes(first) + u16_bytes(second),
                    ));
                },
            }
        }
        match self {
            Segment::Subseg { track_list, .. } => Ok(Some((tracks_pos, *track_list))),
            _ => Ok(None),
        }
    }
}

/// The bytes that a delay of `d` ticks is written as: one byte below 0x78; above, a byte
/// `0x78 | n` and an extra byte count up to `0x78 + 256 * n + extra` ticks (`n` at most 7,
/// `extra` at most 0x78), and the rest as another delay.
pub open spec fn delay_bytes(d: nat) -> Seq<u8>
    decreases d,
{
    if d == 0 {
        Seq::empty()
    } else if d < 0x78 {
        seq![d as u8]
    } else {
        let d1 = (d - 0x78) as nat;
        let mask = if d1 / 256 < 7 { d1 / 256 } else { 7 };
        let d2 = (d1 - mask * 256) as nat;
        let extra = if d2 > 0x78 { 0x78 } else { d2 };
        seq![(0x78 + mask) as u8, extra as u8] + delay_bytes((d2 - extra) as nat)
    }
}

/// The bytes that a note is written as; lengths above 0xD3FF are cut to it, and lengths from
/// 0xC0 on take two bytes.
pub open spec fn note_bytes(pitch: u8, velocity: u8, length: u16) -> Seq<u8> {
    let l = if length > 0xD3FF { 0xD3FF } else { length };
    if l < 0xC0 {
        seq![pitch, velocity, l as u8]
    } else {
        let l2 = (l - 0xC0) as u16;
        seq![pitch, velocity, ((l2 / 256) as u8) | 0xC0u8, (l2 % 256) as u8]
    }
}

/// The bytes that a command is written as. A detour's operands are filled in once every marker
/// is placed; a marker takes no bytes.
pub open spec fn command_bytes(c: Command) -> Seq<u8> {
    match c {
        Command::End => seq![0u8],
        Command::Delay(d) => delay_bytes(d as nat),
        Command::Note { pitch, velocity, length } => note_bytes(pitch, velocity, length),
        Command::MasterTempo(bpm) => seq![0xE0u8] + u16_bytes(bpm),
        Command::MasterVolume(v) => seq![0xE1u8, v],
        Command::MasterPitchShift { cent } => seq![0xE2u8, cent],
        Command::UnkCmdE3 { effect_type } => seq![0xE3u8, effect_type],
        Command::MasterTempoFade { time, value } => seq![0xE4u8] + u16_bytes(time) + u16_bytes(value),
        Command::MasterVolumeFade { time, volume } => seq![0xE5u8] + u16_bytes(time) + seq![volume],
        Command::MasterEffect { index, value } => seq![0xE6u8, index, value],
        Command::TrackOverridePatch { bank, patch } => seq![0xE8u8, bank, patch],
        Command::SubTrackVolume(a) => seq![0xE9u8, a],
        Command::SubTrackPan(a) => seq![0xEAu8, i8_byte(a)],
        Command::SubTrackReverb(a) => seq![0xEBu8, a],
        Command::SegTrackVolume(a) => seq![0xECu8, a],
        Command::SubTrackCoarseTune(a) => seq![0xEDu8, a],
        Command::SubTrackFineTune(a) => seq![0xEEu8, a],
        Command::SegTrackTune { bend } => seq![0xEFu8] + i16_bytes(bend),
        Command::TrackTremolo { amount, speed, time } => seq![0xF0u8, amount, speed, time],
        Command::TrackTremoloSpeed(v) => seq![0xF1u8, v],
        Command::TrackTremoloTime { time } => seq![0xF2u8, time],
        Command::TrackTremoloStop => seq![0xF3u8],
        Command::UnkCmdF4 { pan0, pan1 } => seq![0xF4u8, pan0, pan1],
        Command::SetTrackVoice { index } => seq![0xF5u8, index],
        Command::TrackVolumeFade { time, value } => seq![0xF6u8] + u16_bytes(time) + seq![value],
        Command::SubTrackReverbType { index } => seq![0xF7u8, index],
        Command::Jump { unk_00, unk_02 } => seq![0xFCu8] + u16_bytes(unk_00) + seq![unk_02],
        Command::EventTrigger { event_info } => seq![0xFDu8] + u32_bytes(event_info),
        Command::Detour { .. } => seq![0xFEu8, 0u8, 0u8, 0u8],
        Command::UnkCmdFF { unk_00, unk_01, unk_02 } => seq![0xFFu8, unk_00, unk_01, unk_02],
        Command::Marker { .. } => Seq::empty(),
    }
}

/// The bytes of a list of commands before detours are filled in.
pub open spec fn commands_bytes(cmds: Seq<Command>) -> Seq<u8>
    decreases cmds.len(),
{
    if cmds.len() == 0 {
        Seq::empty()
    } else {
        commands_bytes(cmds.drop_last()) + command_bytes(cmds.last())
    }
}

/// The markers of `cmds` in order: label and byte offset.
pub open spec fn markers_of(cmds: Seq<Command>) -> Seq<(Seq<char>, int)>
    decreases cmds.len(),
{
    if cmds.len() == 0 {
        Seq::empty()
    } else {
        let m = markers_of(cmds.drop_last());
        match cmds.last() {
            Command::Marker { label } => m.push((label@, commands_bytes(cmds.drop_last()).len() as int)),
            _ => m,
        }
    }
}

/// The offset of the last marker of `ms` labelled `label`.
pub open spec fn find_marker(ms: Seq<(Seq<char>, int)>, label: Seq<char>) -> Option<int>
    decreases ms.len(),
{
    if ms.len() == 0 {
        None
    } else if ms.last().0 == label {
        Some(ms.last().1)
    } else {
        find_marker(ms.drop_last(), label)
    }
}

/// Why the detours of a sequence could not be filled in, with the label concerned.
pub enum MarkerFault {
    MissingStart(Seq<char>),
    MissingEnd(Seq<char>),
    Unordered(Seq<char>),
    TooFar(Seq<char>),
}

/// Whether `e` reports the fault `m`.
pub open spec fn fault_shows(e: Error, m: MarkerFault) -> bool {
    match m {
        MarkerFault::MissingStart(l) => e matches Error::MissingStartMarker(x) && x@ == l,
        MarkerFault::MissingEnd(l) => e matches Error::MissingEndMarker(x) && x@ == l,
        MarkerFault::Unordered(l) => e matches Error::UnorderedMarkers(x) && x@ == l,
        MarkerFault::TooFar(l) => e matches Error::EndMarkerTooFarAway(x) && x@ == l,
    }
}

/// The operands of a detour between the markers `sl` and `el` of `cmds` written at `base`: the
/// start as a 16-bit absolute position, and the length up to the end marker.
pub open spec fn detour_operands(cmds: Seq<Command>, base: int, sl: Seq<char>, el: Seq<char>) -> Result<(u16, u8), MarkerFault> {
    match find_marker(markers_of(cmds), sl) {
        None => Err(MarkerFault::MissingStart(sl)),
        Some(so) => match find_marker(markers_of(cmds), el) {
            None => Err(MarkerFault::MissingEnd(el)),
            Some(eo) => {
                let s16 = (base + so) % 0x1_0000;
                let e16 = (base + eo) % 0x1_0000;
                if e16 < s16 {
                    Err(MarkerFault::Unordered(el))
                } else if e16 - s16 > 255 {
                    Err(MarkerFault::TooFar(el))
                } else {
                    Ok((s16 as u16, (e16 - s16) as u8))
                }
            },
        },
    }
}

/// `bytes` with the detours of `cmds` from the `i`-th on filled in.
pub open spec fn fill_detours(cmds: Seq<Command>, base: int, bytes: Seq<u8>, i: int) -> Result<Seq<u8>, MarkerFault>
    decreases cmds.len() - i,
{
    if i < 0 || i >= cmds.len() {
        Ok(bytes)
    } else {
        match cmds[i] {
            Command::Detour { start_label, end_label } => match detour_operands(cmds, base, start_label@, end_label@) {
                Err(e) => Err(e),
                Ok((s16, l)) => {
                    let o = commands_bytes(cmds.take(i)).len() as int;
                    fill_detours(
                        cmds,
                        base,
                        bytes.update(o + 1, (s16 / 256) as u8).update(o + 2, (s16 % 256) as u8).update(o + 3, l),
                        i + 1,
                    )
                },
            },
            _ => fill_detours(cmds, base, bytes, i + 1),
        }
    }
}

/// The bytes that the commands `cmds` are written as at position `base`.
pub open spec fn encode_commands(cmds: Seq<Command>, base: int) -> Result<Seq<u8>, MarkerFault> {
    fill_detours(cmds, base, commands_bytes(cmds), 0)
}

fn push_delay(out: &mut Vec<u8>, d: usize)
    ensures
        final(out)@ == old(out)@ + delay_bytes(d as nat),
{
    let ghost start = out@;
    let mut delay = d;
    while delay > 0
        invariant
            start + delay_bytes(d as nat) == out@ + delay_bytes(delay as nat),
        decreases delay,
    {
        let ghost before = out@;
        let ghost rest = delay_bytes(delay as nat);
        if delay < 0x78 {
            out.push(delay as u8);
            delay = 0;
            assert(out@ =~= before + rest);
        } else {
            let d1 = delay - 0x78;
            let mask = if d1 / 256 < 7 { d1 / 256 } else { 7 };
            let d2 = d1 - mask * 256;
            let extra = if d2 > 0x78 { 0x78 } else { d2 };
            out.push((0x78 + mask) as u8);
            out.push(extra as u8);
            delay = d2 - extra;
            assert(before + rest =~= out@ + delay_bytes(delay as nat));
        }
    }
    assert(delay_bytes(0) =~= Seq::<u8>::empty());
    assert(out@ =~= start + delay_bytes(d as nat));
}

fn push_word(out: &mut Vec<u8>, w: u16)
    ensures
        final(out)@ == old(out)@ + u16_bytes(w),
{
    out.push((w / 256) as u8);
    out.push((w % 256) as u8);
    assert(final(out)@ =~= old(out)@ + u16_bytes(w));
}

#[verifier::rlimit(40)]
fn push_command(out: &mut Vec<u8>, c: &Command)
    ensures
        final(out)@ == old(out)@ + command_bytes(*c),
{
    let ghost start = out@;
    match c {
        Command::End => out.push(0),
        Command::Delay(d) => {
            push_delay(out, *d);
        },
        Command::Note { pitch, velocity, length } => {
            let l: u16 = if *length > 0xD3FF { 0xD3FF } else { *length };
            out.push(*pitch);
            out.push(*velocity);
            if l < 0xC0 {
                out.push(l as u8);
            } else {
                let l2 = l - 0xC0;
                out.push(((l2 / 256) as u8) | 0xC0u8);
                out.push((l2 % 256) as u8);
            }
        },
        Command::MasterTempo(bpm) => {
            out.push(0xE0);
            push_word(out, *bpm);
        },
        Command::MasterVolume(v) => {
            out.push(0xE1);
            out.push(*v);
        },
        Command::MasterPitchShift { cent } => {
            out.push(0xE2);
            out.push(*cent);
        },
        Command::UnkCmdE3 { effect_type } => {
            out.push(0xE3);
            out.push(*effect_type);
        },
        Command::MasterTempoFade { time, value } => {
            out.push(0xE4);
            push_word(out, *time);
            push_word(out, *value);
        },
        Command::MasterVolumeFade { time, volume } => {
            out.push(0xE5);
            push_word(out, *time);
            out.push(*volume);
        },
        Command::MasterEffect { index, value } => {
            out.push(0xE6);
            out.push(*index);
            out.push(*value);
        },
        Command::TrackOverridePatch { bank, patch } => {
            out.push(0xE8);
            out.push(*bank);
            out.push(*patch);
        },
        Command::SubTrackVolume(a) => {
            out.push(0xE9);
            out.push(*a);
        },
        Command::SubTrackPan(a) => {
            out.push(0xEA);
            out.push(byte_of_i8(*a));
        },
        Command::SubTrackReverb(a) => {
            out.push(0xEB);
            out.push(*a);
        },
        Command::SegTrackVolume(a) => {
            out.push(0xEC);
            out.push(*a);
        },
        Command::SubTrackCoarseTune(a) => {
            out.push(0xED);
            out.push(*a);
        },
        Command::SubTrackFineTune(a) => {
            out.push(0xEE);
            out.push(*a);
        },
        Command::SegTrackTune { bend } => {
            out.push(0xEF);
            let w: u16 = if *bend < 0 { (*bend as i32 + 0x1_0000) as u16 } else { *bend as u16 };
            push_word(out, w);
        },
        Command::TrackTremolo { amount, speed, time } => {
            out.push(0xF0);
            out.push(*amount);
            out.push(*speed);
            out.push(*time);
        },
        Command::TrackTremoloSpeed(v) => {
            out.push(0xF1);
            out.push(*v);
        },
        Command::TrackTremoloTime { time } => {
            out.push(0xF2);
            out.push(*time);
        },
        Command::TrackTremoloStop => out.push(0xF3),
        Command::UnkCmdF4 { pan0, pan1 } => {
            out.push(0xF4);
            out.push(*pan0);
            out.push(*pan1);
        },
        Command::SetTrackVoice { index } => {
            out.push(0xF5);
            out.push(*index);
        },
        Command::TrackVolumeFade { time, value } => {
            out.push(0xF6);
            push_word(out, *time);
            out.push(*value);
        },
        Command::SubTrackReverbType { index } => {
            out.push(0xF7);
            out.push(*index);
        },
        Command::Jump { unk_00, unk_02 } => {
            out.push(0xFC);
            push_word(out, *unk_00);
            out.push(*unk_02);
        },
        Command::EventTrigger { event_info } => {
            out.push(0xFD);
            push_word(out, (*event_info / 0x1_0000) as u16);
            push_word(out, (*event_info % 0x1_0000) as u16);
            assert(u16_bytes((*event_info / 0x1_0000) as u16) + u16_bytes((*event_info % 0x1_0000) as u16) =~= u32_bytes(
                *event_info,
            ));
        },
        Command::Detour { .. } => {
            out.push(0xFE);
            out.push(0);
            out.push(0);
            out.push(0);
        },
        Command::UnkCmdFF { unk_00, unk_01, unk_02 } => {
            out.push(0xFF);
            out.push(*unk_00);
            out.push(*unk_01);
            out.push(*unk_02);
        },
        Command::Marker { .. } => {},
    }
    assert(out@ =~= start + command_bytes(*c));
}

/// The bytes of the first `i + 1` commands are those of the first `i` and of the `i`-th.
pub proof fn lemma_bytes_take(cmds: Seq<Command>, i: int)
    requires
        0 <= i < cmds.len(),
    ensures
        commands_bytes(cmds.take(i + 1)) == commands_bytes(cmds.take(i)) + command_bytes(cmds[i]),
        markers_of(cmds.take(i + 1)) == match cmds[i] {
            Command::Marker { label } => markers_of(cmds.take(i)).push((label@, commands_bytes(cmds.take(i)).len() as int)),
            _ => markers_of(cmds.take(i)),
        },
{
    assert(cmds.take(i + 1).drop_last() =~= cmds.take(i));
}

proof fn lemma_bytes_len_mono(cmds: Seq<Command>, i: int, j: int)
    requires
        0 <= i <= j <= cmds.len(),
    ensures
        commands_bytes(cmds.take(i)).len() <= commands_bytes(cmds.take(j)).len(),
    decreases j - i,
{
    if i < j {
        lemma_bytes_len_mono(cmds, i, j - 1);
        lemma_bytes_take(cmds, j - 1);
    }
}

proof fn lemma_markers_bounded(cmds: Seq<Command>)
    ensures
        forall|k: int|
            0 <= k < markers_of(cmds).len() ==> 0 <= #[trigger] markers_of(cmds)[k].1 <= commands_bytes(cmds).len(),
    decreases cmds.len(),
{
    if cmds.len() > 0 {
        let d = cmds.drop_last();
        lemma_markers_bounded(d);
        assert forall|k: int| 0 <= k < markers_of(cmds).len() implies 0 <= #[trigger] markers_of(cmds)[k].1
            <= commands_bytes(cmds).len() by {
            if k < markers_of(d).len() {
                assert(markers_of(cmds)[k] == markers_of(d)[k]);
            }
        }
    }
}

proof fn lemma_find_bound(ms: Seq<(Seq<char>, int)>, label: Seq<char>, b: int)
    requires
        forall|k: int| 0 <= k < ms.len() ==> 0 <= #[trigger] ms[k].1 <= b,
    ensures
        find_marker(ms, label) matches Some(o) ==> 0 <= o <= b,
    decreases ms.len(),
{
    if ms.len() > 0 {
        assert(ms.last() == ms[ms.len() - 1]);
        lemma_find_bound(ms.drop_last(), label, b);
    }
}

/// The labels and offsets of recorded markers.
spec fn marker_views(ms: Seq<(String, usize)>) -> Seq<(Seq<char>, int)> {
    ms.map_values(|m: (String, usize)| (m.0@, m.1 as int))
}

fn find_marker_in(ms: &Vec<(String, usize)>, label: &String) -> (r: Option<usize>)
    ensures
        r matches Some(o) ==> find_marker(marker_views(ms@), label@) == Some(o as int),
        r is None ==> find_marker(marker_views(ms@), label@) is None,
{
    let mut k = ms.len();
    proof {
        assert(marker_views(ms@).take(k as int) =~= marker_views(ms@));
    }
    while k > 0
        invariant
            k <= ms@.len(),
            find_marker(marker_views(ms@), label@) == find_marker(marker_views(ms@).take(k as int), label@),
        decreases k,
    {
        let ghost t = marker_views(ms@).take(k as int);
        if ms[k - 1].0 == *label {
            assert(t.last() == (ms@[k - 1].0@, ms@[k - 1].1 as int));
            return Some(ms[k - 1].1);
        }
        assert(t.drop_last() =~= marker_views(ms@).take(k - 1));
        k = k - 1;
    }
    None
}

impl CommandSeq {
    /// Writes the commands at the writer's position (see [`encode_commands`]): detours get the
    /// absolute position of their start marker and the length up to their end marker.
    pub fn encode(&self, f: &mut Writer) -> (r: Result<(), Error>)
        ensures
            old(f).cursor() + commands_bytes(commands_of(self@)).len() > usize::MAX ==> r == Err::<(), Error>(
                Error::Io(IoError::TooLarge),
            ),
            old(f).cursor() + commands_bytes(commands_of(self@)).len() <= usize::MAX ==> match encode_commands(commands_of(self@), old(f).cursor()) {
                Ok(bytes) => r is Ok && final(f).contents() == overwrite(old(f).contents(), old(f).cursor(), bytes)
                    && final(f).cursor() == old(f).cursor() + bytes.len(),
                Err(m) => r matches Err(e) && fault_shows(e, m),
            },
    {
        let base = f.position();
        let events = self.as_slice();
        let ghost cmds = commands_of(self@);
        let n = events.len();
        let mut out: Vec<u8> = Vec::new();
        let mut offsets: Vec<usize> = Vec::new();
        let mut markers: Vec<(String, usize)> = Vec::new();
        let mut i: usize = 0;
        proof {
            assert(cmds.take(0) =~= Seq::<Command>::empty());
            assert(cmds.take(cmds.len() as int) =~= cmds);
        }
        while i < n
            invariant
                n == events@.len(),
                events@ == self@,
                cmds == commands_of(self@),
                cmds.len() == n,
                i <= n,
                cmds.take(n as int) == cmds,
                out@ == commands_bytes(cmds.take(i as int)),
                offsets@.len() == i,
                forall|j: int| 0 <= j < i ==> #[trigger] offsets@[j] == commands_bytes(cmds.take(j)).len(),
                marker_views(markers@) == markers_of(cmds.take(i as int)),
                base == old(f).cursor(),
                *f == *old(f),
            decreases n - i,
        {
            proof {
                lemma_bytes_take(cmds, i as int);
                lemma_bytes_len_mono(cmds, i + 1, n as int);
                assert(cmds[i as int] == events@[i as int].command);
            }
            offsets.push(out.len());
            match &events[i].command {
                Command::Marker { label } => {
                    markers.push((label.clone(), out.len()));
                    assert(marker_views(markers@) =~= markers_of(cmds.take(i + 1)));
                },
                _ => {},
            }
            push_command(&mut out, &events[i].command);
            i = i + 1;
        }
        let ghost total = out@;
        if out.len() > usize::MAX - base {
            return Err(Error::Io(IoError::TooLarge));
        }
        let mut j: usize = 0;
        while j < n
            invariant
                n == events@.len(),
                events@ == self@,
                cmds == commands_of(self@),
                cmds.len() == n,
                j <= n,
                base + commands_bytes(cmds).len() <= usize::MAX,
                cmds.take(n as int) == cmds,
                total == commands_bytes(cmds),
                out@.len() == total.len(),
                offsets@.len() == n,
                forall|k: int| 0 <= k < n ==> #[trigger] offsets@[k] == commands_bytes(cmds.take(k)).len(),
                marker_views(markers@) == markers_of(cmds),
                encode_commands(cmds, base as int) == fill_detours(cmds, base as int, out@, j as int),
                base == old(f).cursor(),
                *f == *old(f),
            decreases n - j,
        {
            proof {
                assert(cmds[j as int] == events@[j as int].command);
            }
            match &events[j].command {
                Command::Detour { start_label, end_label } => {
                    let so = match find_marker_in(&markers, start_label) {
                        Some(o) => o,
                        None => {
                            assert(detour_operands(cmds, base as int, start_label@, end_label@) == Err::<(u16, u8), MarkerFault>(
                                MarkerFault::MissingStart(start_label@),
                            ));
                            return Err(Error::MissingStartMarker(start_label.clone()));
                        },
                    };
                    let eo = match find_marker_in(&markers, end_label) {
                        Some(o) => o,
                        None => {
                            assert(detour_operands(cmds, base as int, start_label@, end_label@) == Err::<(u16, u8), MarkerFault>(
                                MarkerFault::MissingEnd(end_label@),
                            ));
                            return Err(Error::MissingEndMarker(end_label.clone()));
                        },
                    };
                    proof {
                        lemma_markers_bounded(cmds);
                        lemma_find_bound(markers_of(cmds), start_label@, commands_bytes(cmds).len() as int);
                        lemma_find_bound(markers_of(cmds), end_label@, commands_bytes(cmds).len() as int);
                    }
                    let s16 = ((base + so) % 0x1_0000) as u16;
                    let e16 = ((base + eo) % 0x1_0000) as u16;
                    if e16 < s16 {
                        return Err(Error::UnorderedMarkers(end_label.clone()));
                    }
                    let length = e16 - s16;
                    if length > 255 {
                        return Err(Error::EndMarkerTooFarAway(end_label.clone()));
                    }
                    let o = offsets[j];
                    proof {
                        lemma_bytes_take(cmds, j as int);
                        lemma_bytes_len_mono(cmds, j + 1, n as int);
                    }
                    out.set(o + 1, (s16 / 256) as u8);
                    out.set(o + 2, (s16 % 256) as u8);
                    out.set(o + 3, length as u8);
                },
                _ => {},
            }
            j = j + 1;
        }
        match f.write_all(out.as_slice()) {
            Ok(()) => Ok(()),
            Err(e) => Err(Error::Io(e)),
        }
    }
}

/// The number of voices that a track's polyphonic index stands for, inverted: 0 and 1 as they
/// are, 2 as 5, 3 as 6, and more as 7.
pub open spec fn spec_polyphonic_idx_of(polyphony: u8) -> u8 {
    if polyphony == 0 {
        0
    } else if polyphony == 1 {
        1
    } else if polyphony == 2 {
        5
    } else if polyphony == 3 {
        6
    } else {
        7
    }
}

/// Performs the inverse of the game's table from polyphonic index to voice count.
pub fn polyphony_to_polyphonic_idx(polyphony: u8) -> (r: u8)
    ensures
        r == spec_polyphonic_idx_of(polyphony),
{
    match polyphony {
        0 => 0,
        1 => 1,
        2 => 5,
        3 => 6,
        _ => 7,
    }
}

/// A writer's contents and position, as the song encoding goes.
pub struct Out {
    pub bytes: Seq<u8>,
    pub pos: int,
}

/// The contents and position of `w`.
pub open spec fn out_of(w: Writer) -> Out {
    Out { bytes: w.contents(), pos: w.cursor() }
}

/// Writing `d` at the position.
pub open spec fn emit(o: Out, d: Seq<u8>) -> Result<Out, IoError> {
    if o.pos + d.len() > usize::MAX {
        Err(IoError::TooLarge)
    } else {
        Ok(Out { bytes: overwrite(o.bytes, o.pos, d), pos: o.pos + d.len() })
    }
}

/// Writing `d` at `p`, keeping the position.
pub open spec fn emit_at(o: Out, p: int, d: Seq<u8>) -> Result<Out, IoError> {
    if p + d.len() > usize::MAX {
        Err(IoError::TooLarge)
    } else {
        Ok(Out { bytes: overwrite(o.bytes, p, d), pos: o.pos })
    }
}

/// Moving to `p`, which must be a position that the writer can hold.
pub open spec fn seek_out(o: Out, p: int) -> Result<Out, IoError> {
    if p > usize::MAX {
        Err(IoError::TooLarge)
    } else {
        Ok(Out { bytes: o.bytes, pos: p })
    }
}

/// Writing zeros up to the next multiple of `a`.
pub open spec fn align_out(o: Out, a: int) -> Result<Out, IoError> {
    if o.pos % a == 0 {
        Ok(o)
    } else if align_up(o.pos, a) > usize::MAX {
        Err(IoError::TooLarge)
    } else {
        Ok(Out { bytes: overwrite(o.bytes, o.pos, zeros((align_up(o.pos, a) - o.pos) as nat)), pos: align_up(o.pos, a) })
    }
}

/// A position in units of 4 bytes, as a 16-bit header field holds it.
pub open spec fn quarter(pos: int) -> u16 {
    ((pos / 4) % 0x1_0000) as u16
}

/// The header: signature, room for the size, the name's bytes (of which the following fields
/// overwrite all but four), the variation count, and room for the offsets and counts.
pub open spec fn encode_header(b: Bgm, o: Out) -> Result<Out, IoError> {
    match emit(Out { bytes: o.bytes, pos: 0 }, bgm_magic() + u32_bytes(0) + vstd::utf8::encode_utf8(b.name@)) {
        Err(e) => Err(e),
        Ok(o1) => emit(
            Out { bytes: o1.bytes, pos: 0x0C },
            seq![0u8, 0u8, 0u8, 0u8, (b.variations@.len() % 256) as u8, 0u8, 0u8, 0u8] + zeros(8) + u16_bytes(0)
                + u16_bytes((b.drums@.len() % 0x1_0000) as u16) + u16_bytes(0) + u16_bytes(
                (b.instruments@.len() % 0x1_0000) as u16,
            ),
        ),
    }
}

/// The bytes of a list of drums.
pub open spec fn drums_bytes(ds: Seq<Drum>) -> Seq<u8>
    decreases ds.len(),
{
    if ds.len() == 0 {
        Seq::empty()
    } else {
        drums_bytes(ds.drop_last()) + drum_bytes(ds.last())
    }
}

/// The bytes of a list of instruments.
pub open spec fn instruments_bytes(is: Seq<Instrument>) -> Seq<u8>
    decreases is.len(),
{
    if is.len() == 0 {
        Seq::empty()
    } else {
        instruments_bytes(is.drop_last()) + instrument_bytes(is.last())
    }
}

/// A table (of drums or instruments) whose offset field is at `field`: aligned to 4, its
/// position in the field, then its bytes; nothing when empty.
pub open spec fn encode_table(o: Out, field: int, bytes: Seq<u8>) -> Result<Out, IoError> {
    if bytes.len() == 0 {
        Ok(o)
    } else {
        match align_out(o, 4) {
            Err(e) => Err(e),
            Ok(o1) => match emit_at(o1, field, u16_bytes(quarter(o1.pos))) {
                Err(e) => Err(e),
                Ok(o2) => emit(o2, bytes),
            },
        }
    }
}

/// What remains to be written after the segments: a track list that a subsegment names
/// (with where its offset goes and where its variation starts), or a byte range copied through.
pub enum Pending {
    List { id: TrackListId, tracks_pos: int, segment_start: int },
    Unknown { index: int },
}

/// Writing the entries of a variation from the `i`-th on, noting the track lists to write.
/// Room for four bytes is needed for every entry.
pub open spec fn encode_segments(segs: Seq<Segment>, o: Out, i: int, segment_start: int, todo: Seq<Pending>) -> Result<
    (Out, Seq<Pending>),
    IoError,
>
    decreases segs.len() - i,
{
    if i < 0 || i >= segs.len() {
        Ok((o, todo))
    } else if o.pos + 4 > usize::MAX {
        Err(IoError::TooLarge)
    } else {
        let o1 = Out { bytes: overwrite(o.bytes, o.pos, segment_bytes(segs[i])), pos: o.pos + segment_bytes(segs[i]).len() };
        let todo1 = match segs[i] {
            Segment::Subseg { track_list, .. } => todo.push(
                Pending::List { id: track_list, tracks_pos: o.pos + 2, segment_start },
            ),
            _ => todo,
        };
        encode_segments(segs, o1, i + 1, segment_start, todo1)
    }
}

/// Writing the present variation `var` whose header field is the `v`-th: aligned to 4, its
/// position in the field, its entries and a zero word.
pub open spec fn encode_variation(var: crate::bgm::Variation, o: Out, v: int, todo: Seq<Pending>) -> Result<(Out, Seq<Pending>), IoError> {
    match align_out(o, 4) {
        Err(e) => Err(e),
        Ok(o1) => match emit_at(o1, 0x14 + 2 * v, u16_bytes(quarter(o1.pos))) {
            Err(e) => Err(e),
            Ok(o2) => match encode_segments(var.segments@, o2, 0, o2.pos, todo) {
                Err(e) => Err(e),
                Ok((o3, t3)) => match emit(o3, seq![0u8, 0u8, 0u8, 0u8]) {
                    Err(e) => Err(e),
                    Ok(o4) => Ok((o4, t3)),
                },
            },
        },
    }
}

/// Writing the variations from the `v`-th on (see [`encode_variation`]).
pub open spec fn encode_variations(b: Bgm, o: Out, v: int, todo: Seq<Pending>) -> Result<(Out, Seq<Pending>), IoError>
    decreases b.variations@.len() - v,
{
    if v < 0 || v >= b.variations@.len() {
        Ok((o, todo))
    } else {
        match b.variations@[v] {
            None => encode_variations(b, o, v + 1, todo),
            Some(var) => match encode_variation(var, o, v, todo) {
                Err(e) => Err(e),
                Ok((o4, t3)) => encode_variations(b, o4, v + 1, t3),
            },
        }
    }
}

/// The keys of the track lists of `b` that can be written.
pub open spec fn encodable_lists(b: Bgm) -> Set<TrackListId> {
    Set::new(|k: TrackListId| b.track_lists@.contains_key(k) && list_encodable(b.track_lists@[k]))
}

/// Whether every subsegment of `b` names one of its track lists, and one that can be written.
pub open spec fn subsegments_named(b: Bgm) -> bool {
    forall|v: int|
        0 <= v < b.variations@.len() ==> (#[trigger] b.variations@[v] matches Some(var) ==> segments_ok(
            var.segments@,
            encodable_lists(b),
        ))
}

/// The position by which pending writes are ordered: a track list's own position (0 when it
/// has none), a copied range's start.
pub open spec fn pending_key(b: Bgm, p: Pending) -> int {
    match p {
        Pending::List { id, .. } => match b.track_lists@[id].pos {
            Some(x) => x as int,
            None => 0,
        },
        Pending::Unknown { index } => b.unknowns@[index].range.start as int,
    }
}

/// Where `p` goes in the ordered `s`: after every entry whose key is at most its own.
pub open spec fn insertion_point(b: Bgm, s: Seq<Pending>, k: int) -> int
    decreases s.len(),
{
    if s.len() == 0 {
        0
    } else if pending_key(b, s.last()) <= k {
        s.len() as int
    } else {
        insertion_point(b, s.drop_last(), k)
    }
}

/// The pending writes of `items` from the `i`-th on inserted in `acc`: the stable ordering by
/// [`pending_key`].
pub open spec fn sort_pending(b: Bgm, items: Seq<Pending>, i: int, acc: Seq<Pending>) -> Seq<Pending>
    decreases items.len() - i,
{
    if i < 0 || i >= items.len() {
        acc
    } else {
        sort_pending(b, items, i + 1, acc.insert(insertion_point(b, acc, pending_key(b, items[i])), items[i]))
    }
}

/// The offset of a track list from its variation's start, in units of 4 bytes, as the 16-bit
/// field holds it (positions are 64-bit and wrap around).
pub open spec fn list_offset(tracks_start: int, segment_start: int) -> u16 {
    ((((tracks_start - segment_start) % 0x1_0000_0000_0000_0000) / 4) % 0x1_0000) as u16
}

/// The polyphonic index that a track is written with.
pub open spec fn polyphonic_idx_of(t: Track) -> u8 {
    match t.polyphony {
        Polyphony::Automatic => spec_polyphonic_idx_of(polyphony_state(t.commands@, t.commands@.len() as int).1),
        Polyphony::Manual { voices } => spec_polyphonic_idx_of(voices),
        Polyphony::Link { .. } => 5,
        Polyphony::Other { priority } => priority,
    }
}

/// The flags word of a track: disabled in bit 8, drum in bit 7, parent in bits 9-12 and the
/// polyphonic index in bits 13-15 (wider values spill into the bits above, and are cut).
pub open spec fn track_flags(t: Track) -> u16 {
    ((if t.is_disabled { 1u16 } else { 0u16 }) << 8u16) | ((polyphonic_idx_of(t) as u16) << 13u16) | (if t.is_drum_track {
        0x80u16
    } else {
        0u16
    }) | (((spec_parent_idx(t.polyphony) as u8) as u16) << 9u16)
}

/// `meta` with `name` appended to the names of list `k`.
pub open spec fn add_name(meta: Map<u16, Seq<Seq<char>>>, k: u16, name: Seq<char>) -> Map<u16, Seq<Seq<char>>> {
    meta.insert(k, (if meta.contains_key(k) { meta[k] } else { Seq::empty() }).push(name))
}

/// Writing the track headers from the `j`-th on, noting the names of the tracks after the first
/// under `list_no` and where each non-empty sequence's offset goes.
pub open spec fn encode_track_headers(
    tracks: Seq<Track>,
    o: Out,
    j: int,
    list_no: u16,
    meta: Map<u16, Seq<Seq<char>>>,
    todo: Seq<(int, int)>,
) -> Result<(Out, Map<u16, Seq<Seq<char>>>, Seq<(int, int)>), IoError>
    decreases tracks.len() - j,
{
    if j < 0 || j >= tracks.len() {
        Ok((o, meta, todo))
    } else {
        let t = tracks[j];
        let meta1 = if j != 0 { add_name(meta, list_no, t.name@) } else { meta };
        let todo1 = if t.commands@.len() != 0 { todo.push((o.pos, j)) } else { todo };
        match emit(o, u16_bytes(0) + u16_bytes(track_flags(t))) {
            Err(e) => Err(e),
            Ok(o1) => encode_track_headers(tracks, o1, j + 1, list_no, meta1, todo1),
        }
    }
}

/// Why a song could not be written.
pub enum EncodeFault {
    Marker(MarkerFault),
    Io(IoError),
}

/// Whether `e` reports the fault `m`.
pub open spec fn encode_fault_shows(e: Error, m: EncodeFault) -> bool {
    match m {
        EncodeFault::Marker(f) => fault_shows(e, f),
        EncodeFault::Io(io) => e == Error::Io(io),
    }
}

/// Writing the command sequences noted in `todo` from the `k`-th on, each after the others,
/// with its offset from the list's start `tracks_start` in its track header.
pub open spec fn encode_track_sequences(tracks: Seq<Track>, o: Out, tracks_start: int, todo: Seq<(int, int)>, k: int) -> Result<
    Out,
    EncodeFault,
>
    decreases todo.len() - k,
{
    if k < 0 || k >= todo.len() {
        Ok(o)
    } else {
        let (field, j) = todo[k];
        match emit_at(o, field, u16_bytes(((o.pos - tracks_start) % 0x1_0000) as u16)) {
            Err(e) => Err(EncodeFault::Io(e)),
            Ok(o1) => {
                let cmds = commands_of(tracks[j].commands@);
                if o1.pos + commands_bytes(cmds).len() > usize::MAX {
                    Err(EncodeFault::Io(IoError::TooLarge))
                } else {
                    match encode_commands(cmds, o1.pos) {
                        Err(m) => Err(EncodeFault::Marker(m)),
                        Ok(bytes) => encode_track_sequences(
                            tracks,
                            Out { bytes: overwrite(o1.bytes, o1.pos, bytes), pos: o1.pos + bytes.len() },
                            tracks_start,
                            todo,
                            k + 1,
                        ),
                    }
                }
            },
        }
    }
}

/// Writing a track list not written before, as the `count`-th: aligned to 4, at its own
/// position if it has one, its offset in the subsegment entry, then its track headers and
/// sequences. Gives the position it starts at.
pub open spec fn encode_list(
    tl: TrackList,
    o: Out,
    tracks_pos: int,
    segment_start: int,
    count: nat,
    meta: Map<u16, Seq<Seq<char>>>,
) -> Result<(Out, int, Map<u16, Seq<Seq<char>>>), EncodeFault> {
    match align_out(o, 4) {
        Err(e) => Err(EncodeFault::Io(e)),
        Ok(o1) => {
            let start = match tl.pos {
                Some(p) => p as int,
                None => o1.pos,
            };
            match seek_out(o1, start) {
                Err(e) => Err(EncodeFault::Io(e)),
                Ok(o2) => match emit_at(o2, tracks_pos, u16_bytes(list_offset(start, segment_start))) {
                    Err(e) => Err(EncodeFault::Io(e)),
                    Ok(o3) => match encode_track_headers(
                        tl.tracks@,
                        o3,
                        0,
                        ((count % 0x1_0000 + 1) % 0x1_0000) as u16,
                        meta,
                        Seq::empty(),
                    ) {
                        Err(e) => Err(EncodeFault::Io(e)),
                        Ok((o4, meta4, todo)) => match encode_track_sequences(tl.tracks@, o4, start, todo, 0) {
                            Err(e) => Err(e),
                            Ok(o5) => Ok((o5, start, meta4)),
                        },
                    },
                },
            }
        },
    }
}

/// Writing the pending items from the `i`-th on: track lists (a list written before only gets
/// its offset), and copied ranges at their place. `written` maps the lists written so far to
/// their start, `count` of them.
pub open spec fn encode_pending(
    b: Bgm,
    o: Out,
    items: Seq<Pending>,
    i: int,
    written: Map<TrackListId, int>,
    count: nat,
    meta: Map<u16, Seq<Seq<char>>>,
) -> Result<(Out, Map<u16, Seq<Seq<char>>>), EncodeFault>
    decreases items.len() - i,
{
    if i < 0 || i >= items.len() {
        Ok((o, meta))
    } else {
        match items[i] {
            Pending::List { id, tracks_pos, segment_start } => if written.contains_key(id) {
                match emit_at(o, tracks_pos, u16_bytes(list_offset(written[id], segment_start))) {
                    Err(e) => Err(EncodeFault::Io(e)),
                    Ok(o1) => encode_pending(b, o1, items, i + 1, written, count, meta),
                }
            } else {
                match encode_list(b.track_lists@[id], o, tracks_pos, segment_start, count, meta) {
                    Err(e) => Err(e),
                    Ok((o1, start, meta1)) => encode_pending(b, o1, items, i + 1, written.insert(id, start), count + 1, meta1),
                }
            },
            Pending::Unknown { index } => {
                let u = b.unknowns@[index];
                match seek_out(o, u.range.start as int) {
                    Err(e) => Err(EncodeFault::Io(e)),
                    Ok(o1) => match emit(o1, u.data@) {
                        Err(e) => Err(EncodeFault::Io(e)),
                        Ok(o2) => match seek_out(o2, u.range.end as int) {
                            Err(e) => Err(EncodeFault::Io(e)),
                            Ok(o3) => encode_pending(b, o3, items, i + 1, written, count, meta),
                        },
                    },
                }
            },
        }
    }
}

/// The size written into the header: the position at the end, on 32 bits, except for the two
/// songs whose stored size leaves out bytes at their end.
pub open spec fn file_size(b: Bgm, pos: int) -> u32 {
    let size = (pos % 0x1_0000_0000) as u32;
    if b.name@ == "117 "@ && size == 0x19A0 {
        0x1998
    } else if b.name@ == "322 "@ && size == 0x0D70 {
        0x0D64
    } else {
        size
    }
}

/// Encoding the song `b` into a writer holding `o`: what the writer holds afterwards and the
/// track names to store as editor metadata (see [`Bgm::encode`]).
pub open spec fn encode_bgm(b: Bgm, o: Out) -> Result<(Out, Map<u16, Seq<Seq<char>>>), EncodeFault> {
    match encode_header(b, o) {
        Err(e) => Err(EncodeFault::Io(e)),
        Ok(o1) => match encode_table(o1, 0x1C, drums_bytes(b.drums@)) {
            Err(e) => Err(EncodeFault::Io(e)),
            Ok(o2) => match encode_table(o2, 0x20, instruments_bytes(b.instruments@)) {
                Err(e) => Err(EncodeFault::Io(e)),
                Ok(o3) => match encode_variations(b, o3, 0, Seq::new(b.unknowns@.len(), |i: int| Pending::Unknown { index: i })) {
                    Err(e) => Err(EncodeFault::Io(e)),
                    Ok((o4, todo)) => match encode_pending(b, o4, sort_pending(b, todo, 0, Seq::empty()), 0, Map::empty(), 0, Map::empty()) {
                        Err(e) => Err(e),
                        Ok((o5, meta)) => match emit_at(o5, 4, u32_bytes(file_size(b, o5.pos))) {
                            Err(e) => Err(EncodeFault::Io(e)),
                            Ok(o6) => Ok((o6, meta)),
                        },
                    },
                },
            },
        },
    }
}

fn io_result(r: Result<(), IoError>) -> (o: Result<(), Error>)
    ensures
        r is Ok ==> o is Ok,
        r matches Err(e) ==> o == Err::<(), Error>(Error::Io(e)),
{
    match r {
        Ok(()) => Ok(()),
        Err(e) => Err(Error::Io(e)),
    }
}

fn align_writer(f: &mut Writer, a: u64) -> (r: Result<(), Error>)
    requires
        a > 0,
    ensures
        match align_out(out_of(*old(f)), a as int) {
            Ok(o) => r is Ok && out_of(*final(f)) == o,
            Err(e) => r == Err::<(), Error>(Error::Io(e)),
        },
{
    io_result(f.align(a))
}

impl Bgm {
    fn write_header(&self, f: &mut Writer) -> (r: Result<(), Error>)
        ensures
            match encode_header(*self, out_of(*old(f))) {
                Ok(o) => r is Ok && out_of(*final(f)) == o,
                Err(e) => r == Err::<(), Error>(Error::Io(e)),
            },
    {
        f.seek(0);
        let mut head: Vec<u8> = Vec::new();
        head.push(0x42);
        head.push(0x47);
        head.push(0x4D);
        head.push(0x20);
        head.push(0);
        head.push(0);
        head.push(0);
        head.push(0);
        let name = self.name.as_str().as_bytes();
        let mut i: usize = 0;
        while i < name.len()
            invariant
                i <= name@.len(),
                head@ == bgm_magic() + u32_bytes(0) + name@.take(i as int),
            decreases name@.len() - i,
        {
            head.push(name[i]);
            i = i + 1;
            assert(head@ =~= bgm_magic() + u32_bytes(0) + name@.take(i as int));
        }
        assert(name@.take(name@.len() as int) =~= name@);
        match f.write_all(head.as_slice()) {
            Ok(()) => {},
            Err(e) => {
                return Err(Error::Io(e));
            },
        }
        f.seek(0x0C);
        let drums = (self.drums.len() % 0x1_0000) as u16;
        let instruments = (self.instruments.len() % 0x1_0000) as u16;
        let rest: [u8; 24] = [
            0,
            0,
            0,
            0,
            (self.variations.len() % 256) as u8,
            0,
            0,
            0,
            0,
            0,
            0,
            0,
            0,
            0,
            0,
            0,
            0,
            0,
            (drums / 256) as u8,
            (drums % 256) as u8,
            0,
            0,
            (instruments / 256) as u8,
            (instruments % 256) as u8,
        ];
        assert(rest@ =~= seq![0u8, 0u8, 0u8, 0u8, (self.variations@.len() % 256) as u8, 0u8, 0u8, 0u8] + zeros(8) + u16_bytes(0)
            + u16_bytes(drums) + u16_bytes(0) + u16_bytes(instruments));
        io_result(f.write_all(&rest))
    }
}

fn write_drums(f: &mut Writer, drums: &Vec<Drum>) -> (r: Result<(), Error>)
    ensures
        match encode_table(out_of(*old(f)), 0x1C, drums_bytes(drums@)) {
            Ok(o) => r is Ok && out_of(*final(f)) == o,
            Err(e) => r == Err::<(), Error>(Error::Io(e)),
        },
{
    proof {
        lemma_drums_bytes_len(drums@);
    }
    if drums.len() == 0 {
        return Ok(());
    }
    match align_writer(f, 4) {
        Ok(()) => {},
        Err(e) => {
            return Err(e);
        },
    }
    let q = ((f.position() / 4) % 0x1_0000) as u16;
    match f.write_u16_be_at(q, 0x1C) {
        Ok(()) => {},
        Err(e) => {
            return Err(Error::Io(e));
        },
    }
    if drums.len() > (usize::MAX - f.position()) / 12 {
        return Err(Error::Io(IoError::TooLarge));
    }
    let ghost c0 = f.contents();
    let ghost p0 = f.cursor();
    let mut i: usize = 0;
    while i < drums.len()
        invariant
            i <= drums@.len(),
            p0 + 12 * drums@.len() <= usize::MAX,
            f.cursor() == p0 + 12 * i,
            f.contents() == overwrite(c0, p0, drums_bytes(drums@.take(i as int))),
            p0 >= 0,
        decreases drums@.len() - i,
    {
        let ghost before = f.contents();
        proof {
            lemma_drums_bytes_len(drums@.take(i as int));
            assert(drums@.take(i + 1).drop_last() =~= drums@.take(i as int));
        }
        let _ = drums[i].encode(f);
        proof {
            lemma_overwrite_concat(c0, p0, drums_bytes(drums@.take(i as int)), drum_bytes(drums@[i as int]));
        }
        i = i + 1;
    }
    assert(drums@.take(drums@.len() as int) =~= drums@);
    Ok(())
}

fn write_instruments(f: &mut Writer, instruments: &Vec<Instrument>) -> (r: Result<(), Error>)
    ensures
        match encode_table(out_of(*old(f)), 0x20, instruments_bytes(instruments@)) {
            Ok(o) => r is Ok && out_of(*final(f)) == o,
            Err(e) => r == Err::<(), Error>(Error::Io(e)),
        },
{
    proof {
        lemma_instruments_bytes_len(instruments@);
    }
    if instruments.len() == 0 {
        return Ok(());
    }
    match align_writer(f, 4) {
        Ok(()) => {},
        Err(e) => {
            return Err(e);
        },
    }
    let q = ((f.position() / 4) % 0x1_0000) as u16;
    match f.write_u16_be_at(q, 0x20) {
        Ok(()) => {},
        Err(e) => {
            return Err(Error::Io(e));
        },
    }
    if instruments.len() > (usize::MAX - f.position()) / 8 {
        return Err(Error::Io(IoError::TooLarge));
    }
    let ghost c0 = f.contents();
    let ghost p0 = f.cursor();
    let mut i: usize = 0;
    while i < instruments.len()
        invariant
            i <= instruments@.len(),
            p0 + 8 * instruments@.len() <= usize::MAX,
            f.cursor() == p0 + 8 * i,
            f.contents() == overwrite(c0, p0, instruments_bytes(instruments@.take(i as int))),
            p0 >= 0,
        decreases instruments@.len() - i,
    {
        proof {
            lemma_instruments_bytes_len(instruments@.take(i as int));
            assert(instruments@.take(i + 1).drop_last() =~= instruments@.take(i as int));
        }
        let _ = instruments[i].encode(f);
        proof {
            lemma_overwrite_concat(c0, p0, instruments_bytes(instruments@.take(i as int)), instrument_bytes(instruments@[i as int]));
        }
        i = i + 1;
    }
    assert(instruments@.take(instruments@.len() as int) =~= instruments@);
    Ok(())
}

pub proof fn lemma_drums_bytes_len(ds: Seq<Drum>)
    ensures
        drums_bytes(ds).len() == 12 * ds.len(),
    decreases ds.len(),
{
    if ds.len() > 0 {
        lemma_drums_bytes_len(ds.drop_last());
    }
}

pub proof fn lemma_instruments_bytes_len(is: Seq<Instrument>)
    ensures
        instruments_bytes(is).len() == 8 * is.len(),
    decreases is.len(),
{
    if is.len() > 0 {
        lemma_instruments_bytes_len(is.drop_last());
    }
}

/// A write left for after the segments (see [`Pending`]).
#[derive(Clone, Copy)]
enum ToWrite {
    TrackList { track_list_id: TrackListId, tracks_pos: u64, segment_start: u64 },
    Unknown { index: usize },
}

spec fn pending_of(t: ToWrite) -> Pending {
    match t {
        ToWrite::TrackList { track_list_id, tracks_pos, segment_start } => Pending::List {
            id: track_list_id,
            tracks_pos: tracks_pos as int,
            segment_start: segment_start as int,
        },
        ToWrite::Unknown { index } => Pending::Unknown { index: index as int },
    }
}

spec fn pending_view(v: Seq<ToWrite>) -> Seq<Pending> {
    v.map_values(|t: ToWrite| pending_of(t))
}

/// Whether a pending write names a track list among `ids` or one of `n` copied ranges.
pub open spec fn pending_ok(p: Pending, ids: Set<TrackListId>, n: nat) -> bool {
    match p {
        Pending::List { id, .. } => ids.contains(id),
        Pending::Unknown { index } => 0 <= index < n,
    }
}

/// Whether every pending write of `v` is fine (see [`pending_ok`]).
spec fn all_pending_ok(v: Seq<ToWrite>, ids: Set<TrackListId>, n: nat) -> bool {
    forall|k: int| 0 <= k < v.len() ==> pending_ok(#[trigger] pending_of(v[k]), ids, n)
}

/// Whether the subsegments of `segs` name track lists among `ids`.
pub open spec fn segments_ok(segs: Seq<Segment>, ids: Set<TrackListId>) -> bool {
    forall|i: int| 0 <= i < segs.len() ==> (#[trigger] segs[i] matches Segment::Subseg { track_list, .. } ==> ids.contains(track_list))
}

fn write_segments(f: &mut Writer, segs: &Vec<Segment>, segment_start: usize, todo: &mut Vec<ToWrite>, ids: Ghost<Set<TrackListId>>, n: Ghost<nat>) -> (r: Result<(), Error>)
    requires
        segments_ok(segs@, ids@),
        all_pending_ok(old(todo)@, ids@, n@),
    ensures
        all_pending_ok(final(todo)@, ids@, n@),
        match encode_segments(segs@, out_of(*old(f)), 0, segment_start as int, pending_view(old(todo)@)) {
            Ok((o, t)) => r is Ok && out_of(*final(f)) == o && pending_view(final(todo)@) == t,
            Err(e) => r == Err::<(), Error>(Error::Io(e)),
        },
{
    let ghost o0 = out_of(*f);
    let ghost t0 = pending_view(todo@);
    let mut i: usize = 0;
    while i < segs.len()
        invariant
            i <= segs@.len(),
            o0 == out_of(*old(f)),
            t0 == pending_view(old(todo)@),
            segments_ok(segs@, ids@),
            all_pending_ok(todo@, ids@, n@),
            encode_segments(segs@, o0, 0, segment_start as int, t0) == encode_segments(
                segs@,
                out_of(*f),
                i as int,
                segment_start as int,
                pending_view(todo@),
            ),
        decreases segs@.len() - i,
    {
        if f.position() > usize::MAX - 4 {
            assert(encode_segments(segs@, out_of(*f), i as int, segment_start as int, pending_view(todo@)) == Err::<
                (Out, Seq<Pending>),
                IoError,
            >(IoError::TooLarge));
            return Err(Error::Io(IoError::TooLarge));
        }
        let ghost before = pending_view(todo@);
        let ghost p = f.cursor();
        match segs[i].encode(f) {
            Ok(Some((tracks_pos, track_list))) => {
                assert(segs@[i as int] matches Segment::Subseg { track_list: t, .. } && ids@.contains(t));
                todo.push(ToWrite::TrackList { track_list_id: track_list, tracks_pos, segment_start: segment_start as u64 });
                assert(pending_view(todo@) =~= before.push(
                    Pending::List { id: track_list, tracks_pos: p + 2, segment_start: segment_start as int },
                ));
            },
            _ => {},
        }
        i = i + 1;
    }
    Ok(())
}

fn write_variation(f: &mut Writer, var: &crate::bgm::Variation, v: usize, todo: &mut Vec<ToWrite>, ids: Ghost<Set<TrackListId>>, n: Ghost<nat>) -> (r: Result<(), Error>)
    requires
        v < 4,
        segments_ok(var.segments@, ids@),
        all_pending_ok(old(todo)@, ids@, n@),
    ensures
        all_pending_ok(final(todo)@, ids@, n@),
        match encode_variation(*var, out_of(*old(f)), v as int, pending_view(old(todo)@)) {
            Ok((o, t)) => r is Ok && out_of(*final(f)) == o && pending_view(final(todo)@) == t,
            Err(e) => r == Err::<(), Error>(Error::Io(e)),
        },
{
    match align_writer(f, 4) {
        Ok(()) => {},
        Err(e) => {
            return Err(e);
        },
    }
    let q = ((f.position() / 4) % 0x1_0000) as u16;
    match f.write_u16_be_at(q, (0x14 + 2 * v) as u64) {
        Ok(()) => {},
        Err(e) => {
            return Err(Error::Io(e));
        },
    }
    let segment_start = f.position();
    match write_segments(f, &var.segments, segment_start, todo, ids, n) {
        Ok(()) => {},
        Err(e) => {
            return Err(e);
        },
    }
    let zero: [u8; 4] = [0, 0, 0, 0];
    assert(zero@ =~= seq![0u8, 0u8, 0u8, 0u8]);
    io_result(f.write_all(&zero))
}

impl Bgm {
    fn write_variations(&self, f: &mut Writer, todo: &mut Vec<ToWrite>) -> (r: Result<(), Error>)
        requires
            self.wf(),
            subsegments_named(*self),
            all_pending_ok(old(todo)@, encodable_lists(*self), self.unknowns@.len()),
        ensures
            all_pending_ok(final(todo)@, encodable_lists(*self), self.unknowns@.len()),
            match encode_variations(*self, out_of(*old(f)), 0, pending_view(old(todo)@)) {
                Ok((o, t)) => r is Ok && out_of(*final(f)) == o && pending_view(final(todo)@) == t,
                Err(e) => r == Err::<(), Error>(Error::Io(e)),
            },
    {
        let ghost o0 = out_of(*f);
        let ghost t0 = pending_view(todo@);
        let mut v: usize = 0;
        while v < self.variations.len()
            invariant
                v <= self.variations@.len(),
                self.variations@.len() == 4,
                o0 == out_of(*old(f)),
                t0 == pending_view(old(todo)@),
                subsegments_named(*self),
                all_pending_ok(todo@, encodable_lists(*self), self.unknowns@.len()),
                encode_variations(*self, o0, 0, t0) == encode_variations(*self, out_of(*f), v as int, pending_view(todo@)),
            decreases self.variations@.len() - v,
        {
            let ghost before = out_of(*f);
            let ghost tb = pending_view(todo@);
            match &self.variations[v] {
                None => {},
                Some(var) => {
                    assert(encode_variations(*self, before, v as int, tb) == match encode_variation(*var, before, v as int, tb) {
                        Err(e) => Err(e),
                        Ok((o4, t3)) => encode_variations(*self, o4, v + 1, t3),
                    });
                    assert(segments_ok(var.segments@, encodable_lists(*self)));
                    match write_variation(f, var, v, todo, Ghost(encodable_lists(*self)), Ghost(self.unknowns@.len())) {
                        Ok(()) => {},
                        Err(e) => {
                            return Err(e);
                        },
                    }
                },
            }
            v = v + 1;
        }
        Ok(())
    }
}

impl Bgm {
    fn key_of(&self, t: ToWrite) -> (r: u64)
        requires
            pending_ok(pending_of(t), encodable_lists(*self), self.unknowns@.len()),
        ensures
            r as int == pending_key(*self, pending_of(t)),
    {
        broadcast use vstd::std_specs::btree::group_btree_axioms;
        match t {
            ToWrite::TrackList { track_list_id, .. } => match self.track_lists.get(&track_list_id) {
                Some(tl) => match tl.pos {
                    Some(p) => p,
                    None => 0,
                },
                None => 0,
            },
            ToWrite::Unknown { index } => self.unknowns[index].range.start,
        }
    }

    /// Orders the pending writes by position, keeping the order of writes at the same position.
    fn sort_to_write(&self, items: &Vec<ToWrite>) -> (r: Vec<ToWrite>)
        requires
            all_pending_ok(items@, encodable_lists(*self), self.unknowns@.len()),
        ensures
            pending_view(r@) == sort_pending(*self, pending_view(items@), 0, Seq::empty()),
            all_pending_ok(r@, encodable_lists(*self), self.unknowns@.len()),
    {
        let ghost dom = encodable_lists(*self);
        let ghost n = self.unknowns@.len();
        let mut out: Vec<ToWrite> = Vec::new();
        assert(pending_view(out@) =~= Seq::<Pending>::empty());
        let mut i: usize = 0;
        while i < items.len()
            invariant
                i <= items@.len(),
                all_pending_ok(items@, dom, n),
                all_pending_ok(out@, dom, n),
                dom == encodable_lists(*self),
                n == self.unknowns@.len(),
                sort_pending(*self, pending_view(items@), 0, Seq::empty()) == sort_pending(
                    *self,
                    pending_view(items@),
                    i as int,
                    pending_view(out@),
                ),
            decreases items@.len() - i,
        {
            let t = items[i];
            assert(pending_ok(pending_of(items@[i as int]), dom, n));
            let k = self.key_of(t);
            let mut j = out.len();
            proof {
                assert(pending_view(out@).take(j as int) =~= pending_view(out@));
            }
            while j > 0
                invariant
                    j <= out@.len(),
                    all_pending_ok(out@, dom, n),
                    dom == encodable_lists(*self),
                    n == self.unknowns@.len(),
                    insertion_point(*self, pending_view(out@), k as int) == insertion_point(
                        *self,
                        pending_view(out@).take(j as int),
                        k as int,
                    ),
                ensures
                    insertion_point(*self, pending_view(out@), k as int) == j,
                decreases j,
            {
                assert(pending_ok(pending_of(out@[j - 1]), dom, n));
                let kj = self.key_of(out[j - 1]);
                let ghost t_j = pending_view(out@).take(j as int);
                assert(t_j.last() == pending_of(out@[j - 1]));
                if kj <= k {
                    assert(insertion_point(*self, t_j, k as int) == j);
                    break;
                }
                assert(t_j.drop_last() =~= pending_view(out@).take(j - 1));
                j = j - 1;
            }
            let ghost before = pending_view(out@);
            let ghost out_before = out@;
            proof {
                if j > 0 {
                    assert(pending_view(out@).take(j as int).last() == pending_of(out@[j - 1]));
                }
            }
            out.insert(j, t);
            proof {
                assert(pending_view(out@) =~= before.insert(j as int, pending_of(t)));
                assert(pending_view(items@)[i as int] == pending_of(t));
                assert forall|x: int| 0 <= x < out@.len() implies pending_ok(#[trigger] pending_of(out@[x]), dom, n) by {
                    if x < j {
                        assert(out@[x] == out_before[x]);
                    } else if x > j {
                        assert(out@[x] == out_before[x - 1]);
                    }
                }
            }
            i = i + 1;
        }
        out
    }
}

/// Whether a track can be written: an automatic polyphony needs the voice count of its
/// sequence (see [`CommandSeq::max_polyphony`]), and a link's parent index plus one must fit in
/// a byte.
pub open spec fn track_encodable(t: Track) -> bool {
    &&& t.polyphony is Automatic ==> total_time(t.commands@) <= usize::MAX && polyphony_defined(t.commands@)
    &&& t.polyphony matches Polyphony::Link { parent } ==> parent < 255
}

/// Whether every track of `tl` can be written.
pub open spec fn list_encodable(tl: TrackList) -> bool {
    forall|i: int| 0 <= i < tl.tracks@.len() ==> track_encodable(#[trigger] tl.tracks@[i])
}

impl CommandSeq {
    /// Whether [`CommandSeq::max_polyphony`] can run on the sequence: its length in time fits in
    /// a `usize` and [`polyphony_defined`] holds.
    pub fn polyphony_measurable(&self) -> (r: bool)
        ensures
            r == (total_time(self@) <= usize::MAX && polyphony_defined(self@)),
    {
        let ghost s = self@;
        let events = self.as_slice();
        let mut time: usize = 0;
        let mut i: usize = 0;
        while i < events.len()
            invariant
                events@ == s,
                s == self@,
                i <= s.len(),
                time == time_at(s, i as int),
                forall|j: int|
                    0 <= j < i ==> match #[trigger] s[j].command {
                        Command::Note { pitch, length, .. } => pitch < 255 && length + (time_at(s, j) as u16)
                            <= u16::MAX,
                        _ => true,
                    },
            decreases s.len() - i,
        {
            proof {
                lemma_time_at_step(s, i as int);
            }
            match &events[i].command {
                Command::Delay(d) => {
                    if time > usize::MAX - *d {
                        proof {
                            assert(delay_of(s[i as int].command) == *d);
                            assert(time_at(s, i + 1) > usize::MAX);
                            lemma_time_at_monotone(s, i + 1, s.len() as int);
                            lemma_time_at_len(s);
                        }
                        return false;
                    }
                    time = time + *d;
                },
                Command::Note { pitch, length, .. } => {
                    let t16 = (time % 0x1_0000) as u16;
                    assert(t16 == time as u16) by (bit_vector)
                        requires
                            t16 == (time % 0x1_0000) as u16,
                    ;
                    if *pitch == 255 || (*length as u32) + (t16 as u32) > 0xFFFF {
                        proof {
                            let c = s[i as int].command;
                            assert(c == Command::Note { pitch: *pitch, velocity: c->velocity, length: *length });
                            assert(!(*pitch < 255 && *length + (time_at(s, i as int) as u16) <= u16::MAX));
                        }
                        return false;
                    }
                },
                _ => {},
            }
            i = i + 1;
        }
        proof {
            lemma_time_at_len(s);
        }
        true
    }
}

impl Track {
    /// Whether the track can be written (see [`track_encodable`]).
    pub fn encodable(&self) -> (r: bool)
        ensures
            r == track_encodable(*self),
    {
        match self.polyphony {
            Polyphony::Automatic => self.commands.polyphony_measurable(),
            Polyphony::Link { parent } => parent < 255,
            _ => true,
        }
    }
}

impl TrackList {
    /// Whether every track of the list can be written (see [`list_encodable`]).
    pub fn encodable(&self) -> (r: bool)
        ensures
            r == list_encodable(*self),
    {
        let mut i: usize = 0;
        while i < self.tracks.len()
            invariant
                i <= self.tracks@.len(),
                forall|j: int| 0 <= j < i ==> track_encodable(#[trigger] self.tracks@[j]),
            decreases self.tracks@.len() - i,
        {
            if !self.tracks[i].encodable() {
                return false;
            }
            i = i + 1;
        }
        true
    }
}

impl Bgm {
    /// Whether [`Bgm::encode`] can take the song: it has its four variation slots and every
    /// subsegment names a track list that it holds and that can be written.
    pub fn encodable(&self) -> (r: bool)
        ensures
            r == (self.wf() && subsegments_named(*self)),
    {
        broadcast use vstd::std_specs::btree::group_btree_axioms;
        if self.variations.len() != crate::bgm::NUM_VARIATIONS {
            return false;
        }
        let ghost ids = encodable_lists(*self);
        let mut v: usize = 0;
        while v < self.variations.len()
            invariant
                v <= self.variations@.len(),
                ids == encodable_lists(*self),
                forall|w: int|
                    0 <= w < v ==> (#[trigger] self.variations@[w] matches Some(var) ==> segments_ok(
                        var.segments@,
                        ids,
                    )),
            decreases self.variations@.len() - v,
        {
            if let Some(var) = &self.variations[v] {
                let mut i: usize = 0;
                while i < var.segments.len()
                    invariant
                        i <= var.segments@.len(),
                        v < self.variations@.len(),
                        self.variations@[v as int] == Some(*var),
                        ids == encodable_lists(*self),
                        forall|j: int|
                            0 <= j < i ==> (#[trigger] var.segments@[j] matches Segment::Subseg { track_list, .. }
                                ==> ids.contains(track_list)),
                    decreases var.segments@.len() - i,
                {
                    if let Segment::Subseg { track_list, .. } = &var.segments[i] {
                        match self.track_lists.get(track_list) {
                            Some(tl) => {
                                if !tl.encodable() {
                                    proof {
                                        assert(!ids.contains(*track_list));
                                        assert(!segments_ok(var.segments@, ids));
                                    }
                                    return false;
                                }
                            },
                            None => {
                                proof {
                                    assert(!ids.contains(*track_list));
                                    assert(!segments_ok(var.segments@, ids));
                                    assert(self.variations@[v as int] matches Some(x) && x == *var);
                                }
                                return false;
                            },
                        }
                    }
                    i = i + 1;
                }
            }
            v = v + 1;
        }
        true
    }
}

fn track_flags_of(t: &Track) -> (r: u16)
    requires
        track_encodable(*t),
    ensures
        r == track_flags(*t),
{
    let pidx: u8 = match t.polyphony {
        Polyphony::Automatic => polyphony_to_polyphonic_idx(t.commands.max_polyphony()),
        Polyphony::Manual { voices } => polyphony_to_polyphonic_idx(voices),
        Polyphony::Link { .. } => 5,
        Polyphony::Other { priority } => priority,
    };
    let parent = t.polyphony.to_parent_idx();
    ((if t.is_disabled { 1u16 } else { 0u16 }) << 8u16) | ((pidx as u16) << 13u16) | (if t.is_drum_track {
        0x80u16
    } else {
        0u16
    }) | ((parent as u16) << 9u16)
}

fn write_track_headers(
    f: &mut Writer,
    tracks: &Vec<Track>,
    list_no: u16,
    meta: &mut Metadata,
    todo: &mut Vec<(usize, usize)>,
) -> (r: Result<(), Error>)
    requires
        forall|i: int| 0 <= i < tracks@.len() ==> track_encodable(#[trigger] tracks@[i]),
        old(todo)@.len() == 0,
    ensures
        forall|k: int| 0 <= k < final(todo)@.len() ==> (#[trigger] final(todo)@[k]).1 < tracks@.len(),
        r is Ok ==> final(f).cursor() >= old(f).cursor(),
        match encode_track_headers(tracks@, out_of(*old(f)), 0, list_no, old(meta)@, Seq::empty()) {
            Ok((o, m, t)) => r is Ok && out_of(*final(f)) == o && final(meta)@ == m && final(todo)@.map_values(
                |x: (usize, usize)| (x.0 as int, x.1 as int),
            ) == t,
            Err(e) => r == Err::<(), Error>(Error::Io(e)),
        },
{
    let ghost o0 = out_of(*f);
    let ghost m0 = meta@;
    let mut j: usize = 0;
    proof {
        assert(todo@.map_values(|x: (usize, usize)| (x.0 as int, x.1 as int)) =~= Seq::<(int, int)>::empty());
    }
    while j < tracks.len()
        invariant
            j <= tracks@.len(),
            o0 == out_of(*old(f)),
            m0 == old(meta)@,
            forall|i: int| 0 <= i < tracks@.len() ==> track_encodable(#[trigger] tracks@[i]),
            forall|k: int| 0 <= k < todo@.len() ==> (#[trigger] todo@[k]).1 < tracks@.len(),
            f.cursor() >= old(f).cursor(),
            encode_track_headers(tracks@, o0, 0, list_no, m0, Seq::empty()) == encode_track_headers(
                tracks@,
                out_of(*f),
                j as int,
                list_no,
                meta@,
                todo@.map_values(|x: (usize, usize)| (x.0 as int, x.1 as int)),
            ),
        decreases tracks@.len() - j,
    {
        let t = &tracks[j];
        if j != 0 {
            meta.add_track_name(list_no, t.name.clone());
        }
        if t.commands.len() != 0 {
            let ghost before = todo@.map_values(|x: (usize, usize)| (x.0 as int, x.1 as int));
            todo.push((f.position(), j));
            assert(todo@.map_values(|x: (usize, usize)| (x.0 as int, x.1 as int)) =~= before.push(
                (out_of(*f).pos, j as int),
            ));
        }
        let flags = track_flags_of(t);
        let mut bytes: Vec<u8> = Vec::new();
        bytes.push(0);
        bytes.push(0);
        bytes.push((flags / 256) as u8);
        bytes.push((flags % 256) as u8);
        assert(bytes@ =~= u16_bytes(0) + u16_bytes(flags));
        match f.write_all(bytes.as_slice()) {
            Ok(()) => {},
            Err(e) => {
                return Err(Error::Io(e));
            },
        }
        j = j + 1;
    }
    Ok(())
}

fn write_track_sequences(f: &mut Writer, tracks: &Vec<Track>, start: usize, todo: &Vec<(usize, usize)>) -> (r: Result<(), Error>)
    requires
        forall|k: int| 0 <= k < todo@.len() ==> (#[trigger] todo@[k]).1 < tracks@.len(),
        old(f).cursor() >= start,
    ensures
        match encode_track_sequences(
            tracks@,
            out_of(*old(f)),
            start as int,
            todo@.map_values(|x: (usize, usize)| (x.0 as int, x.1 as int)),
            0,
        ) {
            Ok(o) => r is Ok && out_of(*final(f)) == o,
            Err(e) => r matches Err(x) && encode_fault_shows(x, e),
        },
{
    let ghost o0 = out_of(*f);
    let ghost tv = todo@.map_values(|x: (usize, usize)| (x.0 as int, x.1 as int));
    let mut k: usize = 0;
    while k < todo.len()
        invariant
            k <= todo@.len(),
            o0 == out_of(*old(f)),
            tv == todo@.map_values(|x: (usize, usize)| (x.0 as int, x.1 as int)),
            forall|k: int| 0 <= k < todo@.len() ==> (#[trigger] todo@[k]).1 < tracks@.len(),
            f.cursor() >= start,
            encode_track_sequences(tracks@, o0, start as int, tv, 0) == encode_track_sequences(
                tracks@,
                out_of(*f),
                start as int,
                tv,
                k as int,
            ),
        decreases todo@.len() - k,
    {
        let (field, j) = todo[k];
        let rel = ((f.position() - start) % 0x1_0000) as u16;
        match f.write_u16_be_at(rel, field as u64) {
            Ok(()) => {},
            Err(e) => {
                return Err(Error::Io(e));
            },
        }
        match tracks[j].commands.encode(f) {
            Ok(()) => {},
            Err(e) => {
                return Err(e);
            },
        }
        k = k + 1;
    }
    Ok(())
}

fn list_offset_of(start: u64, segment_start: u64) -> (r: u16)
    ensures
        r == list_offset(start as int, segment_start as int),
{
    let diff: u64 = if start >= segment_start {
        start - segment_start
    } else {
        (u64::MAX - segment_start) + start + 1
    };
    ((diff / 4) % 0x1_0000) as u16
}

#[verifier::rlimit(30)]
fn write_list(
    f: &mut Writer,
    tl: &TrackList,
    tracks_pos: u64,
    segment_start: u64,
    count: usize,
    meta: &mut Metadata,
) -> (r: Result<usize, Error>)
    requires
        list_encodable(*tl),
    ensures
        match encode_list(*tl, out_of(*old(f)), tracks_pos as int, segment_start as int, count as nat, old(meta)@) {
            Ok((o, start, m)) => r == Ok::<usize, Error>(start as usize) && out_of(*final(f)) == o && final(meta)@ == m,
            Err(e) => r matches Err(x) && encode_fault_shows(x, e),
        },
{
    match align_writer(f, 4) {
        Ok(()) => {},
        Err(e) => {
            return Err(e);
        },
    }
    let start: u64 = match tl.pos {
        Some(p) => p,
        None => f.position() as u64,
    };
    if start > usize::MAX as u64 {
        return Err(Error::Io(IoError::TooLarge));
    }
    f.seek(start as usize);
    let offset = list_offset_of(start, segment_start);
    match f.write_u16_be_at(offset, tracks_pos) {
        Ok(()) => {},
        Err(e) => {
            return Err(Error::Io(e));
        },
    }
    let list_no = ((count % 0x1_0000) as u16).wrapping_add(1);
    let mut todo: Vec<(usize, usize)> = Vec::new();
    match write_track_headers(f, &tl.tracks, list_no, meta, &mut todo) {
        Ok(()) => {},
        Err(e) => {
            return Err(e);
        },
    }
    match write_track_sequences(f, &tl.tracks, start as usize, &todo) {
        Ok(()) => {},
        Err(e) => {
            return Err(e);
        },
    }
    Ok(start as usize)
}

impl Bgm {
    #[verifier::rlimit(30)]
    fn write_pending(&self, f: &mut Writer, items: &Vec<ToWrite>, meta: &mut Metadata) -> (r: Result<(), Error>)
        requires
            all_pending_ok(items@, encodable_lists(*self), self.unknowns@.len()),
        ensures
            match encode_pending(*self, out_of(*old(f)), pending_view(items@), 0, Map::empty(), 0, old(meta)@) {
                Ok((o, m)) => r is Ok && out_of(*final(f)) == o && final(meta)@ == m,
                Err(e) => r matches Err(x) && encode_fault_shows(x, e),
            },
    {
        broadcast use vstd::std_specs::hash::group_hash_axioms;
        broadcast use vstd::std_specs::btree::group_btree_axioms;
        let ghost o0 = out_of(*f);
        let ghost m0 = meta@;
        let ghost pv = pending_view(items@);
        let mut written: HashMap<TrackListId, usize> = HashMap::new();
        let mut count: usize = 0;
        let mut i: usize = 0;
        proof {
            assert(written@.map_values(|x: usize| x as int) =~= Map::<TrackListId, int>::empty());
        }
        while i < items.len()
            invariant
                i <= items@.len(),
                count <= i,
                o0 == out_of(*old(f)),
                m0 == old(meta)@,
                pv == pending_view(items@),
                all_pending_ok(items@, encodable_lists(*self), self.unknowns@.len()),
                encode_pending(*self, o0, pv, 0, Map::empty(), 0, m0) == encode_pending(
                    *self,
                    out_of(*f),
                    pv,
                    i as int,
                    written@.map_values(|x: usize| x as int),
                    count as nat,
                    meta@,
                ),
            decreases items@.len() - i,
        {
            assert(pending_ok(pending_of(items@[i as int]), encodable_lists(*self), self.unknowns@.len()));
            assert(pv[i as int] == pending_of(items@[i as int]));
            match items[i] {
                ToWrite::TrackList { track_list_id, tracks_pos, segment_start } => {
                    match written.get(&track_list_id) {
                        Some(start) => {
                            let offset = list_offset_of(*start as u64, segment_start);
                            match f.write_u16_be_at(offset, tracks_pos) {
                                Ok(()) => {},
                                Err(e) => {
                                    return Err(Error::Io(e));
                                },
                            }
                        },
                        None => {
                            let tl = self.track_lists.get(&track_list_id).unwrap();
                            let start = match write_list(f, tl, tracks_pos, segment_start, count, meta) {
                                Ok(s) => s,
                                Err(e) => {
                                    return Err(e);
                                },
                            };
                            let ghost before = written@.map_values(|x: usize| x as int);
                            written.insert(track_list_id, start);
                            assert(written@.map_values(|x: usize| x as int) =~= before.insert(track_list_id, start as int));
                            count = count + 1;
                        },
                    }
                },
                ToWrite::Unknown { index } => {
                    let u = &self.unknowns[index];
                    if u.range.start > usize::MAX as u64 {
                        return Err(Error::Io(IoError::TooLarge));
                    }
                    f.seek(u.range.start as usize);
                    match f.write_all(u.data.as_slice()) {
                        Ok(()) => {},
                        Err(e) => {
                            return Err(Error::Io(e));
                        },
                    }
                    if u.range.end > usize::MAX as u64 {
                        return Err(Error::Io(IoError::TooLarge));
                    }
                    f.seek(u.range.end as usize);
                },
            }
            i = i + 1;
        }
        Ok(())
    }

    fn file_size_of(&self, pos: usize) -> (r: u32)
        ensures
            r == file_size(*self, pos as int),
    {
        let size = (pos as u64 % 0x1_0000_0000) as u32;
        if self.name == String::from_str("117 ") && size == 0x19A0 {
            0x1998
        } else if self.name == String::from_str("322 ") && size == 0x0D70 {
            0x0D64
        } else {
            size
        }
    }

    /// Writes the song into `f` (see [`encode_bgm`]) and returns the editor metadata to store
    /// after it: the names of the tracks of each written track list.
    pub fn encode(&self, f: &mut Writer) -> (r: Result<Metadata, Error>)
        requires
            self.wf(),
            subsegments_named(*self),
        ensures
            match encode_bgm(*self, out_of(*old(f))) {
                Ok((o, meta)) => (r matches Ok(m) && m@ == meta) && out_of(*final(f)) == o,
                Err(e) => r matches Err(x) && encode_fault_shows(x, e),
            },
    {
        let mut metadata = Metadata::new();
        match self.write_header(f) {
            Ok(()) => {},
            Err(e) => {
                return Err(e);
            },
        }
        match write_drums(f, &self.drums) {
            Ok(()) => {},
            Err(e) => {
                return Err(e);
            },
        }
        match write_instruments(f, &self.instruments) {
            Ok(()) => {},
            Err(e) => {
                return Err(e);
            },
        }
        let mut to_write: Vec<ToWrite> = Vec::new();
        let mut k: usize = 0;
        while k < self.unknowns.len()
            invariant
                k <= self.unknowns@.len(),
                to_write@.len() == k,
                forall|x: int| 0 <= x < k ==> #[trigger] to_write@[x] == (ToWrite::Unknown { index: x as usize }),
            decreases self.unknowns@.len() - k,
        {
            to_write.push(ToWrite::Unknown { index: k });
            k = k + 1;
        }
        proof {
            assert(pending_view(to_write@) =~= Seq::new(self.unknowns@.len(), |i: int| Pending::Unknown { index: i }));
        }
        match self.write_variations(f, &mut to_write) {
            Ok(()) => {},
            Err(e) => {
                return Err(e);
            },
        }
        let sorted = self.sort_to_write(&to_write);
        match self.write_pending(f, &sorted, &mut metadata) {
            Ok(()) => {},
            Err(e) => {
                return Err(e);
            },
        }
        let size = self.file_size_of(f.position());
        match f.write_u32_be_at(size, 4) {
            Ok(()) => {},
            Err(e) => {
                return Err(Error::Io(e));
            },
        }
        Ok(metadata)
    }
}

/// The largest size, in bytes, of a song that the game can load, plus one.
pub open spec fn size_limit() -> int {
    0x8A90
}

/// Finishing a song written into `o`: when there are names to keep, the editor metadata
/// (see [`metadata_out`]); then the refusal of a song too big for the game.
pub open spec fn finish_bgm(o: Out, has_data: bool, payload: Seq<u8>) -> Result<Out, Error> {
    match metadata_out(o, has_data, payload) {
        Err(e) => Err(e),
        Ok(o4) => if o4.pos < size_limit() {
            Ok(o4)
        } else {
            Err(Error::TooBig)
        },
    }
}

/// What writing the editor metadata (if there is any) leaves in the output: padding to a
/// multiple of 8, "MAMAR" in an 8-byte field, then `payload`.
pub open spec fn metadata_out(o: Out, has_data: bool, payload: Seq<u8>) -> Result<Out, Error> {
    if !has_data {
        Ok(o)
    } else {
        match align_out(o, 8) {
            Err(e) => Err(Error::Io(e)),
            Ok(o1) => match emit(o1, cstring_field("MAMAR"@, 8)) {
                Err(e) => Err(Error::Io(e)),
                Ok(o2) => match emit(o2, payload) {
                    Err(e) => Err(Error::Io(e)),
                    Ok(o3) => Ok(o3),
                },
            },
        }
    }
}

impl Bgm {
    /// Writes the editor metadata after a song that [`Bgm::encode`] wrote (see [`finish_bgm`]);
    /// `payload` is the metadata in MessagePack. A song that ends up too big for the game is
    /// refused with `TooBig`, and what was written stays in the writer (see [`metadata_out`]).
    pub fn write_metadata(f: &mut Writer, metadata: &Metadata, payload: &[u8]) -> (r: Result<(), Error>)
        ensures
            match finish_bgm(out_of(*old(f)), has_names(metadata@), payload@) {
                Ok(o) => r is Ok && out_of(*final(f)) == o,
                Err(e) => r == Err::<(), Error>(e),
            },
            match metadata_out(out_of(*old(f)), has_names(metadata@), payload@) {
                Ok(o) => out_of(*final(f)) == o,
                Err(_) => true,
            },
    {
        if metadata.has_data() {
            match align_writer(f, 8) {
                Ok(()) => {},
                Err(e) => {
                    return Err(e);
                },
            }
            match f.write_cstring_lossy(MAGIC, MAGIC_MAX_LEN) {
                Ok(()) => {},
                Err(e) => {
                    return Err(Error::Io(e));
                },
            }
            match f.write_all(payload) {
                Ok(()) => {},
                Err(e) => {
                    return Err(Error::Io(e));
                },
            }
        }
        if f.position() <= 0x8A8F {
            Ok(())
        } else {
            Err(Error::TooBig)
        }
    }
}

} // verus!
