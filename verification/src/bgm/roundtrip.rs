//! What decoding gives back of what encoding writes.

use vstd::prelude::*;

use crate::bgm::cmd::Command;
use crate::bgm::de::{
    command_key, decode_from, decode_sequence, is_note_op, last_offset_of, lower_bound, parse_command, put, Decoded,
    DecodedEntries, Error,
};
use crate::bgm::en::{command_bytes, commands_bytes, delay_bytes, encode_commands, fill_detours, lemma_bytes_take, loop_word, segment_bytes};
use crate::bgm::de::decode_segment;
use crate::bgm::{segment_with_id, Segment};
use crate::id::{id_after, next_id};
use crate::bgm::{drum_bytes, drum_from_bytes, instrument_bytes, instrument_from_bytes, Drum, Instrument};
use crate::rw::{lemma_i16_bytes, lemma_i8_byte, lemma_u16_bytes, lemma_u32_bytes, u16_bytes, u32_bytes};

verus! {

/// Reading back the twelve bytes that a drum is written as gives the drum.
pub proof fn law_drum_roundtrip(d: Drum)
    ensures
        drum_from_bytes(drum_bytes(d)) == d,
{
    lemma_i8_byte(d.pan);
}

/// Reading back the eight bytes that an instrument is written as gives the instrument.
pub proof fn law_instrument_roundtrip(i: Instrument)
    ensures
        instrument_from_bytes(instrument_bytes(i)) == i,
{
    lemma_i8_byte(i.pan);
}

/// Whether a delay of `d` ticks is written as a single piece: one byte for 1 to 0x77 ticks, or
/// two bytes for 0x78 ticks plus at most 7 times 256 plus at most 0x78 (see [`delay_bytes`]).
pub open spec fn one_piece_delay(d: int) -> bool {
    ||| 1 <= d < 0x78
    ||| 0x78 <= d && (d - 0x78) / 256 <= 7 && (d - 0x78) % 256 <= 0x78
}

/// The commands that come back unchanged from the bytes they are written as: delays written
/// as one piece (a delay of 0 is written as nothing, and longer ones are split), notes whose
/// pitch is a note byte and whose length is below 0x40C0 (longer ones lose their high bits),
/// and every other command but `End`, which ends a sequence, and detours and markers (whose bytes
/// depend on the rest of the sequence).
pub open spec fn plain_command(c: Command) -> bool {
    match c {
        Command::End => false,
        Command::Delay(d) => one_piece_delay(d as int),
        Command::Note { pitch, length, .. } => is_note_op(pitch) && length < 0x40C0,
        Command::Detour { .. } => false,
        Command::Marker { .. } => false,
        _ => true,
    }
}

proof fn lemma_bytes_at(s: Seq<u8>, p: int, b: Seq<u8>)
    requires
        0 <= p,
        p + b.len() <= s.len(),
        s.subrange(p, p + b.len()) == b,
    ensures
        forall|j: int| 0 <= j < b.len() ==> s[p + j] == b[j],
        b.len() >= 1 ==> s.subrange(p + 1, p + b.len()) == b.subrange(1, b.len() as int),
{
    assert forall|j: int| 0 <= j < b.len() implies s[p + j] == b[j] by {
        assert(s.subrange(p, p + b.len())[j] == s[p + j]);
    }
    if b.len() >= 1 {
        assert(s.subrange(p + 1, p + b.len()) =~= b.subrange(1, b.len() as int));
    }
}

/// Reading a plain command (or `End`) from where its bytes lie gives the command and the
/// position after its bytes.
pub proof fn lemma_parse_plain(c: Command, s: Seq<u8>, p: int, start: int)
    requires
        plain_command(c) || c == Command::End,
        0 <= p,
        p + command_bytes(c).len() <= s.len(),
        s.subrange(p, p + command_bytes(c).len()) == command_bytes(c),
    ensures
        parse_command(s, p, start) == Ok::<(Decoded, int), Error>((Decoded::Cmd(c), p + command_bytes(c).len())),
{
    let b = command_bytes(c);
    lemma_bytes_at(s, p, b);
    match c {
        Command::Note { pitch, velocity, length } => {
            if length < 0xC0 {
                assert(b == seq![pitch, velocity, length as u8]);
                assert(s[p] == pitch && s[p + 1] == velocity && s[p + 2] == length as u8);
                assert((length as u8) as u16 == length);
                assert(is_note_op(s[p]));
                assert(p + 3 <= s.len());
                assert(s[p + 2] < 0xC0);
                assert(parse_command(s, p, start) == Ok::<(Decoded, int), Error>((Decoded::Cmd(c), p + 3)));
                assert(b.len() == 3);
            } else {
                let l2 = (length - 0xC0) as u16;
                let hi = (l2 / 256) as u8;
                assert(hi < 0x40);
                assert(hi | 0xC0u8 == hi + 0xC0) by (bit_vector)
                    requires
                        hi < 0x40,
                ;
                assert(b == seq![pitch, velocity, hi | 0xC0u8, (l2 % 256) as u8]);
                assert(s[p] == pitch && s[p + 1] == velocity);
                assert(s[p + 2] == hi | 0xC0u8);
                assert(s[p + 3] == (l2 % 256) as u8);
                assert((hi as int) * 256 + (l2 % 256) == l2) by (nonlinear_arith)
                    requires
                        hi == l2 / 256,
                ;
                assert(s[p + 2] >= 0xC0);
                assert(is_note_op(s[p]));
                assert(p + 4 <= s.len());
                assert((0xC0 + (s[p + 2] - 0xC0) * 256 + s[p + 3]) as u16 == length);
                assert(parse_command(s, p, start) == Ok::<(Decoded, int), Error>((Decoded::Cmd(c), p + 4)));
                assert(b.len() == 4);
            }
        },
        Command::MasterTempo(v) => {
            lemma_u16_bytes(v);
            assert(s[p] == b[0]);
            assert(b.subrange(1, 3) =~= u16_bytes(v));
            assert(parse_command(s, p, start) == Ok::<(Decoded, int), Error>((Decoded::Cmd(c), p + b.len())));
        },
        Command::MasterTempoFade { time, value } => {
            lemma_u16_bytes(time);
            lemma_u16_bytes(value);
            assert(s[p] == b[0]);
            assert(b.subrange(1, 5) =~= u16_bytes(time) + u16_bytes(value));
            assert(parse_command(s, p, start) == Ok::<(Decoded, int), Error>((Decoded::Cmd(c), p + b.len())));
        },
        Command::MasterVolumeFade { time, volume } => {
            lemma_u16_bytes(time);
            assert(s[p] == b[0]);
            assert(b.subrange(1, 4) =~= u16_bytes(time) + seq![volume]);
            assert(parse_command(s, p, start) == Ok::<(Decoded, int), Error>((Decoded::Cmd(c), p + b.len())));
        },
        Command::TrackVolumeFade { time, value } => {
            lemma_u16_bytes(time);
            assert(s[p] == b[0]);
            assert(b.subrange(1, 4) =~= u16_bytes(time) + seq![value]);
            assert(parse_command(s, p, start) == Ok::<(Decoded, int), Error>((Decoded::Cmd(c), p + b.len())));
        },
        Command::SubTrackPan(a) => {
            lemma_i8_byte(a);
            assert(s[p] == b[0]);
            assert(parse_command(s, p, start) == Ok::<(Decoded, int), Error>((Decoded::Cmd(c), p + b.len())));
        },
        Command::SegTrackTune { bend } => {
            lemma_i16_bytes(bend);
            assert(s[p] == b[0]);
            assert(parse_command(s, p, start) == Ok::<(Decoded, int), Error>((Decoded::Cmd(c), p + b.len())));
        },
        Command::End => {
            assert(b == seq![0u8]);
            assert(s[p] == b[0]);
            assert(parse_command(s, p, start) == Ok::<(Decoded, int), Error>((Decoded::Cmd(c), p + b.len())));
        },
        Command::Delay(d) => {
            if d < 0x78 {
                assert(b == seq![d as u8]);
                assert(s[p] == b[0]);
                assert(s[p] == d as u8);
                assert((d as u8) as usize == d);
            } else {
                let d1 = (d - 0x78) as nat;
                let m = d1 / 256;
                let e = d1 % 256;
                assert(d1 == m * 256 + e);
                reveal_with_fuel(delay_bytes, 2);
                assert(delay_bytes((e - e) as nat) == Seq::<u8>::empty());
                assert(b =~= seq![(0x78 + m) as u8, e as u8]);
                assert(s[p] == b[0] && s[p + 1] == b[1]);
                assert(s.subrange(p + 1, p + 2)[0] == s[p + 1]);
                assert((0x78 + (s[p] - 0x78) * 256 + s[p + 1]) as usize == d);
            }
            assert(parse_command(s, p, start) == Ok::<(Decoded, int), Error>((Decoded::Cmd(c), p + b.len())));
        },
        Command::MasterVolume(_) => {
            assert(s[p] == b[0]);
            assert(parse_command(s, p, start) == Ok::<(Decoded, int), Error>((Decoded::Cmd(c), p + b.len())));
        },
        Command::MasterPitchShift { .. } => {
            assert(s[p] == b[0]);
            assert(parse_command(s, p, start) == Ok::<(Decoded, int), Error>((Decoded::Cmd(c), p + b.len())));
        },
        Command::UnkCmdE3 { .. } => {
            assert(s[p] == b[0]);
            assert(parse_command(s, p, start) == Ok::<(Decoded, int), Error>((Decoded::Cmd(c), p + b.len())));
        },
        Command::MasterEffect { .. } => {
            assert(s[p] == b[0]);
            assert(parse_command(s, p, start) == Ok::<(Decoded, int), Error>((Decoded::Cmd(c), p + b.len())));
        },
        Command::TrackOverridePatch { .. } => {
            assert(s[p] == b[0]);
            assert(parse_command(s, p, start) == Ok::<(Decoded, int), Error>((Decoded::Cmd(c), p + b.len())));
        },
        Command::SubTrackVolume(_) => {
            assert(s[p] == b[0]);
            assert(parse_command(s, p, start) == Ok::<(Decoded, int), Error>((Decoded::Cmd(c), p + b.len())));
        },
        Command::SubTrackReverb(_) => {
            assert(s[p] == b[0]);
            assert(parse_command(s, p, start) == Ok::<(Decoded, int), Error>((Decoded::Cmd(c), p + b.len())));
        },
        Command::SegTrackVolume(_) => {
            assert(s[p] == b[0]);
            assert(parse_command(s, p, start) == Ok::<(Decoded, int), Error>((Decoded::Cmd(c), p + b.len())));
        },
        Command::SubTrackCoarseTune(_) => {
            assert(s[p] == b[0]);
            assert(parse_command(s, p, start) == Ok::<(Decoded, int), Error>((Decoded::Cmd(c), p + b.len())));
        },
        Command::SubTrackFineTune(_) => {
            assert(s[p] == b[0]);
            assert(parse_command(s, p, start) == Ok::<(Decoded, int), Error>((Decoded::Cmd(c), p + b.len())));
        },
        Command::TrackTremolo { .. } => {
            assert(s[p] == b[0]);
            assert(parse_command(s, p, start) == Ok::<(Decoded, int), Error>((Decoded::Cmd(c), p + b.len())));
        },
        Command::TrackTremoloSpeed(_) => {
            assert(s[p] == b[0]);
            assert(parse_command(s, p, start) == Ok::<(Decoded, int), Error>((Decoded::Cmd(c), p + b.len())));
        },
        Command::TrackTremoloTime { .. } => {
            assert(s[p] == b[0]);
            assert(parse_command(s, p, start) == Ok::<(Decoded, int), Error>((Decoded::Cmd(c), p + b.len())));
        },
        Command::TrackTremoloStop => {
            assert(s[p] == b[0]);
            assert(parse_command(s, p, start) == Ok::<(Decoded, int), Error>((Decoded::Cmd(c), p + b.len())));
        },
        Command::UnkCmdF4 { .. } => {
            assert(s[p] == b[0]);
            assert(parse_command(s, p, start) == Ok::<(Decoded, int), Error>((Decoded::Cmd(c), p + b.len())));
        },
        Command::SetTrackVoice { .. } => {
            assert(s[p] == b[0]);
            assert(parse_command(s, p, start) == Ok::<(Decoded, int), Error>((Decoded::Cmd(c), p + b.len())));
        },
        Command::SubTrackReverbType { .. } => {
            assert(s[p] == b[0]);
            assert(parse_command(s, p, start) == Ok::<(Decoded, int), Error>((Decoded::Cmd(c), p + b.len())));
        },
        Command::UnkCmdFF { .. } => {
            assert(s[p] == b[0]);
            assert(parse_command(s, p, start) == Ok::<(Decoded, int), Error>((Decoded::Cmd(c), p + b.len())));
        },
        Command::Jump { unk_00, unk_02 } => {
            lemma_u16_bytes(unk_00);
            assert(s[p] == b[0]);
            assert(b.subrange(1, 4) =~= u16_bytes(unk_00) + seq![unk_02]);
            assert(parse_command(s, p, start) == Ok::<(Decoded, int), Error>((Decoded::Cmd(c), p + b.len())));
        },
        Command::EventTrigger { event_info } => {
            lemma_u32_bytes(event_info);
            assert(s[p] == b[0]);
            assert(b.subrange(1, 5) =~= u32_bytes(event_info));
            assert(parse_command(s, p, start) == Ok::<(Decoded, int), Error>((Decoded::Cmd(c), p + b.len())));
        },
        _ => {},
    }
}

/// Whether `cmds` is a run of plain commands (see [`plain_command`]) closed by an `End`.
pub open spec fn plain_sequence(cmds: Seq<Command>) -> bool {
    &&& cmds.len() >= 1
    &&& cmds.last() == Command::End
    &&& forall|i: int| 0 <= i < cmds.len() - 1 ==> plain_command(#[trigger] cmds[i])
}

/// The entries that decoding makes of the first `k` commands of `cmds` read from their bytes,
/// with identifiers from `id` on.
pub open spec fn plain_entries(cmds: Seq<Command>, k: int, id: u32) -> DecodedEntries {
    Seq::new(
        k as nat,
        |i: int| (command_key(commands_bytes(cmds.take(i)).len() as int), (id_after(id, i as nat), Decoded::Cmd(cmds[i]))),
    )
}

proof fn lemma_bytes_prefix(cmds: Seq<Command>, j: int)
    requires
        0 <= j <= cmds.len(),
    ensures
        commands_bytes(cmds.take(j)).len() <= commands_bytes(cmds).len(),
        commands_bytes(cmds).subrange(0, commands_bytes(cmds.take(j)).len() as int) == commands_bytes(cmds.take(j)),
    decreases cmds.len() - j,
{
    if j == cmds.len() {
        assert(cmds.take(j) =~= cmds);
        assert(commands_bytes(cmds).subrange(0, commands_bytes(cmds).len() as int) =~= commands_bytes(cmds));
    } else {
        lemma_bytes_prefix(cmds, j + 1);
        lemma_bytes_take(cmds, j);
        let a = commands_bytes(cmds.take(j));
        let b = commands_bytes(cmds.take(j + 1));
        assert(commands_bytes(cmds).subrange(0, a.len() as int) =~= b.subrange(0, a.len() as int));
        assert(b.subrange(0, a.len() as int) =~= a);
    }
}

/// Every plain command and `End` takes at least one byte.
proof fn lemma_plain_nonempty(c: Command)
    requires
        plain_command(c) || c == Command::End,
    ensures
        command_bytes(c).len() >= 1,
{
}

proof fn lemma_decode_plain_from(cmds: Seq<Command>, s: Seq<u8>, start: int, k: int, id: u32)
    requires
        plain_sequence(cmds),
        0 <= k < cmds.len(),
        0 <= start,
        start + commands_bytes(cmds).len() <= s.len(),
        s.subrange(start, start + commands_bytes(cmds).len()) == commands_bytes(cmds),
        start + commands_bytes(cmds).len() != 0x38EB,
    ensures
        decode_from(s, start, start + commands_bytes(cmds.take(k)).len(), false, plain_entries(cmds, k, id), id_after(id, k as nat))
            == Ok::<(DecodedEntries, int, u32), Error>(
            (plain_entries(cmds, cmds.len() as int, id), start + commands_bytes(cmds).len(), id_after(id, cmds.len())),
        ),
    decreases cmds.len() - k,
{
    let n = commands_bytes(cmds).len() as int;
    let a = commands_bytes(cmds.take(k)).len() as int;
    let p = start + a;
    let c = cmds[k];
    let lc = command_bytes(c).len() as int;
    let entries = plain_entries(cmds, k, id);
    let ik = id_after(id, k as nat);
    lemma_bytes_take(cmds, k);
    lemma_bytes_prefix(cmds, k + 1);
    lemma_plain_nonempty(c);
    assert(s.subrange(p, p + lc) =~= command_bytes(c)) by {
        let whole = commands_bytes(cmds);
        assert forall|j: int| 0 <= j < lc implies s.subrange(p, p + lc)[j] == command_bytes(c)[j] by {
            assert(s.subrange(start, start + n)[a + j] == s[p + j]);
            assert(whole.subrange(0, a + lc)[a + j] == whole[a + j]);
        }
    }
    lemma_parse_plain(c, s, p, start);
    let key = command_key(p - start);
    if k > 0 {
        lemma_bytes_take(cmds, k - 1);
        assert(entries.last().0 == command_key(commands_bytes(cmds.take(k - 1)).len() as int));
    }
    assert(lower_bound(entries, key) == entries.len());
    let next_entries = put(entries, key, (ik, Decoded::Cmd(c)));
    assert(next_entries =~= plain_entries(cmds, k + 1, id));
    assert(id_after(id, (k + 1) as nat) == next_id(ik));
    assert(p - start == a);
    assert(p < p + lc <= s.len());
    assert(decode_from(s, start, p, false, entries, ik) == decode_from(
        s,
        start,
        p + lc,
        false || Decoded::Cmd(c) == Decoded::Cmd(Command::End),
        next_entries,
        next_id(ik),
    ));
    if k + 1 < cmds.len() {
        assert(plain_command(c));
        assert(c != Command::End);
        lemma_decode_plain_from(cmds, s, start, k + 1, id);
    } else {
        assert(c == Command::End);
        assert(cmds.take(k + 1) =~= cmds);
        assert(lc == 1);
        assert(last_offset_of(plain_entries(cmds, k + 1, id)) == n);
        assert(p + lc == start + n);
        assert(decode_from(s, start, p + lc, true, next_entries, next_id(ik)) == Ok::<(DecodedEntries, int, u32), Error>(
            (next_entries, p + lc, next_id(ik)),
        ));
    }
}

/// Decoding the bytes of a run of plain commands closed by an `End`, wherever they are placed,
/// gives back its commands in order, each with a fresh identifier, and stops right after them.
/// The one place where this fails is a run that ends at byte 0x38EB, where decoding goes on to
/// a marker that one song needs.
pub proof fn law_sequence_roundtrip(cmds: Seq<Command>, s: Seq<u8>, start: int, id: u32)
    requires
        plain_sequence(cmds),
        0 <= start,
        start + commands_bytes(cmds).len() <= s.len(),
        s.subrange(start, start + commands_bytes(cmds).len()) == commands_bytes(cmds),
        start + commands_bytes(cmds).len() != 0x38EB,
    ensures
        decode_sequence(s, start, id) == Ok::<(DecodedEntries, int, u32), Error>(
            (plain_entries(cmds, cmds.len() as int, id), start + commands_bytes(cmds).len(), id_after(id, cmds.len())),
        ),
{
    assert(cmds.take(0) =~= Seq::<Command>::empty());
    assert(plain_entries(cmds, 0, id) =~= Seq::empty());
    lemma_decode_plain_from(cmds, s, start, 0, id);
}

proof fn lemma_no_detours(cmds: Seq<Command>, base: int, bytes: Seq<u8>, i: int)
    requires
        0 <= i,
        forall|j: int| 0 <= j < cmds.len() ==> !(#[trigger] cmds[j] is Detour),
    ensures
        fill_detours(cmds, base, bytes, i) == Ok::<Seq<u8>, crate::bgm::en::MarkerFault>(bytes),
    decreases cmds.len() - i,
{
    if i < cmds.len() {
        assert(!(cmds[i] is Detour));
        lemma_no_detours(cmds, base, bytes, i + 1);
    }
}

/// A run of plain commands closed by an `End` is written as the bytes of its commands,
/// wherever it is written.
pub proof fn lemma_plain_encodes(cmds: Seq<Command>, base: int)
    requires
        plain_sequence(cmds),
    ensures
        encode_commands(cmds, base) == Ok::<Seq<u8>, crate::bgm::en::MarkerFault>(commands_bytes(cmds)),
{
    assert forall|j: int| 0 <= j < cmds.len() implies !(#[trigger] cmds[j] is Detour) by {
        if j < cmds.len() - 1 {
            assert(plain_command(cmds[j]));
        }
    }
    lemma_no_detours(cmds, base, commands_bytes(cmds), 0);
}

/// A run of plain commands closed by an `End` is written as the bytes of its commands, and
/// reading those bytes back gives the commands (see [`law_sequence_roundtrip`]).
pub proof fn law_encode_decode_sequence(cmds: Seq<Command>, s: Seq<u8>, base: int, id: u32)
    requires
        plain_sequence(cmds),
        0 <= base,
        base + commands_bytes(cmds).len() <= s.len(),
        s.subrange(base, base + commands_bytes(cmds).len()) == commands_bytes(cmds),
        base + commands_bytes(cmds).len() != 0x38EB,
    ensures
        encode_commands(cmds, base) == Ok::<Seq<u8>, crate::bgm::en::MarkerFault>(commands_bytes(cmds)),
        decode_sequence(s, base, id) matches Ok((entries, end, _)) && end == base + commands_bytes(cmds).len()
            && entries.len() == cmds.len() && forall|i: int| 0 <= i < cmds.len() ==> #[trigger] entries[i].1.1
            == Decoded::Cmd(cmds[i]),
{
    assert forall|j: int| 0 <= j < cmds.len() implies !(#[trigger] cmds[j] is Detour) by {
        if j < cmds.len() - 1 {
            assert(plain_command(cmds[j]));
        }
    }
    lemma_no_detours(cmds, base, commands_bytes(cmds), 0);
    law_sequence_roundtrip(cmds, s, base, id);
}

/// The delays that a delay of `d` ticks is written as, in order: itself when it fits one
/// piece, otherwise pieces of `0x78 + 256 * n + extra` ticks as [`delay_bytes`] splits it.
pub open spec fn delay_pieces(d: nat) -> Seq<Command>
    decreases d,
{
    if d == 0 {
        Seq::empty()
    } else if d < 0x78 {
        seq![Command::Delay(d as usize)]
    } else {
        let d1 = (d - 0x78) as nat;
        let mask = if d1 / 256 < 7 { d1 / 256 } else { 7 };
        let d2 = (d1 - mask * 256) as nat;
        let extra = if d2 > 0x78 { 0x78 } else { d2 };
        seq![Command::Delay((0x78 + mask * 256 + extra) as usize)] + delay_pieces((d2 - extra) as nat)
    }
}

/// The commands of `c` as they are written: a delay as its pieces (see [`delay_pieces`]),
/// any other command as itself.
pub open spec fn pieces_of(c: Command) -> Seq<Command> {
    match c {
        Command::Delay(d) => delay_pieces(d as nat),
        _ => seq![c],
    }
}

/// The commands of `cmds` with each delay split into the pieces it is written as.
pub open spec fn split_delays(cmds: Seq<Command>) -> Seq<Command>
    decreases cmds.len(),
{
    if cmds.len() == 0 {
        Seq::empty()
    } else {
        split_delays(cmds.drop_last()) + pieces_of(cmds.last())
    }
}

/// The sum of the delays among `cmds`.
pub open spec fn commands_time(cmds: Seq<Command>) -> nat
    decreases cmds.len(),
{
    if cmds.len() == 0 {
        0
    } else {
        commands_time(cmds.drop_last()) + crate::bgm::cmd::delay_of(cmds.last())
    }
}

/// The commands of `cmds` other than delays, in order.
pub open spec fn without_delays(cmds: Seq<Command>) -> Seq<Command>
    decreases cmds.len(),
{
    if cmds.len() == 0 {
        Seq::empty()
    } else if cmds.last() is Delay {
        without_delays(cmds.drop_last())
    } else {
        without_delays(cmds.drop_last()).push(cmds.last())
    }
}

/// Whether `cmds` is a run of commands closed by an `End` whose commands are plain (see
/// [`plain_command`]) or delays of any length.
pub open spec fn delay_sequence(cmds: Seq<Command>) -> bool {
    &&& cmds.len() >= 1
    &&& cmds.last() == Command::End
    &&& forall|i: int| 0 <= i < cmds.len() - 1 ==> plain_command(#[trigger] cmds[i]) || cmds[i] is Delay
}

proof fn lemma_concat_parts(a: Seq<Command>, b: Seq<Command>)
    ensures
        commands_bytes(a + b) == commands_bytes(a) + commands_bytes(b),
        commands_time(a + b) == commands_time(a) + commands_time(b),
        without_delays(a + b) == without_delays(a) + without_delays(b),
    decreases b.len(),
{
    if b.len() == 0 {
        assert(a + b =~= a);
        assert(commands_bytes(a) + commands_bytes(b) =~= commands_bytes(a));
        assert(without_delays(a) + without_delays(b) =~= without_delays(a));
    } else {
        lemma_concat_parts(a, b.drop_last());
        assert((a + b).drop_last() =~= a + b.drop_last());
        assert((a + b).last() == b.last());
        assert(commands_bytes(a + b) =~= commands_bytes(a) + commands_bytes(b));
        assert(without_delays(a + b) =~= without_delays(a) + without_delays(b));
    }
}

proof fn lemma_one_command(c: Command)
    ensures
        commands_bytes(seq![c]) == command_bytes(c),
        commands_time(seq![c]) == crate::bgm::cmd::delay_of(c),
        without_delays(seq![c]) == if c is Delay { Seq::<Command>::empty() } else { seq![c] },
{
    let one = seq![c];
    assert(one.drop_last() =~= Seq::<Command>::empty());
    assert(one.last() == c);
    assert(commands_bytes(Seq::<Command>::empty()) + command_bytes(c) =~= command_bytes(c));
    assert(Seq::<Command>::empty().push(c) =~= one);
    assert(commands_time(Seq::<Command>::empty()) == 0);
    assert(without_delays(Seq::<Command>::empty()) == Seq::<Command>::empty());
    assert(commands_time(one) == commands_time(one.drop_last()) + crate::bgm::cmd::delay_of(c));
}

/// A delay's pieces are written as the delay is, each is written as one piece, and together
/// they last as long as the delay.
proof fn lemma_delay_pieces(d: nat)
    requires
        d <= usize::MAX,
    ensures
        commands_bytes(delay_pieces(d)) == delay_bytes(d),
        commands_time(delay_pieces(d)) == d,
        without_delays(delay_pieces(d)) == Seq::<Command>::empty(),
        forall|i: int| 0 <= i < delay_pieces(d).len() ==> plain_command(#[trigger] delay_pieces(d)[i]),
    decreases d,
{
    if d == 0 {
    } else if d < 0x78 {
        lemma_one_command(Command::Delay(d as usize));
    } else {
        let d1 = (d - 0x78) as nat;
        let mask = if d1 / 256 < 7 { d1 / 256 } else { 7 };
        let d2 = (d1 - mask * 256) as nat;
        let extra = if d2 > 0x78 { 0x78 } else { d2 };
        let v = (0x78 + mask * 256 + extra) as nat;
        let rest = (d2 - extra) as nat;
        assert(d1 == (d1 / 256) * 256 + d1 % 256);
        assert(v + rest == d);
        let head = seq![Command::Delay(v as usize)];
        lemma_one_command(Command::Delay(v as usize));
        lemma_delay_pieces(rest);
        lemma_concat_parts(head, delay_pieces(rest));
        assert(head.drop_last() =~= Seq::<Command>::empty());
        assert((v - 0x78) / 256 == mask) by (nonlinear_arith)
            requires
                v == 0x78 + mask * 256 + extra,
                0 <= extra <= 0x78,
                0 <= mask,
        ;
        assert((v - 0x78) % 256 == extra) by (nonlinear_arith)
            requires
                v == 0x78 + mask * 256 + extra,
                0 <= extra <= 0x78,
                0 <= mask,
        ;
        assert(one_piece_delay(v as int));
        reveal_with_fuel(delay_bytes, 2);
        assert(delay_bytes((extra - extra) as nat) == Seq::<u8>::empty());
        assert(command_bytes(Command::Delay(v as usize)) =~= seq![(0x78 + mask) as u8, extra as u8]);
        assert(commands_bytes(head) =~= seq![(0x78 + mask) as u8, extra as u8]);
        assert(commands_bytes(delay_pieces(d)) =~= delay_bytes(d));
        assert(without_delays(head) =~= Seq::<Command>::empty());
        assert(without_delays(delay_pieces(d)) =~= Seq::<Command>::empty());
        assert forall|i: int| 0 <= i < delay_pieces(d).len() implies plain_command(#[trigger] delay_pieces(d)[i]) by {
            if i > 0 {
                assert(delay_pieces(d)[i] == delay_pieces(rest)[i - 1]);
            }
        }
    }
}

/// Splitting the delays of a run of plain commands and delays keeps its bytes, its length in
/// time and its other commands, and leaves only plain commands before its closing `End`.
proof fn lemma_split_delays(cmds: Seq<Command>, k: int)
    requires
        0 <= k <= cmds.len(),
        forall|i: int| 0 <= i < k ==> plain_command(#[trigger] cmds[i]) || cmds[i] is Delay || cmds[i] == Command::End,
    ensures
        ({
            let t = cmds.take(k);
            &&& commands_bytes(split_delays(t)) == commands_bytes(t)
            &&& commands_time(split_delays(t)) == commands_time(t)
            &&& without_delays(split_delays(t)) == without_delays(t)
            &&& forall|j: int| 0 <= j < split_delays(t).len() ==> plain_command(#[trigger] split_delays(t)[j])
                || split_delays(t)[j] == Command::End
        }),
    decreases k,
{
    let t = cmds.take(k);
    if k == 0 {
        assert(t =~= Seq::<Command>::empty());
    } else {
        lemma_split_delays(cmds, k - 1);
        let u = cmds.take(k - 1);
        assert(t.drop_last() =~= u);
        let c = cmds[k - 1];
        assert(t.last() == c);
        let ps = pieces_of(c);
        lemma_concat_parts(split_delays(u), ps);
        let single = seq![c];
        lemma_one_command(c);
        lemma_concat_parts(u, single);
        assert(u + single =~= t);
        assert(single.drop_last() =~= Seq::<Command>::empty());
        match c {
            Command::Delay(d) => {
                lemma_delay_pieces(d as nat);
                assert(commands_bytes(single) =~= delay_bytes(d as nat));
                assert(without_delays(single) =~= Seq::<Command>::empty());
            },
            _ => {
                assert(ps == single);
            },
        }
        let st = split_delays(t);
        assert(st == split_delays(u) + ps);
        assert forall|j: int| 0 <= j < st.len() implies plain_command(#[trigger] st[j]) || st[j] == Command::End by {
            if j >= split_delays(u).len() {
                assert(st[j] == ps[j - split_delays(u).len()]);
            } else {
                assert(st[j] == split_delays(u)[j]);
            }
        }
    }
}

/// A run of plain commands and delays of any length closed by an `End` is written as the bytes
/// of its commands, and reading those bytes back gives its commands with each long delay split
/// into the pieces it was written as ([`split_delays`]): the same commands other than delays,
/// in order, and delays that add up to the same time.
pub proof fn law_long_delays_roundtrip(cmds: Seq<Command>, s: Seq<u8>, start: int, id: u32)
    requires
        delay_sequence(cmds),
        0 <= start,
        start + commands_bytes(cmds).len() <= s.len(),
        s.subrange(start, start + commands_bytes(cmds).len()) == commands_bytes(cmds),
        start + commands_bytes(cmds).len() != 0x38EB,
    ensures
        encode_commands(cmds, start) == Ok::<Seq<u8>, crate::bgm::en::MarkerFault>(commands_bytes(cmds)),
        plain_sequence(split_delays(cmds)),
        commands_time(split_delays(cmds)) == commands_time(cmds),
        without_delays(split_delays(cmds)) == without_delays(cmds),
        decode_sequence(s, start, id) == Ok::<(DecodedEntries, int, u32), Error>(
            (
                plain_entries(split_delays(cmds), split_delays(cmds).len() as int, id),
                start + commands_bytes(cmds).len(),
                id_after(id, split_delays(cmds).len()),
            ),
        ),
{
    let n = cmds.len() as int;
    assert forall|j: int| 0 <= j < cmds.len() implies !(#[trigger] cmds[j] is Detour) by {
        if j < n - 1 {
            if !(cmds[j] is Delay) {
                assert(plain_command(cmds[j]));
            }
        }
    }
    lemma_no_detours(cmds, start, commands_bytes(cmds), 0);
    assert forall|i: int| 0 <= i < n implies plain_command(#[trigger] cmds[i]) || cmds[i] is Delay || cmds[i]
        == Command::End by {
        if i < n - 1 {
        }
    }
    lemma_split_delays(cmds, n - 1);
    let u = cmds.take(n - 1);
    assert(cmds.drop_last() =~= u);
    let e = split_delays(cmds);
    assert(e == split_delays(u) + seq![Command::End]);
    let su = split_delays(u);
    lemma_concat_parts(su, seq![Command::End]);
    lemma_concat_parts(u, seq![Command::End]);
    assert(u + seq![Command::End] =~= cmds);
    assert(commands_bytes(e) == commands_bytes(cmds));
    assert forall|i: int| 0 <= i < e.len() - 1 implies plain_command(#[trigger] e[i]) by {
        assert(e[i] == su[i]);
        if su[i] == Command::End {
            assert(false) by {
                lemma_no_end_pieces(u, i);
            }
        }
    }
    assert(e.last() == Command::End);
    law_sequence_roundtrip(e, s, start, id);
}

/// A delay of any length followed by an `End` reads back as delays that add up to it, then the
/// `End`: decoding the bytes that encoding writes for `[Delay(d), End]` gives the commands of
/// [`split_delays`], which are delays but for the last, an `End`, and whose delays add up to `d`.
/// It holds unless those bytes end at byte 0x38EB, where decoding goes on to a marker that one
/// song needs.
pub proof fn law_delay_then_end_roundtrip(d: usize, id: u32)
    requires
        commands_bytes(seq![Command::Delay(d), Command::End]).len() != 0x38EB,
    ensures
        ({
            let cmds = seq![Command::Delay(d), Command::End];
            let back = split_delays(cmds);
            &&& encode_commands(cmds, 0) == Ok::<Seq<u8>, crate::bgm::en::MarkerFault>(commands_bytes(cmds))
            &&& decode_sequence(commands_bytes(cmds), 0, id) matches Ok((entries, _, _)) && entries.len() == back.len()
                && forall|i: int| 0 <= i < back.len() ==> #[trigger] entries[i].1.1 == Decoded::Cmd(back[i])
            &&& back.len() >= 1 && back.last() == Command::End
            &&& forall|i: int| 0 <= i < back.len() - 1 ==> #[trigger] back[i] is Delay
            &&& commands_time(back) == d
        }),
{
    let cmds = seq![Command::Delay(d), Command::End];
    let b = commands_bytes(cmds);
    assert(cmds.last() == Command::End);
    assert(delay_sequence(cmds)) by {
        assert forall|i: int| 0 <= i < cmds.len() - 1 implies plain_command(#[trigger] cmds[i]) || cmds[i] is Delay by {
            assert(cmds[i] == Command::Delay(d));
        }
    }
    assert(b.subrange(0, b.len() as int) =~= b);
    law_long_delays_roundtrip(cmds, b, 0, id);
    let back = split_delays(cmds);
    let u = seq![Command::Delay(d)];
    assert(cmds.drop_last() =~= u);
    assert(u.drop_last() =~= Seq::<Command>::empty());
    assert(split_delays(u) == split_delays(Seq::<Command>::empty()) + delay_pieces(d as nat));
    assert(split_delays(u) =~= delay_pieces(d as nat));
    assert(back == delay_pieces(d as nat) + seq![Command::End]);
    lemma_one_command(Command::Delay(d));
    lemma_one_command(Command::End);
    lemma_concat_parts(u, seq![Command::End]);
    assert(u + seq![Command::End] =~= cmds);
    assert forall|i: int| 0 <= i < back.len() - 1 implies #[trigger] back[i] is Delay by {
        assert(back[i] == delay_pieces(d as nat)[i]);
        lemma_delay_pieces_delays(d as nat, i);
    }
}

/// Splitting the delays of commands before the closing `End` leaves no `End` among them.
proof fn lemma_no_end_pieces(u: Seq<Command>, i: int)
    requires
        forall|j: int| 0 <= j < u.len() ==> #[trigger] u[j] != Command::End,
        0 <= i < split_delays(u).len(),
    ensures
        split_delays(u)[i] != Command::End,
    decreases u.len(),
{
    let v = u.drop_last();
    let ps = pieces_of(u.last());
    assert(split_delays(u) == split_delays(v) + ps);
    if i < split_delays(v).len() {
        assert(split_delays(u)[i] == split_delays(v)[i]);
        assert forall|j: int| 0 <= j < v.len() implies #[trigger] v[j] != Command::End by {
            assert(v[j] == u[j]);
        }
        lemma_no_end_pieces(v, i);
    } else {
        assert(split_delays(u)[i] == ps[i - split_delays(v).len()]);
        assert(u.last() == u[u.len() - 1]);
        match u.last() {
            Command::Delay(d) => {
                lemma_delay_pieces_delays(d as nat, i - split_delays(v).len());
            },
            _ => {},
        }
    }
}

/// Every piece of a delay is a delay.
proof fn lemma_delay_pieces_delays(d: nat, i: int)
    requires
        0 <= i < delay_pieces(d).len(),
    ensures
        delay_pieces(d)[i] is Delay,
    decreases d,
{
    if d >= 0x78 {
        let d1 = (d - 0x78) as nat;
        let mask = if d1 / 256 < 7 { d1 / 256 } else { 7 };
        let d2 = (d1 - mask * 256) as nat;
        let extra = if d2 > 0x78 { 0x78 } else { d2 };
        if i > 0 {
            lemma_delay_pieces_delays((d2 - extra) as nat, i - 1);
        }
    }
}

/// The segment entries that come back unchanged from their bytes: waits, loop starts whose
/// label fits in 12 bits, and loop ends whose label and count fit their 5 and 7 bits.
/// (Subsegments come back through the track list they name; the two unknown kinds are written
/// without their command word.)
pub open spec fn plain_segment(seg: Segment) -> bool {
    match seg {
        Segment::Wait { .. } => true,
        Segment::StartLoop { label_index, .. } => label_index < 0x1000,
        Segment::EndLoop { label_index, iter_count, .. } => label_index < 32 && iter_count < 128,
        _ => false,
    }
}

proof fn lemma_word_split(hi: u16, lo: u16, kind: int)
    requires
        lo < 0x1000,
        hi == kind * 0x1000,
        0 <= kind < 16,
    ensures
        ({
            let data = hi * 0x1_0000 + lo;
            &&& data / 0x1000 == kind * 0x1_0000
            &&& data % 0x1_0000 == lo
            &&& data % 32 == lo % 32
            &&& (data / 32) % 128 == (lo / 32) % 128
        }),
{
    let data = hi * 0x1_0000 + lo;
    assert(data == kind * 0x1000_0000 + lo);
    assert(data / 0x1000 == kind * 0x1_0000) by (nonlinear_arith)
        requires
            data == kind * 0x1000_0000 + lo,
            0 <= lo < 0x1000,
            0 <= kind,
    ;
    assert(data % 0x1_0000 == lo) by (nonlinear_arith)
        requires
            data == kind * 0x1000_0000 + lo,
            0 <= lo < 0x1000,
            0 <= kind,
    ;
    assert(data % 32 == lo % 32) by (nonlinear_arith)
        requires
            data == kind * 0x1000_0000 + lo,
            0 <= lo < 0x1000,
            0 <= kind,
    ;
    assert(data / 32 == kind * 0x80_0000 + lo / 32) by (nonlinear_arith)
        requires
            data == kind * 0x1000_0000 + lo,
            0 <= lo < 0x1000,
            0 <= kind,
    ;
    assert((kind * 0x80_0000 + lo / 32) % 128 == (lo / 32) % 128) by (nonlinear_arith)
        requires
            0 <= lo < 0x1000,
            0 <= kind,
    ;
}

proof fn lemma_segment_word(s: Seq<u8>, p: int, hi: u16, lo: u16)
    requires
        0 <= p,
        p + 4 <= s.len(),
        s.subrange(p, p + 4) == u16_bytes(hi) + u16_bytes(lo),
    ensures
        crate::rw::be32(s[p], s[p + 1], s[p + 2], s[p + 3]) == hi * 0x1_0000 + lo,
{
    let b = u16_bytes(hi) + u16_bytes(lo);
    lemma_bytes_at(s, p, b);
    lemma_u16_bytes(hi);
    lemma_u16_bytes(lo);
    assert(s[p] == b[0] && s[p + 1] == b[1] && s[p + 2] == b[2] && s[p + 3] == b[3]);
}

/// Reading back the bytes of a plain segment entry gives the entry, with a fresh identifier.
pub proof fn law_segment_roundtrip(seg: Segment, s: Seq<u8>, p: int, start: int, ps: Seq<Option<u64>>, id: u32)
    requires
        plain_segment(seg),
        0 <= p,
        p + 4 <= s.len(),
        s.subrange(p, p + 4) == segment_bytes(seg),
    ensures
        decode_segment(s, p, start, ps, id) == Ok::<(Segment, Option<(u64, Seq<crate::bgm::de::TrackModel>)>, u32), Error>(
            (segment_with_id(seg, Some(id)), None, next_id(id)),
        ),
{
    match seg {
        Segment::Wait { .. } => {
            lemma_segment_word(s, p, 0x4000, 0);
            lemma_word_split(0x4000, 0, 4);
        },
        Segment::StartLoop { label_index, .. } => {
            lemma_segment_word(s, p, 0x3000, label_index);
            lemma_word_split(0x3000, label_index, 3);
        },
        Segment::EndLoop { label_index, iter_count, .. } => {
            let w = loop_word(label_index, iter_count);
            assert(w == label_index + iter_count * 32);
            lemma_segment_word(s, p, 0x5000, w);
            lemma_word_split(0x5000, w, 5);
            assert(w % 32 == label_index) by (nonlinear_arith)
                requires
                    w == label_index + iter_count * 32,
                    label_index < 32,
            ;
            assert((w / 32) % 128 == iter_count) by (nonlinear_arith)
                requires
                    w == label_index + iter_count * 32,
                    label_index < 32,
                    iter_count < 128,
            ;
        },
        _ => {},
    }
}

/// The high byte of a 16-bit value.
pub open spec fn hi(v: u16) -> u8 {
    (v / 256) as u8
}

/// The low byte of a 16-bit value.
pub open spec fn lo(v: u16) -> u8 {
    (v % 256) as u8
}

/// The byte layout of the commands with more than one operand: the command byte, then the
/// operands in the order the command lists them, 16-bit values high byte first.
pub proof fn law_command_layout()
    ensures
        forall|bank: u8, patch: u8| #[trigger] command_bytes(Command::TrackOverridePatch { bank, patch }) == seq![0xE8u8, bank, patch],
        forall|index: u8, value: u8| #[trigger] command_bytes(Command::MasterEffect { index, value }) == seq![0xE6u8, index, value],
        forall|amount: u8, speed: u8, time: u8| #[trigger] command_bytes(Command::TrackTremolo { amount, speed, time })
            == seq![0xF0u8, amount, speed, time],
        forall|pan0: u8, pan1: u8| #[trigger] command_bytes(Command::UnkCmdF4 { pan0, pan1 }) == seq![0xF4u8, pan0, pan1],
        forall|a: u8, b: u8, c: u8| #[trigger] command_bytes(Command::UnkCmdFF { unk_00: a, unk_01: b, unk_02: c })
            == seq![0xFFu8, a, b, c],
        forall|bpm: u16| #[trigger] command_bytes(Command::MasterTempo(bpm)) == seq![0xE0u8, hi(bpm), lo(bpm)],
        forall|time: u16, value: u16| #[trigger] command_bytes(Command::MasterTempoFade { time, value }) == seq![
            0xE4u8,
            hi(time),
            lo(time),
            hi(value),
            lo(value),
        ],
        forall|time: u16, volume: u8| #[trigger] command_bytes(Command::MasterVolumeFade { time, volume }) == seq![
            0xE5u8,
            hi(time),
            lo(time),
            volume,
        ],
        forall|time: u16, value: u8| #[trigger] command_bytes(Command::TrackVolumeFade { time, value }) == seq![
            0xF6u8,
            hi(time),
            lo(time),
            value,
        ],
        forall|a: u16, b: u8| #[trigger] command_bytes(Command::Jump { unk_00: a, unk_02: b }) == seq![0xFCu8, hi(a), lo(a), b],
        forall|pitch: u8, velocity: u8, length: u16|
            length < 0xC0 ==> #[trigger] command_bytes(Command::Note { pitch, velocity, length }) == seq![pitch, velocity, length as u8],
        forall|v: u8| #[trigger] command_bytes(Command::MasterVolume(v)) == seq![0xE1u8, v],
        forall|v: u8| #[trigger] command_bytes(Command::MasterPitchShift { cent: v }) == seq![0xE2u8, v],
        forall|v: u8| #[trigger] command_bytes(Command::UnkCmdE3 { effect_type: v }) == seq![0xE3u8, v],
        forall|v: u8| #[trigger] command_bytes(Command::SubTrackVolume(v)) == seq![0xE9u8, v],
        forall|v: u8| #[trigger] command_bytes(Command::SubTrackReverb(v)) == seq![0xEBu8, v],
        forall|v: u8| #[trigger] command_bytes(Command::SegTrackVolume(v)) == seq![0xECu8, v],
        forall|v: u8| #[trigger] command_bytes(Command::SubTrackCoarseTune(v)) == seq![0xEDu8, v],
        forall|v: u8| #[trigger] command_bytes(Command::SubTrackFineTune(v)) == seq![0xEEu8, v],
        forall|v: u8| #[trigger] command_bytes(Command::TrackTremoloSpeed(v)) == seq![0xF1u8, v],
        forall|v: u8| #[trigger] command_bytes(Command::TrackTremoloTime { time: v }) == seq![0xF2u8, v],
        forall|v: u8| #[trigger] command_bytes(Command::SetTrackVoice { index: v }) == seq![0xF5u8, v],
        forall|v: u8| #[trigger] command_bytes(Command::SubTrackReverbType { index: v }) == seq![0xF7u8, v],
        forall|v: i8| #[trigger] command_bytes(Command::SubTrackPan(v)) == seq![0xEAu8, crate::rw::i8_byte(v)],
        forall|v: i16| #[trigger] command_bytes(Command::SegTrackTune { bend: v }) == seq![0xEFu8] + crate::rw::i16_bytes(v),
        forall|v: u32| #[trigger] command_bytes(Command::EventTrigger { event_info: v }) == seq![
            0xFDu8,
            (v / 0x100_0000) as u8,
            ((v / 0x1_0000) % 256) as u8,
            ((v / 256) % 256) as u8,
            (v % 256) as u8,
        ],
        command_bytes(Command::TrackTremoloStop) == seq![0xF3u8],
        command_bytes(Command::End) == seq![0u8],
        forall|d: usize| 1 <= d < 0x78 ==> #[trigger] command_bytes(Command::Delay(d)) == seq![d as u8],
        forall|d: usize|
            0x78 <= d && (d - 0x78) / 256 <= 7 && (d - 0x78) % 256 <= 0x78 ==> #[trigger] command_bytes(Command::Delay(d))
                == seq![(0x78 + (d - 0x78) / 256) as u8, ((d - 0x78) % 256) as u8],
        forall|pitch: u8, velocity: u8, length: u16|
            0xC0 <= length < 0x40C0 ==> #[trigger] command_bytes(Command::Note { pitch, velocity, length }) == seq![
                pitch,
                velocity,
                (0xC0 + (length - 0xC0) / 256) as u8,
                ((length - 0xC0) % 256) as u8,
            ],
{
    reveal_with_fuel(delay_bytes, 2);
    assert forall|d: usize|
        0x78 <= d && (d - 0x78) / 256 <= 7 && (d - 0x78) % 256 <= 0x78 implies #[trigger] command_bytes(Command::Delay(d))
            == seq![(0x78 + (d - 0x78) / 256) as u8, ((d - 0x78) % 256) as u8] by {
        let d1 = (d - 0x78) as nat;
        let e = d1 % 256;
        assert(d1 == (d1 / 256) * 256 + e);
        assert(delay_bytes((e - e) as nat) == Seq::<u8>::empty());
        assert(delay_bytes(d as nat) =~= seq![(0x78 + (d - 0x78) / 256) as u8, ((d - 0x78) % 256) as u8]);
    }
    assert forall|pitch: u8, velocity: u8, length: u16|
        0xC0 <= length < 0x40C0 implies #[trigger] command_bytes(Command::Note { pitch, velocity, length }) == seq![
            pitch,
            velocity,
            (0xC0 + (length - 0xC0) / 256) as u8,
            ((length - 0xC0) % 256) as u8,
        ] by {
        let l2 = (length - 0xC0) as u16;
        let h = (l2 / 256) as u8;
        assert(h < 0x40);
        assert(h | 0xC0u8 == h + 0xC0) by (bit_vector)
            requires
                h < 0x40,
        ;
        assert(command_bytes(Command::Note { pitch, velocity, length }) =~= seq![
            pitch,
            velocity,
            (0xC0 + (length - 0xC0) / 256) as u8,
            ((length - 0xC0) % 256) as u8,
        ]);
    }
}

/// Reading the commands with more than one operand takes the operands in the order of the
/// layout of [`law_command_layout`], wherever the command stands: the byte after the command
/// byte is the first operand, and 16-bit operands come high byte first.
#[verifier::rlimit(80)]
pub proof fn law_command_reading()
    ensures
        forall|s: Seq<u8>, p: int, st: int|
            0 <= p && p + 2 <= s.len() && 0x78 <= s[p] < 0x80 ==> #[trigger] parse_command(s, p, st) == Ok::<(Decoded, int), Error>(
                (Decoded::Cmd(Command::Delay((0x78 + (s[p] - 0x78) * 256 + s[p + 1]) as usize)), p + 2),
            ),
        forall|s: Seq<u8>, p: int, st: int|
            0 <= p && p + 4 <= s.len() && 0x80 <= s[p] <= 0xD3 && s[p + 2] >= 0xC0 ==> #[trigger] parse_command(s, p, st) == Ok::<(Decoded, int), Error>(
                (Decoded::Cmd(Command::Note { pitch: s[p], velocity: s[p + 1], length: (0xC0 + (s[p + 2] - 0xC0) * 256 + s[p + 3]) as u16 }), p + 4),
            ),
        forall|s: Seq<u8>, p: int, st: int|
            0 <= p && p + 2 <= s.len() && s[p] == 0xE1u8 ==> #[trigger] parse_command(s, p, st) == Ok::<(Decoded, int), Error>(
                (Decoded::Cmd(Command::MasterVolume(s[p + 1])), p + 2),
            ),
        forall|s: Seq<u8>, p: int, st: int|
            0 <= p && p + 2 <= s.len() && s[p] == 0xE2u8 ==> #[trigger] parse_command(s, p, st) == Ok::<(Decoded, int), Error>(
                (Decoded::Cmd(Command::MasterPitchShift { cent: s[p + 1] }), p + 2),
            ),
        forall|s: Seq<u8>, p: int, st: int|
            0 <= p && p + 2 <= s.len() && s[p] == 0xE3u8 ==> #[trigger] parse_command(s, p, st) == Ok::<(Decoded, int), Error>(
                (Decoded::Cmd(Command::UnkCmdE3 { effect_type: s[p + 1] }), p + 2),
            ),
        forall|s: Seq<u8>, p: int, st: int|
            0 <= p && p + 2 <= s.len() && s[p] == 0xE9u8 ==> #[trigger] parse_command(s, p, st) == Ok::<(Decoded, int), Error>(
                (Decoded::Cmd(Command::SubTrackVolume(s[p + 1])), p + 2),
            ),
        forall|s: Seq<u8>, p: int, st: int|
            0 <= p && p + 2 <= s.len() && s[p] == 0xEAu8 ==> #[trigger] parse_command(s, p, st) == Ok::<(Decoded, int), Error>(
                (Decoded::Cmd(Command::SubTrackPan(crate::rw::signed8(s[p + 1]) as i8)), p + 2),
            ),
        forall|s: Seq<u8>, p: int, st: int|
            0 <= p && p + 2 <= s.len() && s[p] == 0xEBu8 ==> #[trigger] parse_command(s, p, st) == Ok::<(Decoded, int), Error>(
                (Decoded::Cmd(Command::SubTrackReverb(s[p + 1])), p + 2),
            ),
        forall|s: Seq<u8>, p: int, st: int|
            0 <= p && p + 2 <= s.len() && s[p] == 0xECu8 ==> #[trigger] parse_command(s, p, st) == Ok::<(Decoded, int), Error>(
                (Decoded::Cmd(Command::SegTrackVolume(s[p + 1])), p + 2),
            ),
        forall|s: Seq<u8>, p: int, st: int|
            0 <= p && p + 2 <= s.len() && s[p] == 0xEDu8 ==> #[trigger] parse_command(s, p, st) == Ok::<(Decoded, int), Error>(
                (Decoded::Cmd(Command::SubTrackCoarseTune(s[p + 1])), p + 2),
            ),
        forall|s: Seq<u8>, p: int, st: int|
            0 <= p && p + 2 <= s.len() && s[p] == 0xEEu8 ==> #[trigger] parse_command(s, p, st) == Ok::<(Decoded, int), Error>(
                (Decoded::Cmd(Command::SubTrackFineTune(s[p + 1])), p + 2),
            ),
        forall|s: Seq<u8>, p: int, st: int|
            0 <= p && p + 2 <= s.len() && s[p] == 0xF1u8 ==> #[trigger] parse_command(s, p, st) == Ok::<(Decoded, int), Error>(
                (Decoded::Cmd(Command::TrackTremoloSpeed(s[p + 1])), p + 2),
            ),
        forall|s: Seq<u8>, p: int, st: int|
            0 <= p && p + 2 <= s.len() && s[p] == 0xF2u8 ==> #[trigger] parse_command(s, p, st) == Ok::<(Decoded, int), Error>(
                (Decoded::Cmd(Command::TrackTremoloTime { time: s[p + 1] }), p + 2),
            ),
        forall|s: Seq<u8>, p: int, st: int|
            0 <= p && p + 2 <= s.len() && s[p] == 0xF5u8 ==> #[trigger] parse_command(s, p, st) == Ok::<(Decoded, int), Error>(
                (Decoded::Cmd(Command::SetTrackVoice { index: s[p + 1] }), p + 2),
            ),
        forall|s: Seq<u8>, p: int, st: int|
            0 <= p && p + 2 <= s.len() && s[p] == 0xF7u8 ==> #[trigger] parse_command(s, p, st) == Ok::<(Decoded, int), Error>(
                (Decoded::Cmd(Command::SubTrackReverbType { index: s[p + 1] }), p + 2),
            ),
        forall|s: Seq<u8>, p: int, st: int|
            0 <= p && p + 3 <= s.len() && s[p] == 0xEFu8 ==> #[trigger] parse_command(s, p, st) == Ok::<(Decoded, int), Error>(
                (Decoded::Cmd(Command::SegTrackTune { bend: crate::rw::signed16(s[p + 1] * 256 + s[p + 2]) as i16 }), p + 3),
            ),
        forall|s: Seq<u8>, p: int, st: int|
            0 <= p && p + 5 <= s.len() && s[p] == 0xFDu8 ==> #[trigger] parse_command(s, p, st) == Ok::<(Decoded, int), Error>(
                (Decoded::Cmd(Command::EventTrigger { event_info: (s[p + 1] * 0x100_0000 + s[p + 2] * 0x1_0000 + s[p + 3] * 0x100 + s[p + 4]) as u32 }), p + 5),
            ),
        forall|s: Seq<u8>, p: int, st: int|
            0 <= p && p + 1 <= s.len() && s[p] == 0xF3u8 ==> #[trigger] parse_command(s, p, st) == Ok::<(Decoded, int), Error>(
                (Decoded::Cmd(Command::TrackTremoloStop), p + 1),
            ),
        forall|s: Seq<u8>, p: int, st: int|
            0 <= p && p + 1 <= s.len() && s[p] == 0u8 ==> #[trigger] parse_command(s, p, st) == Ok::<(Decoded, int), Error>(
                (Decoded::Cmd(Command::End), p + 1),
            ),
        forall|s: Seq<u8>, p: int, st: int|
            0 <= p && p + 3 <= s.len() && 0x80 <= s[p] <= 0xD3 && s[p + 2] < 0xC0 ==> #[trigger] parse_command(s, p, st) == Ok::<(Decoded, int), Error>(
                (Decoded::Cmd(Command::Note { pitch: s[p], velocity: s[p + 1], length: s[p + 2] as u16 }), p + 3),
            ),
        forall|s: Seq<u8>, p: int, st: int|
            0 <= p && p + 1 <= s.len() && 1 <= s[p] < 0x78 ==> #[trigger] parse_command(s, p, st) == Ok::<(Decoded, int), Error>(
                (Decoded::Cmd(Command::Delay(s[p] as usize)), p + 1),
            ),
        forall|s: Seq<u8>, p: int, st: int|
            0 <= p && p + 3 <= s.len() && s[p] == 0xE8u8 ==> #[trigger] parse_command(s, p, st) == Ok::<(Decoded, int), Error>(
                (Decoded::Cmd(Command::TrackOverridePatch { bank: s[p + 1], patch: s[p + 2] }), p + 3),
            ),
        forall|s: Seq<u8>, p: int, st: int|
            0 <= p && p + 3 <= s.len() && s[p] == 0xE6u8 ==> #[trigger] parse_command(s, p, st) == Ok::<(Decoded, int), Error>(
                (Decoded::Cmd(Command::MasterEffect { index: s[p + 1], value: s[p + 2] }), p + 3),
            ),
        forall|s: Seq<u8>, p: int, st: int|
            0 <= p && p + 4 <= s.len() && s[p] == 0xF0u8 ==> #[trigger] parse_command(s, p, st) == Ok::<(Decoded, int), Error>(
                (Decoded::Cmd(Command::TrackTremolo { amount: s[p + 1], speed: s[p + 2], time: s[p + 3] }), p + 4),
            ),
        forall|s: Seq<u8>, p: int, st: int|
            0 <= p && p + 3 <= s.len() && s[p] == 0xF4u8 ==> #[trigger] parse_command(s, p, st) == Ok::<(Decoded, int), Error>(
                (Decoded::Cmd(Command::UnkCmdF4 { pan0: s[p + 1], pan1: s[p + 2] }), p + 3),
            ),
        forall|s: Seq<u8>, p: int, st: int|
            0 <= p && p + 4 <= s.len() && s[p] == 0xFFu8 ==> #[trigger] parse_command(s, p, st) == Ok::<(Decoded, int), Error>(
                (Decoded::Cmd(Command::UnkCmdFF { unk_00: s[p + 1], unk_01: s[p + 2], unk_02: s[p + 3] }), p + 4),
            ),
        forall|s: Seq<u8>, p: int, st: int|
            0 <= p && p + 3 <= s.len() && s[p] == 0xE0u8 ==> #[trigger] parse_command(s, p, st) == Ok::<(Decoded, int), Error>(
                (Decoded::Cmd(Command::MasterTempo((s[p + 1] * 256 + s[p + 2]) as u16)), p + 3),
            ),
        forall|s: Seq<u8>, p: int, st: int|
            0 <= p && p + 5 <= s.len() && s[p] == 0xE4u8 ==> #[trigger] parse_command(s, p, st) == Ok::<(Decoded, int), Error>(
                (Decoded::Cmd(Command::MasterTempoFade { time: (s[p + 1] * 256 + s[p + 2]) as u16, value: (s[p + 3] * 256 + s[p + 4]) as u16 }), p + 5),
            ),
        forall|s: Seq<u8>, p: int, st: int|
            0 <= p && p + 4 <= s.len() && s[p] == 0xE5u8 ==> #[trigger] parse_command(s, p, st) == Ok::<(Decoded, int), Error>(
                (Decoded::Cmd(Command::MasterVolumeFade { time: (s[p + 1] * 256 + s[p + 2]) as u16, volume: s[p + 3] }), p + 4),
            ),
        forall|s: Seq<u8>, p: int, st: int|
            0 <= p && p + 4 <= s.len() && s[p] == 0xF6u8 ==> #[trigger] parse_command(s, p, st) == Ok::<(Decoded, int), Error>(
                (Decoded::Cmd(Command::TrackVolumeFade { time: (s[p + 1] * 256 + s[p + 2]) as u16, value: s[p + 3] }), p + 4),
            ),
        forall|s: Seq<u8>, p: int, st: int|
            0 <= p && p + 4 <= s.len() && s[p] == 0xFCu8 ==> #[trigger] parse_command(s, p, st) == Ok::<(Decoded, int), Error>(
                (Decoded::Cmd(Command::Jump { unk_00: (s[p + 1] * 256 + s[p + 2]) as u16, unk_02: s[p + 3] }), p + 4),
            ),
{
    assert forall|s: Seq<u8>, p: int, st: int|
        0 <= p && p + 2 <= s.len() && 0x78 <= s[p] < 0x80 implies #[trigger] parse_command(s, p, st) == Ok::<(Decoded, int), Error>(
            (Decoded::Cmd(Command::Delay((0x78 + (s[p] - 0x78) * 256 + s[p + 1]) as usize)), p + 2),
        ) by {
        assert(s.subrange(p + 1, p + 2)[0] == s[p + 1]);
    }
    assert forall|s: Seq<u8>, p: int, st: int|
        0 <= p && p + 2 <= s.len() && s[p] == 0xE1u8 implies #[trigger] parse_command(s, p, st) == Ok::<(Decoded, int), Error>(
            (Decoded::Cmd(Command::MasterVolume(s[p + 1])), p + 2),
        ) by {
        assert(s.subrange(p + 1, p + 2)[0] == s[p + 1]);
    }
    assert forall|s: Seq<u8>, p: int, st: int|
        0 <= p && p + 2 <= s.len() && s[p] == 0xE2u8 implies #[trigger] parse_command(s, p, st) == Ok::<(Decoded, int), Error>(
            (Decoded::Cmd(Command::MasterPitchShift { cent: s[p + 1] }), p + 2),
        ) by {
        assert(s.subrange(p + 1, p + 2)[0] == s[p + 1]);
    }
    assert forall|s: Seq<u8>, p: int, st: int|
        0 <= p && p + 2 <= s.len() && s[p] == 0xE3u8 implies #[trigger] parse_command(s, p, st) == Ok::<(Decoded, int), Error>(
            (Decoded::Cmd(Command::UnkCmdE3 { effect_type: s[p + 1] }), p + 2),
        ) by {
        assert(s.subrange(p + 1, p + 2)[0] == s[p + 1]);
    }
    assert forall|s: Seq<u8>, p: int, st: int|
        0 <= p && p + 2 <= s.len() && s[p] == 0xE9u8 implies #[trigger] parse_command(s, p, st) == Ok::<(Decoded, int), Error>(
            (Decoded::Cmd(Command::SubTrackVolume(s[p + 1])), p + 2),
        ) by {
        assert(s.subrange(p + 1, p + 2)[0] == s[p + 1]);
    }
    assert forall|s: Seq<u8>, p: int, st: int|
        0 <= p && p + 2 <= s.len() && s[p] == 0xEAu8 implies #[trigger] parse_command(s, p, st) == Ok::<(Decoded, int), Error>(
            (Decoded::Cmd(Command::SubTrackPan(crate::rw::signed8(s[p + 1]) as i8)), p + 2),
        ) by {
        assert(s.subrange(p + 1, p + 2)[0] == s[p + 1]);
    }
    assert forall|s: Seq<u8>, p: int, st: int|
        0 <= p && p + 2 <= s.len() && s[p] == 0xEBu8 implies #[trigger] parse_command(s, p, st) == Ok::<(Decoded, int), Error>(
            (Decoded::Cmd(Command::SubTrackReverb(s[p + 1])), p + 2),
        ) by {
        assert(s.subrange(p + 1, p + 2)[0] == s[p + 1]);
    }
    assert forall|s: Seq<u8>, p: int, st: int|
        0 <= p && p + 2 <= s.len() && s[p] == 0xECu8 implies #[trigger] parse_command(s, p, st) == Ok::<(Decoded, int), Error>(
            (Decoded::Cmd(Command::SegTrackVolume(s[p + 1])), p + 2),
        ) by {
        assert(s.subrange(p + 1, p + 2)[0] == s[p + 1]);
    }
    assert forall|s: Seq<u8>, p: int, st: int|
        0 <= p && p + 2 <= s.len() && s[p] == 0xEDu8 implies #[trigger] parse_command(s, p, st) == Ok::<(Decoded, int), Error>(
            (Decoded::Cmd(Command::SubTrackCoarseTune(s[p + 1])), p + 2),
        ) by {
        assert(s.subrange(p + 1, p + 2)[0] == s[p + 1]);
    }
    assert forall|s: Seq<u8>, p: int, st: int|
        0 <= p && p + 2 <= s.len() && s[p] == 0xEEu8 implies #[trigger] parse_command(s, p, st) == Ok::<(Decoded, int), Error>(
            (Decoded::Cmd(Command::SubTrackFineTune(s[p + 1])), p + 2),
        ) by {
        assert(s.subrange(p + 1, p + 2)[0] == s[p + 1]);
    }
    assert forall|s: Seq<u8>, p: int, st: int|
        0 <= p && p + 2 <= s.len() && s[p] == 0xF1u8 implies #[trigger] parse_command(s, p, st) == Ok::<(Decoded, int), Error>(
            (Decoded::Cmd(Command::TrackTremoloSpeed(s[p + 1])), p + 2),
        ) by {
        assert(s.subrange(p + 1, p + 2)[0] == s[p + 1]);
    }
    assert forall|s: Seq<u8>, p: int, st: int|
        0 <= p && p + 2 <= s.len() && s[p] == 0xF2u8 implies #[trigger] parse_command(s, p, st) == Ok::<(Decoded, int), Error>(
            (Decoded::Cmd(Command::TrackTremoloTime { time: s[p + 1] }), p + 2),
        ) by {
        assert(s.subrange(p + 1, p + 2)[0] == s[p + 1]);
    }
    assert forall|s: Seq<u8>, p: int, st: int|
        0 <= p && p + 2 <= s.len() && s[p] == 0xF5u8 implies #[trigger] parse_command(s, p, st) == Ok::<(Decoded, int), Error>(
            (Decoded::Cmd(Command::SetTrackVoice { index: s[p + 1] }), p + 2),
        ) by {
        assert(s.subrange(p + 1, p + 2)[0] == s[p + 1]);
    }
    assert forall|s: Seq<u8>, p: int, st: int|
        0 <= p && p + 2 <= s.len() && s[p] == 0xF7u8 implies #[trigger] parse_command(s, p, st) == Ok::<(Decoded, int), Error>(
            (Decoded::Cmd(Command::SubTrackReverbType { index: s[p + 1] }), p + 2),
        ) by {
        assert(s.subrange(p + 1, p + 2)[0] == s[p + 1]);
    }
    assert forall|s: Seq<u8>, p: int, st: int|
        0 <= p && p + 3 <= s.len() && s[p] == 0xEFu8 implies #[trigger] parse_command(s, p, st) == Ok::<(Decoded, int), Error>(
            (Decoded::Cmd(Command::SegTrackTune { bend: crate::rw::signed16(s[p + 1] * 256 + s[p + 2]) as i16 }), p + 3),
        ) by {
        assert(s.subrange(p + 1, p + 3)[0] == s[p + 1]);
        assert(s.subrange(p + 1, p + 3)[1] == s[p + 2]);
    }
    assert forall|s: Seq<u8>, p: int, st: int|
        0 <= p && p + 5 <= s.len() && s[p] == 0xFDu8 implies #[trigger] parse_command(s, p, st) == Ok::<(Decoded, int), Error>(
            (Decoded::Cmd(Command::EventTrigger { event_info: (s[p + 1] * 0x100_0000 + s[p + 2] * 0x1_0000 + s[p + 3] * 0x100 + s[p + 4]) as u32 }), p + 5),
        ) by {
        assert(s.subrange(p + 1, p + 5)[0] == s[p + 1]);
        assert(s.subrange(p + 1, p + 5)[1] == s[p + 2]);
        assert(s.subrange(p + 1, p + 5)[2] == s[p + 3]);
        assert(s.subrange(p + 1, p + 5)[3] == s[p + 4]);
    }
    assert forall|s: Seq<u8>, p: int, st: int|
        0 <= p && p + 1 <= s.len() && s[p] == 0xF3u8 implies #[trigger] parse_command(s, p, st) == Ok::<(Decoded, int), Error>(
            (Decoded::Cmd(Command::TrackTremoloStop), p + 1),
        ) by {
    }
    assert forall|s: Seq<u8>, p: int, st: int|
        0 <= p && p + 1 <= s.len() && s[p] == 0u8 implies #[trigger] parse_command(s, p, st) == Ok::<(Decoded, int), Error>(
            (Decoded::Cmd(Command::End), p + 1),
        ) by {
    }
    assert forall|s: Seq<u8>, p: int, st: int|
        0 <= p && p + 3 <= s.len() && s[p] == 0xE8u8 implies #[trigger] parse_command(s, p, st) == Ok::<(Decoded, int), Error>(
            (Decoded::Cmd(Command::TrackOverridePatch { bank: s[p + 1], patch: s[p + 2] }), p + 3),
        ) by {
        assert(s.subrange(p + 1, p + 3)[0] == s[p + 1]);
        assert(s.subrange(p + 1, p + 3)[1] == s[p + 2]);
    }
    assert forall|s: Seq<u8>, p: int, st: int|
        0 <= p && p + 3 <= s.len() && s[p] == 0xE6u8 implies #[trigger] parse_command(s, p, st) == Ok::<(Decoded, int), Error>(
            (Decoded::Cmd(Command::MasterEffect { index: s[p + 1], value: s[p + 2] }), p + 3),
        ) by {
        assert(s.subrange(p + 1, p + 3)[0] == s[p + 1]);
        assert(s.subrange(p + 1, p + 3)[1] == s[p + 2]);
    }
    assert forall|s: Seq<u8>, p: int, st: int|
        0 <= p && p + 4 <= s.len() && s[p] == 0xF0u8 implies #[trigger] parse_command(s, p, st) == Ok::<(Decoded, int), Error>(
            (Decoded::Cmd(Command::TrackTremolo { amount: s[p + 1], speed: s[p + 2], time: s[p + 3] }), p + 4),
        ) by {
        assert(s.subrange(p + 1, p + 4)[0] == s[p + 1]);
        assert(s.subrange(p + 1, p + 4)[1] == s[p + 2]);
        assert(s.subrange(p + 1, p + 4)[2] == s[p + 3]);
    }
    assert forall|s: Seq<u8>, p: int, st: int|
        0 <= p && p + 3 <= s.len() && s[p] == 0xF4u8 implies #[trigger] parse_command(s, p, st) == Ok::<(Decoded, int), Error>(
            (Decoded::Cmd(Command::UnkCmdF4 { pan0: s[p + 1], pan1: s[p + 2] }), p + 3),
        ) by {
        assert(s.subrange(p + 1, p + 3)[0] == s[p + 1]);
        assert(s.subrange(p + 1, p + 3)[1] == s[p + 2]);
    }
    assert forall|s: Seq<u8>, p: int, st: int|
        0 <= p && p + 4 <= s.len() && s[p] == 0xFFu8 implies #[trigger] parse_command(s, p, st) == Ok::<(Decoded, int), Error>(
            (Decoded::Cmd(Command::UnkCmdFF { unk_00: s[p + 1], unk_01: s[p + 2], unk_02: s[p + 3] }), p + 4),
        ) by {
        assert(s.subrange(p + 1, p + 4)[0] == s[p + 1]);
        assert(s.subrange(p + 1, p + 4)[1] == s[p + 2]);
        assert(s.subrange(p + 1, p + 4)[2] == s[p + 3]);
    }
    assert forall|s: Seq<u8>, p: int, st: int|
        0 <= p && p + 3 <= s.len() && s[p] == 0xE0u8 implies #[trigger] parse_command(s, p, st) == Ok::<(Decoded, int), Error>(
            (Decoded::Cmd(Command::MasterTempo((s[p + 1] * 256 + s[p + 2]) as u16)), p + 3),
        ) by {
        assert(s.subrange(p + 1, p + 3)[0] == s[p + 1]);
        assert(s.subrange(p + 1, p + 3)[1] == s[p + 2]);
    }
    assert forall|s: Seq<u8>, p: int, st: int|
        0 <= p && p + 5 <= s.len() && s[p] == 0xE4u8 implies #[trigger] parse_command(s, p, st) == Ok::<(Decoded, int), Error>(
            (Decoded::Cmd(Command::MasterTempoFade { time: (s[p + 1] * 256 + s[p + 2]) as u16, value: (s[p + 3] * 256 + s[p + 4]) as u16 }), p + 5),
        ) by {
        assert(s.subrange(p + 1, p + 5)[0] == s[p + 1]);
        assert(s.subrange(p + 1, p + 5)[1] == s[p + 2]);
        assert(s.subrange(p + 1, p + 5)[2] == s[p + 3]);
        assert(s.subrange(p + 1, p + 5)[3] == s[p + 4]);
    }
    assert forall|s: Seq<u8>, p: int, st: int|
        0 <= p && p + 4 <= s.len() && s[p] == 0xE5u8 implies #[trigger] parse_command(s, p, st) == Ok::<(Decoded, int), Error>(
            (Decoded::Cmd(Command::MasterVolumeFade { time: (s[p + 1] * 256 + s[p + 2]) as u16, volume: s[p + 3] }), p + 4),
        ) by {
        assert(s.subrange(p + 1, p + 4)[0] == s[p + 1]);
        assert(s.subrange(p + 1, p + 4)[1] == s[p + 2]);
        assert(s.subrange(p + 1, p + 4)[2] == s[p + 3]);
    }
    assert forall|s: Seq<u8>, p: int, st: int|
        0 <= p && p + 4 <= s.len() && s[p] == 0xF6u8 implies #[trigger] parse_command(s, p, st) == Ok::<(Decoded, int), Error>(
            (Decoded::Cmd(Command::TrackVolumeFade { time: (s[p + 1] * 256 + s[p + 2]) as u16, value: s[p + 3] }), p + 4),
        ) by {
        assert(s.subrange(p + 1, p + 4)[0] == s[p + 1]);
        assert(s.subrange(p + 1, p + 4)[1] == s[p + 2]);
        assert(s.subrange(p + 1, p + 4)[2] == s[p + 3]);
    }
    assert forall|s: Seq<u8>, p: int, st: int|
        0 <= p && p + 4 <= s.len() && s[p] == 0xFCu8 implies #[trigger] parse_command(s, p, st) == Ok::<(Decoded, int), Error>(
            (Decoded::Cmd(Command::Jump { unk_00: (s[p + 1] * 256 + s[p + 2]) as u16, unk_02: s[p + 3] }), p + 4),
        ) by {
        assert(s.subrange(p + 1, p + 4)[0] == s[p + 1]);
        assert(s.subrange(p + 1, p + 4)[1] == s[p + 2]);
        assert(s.subrange(p + 1, p + 4)[2] == s[p + 3]);
    }
}

} // verus!
