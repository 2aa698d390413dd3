//! Command sequences: the notes and effects of one track, ordered by relative time.

use core::ops::Range;

use vstd::prelude::*;

use crate::id::{gen_id, next_id, Id, IdGen};

verus! {

pub type MarkerId = String;

/// The longest delay a single delay byte can hold.
pub const DELAY_MAX: u8 = 0x78;

/// A command of a track's sequence (see audio.h union SeqArgs).
#[derive(Debug, Clone, PartialEq, Eq)]
pub enum Command {
    /// Stops playback on this track. Commands after an `End` can still run through a
    /// [`Detour`](Command::Detour).
    End,
    /// Sleeps for however many ticks before continuing playback on this track.
    Delay(usize),
    /// Plays a note or drum sound.
    Note { pitch: u8, velocity: u8, length: u16 },
    /// Sets the beats-per-minute of the composition.
    MasterTempo(u16),
    /// Sets the composition volume.
    MasterVolume(u8),
    /// Sets the composition transpose value.
    MasterPitchShift { cent: u8 },
    UnkCmdE3 { effect_type: u8 },
    /// Fades the tempo to `value` across `time` ticks.
    MasterTempoFade { time: u16, value: u16 },
    /// Fades the volume to `volume` across `time` ticks.
    MasterVolumeFade { time: u16, volume: u8 },
    /// Applies the given effect to the entire composition.
    MasterEffect { index: u8, value: u8 },
    /// Sets the bank/patch of this track, overriding its instrument.
    TrackOverridePatch { bank: u8, patch: u8 },
    /// Sets the volume for this track only. Resets at the end of the segment.
    SubTrackVolume(u8),
    /// Left = 0, middle = 64, right = 127.
    SubTrackPan(i8),
    SubTrackReverb(u8),
    /// Sets the volume for this track only. Resets at the end of the variation.
    SegTrackVolume(u8),
    SubTrackCoarseTune(u8),
    SubTrackFineTune(u8),
    SegTrackTune { bend: i16 },
    TrackTremolo { amount: u8, speed: u8, time: u8 },
    TrackTremoloSpeed(u8),
    TrackTremoloTime { time: u8 },
    TrackTremoloStop,
    UnkCmdF4 { pan0: u8, pan1: u8 },
    SetTrackVoice { index: u8 },
    TrackVolumeFade { time: u16, value: u8 },
    SubTrackReverbType { index: u8 },
    Jump { unk_00: u16, unk_02: u8 },
    EventTrigger { event_info: u32 },
    /// Jumps to the start label and executes until the end label is found.
    Detour { start_label: MarkerId, end_label: MarkerId },
    UnkCmdFF { unk_00: u8, unk_01: u8, unk_02: u8 },
    /// A named position in the sequence. The binary format has no markers (it uses command
    /// offsets); markers stay stable while the sequence is edited.
    Marker { label: MarkerId },
}

/// A command together with the identifier that tells it apart while it is edited.
#[derive(Debug, Clone, PartialEq, Eq)]
pub struct Event {
    pub id: Id,
    pub command: Command,
}

/// The ticks that a command waits: its length if it is a delay, 0 otherwise.
pub open spec fn delay_of(c: Command) -> nat {
    match c {
        Command::Delay(t) => t as nat,
        _ => 0,
    }
}

/// The relative time at the end of `s`: the sum of its delays.
pub open spec fn total_time(s: Seq<Event>) -> nat
    decreases s.len(),
{
    if s.len() == 0 {
        0
    } else {
        total_time(s.drop_last()) + delay_of(s.last().command)
    }
}

/// The relative time at which the event at index `i` of `s` runs.
pub open spec fn time_at(s: Seq<Event>, i: int) -> nat {
    total_time(s.take(i))
}

/// The commands of a sequence of events.
pub open spec fn commands_of(s: Seq<Event>) -> Seq<Command> {
    s.map_values(|e: Event| e.command)
}

pub proof fn lemma_total_time_append(a: Seq<Event>, b: Seq<Event>)
    ensures
        total_time(a + b) == total_time(a) + total_time(b),
    decreases b.len(),
{
    if b.len() > 0 {
        lemma_total_time_append(a, b.drop_last());
        assert((a + b).drop_last() =~= a + b.drop_last());
    } else {
        assert(a + b =~= a);
    }
}

pub proof fn lemma_time_at_step(s: Seq<Event>, i: int)
    requires
        0 <= i < s.len(),
    ensures
        time_at(s, i + 1) == time_at(s, i) + delay_of(s[i].command),
{
    assert(s.take(i + 1).drop_last() =~= s.take(i));
}

pub proof fn lemma_time_at_monotone(s: Seq<Event>, i: int, j: int)
    requires
        0 <= i <= j <= s.len(),
    ensures
        time_at(s, i) <= time_at(s, j),
    decreases j - i,
{
    if i < j {
        lemma_time_at_monotone(s, i, j - 1);
        lemma_time_at_step(s, j - 1);
    }
}

pub proof fn lemma_time_at_len(s: Seq<Event>)
    ensures
        time_at(s, s.len() as int) == total_time(s),
{
    assert(s.take(s.len() as int) =~= s);
}

impl Event {
    /// An event for `command` with a fresh identifier.
    pub fn new(ids: &mut IdGen, command: Command) -> (r: Event)
        ensures
            r == (Event { id: old(ids).peek(), command }),
            final(ids).peek() == next_id(old(ids).peek()),
    {
        Event { id: gen_id(ids), command }
    }
}

/// A contiguous sequence of [commands](Command) ordered by relative time: the number of ticks
/// since the start of the sequence, which only a [`Command::Delay`] advances.
///
/// Commands at the same time have no defined order among themselves, so the sequence acts like
/// a map from relative time to commands more than like a vector.
#[derive(Debug, Clone, PartialEq, Eq)]
pub struct CommandSeq {
    vec: Vec<Event>,
}

impl View for CommandSeq {
    type V = Seq<Event>;

    closed spec fn view(&self) -> Seq<Event> {
        self.vec@
    }
}

/// The events of `s` that [`CommandSeq::shrink`] keeps: all but zero delays and zero-length
/// notes.
pub open spec fn kept_events(s: Seq<Event>) -> Seq<Event>
    decreases s.len(),
{
    if s.len() == 0 {
        s
    } else {
        let rest = kept_events(s.drop_last());
        match s.last().command {
            Command::Delay(0) => rest,
            Command::Note { length: 0, .. } => rest,
            _ => rest.push(s.last()),
        }
    }
}

/// The end of the pitch range of the notes in `s`: one above the highest pitch (at most 255),
/// or 0 when there are no notes.
pub open spec fn pitch_range_end(s: Seq<Event>) -> u8
    decreases s.len(),
{
    if s.len() == 0 {
        0
    } else {
        let rest = pitch_range_end(s.drop_last());
        match s.last().command {
            Command::Note { pitch, .. } => {
                let top = if pitch == 255 { 255u8 } else { (pitch + 1) as u8 };
                if pitch >= rest { top } else { rest }
            },
            _ => rest,
        }
    }
}

/// `s` with every delay replaced by a zero delay that takes the next identifier from `next`
/// in order.
pub open spec fn zero_delays(s: Seq<Event>, next: u32) -> Seq<Event>
    decreases s.len(),
{
    if s.len() == 0 {
        s
    } else {
        match s[0].command {
            Command::Delay(_) => seq![Event { id: next, command: Command::Delay(0) }]
                + zero_delays(s.drop_first(), next_id(next)),
            _ => seq![s[0]] + zero_delays(s.drop_first(), next),
        }
    }
}

/// The identifier that follows the ones that [`zero_delays`] hands out.
pub open spec fn zero_delays_next(s: Seq<Event>, next: u32) -> u32
    decreases s.len(),
{
    if s.len() == 0 {
        next
    } else {
        match s[0].command {
            Command::Delay(_) => zero_delays_next(s.drop_first(), next_id(next)),
            _ => zero_delays_next(s.drop_first(), next),
        }
    }
}

/// How long the event at index `i` of `s` sounds or waits: a delay's ticks, a note's length,
/// and nothing for any other command.
pub open spec fn event_span(s: Seq<Event>, i: int) -> int {
    match s[i].command {
        Command::Delay(d) => d as int,
        Command::Note { length, .. } => length as int,
        _ => 0,
    }
}

/// The time at which the event at index `i` of `s` stops: its start plus its span.
pub open spec fn event_end(s: Seq<Event>, i: int) -> int {
    time_at(s, i) + event_span(s, i)
}

/// The latest time at which one of the first `k` events of `s` stops (0 for none).
pub open spec fn latest_end(s: Seq<Event>, k: int) -> int
    decreases k,
{
    if k <= 0 {
        0
    } else {
        let prev = latest_end(s, k - 1);
        let e = event_end(s, k - 1);
        if e > prev { e } else { prev }
    }
}

/// The time at which playback of `s` ends: when every event has stopped, so when the last
/// note has finished sounding and the last delay has passed (0 for an empty sequence).
pub open spec fn spec_playback_time(s: Seq<Event>) -> int {
    latest_end(s, s.len() as int)
}

/// Every event stops no later than [`latest_end`] over a prefix that holds it, and that
/// latest end only grows with the prefix.
pub proof fn lemma_latest_end(s: Seq<Event>, i: int, k: int)
    requires
        0 <= i < k <= s.len(),
    ensures
        event_end(s, i) <= latest_end(s, k),
        latest_end(s, i) <= latest_end(s, k),
    decreases k,
{
    if i < k - 1 {
        lemma_latest_end(s, i, k - 1);
    }
}

/// The elements of `v` in reverse order; popping them then yields them front to back.
pub fn reversed<T>(v: Vec<T>) -> (r: Vec<T>)
    ensures
        r@ == v@.reverse(),
{
    let ghost s = v@;
    let mut src = v;
    let mut out: Vec<T> = Vec::new();
    while src.len() > 0
        invariant
            src@.len() <= s.len(),
            src@ == s.take(src@.len() as int),
            out@ == s.skip(src@.len() as int).reverse(),
        decreases src@.len(),
    {
        let ghost k = src@.len() as int;
        let ghost prev = out@;
        let x = src.pop().unwrap();
        assert(x == s[k - 1]);
        out.push(x);
        assert(src@ =~= s.take(k - 1));
        assert forall|j: int| 0 <= j < out@.len() implies #[trigger] out@[j] == s.skip(k - 1).reverse()[j] by {
            if j < prev.len() {
                assert(out@[j] == prev[j]);
            }
        }
        assert(out@ =~= s.skip(k - 1).reverse());
    }
    assert(s.skip(0) =~= s);
    out
}

impl CommandSeq {
    pub fn new() -> (r: Self)
        ensures
            r@ == Seq::<Event>::empty(),
    {
        Self::with_capacity(0)
    }

    /// See `Vec::with_capacity`.
    pub fn with_capacity(capacity: usize) -> (r: Self)
        ensures
            r@ == Seq::<Event>::empty(),
    {
        CommandSeq { vec: Vec::with_capacity(capacity) }
    }

    /// The sequence of exactly these events, in this order.
    pub fn from_events(events: Vec<Event>) -> (r: Self)
        ensures
            r@ == events@,
    {
        CommandSeq { vec: events }
    }

    /// The events in time order.
    pub fn as_slice(&self) -> (r: &[Event])
        ensures
            r@ == self@,
    {
        self.vec.as_slice()
    }

    /// Iterates over the events in time order.
    pub fn iter(&self) -> (r: std::slice::Iter<'_, Event>)
        ensures
            vstd::std_specs::iter::IteratorSpec::remaining(&r) == self@.as_ref(),
    {
        broadcast use vstd::std_specs::slice::axiom_spec_slice_iter;
        self.vec.as_slice().iter()
    }

    /// Appends the given event to the end of the sequence.
    pub fn push(&mut self, event: Event)
        ensures
            final(self)@ == old(self)@.push(event),
    {
        self.vec.push(event)
    }

    /// Returns the number of commands ("length") in the sequence.
    pub fn len(&self) -> (r: usize)
        ensures
            r == self@.len(),
    {
        self.vec.len()
    }

    /// Whether the sequence holds nothing, or nothing but an `End`.
    pub fn is_empty(&self) -> (r: bool)
        ensures
            r == (self@.len() == 0 || (self@.len() == 1 && self@[0].command is End)),
    {
        self.vec.len() == 0 || (self.vec.len() == 1 && matches!(self.vec[0].command, Command::End))
    }

    /// Returns the relative time after the last command: the sum of the delays. Notes that
    /// sound past it are not counted (see [`CommandSeq::playback_time`]).
    pub fn len_time(&self) -> (r: usize)
        requires
            total_time(self@) <= usize::MAX,
        ensures
            r == total_time(self@),
    {
        let mut time: usize = 0;
        let mut i: usize = 0;
        while i < self.vec.len()
            invariant
                i <= self@.len(),
                total_time(self@) <= usize::MAX,
                time == time_at(self@, i as int),
            decreases self@.len() - i,
        {
            proof {
                lemma_time_at_step(self@, i as int);
                lemma_time_at_monotone(self@, i + 1, self@.len() as int);
                lemma_time_at_len(self@);
            }
            if let Command::Delay(delta_time) = self.vec[i].command {
                time = time + delta_time;
            }
            i = i + 1;
        }
        proof {
            lemma_time_at_len(self@);
        }
        time
    }

    /// The time it takes for this sequence to finish in terms of playback: the time at which
    /// all notes have stopped (and every delay has passed).
    pub fn playback_time(&self) -> (r: usize)
        requires
            spec_playback_time(self@) <= usize::MAX,
        ensures
            r == spec_playback_time(self@),
    {
        let n = self.vec.len();
        let mut time: usize = 0;
        let mut latest: usize = 0;
        let mut i: usize = 0;
        while i < n
            invariant
                n == self@.len(),
                i <= n,
                spec_playback_time(self@) <= usize::MAX,
                time == time_at(self@, i as int),
                latest == latest_end(self@, i as int),
            decreases n - i,
        {
            proof {
                lemma_time_at_step(self@, i as int);
                lemma_latest_end(self@, i as int, n as int);
            }
            let span: usize = match self.vec[i].command {
                Command::Delay(d) => d,
                Command::Note { length, .. } => length as usize,
                _ => 0,
            };
            let end = time + span;
            if end > latest {
                latest = end;
            }
            if let Command::Delay(delta_time) = self.vec[i].command {
                time = time + delta_time;
            }
            i = i + 1;
        }
        latest
    }

    /// Removes the commands that do nothing (zero delays and zero-length notes).
    pub fn shrink(&mut self)
        ensures
            final(self)@ == kept_events(old(self)@),
    {
        let ghost s = self.vec@;
        let mut kept: Vec<Event> = Vec::new();
        let mut taken: Vec<Event> = Vec::new();
        core::mem::swap(&mut taken, &mut self.vec);
        let mut rest = reversed(taken);
        let ghost rev = rest@;
        assert(rev =~= s.reverse());
        while rest.len() > 0
            invariant
                rest@.len() <= s.len(),
                rest@ =~= s.reverse().take(rest@.len() as int),
                kept@ == kept_events(s.take(s.len() - rest@.len())),
            decreases rest@.len(),
        {
            let ghost k: int = s.len() - rest@.len();
            let e = rest.pop().unwrap();
            proof {
                assert(e == s[k]);
                assert(s.take(k + 1).drop_last() =~= s.take(k));
                assert(s.take(k + 1).last() == s[k]);
            }
            match e.command {
                Command::Delay(0) => {},
                Command::Note { length: 0, .. } => {},
                _ => kept.push(e),
            }
        }
        assert(s.take(s.len() as int) =~= s);
        self.vec = kept;
    }

    /// The range of pitches that the notes cover: `0..end`, where `end` is one above the
    /// highest pitch (at most 255).
    pub fn pitch_range(&self) -> (r: Range<u8>)
        ensures
            r.start == 0,
            r.end == pitch_range_end(self@),
    {
        let mut end: u8 = 0;
        let mut i: usize = 0;
        while i < self.vec.len()
            invariant
                i <= self@.len(),
                end == pitch_range_end(self@.take(i as int)),
            decreases self@.len() - i,
        {
            proof {
                assert(self@.take(i + 1).drop_last() =~= self@.take(i as int));
            }
            if let Command::Note { pitch, .. } = self.vec[i].command {
                if pitch >= end {
                    end = if pitch == 255 { 255 } else { pitch + 1 };
                }
            }
            i = i + 1;
        }
        assert(self@.take(self@.len() as int) =~= self@);
        0..end
    }

    /// Replaces the command at `idx` by a zero delay, which does nothing.
    pub fn clear_command(&mut self, ids: &mut IdGen, idx: usize)
        requires
            idx < old(self)@.len(),
        ensures
            final(self)@ == old(self)@.update(
                idx as int,
                Event { id: old(ids).peek(), command: Command::Delay(0) },
            ),
            final(ids).peek() == next_id(old(ids).peek()),
    {
        let e = Event::new(ids, Command::Delay(0));
        self.vec.set(idx, e);
    }

    /// Replaces every delay by a zero delay.
    pub fn zero_all_delays(&mut self, ids: &mut IdGen)
        ensures
            final(self)@ == zero_delays(old(self)@, old(ids).peek()),
            final(ids).peek() == zero_delays_next(old(self)@, old(ids).peek()),
    {
        let ghost s = self.vec@;
        let ghost first = ids.peek();
        let mut done: Vec<Event> = Vec::new();
        let mut taken: Vec<Event> = Vec::new();
        core::mem::swap(&mut taken, &mut self.vec);
        let mut rest = reversed(taken);
        assert(s.skip(0) =~= s);
        assert(done@ + s =~= s);
        while rest.len() > 0
            invariant
                rest@.len() <= s.len(),
                rest@ =~= s.reverse().take(rest@.len() as int),
                done@ + zero_delays(s.skip(s.len() - rest@.len()), ids.peek()) == zero_delays(s, first),
                zero_delays_next(s.skip(s.len() - rest@.len()), ids.peek()) == zero_delays_next(s, first),
            decreases rest@.len(),
        {
            let ghost k: int = s.len() - rest@.len();
            let e = rest.pop().unwrap();
            proof {
                assert(e == s[k]);
                assert(s.skip(k)[0] == s[k]);
                assert(s.skip(k).drop_first() =~= s.skip(k + 1));
            }
            let ghost before = done@;
            let ghost p0 = ids.peek();
            match e.command {
                Command::Delay(_) => {
                    let z = Event::new(ids, Command::Delay(0));
                    done.push(z);
                },
                _ => done.push(e),
            }
            assert(zero_delays(s.skip(k), p0) == seq![done@.last()] + zero_delays(s.skip(k + 1), ids.peek()));
            assert(done@ + zero_delays(s.skip(k + 1), ids.peek()) =~= before + zero_delays(s.skip(k), p0));
        }
        assert(s.skip(s.len() as int) =~= Seq::<Event>::empty());
        assert(done@ =~= zero_delays(s, first));
        self.vec = done;
    }

    /// The commands, in order, without their identifiers.
    pub fn to_command_vec(self) -> (r: Vec<Command>)
        ensures
            r@ == commands_of(self@),
    {
        let mut out: Vec<Command> = Vec::new();
        let mut rest = reversed(self.vec);
        let ghost s = self@;
        while rest.len() > 0
            invariant
                rest@.len() <= s.len(),
                rest@ =~= s.reverse().take(rest@.len() as int),
                out@ =~= commands_of(s.take(s.len() - rest@.len())),
            decreases rest@.len(),
        {
            let ghost k: int = s.len() - rest@.len();
            let e = rest.pop().unwrap();
            assert(e == s[k]);
            out.push(e.command);
        }
        assert(s.take(s.len() as int) =~= s);
        out
    }
}


/// Where a relative time stands in a sequence.
#[derive(Debug, PartialEq, Eq, Clone, Copy)]
pub enum DelayLookup {
    /// The index of the delay that introduces the time: the command (if any) right after it
    /// runs at that time.
    Found(usize),
    /// The index where a delay would have to be inserted to introduce the time, and the time
    /// at that index.
    Missing { index: usize, time_at_index: usize },
}

/// The first index from `i` on whose delay reaches `time` (given that the time at `i` is before
/// it): [`DelayLookup::Found`] if it reaches it exactly, [`DelayLookup::Missing`] if it passes
/// it or if no delay reaches it.
pub open spec fn lookup_from(s: Seq<Event>, time: int, i: int) -> DelayLookup
    decreases s.len() - i,
{
    if i < 0 || i >= s.len() {
        DelayLookup::Missing { index: s.len() as usize, time_at_index: time_at(s, s.len() as int) as usize }
    } else if time_at(s, i + 1) == time {
        DelayLookup::Found(i as usize)
    } else if time_at(s, i + 1) > time {
        DelayLookup::Missing { index: i as usize, time_at_index: time_at(s, i) as usize }
    } else {
        lookup_from(s, time, i + 1)
    }
}

/// Where `time` stands in `s`. Time 0 always stands before everything.
pub open spec fn spec_lookup(s: Seq<Event>, time: int) -> DelayLookup {
    if time == 0 {
        DelayLookup::Missing { index: 0, time_at_index: 0 }
    } else {
        lookup_from(s, time, 0)
    }
}

/// The end of the run of consecutive delays that starts at `i`.
pub open spec fn delay_run_end(s: Seq<Event>, i: int) -> int
    decreases s.len() - i,
{
    if 0 <= i < s.len() && s[i].command is Delay {
        delay_run_end(s, i + 1)
    } else {
        i
    }
}

/// The first index from `i` on that holds a delay or an `End`, or the length of `s`.
pub open spec fn first_stop(s: Seq<Event>, i: int) -> int
    decreases s.len() - i,
{
    if i < 0 || i >= s.len() {
        s.len() as int
    } else if s[i].command is Delay || s[i].command is End {
        i
    } else {
        first_stop(s, i + 1)
    }
}

/// A delay event of `t` ticks with identifier `id`, or nothing if `t` is 0.
pub open spec fn delay_event(id: u32, t: int) -> Seq<Event> {
    if t > 0 {
        seq![Event { id, command: Command::Delay(t as usize) }]
    } else {
        Seq::empty()
    }
}

/// The identifier after those that [`delay_event`] used.
pub open spec fn after_delay_event(id: u32, t: int) -> u32 {
    if t > 0 { next_id(id) } else { id }
}

/// The ticks before `time` and after it that replace the run of delays at `index`, when no
/// delay introduces `time`.
pub open spec fn split_ticks(s: Seq<Event>, time: int, index: int) -> (int, int) {
    let end = delay_run_end(s, index);
    let delta = time_at(s, end) - time_at(s, index);
    let before = time - time_at(s, index);
    let after = if delta > before { delta - before } else { 0 };
    (before, after)
}

/// Where [`CommandSeq::insert_many_start`] puts the inserted events.
pub open spec fn insert_start_pos(s: Seq<Event>, time: int) -> int {
    match spec_lookup(s, time) {
        DelayLookup::Found(d) => d + 1,
        DelayLookup::Missing { index, .. } => index + (if split_ticks(s, time, index as int).0 > 0 {
            1int
        } else {
            0
        }),
    }
}

/// `s` with a gap opened at `time` where no delay introduces it: the run of delays at the
/// insertion point becomes a delay up to `time`, the events `sub`, then a delay for the rest
/// of the run. New delays take identifiers from `id` on.
pub open spec fn open_gap(s: Seq<Event>, time: int, index: int, sub: Seq<Event>, id: u32) -> Seq<Event> {
    let end = delay_run_end(s, index);
    let (before, after) = split_ticks(s, time, index);
    s.take(index) + delay_event(id, before) + sub + delay_event(after_delay_event(id, before), after)
        + s.skip(end)
}

/// The identifier after those that [`open_gap`] used.
pub open spec fn open_gap_next(s: Seq<Event>, time: int, index: int, id: u32) -> u32 {
    let (before, after) = split_ticks(s, time, index);
    after_delay_event(after_delay_event(id, before), after)
}

/// `s` after [`CommandSeq::insert_many_start`] puts `sub` at the start of `time`.
pub open spec fn insert_start_result(s: Seq<Event>, time: int, sub: Seq<Event>, id: u32) -> Seq<Event> {
    match spec_lookup(s, time) {
        DelayLookup::Found(d) => s.take(d + 1) + sub + s.skip(d + 1),
        DelayLookup::Missing { index, .. } => open_gap(s, time, index as int, sub, id),
    }
}

/// The identifier after those that [`CommandSeq::insert_many_start`] used.
pub open spec fn insert_start_next(s: Seq<Event>, time: int, id: u32) -> u32 {
    match spec_lookup(s, time) {
        DelayLookup::Found(_) => id,
        DelayLookup::Missing { index, .. } => open_gap_next(s, time, index as int, id),
    }
}

/// Where [`CommandSeq::insert_many_end`] puts the inserted events when commands already run
/// at `time`: after them, before the next delay or `End`.
pub open spec fn insert_end_stop(s: Seq<Event>, time: int) -> Option<int> {
    if time == 0 {
        Some(first_stop(s, 0))
    } else {
        match spec_lookup(s, time) {
            DelayLookup::Found(d) => Some(first_stop(s, d + 1)),
            DelayLookup::Missing { .. } => None,
        }
    }
}

/// `s` after [`CommandSeq::insert_many_end`] puts `sub` at the end of `time`.
pub open spec fn insert_end_result(s: Seq<Event>, time: int, sub: Seq<Event>, id: u32) -> Seq<Event> {
    match insert_end_stop(s, time) {
        Some(k) => s.take(k) + sub + s.skip(k),
        None => insert_start_result(s, time, sub, id),
    }
}

/// The identifier after those that [`CommandSeq::insert_many_end`] used.
pub open spec fn insert_end_next(s: Seq<Event>, time: int, id: u32) -> u32 {
    match insert_end_stop(s, time) {
        Some(_) => id,
        None => insert_start_next(s, time, id),
    }
}

proof fn lemma_lookup_from_index(s: Seq<Event>, time: int, i: int)
    requires
        0 <= i <= s.len(),
        s.len() <= usize::MAX,
        total_time(s) <= usize::MAX,
        time_at(s, i) < time,
    ensures
        match lookup_from(s, time, i) {
            DelayLookup::Found(d) => i <= d < s.len() && time_at(s, d as int) < time && time_at(s, d + 1)
                == time,
            DelayLookup::Missing { index, time_at_index } => i <= index <= s.len() && time_at(s, index as int)
                < time && (index == s.len() || time_at(s, index + 1) > time) && time_at_index
                == time_at(s, index as int),
        },
    decreases s.len() - i,
{
    lemma_time_at_len(s);
    lemma_time_at_monotone(s, i, s.len() as int);
    if i < s.len() {
        lemma_time_at_step(s, i);
        if time_at(s, i + 1) < time {
            lemma_lookup_from_index(s, time, i + 1);
        }
    }
}

impl CommandSeq {
    /// Finds the delay that introduces `time`. Zero delays are passed over.
    pub fn lookup_delay(&self, time: usize) -> (r: DelayLookup)
        requires
            total_time(self@) <= usize::MAX,
        ensures
            r == spec_lookup(self@, time as int),
    {
        if time == 0 {
            return DelayLookup::Missing { index: 0, time_at_index: 0 };
        }
        let ghost s = self@;
        let mut current_time: usize = 0;
        let mut index: usize = 0;
        assert(s.take(0) =~= Seq::<Event>::empty());
        while index < self.vec.len()
            invariant
                s == self@,
                total_time(s) <= usize::MAX,
                index <= s.len(),
                time > 0,
                current_time == time_at(s, index as int),
                current_time < time,
                lookup_from(s, time as int, 0) == lookup_from(s, time as int, index as int),
            decreases s.len() - index,
        {
            proof {
                lemma_time_at_step(s, index as int);
                lemma_time_at_monotone(s, index + 1, s.len() as int);
                lemma_time_at_len(s);
            }
            if let Command::Delay(delta_time) = self.vec[index].command {
                let time_at_index = current_time;
                current_time = current_time + delta_time;
                if current_time == time {
                    return DelayLookup::Found(index);
                }
                if current_time > time {
                    return DelayLookup::Missing { index, time_at_index };
                }
            }
            index = index + 1;
        }
        proof {
            lemma_time_at_len(s);
        }
        DelayLookup::Missing { index: self.vec.len(), time_at_index: current_time }
    }

    /// The end of the run of delays at `index`, and the ticks the run covers.
    fn delay_run(&self, index: usize) -> (r: (usize, usize))
        requires
            index <= self@.len(),
            total_time(self@) <= usize::MAX,
        ensures
            r.0 == delay_run_end(self@, index as int),
            r.1 == time_at(self@, r.0 as int) - time_at(self@, index as int),
            index <= r.0 <= self@.len(),
    {
        let ghost s = self@;
        let mut end = index;
        let mut delta: usize = 0;
        while end < self.vec.len() && matches!(self.vec[end].command, Command::Delay(_))
            invariant
                s == self@,
                total_time(s) <= usize::MAX,
                index <= end <= s.len(),
                delay_run_end(s, index as int) == delay_run_end(s, end as int),
                delta == time_at(s, end as int) - time_at(s, index as int),
            decreases s.len() - end,
        {
            proof {
                lemma_time_at_step(s, end as int);
                lemma_time_at_monotone(s, index as int, end as int);
                lemma_time_at_monotone(s, end + 1, s.len() as int);
                lemma_time_at_len(s);
            }
            if let Command::Delay(t) = self.vec[end].command {
                delta = delta + t;
            }
            end = end + 1;
        }
        (end, delta)
    }

    /// The first index from `i` on that holds a delay or an `End`, or the length.
    fn find_stop(&self, i: usize) -> (r: usize)
        requires
            i <= self@.len(),
        ensures
            r == first_stop(self@, i as int),
            i <= r <= self@.len(),
    {
        let mut k = i;
        while k < self.vec.len()
            invariant
                i <= k <= self@.len(),
                first_stop(self@, i as int) == first_stop(self@, k as int),
            decreases self@.len() - k,
        {
            match self.vec[k].command {
                Command::Delay(_) => return k,
                Command::End => return k,
                _ => {},
            }
            k = k + 1;
        }
        k
    }

    /// Replaces the run of delays at `index` by a delay up to `time`, the events `sub`, then a
    /// delay for the rest of the run.
    fn insert_in_gap(&mut self, ids: &mut IdGen, time: usize, index: usize, time_at_index: usize, sub: Vec<Event>)
        requires
            total_time(old(self)@) <= usize::MAX,
            index <= old(self)@.len(),
            time_at_index == time_at(old(self)@, index as int),
            time_at(old(self)@, index as int) <= time,
        ensures
            final(self)@ == open_gap(old(self)@, time as int, index as int, sub@, old(ids).peek()),
            final(ids).peek() == open_gap_next(old(self)@, time as int, index as int, old(ids).peek()),
    {
        let ghost s = self@;
        let (end, delta) = self.delay_run(index);
        let before = time - time_at_index;
        let after = if delta > before { delta - before } else { 0 };
        let mut tail = self.vec.split_off(end);
        self.vec.truncate(index);
        let ghost first = ids.peek();
        let ghost sub0 = sub@;
        let ghost t0 = tail@;
        assert(t0 == s.skip(end as int));
        assert(self@ == s.take(index as int));
        if before > 0 {
            let e = Event::new(ids, Command::Delay(before));
            self.vec.push(e);
        }
        let ghost second = ids.peek();
        let ghost with_before = self@;
        assert(with_before == s.take(index as int) + delay_event(first, before as int));
        let mut sub = sub;
        self.vec.append(&mut sub);
        let ghost with_sub = self@;
        assert(with_sub == with_before + sub0);
        if after > 0 {
            let e = Event::new(ids, Command::Delay(after));
            self.vec.push(e);
        }
        self.vec.append(&mut tail);
        proof {
            assert(second == after_delay_event(first, before as int));
            assert(self@ =~= open_gap(s, time as int, index as int, sub0, first));
        }
    }

    /// Inserts the given events at the start of the commands at `time`, keeping the time of
    /// every other command. Delays around the insertion point are merged or split as needed.
    pub fn insert_many_start(&mut self, ids: &mut IdGen, time: usize, subsequence: Vec<Event>)
        requires
            total_time(old(self)@) <= usize::MAX,
        ensures
            final(self)@ == insert_start_result(old(self)@, time as int, subsequence@, old(ids).peek()),
            final(ids).peek() == insert_start_next(old(self)@, time as int, old(ids).peek()),
    {
        let ghost s = self@;
        let n = self.vec.len();
        match self.lookup_delay(time) {
            DelayLookup::Found(delay_index) => {
                proof {
                    if time > 0 {
                        lemma_lookup_from_index(s, time as int, 0);
                    }
                }
                let mut tail = self.vec.split_off(delay_index + 1);
                let mut sub = subsequence;
                self.vec.append(&mut sub);
                self.vec.append(&mut tail);
                assert(self@ =~= s.take(delay_index + 1) + subsequence@ + s.skip(delay_index + 1));
            },
            DelayLookup::Missing { index, time_at_index } => {
                proof {
                    if time > 0 {
                        lemma_lookup_from_index(s, time as int, 0);
                    } else {
                        assert(s.take(0) =~= Seq::<Event>::empty());
                    }
                }
                self.insert_in_gap(ids, time, index, time_at_index, subsequence);
            },
        }
    }

    /// Inserts the given command at the start of the commands at `time`.
    pub fn insert_start(&mut self, ids: &mut IdGen, time: usize, command: Command)
        requires
            total_time(old(self)@) <= usize::MAX,
        ensures
            final(self)@ == insert_start_result(
                old(self)@,
                time as int,
                seq![Event { id: old(ids).peek(), command }],
                next_id(old(ids).peek()),
            ),
            final(ids).peek() == insert_start_next(old(self)@, time as int, next_id(old(ids).peek())),
    {
        let e = Event::new(ids, command);
        let mut v: Vec<Event> = Vec::new();
        v.push(e);
        self.insert_many_start(ids, time, v);
    }

    /// Inserts the given events at the end of the commands at `time`, keeping the time of
    /// every other command. Delays around the insertion point are merged or split as needed.
    pub fn insert_many_end(&mut self, ids: &mut IdGen, time: usize, subsequence: Vec<Event>)
        requires
            total_time(old(self)@) <= usize::MAX,
        ensures
            final(self)@ == insert_end_result(old(self)@, time as int, subsequence@, old(ids).peek()),
            final(ids).peek() == insert_end_next(old(self)@, time as int, old(ids).peek()),
    {
        let ghost s = self@;
        let n = self.vec.len();
        let found = self.lookup_delay(time);
        let stop: Option<usize> = if time == 0 {
            Some(self.find_stop(0))
        } else {
            match found {
                DelayLookup::Found(d) => {
                    proof {
                        lemma_lookup_from_index(s, time as int, 0);
                    }
                    Some(self.find_stop(d + 1))
                },
                DelayLookup::Missing { .. } => None,
            }
        };
        match stop {
            Some(k) => {
                let mut tail = self.vec.split_off(k);
                let mut sub = subsequence;
                self.vec.append(&mut sub);
                self.vec.append(&mut tail);
                assert(self@ =~= s.take(k as int) + subsequence@ + s.skip(k as int));
            },
            None => {
                self.insert_many_start(ids, time, subsequence);
            },
        }
    }

    /// Inserts the given command at the end of the commands at `time`.
    pub fn insert_end(&mut self, ids: &mut IdGen, time: usize, command: Command)
        requires
            total_time(old(self)@) <= usize::MAX,
        ensures
            final(self)@ == insert_end_result(
                old(self)@,
                time as int,
                seq![Event { id: old(ids).peek(), command }],
                next_id(old(ids).peek()),
            ),
            final(ids).peek() == insert_end_next(old(self)@, time as int, next_id(old(ids).peek())),
    {
        let e = Event::new(ids, command);
        let mut v: Vec<Event> = Vec::new();
        v.push(e);
        self.insert_many_end(ids, time, v);
    }
}


/// Events for `cmds` in order, numbered from `first`.
pub open spec fn number_events(cmds: Seq<Command>, first: u32) -> Seq<Event>
    decreases cmds.len(),
{
    if cmds.len() == 0 {
        Seq::empty()
    } else {
        seq![Event { id: first, command: cmds[0] }] + number_events(cmds.drop_first(), next_id(first))
    }
}

/// The identifier after those that [`number_events`] used.
pub open spec fn number_events_next(cmds: Seq<Command>, first: u32) -> u32
    decreases cmds.len(),
{
    if cmds.len() == 0 {
        first
    } else {
        number_events_next(cmds.drop_first(), next_id(first))
    }
}

/// The events of `s` from index `i` on whose time is `t`, in order.
pub open spec fn events_at_from(s: Seq<Event>, t: int, i: int) -> Seq<Event>
    decreases s.len() - i,
{
    if i < 0 || i >= s.len() {
        Seq::empty()
    } else if time_at(s, i) == t {
        seq![s[i]] + events_at_from(s, t, i + 1)
    } else {
        events_at_from(s, t, i + 1)
    }
}

/// The events of `s` whose time is `t`, in order.
pub open spec fn events_at(s: Seq<Event>, t: int) -> Seq<Event> {
    events_at_from(s, t, 0)
}

/// The end of the run of events from `i` on that run at the same time as the event at `i`.
pub open spec fn group_end(s: Seq<Event>, i: int, j: int) -> int
    decreases s.len() - j,
{
    if j < s.len() && time_at(s, j) == time_at(s, i) {
        group_end(s, i, j + 1)
    } else {
        j
    }
}

/// The state of [`CommandSeq::max_polyphony`] after the first `n` events: the end time of the
/// last note played at each pitch, and the most notes heard at once so far.
pub open spec fn polyphony_state(s: Seq<Event>, n: int) -> (Seq<u16>, u8)
    decreases n,
{
    if n <= 0 {
        (Seq::new(255, |k: int| 0u16), 0u8)
    } else {
        let (notes, best) = polyphony_state(s, n - 1);
        let time = time_at(s, n - 1) as u16;
        match s[n - 1].command {
            Command::Note { pitch, length, .. } => {
                let notes2 = notes.update(pitch as int, (length + time) as u16);
                let now = sounding(notes2, time, 255) as u8;
                (notes2, if now > best { now } else { best })
            },
            _ => (notes, best),
        }
    }
}

/// How many of the first `k` end times lie after `time`.
pub open spec fn sounding(notes: Seq<u16>, time: u16, k: int) -> nat
    decreases k,
{
    if k <= 0 {
        0
    } else {
        sounding(notes, time, k - 1) + if notes[k - 1] > time { 1nat } else { 0 }
    }
}

/// Whether [`CommandSeq::max_polyphony`] can run on `s` without overflow: every note has a
/// pitch below 255 and ends before tick 65536 of the 16-bit clock it uses.
pub open spec fn polyphony_defined(s: Seq<Event>) -> bool {
    forall|i: int|
        0 <= i < s.len() ==> match #[trigger] s[i].command {
            Command::Note { pitch, length, .. } => pitch < 255 && length + (time_at(s, i) as u16)
                <= u16::MAX,
            _ => true,
        }
}

/// Iterates over each event of a sequence together with its relative time.
pub struct TimeIter<'a> {
    seq: &'a [Event],
    index: usize,
    current_time: usize,
}

impl<'a> TimeIter<'a> {
    /// The events being iterated over.
    pub closed spec fn events(&self) -> Seq<Event> {
        self.seq@
    }

    /// The index of the next event.
    pub closed spec fn index(&self) -> int {
        self.index as int
    }

    pub closed spec fn wf(&self) -> bool {
        &&& total_time(self.seq@) <= usize::MAX
        &&& self.index <= self.seq@.len()
        &&& self.current_time == time_at(self.seq@, self.index as int)
    }

    /// The next event and its time.
    pub fn next(&mut self) -> (r: Option<(usize, &'a Event)>)
        requires
            old(self).wf(),
        ensures
            final(self).wf(),
            final(self).events() == old(self).events(),
            old(self).index() < old(self).events().len() ==> (r matches Some((t, e)) && t == time_at(
                old(self).events(),
                old(self).index(),
            ) && *e == old(self).events()[old(self).index()] && final(self).index() == old(self).index()
                + 1),
            old(self).index() >= old(self).events().len() ==> r is None && final(self).index()
                == old(self).index(),
    {
        if self.index >= self.seq.len() {
            return None;
        }
        let ghost s = self.seq@;
        proof {
            lemma_time_at_step(s, self.index as int);
            lemma_time_at_monotone(s, self.index + 1, s.len() as int);
            lemma_time_at_len(s);
        }
        let e = &self.seq[self.index];
        let ret = (self.current_time, e);
        if let Command::Delay(delta_time) = e.command {
            self.current_time = self.current_time + delta_time;
        }
        self.index = self.index + 1;
        Some(ret)
    }
}

/// Iterates over the runs of events that happen at the same time.
pub struct TimeGroupIter<'a> {
    seq: &'a [Event],
    index: usize,
    current_time: usize,
}

impl<'a> TimeGroupIter<'a> {
    /// The events being iterated over.
    pub closed spec fn events(&self) -> Seq<Event> {
        self.seq@
    }

    /// The index of the first event of the next group.
    pub closed spec fn index(&self) -> int {
        self.index as int
    }

    pub closed spec fn wf(&self) -> bool {
        &&& total_time(self.seq@) <= usize::MAX
        &&& self.index <= self.seq@.len()
        &&& self.current_time == time_at(self.seq@, self.index as int)
    }

    /// The next run of events at one time, and that time.
    pub fn next(&mut self) -> (r: Option<(usize, Vec<&'a Event>)>)
        requires
            old(self).wf(),
        ensures
            final(self).wf(),
            final(self).events() == old(self).events(),
            old(self).index() < old(self).events().len() ==> (r matches Some((t, g)) && t == time_at(
                old(self).events(),
                old(self).index(),
            ) && final(self).index() == group_end(old(self).events(), old(self).index(), old(self).index())
                && g@.map_values(|e: &Event| *e) == old(self).events().subrange(
                old(self).index(),
                final(self).index(),
            )),
            old(self).index() >= old(self).events().len() ==> r is None && final(self).index()
                == old(self).index(),
    {
        let n = self.seq.len();
        if self.index >= n {
            return None;
        }
        let ghost s = self.seq@;
        let ghost start = self.index as int;
        let time = self.current_time;
        let mut group: Vec<&'a Event> = Vec::new();
        let mut j = self.index;
        while j < n && self.current_time == time
            invariant
                s == self.seq@,
                n == s.len(),
                total_time(s) <= usize::MAX,
                0 <= start <= j <= n,
                time == time_at(s, start),
                self.current_time == time_at(s, j as int),
                j > start ==> time_at(s, j - 1) == time,
                group_end(s, start, start) == group_end(s, start, j as int) || self.current_time != time,
                self.current_time != time ==> group_end(s, start, start) == j,
                group@.map_values(|e: &Event| *e) =~= s.subrange(start, j as int),
            decreases n - j,
        {
            proof {
                lemma_time_at_step(s, j as int);
                lemma_time_at_monotone(s, j + 1, s.len() as int);
                lemma_time_at_len(s);
            }
            let e = &self.seq[j];
            let ghost prev = group@;
            group.push(e);
            assert(group@ == prev.push(e));
            assert(group@.map_values(|e: &Event| *e) =~= prev.map_values(|e: &Event| *e).push(*e));
            assert(s.subrange(start, j + 1) =~= s.subrange(start, j as int).push(s[j as int]));
            if let Command::Delay(delta_time) = e.command {
                self.current_time = self.current_time + delta_time;
            }
            j = j + 1;
            proof {
                if self.current_time != time {
                    assert(group_end(s, start, j as int) == j);
                }
            }
        }
        self.index = j;
        Some((time, group))
    }
}

impl CommandSeq {
    /// The sequence of `commands` in order, numbered with fresh identifiers.
    pub fn from_commands(ids: &mut IdGen, commands: Vec<Command>) -> (r: Self)
        ensures
            r@ == number_events(commands@, old(ids).peek()),
            final(ids).peek() == number_events_next(commands@, old(ids).peek()),
    {
        let ghost cs = commands@;
        let ghost first = ids.peek();
        let mut events: Vec<Event> = Vec::new();
        let mut rest = reversed(commands);
        assert(cs.skip(0) =~= cs);
        while rest.len() > 0
            invariant
                rest@.len() <= cs.len(),
                rest@ =~= cs.reverse().take(rest@.len() as int),
                events@ + number_events(cs.skip(cs.len() - rest@.len()), ids.peek()) == number_events(cs, first),
                number_events_next(cs.skip(cs.len() - rest@.len()), ids.peek()) == number_events_next(cs, first),
            decreases rest@.len(),
        {
            let ghost k: int = cs.len() - rest@.len();
            let c = rest.pop().unwrap();
            let ghost p0 = ids.peek();
            let ghost before = events@;
            proof {
                assert(c == cs[k]);
                assert(cs.skip(k)[0] == cs[k]);
                assert(cs.skip(k).drop_first() =~= cs.skip(k + 1));
            }
            let e = Event::new(ids, c);
            events.push(e);
            assert(events@ + number_events(cs.skip(k + 1), ids.peek()) =~= before + number_events(cs.skip(k), p0));
        }
        assert(cs.skip(cs.len() as int) =~= Seq::<Command>::empty());
        assert(events@ =~= number_events(cs, first));
        CommandSeq { vec: events }
    }

    /// Iterates over each event together with its time relative to the start of the sequence.
    pub fn iter_time(&self) -> (r: TimeIter<'_>)
        requires
            total_time(self@) <= usize::MAX,
        ensures
            r.wf(),
            r.events() == self@,
            r.index() == 0,
    {
        assert(self@.take(0) =~= Seq::<Event>::empty());
        TimeIter { seq: self.vec.as_slice(), index: 0, current_time: 0 }
    }

    /// Iterates over the runs of events that happen at the same time.
    pub fn iter_time_groups(&self) -> (r: TimeGroupIter<'_>)
        requires
            total_time(self@) <= usize::MAX,
        ensures
            r.wf(),
            r.events() == self@,
            r.index() == 0,
    {
        assert(self@.take(0) =~= Seq::<Event>::empty());
        TimeGroupIter { seq: self.vec.as_slice(), index: 0, current_time: 0 }
    }

    /// Returns the commands occurring at the given time, including the delay that ends them if
    /// there is one.
    pub fn at_time(&self, wanted_time: usize) -> (r: Vec<&Event>)
        requires
            total_time(self@) <= usize::MAX,
        ensures
            r@.map_values(|e: &Event| *e) == events_at(self@, wanted_time as int),
    {
        let ghost s = self@;
        let n = self.vec.len();
        let mut out: Vec<&Event> = Vec::new();
        let mut time: usize = 0;
        let mut i: usize = 0;
        assert(s.take(0) =~= Seq::<Event>::empty());
        while i < n
            invariant
                s == self@,
                n == s.len(),
                i <= n,
                total_time(s) <= usize::MAX,
                time == time_at(s, i as int),
                out@.map_values(|e: &Event| *e) + events_at_from(s, wanted_time as int, i as int)
                    =~= events_at(s, wanted_time as int),
            decreases n - i,
        {
            proof {
                lemma_time_at_step(s, i as int);
                lemma_time_at_monotone(s, i + 1, s.len() as int);
                lemma_time_at_len(s);
            }
            let ghost before = out@.map_values(|e: &Event| *e);
            let e = &self.vec[i];
            if time == wanted_time {
                out.push(e);
            }
            assert(out@.map_values(|e: &Event| *e) + events_at_from(s, wanted_time as int, i + 1)
                =~= before + events_at_from(s, wanted_time as int, i as int));
            if let Command::Delay(delta_time) = e.command {
                time = time + delta_time;
            }
            i = i + 1;
        }
        out
    }

    /// The most notes that play at once. Each note sounds until its time plus its length on a
    /// 16-bit clock, and a later note at the same pitch replaces an earlier one.
    pub fn max_polyphony(&self) -> (r: u8)
        requires
            total_time(self@) <= usize::MAX,
            polyphony_defined(self@),
        ensures
            r == polyphony_state(self@, self@.len() as int).1,
    {
        let ghost s = self@;
        let n = self.vec.len();
        let mut polyphony: u8 = 0;
        let mut notes: Vec<u16> = Vec::new();
        while notes.len() < 255
            invariant
                notes@.len() <= 255,
                forall|k: int| 0 <= k < notes@.len() ==> notes@[k] == 0,
            decreases 255 - notes@.len(),
        {
            notes.push(0);
        }
        assert(notes@ =~= polyphony_state(s, 0).0);
        let mut time: usize = 0;
        let mut i: usize = 0;
        assert(s.take(0) =~= Seq::<Event>::empty());
        while i < n
            invariant
                s == self@,
                n == s.len(),
                i <= n,
                total_time(s) <= usize::MAX,
                polyphony_defined(s),
                time == time_at(s, i as int),
                notes@.len() == 255,
                (notes@, polyphony) == polyphony_state(s, i as int),
            decreases n - i,
        {
            proof {
                lemma_time_at_step(s, i as int);
                lemma_time_at_monotone(s, i + 1, s.len() as int);
                lemma_time_at_len(s);
            }
            let t16 = time as u16;
            if let Command::Note { pitch, length, .. } = self.vec[i].command {
                assert(pitch < 255 && length + t16 <= u16::MAX) by {
                    assert(match s[i as int].command {
                        Command::Note { pitch, length, .. } => pitch < 255 && length + (time_at(s, i as int) as u16) <= u16::MAX,
                        _ => true,
                    });
                }
                notes.set(pitch as usize, length + t16);
                let mut count: u8 = 0;
                let mut k: usize = 0;
                while k < 255
                    invariant
                        k <= 255,
                        notes@.len() == 255,
                        count == sounding(notes@, t16, k as int),
                        sounding(notes@, t16, k as int) <= k,
                    decreases 255 - k,
                {
                    if notes[k] > t16 {
                        count = count + 1;
                    }
                    k = k + 1;
                }
                if count > polyphony {
                    polyphony = count;
                }
            }
            if let Command::Delay(delta_time) = self.vec[i].command {
                time = time + delta_time;
            }
            i = i + 1;
        }
        polyphony
    }
}


/// The two halves that [`CommandSeq::split_at`] leaves: the sequence up to and including an
/// `End` inserted at the start of `time`, and the rest. Past the end of the sequence nothing
/// follows `time`, so the `End` goes last and the second half is empty.
pub open spec fn split_result(s: Seq<Event>, time: int, id: u32) -> (Seq<Event>, Seq<Event>) {
    if time > total_time(s) {
        (s.push(Event { id, command: Command::End }), Seq::empty())
    } else {
        let whole = insert_start_result(s, time, seq![Event { id, command: Command::End }], next_id(id));
        let p = insert_start_pos(s, time);
        (whole.take(p + 1), whole.skip(p + 1))
    }
}

/// The identifier that follows the ones that [`CommandSeq::split_at`] hands out when it splits
/// `s` at `time`, starting from `id`.
pub open spec fn split_next(s: Seq<Event>, time: int, id: u32) -> u32 {
    if time > total_time(s) {
        next_id(id)
    } else {
        insert_start_next(s, time, next_id(id))
    }
}

/// Where an event at index `j` of `s` stands after [`CommandSeq::insert_many_start`] puts
/// `sub_len` events at the start of `time`.
pub open spec fn moved_index_start(s: Seq<Event>, time: int, sub_len: int, j: int) -> int {
    match spec_lookup(s, time) {
        DelayLookup::Found(d) => if j <= d { j } else { j + sub_len },
        DelayLookup::Missing { index, .. } => {
            let (before, after) = split_ticks(s, time, index as int);
            if j < index {
                j
            } else {
                j - (delay_run_end(s, index as int) - index) + delay_event(0, before).len() + sub_len
                    + delay_event(0, after).len()
            }
        },
    }
}

proof fn lemma_total_time_split(s: Seq<Event>, a: int, b: int)
    requires
        0 <= a <= b <= s.len(),
    ensures
        total_time(s.subrange(a, b)) == time_at(s, b) - time_at(s, a),
{
    assert(s.take(b) =~= s.take(a) + s.subrange(a, b));
    lemma_total_time_append(s.take(a), s.subrange(a, b));
}

proof fn lemma_total_time_no_delay(s: Seq<Event>, i: int, k: int)
    requires
        0 <= i <= k <= s.len(),
        forall|j: int| i <= j < k ==> !(#[trigger] s[j].command is Delay),
    ensures
        time_at(s, k) == time_at(s, i),
    decreases k - i,
{
    if i < k {
        lemma_total_time_no_delay(s, i, k - 1);
        lemma_time_at_step(s, k - 1);
    }
}

proof fn lemma_first_stop(s: Seq<Event>, i: int)
    requires
        0 <= i <= s.len(),
    ensures
        i <= first_stop(s, i) <= s.len(),
        forall|j: int| i <= j < first_stop(s, i) ==> !(#[trigger] s[j].command is Delay),
    decreases s.len() - i,
{
    if i < s.len() && !(s[i].command is Delay || s[i].command is End) {
        lemma_first_stop(s, i + 1);
    }
}

proof fn lemma_delay_run_end(s: Seq<Event>, i: int)
    requires
        0 <= i <= s.len(),
    ensures
        i <= delay_run_end(s, i) <= s.len(),
        i < s.len() && s[i].command is Delay ==> i < delay_run_end(s, i),
    decreases s.len() - i,
{
    if i < s.len() && s[i].command is Delay {
        lemma_delay_run_end(s, i + 1);
    }
}

proof fn lemma_delay_of_positive(s: Seq<Event>, i: int)
    requires
        0 <= i < s.len(),
        time_at(s, i + 1) > time_at(s, i),
    ensures
        s[i].command is Delay,
{
    lemma_time_at_step(s, i);
}

proof fn lemma_delay_event_time(id: u32, t: int)
    requires
        0 <= t <= usize::MAX,
    ensures
        total_time(delay_event(id, t)) == t,
        delay_event(id, t).len() == (if t > 0 { 1int } else { 0 }),
{
    assert(total_time(Seq::<Event>::empty()) == 0);
    if t > 0 {
        assert(delay_event(id, t).drop_last() =~= Seq::<Event>::empty());
    }
}

/// What [`law_insert_start_keeps_times`] states of one insertion.
pub open spec fn insert_start_keeps_times(s: Seq<Event>, time: int, sub: Seq<Event>, id: u32) -> bool {
    let r = insert_start_result(s, time, sub, id);
    let p = insert_start_pos(s, time);
    &&& 0 <= p && p + sub.len() <= r.len()
    &&& r.subrange(p, p + sub.len()) == sub
    &&& time_at(r, p) == time
    &&& total_time(r) == if total_time(s) >= time { total_time(s) as int } else { time }
    &&& forall|j: int|
        0 <= j < s.len() && !(s[j].command is Delay) ==> {
            let k = #[trigger] moved_index_start(s, time, sub.len() as int, j);
            &&& 0 <= k < r.len()
            &&& r[k] == s[j]
            &&& time_at(r, k) == time_at(s, j)
        }
}

proof fn lemma_insert_found(s: Seq<Event>, time: int, sub: Seq<Event>, id: u32, d: int)
    requires
        0 <= d < s.len(),
        s.len() <= usize::MAX,
        total_time(sub) == 0,
        spec_lookup(s, time) == DelayLookup::Found(d as usize),
        time_at(s, d + 1) == time,
    ensures
        insert_start_keeps_times(s, time, sub, id),
{
    let r = insert_start_result(s, time, sub, id);
    let p = insert_start_pos(s, time);
    let a = s.take(d + 1);
    let b = s.skip(d + 1);
    assert(r == a + sub + b);
    assert(s =~= a + b);
    lemma_total_time_append(a, sub);
    lemma_total_time_append(a + sub, b);
    lemma_total_time_append(a, b);
    assert((a + sub + b).take(p) =~= a);
    assert(r.subrange(p, p + sub.len()) =~= sub);
    lemma_time_at_len(s);
    lemma_time_at_monotone(s, d + 1, s.len() as int);
    assert forall|j: int|
        0 <= j < s.len() && !(s[j].command is Delay) implies {
            let k = #[trigger] moved_index_start(s, time, sub.len() as int, j);
            &&& 0 <= k < r.len()
            &&& r[k] == s[j]
            &&& time_at(r, k) == time_at(s, j)
        } by {
        let k = moved_index_start(s, time, sub.len() as int, j);
        if j <= d {
            assert(r.take(j) =~= s.take(j));
        } else {
            assert(r.take(k) =~= (a + sub) + s.take(j).skip(d + 1));
            assert(s.take(j) =~= a + s.take(j).skip(d + 1));
            lemma_total_time_append(a + sub, s.take(j).skip(d + 1));
            lemma_total_time_append(a, s.take(j).skip(d + 1));
        }
    }
}

proof fn lemma_insert_missing(s: Seq<Event>, time: int, sub: Seq<Event>, id: u32, index: int)
    requires
        0 <= index <= s.len(),
        s.len() <= usize::MAX,
        total_time(s) <= usize::MAX,
        0 <= time <= usize::MAX,
        total_time(sub) == 0,
        spec_lookup(s, time) matches DelayLookup::Missing { index: i, .. } && i == index,
        time_at(s, index) <= time,
        time > 0 ==> time_at(s, index) < time,
        time > 0 && index < s.len() ==> time_at(s, index + 1) > time,
        time == 0 ==> index == 0,
    ensures
        insert_start_keeps_times(s, time, sub, id),
{
    let r = insert_start_result(s, time, sub, id);
    let p = insert_start_pos(s, time);
    let end = delay_run_end(s, index);
    let (before, after) = split_ticks(s, time, index);
    let d1 = delay_event(id, before);
    let d2 = delay_event(after_delay_event(id, before), after);
    let a = s.take(index);
    let run = s.subrange(index, end);
    let b = s.skip(end);
    lemma_insert_missing_shape(s, time, sub, id, index);
    assert(r.take(p) =~= a + d1);
    assert(r.subrange(p, p + sub.len()) =~= sub);
    assert forall|j: int|
        0 <= j < s.len() && !(s[j].command is Delay) implies {
            let k = #[trigger] moved_index_start(s, time, sub.len() as int, j);
            &&& 0 <= k < r.len()
            &&& r[k] == s[j]
            &&& time_at(r, k) == time_at(s, j)
        } by {
        lemma_insert_missing_moved(s, time, sub, id, index, j);
    }
}

#[verifier::rlimit(40)]
proof fn lemma_insert_missing_shape(s: Seq<Event>, time: int, sub: Seq<Event>, id: u32, index: int)
    requires
        0 <= index <= s.len(),
        s.len() <= usize::MAX,
        total_time(s) <= usize::MAX,
        0 <= time <= usize::MAX,
        total_time(sub) == 0,
        spec_lookup(s, time) matches DelayLookup::Missing { index: i, .. } && i == index,
        time_at(s, index) <= time,
        time > 0 ==> time_at(s, index) < time,
        time > 0 && index < s.len() ==> time_at(s, index + 1) > time,
        time == 0 ==> index == 0,
    ensures
        ({
            let end = delay_run_end(s, index);
            let (before, after) = split_ticks(s, time, index);
            let d1 = delay_event(id, before);
            let d2 = delay_event(after_delay_event(id, before), after);
            let r = insert_start_result(s, time, sub, id);
            &&& index <= end <= s.len()
            &&& r == s.take(index) + d1 + sub + d2 + s.skip(end)
            &&& s == s.take(index) + s.subrange(index, end) + s.skip(end)
            &&& total_time(d1) == before
            &&& total_time(d2) == after
            &&& d1.len() == delay_event(0, before).len()
            &&& d2.len() == delay_event(0, after).len()
            &&& (index < s.len() || time == 0) ==> before + after == time_at(s, end) - time_at(s, index)
            &&& index == s.len() ==> end == index && after == 0
            &&& insert_start_pos(s, time) == index + d1.len()
            &&& time_at(s, index) + before == time
            &&& total_time(r) == if total_time(s) >= time { total_time(s) as int } else { time }
            &&& time_at(r, insert_start_pos(s, time)) == time
        }),
{
    lemma_time_at_len(s);
    assert(s.take(0) =~= Seq::<Event>::empty());
    let r = insert_start_result(s, time, sub, id);
    let end = delay_run_end(s, index);
    lemma_delay_run_end(s, index);
    let (before, after) = split_ticks(s, time, index);
    let d1 = delay_event(id, before);
    let d2 = delay_event(after_delay_event(id, before), after);
    let a = s.take(index);
    let run = s.subrange(index, end);
    let b = s.skip(end);
    assert(s =~= a + run + b);
    lemma_total_time_split(s, index, end);
    lemma_time_at_monotone(s, index, end);
    lemma_time_at_monotone(s, end, s.len() as int);
    if time > 0 && index < s.len() {
        lemma_delay_of_positive(s, index);
        lemma_time_at_monotone(s, index + 1, end);
    } else if index == s.len() {
        assert(run =~= Seq::<Event>::empty());
    }
    lemma_delay_event_time(id, before);
    lemma_delay_event_time(after_delay_event(id, before), after);
    lemma_delay_event_time(0, before);
    lemma_delay_event_time(0, after);
    lemma_total_time_append(a, d1);
    lemma_total_time_append(a + d1, sub);
    lemma_total_time_append(a + d1 + sub, d2);
    lemma_total_time_append(a + d1 + sub + d2, b);
    lemma_total_time_append(a, run);
    lemma_total_time_append(a + run, b);
    assert(r.take(index + d1.len()) =~= a + d1);
}

#[verifier::spinoff_prover]
#[verifier::rlimit(50)]
proof fn lemma_insert_missing_moved(s: Seq<Event>, time: int, sub: Seq<Event>, id: u32, index: int, j: int)
    requires
        0 <= index <= s.len(),
        s.len() <= usize::MAX,
        total_time(s) <= usize::MAX,
        0 <= time <= usize::MAX,
        total_time(sub) == 0,
        spec_lookup(s, time) matches DelayLookup::Missing { index: i, .. } && i == index,
        time_at(s, index) <= time,
        time > 0 ==> time_at(s, index) < time,
        time > 0 && index < s.len() ==> time_at(s, index + 1) > time,
        time == 0 ==> index == 0,
        0 <= j < s.len(),
        !(s[j].command is Delay),
    ensures
        ({
            let r = insert_start_result(s, time, sub, id);
            let k = moved_index_start(s, time, sub.len() as int, j);
            &&& 0 <= k < r.len()
            &&& r[k] == s[j]
            &&& time_at(r, k) == time_at(s, j)
        }),
{
    lemma_insert_missing_shape(s, time, sub, id, index);
    let r = insert_start_result(s, time, sub, id);
    let end = delay_run_end(s, index);
    if j < index {
        assert(r.take(j) =~= s.take(j));
    } else {
        if j < end {
            lemma_run_is_delays(s, index, j);
        }
        let (before, after) = split_ticks(s, time, index);
        let d1 = delay_event(id, before);
        let d2 = delay_event(after_delay_event(id, before), after);
        let front = s.take(index) + d1 + sub + d2;
        let mid = s.take(index) + s.subrange(index, end);
        let a = s.take(index);
        lemma_total_time_append(a, d1);
        lemma_total_time_append(a + d1, sub);
        lemma_total_time_append(a + d1 + sub, d2);
        lemma_total_time_append(a, s.subrange(index, end));
        lemma_total_time_split(s, index, end);
        assert(total_time(front) == total_time(mid));
        lemma_insert_missing_tail(s, front, mid, end, j);
    }
}

proof fn lemma_insert_missing_tail(s: Seq<Event>, front: Seq<Event>, mid: Seq<Event>, end: int, j: int)
    requires
        0 <= end <= j < s.len(),
        mid.len() == end,
        s == mid + s.skip(end),
        total_time(front) == total_time(mid),
    ensures
        (front + s.skip(end))[front.len() + j - end] == s[j],
        time_at(front + s.skip(end), front.len() + j - end) == time_at(s, j),
{
    let b = s.skip(end);
    let m = j - end;
    assert((front + b).take(front.len() + m) =~= front + b.take(m));
    assert(s.take(j) =~= mid + b.take(m));
    lemma_total_time_append(front, b.take(m));
    lemma_total_time_append(mid, b.take(m));
}

/// Inserting events at the start of a time keeps every other command where it was in time.
///
/// When the inserted events wait for nothing themselves, they end up together at `time`; every
/// event of `s` other than a delay keeps its relative time; and the sequence lasts as long as
/// before, or until `time` if that is later.
pub proof fn law_insert_start_keeps_times(s: Seq<Event>, time: int, sub: Seq<Event>, id: u32)
    requires
        s.len() <= usize::MAX,
        total_time(s) <= usize::MAX,
        0 <= time <= usize::MAX,
        total_time(sub) == 0,
    ensures
        insert_start_keeps_times(s, time, sub, id),
{
    lemma_time_at_len(s);
    assert(s.take(0) =~= Seq::<Event>::empty());
    if time > 0 {
        lemma_lookup_from_index(s, time, 0);
    }
    match spec_lookup(s, time) {
        DelayLookup::Found(d) => {
            lemma_insert_found(s, time, sub, id, d as int);
        },
        DelayLookup::Missing { index, .. } => {
            lemma_insert_missing(s, time, sub, id, index as int);
        },
    }
}

proof fn lemma_run_is_delays(s: Seq<Event>, i: int, j: int)
    requires
        0 <= i <= j < delay_run_end(s, i),
        i <= s.len(),
    ensures
        s[j].command is Delay,
    decreases j - i,
{
    if i < j {
        lemma_run_is_delays(s, i + 1, j);
    }
}


/// Splitting a sequence keeps its total length: the first part ends with an `End` and lasts
/// until `time` (or as long as the whole sequence, where `time` lies past its end), and the
/// second part lasts for the rest. Within the sequence the two parts together are the sequence
/// with that `End` inserted at the start of `time`; past its end they are the sequence with the
/// `End` appended.
pub proof fn law_split_keeps_len_time(s: Seq<Event>, time: int, id: u32)
    requires
        s.len() <= usize::MAX,
        total_time(s) <= usize::MAX,
        0 <= time,
    ensures
        ({
            let (left, right) = split_result(s, time, id);
            &&& total_time(left) == if time <= total_time(s) { time } else { total_time(s) as int }
            &&& total_time(left) + total_time(right) == total_time(s)
            &&& left.len() > 0 && left.last().command is End
            &&& left + right == if time <= total_time(s) {
                insert_start_result(s, time, seq![Event { id, command: Command::End }], next_id(id))
            } else {
                s.push(Event { id, command: Command::End })
            }
        }),
{
    let sub = seq![Event { id, command: Command::End }];
    if time > total_time(s) {
        let left = s.push(Event { id, command: Command::End });
        assert(left.drop_last() =~= s);
        assert(total_time(Seq::<Event>::empty()) == 0);
        assert(left + Seq::<Event>::empty() =~= left);
    } else {
        assert(sub.drop_last() =~= Seq::<Event>::empty());
        assert(total_time(Seq::<Event>::empty()) == 0);
        assert(total_time(sub) == 0);
        law_insert_start_keeps_times(s, time, sub, next_id(id));
        let r = insert_start_result(s, time, sub, next_id(id));
        let p = insert_start_pos(s, time);
        assert(r[p] == r.subrange(p, p + 1)[0]);
        lemma_time_at_step(r, p);
        let (left, right) = split_result(s, time, id);
        assert(left == r.take(p + 1));
        assert(left + right =~= r);
        lemma_total_time_append(left, right);
        lemma_time_at_len(r);
        assert(left.last() == r[p]);
    }
}

impl CommandSeq {
    /// Splits the sequence at `time`: `self` keeps what comes before, ended by an `End`
    /// inserted at the start of `time`, and the rest is returned. Delays across the boundary
    /// are split so that the two parts together last as long as before.
    pub fn split_at(&mut self, ids: &mut IdGen, time: usize) -> (r: CommandSeq)
        requires
            total_time(old(self)@) <= usize::MAX,
        ensures
            (final(self)@, r@) == split_result(old(self)@, time as int, old(ids).peek()),
            final(ids).peek() == split_next(old(self)@, time as int, old(ids).peek()),
    {
        let ghost s = self@;
        let n = self.vec.len();
        let total = self.len_time();
        if time > total {
            let e = Event::new(ids, Command::End);
            self.vec.push(e);
            return CommandSeq::new();
        }
        let (base, shifted) = match self.lookup_delay(time) {
            DelayLookup::Found(d) => {
                proof {
                    if time > 0 {
                        lemma_lookup_from_index(s, time as int, 0);
                    }
                }
                (d, true)
            },
            DelayLookup::Missing { index, time_at_index } => {
                proof {
                    if time > 0 {
                        lemma_lookup_from_index(s, time as int, 0);
                    } else {
                        assert(s.take(0) =~= Seq::<Event>::empty());
                    }
                    lemma_delay_run_end(s, index as int);
                }
                (index, time - time_at_index > 0)
            },
        };
        let ghost id0 = ids.peek();
        self.insert_start(ids, time, Command::End);
        proof {
            let sub = seq![Event { id: id0, command: Command::End }];
            assert(sub.drop_last() =~= Seq::<Event>::empty());
            assert(total_time(Seq::<Event>::empty()) == 0);
            law_insert_start_keeps_times(s, time as int, sub, next_id(id0));
        }
        let len = self.vec.len();
        let pos = if shifted { base + 1 } else { base };
        let tail = self.vec.split_off(pos + 1);
        CommandSeq { vec: tail }
    }
}


/// Where [`CommandSeq::insert_many_end`] puts the inserted events.
pub open spec fn insert_end_pos(s: Seq<Event>, time: int) -> int {
    match insert_end_stop(s, time) {
        Some(k) => k,
        None => insert_start_pos(s, time),
    }
}

/// Where an event at index `j` of `s` stands after [`CommandSeq::insert_many_end`] puts
/// `sub_len` events at the end of `time`.
pub open spec fn moved_index_end(s: Seq<Event>, time: int, sub_len: int, j: int) -> int {
    match insert_end_stop(s, time) {
        Some(k) => if j < k { j } else { j + sub_len },
        None => moved_index_start(s, time, sub_len, j),
    }
}

/// What [`law_insert_end_keeps_times`] states of one insertion.
pub open spec fn insert_end_keeps_times(s: Seq<Event>, time: int, sub: Seq<Event>, id: u32) -> bool {
    let r = insert_end_result(s, time, sub, id);
    let p = insert_end_pos(s, time);
    &&& 0 <= p && p + sub.len() <= r.len()
    &&& r.subrange(p, p + sub.len()) == sub
    &&& time_at(r, p) == time
    &&& total_time(r) == if total_time(s) >= time { total_time(s) as int } else { time }
    &&& forall|j: int|
        0 <= j < s.len() && !(s[j].command is Delay) ==> {
            let k = #[trigger] moved_index_end(s, time, sub.len() as int, j);
            &&& 0 <= k < r.len()
            &&& r[k] == s[j]
            &&& time_at(r, k) == time_at(s, j)
        }
}

proof fn lemma_insert_at(s: Seq<Event>, k: int, sub: Seq<Event>, j: int)
    requires
        0 <= k <= s.len(),
        total_time(sub) == 0,
        0 <= j < s.len(),
    ensures
        ({
            let r = s.take(k) + sub + s.skip(k);
            let m = if j < k { j } else { j + sub.len() };
            &&& r.subrange(k, k + sub.len()) == sub
            &&& time_at(r, k) == time_at(s, k)
            &&& total_time(r) == total_time(s)
            &&& 0 <= m < r.len()
            &&& r[m] == s[j]
            &&& time_at(r, m) == time_at(s, j)
        }),
{
    let a = s.take(k);
    let b = s.skip(k);
    let r = a + sub + b;
    assert(s =~= a + b);
    lemma_total_time_append(a, sub);
    lemma_total_time_append(a + sub, b);
    lemma_total_time_append(a, b);
    assert(r.take(k) =~= a);
    assert(r.subrange(k, k + sub.len()) =~= sub);
    if j < k {
        assert(r.take(j) =~= s.take(j));
    } else {
        assert(r.take(j + sub.len()) =~= (a + sub) + s.take(j).skip(k));
        assert(s.take(j) =~= a + s.take(j).skip(k));
        lemma_total_time_append(a + sub, s.take(j).skip(k));
        lemma_total_time_append(a, s.take(j).skip(k));
    }
}

/// Inserting events at the end of a time keeps every other command where it was in time.
///
/// When the inserted events wait for nothing themselves, they end up together at `time`, after
/// the commands already there; every event of `s` other than a delay keeps its relative time;
/// and the sequence lasts as long as before, or until `time` if that is later.
pub proof fn law_insert_end_keeps_times(s: Seq<Event>, time: int, sub: Seq<Event>, id: u32)
    requires
        s.len() <= usize::MAX,
        total_time(s) <= usize::MAX,
        0 <= time <= usize::MAX,
        total_time(sub) == 0,
    ensures
        insert_end_keeps_times(s, time, sub, id),
{
    lemma_time_at_len(s);
    assert(s.take(0) =~= Seq::<Event>::empty());
    match insert_end_stop(s, time) {
        Some(k) => {
            let r = insert_end_result(s, time, sub, id);
            let start = if time == 0 {
                0
            } else {
                lemma_lookup_from_index(s, time, 0);
                match spec_lookup(s, time) {
                    DelayLookup::Found(d) => d + 1,
                    DelayLookup::Missing { .. } => 0,
                }
            };
            lemma_first_stop(s, start);
            assert(k == first_stop(s, start));
            lemma_total_time_no_delay(s, start, k);
            lemma_time_at_monotone(s, k, s.len() as int);
            if s.len() > 0 {
                lemma_insert_at(s, k, sub, 0);
            } else {
                assert(r =~= sub);
                assert(r.subrange(k, k + sub.len()) =~= sub);
                assert(r.take(0) =~= Seq::<Event>::empty());
            }
            assert forall|j: int|
                0 <= j < s.len() && !(s[j].command is Delay) implies {
                    let m = #[trigger] moved_index_end(s, time, sub.len() as int, j);
                    &&& 0 <= m < r.len()
                    &&& r[m] == s[j]
                    &&& time_at(r, m) == time_at(s, j)
                } by {
                lemma_insert_at(s, k, sub, j);
            }
        },
        None => {
            law_insert_start_keeps_times(s, time, sub, id);
        },
    }
}

/// Dropping zero delays and zero-length notes keeps the length of the sequence.
pub proof fn law_shrink_keeps_len_time(s: Seq<Event>)
    ensures
        total_time(kept_events(s)) == total_time(s),
    decreases s.len(),
{
    if s.len() > 0 {
        law_shrink_keeps_len_time(s.drop_last());
        let rest = kept_events(s.drop_last());
        match s.last().command {
            Command::Delay(0) => {},
            Command::Note { length: 0, .. } => {},
            _ => {
                assert(rest.push(s.last()).drop_last() =~= rest);
            },
        }
    }
}

/// Zeroing the delays of a sequence leaves its other commands in order and makes it last no
/// time at all.
pub proof fn law_zero_delays(s: Seq<Event>, next: u32)
    ensures
        zero_delays(s, next).len() == s.len(),
        total_time(zero_delays(s, next)) == 0,
        forall|j: int|
            0 <= j < s.len() && !(s[j].command is Delay) ==> #[trigger] zero_delays(s, next)[j] == s[j],
        forall|j: int|
            0 <= j < s.len() && s[j].command is Delay ==> (#[trigger] zero_delays(s, next)[j]).command
                == Command::Delay(0),
    decreases s.len(),
{
    if s.len() > 0 {
        let next2 = match s[0].command {
            Command::Delay(_) => next_id(next),
            _ => next,
        };
        law_zero_delays(s.drop_first(), next2);
        let rest = zero_delays(s.drop_first(), next2);
        let head = match s[0].command {
            Command::Delay(_) => Event { id: next, command: Command::Delay(0) },
            _ => s[0],
        };
        assert(zero_delays(s, next) == seq![head] + rest);
        lemma_total_time_append(seq![head], rest);
        assert(seq![head].drop_last() =~= Seq::<Event>::empty());
        assert(total_time(Seq::<Event>::empty()) == 0);
        assert forall|j: int| 0 < j < s.len() implies zero_delays(s, next)[j] == rest[j - 1] && s[j]
            == s.drop_first()[j - 1] by {}
    } else {
        assert(total_time(zero_delays(s, next)) == 0);
    }
}

/// Whether a command does nothing when played: a zero delay or a zero-length note.
pub open spec fn does_nothing(c: Command) -> bool {
    c == Command::Delay(0) || (c is Note && c->length == 0)
}

/// Shrinking keeps exactly the events that do something, in their order: every event but the
/// zero delays and the zero-length notes (so every note that sounds stays).
pub proof fn law_shrink_keeps_what_plays(s: Seq<Event>)
    ensures
        kept_events(s) == s.filter(|e: Event| !does_nothing(e.command)),
    decreases s.len(),
{
    reveal(Seq::filter);
    if s.len() > 0 {
        law_shrink_keeps_what_plays(s.drop_last());
    }
}

/// The end of the pitch range lies above the pitch of every note (or is 255, the largest it
/// can be), it is 0 exactly when there are no notes, and otherwise it is one above the pitch
/// of some note (or 255): it is one above the highest pitch.
pub proof fn law_pitch_range_is_above_every_note(s: Seq<Event>)
    ensures
        forall|i: int|
            #![trigger s[i]]
            0 <= i < s.len() ==> (s[i].command matches Command::Note { pitch, .. } ==> pitch < pitch_range_end(s)
                || pitch_range_end(s) == 255),
        pitch_range_end(s) == 0 <==> forall|i: int| #![trigger s[i]] 0 <= i < s.len() ==> !(s[i].command is Note),
        pitch_range_end(s) != 0 ==> exists|i: int|
            #![trigger s[i]]
            0 <= i < s.len() && (s[i].command matches Command::Note { pitch, .. } && pitch_range_end(s) == if pitch
                == 255 { 255 } else { pitch + 1 }),
    decreases s.len(),
{
    if s.len() > 0 {
        let t = s.drop_last();
        law_pitch_range_is_above_every_note(t);
        assert forall|i: int| 0 <= i < t.len() implies s[i] == t[i] by {}
        let end = pitch_range_end(s);
        let rest = pitch_range_end(t);
        assert(rest <= end);
        if !(s.last().command is Note) {
            assert(end == rest);
            if rest != 0 {
                let i = choose|i: int|
                    #![trigger t[i]]
                    0 <= i < t.len() && (t[i].command matches Command::Note { pitch, .. } && rest == if pitch == 255 {
                        255
                    } else {
                        pitch + 1
                    });
                assert(s[i] == t[i]);
            }
            assert(s[s.len() - 1] == s.last());
        } else {
            let n = s.len() - 1;
            assert(s[n] == s.last());
            assert(end != 0);
            if s.last().command->pitch < rest {
                let i = choose|i: int|
                    #![trigger t[i]]
                    0 <= i < t.len() && (t[i].command matches Command::Note { pitch, .. } && rest == if pitch == 255 {
                        255
                    } else {
                        pitch + 1
                    });
                assert(s[i] == t[i]);
            }
        }
    }
}

/// The first stop from `i` on: the events before it from `i` are neither delays nor `End`,
/// and it is the end of the sequence or a delay or an `End`.
proof fn lemma_first_stop_is_next_stop(s: Seq<Event>, i: int)
    requires
        0 <= i <= s.len(),
    ensures
        i <= first_stop(s, i) <= s.len(),
        forall|j: int| i <= j < first_stop(s, i) ==> !(#[trigger] s[j].command is Delay) && !(s[j].command is End),
        first_stop(s, i) == s.len() || s[first_stop(s, i)].command is Delay || s[first_stop(s, i)].command is End,
    decreases s.len() - i,
{
    if i < s.len() && !(s[i].command is Delay || s[i].command is End) {
        lemma_first_stop_is_next_stop(s, i + 1);
    }
}

/// Inserting at the end of a time where commands already run puts the new events after every
/// event of that time that is neither a delay nor an `End`, and before the next delay or
/// `End`: no `End` that runs at that time comes before them, so they are played.
pub proof fn law_insert_end_goes_before_end(s: Seq<Event>, time: int, sub: Seq<Event>, id: u32)
    requires
        s.len() <= usize::MAX,
        total_time(s) <= usize::MAX,
        0 <= time,
    ensures
        insert_end_stop(s, time) matches Some(k) ==> {
            let r = insert_end_result(s, time, sub, id);
            &&& 0 <= k <= s.len()
            &&& r.take(k) == s.take(k)
            &&& r.subrange(k, k + sub.len()) == sub
            &&& r.skip(k + sub.len()) == s.skip(k)
            &&& forall|j: int| 0 <= j < k && time_at(s, j) == time ==> !(#[trigger] s[j].command is End) && !(
            s[j].command is Delay)
            &&& forall|j: int| 0 <= j < k ==> time_at(s, j) <= time
            &&& (k == s.len() || s[k].command is Delay || s[k].command is End)
        },
{
    if time == 0 {
        lemma_first_stop_is_next_stop(s, 0);
        assert forall|j: int| 0 <= j < first_stop(s, 0) implies time_at(s, j) <= time by {
            lemma_total_time_no_delay(s, 0, j);
            assert(s.take(0) =~= Seq::<Event>::empty());
        }
    } else {
        if time_at(s, 0) < time {
            lemma_lookup_from_index(s, time, 0);
        } else {
            assert(s.take(0) =~= Seq::<Event>::empty());
        }
        match spec_lookup(s, time) {
            DelayLookup::Found(d) => {
                let d = d as int;
                lemma_first_stop_is_next_stop(s, d + 1);
                let k = first_stop(s, d + 1);
                assert forall|j: int| 0 <= j < k implies time_at(s, j) <= time && (time_at(s, j) == time ==> j > d) by {
                    if j <= d {
                        lemma_time_at_monotone(s, j, d);
                    } else {
                        lemma_total_time_no_delay(s, d + 1, j);
                    }
                }
            },
            DelayLookup::Missing { .. } => {},
        }
    }
    if insert_end_stop(s, time) is Some {
        let k = insert_end_stop(s, time)->Some_0;
        let r = insert_end_result(s, time, sub, id);
        assert(r.take(k) =~= s.take(k));
        assert(r.subrange(k, k + sub.len()) =~= sub);
        assert(r.skip(k + sub.len()) =~= s.skip(k));
    }
}

/// The reading of the 16-bit clock when the event at `i` of `s` runs.
pub open spec fn clock_at(s: Seq<Event>, i: int) -> u16 {
    time_at(s, i) as u16
}

/// When the note at `i` of `s` stops on the 16-bit clock: its start plus its length.
pub open spec fn note_stop(s: Seq<Event>, i: int) -> u16 {
    match s[i].command {
        Command::Note { length, .. } => (length + clock_at(s, i)) as u16,
        _ => 0,
    }
}

/// Whether the event at `i` of `s` is a note of pitch `p` that no later note up to `j` of the
/// same pitch replaces.
pub open spec fn latest_at_pitch(s: Seq<Event>, i: int, j: int, p: u8) -> bool {
    &&& s[i].command matches Command::Note { pitch, .. } && pitch == p
    &&& forall|k: int| #![trigger s[k]] i < k <= j ==> !(s[k].command matches Command::Note { pitch, .. } && pitch == p)
}

/// Whether a note of pitch `p` is sounding when the event at `j` of `s` runs: the last note of
/// that pitch up to `j` stops after that time.
pub open spec fn pitch_sounds(s: Seq<Event>, j: int, p: u8) -> bool {
    exists|i: int| 0 <= i <= j && #[trigger] latest_at_pitch(s, i, j, p) && note_stop(s, i) > clock_at(s, j)
}

/// How many of the pitches below `k` are sounding when the event at `j` of `s` runs.
pub open spec fn pitches_sounding(s: Seq<Event>, j: int, k: int) -> nat
    decreases k,
{
    if k <= 0 {
        0
    } else {
        pitches_sounding(s, j, k - 1) + if pitch_sounds(s, j, (k - 1) as u8) { 1nat } else { 0 }
    }
}

/// How many notes are heard at once when the event at `j` of `s` runs.
pub open spec fn heard_at(s: Seq<Event>, j: int) -> nat {
    pitches_sounding(s, j, 255)
}

proof fn lemma_polyphony_notes(s: Seq<Event>, n: int, p: u8, t: u16)
    requires
        polyphony_defined(s),
        0 <= n <= s.len(),
        p < 255,
    ensures
        polyphony_state(s, n).0.len() == 255,
        (polyphony_state(s, n).0[p as int] > t) <==> exists|i: int|
            0 <= i < n && #[trigger] latest_at_pitch(s, i, n - 1, p) && note_stop(s, i) > t,
    decreases n,
{
    if n > 0 {
        lemma_polyphony_notes(s, n - 1, p, t);
        let notes = polyphony_state(s, n - 1).0;
        let now = polyphony_state(s, n).0;
        let e = s[n - 1];
        let lhs = now[p as int] > t;
        let rhs = exists|i: int| 0 <= i < n && #[trigger] latest_at_pitch(s, i, n - 1, p) && note_stop(s, i) > t;
        let rhs0 = exists|i: int| 0 <= i < n - 1 && #[trigger] latest_at_pitch(s, i, n - 2, p) && note_stop(s, i) > t;
        assert(notes[p as int] > t <==> rhs0);
        let same = e.command matches Command::Note { pitch, .. } && pitch == p;
        match e.command {
            Command::Note { pitch, length, .. } => {
                assert(pitch < 255);
                assert(now == notes.update(pitch as int, (length + clock_at(s, n - 1)) as u16));
            },
            _ => {
                assert(now == notes);
            },
        }
        if same {
            assert(now[p as int] == note_stop(s, n - 1));
            if lhs {
                assert(latest_at_pitch(s, n - 1, n - 1, p));
            }
            if rhs {
                let i = choose|i: int| 0 <= i < n && #[trigger] latest_at_pitch(s, i, n - 1, p) && note_stop(s, i) > t;
                if i < n - 1 {
                    assert(s[n - 1].command matches Command::Note { pitch, .. } && pitch == p);
                    assert(false);
                }
            }
        } else {
            assert(now[p as int] == notes[p as int]);
            lemma_latest_step(s, n, p);
            if rhs {
                let i = choose|i: int| 0 <= i < n && #[trigger] latest_at_pitch(s, i, n - 1, p) && note_stop(s, i) > t;
                assert(i < n - 1);
                assert(latest_at_pitch(s, i, n - 2, p));
            }
            if rhs0 {
                let i = choose|i: int| 0 <= i < n - 1 && #[trigger] latest_at_pitch(s, i, n - 2, p) && note_stop(s, i) > t;
                assert(latest_at_pitch(s, i, n - 1, p));
            }
        }
    }
}

/// Where the event at `n - 1` is no note of pitch `p`, the last notes of that pitch up to it
/// are those up to the event before.
proof fn lemma_latest_step(s: Seq<Event>, n: int, p: u8)
    requires
        1 <= n <= s.len(),
        !(s[n - 1].command matches Command::Note { pitch, .. } && pitch == p),
    ensures
        forall|i: int| 0 <= i < n - 1 ==> (#[trigger] latest_at_pitch(s, i, n - 1, p) <==> latest_at_pitch(s, i, n - 2, p)),
        !latest_at_pitch(s, n - 1, n - 1, p),
{
    assert forall|i: int| 0 <= i < n - 1 implies (#[trigger] latest_at_pitch(s, i, n - 1, p) <==> latest_at_pitch(s, i, n - 2, p)) by {
        if latest_at_pitch(s, i, n - 2, p) {
            assert forall|k: int| #![trigger s[k]] i < k <= n - 1 implies !(s[k].command matches Command::Note { pitch, .. }
                && pitch == p) by {
                if k < n - 1 {
                    assert(i < k <= n - 2);
                }
            }
        }
    }
}

proof fn lemma_heard(s: Seq<Event>, j: int, k: int)
    requires
        polyphony_defined(s),
        0 <= j < s.len(),
        0 <= k <= 255,
    ensures
        sounding(polyphony_state(s, j + 1).0, clock_at(s, j), k) == pitches_sounding(s, j, k),
        pitches_sounding(s, j, k) <= k,
    decreases k,
{
    if k > 0 {
        lemma_heard(s, j, k - 1);
        let p = (k - 1) as u8;
        lemma_polyphony_notes(s, j + 1, p, clock_at(s, j));
        let notes = polyphony_state(s, j + 1).0;
        if notes[k - 1] > clock_at(s, j) {
            let i = choose|i: int| 0 <= i < j + 1 && #[trigger] latest_at_pitch(s, i, j, p) && note_stop(s, i) > clock_at(s, j);
            assert(pitch_sounds(s, j, p));
        }
        if pitch_sounds(s, j, p) {
            let i = choose|i: int| 0 <= i <= j && #[trigger] latest_at_pitch(s, i, j, p) && note_stop(s, i) > clock_at(s, j);
            assert(0 <= i < j + 1);
        }
    }
}

proof fn lemma_polyphony_best(s: Seq<Event>, n: int)
    requires
        polyphony_defined(s),
        0 <= n <= s.len(),
    ensures
        forall|j: int| 0 <= j < n && s[j].command is Note ==> #[trigger] heard_at(s, j) <= polyphony_state(s, n).1,
        polyphony_state(s, n).1 == 0 || exists|j: int|
            0 <= j < n && s[j].command is Note && #[trigger] heard_at(s, j) == polyphony_state(s, n).1,
    decreases n,
{
    if n > 0 {
        lemma_polyphony_best(s, n - 1);
        let best0 = polyphony_state(s, n - 1).1;
        if s[n - 1].command is Note {
            lemma_heard(s, n - 1, 255);
            let now = heard_at(s, n - 1);
            assert(now <= 255);
            assert(polyphony_state(s, n).1 == if now > best0 { now } else { best0 as nat });
        } else {
            assert(polyphony_state(s, n).1 == best0);
        }
        assert forall|j: int| 0 <= j < n && s[j].command is Note implies #[trigger] heard_at(s, j) <= polyphony_state(s, n).1 by {
            if j < n - 1 {
                assert(heard_at(s, j) <= best0);
            }
        }
        if polyphony_state(s, n).1 != 0 && polyphony_state(s, n).1 == best0 {
            let j = choose|j: int| 0 <= j < n - 1 && s[j].command is Note && #[trigger] heard_at(s, j) == best0;
            assert(0 <= j < n);
        }
    }
}

/// The polyphony of a sequence is the most notes heard at once: no note starts while more
/// notes are sounding, and unless it is 0 some note starts while exactly that many sound.
/// A note sounds from its start until its start plus its length on the 16-bit clock, and a
/// later note of the same pitch replaces an earlier one.
pub proof fn law_max_polyphony_is_most_heard(s: Seq<Event>)
    requires
        polyphony_defined(s),
    ensures
        forall|j: int| 0 <= j < s.len() && s[j].command is Note ==> #[trigger] heard_at(s, j) <= polyphony_state(
            s,
            s.len() as int,
        ).1,
        polyphony_state(s, s.len() as int).1 == 0 || exists|j: int|
            0 <= j < s.len() && s[j].command is Note && #[trigger] heard_at(s, j) == polyphony_state(s, s.len() as int).1,
{
    lemma_polyphony_best(s, s.len() as int);
}

} // verus!
