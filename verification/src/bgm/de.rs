//! Decoding of song files into [`Bgm`](crate::bgm::Bgm) values.

use vstd::prelude::*;

use crate::bgm::cmd::{Command, CommandSeq, Event};
use crate::id::{gen_id, next_id, IdGen};
use crate::bgm::{
    drum_from_bytes, first_list_at, instrument_from_bytes, is_max_key, next_list_id, spec_polyphony_from_raw, Bgm, Drum, Instrument,
    Polyphony, Segment, Track, TrackList, TrackListId, Unknown, Variation, NUM_TRACKS, NUM_VARIATIONS,
};
use std::collections::BTreeMap;
use vstd::std_specs::iter::IteratorSpec;
use crate::rw::{
    be16, be32, cstr_bytes, cstr_len, field_at, i8_of, lemma_cstr_len, signed16, signed8, spec_align, zero_run, IoError,
    ReadExt, Reader, SeekExt,
};
use core::ops::Range;

verus! {

broadcast use crate::rw::group_rw;

/// Why a song file could not be decoded.
#[derive(Debug, Clone, PartialEq, Eq, Structural)]
pub enum Error {
    /// The file does not start with the `"BGM "` signature.
    InvalidMagic,
    /// The size that the file gives for itself differs from its length.
    SizeMismatch { true_size: u32, internal_size: u32 },
    /// The file does not have exactly four variations.
    InvalidNumVariations(u8),
    /// A segment entry holds a command word that no segment kind has.
    UnknownSegmentCommand(u32),
    /// A command sequence holds a byte that starts no command.
    UnknownSeqCommand(u8),
    /// Reading failed: the file ended early, or held invalid data.
    Io(IoError),
}

impl Drum {
    /// Reads a drum from the twelve bytes at the reader's position.
    pub fn decode(f: &mut Reader) -> (r: Result<Drum, Error>)
        ensures
            final(f).input() == old(f).input(),
            old(f).cursor() + 12 <= old(f).input().len() ==> {
                &&& r == Ok::<Drum, Error>(
                    drum_from_bytes(old(f).input().subrange(old(f).cursor(), old(f).cursor() + 12)),
                )
                &&& final(f).cursor() == old(f).cursor() + 12
            },
            old(f).cursor() + 12 > old(f).input().len() ==> r == Err::<Drum, Error>(
                Error::Io(IoError::UnexpectedEof),
            ),
    {
        let b = match f.read_bytes(12) {
            Ok(b) => b,
            Err(e) => {
                return Err(Error::Io(e));
            },
        };
        Ok(Drum {
            bank: b[0],
            patch: b[1],
            coarse_tune: b[2],
            fine_tune: b[3],
            volume: b[4],
            pan: i8_of(b[5]),
            reverb: b[6],
            rand_tune: b[7],
            rand_volume: b[8],
            rand_pan: b[9],
            rand_reverb: b[10],
            pad_0b: b[11],
        })
    }
}

impl Instrument {
    /// Reads an instrument from the eight bytes at the reader's position.
    pub fn decode(f: &mut Reader) -> (r: Result<Instrument, Error>)
        ensures
            final(f).input() == old(f).input(),
            old(f).cursor() + 8 <= old(f).input().len() ==> {
                &&& r == Ok::<Instrument, Error>(
                    instrument_from_bytes(old(f).input().subrange(old(f).cursor(), old(f).cursor() + 8)),
                )
                &&& final(f).cursor() == old(f).cursor() + 8
            },
            old(f).cursor() + 8 > old(f).input().len() ==> r == Err::<Instrument, Error>(
                Error::Io(IoError::UnexpectedEof),
            ),
    {
        let b = match f.read_bytes(8) {
            Ok(b) => b,
            Err(e) => {
                return Err(Error::Io(e));
            },
        };
        Ok(Instrument {
            bank: b[0],
            patch: b[1],
            volume: b[2],
            pan: i8_of(b[3]),
            reverb: b[4],
            coarse_tune: b[5],
            fine_tune: b[6],
            pad_07: b[7],
        })
    }
}

impl Unknown {
    /// Copies the bytes of `range` out of the input.
    pub fn decode(f: &mut Reader, range: Range<u64>) -> (r: Result<Unknown, Error>)
        requires
            range.start <= range.end,
        ensures
            final(f).input() == old(f).input(),
            range.end <= old(f).input().len() ==> (r matches Ok(u) && u.range == range && u.data@
                == old(f).input().subrange(range.start as int, range.end as int)),
            range.end > old(f).input().len() ==> r == Err::<Unknown, Error>(Error::Io(IoError::UnexpectedEof)),
    {
        if range.start > f.len() as u64 {
            return Err(Error::Io(IoError::UnexpectedEof));
        }
        f.seek(range.start as usize);
        let len = range.end - range.start;
        if len > usize::MAX as u64 {
            return Err(Error::Io(IoError::UnexpectedEof));
        }
        let data = match f.read_bytes(len as usize) {
            Ok(d) => d,
            Err(e) => {
                return Err(Error::Io(e));
            },
        };
        Ok(Unknown { range, data })
    }
}

/// The upper-case hexadecimal digit of `d` (below 16).
pub open spec fn hex_digit(d: int) -> char {
    if d < 10 {
        (48 + d) as char
    } else {
        (55 + d) as char
    }
}

/// The upper-case hexadecimal digits of `n`, without leading zeros ("0" for zero).
pub open spec fn hex_string(n: nat) -> Seq<char>
    decreases n,
{
    if n < 16 {
        seq![hex_digit(n as int)]
    } else {
        hex_string(n / 16).push(hex_digit((n % 16) as int))
    }
}

/// The label of the marker that decoding places at a byte offset: `"Offset 0x"` and the
/// offset in upper-case hexadecimal.
pub open spec fn offset_label(offset: nat) -> Seq<char> {
    "Offset 0x"@ + hex_string(offset)
}

/// The hexadecimal digit characters of a sequence of digit values.
pub open spec fn digit_chars(d: Seq<u8>) -> Seq<char> {
    d.map_values(|x: u8| hex_digit(x as int))
}

fn hex_digit_str(d: u8) -> (r: &'static str)
    requires
        d < 16,
    ensures
        r@ == seq![hex_digit(d as int)],
{
    match d {
        0 => {
            proof {
                reveal_strlit("0");
            }
            "0"
        },
        1 => {
            proof {
                reveal_strlit("1");
            }
            "1"
        },
        2 => {
            proof {
                reveal_strlit("2");
            }
            "2"
        },
        3 => {
            proof {
                reveal_strlit("3");
            }
            "3"
        },
        4 => {
            proof {
                reveal_strlit("4");
            }
            "4"
        },
        5 => {
            proof {
                reveal_strlit("5");
            }
            "5"
        },
        6 => {
            proof {
                reveal_strlit("6");
            }
            "6"
        },
        7 => {
            proof {
                reveal_strlit("7");
            }
            "7"
        },
        8 => {
            proof {
                reveal_strlit("8");
            }
            "8"
        },
        9 => {
            proof {
                reveal_strlit("9");
            }
            "9"
        },
        10 => {
            proof {
                reveal_strlit("A");
            }
            "A"
        },
        11 => {
            proof {
                reveal_strlit("B");
            }
            "B"
        },
        12 => {
            proof {
                reveal_strlit("C");
            }
            "C"
        },
        13 => {
            proof {
                reveal_strlit("D");
            }
            "D"
        },
        14 => {
            proof {
                reveal_strlit("E");
            }
            "E"
        },
        _ => {
            proof {
                reveal_strlit("F");
            }
            "F"
        },
    }
}

/// The label that decoding gives the marker at `offset` (see [`offset_label`]).
pub fn offset_label_string(offset: usize) -> (r: String)
    ensures
        r@ == offset_label(offset as nat),
{
    let mut q = offset;
    let mut digits: Vec<u8> = Vec::new();
    while q >= 16
        invariant
            hex_string(offset as nat) == hex_string(q as nat) + digit_chars(digits@),
            forall|i: int| 0 <= i < digits@.len() ==> digits@[i] < 16,
        decreases q,
    {
        let d = (q % 16) as u8;
        proof {
            assert(hex_string(q as nat) == hex_string((q / 16) as nat).push(hex_digit(d as int)));
            assert(digit_chars(digits@.insert(0, d)) =~= seq![hex_digit(d as int)] + digit_chars(digits@));
            assert(hex_string((q / 16) as nat).push(hex_digit(d as int)) + digit_chars(digits@)
                =~= hex_string((q / 16) as nat) + (seq![hex_digit(d as int)] + digit_chars(digits@)));
        }
        digits.insert(0, d);
        q = q / 16;
    }
    proof {
        assert(digit_chars(digits@.insert(0, q as u8)) =~= hex_string(q as nat) + digit_chars(digits@));
    }
    digits.insert(0, q as u8);
    let mut s = String::from_str("Offset 0x");
    let mut i: usize = 0;
    while i < digits.len()
        invariant
            i <= digits@.len(),
            hex_string(offset as nat) == digit_chars(digits@),
            forall|j: int| 0 <= j < digits@.len() ==> digits@[j] < 16,
            s@ == "Offset 0x"@ + digit_chars(digits@.take(i as int)),
        decreases digits@.len() - i,
    {
        let piece = hex_digit_str(digits[i]);
        proof {
            assert(digit_chars(digits@.take(i + 1)) =~= digit_chars(digits@.take(i as int)) + piece@);
        }
        s.append(piece);
        i = i + 1;
    }
    proof {
        assert(digits@.take(digits@.len() as int) =~= digits@);
    }
    s
}

/// The index of `k` in the key-sorted entries `s`, or where it would be inserted: the position
/// after the last entry (searching from the end) whose key is below `k`.
pub open spec fn lower_bound<V>(s: Seq<(int, V)>, k: int) -> int
    decreases s.len(),
{
    if s.len() == 0 {
        0
    } else if s.last().0 < k {
        s.len() as int
    } else {
        lower_bound(s.drop_last(), k)
    }
}

/// Whether the key-sorted entries `s` have the key `k`.
pub open spec fn has_key<V>(s: Seq<(int, V)>, k: int) -> bool {
    let i = lower_bound(s, k);
    i < s.len() && s[i].0 == k
}

/// `s` with the entry for `k` set to `v`: replaced where `k` is present, inserted in key
/// order otherwise.
pub open spec fn put<V>(s: Seq<(int, V)>, k: int, v: V) -> Seq<(int, V)> {
    let i = lower_bound(s, k);
    if has_key(s, k) {
        s.update(i, (k, v))
    } else {
        s.insert(i, (k, v))
    }
}

/// Whether the keys of `s` strictly increase.
pub open spec fn sorted_keys<V>(s: Seq<(int, V)>) -> bool {
    forall|i: int, j: int| 0 <= i < j < s.len() ==> s[i].0 < s[j].0
}

/// The key under which a command read at byte `offset` is kept.
pub open spec fn command_key(offset: int) -> int {
    (offset + 1) * 2
}

/// The key under which the marker for byte `offset` is kept, just before the command there.
pub open spec fn marker_key(offset: int) -> int {
    offset * 2 + 1
}

/// The largest offset that the entries reach: the last key halved, or 0 when empty.
pub open spec fn last_offset_of<V>(s: Seq<(int, V)>) -> int {
    if s.len() == 0 {
        0
    } else {
        s.last().0 / 2
    }
}

proof fn lemma_lower_bound_range<V>(s: Seq<(int, V)>, k: int)
    ensures
        0 <= lower_bound(s, k) <= s.len(),
    decreases s.len(),
{
    if s.len() > 0 {
        lemma_lower_bound_range(s.drop_last(), k);
    }
}

proof fn lemma_lower_bound<V>(s: Seq<(int, V)>, k: int)
    requires
        sorted_keys(s),
    ensures
        0 <= lower_bound(s, k) <= s.len(),
        forall|j: int| 0 <= j < lower_bound(s, k) ==> s[j].0 < k,
        forall|j: int| lower_bound(s, k) <= j < s.len() ==> s[j].0 >= k,
    decreases s.len(),
{
    if s.len() > 0 {
        if s.last().0 >= k {
            let t = s.drop_last();
            assert(sorted_keys(t));
            lemma_lower_bound(t, k);
            assert forall|j: int| 0 <= j < lower_bound(s, k) implies s[j].0 < k by {
                assert(s[j] == t[j]);
            }
            assert forall|j: int| lower_bound(s, k) <= j < s.len() implies s[j].0 >= k by {
                if j < t.len() {
                    assert(s[j] == t[j]);
                }
            }
        } else {
            assert forall|j: int| 0 <= j < lower_bound(s, k) implies s[j].0 < k by {
                if j < s.len() - 1 {
                    assert(s[j].0 < s[s.len() - 1].0);
                }
            }
        }
    }
}

proof fn lemma_put_sorted<V>(s: Seq<(int, V)>, k: int, v: V)
    requires
        sorted_keys(s),
    ensures
        sorted_keys(put(s, k, v)),
        has_key(put(s, k, v), k),
{
    lemma_lower_bound(s, k);
    let t = put(s, k, v);
    lemma_lower_bound(t, k);
    let i = lower_bound(s, k);
    if !has_key(s, k) {
        assert forall|a: int, b: int| 0 <= a < b < t.len() implies t[a].0 < t[b].0 by {
            if b < i {
            } else if a > i {
                assert(t[a] == s[a - 1] && t[b] == s[b - 1]);
            } else if a == i {
                assert(t[b] == s[b - 1]);
            } else {
                if b == i {
                } else {
                    assert(t[b] == s[b - 1]);
                }
            }
        }
    }
    lemma_lower_bound(t, k);
    let lb = lower_bound(t, k);
    assert(t[i].0 == k);
    if lb < i {
        assert(t[lb] == s[lb]);
    }
    if lb > i {
        assert(t[i].0 < k);
    }
}

/// Whether the odd keys of `s` hold markers labelled after their offsets.
pub open spec fn markers_labelled(s: Seq<(int, Event)>) -> bool {
    forall|i: int|
        0 <= i < s.len() && #[trigger] s[i].0 % 2 == 1 ==> (s[i].1.command matches Command::Marker { label }
            && label@ == offset_label(((s[i].0 - 1) / 2) as nat))
}

/// The largest key of the key-sorted entries `s`, or 0 when there are none.
pub open spec fn last_key_of<V>(s: Seq<(int, V)>) -> int {
    if s.len() == 0 {
        0
    } else {
        s.last().0
    }
}

/// Whether the map `m` holds exactly the entries `s`.
pub open spec fn map_holds(m: Map<usize, Event>, s: Seq<(int, Event)>) -> bool {
    &&& forall|i: int|
        0 <= i < s.len() ==> 0 <= #[trigger] s[i].0 <= usize::MAX && m.contains_key(s[i].0 as usize) && m[s[i].0 as usize]
            == s[i].1
    &&& forall|k: usize| #[trigger] m.contains_key(k) ==> exists|i: int| 0 <= i < s.len() && s[i].0 == k
}

/// An entry of key-sorted entries is where looking its key up leads.
proof fn lemma_key_index<V>(s: Seq<(int, V)>, i: int)
    requires
        sorted_keys(s),
        0 <= i < s.len(),
    ensures
        lower_bound(s, s[i].0) == i,
        has_key(s, s[i].0),
{
    lemma_lower_bound(s, s[i].0);
    let lb = lower_bound(s, s[i].0);
    if lb < i {
        assert(s[lb].0 < s[i].0);
    }
}

/// Setting an entry in a map and in the sorted entries it holds keeps the one holding the
/// other, and the largest key becomes the larger of the old one and the key set.
#[verifier::rlimit(40)]
proof fn lemma_put_holds(m: Map<usize, Event>, s: Seq<(int, Event)>, k: usize, v: Event)
    requires
        sorted_keys(s),
        map_holds(m, s),
    ensures
        map_holds(m.insert(k, v), put(s, k as int, v)),
        last_key_of(put(s, k as int, v)) == if last_key_of(s) > k { last_key_of(s) } else { k as int },
{
    lemma_lower_bound(s, k as int);
    lemma_put_sorted(s, k as int, v);
    let i = lower_bound(s, k as int);
    let t = put(s, k as int, v);
    let m2 = m.insert(k, v);
    if has_key(s, k as int) {
        assert forall|j: int| 0 <= j < s.len() && j != i implies s[j].0 != k by {
            if j < i {
            } else {
                assert(s[i].0 < s[j].0);
            }
        }
        assert forall|j: int| 0 <= j < t.len() implies 0 <= #[trigger] t[j].0 <= usize::MAX && m2.contains_key(
            t[j].0 as usize,
        ) && m2[t[j].0 as usize] == t[j].1 by {
            if j != i {
                assert(t[j] == s[j]);
            }
        }
        assert forall|k2: usize| #[trigger] m2.contains_key(k2) implies exists|j: int|
            0 <= j < t.len() && t[j].0 == k2 by {
            if k2 == k {
                assert(t[i].0 == k2);
            } else {
                let j = choose|j: int| 0 <= j < s.len() && s[j].0 == k2;
                assert(t[j] == s[j]);
            }
        }
        if i < s.len() - 1 {
            assert(s[i].0 < s[s.len() - 1].0);
        }
    } else {
        assert forall|j: int| 0 <= j < s.len() implies s[j].0 != k by {
            if s[j].0 == k {
                lemma_key_index(s, j);
            }
        }
        assert forall|j: int| 0 <= j < t.len() implies 0 <= #[trigger] t[j].0 <= usize::MAX && m2.contains_key(
            t[j].0 as usize,
        ) && m2[t[j].0 as usize] == t[j].1 by {
            if j < i {
                assert(t[j] == s[j]);
            } else if j > i {
                assert(t[j] == s[j - 1]);
            }
        }
        assert forall|k2: usize| #[trigger] m2.contains_key(k2) implies exists|j: int|
            0 <= j < t.len() && t[j].0 == k2 by {
            if k2 == k {
                assert(t[i].0 == k2);
            } else {
                let j = choose|j: int| 0 <= j < s.len() && s[j].0 == k2;
                if j < i {
                    assert(t[j] == s[j]);
                } else {
                    assert(t[j + 1] == s[j]);
                }
            }
        }
        if i < s.len() {
            assert(t.last() == s.last());
            assert(s[i].0 <= s[s.len() - 1].0) by {
                if i < s.len() - 1 {
                    assert(s[i].0 < s[s.len() - 1].0);
                }
            }
        }
    }
}

/// Two strictly increasing sequences with the same elements are equal.
proof fn lemma_same_increasing(a: Seq<int>, b: Seq<int>)
    requires
        forall|i: int, j: int| 0 <= i < j < a.len() ==> a[i] < a[j],
        forall|i: int, j: int| 0 <= i < j < b.len() ==> b[i] < b[j],
        forall|x: int| a.contains(x) <==> b.contains(x),
    ensures
        a == b,
    decreases a.len() + b.len(),
{
    if a.len() == 0 {
        if b.len() > 0 {
            assert(b.contains(b[0]));
        }
        assert(a =~= b);
    } else if b.len() == 0 {
        assert(a.contains(a[0]));
    } else {
        let la = a.last();
        let lb = b.last();
        assert(a.contains(la));
        assert(b.contains(lb));
        let ia = choose|i: int| 0 <= i < a.len() && a[i] == lb;
        let ib = choose|i: int| 0 <= i < b.len() && b[i] == la;
        if ia < a.len() - 1 {
            assert(a[ia] < la);
        }
        if ib < b.len() - 1 {
            assert(b[ib] < lb);
        }
        assert(la == lb);
        let a2 = a.drop_last();
        let b2 = b.drop_last();
        assert forall|x: int| a2.contains(x) <==> b2.contains(x) by {
            if a2.contains(x) {
                let i = choose|i: int| 0 <= i < a2.len() && a2[i] == x;
                assert(a[i] == x && a[i] < la);
                assert(b.contains(x));
                let j = choose|j: int| 0 <= j < b.len() && b[j] == x;
                assert(j != b.len() - 1);
                assert(b2[j] == x);
            }
            if b2.contains(x) {
                let j = choose|j: int| 0 <= j < b2.len() && b2[j] == x;
                assert(b[j] == x && b[j] < lb);
                assert(a.contains(x));
                let i = choose|i: int| 0 <= i < a.len() && a[i] == x;
                assert(i != a.len() - 1);
                assert(a2[i] == x);
            }
        }
        lemma_same_increasing(a2, b2);
        assert(a =~= a2.push(la));
        assert(b =~= b2.push(lb));
    }
}

proof fn lemma_keys_increase(keys: Seq<&usize>)
    requires
        vstd::std_specs::btree::increasing_seq(keys),
    ensures
        forall|i: int, j: int| 0 <= i < j < keys.len() ==> *keys[i] < *keys[j],
{
    broadcast use vstd::std_specs::btree::group_btree_axioms;
    assert forall|i: int, j: int| 0 <= i < j < keys.len() implies *keys[i] < *keys[j] by {
        assert(vstd::std_specs::cmp::OrdSpec::cmp_spec(&keys[i], &keys[j]) is Less);
    }
}

/// Placing the marker for an offset leaves it there to be found: asking again for the marker of
/// that offset (see [`OffsetEventMap::upsert_marker`]) finds it, so it gives the same label and
/// changes nothing.
pub proof fn law_marker_found_after_upsert(s: Seq<(int, Event)>, offset: int, e: Event)
    requires
        sorted_keys(s),
    ensures
        has_key(put(s, marker_key(offset), e), marker_key(offset)),
        sorted_keys(put(s, marker_key(offset), e)),
{
    lemma_put_sorted(s, marker_key(offset), e);
}

/// The events of a command sequence being decoded, each under the key of the byte offset it was
/// read from (see [`command_key`] and [`marker_key`]), so that markers can be placed at offsets
/// that have not been read yet. Only the order of the keys matters in the end.
pub struct OffsetEventMap {
    map: BTreeMap<usize, Event>,
    entries: Ghost<Seq<(int, Event)>>,
    last_key: usize,
}

impl View for OffsetEventMap {
    type V = Seq<(int, Event)>;

    closed spec fn view(&self) -> Seq<(int, Event)> {
        self.entries@
    }
}

impl OffsetEventMap {
    /// Whether the keys increase and every odd key holds the marker for its offset.
    pub open spec fn wf(&self) -> bool {
        sorted_keys(self@) && markers_labelled(self@) && self.holds()
    }

    /// Whether the map holds the entries of the view, and the largest key is noted.
    pub closed spec fn holds(&self) -> bool {
        map_holds(self.map@, self.entries@) && self.last_key == last_key_of(self.entries@)
    }

    pub fn new() -> (r: Self)
        ensures
            r@ == Seq::<(int, Event)>::empty(),
            r.wf(),
    {
        broadcast use vstd::std_specs::btree::group_btree_axioms;
        let r = OffsetEventMap { map: BTreeMap::new(), entries: Ghost(Seq::empty()), last_key: 0 };
        assert(r.map@ =~= Map::<usize, Event>::empty());
        r
    }

    /// The key of the command at `offset`. Keys leave room for a marker before each command.
    pub fn atob(offset: usize) -> (r: usize)
        requires
            command_key(offset as int) <= usize::MAX,
        ensures
            r == command_key(offset as int),
    {
        (offset + 1) * 2
    }

    /// The offset that a key stands for (the inverse of [`OffsetEventMap::atob`], rounding down).
    pub fn btoa(key: usize) -> (r: usize)
        ensures
            r == key / 2,
    {
        key / 2
    }

    fn put_key(&mut self, key: usize, event: Event)
        requires
            old(self).wf(),
            key % 2 == 1 ==> (event.command matches Command::Marker { label } && label@ == offset_label(
                ((key - 1) / 2) as nat,
            )),
        ensures
            final(self)@ == put(old(self)@, key as int, event),
            final(self).wf(),
    {
        broadcast use vstd::std_specs::btree::group_btree_axioms;
        let ghost old_view = self@;
        proof {
            lemma_put_sorted(old_view, key as int, event);
            lemma_lower_bound(old_view, key as int);
            lemma_put_holds(self.map@, old_view, key, event);
        }
        self.map.insert(key, event);
        self.entries = Ghost(put(old_view, key as int, event));
        if key > self.last_key {
            self.last_key = key;
        }
        proof {
            let t = self@;
            let i = lower_bound(old_view, key as int);
            assert forall|j: int| 0 <= j < t.len() && #[trigger] t[j].0 % 2 == 1 implies (t[j].1.command matches Command::Marker { label }
                && label@ == offset_label(((t[j].0 - 1) / 2) as nat)) by {
                if j < i {
                    assert(t[j] == old_view[j]);
                } else if j > i {
                    if has_key(old_view, key as int) {
                        assert(t[j] == old_view[j]);
                    } else {
                        assert(t[j] == old_view[j - 1]);
                    }
                }
            }
        }
    }

    /// Adds `command` as read at `offset`.
    pub fn insert(&mut self, offset: usize, command: Event)
        requires
            old(self).wf(),
            command_key(offset as int) <= usize::MAX,
        ensures
            final(self)@ == put(old(self)@, command_key(offset as int), command),
            final(self).wf(),
    {
        let key = Self::atob(offset);
        self.put_key(key, command);
    }

    /// Finds the marker for `offset`, or inserts one (with a fresh identifier); returns its label.
    pub fn upsert_marker(&mut self, ids: &mut IdGen, offset: usize) -> (r: String)
        requires
            old(self).wf(),
            marker_key(offset as int) <= usize::MAX,
        ensures
            final(self).wf(),
            r@ == offset_label(offset as nat),
            has_key(old(self)@, marker_key(offset as int)) ==> final(self)@ == old(self)@ && final(ids).peek()
                == old(ids).peek(),
            !has_key(old(self)@, marker_key(offset as int)) ==> final(ids).peek() == next_id(old(ids).peek())
                && final(self)@ == put(
                old(self)@,
                marker_key(offset as int),
                Event { id: old(ids).peek(), command: Command::Marker { label: r } },
            ),
    {
        broadcast use vstd::std_specs::btree::group_btree_axioms;
        let key = offset * 2 + 1;
        let ghost v = self@;
        proof {
            if self.map@.contains_key(key) {
                let i = choose|i: int| 0 <= i < v.len() && v[i].0 == key;
                lemma_key_index(v, i);
            }
            if has_key(v, key as int) {
                lemma_lower_bound_range(v, key as int);
                let i = lower_bound(v, key as int);
                assert(v[i].0 == key);
            }
        }
        match self.map.get(&key) {
            Some(event) => {
                proof {
                    let i = choose|i: int| 0 <= i < v.len() && v[i].0 == key;
                    assert(v[i].0 % 2 == 1);
                    assert(self.map@[key] == v[i].1);
                }
                match &event.command {
                    Command::Marker { label } => label.clone(),
                    _ => {
                        proof {
                            assert(false);
                        }
                        offset_label_string(offset)
                    },
                }
            },
            None => {
                let label = offset_label_string(offset);
                let event = Event::new(ids, Command::Marker { label: label.clone() });
                self.put_key(key, event);
                label
            },
        }
    }

    /// The offset of the last entry (see [`last_offset_of`]).
    pub fn last_offset(&self) -> (r: usize)
        requires
            self.wf(),
        ensures
            r == last_offset_of(self@),
    {
        Self::btoa(self.last_key)
    }

    /// The keys of the map, in increasing order: those of the entries.
    fn keys_in_order(&self) -> (r: Vec<usize>)
        requires
            self.wf(),
        ensures
            r@.len() == self@.len(),
            forall|i: int| 0 <= i < r@.len() ==> r@[i] as int == #[trigger] self@[i].0,
    {
        broadcast use vstd::std_specs::btree::group_btree_axioms;
        let mut out: Vec<usize> = Vec::new();
        let ghost keys = vstd::std_specs::btree::spec_keys_iter(&self.map).remaining();
        for k in it: self.map.keys()
            invariant
                it.seq() == keys,
                out@ == keys.take(it.index()).unref(),
        {
            assert(keys.take(it.index() + 1).unref() =~= out@.push(*k));
            out.push(*k);
        }
        proof {
            assert(keys.take(keys.len() as int) =~= keys);
            assert(out@ =~= keys.unref());
            lemma_keys_increase(keys);
            assert forall|i: int, j: int| 0 <= i < j < out@.len() implies out@[i] < out@[j] by {
                assert(out@[i] == *keys[i] && out@[j] == *keys[j]);
            }
            let v = self@;
            let a = out@.map_values(|k: usize| k as int);
            let b = v.map_values(|e: (int, Event)| e.0);
            assert forall|x: int| a.contains(x) <==> b.contains(x) by {
                if a.contains(x) {
                    let i = choose|i: int| 0 <= i < a.len() && a[i] == x;
                    assert(out@.to_set().contains(out@[i]));
                    assert(self.map@.contains_key(x as usize));
                    let j = choose|j: int| 0 <= j < v.len() && v[j].0 == x as usize;
                    assert(b[j] == x);
                }
                if b.contains(x) {
                    let j = choose|j: int| 0 <= j < b.len() && b[j] == x;
                    assert(self.map@.contains_key(v[j].0 as usize));
                    assert(self.map@.dom().contains(x as usize));
                    assert(out@.to_set().contains(x as usize));
                    let i = choose|i: int| 0 <= i < out@.len() && out@[i] == x as usize;
                    assert(a[i] == x);
                }
            }
            lemma_same_increasing(a, b);
            assert forall|i: int| 0 <= i < out@.len() implies out@[i] as int == #[trigger] v[i].0 by {
                assert(a[i] == b[i]);
            }
        }
        out
    }

    /// The events in key order.
    pub fn into_command_seq(self) -> (r: CommandSeq)
        requires
            self.wf(),
        ensures
            r@ == self@.map_values(|e: (int, Event)| e.1),
    {
        broadcast use vstd::std_specs::btree::group_btree_axioms;
        let keys = self.keys_in_order();
        let ghost all = self@;
        let n = keys.len();
        proof {
            assert forall|j: int| 0 <= j < n implies self.map@.contains_key(#[trigger] keys@[j]) && self.map@[keys@[j]]
                == all[j].1 by {
                assert(keys@[j] == all[j].0 as usize);
            }
        }
        let mut map = self.map;
        let mut events: Vec<Event> = Vec::new();
        let mut i: usize = 0;
        while i < n
            invariant
                n == keys@.len(),
                n == all.len(),
                i <= n,
                sorted_keys(all),
                forall|j: int| 0 <= j < n ==> keys@[j] as int == #[trigger] all[j].0,
                forall|j: int| i <= j < n ==> map@.contains_key(#[trigger] keys@[j]) && map@[keys@[j]] == all[j].1,
                events@.len() == i,
                forall|j: int| 0 <= j < i ==> events@[j] == #[trigger] all[j].1,
            decreases n - i,
        {
            let ghost before = map@;
            let k = keys[i];
            match map.remove(&k) {
                Some(e) => {
                    events.push(e);
                },
                None => {
                    proof {
                        assert(false);
                    }
                },
            }
            proof {
                assert forall|j: int| i + 1 <= j < n implies map@.contains_key(#[trigger] keys@[j]) && map@[keys@[j]]
                    == all[j].1 by {
                    assert(all[i as int].0 < all[j].0);
                    assert(keys@[j] != k);
                }
            }
            i = i + 1;
        }
        let r = CommandSeq::from_events(events);
        assert(r@ =~= all.map_values(|e: (int, Event)| e.1));
        r
    }
}

/// What one command read from a sequence stands for: a command that carries no label, a
/// marker at a byte offset, or a detour between the markers at two byte offsets.
#[derive(Debug, Clone, PartialEq, Eq)]
pub enum Decoded {
    Cmd(Command),
    Marker(usize),
    Detour(usize, usize),
}

/// Whether `e` is what `d` stands for, a marker or detour carrying the labels of its offsets.
pub open spec fn shows(e: Event, d: Decoded) -> bool {
    match d {
        Decoded::Cmd(c) => e.command == c,
        Decoded::Marker(o) => e.command matches Command::Marker { label } && label@ == offset_label(o as nat),
        Decoded::Detour(a, b) => e.command matches Command::Detour { start_label, end_label } && start_label@
            == offset_label(a as nat) && end_label@ == offset_label(b as nat),
    }
}

/// The number of operand bytes after the command byte `op` (notes excepted: their length takes
/// one or two bytes); `None` when `op` starts no command.
pub open spec fn operand_count(op: u8) -> Option<nat> {
    if op < 0x78 {
        Some(0)
    } else if op < 0x80 {
        Some(1)
    } else if op <= 0xD3 {
        None
    } else if op == 0xE0 || op == 0xE6 || op == 0xE8 || op == 0xEF || op == 0xF4 {
        Some(2)
    } else if op == 0xE1 || op == 0xE2 || op == 0xE3 || op == 0xE9 || op == 0xEA || op == 0xEB || op == 0xEC
        || op == 0xED || op == 0xEE || op == 0xF1 || op == 0xF2 || op == 0xF5 || op == 0xF7 {
        Some(1)
    } else if op == 0xE4 || op == 0xFD {
        Some(4)
    } else if op == 0xE5 || op == 0xF0 || op == 0xF6 || op == 0xFC || op == 0xFE || op == 0xFF {
        Some(3)
    } else if op == 0xF3 {
        Some(0)
    } else {
        None
    }
}

/// Whether `op` starts a note: its pitch.
pub open spec fn is_note_op(op: u8) -> bool {
    0x80 <= op <= 0xD3
}

/// The command that the byte `op` and its operand bytes `b` stand for (notes and detours aside).
pub open spec fn command_from(op: u8, b: Seq<u8>) -> Command {
    if op == 0 {
        Command::End
    } else if op < 0x78 {
        Command::Delay(op as usize)
    } else if op < 0x80 {
        Command::Delay((0x78 + (op - 0x78) * 256 + b[0]) as usize)
    } else if op == 0xE0 {
        Command::MasterTempo(be16(b[0], b[1]) as u16)
    } else if op == 0xE1 {
        Command::MasterVolume(b[0])
    } else if op == 0xE2 {
        Command::MasterPitchShift { cent: b[0] }
    } else if op == 0xE3 {
        Command::UnkCmdE3 { effect_type: b[0] }
    } else if op == 0xE4 {
        Command::MasterTempoFade { time: be16(b[0], b[1]) as u16, value: be16(b[2], b[3]) as u16 }
    } else if op == 0xE5 {
        Command::MasterVolumeFade { time: be16(b[0], b[1]) as u16, volume: b[2] }
    } else if op == 0xE6 {
        Command::MasterEffect { index: b[0], value: b[1] }
    } else if op == 0xE8 {
        Command::TrackOverridePatch { bank: b[0], patch: b[1] }
    } else if op == 0xE9 {
        Command::SubTrackVolume(b[0])
    } else if op == 0xEA {
        Command::SubTrackPan(signed8(b[0]) as i8)
    } else if op == 0xEB {
        Command::SubTrackReverb(b[0])
    } else if op == 0xEC {
        Command::SegTrackVolume(b[0])
    } else if op == 0xED {
        Command::SubTrackCoarseTune(b[0])
    } else if op == 0xEE {
        Command::SubTrackFineTune(b[0])
    } else if op == 0xEF {
        Command::SegTrackTune { bend: signed16(be16(b[0], b[1])) as i16 }
    } else if op == 0xF0 {
        Command::TrackTremolo { amount: b[0], speed: b[1], time: b[2] }
    } else if op == 0xF1 {
        Command::TrackTremoloSpeed(b[0])
    } else if op == 0xF2 {
        Command::TrackTremoloTime { time: b[0] }
    } else if op == 0xF3 {
        Command::TrackTremoloStop
    } else if op == 0xF4 {
        Command::UnkCmdF4 { pan0: b[0], pan1: b[1] }
    } else if op == 0xF5 {
        Command::SetTrackVoice { index: b[0] }
    } else if op == 0xF6 {
        Command::TrackVolumeFade { time: be16(b[0], b[1]) as u16, value: b[2] }
    } else if op == 0xF7 {
        Command::SubTrackReverbType { index: b[0] }
    } else if op == 0xFC {
        Command::Jump { unk_00: be16(b[0], b[1]) as u16, unk_02: b[2] }
    } else if op == 0xFD {
        Command::EventTrigger { event_info: be32(b[0], b[1], b[2], b[3]) as u32 }
    } else {
        Command::UnkCmdFF { unk_00: b[0], unk_01: b[1], unk_02: b[2] }
    }
}

/// Reading one command at position `p` of `s`, in a sequence that starts at `start`: what it
/// stands for and the position after it. A detour gives its start as an absolute position; one
/// before `start` is invalid.
pub open spec fn parse_command(s: Seq<u8>, p: int, start: int) -> Result<(Decoded, int), Error> {
    let eof = Err(Error::Io(IoError::UnexpectedEof));
    if p < 0 || p >= s.len() {
        eof
    } else {
        let op = s[p];
        if is_note_op(op) {
            if p + 3 > s.len() {
                eof
            } else if s[p + 2] < 0xC0 {
                Ok((Decoded::Cmd(Command::Note { pitch: op, velocity: s[p + 1], length: s[p + 2] as u16 }), p + 3))
            } else if p + 4 > s.len() {
                eof
            } else {
                Ok(
                    (
                        Decoded::Cmd(
                            Command::Note {
                                pitch: op,
                                velocity: s[p + 1],
                                length: (0xC0 + (s[p + 2] - 0xC0) * 256 + s[p + 3]) as u16,
                            },
                        ),
                        p + 4,
                    ),
                )
            }
        } else {
            match operand_count(op) {
                None => Err(Error::UnknownSeqCommand(op)),
                Some(n) => {
                    if p + 1 + n > s.len() {
                        eof
                    } else {
                        let b = s.subrange(p + 1, p + 1 + n);
                        if op == 0xFE {
                            let w = be16(b[0], b[1]);
                            if w < start {
                                Err(Error::Io(IoError::InvalidData))
                            } else {
                                Ok((Decoded::Detour((w - start) as usize, (w - start + b[2]) as usize), p + 1 + n))
                            }
                        } else {
                            Ok((Decoded::Cmd(command_from(op, b)), p + 1 + n))
                        }
                    }
                },
            }
        }
    }
}

fn operand_count_of(op: u8) -> (r: Option<usize>)
    ensures
        r matches Some(n) ==> operand_count(op) == Some(n as nat),
        r is None ==> operand_count(op) is None,
{
    if op < 0x78 {
        Some(0)
    } else if op < 0x80 {
        Some(1)
    } else if op <= 0xD3 {
        None
    } else if op == 0xE0 || op == 0xE6 || op == 0xE8 || op == 0xEF || op == 0xF4 {
        Some(2)
    } else if op == 0xE1 || op == 0xE2 || op == 0xE3 || op == 0xE9 || op == 0xEA || op == 0xEB || op == 0xEC
        || op == 0xED || op == 0xEE || op == 0xF1 || op == 0xF2 || op == 0xF5 || op == 0xF7 {
        Some(1)
    } else if op == 0xE4 || op == 0xFD {
        Some(4)
    } else if op == 0xE5 || op == 0xF0 || op == 0xF6 || op == 0xFC || op == 0xFE || op == 0xFF {
        Some(3)
    } else if op == 0xF3 {
        Some(0)
    } else {
        None
    }
}

fn word_of(b0: u8, b1: u8) -> (r: u16)
    ensures
        r == be16(b0, b1),
{
    (b0 as u16) * 256 + (b1 as u16)
}

fn signed_word_of(b0: u8, b1: u8) -> (r: i16)
    ensures
        r == signed16(be16(b0, b1)),
{
    let w = word_of(b0, b1);
    if w < 0x8000 {
        w as i16
    } else {
        (w as i32 - 0x1_0000) as i16
    }
}

fn command_of(op: u8, b: &Vec<u8>) -> (r: Command)
    requires
        !is_note_op(op),
        op != 0xFE,
        operand_count(op) == Some(b@.len()),
    ensures
        r == command_from(op, b@),
{
    if op == 0 {
        Command::End
    } else if op < 0x78 {
        Command::Delay(op as usize)
    } else if op < 0x80 {
        Command::Delay(0x78 + ((op - 0x78) as usize) * 256 + b[0] as usize)
    } else if op == 0xE0 {
        Command::MasterTempo(word_of(b[0], b[1]))
    } else if op == 0xE1 {
        Command::MasterVolume(b[0])
    } else if op == 0xE2 {
        Command::MasterPitchShift { cent: b[0] }
    } else if op == 0xE3 {
        Command::UnkCmdE3 { effect_type: b[0] }
    } else if op == 0xE4 {
        Command::MasterTempoFade { time: word_of(b[0], b[1]), value: word_of(b[2], b[3]) }
    } else if op == 0xE5 {
        Command::MasterVolumeFade { time: word_of(b[0], b[1]), volume: b[2] }
    } else if op == 0xE6 {
        Command::MasterEffect { index: b[0], value: b[1] }
    } else if op == 0xE8 {
        Command::TrackOverridePatch { bank: b[0], patch: b[1] }
    } else if op == 0xE9 {
        Command::SubTrackVolume(b[0])
    } else if op == 0xEA {
        Command::SubTrackPan(i8_of(b[0]))
    } else if op == 0xEB {
        Command::SubTrackReverb(b[0])
    } else if op == 0xEC {
        Command::SegTrackVolume(b[0])
    } else if op == 0xED {
        Command::SubTrackCoarseTune(b[0])
    } else if op == 0xEE {
        Command::SubTrackFineTune(b[0])
    } else if op == 0xEF {
        Command::SegTrackTune { bend: signed_word_of(b[0], b[1]) }
    } else if op == 0xF0 {
        Command::TrackTremolo { amount: b[0], speed: b[1], time: b[2] }
    } else if op == 0xF1 {
        Command::TrackTremoloSpeed(b[0])
    } else if op == 0xF2 {
        Command::TrackTremoloTime { time: b[0] }
    } else if op == 0xF3 {
        Command::TrackTremoloStop
    } else if op == 0xF4 {
        Command::UnkCmdF4 { pan0: b[0], pan1: b[1] }
    } else if op == 0xF5 {
        Command::SetTrackVoice { index: b[0] }
    } else if op == 0xF6 {
        Command::TrackVolumeFade { time: word_of(b[0], b[1]), value: b[2] }
    } else if op == 0xF7 {
        Command::SubTrackReverbType { index: b[0] }
    } else if op == 0xFC {
        Command::Jump { unk_00: word_of(b[0], b[1]), unk_02: b[2] }
    } else if op == 0xFD {
        let v: u32 = (b[0] as u32) * 0x100_0000 + (b[1] as u32) * 0x1_0000 + (b[2] as u32) * 0x100 + b[3] as u32;
        Command::EventTrigger { event_info: v }
    } else {
        Command::UnkCmdFF { unk_00: b[0], unk_01: b[1], unk_02: b[2] }
    }
}

/// Reads one command of a sequence that starts at `start` (see [`parse_command`]).
pub fn read_command(f: &mut Reader, start: usize) -> (r: Result<Decoded, Error>)
    ensures
        final(f).input() == old(f).input(),
        match parse_command(old(f).input(), old(f).cursor(), start as int) {
            Ok((d, next)) => r == Ok::<Decoded, Error>(d) && final(f).cursor() == next,
            Err(e) => r == Err::<Decoded, Error>(e),
        },
{
    let ghost s = f.input();
    let ghost p = f.cursor();
    let op = match f.read_u8() {
        Ok(b) => b,
        Err(e) => {
            return Err(Error::Io(e));
        },
    };
    if 0x80 <= op && op <= 0xD3 {
        let b = match f.read_bytes(2) {
            Ok(b) => b,
            Err(e) => {
                return Err(Error::Io(e));
            },
        };
        let velocity = b[0];
        let first = b[1];
        if first < 0xC0 {
            return Ok(Decoded::Cmd(Command::Note { pitch: op, velocity, length: first as u16 }));
        }
        let second = match f.read_u8() {
            Ok(b) => b,
            Err(e) => {
                return Err(Error::Io(e));
            },
        };
        let length: u16 = 0xC0 + ((first - 0xC0) as u16) * 256 + second as u16;
        return Ok(Decoded::Cmd(Command::Note { pitch: op, velocity, length }));
    }
    let n = match operand_count_of(op) {
        Some(n) => n,
        None => {
            return Err(Error::UnknownSeqCommand(op));
        },
    };
    let b = match f.read_bytes(n) {
        Ok(b) => b,
        Err(e) => {
            return Err(Error::Io(e));
        },
    };
    if op == 0xFE {
        let w = word_of(b[0], b[1]) as usize;
        if w < start {
            return Err(Error::Io(IoError::InvalidData));
        }
        let a = w - start;
        return Ok(Decoded::Detour(a, a + b[2] as usize));
    }
    Ok(Decoded::Cmd(command_of(op, &b)))
}

/// Decoding state: entries keyed as in [`OffsetEventMap`], each with its identifier.
pub type DecodedEntries = Seq<(int, (u32, Decoded))>;

/// The entries with a marker for `offset` (given the identifier `id` when new), and the next
/// identifier.
pub open spec fn upsert_marker_entries(s: DecodedEntries, offset: int, id: u32) -> (DecodedEntries, u32) {
    let k = marker_key(offset);
    if has_key(s, k) {
        (s, id)
    } else {
        (put(s, k, (id, Decoded::Marker(offset as usize))), next_id(id))
    }
}

/// Decoding a command sequence that starts at `start`, from position `p` on, with the entries
/// read so far and the next identifier `id`; `seen_end` tells whether an `End` was read.
///
/// After an `End`, reading goes on while some marker lies ahead (a detour may target commands
/// after the end), and stops at the first position that no entry lies beyond. One song also
/// reaches data through a detour that no command in the file points to: at position `0x38EB`
/// a marker `0x100` bytes ahead is placed.
///
/// The result holds the entries in key order, the position after the sequence and the next
/// identifier.
pub open spec fn decode_from(s: Seq<u8>, start: int, p: int, seen_end: bool, entries: DecodedEntries, id: u32)
    -> Result<(DecodedEntries, int, u32), Error>
    decreases s.len() - p,
{
    let (e1, i1) = if seen_end && p == 0x38EB {
        upsert_marker_entries(entries, 0x39EB - start, id)
    } else {
        (entries, id)
    };
    if seen_end && p - start >= last_offset_of(e1) {
        Ok((e1, p, i1))
    } else {
        match parse_command(s, p, start) {
            Err(e) => Err(e),
            Ok((d, np)) => {
                let (e2, i2) = match d {
                    Decoded::Detour(a, b) => {
                        let (t, j) = upsert_marker_entries(e1, a as int, i1);
                        upsert_marker_entries(t, b as int, j)
                    },
                    _ => (e1, i1),
                };
                if p < np <= s.len() {
                    decode_from(
                        s,
                        start,
                        np,
                        seen_end || d == Decoded::Cmd(Command::End),
                        put(e2, command_key(p - start), (i2, d)),
                        next_id(i2),
                    )
                } else {
                    Err(Error::Io(IoError::UnexpectedEof))
                }
            },
        }
    }
}

/// Decoding the command sequence at position `start` of `s`, giving identifiers from `id` on.
pub open spec fn decode_sequence(s: Seq<u8>, start: int, id: u32) -> Result<(DecodedEntries, int, u32), Error> {
    decode_from(s, start, start, false, Seq::empty(), id)
}

/// Whether the keyed events `ev` are the decoded entries `sp`: same keys and identifiers, and
/// each event what its entry stands for.
pub open spec fn entries_show(ev: Seq<(int, Event)>, sp: DecodedEntries) -> bool {
    &&& ev.len() == sp.len()
    &&& forall|i: int|
        0 <= i < ev.len() ==> #[trigger] ev[i].0 == sp[i].0 && ev[i].1.id == sp[i].1.0 && shows(ev[i].1, sp[i].1.1)
}

/// Whether the events `ev` are, in order, the decoded entries `sp`.
pub open spec fn events_show(ev: Seq<Event>, sp: DecodedEntries) -> bool {
    &&& ev.len() == sp.len()
    &&& forall|i: int| 0 <= i < ev.len() ==> #[trigger] ev[i].id == sp[i].1.0 && shows(ev[i], sp[i].1.1)
}

proof fn lemma_show_lower_bound(a: Seq<(int, Event)>, b: DecodedEntries, k: int)
    requires
        entries_show(a, b),
    ensures
        lower_bound(a, k) == lower_bound(b, k),
        has_key(a, k) == has_key(b, k),
    decreases a.len(),
{
    if a.len() > 0 {
        let a1 = a.drop_last();
        let b1 = b.drop_last();
        assert(a.last().0 == a[a.len() - 1].0);
        assert(entries_show(a1, b1)) by {
            assert forall|i: int| 0 <= i < a1.len() implies #[trigger] a1[i].0 == b1[i].0 && a1[i].1.id
                == b1[i].1.0 && shows(a1[i].1, b1[i].1.1) by {
                assert(a1[i] == a[i] && b1[i] == b[i]);
                assert(a[i].0 == b[i].0);
            }
        }
        lemma_show_lower_bound(a1, b1, k);
        lemma_lower_bound_range(a, k);
        let i = lower_bound(a, k);
        if i < a.len() {
            assert(a[i].0 == b[i].0);
        }
    }
}

proof fn lemma_show_put(a: Seq<(int, Event)>, b: DecodedEntries, k: int, e: Event, d: Decoded)
    requires
        entries_show(a, b),
        shows(e, d),
    ensures
        entries_show(put(a, k, e), put(b, k, (e.id, d))),
{
    lemma_show_lower_bound(a, b, k);
    lemma_lower_bound_range(a, k);
    let i = lower_bound(a, k);
    let pa = put(a, k, e);
    let pb = put(b, k, (e.id, d));
    assert forall|j: int| 0 <= j < pa.len() implies #[trigger] pa[j].0 == pb[j].0 && pa[j].1.id == pb[j].1.0 && shows(
        pa[j].1,
        pb[j].1.1,
    ) by {
        if j < i {
            assert(pa[j] == a[j] && pb[j] == b[j]);
            assert(a[j].0 == b[j].0);
        } else if j > i {
            if has_key(a, k) {
                assert(pa[j] == a[j] && pb[j] == b[j]);
                assert(a[j].0 == b[j].0);
            } else {
                assert(pa[j] == a[j - 1] && pb[j] == b[j - 1]);
                assert(a[j - 1].0 == b[j - 1].0);
            }
        }
    }
}

impl CommandSeq {
    /// Reads the command sequence at the reader's position (see [`decode_sequence`]). Detours
    /// become [`Command::Detour`] between markers placed at their offsets.
    pub fn decode(f: &mut Reader, ids: &mut IdGen) -> (r: Result<CommandSeq, Error>)
        requires
            old(f).input().len() <= usize::MAX / 2,
        ensures
            final(f).input() == old(f).input(),
            match decode_sequence(old(f).input(), old(f).cursor(), old(ids).peek()) {
                Ok((entries, end, next)) => (r matches Ok(seq) && events_show(seq@, entries)) && final(f).cursor()
                    == end && final(ids).peek() == next,
                Err(e) => r == Err::<CommandSeq, Error>(e),
            },
    {
        let ghost s = f.input();
        let ghost id0 = ids.peek();
        let start = f.position();
        let mut events = OffsetEventMap::new();
        let mut seen_terminator = false;
        let ghost mut sp: DecodedEntries = Seq::empty();
        assert(entries_show(events@, sp));
        loop
            invariant_except_break
                decode_sequence(s, start as int, id0) == decode_from(s, start as int, f.cursor(), seen_terminator, sp, ids.peek()),
            invariant
                f.input() == s,
                s == old(f).input(),
                start == old(f).cursor(),
                id0 == old(ids).peek(),
                s.len() <= usize::MAX / 2,
                start <= f.cursor(),
                events.wf(),
                entries_show(events@, sp),
            ensures
                decode_sequence(s, start as int, id0) == Ok::<(DecodedEntries, int, u32), Error>((sp, f.cursor(), ids.peek())),
            decreases s.len() - f.cursor(),
        {
            let pos = f.position();
            let ghost p = f.cursor();
            if seen_terminator && pos == 0x38EB {
                let ghost k = marker_key(0x39EB - start);
                let ghost ev0 = events@;
                let ghost id_before = ids.peek();
                proof {
                    lemma_show_lower_bound(ev0, sp, k);
                }
                let label = events.upsert_marker(ids, 0x39EB - start);
                proof {
                    if !has_key(sp, k) {
                        lemma_show_put(
                            ev0,
                            sp,
                            k,
                            Event { id: id_before, command: Command::Marker { label } },
                            Decoded::Marker((0x39EB - start) as usize),
                        );
                    }
                    sp = upsert_marker_entries(sp, 0x39EB - start, id_before).0;
                }
            }
            if seen_terminator && pos - start >= events.last_offset() {
                break;
            }
            let ghost e1 = sp;
            let ghost i1 = ids.peek();
            let d = match read_command(f, start) {
                Ok(d) => d,
                Err(e) => {
                    return Err(e);
                },
            };
            let cmd = match d {
                Decoded::Detour(a, b) => {
                    let ghost ka = marker_key(a as int);
                    let ghost ev0 = events@;
                    proof {
                        lemma_show_lower_bound(ev0, sp, ka);
                    }
                    let sl = events.upsert_marker(ids, a);
                    proof {
                        if !has_key(sp, ka) {
                            lemma_show_put(
                                ev0,
                                sp,
                                ka,
                                Event { id: i1, command: Command::Marker { label: sl } },
                                Decoded::Marker(a),
                            );
                        }
                        sp = upsert_marker_entries(sp, a as int, i1).0;
                    }
                    let ghost kb = marker_key(b as int);
                    let ghost ev1 = events@;
                    let ghost j1 = ids.peek();
                    proof {
                        lemma_show_lower_bound(ev1, sp, kb);
                    }
                    let el = events.upsert_marker(ids, b);
                    proof {
                        if !has_key(sp, kb) {
                            lemma_show_put(
                                ev1,
                                sp,
                                kb,
                                Event { id: j1, command: Command::Marker { label: el } },
                                Decoded::Marker(b),
                            );
                        }
                        sp = upsert_marker_entries(sp, b as int, j1).0;
                    }
                    Command::Detour { start_label: sl, end_label: el }
                },
                Decoded::Cmd(c) => c,
                Decoded::Marker(o) => {
                    proof {
                        assert(false);
                    }
                    Command::End
                },
            };
            if let Command::End = cmd {
                seen_terminator = true;
            }
            let ghost i2 = ids.peek();
            let ghost ev2 = events@;
            let event = Event::new(ids, cmd);
            events.insert(pos - start, event);
            proof {
                lemma_show_put(ev2, sp, command_key(p - start), event, d);
                sp = put(sp, command_key(p - start), (i2, d));
            }
        }
        Ok(events.into_command_seq())
    }
}

/// A track as decoding reads it: its settings, and its command sequence as decoded entries.
pub struct TrackModel {
    pub is_disabled: bool,
    pub polyphony: Polyphony,
    pub is_drum_track: bool,
    pub commands: DecodedEntries,
}

/// Whether `t` is the decoded track `m`: unnamed, with its settings and its events.
pub open spec fn track_shows(t: Track, m: TrackModel) -> bool {
    &&& t.name@ == Seq::<char>::empty()
    &&& t.is_disabled == m.is_disabled
    &&& t.polyphony == m.polyphony
    &&& t.is_drum_track == m.is_drum_track
    &&& events_show(t.commands@, m.commands)
}

/// Reading the four-byte track header at `p` (a command offset from `list_start` and flags), and
/// the command sequence it points to, giving identifiers from `id` on.
pub open spec fn decode_track(s: Seq<u8>, p: int, list_start: int, id: u32) -> Result<(TrackModel, u32), Error> {
    if p < 0 || p + 4 > s.len() {
        Err(Error::Io(IoError::UnexpectedEof))
    } else {
        let offset = be16(s[p], s[p + 1]);
        let flags = be16(s[p + 2], s[p + 3]);
        let base = TrackModel {
            is_disabled: (flags / 256) % 2 == 1,
            polyphony: spec_polyphony_from_raw((flags / 8192) as u8, ((flags / 512) % 16) as u8),
            is_drum_track: (flags / 128) % 2 == 1,
            commands: Seq::empty(),
        };
        if offset == 0 {
            Ok((base, id))
        } else {
            match decode_sequence(s, list_start + offset, id) {
                Err(e) => Err(e),
                Ok((entries, _end, next)) => Ok((TrackModel { commands: entries, ..base }, next)),
            }
        }
    }
}

impl Track {
    /// Reads a track header at the reader's position and the command sequence it points to,
    /// relative to `segment_start` (see [`decode_track`]).
    pub fn decode(f: &mut Reader, ids: &mut IdGen, segment_start: usize) -> (r: Result<Track, Error>)
        requires
            old(f).input().len() <= usize::MAX / 2,
            segment_start + 0x1_0000 <= usize::MAX,
        ensures
            final(f).input() == old(f).input(),
            match decode_track(old(f).input(), old(f).cursor(), segment_start as int, old(ids).peek()) {
                Ok((m, next)) => (r matches Ok(t) && track_shows(t, m)) && final(ids).peek() == next,
                Err(e) => r == Err::<Track, Error>(e),
            },
    {
        let offset = match f.read_u16_be() {
            Ok(v) => v,
            Err(e) => {
                return Err(Error::Io(e));
            },
        };
        let flags = match f.read_u16_be() {
            Ok(v) => v,
            Err(e) => {
                return Err(Error::Io(e));
            },
        };
        let is_disabled = (flags / 256) % 2 == 1;
        let polyphony = Polyphony::from_raw((flags / 8192) as u8, ((flags / 512) % 16) as u8);
        let is_drum_track = (flags / 128) % 2 == 1;
        let commands = if offset == 0 {
            let c = CommandSeq::with_capacity(0);
            assert(events_show(c@, Seq::empty()));
            c
        } else {
            f.seek(segment_start + offset as usize);
            match CommandSeq::decode(f, ids) {
                Ok(c) => c,
                Err(e) => {
                    return Err(e);
                },
            }
        };
        Ok(Track { name: String::new(), is_disabled, polyphony, is_drum_track, commands })
    }
}

/// Whether the keys of the track lists `m` are exactly 1 to `n`, as decoding numbers them.
pub open spec fn dense_keys(m: Map<TrackListId, TrackList>, n: nat) -> bool {
    &&& n <= u64::MAX
    &&& forall|k: TrackListId| #[trigger] m.contains_key(k) <==> 1 <= k <= n
}

/// The number of track lists of `m`, whose keys are 1 to that number.
pub open spec fn list_count(m: Map<TrackListId, TrackList>) -> nat {
    choose|n: nat| dense_keys(m, n)
}

/// The positions of the track lists of `m` in key order.
pub open spec fn list_positions(m: Map<TrackListId, TrackList>) -> Seq<Option<u64>> {
    Seq::new(list_count(m), |i: int| m[(i + 1) as u64].pos)
}

/// The first index from `i` on of a list placed at `pos`.
pub open spec fn find_pos(ps: Seq<Option<u64>>, pos: u64, i: int) -> Option<int>
    decreases ps.len() - i,
{
    if i < 0 || i >= ps.len() {
        None
    } else if ps[i] == Some(pos) {
        Some(i)
    } else {
        find_pos(ps, pos, i + 1)
    }
}

/// Reading the tracks of the list at `list_pos` from the `i`-th on, after `acc`.
pub open spec fn decode_tracks(s: Seq<u8>, list_pos: int, i: int, acc: Seq<TrackModel>, id: u32) -> Result<(Seq<TrackModel>, u32), Error>
    decreases NUM_TRACKS - i,
{
    if i >= NUM_TRACKS {
        Ok((acc, id))
    } else {
        match decode_track(s, list_pos + 4 * i, list_pos, id) {
            Err(e) => Err(e),
            Ok((t, id1)) => decode_tracks(s, list_pos, i + 1, acc.push(t), id1),
        }
    }
}

/// Whether `tl` is the decoded track list with the tracks `ts` at `pos`.
pub open spec fn list_shows(tl: TrackList, pos: u64, ts: Seq<TrackModel>) -> bool {
    &&& tl.pos == Some(pos)
    &&& tl.tracks@.len() == ts.len()
    &&& forall|i: int| 0 <= i < ts.len() ==> track_shows(#[trigger] tl.tracks@[i], ts[i])
}

/// Reading the segment entry at `p` of a variation that starts at `start`, when the track lists
/// decoded so far are at the positions `ps`: the segment, the track list that it newly
/// decodes (its position and tracks), and the next identifier. A subsegment names the
/// list already decoded at its position, or one decoded now, numbered after the others.
pub open spec fn decode_segment(s: Seq<u8>, p: int, start: int, ps: Seq<Option<u64>>, id: u32) -> Result<
    (Segment, Option<(u64, Seq<TrackModel>)>, u32),
    Error,
> {
    if p < 0 || p + 4 > s.len() {
        Err(Error::Io(IoError::UnexpectedEof))
    } else {
        let data = be32(s[p], s[p + 1], s[p + 2], s[p + 3]);
        let kind = data / 0x1000;
        if kind == 0x10000 {
            let lp = start + (data % 0x1_0000) * 4;
            match find_pos(ps, lp as u64, 0) {
                Some(i) => Ok((Segment::Subseg { id: Some(id), track_list: (i + 1) as u64 }, None, next_id(id))),
                None => match decode_tracks(s, lp, 0, Seq::empty(), id) {
                    Err(e) => Err(e),
                    Ok((ts, id1)) => Ok(
                        (
                            Segment::Subseg { id: Some(id1), track_list: (ps.len() + 1) as u64 },
                            Some((lp as u64, ts)),
                            next_id(id1),
                        ),
                    ),
                },
            }
        } else if kind == 0x30000 {
            Ok((Segment::StartLoop { id: Some(id), label_index: (data % 0x1_0000) as u16 }, None, next_id(id)))
        } else if kind == 0x40000 {
            Ok((Segment::Wait { id: Some(id) }, None, next_id(id)))
        } else if kind == 0x50000 {
            Ok(
                (
                    Segment::EndLoop { id: Some(id), label_index: (data % 32) as u8, iter_count: ((data / 32) % 128) as u8 },
                    None,
                    next_id(id),
                ),
            )
        } else if kind == 0x60000 {
            Ok(
                (
                    Segment::Unknown6 { id: Some(id), label_index: (data % 32) as u8, iter_count: ((data / 32) % 128) as u8 },
                    None,
                    next_id(id),
                ),
            )
        } else if kind == 0x70000 {
            Ok(
                (
                    Segment::Unknown7 { id: Some(id), label_index: (data % 32) as u8, iter_count: ((data / 32) % 128) as u8 },
                    None,
                    next_id(id),
                ),
            )
        } else {
            Err(Error::UnknownSegmentCommand(data as u32))
        }
    }
}

proof fn lemma_find_pos(ps: Seq<Option<u64>>, pos: u64, i: int)
    requires
        0 <= i,
    ensures
        find_pos(ps, pos, i) matches Some(j) ==> i <= j < ps.len() && ps[j] == Some(pos) && forall|k: int|
            i <= k < j ==> ps[k] != Some(pos),
        find_pos(ps, pos, i) is None ==> forall|k: int| i <= k < ps.len() ==> ps[k] != Some(pos),
    decreases ps.len() - i,
{
    if i < ps.len() && ps[i] != Some(pos) {
        lemma_find_pos(ps, pos, i + 1);
    }
}

proof fn lemma_dense_count(m: Map<TrackListId, TrackList>, n: nat)
    requires
        dense_keys(m, n),
    ensures
        list_count(m) == n,
{
    let c = list_count(m);
    assert(dense_keys(m, c));
    if c < n {
        assert(m.contains_key(n as u64));
    } else if c > n {
        assert(m.contains_key(c as u64));
    }
}

proof fn lemma_dense_max(m: Map<TrackListId, TrackList>, n: nat, k: TrackListId)
    requires
        dense_keys(m, n),
        is_max_key(m, k),
    ensures
        k == n,
{
    if n >= 1 {
        assert(m.contains_key(n as u64));
        if m.len() == 0 {
        } else {
            assert(m.contains_key(k));
        }
    } else {
        if m.contains_key(k) {
        }
    }
}

/// The key of the first track list, in key order, placed at `pos`, if any.
pub open spec fn first_list_key(m: Map<TrackListId, TrackList>, pos: u64) -> Option<TrackListId> {
    if exists|k: TrackListId| first_list_at(m, pos, k) {
        Some(choose|k: TrackListId| first_list_at(m, pos, k))
    } else {
        None
    }
}

/// The largest key of the track lists `m` (0 when there are none).
pub open spec fn max_list_key(m: Map<TrackListId, TrackList>) -> TrackListId {
    choose|k: TrackListId| is_max_key(m, k)
}

/// Reading the segment entry at `p` of a variation that starts at `start`, in a song whose
/// track lists are `m`: as [`decode_segment`], but a subsegment names the first list (in key
/// order) placed where it points, or else the list read there, kept under the key after the
/// largest one.
pub open spec fn decode_segment_in(s: Seq<u8>, p: int, start: int, m: Map<TrackListId, TrackList>, id: u32) -> Result<
    (Segment, Option<(u64, Seq<TrackModel>)>, u32),
    Error,
> {
    if p < 0 || p + 4 > s.len() {
        Err(Error::Io(IoError::UnexpectedEof))
    } else {
        let data = be32(s[p], s[p + 1], s[p + 2], s[p + 3]);
        if data / 0x1000 == 0x10000 {
            let lp = start + (data % 0x1_0000) * 4;
            match first_list_key(m, lp as u64) {
                Some(k) => Ok((Segment::Subseg { id: Some(id), track_list: k }, None, next_id(id))),
                None => match decode_tracks(s, lp, 0, Seq::empty(), id) {
                    Err(e) => Err(e),
                    Ok((ts, id1)) => Ok(
                        (
                            Segment::Subseg { id: Some(id1), track_list: next_list_id(max_list_key(m)) },
                            Some((lp as u64, ts)),
                            next_id(id1),
                        ),
                    ),
                },
            }
        } else {
            decode_segment(s, p, start, Seq::empty(), id)
        }
    }
}

proof fn lemma_max_key_unique(m: Map<TrackListId, TrackList>, a: TrackListId, b: TrackListId)
    requires
        is_max_key(m, a),
        is_max_key(m, b),
    ensures
        a == b,
{
}

proof fn lemma_first_list_unique(m: Map<TrackListId, TrackList>, pos: u64, a: TrackListId, b: TrackListId)
    requires
        first_list_at(m, pos, a),
        first_list_at(m, pos, b),
    ensures
        a == b,
{
}

/// For track lists keyed 1 to `n`, as decoding keys them, reading a segment entry among them
/// is [`decode_segment`] over their positions, and the largest key is `n`.
proof fn lemma_segment_in_dense(m: Map<TrackListId, TrackList>, n: nat, s: Seq<u8>, p: int, start: int, id: u32)
    requires
        dense_keys(m, n),
        n < u64::MAX,
        m.dom().finite(),
    ensures
        max_list_key(m) == n,
        forall|k: TrackListId| is_max_key(m, k) ==> k == n,
        decode_segment_in(s, p, start, m, id) == decode_segment(s, p, start, list_positions(m), id),
{
    lemma_dense_count(m, n);
    let nk = n as u64;
    assert(is_max_key(m, nk)) by {
        if n >= 1 {
            assert(m.contains_key(nk));
            assert(m.dom().contains(nk));
        } else {
            assert(m.dom() =~= Set::<TrackListId>::empty());
        }
    }
    assert forall|k: TrackListId| is_max_key(m, k) implies k == n by {
        lemma_max_key_unique(m, k, nk);
    }
    assert(max_list_key(m) == n) by {
        lemma_max_key_unique(m, max_list_key(m), nk);
    }
    if p >= 0 && p + 4 <= s.len() {
        let data = be32(s[p], s[p + 1], s[p + 2], s[p + 3]);
        if data / 0x1000 == 0x10000 {
            let lp = (start + (data % 0x1_0000) * 4) as u64;
            let ps = list_positions(m);
            lemma_find_pos(ps, lp, 0);
            match find_pos(ps, lp, 0) {
                Some(j) => {
                    let k0 = (j + 1) as u64;
                    assert(m.contains_key(k0));
                    assert forall|k: TrackListId| #[trigger] m.contains_key(k) && k < k0 implies m[k].pos != Some(lp) by {
                        assert(ps[k - 1] == m[k].pos);
                    }
                    assert(first_list_at(m, lp, k0));
                    let c = choose|k: TrackListId| first_list_at(m, lp, k);
                    lemma_first_list_unique(m, lp, c, k0);
                },
                None => {
                    if exists|k: TrackListId| first_list_at(m, lp, k) {
                        let c = choose|k: TrackListId| first_list_at(m, lp, k);
                        assert(ps[c - 1] == m[c].pos);
                    }
                },
            }
        }
    }
}

/// Reads the [`NUM_TRACKS`] track headers of the list at `list_pos` and their sequences.
fn decode_track_list(f: &mut Reader, ids: &mut IdGen, list_pos: usize) -> (r: Result<(Vec<Track>, Ghost<Seq<TrackModel>>), Error>)
    requires
        old(f).input().len() <= usize::MAX / 2,
        list_pos <= old(f).input().len() + 0x4_0000,
    ensures
        final(f).input() == old(f).input(),
        match decode_tracks(old(f).input(), list_pos as int, 0, Seq::empty(), old(ids).peek()) {
            Ok((ts, next)) => (r matches Ok((v, g)) && g@ == ts && v@.len() == ts.len() && forall|j: int|
                0 <= j < ts.len() ==> track_shows(#[trigger] v@[j], ts[j])) && final(ids).peek() == next,
            Err(e) => r matches Err(e2) && e2 == e,
        },
{
    let ghost s = f.input();
    let ghost id0 = ids.peek();
    let mut tracks: Vec<Track> = Vec::new();
    let ghost mut acc: Seq<TrackModel> = Seq::empty();
    let mut i: usize = 0;
    while i < NUM_TRACKS
        invariant
            f.input() == s,
            s == old(f).input(),
            id0 == old(ids).peek(),
            s.len() <= usize::MAX / 2,
            list_pos <= s.len() + 0x4_0000,
            i <= NUM_TRACKS,
            tracks@.len() == i,
            acc.len() == i,
            forall|j: int| 0 <= j < i ==> track_shows(#[trigger] tracks@[j], acc[j]),
            decode_tracks(s, list_pos as int, 0, Seq::empty(), id0) == decode_tracks(s, list_pos as int, i as int, acc, ids.peek()),
        decreases NUM_TRACKS - i,
    {
        f.seek(list_pos + 4 * i);
        let ghost id_before = ids.peek();
        let ghost res = decode_track(s, list_pos + 4 * i, list_pos as int, id_before);
        let t = match Track::decode(f, ids, list_pos) {
            Ok(t) => t,
            Err(e) => {
                return Err(e);
            },
        };
        proof {
            acc = acc.push(res->Ok_0.0);
        }
        tracks.push(t);
        i = i + 1;
    }
    Ok((tracks, Ghost(acc)))
}

impl Segment {
    /// Reads the segment entry at the reader's position, of a variation that starts at `start`;
    /// decodes the track list that a subsegment points to unless one at that position was
    /// decoded already (see [`decode_segment`]).
    pub fn decode(f: &mut Reader, bgm: &mut Bgm, ids: &mut IdGen, start: usize) -> (r: Result<Segment, Error>)
        requires
            old(f).input().len() <= usize::MAX / 2,
            start + 0x4_0000 <= u64::MAX,
            forall|k: TrackListId| is_max_key(old(bgm).track_lists@, k) ==> k < u64::MAX,
        ensures
            final(f).input() == old(f).input(),
            final(bgm).name == old(bgm).name,
            final(bgm).variations == old(bgm).variations,
            final(bgm).drums == old(bgm).drums,
            final(bgm).instruments == old(bgm).instruments,
            final(bgm).unknowns == old(bgm).unknowns,
            match decode_segment_in(
                old(f).input(),
                old(f).cursor(),
                start as int,
                old(bgm).track_lists@,
                old(ids).peek(),
            ) {
                Ok((seg, new_list, next)) => {
                    &&& r == Ok::<Segment, Error>(seg)
                    &&& final(ids).peek() == next
                    &&& match new_list {
                        None => final(bgm).track_lists@ == old(bgm).track_lists@,
                        Some((pos, ts)) => {
                            let key = next_list_id(max_list_key(old(bgm).track_lists@));
                            &&& final(bgm).track_lists@ == old(bgm).track_lists@.insert(key, final(bgm).track_lists@[key])
                            &&& list_shows(final(bgm).track_lists@[key], pos, ts)
                        },
                    }
                },
                Err(e) => r == Err::<Segment, Error>(e),
            },
    {
        let ghost s = f.input();
        let ghost p = f.cursor();
        let ghost m = bgm.track_lists@;
        let data = match f.read_u32_be() {
            Ok(v) => v,
            Err(e) => {
                return Err(Error::Io(e));
            },
        };
        let kind = data / 0x1000;
        if kind == 0x10000 {
            let lp: u64 = start as u64 + ((data % 0x1_0000) * 4) as u64;
            match bgm.find_track_list_with_pos(lp) {
                Some(key) => {
                    proof {
                        let c = choose|k: TrackListId| first_list_at(m, lp, k);
                        lemma_first_list_unique(m, lp, c, key);
                    }
                    let id = gen_id(ids);
                    Ok(Segment::Subseg { id: Some(id), track_list: key })
                },
                None => {
                    proof {
                        if exists|k: TrackListId| first_list_at(m, lp, k) {
                            let c = choose|k: TrackListId| first_list_at(m, lp, k);
                            assert(m.contains_key(c));
                        }
                    }
                    if lp > f.len() as u64 {
                        return Err(Error::Io(IoError::UnexpectedEof));
                    }
                    let ghost id0 = ids.peek();
                    let tracks = match decode_track_list(f, ids, lp as usize) {
                        Ok(t) => t.0,
                        Err(e) => {
                            return Err(e);
                        },
                    };
                    let ghost ts = decode_tracks(s, lp as int, 0, Seq::empty(), id0)->Ok_0.0;
                    let tl = TrackList { pos: Some(lp), tracks };
                    proof {
                        assert forall|k: TrackListId| is_max_key(bgm.track_lists@, k) implies !bgm.track_lists@.contains_key(
                            next_list_id(k),
                        ) by {
                            if bgm.track_lists@.contains_key(next_list_id(k)) {
                                assert(next_list_id(k) <= k);
                            }
                        }
                    }
                    let key = bgm.add_track_list(tl);
                    proof {
                        let k = choose|k: TrackListId| is_max_key(m, k) && key == next_list_id(k);
                        lemma_max_key_unique(m, k, max_list_key(m));
                    }
                    let id = gen_id(ids);
                    Ok(Segment::Subseg { id: Some(id), track_list: key })
                },
            }
        } else if kind == 0x30000 {
            let id = gen_id(ids);
            Ok(Segment::StartLoop { id: Some(id), label_index: (data % 0x1_0000) as u16 })
        } else if kind == 0x40000 {
            let id = gen_id(ids);
            Ok(Segment::Wait { id: Some(id) })
        } else if kind == 0x50000 {
            let id = gen_id(ids);
            Ok(Segment::EndLoop { id: Some(id), label_index: (data % 32) as u8, iter_count: ((data / 32) % 128) as u8 })
        } else if kind == 0x60000 {
            let id = gen_id(ids);
            Ok(Segment::Unknown6 { id: Some(id), label_index: (data % 32) as u8, iter_count: ((data / 32) % 128) as u8 })
        } else if kind == 0x70000 {
            let id = gen_id(ids);
            Ok(Segment::Unknown7 { id: Some(id), label_index: (data % 32) as u8, iter_count: ((data / 32) % 128) as u8 })
        } else {
            Err(Error::UnknownSegmentCommand(data))
        }
    }
}

/// What reading `n` padding bytes at `p` gives: invalid data at a non-zero byte, an early end
/// when the input ends first.
pub open spec fn padding_check(s: Seq<u8>, p: int, n: int) -> Result<(), Error> {
    let avail = if p + n <= s.len() {
        n
    } else if p <= s.len() {
        s.len() - p
    } else {
        0
    };
    if !zero_run(s, p, avail) {
        Err(Error::Io(IoError::InvalidData))
    } else if avail < n {
        Err(Error::Io(IoError::UnexpectedEof))
    } else {
        Ok(())
    }
}

/// The bytes of the C string in the field of at most `max` bytes at `p` (cut short by the end of
/// the input).
pub open spec fn cstring_at(s: Seq<u8>, p: int, max: int) -> Seq<u8> {
    let n = if p >= s.len() {
        0
    } else if p + max <= s.len() {
        max
    } else {
        s.len() - p
    };
    cstr_bytes(field_at(s, p, n))
}

/// The bytes of the editor metadata signature, "MAMAR".
pub open spec fn mamar_magic() -> Seq<u8> {
    seq![0x4Du8, 0x41u8, 0x4Du8, 0x41u8, 0x52u8]
}

/// The bytes of the song signature, "BGM ".
pub open spec fn bgm_magic() -> Seq<u8> {
    seq![0x42u8, 0x47u8, 0x4Du8, 0x20u8]
}

/// Whether the eight-byte field at `p` holds the editor metadata signature.
pub open spec fn mamar_magic_at(s: Seq<u8>, p: int) -> bool {
    cstring_at(s, p, 8) == mamar_magic()
}

/// Checking the size that a song file gives for itself (`internal`) against its length: equal
/// is fine; otherwise editor metadata may follow at the size aligned to 8 (the result is where
/// its payload starts), or zero padding up to the size aligned to 16; any other length passes.
pub open spec fn size_check(s: Seq<u8>, internal: int) -> Result<Option<u64>, Error> {
    let true_size = s.len() % 0x1_0000_0000;
    if internal == true_size {
        Ok(None)
    } else if mamar_magic_at(s, spec_align(internal, 8)) {
        Ok(Some((spec_align(internal, 8) + 8) as u64))
    } else if spec_align(internal, 16) == true_size {
        if internal > true_size {
            Err(Error::Io(IoError::UnexpectedEof))
        } else {
            match padding_check(s, internal, true_size - internal) {
                Err(e) => Err(e),
                Ok(_) => Ok(None),
            }
        }
    } else {
        Ok(None)
    }
}

/// What the fixed-size header of a song file holds.
pub struct HeaderModel {
    pub name: Seq<char>,
    pub metadata_at: Option<u64>,
    pub variation_offsets: Seq<int>,
    pub drums_offset: int,
    pub drums_count: int,
    pub voices_offset: int,
    pub voices_count: int,
}

/// Reading the header of a song file. Offsets are stored divided by 4; the variation offsets
/// are 16-bit values once multiplied.
pub open spec fn decode_header(s: Seq<u8>) -> Result<HeaderModel, Error> {
    if s.len() < 4 {
        Err(Error::Io(IoError::UnexpectedEof))
    } else if s.subrange(0, 4) != bgm_magic() {
        Err(Error::InvalidMagic)
    } else if s.len() < 8 {
        Err(Error::Io(IoError::UnexpectedEof))
    } else {
        match size_check(s, be32(s[4], s[5], s[6], s[7])) {
            Err(e) => Err(e),
            Ok(meta) => {
                let nf = cstring_at(s, 8, 4);
                if !vstd::utf8::valid_utf8(nf) {
                    Err(Error::Io(IoError::InvalidData))
                } else {
                    match padding_check(s, 12, 4) {
                        Err(e) => Err(e),
                        Ok(_) => {
                            if s.len() < 17 {
                                Err(Error::Io(IoError::UnexpectedEof))
                            } else if s[16] != 4 {
                                Err(Error::InvalidNumVariations(s[16]))
                            } else {
                                match padding_check(s, 17, 3) {
                                    Err(e) => Err(e),
                                    Ok(_) => {
                                        if s.len() < 0x24 {
                                            Err(Error::Io(IoError::UnexpectedEof))
                                        } else {
                                            Ok(
                                                HeaderModel {
                                                    name: vstd::utf8::decode_utf8(nf),
                                                    metadata_at: meta,
                                                    variation_offsets: Seq::new(
                                                        4,
                                                        |i: int| (be16(s[0x14 + 2 * i], s[0x15 + 2 * i]) * 4) % 0x1_0000,
                                                    ),
                                                    drums_offset: be16(s[0x1C], s[0x1D]) * 4,
                                                    drums_count: be16(s[0x1E], s[0x1F]),
                                                    voices_offset: be16(s[0x20], s[0x21]) * 4,
                                                    voices_count: be16(s[0x22], s[0x23]),
                                                },
                                            )
                                        }
                                    },
                                }
                            }
                        },
                    }
                }
            },
        }
    }
}

/// The header fields of a song file.
struct BgmHeader {
    name: String,
    metadata_at: Option<u64>,
    variation_offsets: Vec<u16>,
    drums_offset: u64,
    drums_count: u16,
    voices_offset: u64,
    voices_count: u16,
}

/// Whether the header fields `h` are the decoded header `m`.
spec fn header_shows(h: BgmHeader, m: HeaderModel) -> bool {
    &&& h.name@ == m.name
    &&& h.metadata_at == m.metadata_at
    &&& h.variation_offsets@.len() == 4
    &&& forall|i: int| 0 <= i < 4 ==> h.variation_offsets@[i] as int == #[trigger] m.variation_offsets[i]
    &&& h.drums_offset == m.drums_offset
    &&& h.drums_count == m.drums_count
    &&& h.voices_offset == m.voices_offset
    &&& h.voices_count == m.voices_count
}

/// Whether the field of at most 8 bytes at `pos` holds "MAMAR" (see [`mamar_magic_at`]).
fn mamar_magic_in(f: &Reader, pos: u64) -> (r: bool)
    requires
        f.input().len() <= usize::MAX / 2,
    ensures
        r == mamar_magic_at(f.input(), pos as int),
{
    let ghost s = f.input();
    let len = f.len();
    if pos >= len as u64 {
        proof {
            assert(field_at(s, pos as int, 0).len() == 0);
            lemma_cstr_len(field_at(s, pos as int, 0), 0);
            assert(cstring_at(s, pos as int, 8).len() == 0);
        }
        return false;
    }
    let p = pos as usize;
    let n: usize = if len - p >= 8 { 8 } else { len - p };
    let ghost field = field_at(s, p as int, n as int);
    let expected: [u8; 5] = [0x4D, 0x41, 0x4D, 0x41, 0x52];
    assert(expected@ == mamar_magic());
    if n < 5 {
        proof {
            lemma_cstr_props(field);
        }
        return false;
    }
    let mut i: usize = 0;
    while i < 5
        invariant
            i <= 5,
            n >= 5,
            p + n <= s.len(),
            s.len() <= usize::MAX / 2,
            f.input() == s,
            field == field_at(s, p as int, n as int),
            cstring_at(s, pos as int, 8) == cstr_bytes(field),
            expected@ == mamar_magic(),
            forall|j: int| 0 <= j < i ==> field[j] == expected@[j],
        decreases 5 - i,
    {
        let b = f.byte_at(p + i).unwrap();
        if b != expected[i] {
            proof {
                lemma_cstr_props(field);
                assert(field[i as int] == b);
                if cstr_bytes(field) == mamar_magic() {
                    assert(cstr_bytes(field)[i as int] == field[i as int]);
                }
            }
            return false;
        }
        i = i + 1;
    }
    let ends = n == 5 || f.byte_at(p + 5).unwrap() == 0;
    proof {
        lemma_cstr_props(field);
        if ends {
            lemma_cstr_len(field, 5);
            assert(cstr_bytes(field) =~= mamar_magic());
        } else {
            assert(field[5] != 0);
            if cstr_bytes(field) == mamar_magic() {
                assert(cstr_len(field) == 5);
            }
        }
    }
    ends
}

proof fn lemma_cstr_props(s: Seq<u8>)
    ensures
        cstr_len(s) <= s.len(),
        forall|j: int| 0 <= j < cstr_len(s) ==> s[j] != 0,
        cstr_len(s) < s.len() ==> s[cstr_len(s) as int] == 0,
        cstr_bytes(s).len() == cstr_len(s),
    decreases s.len(),
{
    if s.len() > 0 && s[0] != 0 {
        lemma_cstr_props(s.drop_first());
        assert forall|j: int| 0 <= j < cstr_len(s) implies s[j] != 0 by {
            if j > 0 {
                assert(s[j] == s.drop_first()[j - 1]);
            }
        }
    }
}

fn io<T>(r: Result<T, IoError>) -> (o: Result<T, Error>)
    ensures
        r matches Ok(v) ==> o matches Ok(w) && w == v,
        r matches Err(e) ==> o == Err::<T, Error>(Error::Io(e)),
{
    match r {
        Ok(v) => Ok(v),
        Err(e) => Err(Error::Io(e)),
    }
}

fn read_header(f: &mut Reader) -> (r: Result<BgmHeader, Error>)
    requires
        old(f).input().len() <= usize::MAX / 2,
    ensures
        final(f).input() == old(f).input(),
        match decode_header(old(f).input()) {
            Ok(m) => r matches Ok(h) && header_shows(h, m),
            Err(e) => r matches Err(e2) && e2 == e,
        },
{
    let ghost s = f.input();
    f.seek(0);
    let magic = match io(f.read_bytes(4)) {
        Ok(v) => v,
        Err(e) => {
            return Err(e);
        },
    };
    if !(magic[0] == 0x42 && magic[1] == 0x47 && magic[2] == 0x4D && magic[3] == 0x20) {
        proof {
            if s.subrange(0, 4) == bgm_magic() {
                assert(magic@[0] == s[0] && magic@[1] == s[1] && magic@[2] == s[2] && magic@[3] == s[3]);
            }
        }
        return Err(Error::InvalidMagic);
    }
    assert(s.subrange(0, 4) =~= bgm_magic());
    let internal_size = match io(f.read_u32_be()) {
        Ok(v) => v,
        Err(e) => {
            return Err(e);
        },
    };
    let len = f.len();
    let true_size: u64 = (len as u64) % 0x1_0000_0000;
    let mut metadata_at: Option<u64> = None;
    if internal_size as u64 == true_size {
    } else {
        let magic_pos: u64 = if internal_size == 0 {
            8
        } else if internal_size % 8 == 0 {
            internal_size as u64
        } else {
            internal_size as u64 + (8 - (internal_size % 8) as u64)
        };
        if mamar_magic_in(f, magic_pos) {
            metadata_at = Some(magic_pos + 8);
        } else {
            let aligned16: u64 = if internal_size == 0 {
                16
            } else if internal_size % 16 == 0 {
                internal_size as u64
            } else {
                internal_size as u64 + (16 - (internal_size % 16) as u64)
            };
            if aligned16 == true_size {
                if internal_size as u64 > true_size {
                    return Err(Error::Io(IoError::UnexpectedEof));
                }
                f.seek(internal_size as usize);
                match io(f.read_padding((true_size - internal_size as u64) as u32)) {
                    Ok(_) => {},
                    Err(e) => {
                        return Err(e);
                    },
                }
            }
        }
    }
    assert(size_check(s, internal_size as int) == Ok::<Option<u64>, Error>(metadata_at));
    f.seek(8);
    let name = match io(f.read_cstring(4)) {
        Ok(v) => v,
        Err(e) => {
            return Err(e);
        },
    };
    match io(f.read_padding(4)) {
        Ok(_) => {},
        Err(e) => {
            return Err(e);
        },
    }
    let num_variations = match io(f.read_u8()) {
        Ok(v) => v,
        Err(e) => {
            return Err(e);
        },
    };
    if num_variations != 4 {
        return Err(Error::InvalidNumVariations(num_variations));
    }
    match io(f.read_padding(3)) {
        Ok(_) => {},
        Err(e) => {
            return Err(e);
        },
    }
    if len < 0x24 {
        return Err(Error::Io(IoError::UnexpectedEof));
    }
    let mut variation_offsets: Vec<u16> = Vec::new();
    let mut i: usize = 0;
    while i < 4
        invariant
            i <= 4,
            f.input() == s,
            s.len() >= 0x24,
            f.cursor() == 0x14 + 2 * i,
            variation_offsets@.len() == i,
            forall|j: int| 0 <= j < i ==> variation_offsets@[j] as int == (be16(s[0x14 + 2 * j], s[0x15 + 2 * j]) * 4) % 0x1_0000,
        decreases 4 - i,
    {
        let w = f.read_u16_be().unwrap();
        variation_offsets.push(((w as u32 * 4) % 0x1_0000) as u16);
        i = i + 1;
    }
    let drums_offset = f.read_u16_be().unwrap() as u64 * 4;
    let drums_count = f.read_u16_be().unwrap();
    let voices_offset = f.read_u16_be().unwrap() as u64 * 4;
    let voices_count = f.read_u16_be().unwrap();
    Ok(BgmHeader { name, metadata_at, variation_offsets, drums_offset, drums_count, voices_offset, voices_count })
}

/// Decoded track lists in key order (key 1 first): position and tracks.
pub type ListModels = Seq<(u64, Seq<TrackModel>)>;

/// The positions of decoded track lists.
pub open spec fn model_positions(ls: ListModels) -> Seq<Option<u64>> {
    ls.map_values(|l: (u64, Seq<TrackModel>)| Some(l.0))
}

/// Whether the track lists `m` are the decoded lists `ls`, keyed 1 on.
pub open spec fn lists_show(m: Map<TrackListId, TrackList>, ls: ListModels) -> bool {
    &&& dense_keys(m, ls.len())
    &&& forall|k: int| 1 <= k <= ls.len() ==> list_shows(#[trigger] m[k as u64], ls[k - 1].0, ls[k - 1].1)
}

/// Reading the segment entries of the variation at `var_pos` from the `i`-th on, up to a zero
/// word.
pub open spec fn decode_segments(s: Seq<u8>, var_pos: int, i: int, acc: Seq<Segment>, ls: ListModels, id: u32) -> Result<
    (Seq<Segment>, ListModels, u32),
    Error,
>
    decreases s.len() - (var_pos + 4 * i),
{
    let p = var_pos + 4 * i;
    if p < 0 || p + 4 > s.len() {
        Err(Error::Io(IoError::UnexpectedEof))
    } else if be32(s[p], s[p + 1], s[p + 2], s[p + 3]) == 0 {
        Ok((acc, ls, id))
    } else {
        match decode_segment(s, p, var_pos, model_positions(ls), id) {
            Err(e) => Err(e),
            Ok((seg, new_list, id2)) => decode_segments(
                s,
                var_pos,
                i + 1,
                acc.push(seg),
                match new_list {
                    None => ls,
                    Some(l) => ls.push(l),
                },
                id2,
            ),
        }
    }
}

/// Reading the variations at the offsets `offs` from the `v`-th on (an offset of 0 is an empty
/// slot).
pub open spec fn decode_variations(
    s: Seq<u8>,
    offs: Seq<int>,
    v: int,
    acc: Seq<Option<Seq<Segment>>>,
    ls: ListModels,
    id: u32,
) -> Result<(Seq<Option<Seq<Segment>>>, ListModels, u32), Error>
    decreases NUM_VARIATIONS - v,
{
    if v >= NUM_VARIATIONS {
        Ok((acc, ls, id))
    } else if offs[v] == 0 {
        decode_variations(s, offs, v + 1, acc.push(None), ls, id)
    } else {
        match decode_segments(s, offs[v], 0, Seq::empty(), ls, id) {
            Err(e) => Err(e),
            Ok((segs, ls2, id2)) => decode_variations(s, offs, v + 1, acc.push(Some(segs)), ls2, id2),
        }
    }
}

/// Reading `count` drums at `off` (none when `off` is 0).
pub open spec fn decode_drums(s: Seq<u8>, off: int, count: int) -> Result<Seq<Drum>, Error> {
    if off == 0 {
        Ok(Seq::empty())
    } else if off + 12 * count > s.len() {
        Err(Error::Io(IoError::UnexpectedEof))
    } else {
        Ok(Seq::new(count as nat, |i: int| drum_from_bytes(s.subrange(off + 12 * i, off + 12 * i + 12))))
    }
}

/// Reading `count` instruments at `off` (none when `off` is 0).
pub open spec fn decode_instruments(s: Seq<u8>, off: int, count: int) -> Result<Seq<Instrument>, Error> {
    if off == 0 {
        Ok(Seq::empty())
    } else if off + 8 * count > s.len() {
        Err(Error::Io(IoError::UnexpectedEof))
    } else {
        Ok(Seq::new(count as nat, |i: int| instrument_from_bytes(s.subrange(off + 8 * i, off + 8 * i + 8))))
    }
}

/// The byte range copied through as it is for the three songs that need one to come out
/// unchanged: those whose four-byte name field reads "169 ", "117 " or "322 ".
pub open spec fn special_unknown(s: Seq<u8>) -> Option<(u64, u64)> {
    if s.len() < 12 {
        None
    } else {
        let n = s.subrange(8, 12);
        if n == seq![0x31u8, 0x36u8, 0x39u8, 0x20u8] {
            Some((0x64, 0x1294))
        } else if n == seq![0x31u8, 0x31u8, 0x37u8, 0x20u8] {
            Some((0x1934, 0x19A0))
        } else if n == seq![0x33u8, 0x32u8, 0x32u8, 0x20u8] {
            Some((0x0D15, 0x0D70))
        } else {
            None
        }
    }
}

/// A song as decoding reads it.
pub struct BgmModel {
    pub name: Seq<char>,
    pub variations: Seq<Option<Seq<Segment>>>,
    pub drums: Seq<Drum>,
    pub instruments: Seq<Instrument>,
    pub lists: ListModels,
    pub unknowns: Seq<(u64, u64)>,
}

/// Decoding the song file `s`, giving identifiers from `id` on: the song, where its editor
/// metadata payload starts (if it has any), and the next identifier.
pub open spec fn decode_bgm(s: Seq<u8>, id: u32) -> Result<(BgmModel, Option<u64>, u32), Error> {
    match decode_header(s) {
        Err(e) => Err(e),
        Ok(h) => {
            let unk = special_unknown(s);
            if unk matches Some((a, b)) && b > s.len() {
                Err(Error::Io(IoError::UnexpectedEof))
            } else {
                match decode_variations(s, h.variation_offsets, 0, Seq::empty(), Seq::empty(), id) {
                    Err(e) => Err(e),
                    Ok((vars, ls, id2)) => match decode_drums(s, h.drums_offset, h.drums_count) {
                        Err(e) => Err(e),
                        Ok(drums) => match decode_instruments(s, h.voices_offset, h.voices_count) {
                            Err(e) => Err(e),
                            Ok(ins) => Ok(
                                (
                                    BgmModel {
                                        name: h.name,
                                        variations: vars,
                                        drums,
                                        instruments: ins,
                                        lists: ls,
                                        unknowns: match unk {
                                            None => Seq::empty(),
                                            Some(r) => seq![r],
                                        },
                                    },
                                    h.metadata_at,
                                    id2,
                                ),
                            ),
                        },
                    },
                }
            }
        },
    }
}

/// Whether the song `b` is the song `m` decoded from `s`.
pub open spec fn bgm_shows(s: Seq<u8>, b: Bgm, m: BgmModel) -> bool {
    &&& b.name@ == m.name
    &&& b.variations@.len() == NUM_VARIATIONS
    &&& m.variations.len() == NUM_VARIATIONS
    &&& forall|v: int|
        0 <= v < NUM_VARIATIONS ==> match #[trigger] m.variations[v] {
            None => b.variations@[v] is None,
            Some(segs) => b.variations@[v] matches Some(var) && var.segments@ == segs,
        }
    &&& b.drums@ == m.drums
    &&& b.instruments@ == m.instruments
    &&& lists_show(b.track_lists@, m.lists)
    &&& b.unknowns@.len() == m.unknowns.len()
    &&& forall|i: int|
        0 <= i < m.unknowns.len() ==> (#[trigger] b.unknowns@[i]).range.start == m.unknowns[i].0
            && b.unknowns@[i].range.end == m.unknowns[i].1 && b.unknowns@[i].data@ == s.subrange(
            m.unknowns[i].0 as int,
            m.unknowns[i].1 as int,
        )
}

proof fn lemma_positions(m: Map<TrackListId, TrackList>, ls: ListModels)
    requires
        lists_show(m, ls),
    ensures
        list_count(m) == ls.len(),
        list_positions(m) == model_positions(ls),
{
    lemma_dense_count(m, ls.len());
    assert forall|i: int| 0 <= i < ls.len() implies list_positions(m)[i] == model_positions(ls)[i] by {
        assert(list_shows(m[(i + 1) as u64], ls[i].0, ls[i].1));
    }
    assert(list_positions(m) =~= model_positions(ls));
}

/// Reads the segment entries of the variation at `var_pos` (see [`decode_segments`]).
fn decode_variation_segments(f: &mut Reader, bgm: &mut Bgm, ids: &mut IdGen, var_pos: usize, ls: Ghost<ListModels>) -> (r: Result<(Vec<Segment>, Ghost<ListModels>), Error>)
    requires
        old(f).input().len() <= usize::MAX / 2,
        var_pos <= 0x1_0000,
        lists_show(old(bgm).track_lists@, ls@),
        ls@.len() <= 3 * (old(f).input().len() / 4 + 1),
    ensures
        final(f).input() == old(f).input(),
        final(bgm).name == old(bgm).name,
        final(bgm).variations == old(bgm).variations,
        final(bgm).drums == old(bgm).drums,
        final(bgm).instruments == old(bgm).instruments,
        final(bgm).unknowns == old(bgm).unknowns,
        match decode_segments(old(f).input(), var_pos as int, 0, Seq::empty(), ls@, old(ids).peek()) {
            Ok((segs, ls2, next)) => (r matches Ok((v, g)) && v@ == segs && g@ == ls2) && lists_show(
                final(bgm).track_lists@,
                ls2,
            ) && ls2.len() <= ls@.len() + old(f).input().len() / 4 + 1 && final(ids).peek() == next,
            Err(e) => r matches Err(e2) && e2 == e,
        },
{
    let ghost s = f.input();
    let ghost id0 = ids.peek();
    let ghost ls0 = ls@;
    let ghost mut cur = ls@;
    let mut segs: Vec<Segment> = Vec::new();
    let mut i: usize = 0;
    loop
        invariant_except_break
            decode_segments(s, var_pos as int, 0, Seq::empty(), ls0, id0) == decode_segments(
                s,
                var_pos as int,
                i as int,
                segs@,
                cur,
                ids.peek(),
            ),
        invariant
            f.input() == s,
            s == old(f).input(),
            id0 == old(ids).peek(),
            ls0 == ls@,
            s.len() <= usize::MAX / 2,
            var_pos <= 0x1_0000,
            i == 0 || var_pos + 4 * i <= s.len(),
            cur.len() <= ls0.len() + i,
            ls0.len() <= 3 * (s.len() / 4 + 1),
            lists_show(bgm.track_lists@, cur),
            bgm.name == old(bgm).name,
            bgm.variations == old(bgm).variations,
            bgm.drums == old(bgm).drums,
            bgm.instruments == old(bgm).instruments,
            bgm.unknowns == old(bgm).unknowns,
        ensures
            decode_segments(s, var_pos as int, 0, Seq::empty(), ls0, id0) == Ok::<(Seq<Segment>, ListModels, u32), Error>(
                (segs@, cur, ids.peek()),
            ),
            cur.len() <= ls0.len() + s.len() / 4 + 1,
        decreases s.len() - (var_pos + 4 * i),
    {
        let p = var_pos + 4 * i;
        if p > f.len() || f.len() - p < 4 {
            return Err(Error::Io(IoError::UnexpectedEof));
        }
        f.seek(p);
        let word = f.read_u32_be().unwrap();
        if word == 0 {
            break;
        }
        f.seek(p);
        proof {
            lemma_positions(bgm.track_lists@, cur);
            lemma_dense_count(bgm.track_lists@, cur.len());
            broadcast use vstd::std_specs::btree::group_btree_axioms;
            assert(bgm.track_lists@.dom().finite());
            lemma_segment_in_dense(bgm.track_lists@, cur.len(), s, p as int, var_pos as int, ids.peek());
        }
        let ghost m_before = bgm.track_lists@;
        let ghost res = decode_segment(s, p as int, var_pos as int, model_positions(cur), ids.peek());
        let seg = match Segment::decode(f, bgm, ids, var_pos) {
            Ok(seg) => seg,
            Err(e) => {
                return Err(e);
            },
        };
        proof {
            let (_, new_list, _) = res->Ok_0;
            match new_list {
                None => {},
                Some(l) => {
                    let key = (cur.len() + 1) as u64;
                    let cur2 = cur.push(l);
                    assert(dense_keys(bgm.track_lists@, cur2.len())) by {
                        assert forall|k: TrackListId| #[trigger] bgm.track_lists@.contains_key(k) <==> 1 <= k <= cur2.len() by {
                            if k == key {
                            } else {
                                assert(bgm.track_lists@.contains_key(k) == m_before.contains_key(k));
                            }
                        }
                    }
                    assert forall|k: int| 1 <= k <= cur2.len() implies list_shows(
                        #[trigger] bgm.track_lists@[k as u64],
                        cur2[k - 1].0,
                        cur2[k - 1].1,
                    ) by {
                        if k < cur2.len() {
                            assert(bgm.track_lists@[k as u64] == m_before[k as u64]);
                        }
                    }
                    cur = cur2;
                },
            }
        }
        segs.push(seg);
        i = i + 1;
    }
    Ok((segs, Ghost(cur)))
}

/// Reads `count` drums at `off` (see [`decode_drums`]).
fn decode_drums_at(f: &mut Reader, off: u64, count: u16) -> (r: Result<Vec<Drum>, Error>)
    requires
        old(f).input().len() <= usize::MAX / 2,
        off <= 0x4_0000,
    ensures
        final(f).input() == old(f).input(),
        match decode_drums(old(f).input(), off as int, count as int) {
            Ok(ds) => r matches Ok(v) && v@ == ds,
            Err(e) => r matches Err(e2) && e2 == e,
        },
{
    let ghost s = f.input();
    let mut out: Vec<Drum> = Vec::new();
    if off == 0 {
        assert(out@ =~= Seq::<Drum>::empty());
        return Ok(out);
    }
    if off as usize > f.len() || (f.len() - off as usize) / 12 < count as usize {
        return Err(Error::Io(IoError::UnexpectedEof));
    }
    f.seek(off as usize);
    let mut i: usize = 0;
    while i < count as usize
        invariant
            f.input() == s,
            off + 12 * count <= s.len(),
            s.len() <= usize::MAX / 2,
            i <= count,
            f.cursor() == off + 12 * i,
            out@.len() == i,
            forall|j: int| 0 <= j < i ==> #[trigger] out@[j] == drum_from_bytes(s.subrange(off + 12 * j, off + 12 * j + 12)),
        decreases count - i,
    {
        let d = Drum::decode(f).unwrap();
        out.push(d);
        i = i + 1;
    }
    assert(out@ =~= Seq::new(count as nat, |j: int| drum_from_bytes(s.subrange(off + 12 * j, off + 12 * j + 12))));
    Ok(out)
}

/// Reads `count` instruments at `off` (see [`decode_instruments`]).
fn decode_instruments_at(f: &mut Reader, off: u64, count: u16) -> (r: Result<Vec<Instrument>, Error>)
    requires
        old(f).input().len() <= usize::MAX / 2,
        off <= 0x4_0000,
    ensures
        final(f).input() == old(f).input(),
        match decode_instruments(old(f).input(), off as int, count as int) {
            Ok(is) => r matches Ok(v) && v@ == is,
            Err(e) => r matches Err(e2) && e2 == e,
        },
{
    let ghost s = f.input();
    let mut out: Vec<Instrument> = Vec::new();
    if off == 0 {
        assert(out@ =~= Seq::<Instrument>::empty());
        return Ok(out);
    }
    if off as usize > f.len() || (f.len() - off as usize) / 8 < count as usize {
        return Err(Error::Io(IoError::UnexpectedEof));
    }
    f.seek(off as usize);
    let mut i: usize = 0;
    while i < count as usize
        invariant
            f.input() == s,
            off + 8 * count <= s.len(),
            s.len() <= usize::MAX / 2,
            i <= count,
            f.cursor() == off + 8 * i,
            out@.len() == i,
            forall|j: int| 0 <= j < i ==> #[trigger] out@[j] == instrument_from_bytes(s.subrange(off + 8 * j, off + 8 * j + 8)),
        decreases count - i,
    {
        let d = Instrument::decode(f).unwrap();
        out.push(d);
        i = i + 1;
    }
    assert(out@ =~= Seq::new(count as nat, |j: int| instrument_from_bytes(s.subrange(off + 8 * j, off + 8 * j + 8))));
    Ok(out)
}

fn special_unknown_range(f: &Reader) -> (r: Option<(u64, u64)>)
    ensures
        r == special_unknown(f.input()),
{
    if f.len() < 12 {
        return None;
    }
    let a = f.byte_at(8).unwrap();
    let b = f.byte_at(9).unwrap();
    let c = f.byte_at(10).unwrap();
    let d = f.byte_at(11).unwrap();
    let ghost n = f.input().subrange(8, 12);
    assert(n =~= seq![a, b, c, d]);
    if a == 0x31 && b == 0x36 && c == 0x39 && d == 0x20 {
        Some((0x64, 0x1294))
    } else if a == 0x31 && b == 0x31 && c == 0x37 && d == 0x20 {
        proof {
            assert(n != seq![0x31u8, 0x36u8, 0x39u8, 0x20u8]) by {
                assert(n[1] != 0x36u8);
            }
        }
        Some((0x1934, 0x19A0))
    } else if a == 0x33 && b == 0x32 && c == 0x32 && d == 0x20 {
        proof {
            assert(n != seq![0x31u8, 0x36u8, 0x39u8, 0x20u8]) by {
                assert(n[0] != 0x31u8);
            }
            assert(n != seq![0x31u8, 0x31u8, 0x37u8, 0x20u8]) by {
                assert(n[0] != 0x31u8);
            }
        }
        Some((0x0D15, 0x0D70))
    } else {
        proof {
            if n == seq![0x31u8, 0x36u8, 0x39u8, 0x20u8] {
                assert(n[0] == 0x31u8 && n[1] == 0x36u8 && n[2] == 0x39u8 && n[3] == 0x20u8);
            }
            if n == seq![0x31u8, 0x31u8, 0x37u8, 0x20u8] {
                assert(n[0] == 0x31u8 && n[1] == 0x31u8 && n[2] == 0x37u8 && n[3] == 0x20u8);
            }
            if n == seq![0x33u8, 0x32u8, 0x32u8, 0x20u8] {
                assert(n[0] == 0x33u8 && n[1] == 0x32u8 && n[2] == 0x32u8 && n[3] == 0x20u8);
            }
        }
        None
    }
}

/// Reads the variations at `offsets` (see [`decode_variations`]) into a song without track
/// lists.
#[verifier::rlimit(30)]
fn decode_all_variations(f: &mut Reader, bgm: &mut Bgm, ids: &mut IdGen, offsets: &Vec<u16>) -> (r: Result<
    (Vec<Option<Variation>>, Ghost<ListModels>),
    Error,
>)
    requires
        old(f).input().len() <= usize::MAX / 2,
        offsets@.len() == NUM_VARIATIONS,
        lists_show(old(bgm).track_lists@, Seq::empty()),
    ensures
        final(f).input() == old(f).input(),
        final(bgm).name == old(bgm).name,
        final(bgm).variations == old(bgm).variations,
        final(bgm).drums == old(bgm).drums,
        final(bgm).instruments == old(bgm).instruments,
        final(bgm).unknowns == old(bgm).unknowns,
        match decode_variations(
            old(f).input(),
            offsets@.map_values(|o: u16| o as int),
            0,
            Seq::empty(),
            Seq::empty(),
            old(ids).peek(),
        ) {
            Ok((vars, ls, next)) => (r matches Ok((vs, g)) && g@ == ls && vs@.len() == NUM_VARIATIONS && forall|j: int|
                0 <= j < NUM_VARIATIONS ==> match #[trigger] vars[j] {
                    None => vs@[j] is None,
                    Some(segs) => vs@[j] matches Some(var) && var.segments@ == segs,
                }) && vars.len() == NUM_VARIATIONS && lists_show(final(bgm).track_lists@, ls) && final(ids).peek()
                == next,
            Err(e) => r matches Err(e2) && e2 == e,
        },
{
    let ghost s = f.input();
    let ghost offs = offsets@.map_values(|o: u16| o as int);
    let ghost id0 = ids.peek();
    let ghost mut ls: ListModels = Seq::empty();
    let mut variations: Vec<Option<Variation>> = Vec::new();
    let ghost mut acc: Seq<Option<Seq<Segment>>> = Seq::empty();
    let mut v: usize = 0;
    while v < NUM_VARIATIONS
        invariant
            f.input() == s,
            s == old(f).input(),
            id0 == old(ids).peek(),
            s.len() <= usize::MAX / 2,
            offsets@.len() == NUM_VARIATIONS,
            offs == offsets@.map_values(|o: u16| o as int),
            v <= NUM_VARIATIONS,
            variations@.len() == v,
            acc.len() == v,
            forall|j: int|
                0 <= j < v ==> match #[trigger] acc[j] {
                    None => variations@[j] is None,
                    Some(segs) => variations@[j] matches Some(var) && var.segments@ == segs,
                },
            ls.len() <= v * (s.len() / 4 + 1),
            lists_show(bgm.track_lists@, ls),
            decode_variations(s, offs, 0, Seq::empty(), Seq::empty(), id0) == decode_variations(
                s,
                offs,
                v as int,
                acc,
                ls,
                ids.peek(),
            ),
            bgm.name == old(bgm).name,
            bgm.variations == old(bgm).variations,
            bgm.drums == old(bgm).drums,
            bgm.instruments == old(bgm).instruments,
            bgm.unknowns == old(bgm).unknowns,
        decreases NUM_VARIATIONS - v,
    {
        let off = offsets[v];
        assert(offs[v as int] == off as int);
        if off == 0 {
            variations.push(None);
            proof {
                acc = acc.push(None);
                assert(ls.len() <= (v + 1) * (s.len() / 4 + 1)) by (nonlinear_arith)
                    requires
                        ls.len() <= v * (s.len() / 4 + 1),
                ;
            }
        } else {
            proof {
                assert(ls.len() <= 3 * (s.len() / 4 + 1)) by (nonlinear_arith)
                    requires
                        ls.len() <= v * (s.len() / 4 + 1),
                        v < 4,
                ;
            }
            let (segs, g) = match decode_variation_segments(f, bgm, ids, off as usize, Ghost(ls)) {
                Ok(x) => x,
                Err(e) => {
                    return Err(e);
                },
            };
            proof {
                assert(g@.len() <= (v + 1) * (s.len() / 4 + 1)) by (nonlinear_arith)
                    requires
                        ls.len() <= v * (s.len() / 4 + 1),
                        g@.len() <= ls.len() + s.len() / 4 + 1,
                ;
                acc = acc.push(Some(segs@));
                ls = g@;
            }
            variations.push(Some(Variation { segments: segs }));
        }
        v = v + 1;
    }
    Ok((variations, Ghost(ls)))
}

impl Bgm {
    /// Decodes a song file (see [`decode_bgm`]). Also returns where the editor metadata payload
    /// starts, when the file carries one; reading it is left to the caller.
    pub fn decode(f: &mut Reader, ids: &mut IdGen) -> (r: Result<(Bgm, Option<u64>), Error>)
        requires
            old(f).input().len() <= usize::MAX / 2,
        ensures
            final(f).input() == old(f).input(),
            match decode_bgm(old(f).input(), old(ids).peek()) {
                Ok((m, meta, next)) => (r matches Ok((b, at)) && bgm_shows(old(f).input(), b, m) && at == meta)
                    && final(ids).peek() == next,
                Err(e) => r matches Err(e2) && e2 == e,
            },
    {
        let ghost s = f.input();
        let h = match read_header(f) {
            Ok(h) => h,
            Err(e) => {
                return Err(e);
            },
        };
        let mut bgm = Bgm::new();
        bgm.name = h.name;
        let unk = special_unknown_range(f);
        match unk {
            Some((a, b)) => {
                if b > f.len() as u64 {
                    return Err(Error::Io(IoError::UnexpectedEof));
                }
                let u = Unknown::decode(f, a..b).unwrap();
                bgm.unknowns = vec![u];
            },
            None => {},
        }
        let ghost m = decode_header(s)->Ok_0;
        let ghost id0 = ids.peek();
        proof {
            assert(lists_show(bgm.track_lists@, Seq::empty()));
            assert(h.variation_offsets@.map_values(|o: u16| o as int) =~= m.variation_offsets);
        }
        let (variations, _) = match decode_all_variations(f, &mut bgm, ids, &h.variation_offsets) {
            Ok(x) => x,
            Err(e) => {
                return Err(e);
            },
        };
        bgm.variations = variations;
        bgm.drums = match decode_drums_at(f, h.drums_offset, h.drums_count) {
            Ok(d) => d,
            Err(e) => {
                return Err(e);
            },
        };
        bgm.instruments = match decode_instruments_at(f, h.voices_offset, h.voices_count) {
            Ok(d) => d,
            Err(e) => {
                return Err(e);
            },
        };
        Ok((bgm, h.metadata_at))
    }

    /// Decodes a song file held in memory (see [`Bgm::decode`]).
    pub fn from_bytes(data: &[u8], ids: &mut IdGen) -> (r: Result<(Bgm, Option<u64>), Error>)
        requires
            data@.len() <= usize::MAX / 2,
        ensures
            match decode_bgm(data@, old(ids).peek()) {
                Ok((m, meta, next)) => (r matches Ok((b, at)) && bgm_shows(data@, b, m) && at == meta)
                    && final(ids).peek() == next,
                Err(e) => r matches Err(e2) && e2 == e,
            },
    {
        let mut f = Reader::new(data);
        Self::decode(&mut f, ids)
    }
}

} // verus!
