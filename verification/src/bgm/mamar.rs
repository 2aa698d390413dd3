//! Editor metadata that a song file may carry after its end: the names of tracks.

use vstd::prelude::*;

use crate::bgm::{Bgm, TrackList, TrackListId};
use std::collections::HashMap;
use vstd::std_specs::iter::IteratorSpec;

verus! {

broadcast use vstd::std_specs::hash::group_hash_axioms;

/// The signature that precedes the metadata.
pub const MAGIC: &'static str = "MAMAR";

/// The size of the field that holds [`MAGIC`], NUL included.
pub const MAGIC_MAX_LEN: usize = 8;

/// Written in MessagePack after the end of a song, preceded by the [`MAGIC`] field.
pub struct Metadata {
    /// Maps a track list number to the names of its tracks, the master track excluded.
    track_names: HashMap<u16, Vec<String>>,
}

/// The names of a list of tracks.
pub open spec fn names_view(v: Vec<String>) -> Seq<Seq<char>> {
    v@.map_values(|s: String| s@)
}

impl View for Metadata {
    type V = Map<u16, Seq<Seq<char>>>;

    closed spec fn view(&self) -> Map<u16, Seq<Seq<char>>> {
        self.track_names@.map_values(|v: Vec<String>| names_view(v))
    }
}

/// Whether some name of `m` is not empty.
pub open spec fn has_names(m: Map<u16, Seq<Seq<char>>>) -> bool {
    exists|k: u16, i: int| #[trigger] m.contains_key(k) && 0 <= i < m[k].len() && #[trigger] m[k][i].len() > 0
}

/// Whether every name of track list `k` in `m` is empty.
pub open spec fn no_names_in(m: Map<u16, Seq<Seq<char>>>, k: u16) -> bool {
    forall|i: int| 0 <= i < m[k].len() ==> m[k][i].len() == 0
}

impl Metadata {
    /// No names.
    pub fn new() -> (r: Self)
        ensures
            r@ == Map::<u16, Seq<Seq<char>>>::empty(),
    {
        let r = Metadata { track_names: HashMap::new() };
        assert(r@ =~= Map::<u16, Seq<Seq<char>>>::empty());
        r
    }

    /// Metadata with the given names.
    pub fn from_track_names(track_names: HashMap<u16, Vec<String>>) -> (r: Self)
        ensures
            r@ == track_names@.map_values(|v: Vec<String>| names_view(v)),
    {
        Metadata { track_names }
    }

    /// The names, by track list number.
    pub fn track_names(&self) -> (r: &HashMap<u16, Vec<String>>)
        ensures
            r@.map_values(|v: Vec<String>| names_view(v)) == self@,
    {
        &self.track_names
    }

    /// Whether any track name is not empty.
    pub fn has_data(&self) -> (r: bool)
        ensures
            r == has_names(self@),
    {
        let ghost keys = vstd::std_specs::hash::spec_keys_iter(&self.track_names).remaining();
        let ghost m = self@;
        let mut found = false;
        for k in it: self.track_names.keys()
            invariant
                it.seq() == keys,
                keys.unref().to_set() == self.track_names@.dom(),
                m == self@,
                found ==> has_names(m),
                !found ==> forall|j: int| 0 <= j < it.index() ==> no_names_in(m, *#[trigger] keys[j]),
        {
            let ghost idx = it.index();
            assert(*keys[idx] == *k);
            let names = self.track_names.get(k).unwrap();
            let ghost kk = *k;
            assert(m.contains_key(kk));
            assert(names_view(*names) == m[kk]);
            let mut i: usize = 0;
            while i < names.len()
                invariant
                    i <= names@.len(),
                    names_view(*names) == m[kk],
                    m.contains_key(kk),
                    found ==> has_names(m),
                    !found ==> forall|x: int| 0 <= x < i ==> m[kk][x].len() == 0,
                    !found ==> forall|j: int| 0 <= j < idx ==> no_names_in(m, *#[trigger] keys[j]),
                    *keys[idx] == kk,
                decreases names@.len() - i,
            {
                if names[i].as_str().unicode_len() > 0 {
                    proof {
                        assert(m[kk][i as int] == names@[i as int]@);
                    }
                    found = true;
                }
                i = i + 1;
            }
            assert(!found ==> no_names_in(m, kk));
            assert(!found ==> forall|j: int| 0 <= j < idx + 1 ==> no_names_in(m, *#[trigger] keys[j]));
        }
        proof {
            if !found {
                assert forall|k: u16, i: int| #[trigger] m.contains_key(k) && 0 <= i < m[k].len() implies !(
                #[trigger] m[k][i].len() > 0) by {
                    assert(keys.unref().to_set().contains(k));
                    let j = choose|j: int| 0 <= j < keys.len() && keys.unref()[j] == k;
                    assert(*keys[j] == k);
                    assert(no_names_in(m, *keys[j]));
                }
            }
        }
        found
    }

    /// Appends `name` to the names of track list `tracks_pos`.
    pub fn add_track_name(&mut self, tracks_pos: u16, name: String)
        ensures
            final(self)@ == old(self)@.insert(
                tracks_pos,
                (if old(self)@.contains_key(tracks_pos) {
                    old(self)@[tracks_pos]
                } else {
                    Seq::empty()
                }).push(name@),
            ),
    {
        let ghost old_m = self@;
        let ghost old_tn = self.track_names@;
        let mut names = match self.track_names.remove(&tracks_pos) {
            Some(v) => v,
            None => Vec::new(),
        };
        let ghost before = names_view(names);
        assert(before == if old_m.contains_key(tracks_pos) {
            old_m[tracks_pos]
        } else {
            Seq::<Seq<char>>::empty()
        });
        names.push(name);
        assert(names_view(names) =~= before.push(name@));
        self.track_names.insert(tracks_pos, names);
        assert(self.track_names@ == old_tn.insert(tracks_pos, names));
        assert(self@ =~= old_m.insert(
            tracks_pos,
            (if old_m.contains_key(tracks_pos) {
                old_m[tracks_pos]
            } else {
                Seq::empty()
            }).push(name@),
        ));
    }
}

/// Whether track list `t2` is `t1` with the names `names` (if any) given, in order, to the
/// tracks after the first, as far as both go.
pub open spec fn list_named(names: Option<Seq<Seq<char>>>, t1: TrackList, t2: TrackList) -> bool {
    &&& t2.pos == t1.pos
    &&& t2.tracks@.len() == t1.tracks@.len()
    &&& forall|i: int|
        0 <= i < t1.tracks@.len() ==> {
            let a = #[trigger] t1.tracks@[i];
            let b = t2.tracks@[i];
            &&& b.is_disabled == a.is_disabled
            &&& b.polyphony == a.polyphony
            &&& b.is_drum_track == a.is_drum_track
            &&& b.commands == a.commands
            &&& b.name@ == match names {
                Some(ns) => if 1 <= i <= ns.len() {
                    ns[i - 1]
                } else {
                    a.name@
                },
                None => a.name@,
            }
        }
}

/// The names that `m` lists for the track list keyed `k` (keys are taken modulo 2^16).
pub open spec fn names_for(m: Map<u16, Seq<Seq<char>>>, k: TrackListId) -> Option<Seq<Seq<char>>> {
    let key = (k % 0x1_0000) as u16;
    if m.contains_key(key) {
        Some(m[key])
    } else {
        None
    }
}

impl Metadata {
    /// Names the tracks of `bgm` (see [`list_named`]); everything else stays as it is.
    pub fn apply_to_bgm(&self, bgm: &mut Bgm)
        ensures
            final(bgm).name == old(bgm).name,
            final(bgm).variations == old(bgm).variations,
            final(bgm).drums == old(bgm).drums,
            final(bgm).instruments == old(bgm).instruments,
            final(bgm).unknowns == old(bgm).unknowns,
            final(bgm).track_lists@.dom() == old(bgm).track_lists@.dom(),
            forall|k: TrackListId| #[trigger] old(bgm).track_lists@.contains_key(k) ==> list_named(
                names_for(self@, k),
                old(bgm).track_lists@[k],
                final(bgm).track_lists@[k],
            ),
    {
        broadcast use vstd::std_specs::btree::group_btree_axioms;
        let ids = bgm.track_list_ids();
        let ghost m0 = bgm.track_lists@;
        let mut n: usize = 0;
        while n < ids.len()
            invariant
                n <= ids@.len(),
                ids@.to_set() == m0.dom(),
                ids@.no_duplicates(),
                bgm.name == old(bgm).name,
                bgm.variations == old(bgm).variations,
                bgm.drums == old(bgm).drums,
                bgm.instruments == old(bgm).instruments,
                bgm.unknowns == old(bgm).unknowns,
                m0 == old(bgm).track_lists@,
                bgm.track_lists@.dom() == m0.dom(),
                forall|j: int| 0 <= j < n ==> list_named(names_for(self@, #[trigger] ids@[j]), m0[ids@[j]], bgm.track_lists@[ids@[j]]),
                forall|j: int| n <= j < ids@.len() ==> bgm.track_lists@[#[trigger] ids@[j]] == m0[ids@[j]],
            decreases ids@.len() - n,
        {
            let id = ids[n];
            assert(ids@.to_set().contains(id));
            let key = (id % 0x1_0000) as u16;
            match self.track_names.get(&key) {
                None => {
                    proof {
                        assert(names_for(self@, id) is None);
                        assert(list_named(None, m0[id], bgm.track_lists@[id]));
                    }
                },
                Some(names) => {
                    let ghost ns = names_view(*names);
                    assert(names_for(self@, id) == Some(ns));
                    let ghost before = bgm.track_lists@;
                    let mut tl = bgm.track_lists.remove(&id).unwrap();
                    let ghost t1 = tl;
                    let mut i: usize = 1;
                    while i < tl.tracks.len() && i - 1 < names.len()
                        invariant
                            1 <= i,
                            i <= tl.tracks@.len() || tl.tracks@.len() == 0,
                            tl.pos == t1.pos,
                            tl.tracks@.len() == t1.tracks@.len(),
                            ns == names_view(*names),
                            forall|x: int|
                                0 <= x < t1.tracks@.len() ==> {
                                    let a = #[trigger] t1.tracks@[x];
                                    let b = tl.tracks@[x];
                                    &&& b.is_disabled == a.is_disabled
                                    &&& b.polyphony == a.polyphony
                                    &&& b.is_drum_track == a.is_drum_track
                                    &&& b.commands == a.commands
                                    &&& b.name@ == (if 1 <= x < i && x <= ns.len() {
                                        ns[x - 1]
                                    } else {
                                        a.name@
                                    })
                                },
                        decreases tl.tracks@.len() - i,
                    {
                        tl.tracks[i].name = names[i - 1].clone();
                        i = i + 1;
                    }
                    proof {
                        assert(list_named(Some(ns), t1, tl));
                    }
                    bgm.track_lists.insert(id, tl);
                    proof {
                        assert(bgm.track_lists@.dom() =~= m0.dom());
                        assert forall|j: int| n < j < ids@.len() implies bgm.track_lists@[#[trigger] ids@[j]] == m0[ids@[j]] by {
                            assert(ids@[j] != id);
                        }
                        assert forall|j: int| 0 <= j < n implies list_named(names_for(self@, #[trigger] ids@[j]), m0[ids@[j]], bgm.track_lists@[ids@[j]]) by {
                            assert(ids@[j] != id);
                        }
                    }
                },
            }
            n = n + 1;
        }
        proof {
            assert forall|k: TrackListId| #[trigger] m0.contains_key(k) implies list_named(
                names_for(self@, k),
                m0[k],
                bgm.track_lists@[k],
            ) by {
                assert(ids@.to_set().contains(k));
                let j = choose|j: int| 0 <= j < ids@.len() && ids@[j] == k;
                assert(ids@[j] == k);
            }
        }
    }
}

} // verus!
