//! Undo and redo over a bounded ring of committed states.
//!
//! A [`History`] holds a working copy of the state, which the editor changes freely,
//! and a timeline of committed states from the oldest to the newest. Committing a
//! changed working copy appends it after the current state and drops whatever lay in
//! its future; undo and redo move the current state along the timeline and reset the
//! working copy to it. At most [`NUM_STATES`] states are kept: committing to a full
//! timeline forgets its oldest state.

use vstd::prelude::*;
use vstd::std_specs::cmp::PartialEqSpec;

verus! {

/// How many committed states a history keeps.
pub const NUM_STATES: usize = 32;

/// Whether `cursor` names a state of `timeline` and the timeline fits the ring.
pub open spec fn valid_timeline<S>(timeline: Seq<S>, cursor: int) -> bool {
    &&& 1 <= timeline.len() <= NUM_STATES
    &&& 0 <= cursor < timeline.len()
}

/// The timeline after committing `s` at `cursor`: the states up to the cursor are
/// kept, `s` follows them, and the oldest state goes where the ring would overflow.
pub open spec fn commit_timeline<S>(timeline: Seq<S>, cursor: int, s: S) -> Seq<S> {
    let kept = timeline.take(cursor + 1).push(s);
    if kept.len() > NUM_STATES {
        kept.drop_first()
    } else {
        kept
    }
}

/// The cursor after an undo: one state back, unless it is at the oldest state.
pub open spec fn undo_cursor(cursor: int) -> int {
    if cursor > 0 {
        cursor - 1
    } else {
        cursor
    }
}

/// The cursor after a redo: one state on, unless it is at the newest state.
pub open spec fn redo_cursor(len: nat, cursor: int) -> int {
    if cursor + 1 < len {
        cursor + 1
    } else {
        cursor
    }
}

/// After a commit, undo brings back the state that was current before it, and the
/// committed state is the newest, so nothing is left to redo.
pub proof fn law_undo_after_commit<S>(timeline: Seq<S>, cursor: int, s: S)
    requires
        valid_timeline(timeline, cursor),
    ensures
        ({
            let t = commit_timeline(timeline, cursor, s);
            let c = t.len() - 1;
            &&& valid_timeline(t, c)
            &&& t[c] == s
            &&& redo_cursor(t.len(), c) == c
            &&& undo_cursor(c) < c
            &&& t[undo_cursor(c)] == timeline[cursor]
        }),
{
}

/// A commit keeps the states up to the current one, in order, losing only the
/// oldest of them when the ring is full.
pub proof fn law_commit_keeps_past<S>(timeline: Seq<S>, cursor: int, s: S)
    requires
        valid_timeline(timeline, cursor),
    ensures
        ({
            let t = commit_timeline(timeline, cursor, s);
            let past = timeline.take(cursor + 1);
            &&& cursor + 1 < NUM_STATES ==> t == past.push(s)
            &&& cursor + 1 == NUM_STATES ==> t == past.drop_first().push(s)
        }),
{
    let past = timeline.take(cursor + 1);
    if cursor + 1 == NUM_STATES {
        assert(past.push(s).drop_first() =~= past.drop_first().push(s));
    }
}

/// Undo and redo undo each other wherever they move.
pub proof fn law_undo_redo_inverse(len: nat, cursor: int)
    requires
        0 <= cursor < len,
    ensures
        cursor > 0 ==> redo_cursor(len, undo_cursor(cursor)) == cursor,
        cursor + 1 < len ==> undo_cursor(redo_cursor(len, cursor)) == cursor,
{
}

/// Steps forward around the ring from slot `a` to slot `b`.
spec fn ring_dist(a: int, b: int) -> int {
    if a <= b {
        b - a
    } else {
        b - a + NUM_STATES
    }
}

/// The slot `i` steps forward around the ring from slot `a`.
spec fn ring_slot(a: int, i: int) -> int {
    if a + i < NUM_STATES {
        a + i
    } else {
        a + i - NUM_STATES
    }
}

fn ring_next(index: usize) -> (r: usize)
    requires
        index < NUM_STATES,
    ensures
        r == ring_slot(index as int, 1),
{
    if index + 1 == NUM_STATES {
        0
    } else {
        index + 1
    }
}

fn ring_prev(index: usize) -> (r: usize)
    requires
        index < NUM_STATES,
    ensures
        r == ring_slot(index as int, NUM_STATES - 1),
{
    if index == 0 {
        NUM_STATES - 1
    } else {
        index - 1
    }
}

/// A working state with the committed states it can be reset to.
pub struct History<S> {
    working: S,
    states: Vec<S>,
    newest: usize,
    current: usize,
    oldest: usize,
}

impl<S: Clone + Eq> History<S> {
    /// The ring's slots are all there and the current slot lies between the
    /// oldest and the newest.
    pub closed spec fn wf(&self) -> bool {
        &&& self.states@.len() == NUM_STATES
        &&& self.newest < NUM_STATES
        &&& self.current < NUM_STATES
        &&& self.oldest < NUM_STATES
        &&& ring_dist(self.oldest as int, self.current as int) <= ring_dist(
            self.oldest as int,
            self.newest as int,
        )
    }

    /// The committed states, oldest first.
    pub closed spec fn timeline(&self) -> Seq<S> {
        Seq::new(
            (ring_dist(self.oldest as int, self.newest as int) + 1) as nat,
            |i: int| self.states@[ring_slot(self.oldest as int, i)],
        )
    }

    /// The position of the current state in the timeline.
    pub closed spec fn cursor(&self) -> int {
        ring_dist(self.oldest as int, self.current as int)
    }

    /// The working copy, which the editor changes between commits.
    pub closed spec fn working(&self) -> S {
        self.working
    }

    /// The committed state that the cursor is on.
    pub open spec fn current_state(&self) -> S {
        self.timeline()[self.cursor()]
    }

    proof fn lemma_wf_timeline(&self)
        requires
            self.wf(),
        ensures
            valid_timeline(self.timeline(), self.cursor()),
            self.current_state() == self.states@[self.current as int],
    {
        assert(self.timeline()[self.cursor()] == self.states@[self.current as int]);
    }

    /// A history whose only committed state is `initial_state`, with a clone of it
    /// as the working copy.
    pub fn new(initial_state: S) -> (h: Self)
        ensures
            h.wf(),
            h.timeline() == seq![initial_state],
            h.cursor() == 0,
            cloned(initial_state, h.working()),
    {
        let working = initial_state.clone();
        let mut states: Vec<S> = Vec::new();
        states.push(initial_state);
        // The other slots are filled before they are ever read.
        while states.len() < NUM_STATES
            invariant
                1 <= states@.len() <= NUM_STATES,
                states@[0] == initial_state,
            decreases NUM_STATES - states@.len(),
        {
            states.push(working.clone());
        }
        let h = History { working, states, newest: 0, current: 0, oldest: 0 };
        assert(h.timeline() =~= seq![initial_state]);
        h
    }

    /// Commits the working copy if it differs from the current state, and says
    /// whether it did.
    pub fn commit(&mut self) -> (changed: bool)
        requires
            old(self).wf(),
        ensures
            final(self).wf(),
            S::obeys_eq_spec() ==> changed == !old(self).working().eq_spec(
                &old(self).current_state(),
            ),
            final(self).working() == old(self).working(),
            changed ==> {
                &&& final(self).timeline() == commit_timeline(
                    old(self).timeline(),
                    old(self).cursor(),
                    final(self).current_state(),
                )
                &&& final(self).cursor() == final(self).timeline().len() - 1
                &&& cloned(old(self).working(), final(self).current_state())
            },
            !changed ==> final(self).timeline() == old(self).timeline() && final(self).cursor()
                == old(self).cursor(),
    {
        proof {
            self.lemma_wf_timeline();
        }
        let differs = !self.working.eq(&self.states[self.current]);
        if differs {
            let ghost old_t = self.timeline();
            let ghost c = self.cursor();
            let ghost oldest0 = self.oldest as int;
            let next = ring_next(self.current);
            self.current = next;
            self.newest = next;
            if next == self.oldest {
                self.oldest = ring_next(self.oldest);
            }
            let copy = self.working.clone();
            self.states.set(next, copy);
            proof {
                let t = self.timeline();
                let want = commit_timeline(old_t, c, copy);
                if c + 1 < NUM_STATES {
                    assert(self.oldest == oldest0);
                    assert(t.len() == want.len());
                    assert forall|i: int| 0 <= i < t.len() implies t[i] == want[i] by {

                    }
                    assert(t =~= want);
                } else {
                    assert(self.oldest == ring_slot(oldest0, 1));
                    assert(t.len() == want.len());
                    assert forall|i: int| 0 <= i < t.len() implies t[i] == want[i] by {

                    }
                    assert(t =~= want);
                }
                assert(self.current_state() == copy);
            }
        }
        differs
    }

    /// Moves back to the previous committed state, if there is one, resets the
    /// working copy to it, and says whether it moved.
    pub fn undo(&mut self) -> (moved: bool)
        requires
            old(self).wf(),
        ensures
            final(self).wf(),
            moved == (old(self).cursor() > 0),
            final(self).timeline() == old(self).timeline(),
            final(self).cursor() == undo_cursor(old(self).cursor()),
            moved ==> cloned(final(self).current_state(), final(self).working()),
            !moved ==> final(self).working() == old(self).working(),
    {
        proof {
            self.lemma_wf_timeline();
        }
        if self.current != self.oldest {
            self.current = ring_prev(self.current);
            proof {
                self.lemma_wf_timeline();
            }
            self.working = self.states[self.current].clone();
            true
        } else {
            false
        }
    }

    /// Moves on to the next committed state, if there is one, resets the working
    /// copy to it, and says whether it moved.
    pub fn redo(&mut self) -> (moved: bool)
        requires
            old(self).wf(),
        ensures
            final(self).wf(),
            moved == (old(self).cursor() + 1 < old(self).timeline().len()),
            final(self).timeline() == old(self).timeline(),
            final(self).cursor() == redo_cursor(old(self).timeline().len(), old(self).cursor()),
            moved ==> cloned(final(self).current_state(), final(self).working()),
            !moved ==> final(self).working() == old(self).working(),
    {
        proof {
            self.lemma_wf_timeline();
        }
        if self.current != self.newest {
            self.current = ring_next(self.current);
            proof {
                self.lemma_wf_timeline();
            }
            self.working = self.states[self.current].clone();
            true
        } else {
            false
        }
    }
}

impl<S: Clone + Eq> core::ops::Deref for History<S> {
    type Target = S;

    /// The working copy.
    fn deref(&self) -> (r: &S)
        ensures
            *r == self.working(),
    {
        &self.working
    }
}

impl<S: Clone + Eq> core::ops::DerefMut for History<S> {
    /// The working copy, to be changed in place.
    fn deref_mut(&mut self) -> (r: &mut S)
        ensures
            *r == old(self).working(),
            final(self).wf() == old(self).wf(),
            final(self).timeline() == old(self).timeline(),
            final(self).cursor() == old(self).cursor(),
            final(self).working() == *final(r),
    {
        &mut self.working
    }
}

} // verus!
