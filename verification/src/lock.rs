//! The lock: four wheels, one per slide direction, and the combined
//! "slide" transition.
//!
//! A slide in direction `d` (0 = up, 1 = right, 2 = down, 3 = left)
//! advances the wheel before `d` toward shift `-1`, the wheel at `d`
//! toward shift `0`, and the wheel after `d` toward shift `+1`, in that
//! order. Lock states are totally ordered by the lexicographic order of
//! their four wheel encodings, realised here as a base-15 index in
//! `0..50625`, which keys the aggregation table.

use vstd::prelude::*;
use crate::moves::valid_dirs;
use crate::wheel::Wheel;
use crate::wheel::advance_spec;
use crate::wheel::encode;
use crate::wheel::wheel_wf;

verus! {

/// Number of distinct lock states: each of the 4 wheels has 15 encodings.
pub const STATE_SPACE: usize = 50625;

/// The wheel before direction `d`, cyclically.
pub open spec fn prior_spec(d: int) -> int {
    if d == 0 {
        3
    } else {
        d - 1
    }
}

/// The wheel after direction `d`, cyclically.
pub open spec fn next_spec(d: int) -> int {
    if d == 3 {
        0
    } else {
        d + 1
    }
}

/// A valid lock state: exactly four wheels, each validly encoded.
pub open spec fn lock_wf(l: Seq<int>) -> bool {
    l.len() == 4 && (forall|i: int| 0 <= i < 4 ==> wheel_wf(#[trigger] l[i]))
}

/// The all-neutral reset state: every wheel at position 0, shift 0.
pub open spec fn reset_state() -> Seq<int> {
    seq![encode(0, 0), encode(0, 0), encode(0, 0), encode(0, 0)]
}

/// One slide in direction `d`: the prior wheel advances toward shift -1,
/// the wheel at `d` toward 0, and the next wheel toward +1, in order.
pub open spec fn slide_spec(l: Seq<int>, d: int) -> Seq<int> {
    let a = l.update(prior_spec(d), advance_spec(l[prior_spec(d)], -1));
    let b = a.update(d, advance_spec(a[d], 0));
    b.update(next_spec(d), advance_spec(b[next_spec(d)], 1))
}

/// The lock state reached by replaying a direction sequence from reset.
pub open spec fn replay(s: Seq<u8>) -> Seq<int>
    decreases s.len(),
{
    if s.len() == 0 {
        reset_state()
    } else {
        slide_spec(replay(s.drop_last()), s.last() as int)
    }
}

/// The base-15 packing of the four wheel encodings; for valid states it
/// realises the lexicographic total order over locks as `0..50625`.
pub open spec fn lock_index(l: Seq<int>) -> int {
    ((l[0] * 15 + l[1]) * 15 + l[2]) * 15 + l[3]
}

/// The lock state whose base-15 packing is `k`.
pub open spec fn state_of_index(k: int) -> Seq<int> {
    seq![(k / 3375) % 15, (k / 225) % 15, (k / 15) % 15, k % 15]
}

/// Slides preserve lock validity.
pub proof fn lemma_slide_wf(l: Seq<int>, d: int)
    requires
        lock_wf(l),
        0 <= d < 4,
    ensures
        lock_wf(slide_spec(l, d)),
{
}

/// Replaying any sequence of valid directions yields a valid lock state.
pub proof fn lemma_replay_wf(s: Seq<u8>)
    requires
        valid_dirs(s),
    ensures
        lock_wf(replay(s)),
    decreases s.len(),
{
    if s.len() > 0 {
        assert(valid_dirs(s.drop_last()));
        lemma_replay_wf(s.drop_last());
        lemma_slide_wf(replay(s.drop_last()), s.last() as int);
    }
}

/// The index of a valid lock state lies in `0..50625`.
pub proof fn lemma_index_range(l: Seq<int>)
    requires
        lock_wf(l),
    ensures
        0 <= lock_index(l) < 50625,
{
}

/// Decoding the index of a valid state gives the state back: the index is
/// a faithful key, so two states sharing an index are equal.
pub proof fn lemma_index_roundtrip(l: Seq<int>)
    requires
        lock_wf(l),
    ensures
        state_of_index(lock_index(l)) == l,
{
    let a = l[0];
    let b = l[1];
    let c = l[2];
    let d = l[3];
    let k = lock_index(l);
    assert(k == a * 3375 + b * 225 + c * 15 + d);
    vstd::arithmetic::div_mod::lemma_fundamental_div_mod_converse(k, 3375, a, b * 225 + c * 15 + d);
    vstd::arithmetic::div_mod::lemma_small_mod(a as nat, 15);
    assert((k / 3375) % 15 == a);
    vstd::arithmetic::div_mod::lemma_fundamental_div_mod_converse(k, 225, a * 15 + b, c * 15 + d);
    vstd::arithmetic::div_mod::lemma_fundamental_div_mod_converse_mod(a * 15 + b, 15, a, b);
    assert((k / 225) % 15 == b);
    vstd::arithmetic::div_mod::lemma_fundamental_div_mod_converse(k, 15, a * 225 + b * 15 + c, d);
    vstd::arithmetic::div_mod::lemma_fundamental_div_mod_converse_mod(
        a * 225 + b * 15 + c,
        15,
        a * 15 + b,
        c,
    );
    assert((k / 15) % 15 == c);
    assert(k % 15 == d);
    assert(state_of_index(k) =~= l);
}

/// Every index in `0..50625` decodes to a valid state whose index it is.
pub proof fn lemma_index_of_state_of_index(k: int)
    requires
        0 <= k < 50625,
    ensures
        lock_wf(state_of_index(k)),
        lock_index(state_of_index(k)) == k,
{
    let t1 = k / 15;
    let t2 = k / 225;
    let t3 = k / 3375;
    vstd::arithmetic::div_mod::lemma_fundamental_div_mod(k, 15);
    vstd::arithmetic::div_mod::lemma_fundamental_div_mod(t1, 15);
    vstd::arithmetic::div_mod::lemma_fundamental_div_mod(t2, 15);
    vstd::arithmetic::div_mod::lemma_div_denominator(k, 15, 15);
    vstd::arithmetic::div_mod::lemma_div_denominator(k, 225, 15);
    assert(t1 / 15 == t2);
    assert(t2 / 15 == t3);
    vstd::arithmetic::div_mod::lemma_div_is_ordered(k, 50624, 3375);
    vstd::arithmetic::div_mod::lemma_div_pos_is_pos(k, 3375);
    assert(0 <= t3 <= 14);
    vstd::arithmetic::div_mod::lemma_small_mod(t3 as nat, 15);
    assert(state_of_index(k) == seq![t3 % 15, t2 % 15, t1 % 15, k % 15]);
    assert(lock_index(state_of_index(k)) == ((t3 % 15) * 15 + t2 % 15) * 15 * 15 + (t1 % 15) * 15
        + k % 15);
    assert(k == 15 * t1 + k % 15);
    assert(t1 == 15 * t2 + t1 % 15);
    assert(t2 == 15 * t3 + t2 % 15);
    assert(lock_index(state_of_index(k)) == k);
}

/// The concise rendering of a lock: its four wheels between
/// parentheses, separated by commas.
pub open spec fn lock_text(l: Seq<int>) -> Seq<char> {
    seq!['('] + crate::wheel::wheel_text(l[0]) + seq![','] + crate::wheel::wheel_text(l[1])
        + seq![','] + crate::wheel::wheel_text(l[2]) + seq![','] + crate::wheel::wheel_text(l[3])
        + seq![')']
}

/// The entire lock: one wheel for each of the four slide directions.
#[derive(Eq, PartialEq, Copy, Clone, Debug)]
pub struct Lock {
    wheels: [Wheel; 4],
}

impl View for Lock {
    type V = Seq<int>;

    closed spec fn view(&self) -> Seq<int> {
        Seq::new(4, |i: int| self.wheels@[i]@)
    }
}

/// The wheel before `wheel`, cyclically among the four directions.
pub fn prior(wheel: u8) -> (p: u8)
    requires
        wheel < 4,
    ensures
        p as int == prior_spec(wheel as int),
        p < 4,
{
    if wheel == 0 {
        3
    } else {
        wheel - 1
    }
}

/// The wheel after `wheel`, cyclically among the four directions.
pub fn next(wheel: u8) -> (n: u8)
    requires
        wheel < 4,
    ensures
        n as int == next_spec(wheel as int),
        n < 4,
{
    if wheel == 3 {
        0
    } else {
        wheel + 1
    }
}

impl Lock {
    /// A lock is always kept in a valid state.
    pub open spec fn wf(&self) -> bool {
        lock_wf(self@)
    }

    /// Construct a lock in the reset position.
    pub fn new() -> (l: Lock)
        ensures
            l@ == reset_state(),
            l.wf(),
    {
        let l = Lock { wheels: [Wheel::new(0, 0), Wheel::new(0, 0), Wheel::new(0, 0), Wheel::new(
            0,
            0,
        )] };
        proof {
            assert(l@ =~= reset_state());
        }
        l
    }

    /// Read one wheel of the lock.
    pub fn wheel(&self, i: usize) -> (w: Wheel)
        requires
            i < 4,
        ensures
            w@ == self@[i as int],
    {
        self.wheels[i]
    }

    /// Perform a slide. The directions are numbered according to their
    /// wheels (0-3).
    pub fn slide(&mut self, dir: u8)
        requires
            dir < 4,
            old(self).wf(),
        ensures
            final(self)@ == slide_spec(old(self)@, dir as int),
            final(self).wf(),
    {
        let p = prior(dir) as usize;
        let mut wp = self.wheels[p];
        proof {
            assert(wp@ == old(self)@[p as int]);
        }
        wp.advance(-1);
        self.wheels[p] = wp;
        let mut wd = self.wheels[dir as usize];
        proof {
            assert(wd@ == old(self)@.update(
                prior_spec(dir as int),
                advance_spec(old(self)@[prior_spec(dir as int)], -1),
            )[dir as int]);
        }
        wd.advance(0);
        self.wheels[dir as usize] = wd;
        let n = next(dir) as usize;
        let mut wn = self.wheels[n];
        proof {
            let a = old(self)@.update(
                prior_spec(dir as int),
                advance_spec(old(self)@[prior_spec(dir as int)], -1),
            );
            let b = a.update(dir as int, advance_spec(a[dir as int], 0));
            assert(wn@ == b[next_spec(dir as int)]);
        }
        wn.advance(1);
        self.wheels[n] = wn;
        proof {
            lemma_slide_wf(old(self)@, dir as int);
            assert(self@ =~= slide_spec(old(self)@, dir as int));
        }
    }

    /// Return every wheel to the neutral reset state.
    pub fn reset(&mut self)
        ensures
            final(self)@ == reset_state(),
            final(self).wf(),
    {
        self.wheels[0] = Wheel::new(0, 0);
        self.wheels[1] = Wheel::new(0, 0);
        self.wheels[2] = Wheel::new(0, 0);
        self.wheels[3] = Wheel::new(0, 0);
        proof {
            assert(self@ =~= reset_state());
        }
    }

    /// Display the lock concisely: the four wheels between parentheses.
    pub fn render(&self) -> (out: String)
        requires
            self.wf(),
        ensures
            out@ == lock_text(self@),
    {
        let mut out = String::from_str("(");
        let w0 = self.wheel(0).render();
        out.append(w0.as_str());
        out.append(",");
        let w1 = self.wheel(1).render();
        out.append(w1.as_str());
        out.append(",");
        let w2 = self.wheel(2).render();
        out.append(w2.as_str());
        out.append(",");
        let w3 = self.wheel(3).render();
        out.append(w3.as_str());
        out.append(")");
        proof {
            reveal_strlit("(");
            reveal_strlit(",");
            reveal_strlit(")");
            assert(out@ =~= lock_text(self@));
        }
        out
    }

    /// The base-15 index of this lock's state, in `0..50625`.
    pub fn index(&self) -> (k: usize)
        requires
            self.wf(),
        ensures
            k as int == lock_index(self@),
            k < STATE_SPACE,
    {
        let w0 = self.wheels[0].encoded() as usize;
        let w1 = self.wheels[1].encoded() as usize;
        let w2 = self.wheels[2].encoded() as usize;
        let w3 = self.wheels[3].encoded() as usize;
        ((w0 * 15 + w1) * 15 + w2) * 15 + w3
    }

    /// The lock whose state has base-15 index `k`.
    pub fn from_index(k: usize) -> (l: Lock)
        requires
            k < STATE_SPACE,
        ensures
            l@ == state_of_index(k as int),
            l.wf(),
            lock_index(l@) == k as int,
    {
        let w3 = (k % 15) as u8;
        let w2 = ((k / 15) % 15) as u8;
        let w1 = ((k / 225) % 15) as u8;
        let w0 = ((k / 3375) % 15) as u8;
        let l = Lock { wheels: [Wheel::from_encoded(w0), Wheel::from_encoded(w1),
            Wheel::from_encoded(w2), Wheel::from_encoded(w3)] };
        proof {
            lemma_index_of_state_of_index(k as int);
            assert(l@ =~= state_of_index(k as int));
        }
        l
    }
}

} // verus!
