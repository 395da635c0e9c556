//! Recovering the number of records without a stored counter.
//!
//! Record identifiers are handed out in sequence from zero, so the record
//! table holds exactly the keys `0..n` and `n` is the first key that is
//! absent. The probe finds it by asking for single keys: it first reaches
//! outwards in growing strides until a key is missing, then halves the
//! interval that remains. Which key to ask for next is decided here; asking
//! is left to the caller, who reports each answer back.

use vstd::arithmetic::power2::{lemma2_to64, lemma_pow2_unfold, pow2};
use vstd::prelude::*;

verus! {

/// The hint from which a record count is probed when a store is opened.
pub const RECORD_COUNT_HINT: u64 = 255;

/// Hints above this are not squared: their square would not fit.
pub const MAX_SQUARED_HINT: u64 = 0xFFFF_FFFF;

/// No probe asks for more keys than this.
pub const MAX_QUESTIONS: u64 = 130;

/// The number of binary digits of `x`.
pub open spec fn bits(x: nat) -> nat
    decreases x,
{
    if x == 0 {
        0
    } else {
        1 + bits(x / 2)
    }
}

/// A smaller number has no more digits.
pub proof fn lemma_bits_monotone(a: nat, b: nat)
    requires
        a <= b,
    ensures
        bits(a) <= bits(b),
    decreases b,
{
    if a > 0 {
        lemma_bits_monotone(a / 2, b / 2);
    }
}

/// A number below the `k`-th power of two has at most `k` digits.
pub proof fn lemma_bits_bound(x: nat, k: nat)
    requires
        x < pow2(k),
    ensures
        bits(x) <= k,
    decreases k,
{
    if x > 0 {
        if k == 0 {
            lemma2_to64();
        } else {
            lemma_pow2_unfold(k);
            lemma_bits_bound(x / 2, (k - 1) as nat);
        }
    }
}

/// What a probe knows and what it asks next.
///
/// The count lies in `min..=max`; `cur_val` is the next key to ask for and
/// `guess_max` the point towards which the probe currently reaches.
#[derive(Clone, Copy, Debug, PartialEq, Eq, Structural)]
pub struct ProbeState {
    /// Every key below this one is known to be present.
    pub min: u64,
    /// This key is taken as absent: it was found missing, or it is the
    /// largest key there is.
    pub max: u64,
    /// The far end of the current stride, never beyond `max`.
    pub guess_max: u64,
    /// The key whose presence decides the next step.
    pub cur_val: u64,
}

impl ProbeState {
    /// The state from which a probe with the given hint starts: nothing is
    /// known, the hint itself is asked for first, and the first stride
    /// reaches to the square of the hint.
    pub open spec fn start(starting_hint: u64) -> ProbeState {
        ProbeState {
            min: 0,
            max: u64::MAX,
            guess_max: if starting_hint > MAX_SQUARED_HINT {
                u64::MAX
            } else if starting_hint < 1 {
                1
            } else {
                (starting_hint * starting_hint) as u64
            },
            cur_val: starting_hint,
        }
    }

    /// The bounds are ordered, and the key to ask for lies between the lower
    /// bound and the end of the stride.
    pub open spec fn wf(&self) -> bool {
        &&& self.min <= self.cur_val <= self.guess_max <= self.max
        &&& self.min < self.max ==> self.guess_max >= 1
    }

    /// The bounds have met: the count is known.
    pub open spec fn finished(&self) -> bool {
        self.min == self.max
    }

    /// The state after the answer for `cur_val` has come in.
    ///
    /// A key that is present raises the lower bound behind it and doubles the
    /// stride, or sets it to the upper bound once doubling would pass that. A
    /// key that is absent becomes the upper bound and the end of the stride.
    /// The next key is the middle between the lower bound and the end of the
    /// stride.
    pub open spec fn after(self, found: bool) -> ProbeState {
        if found {
            let min = if self.cur_val < self.max {
                (self.cur_val + 1) as u64
            } else {
                self.max
            };
            let guess_max = if self.guess_max < self.max / 2 {
                (self.guess_max * 2) as u64
            } else {
                self.max
            };
            ProbeState {
                min,
                max: self.max,
                guess_max,
                cur_val: ((guess_max - min) / 2 + min) as u64,
            }
        } else {
            ProbeState {
                min: self.min,
                max: self.cur_val,
                guess_max: self.cur_val,
                cur_val: ((self.cur_val - self.min) / 2 + self.min) as u64,
            }
        }
    }

    /// The key to ask for is the middle between the lower bound and the end
    /// of the stride. This holds after every answer; the hint from which a
    /// probe starts need not be such a middle.
    pub open spec fn settled(&self) -> bool {
        self.cur_val == (self.guess_max - self.min) / 2 + self.min
    }

    /// A bound on the number of answers that are still needed. It falls with
    /// every answer and is never above `MAX_QUESTIONS`.
    ///
    /// While the stride ends below the upper bound, every key that is found
    /// doubles it, which can happen once for each digit that it does not have
    /// yet. From then on every answer halves the distance between the bounds,
    /// which can happen once for each digit of that distance.
    pub open spec fn remaining(&self) -> nat {
        if self.finished() {
            0
        } else if !self.settled() {
            MAX_QUESTIONS as nat
        } else if self.guess_max == self.max {
            bits((self.max - self.min) as nat)
        } else {
            (129 - bits(self.guess_max as nat)) as nat
        }
    }

    /// The count that the probe arrives at when the table holds exactly the
    /// keys below `n`, so that every question for a key is answered by
    /// whether the key is below `n`.
    pub open spec fn dense_outcome(self, n: u64) -> u64
        decreases self.remaining(),
        when self.wf()
    {
        if self.finished() {
            self.min
        } else {
            proof {
                self.lemma_after(self.cur_val < n);
            }
            self.after(self.cur_val < n).dense_outcome(n)
        }
    }

    /// Every answer keeps the state well-formed and brings the end nearer.
    pub proof fn lemma_after(self, found: bool)
        requires
            self.wf(),
            !self.finished(),
        ensures
            self.after(found).wf(),
            self.after(found).settled(),
            self.after(found).remaining() < self.remaining() <= MAX_QUESTIONS,
    {
        let next = self.after(found);
        let width = (self.max - self.min) as nat;
        let next_width = (next.max - next.min) as nat;
        lemma2_to64();
        lemma_bits_bound(width, 64);
        lemma_bits_bound(next_width, 64);
        lemma_bits_bound(self.guess_max as nat, 64);
        lemma_bits_bound(next.guess_max as nat, 64);
        if self.settled() {
            if self.guess_max == self.max {
                lemma_bits_monotone(next_width, width / 2);
            } else if next.guess_max < next.max {
                assert(found && next.guess_max == 2 * self.guess_max);
                assert(next.guess_max as nat / 2 == self.guess_max as nat);
            }
        }
    }

    /// The state from which a probe starts is well-formed.
    pub proof fn lemma_start(starting_hint: u64)
        ensures
            ProbeState::start(starting_hint).wf(),
            !ProbeState::start(starting_hint).finished(),
    {
        assert(1 <= starting_hint <= 0xFFFF_FFFF ==> starting_hint * starting_hint <= u64::MAX
            && starting_hint <= starting_hint * starting_hint) by (nonlinear_arith);
    }

    /// On a table without gaps the probe arrives at the number of its keys,
    /// whatever the state it is in, as long as that number lies within its
    /// bounds.
    pub proof fn lemma_dense_outcome(self, n: u64)
        requires
            self.wf(),
            self.min <= n <= self.max,
        ensures
            self.dense_outcome(n) == n,
        decreases self.remaining(),
    {
        if !self.finished() {
            self.lemma_after(self.cur_val < n);
            self.after(self.cur_val < n).lemma_dense_outcome(n);
        }
    }
}

/// A probe for the first absent key of a table.
///
/// The probe is driven from outside: as long as `pending` names a key, the
/// caller looks the key up and hands the answer to `record`; once it names
/// none, `count` holds the result.
#[derive(Clone, Copy, Debug)]
pub struct KeyProbe {
    state: ProbeState,
}

impl View for KeyProbe {
    type V = ProbeState;

    closed spec fn view(&self) -> ProbeState {
        self.state
    }
}

impl KeyProbe {
    #[verifier::type_invariant]
    spec fn well_formed(&self) -> bool {
        self.state.wf()
    }

    /// Starts a probe.
    pub fn new(starting_hint: u64) -> (probe: KeyProbe)
        ensures
            probe@ == ProbeState::start(starting_hint),
    {
        proof {
            ProbeState::lemma_start(starting_hint);
        }
        let guess_max: u64 = if starting_hint > MAX_SQUARED_HINT {
            u64::MAX
        } else if starting_hint < 1 {
            1
        } else {
            assert(starting_hint * starting_hint <= u64::MAX) by (nonlinear_arith)
                requires
                    1 <= starting_hint <= 0xFFFF_FFFF,
            ;
            starting_hint * starting_hint
        };
        KeyProbe { state: ProbeState { min: 0, max: u64::MAX, guess_max, cur_val: starting_hint } }
    }

    /// What the probe knows and what it asks next.
    pub fn state(&self) -> (state: ProbeState)
        ensures
            state == self@,
            state.wf(),
    {
        proof {
            use_type_invariant(self);
        }
        self.state
    }

    /// The key to ask for next, or `None` once the count is known.
    pub fn pending(&self) -> (key: Option<u64>)
        ensures
            key == (if self@.finished() {
                None
            } else {
                Some(self@.cur_val)
            }),
    {
        if self.state.min == self.state.max {
            None
        } else {
            Some(self.state.cur_val)
        }
    }

    /// The count, once the bounds have met.
    pub fn count(&self) -> (n: Option<u64>)
        ensures
            n == (if self@.finished() {
                Some(self@.min)
            } else {
                None
            }),
    {
        if self.state.min == self.state.max {
            Some(self.state.min)
        } else {
            None
        }
    }

    /// Takes in whether the pending key was found. Where no key is pending,
    /// the answer is ignored.
    pub fn record(&mut self, found: bool)
        ensures
            final(self)@ == (if old(self)@.finished() {
                old(self)@
            } else {
                old(self)@.after(found)
            }),
            final(self)@.wf(),
            !old(self)@.finished() ==> final(self)@.remaining() < old(self)@.remaining()
                <= MAX_QUESTIONS,
    {
        proof {
            use_type_invariant(&*self);
        }
        let ProbeState { min, max, guess_max, cur_val } = self.state;
        if min == max {
            return ;
        }
        proof {
            self.state.lemma_after(found);
        }
        let (min, max, guess_max): (u64, u64, u64) = if found {
            (
                if cur_val < max {
                    cur_val + 1
                } else {
                    max
                },
                max,
                if guess_max < max / 2 {
                    guess_max * 2
                } else {
                    max
                },
            )
        } else {
            (min, cur_val, cur_val)
        };
        *self = KeyProbe {
            state: ProbeState { min, max, guess_max, cur_val: (guess_max - min) / 2 + min },
        };
    }
}

/// For a table that holds exactly the keys `0..n`, a probe from any hint
/// arrives at `n`, and it does so after at most `MAX_QUESTIONS` answers.
pub proof fn lemma_probe_finds_count(starting_hint: u64, n: u64)
    ensures
        ProbeState::start(starting_hint).dense_outcome(n) == n,
        ProbeState::start(starting_hint).remaining() <= MAX_QUESTIONS,
{
    ProbeState::lemma_start(starting_hint);
    ProbeState::start(starting_hint).lemma_after(true);
    ProbeState::start(starting_hint).lemma_dense_outcome(n);
}

} // verus!
