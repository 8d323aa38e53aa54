use std::collections::VecDeque;
use vstd::prelude::*;

use super::times::Times;

verus! {

/// Round-trip delays at or above this many microseconds (16 seconds) never make a `Times` the best one.
pub const BEST_DELAY_LIMIT: i128 = 16_000_000;

/// Whether `times[index]` is the best entry: its delay is below the limit, no entry has a smaller delay, and every
/// earlier entry has a larger one.
pub open spec fn is_best(times: Seq<Times>, index: int) -> bool {
    &&& 0 <= index < times.len()
    &&& times[index].delay_spec() < BEST_DELAY_LIMIT
    &&& forall|j: int| 0 <= j < times.len() ==> times[index].delay_spec() <= #[trigger] times[j].delay_spec()
    &&& forall|j: int| 0 <= j < index ==> times[index].delay_spec() < #[trigger] times[j].delay_spec()
}

/// The best entry of a list of `Times`: the first one with the smallest round-trip delay, among those whose delay is
/// below `BEST_DELAY_LIMIT`.
pub open spec fn best_of(times: Seq<Times>) -> Option<Times> {
    if exists|index: int| is_best(times, index) {
        Some(times[choose|index: int| is_best(times, index)])
    } else {
        None
    }
}

/// Collect several `Times` in order to statistically determine the best NTP offset/delay pair to use to correct our
/// system time.
#[derive(Debug)]
pub struct TimesShiftRegister {
    last_best: Option<Times>,
    /// How long it takes to measure system time, in nanoseconds.
    precision: u64,
    max_amount: usize,
    times: VecDeque<Times>,
}

/// The entries of a shift register after adding `times`: it goes to the front, and the oldest entry leaves when the
/// register held more than `max_amount` entries.
pub open spec fn shifted_in(entries: Seq<Times>, max_amount: nat, times: Times) -> Seq<Times> {
    seq![times] + if entries.len() > max_amount {
        entries.drop_last()
    } else {
        entries
    }
}

/// How a register relates to the register it was before `times` was added: `times` is shifted in, and when the best
/// entry changed, the former best entry becomes the last best one.
pub open spec fn added(before: TimesShiftRegister, after: TimesShiftRegister, times: Times) -> bool {
    &&& after.wf()
    &&& after.entries() == shifted_in(before.entries(), before.max_amount_spec(), times)
    &&& after.last_best_spec() == if best_of(before.entries()) is Some && best_of(before.entries()) != best_of(
        after.entries(),
    ) {
        best_of(before.entries())
    } else {
        before.last_best_spec()
    }
    &&& after.precision_spec() == before.precision_spec()
    &&& after.max_amount_spec() == before.max_amount_spec()
}

impl TimesShiftRegister {
    /// The stored entries, newest first.
    pub closed spec fn entries(&self) -> Seq<Times> {
        self.times@
    }

    /// The best entry before the most recent change of best entry.
    pub closed spec fn last_best_spec(&self) -> Option<Times> {
        self.last_best
    }

    pub closed spec fn precision_spec(&self) -> u64 {
        self.precision
    }

    pub closed spec fn max_amount_spec(&self) -> nat {
        self.max_amount as nat
    }

    /// Every stored entry has a delay that can be computed, and the register holds at most one entry more than its
    /// maximum amount.
    pub closed spec fn wf(&self) -> bool {
        &&& forall|i: int| 0 <= i < self.times@.len() ==> (#[trigger] self.times@[i]).delay_fits()
        &&& self.times@.len() <= self.max_amount + 1
    }

    /// Creates an empty register. `precision` is how long reading the system time takes, in nanoseconds.
    pub fn new(max_amount: usize, precision: u64) -> (register: Self)
        ensures
            register.wf(),
            register.entries() == Seq::<Times>::empty(),
            register.last_best_spec() == None::<Times>,
            register.precision_spec() == precision,
            register.max_amount_spec() == max_amount,
    {
        TimesShiftRegister { last_best: None, precision, max_amount, times: VecDeque::new() }
    }

    /// Add a `Times` to the shift register.
    pub fn add_time(&mut self, times: Times)
        requires
            old(self).wf(),
            times.delay_fits(),
        ensures
            added(*old(self), *final(self), times),
    {
        let last_best: Option<Times> = match self.best() {
            Some(best) => Some(*best),
            None => None,
        };

        let ghost before = self.times@;
        if self.times.len() > self.max_amount {
            self.times.pop_back();
        }
        self.times.push_front(times);
        proof {
            let expected = shifted_in(before, self.max_amount as nat, times);
            assert(self.times@ =~= expected);
            assert forall|i: int| 0 <= i < self.times@.len() implies (#[trigger] self.times@[i]).delay_fits() by {
                if i > 0 {
                    assert(self.times@[i] == before[i - 1]);
                }
            }
        }

        let best: Option<Times> = match self.best() {
            Some(best) => Some(*best),
            None => None,
        };

        let changed = match (last_best, best) {
            (Some(a), Some(b)) => a != b,
            (Some(_), None) => true,
            _ => false,
        };
        if changed {
            self.last_best = last_best;
        }
    }

    /// Returns the best `Times` for use in correcting system time.
    pub fn best(&self) -> (best: Option<&Times>)
        requires
            self.wf(),
        ensures
            best matches Some(times) ==> best_of(self.entries()) == Some(*times),
            best is None ==> best_of(self.entries()) is None,
    {
        let mut minimum: i128 = BEST_DELAY_LIMIT;
        let mut index: Option<usize> = None;
        let n = self.times.len();
        for k in 0..n
            invariant
                n == self.times@.len(),
                self.wf(),
                index is None ==> minimum == BEST_DELAY_LIMIT && forall|j: int|
                    0 <= j < k ==> (#[trigger] self.times@[j]).delay_spec() >= BEST_DELAY_LIMIT,
                index matches Some(i) ==> i < k && minimum == self.times@[i as int].delay_spec() && minimum
                    < BEST_DELAY_LIMIT && (forall|j: int|
                    0 <= j < k ==> minimum <= (#[trigger] self.times@[j]).delay_spec()) && (forall|j: int|
                    0 <= j < i ==> minimum < (#[trigger] self.times@[j]).delay_spec()),
        {
            let entry = &self.times[k];
            proof {
                assert(self.times@[k as int].delay_fits());
            }
            let delay = entry.delay();
            if delay < minimum {
                minimum = delay;
                index = Some(k);
            }
        }
        match index {
            Some(i) => {
                proof {
                    assert(is_best(self.times@, i as int));
                    lemma_best_unique(self.times@, i as int);
                }
                Some(&self.times[i])
            },
            None => {
                proof {
                    assert(!exists|index: int| is_best(self.times@, index));
                }
                None
            },
        }
    }

    pub fn last_best(&self) -> (last_best: Option<&Times>)
        ensures
            last_best matches Some(times) ==> self.last_best_spec() == Some(*times),
            last_best is None ==> self.last_best_spec() is None,
    {
        self.last_best.as_ref()
    }

    /// How long reading the system time takes, in nanoseconds.
    pub fn get_precision(&self) -> (precision: u64)
        ensures
            precision == self.precision_spec(),
    {
        self.precision
    }

    /// How many entries the register holds.
    pub fn len(&self) -> (count: usize)
        ensures
            count == self.entries().len(),
    {
        self.times.len()
    }

    /// The entry at `index`, newest first.
    pub fn get(&self, index: usize) -> (times: &Times)
        requires
            index < self.entries().len(),
        ensures
            *times == self.entries()[index as int],
    {
        &self.times[index]
    }
}

/// At most one index is the best one.
proof fn lemma_best_unique(times: Seq<Times>, index: int)
    requires
        is_best(times, index),
    ensures
        best_of(times) == Some(times[index]),
{
    let chosen = choose|i: int| is_best(times, i);
    assert(is_best(times, chosen));
    if chosen < index {
        assert(times[index].delay_spec() < times[chosen].delay_spec());
    } else if chosen > index {
        assert(times[chosen].delay_spec() < times[index].delay_spec());
    }
}

/// The best entry has the smallest delay of all entries, and that delay is below the limit.
pub proof fn best_is_minimal(times: Seq<Times>)
    ensures
        best_of(times) matches Some(best) ==> (best.delay_spec() < BEST_DELAY_LIMIT && times.contains(best) && forall|
            j: int,
        | 0 <= j < times.len() ==> best.delay_spec() <= #[trigger] times[j].delay_spec()),
        best_of(times) is None ==> forall|j: int|
            0 <= j < times.len() ==> #[trigger] times[j].delay_spec() >= BEST_DELAY_LIMIT,
{
    if exists|index: int| is_best(times, index) {
        let index = choose|index: int| is_best(times, index);
        assert(times[index] == times[index]);
    } else {
        assert forall|j: int| 0 <= j < times.len() implies #[trigger] times[j].delay_spec() >= BEST_DELAY_LIMIT by {
            if times[j].delay_spec() < BEST_DELAY_LIMIT {
                lemma_minimum_exists(times, j);
            }
        }
    }
}

/// When some entry's delay is below the limit, a best entry exists.
proof fn lemma_minimum_exists(times: Seq<Times>, witness: int)
    requires
        0 <= witness < times.len(),
        times[witness].delay_spec() < BEST_DELAY_LIMIT,
    ensures
        exists|index: int| is_best(times, index),
    decreases times.len(),
{
    let n = times.len() as int;
    let prefix = times.drop_last();
    let last = times[n - 1];
    if exists|j: int| 0 <= j < n - 1 && times[j].delay_spec() < BEST_DELAY_LIMIT {
        let j = choose|j: int| 0 <= j < n - 1 && times[j].delay_spec() < BEST_DELAY_LIMIT;
        assert(prefix[j] == times[j]);
        lemma_minimum_exists(prefix, j);
        let b = choose|index: int| is_best(prefix, index);
        assert(forall|i: int| 0 <= i < n - 1 ==> prefix[i] == times[i]);
        if last.delay_spec() < prefix[b].delay_spec() {
            assert(is_best(times, n - 1));
        } else {
            assert(is_best(times, b));
        }
    } else {
        assert(is_best(times, n - 1));
    }
}

} // verus!
