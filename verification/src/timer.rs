use crate::clock::Timestamp;
use vstd::prelude::*;

verus! {

/// A token and the time from which it is due.
pub struct Timeout<T> {
    pub deadline: Timestamp,
    pub token: T,
}

/// A queue of tokens that become due at their deadlines. A token cannot
/// be taken back once it is scheduled.
pub struct Timer<T> {
    pub timeouts: Vec<Timeout<T>>,
}

impl<T> View for Timer<T> {
    type V = Seq<Timeout<T>>;

    /// The scheduled tokens, in the order in which they were scheduled.
    open spec fn view(&self) -> Seq<Timeout<T>> {
        self.timeouts@
    }
}

/// The time `delay` after `now`, or the last time there is if that is earlier.
pub open spec fn deadline_after(now: Timestamp, delay: u128) -> Timestamp {
    if now + delay > u128::MAX {
        u128::MAX
    } else {
        (now + delay) as u128
    }
}

/// Whether `i` is the place of the token that is due first: none has an
/// earlier deadline, and of those with the same deadline it was scheduled first.
pub open spec fn is_earliest<T>(timeouts: Seq<Timeout<T>>, i: int) -> bool {
    &&& 0 <= i < timeouts.len()
    &&& forall|j: int|
        0 <= j < timeouts.len() ==> timeouts[i].deadline <= (#[trigger] timeouts[j]).deadline
    &&& forall|j: int| 0 <= j < i ==> timeouts[i].deadline < (#[trigger] timeouts[j]).deadline
}

impl<T> Timer<T> {
    /// A timer with nothing scheduled.
    pub fn new() -> (timer: Timer<T>)
        ensures
            timer@.len() == 0,
    {
        Timer { timeouts: Vec::new() }
    }

    /// Whether nothing is scheduled.
    pub fn is_empty(&self) -> (empty: bool)
        ensures
            empty == (self@.len() == 0),
    {
        self.timeouts.len() == 0
    }

    /// Number of scheduled tokens.
    pub fn len(&self) -> (n: usize)
        ensures
            n == self@.len(),
    {
        self.timeouts.len()
    }

    /// Schedules `token` to become due `delay` after `now`.
    pub fn schedule_in(&mut self, delay: u128, token: T, now: Timestamp)
        ensures
            final(self)@ == old(self)@.push(
                Timeout { deadline: deadline_after(now, delay), token },
            ),
    {
        self.timeouts.push(Timeout { deadline: now.saturating_add(delay), token });
    }

    /// The place of the token that is due first, if anything is scheduled.
    fn earliest(&self) -> (found: Option<usize>)
        ensures
            match found {
                Some(i) => is_earliest(self@, i as int),
                None => self@.len() == 0,
            },
    {
        if self.timeouts.len() == 0 {
            return None;
        }
        let mut best: usize = 0;
        let mut i: usize = 1;
        while i < self.timeouts.len()
            invariant
                1 <= i <= self.timeouts@.len(),
                best < i,
                is_earliest(self.timeouts@.take(i as int), best as int),
            decreases self.timeouts@.len() - i,
        {
            proof {
                let before = self.timeouts@.take(i as int);
                let after = self.timeouts@.take(i + 1);
                assert forall|j: int| 0 <= j < i implies #[trigger] after[j] == before[j] by {}
            }
            if self.timeouts[i].deadline < self.timeouts[best].deadline {
                best = i;
            }
            i += 1;
        }
        proof {
            assert(self.timeouts@.take(i as int) =~= self.timeouts@);
        }
        Some(best)
    }

    /// The deadline of the token that is due first, if anything is scheduled.
    pub fn next_deadline(&self) -> (deadline: Option<Timestamp>)
        ensures
            match deadline {
                Some(d) => exists|i: int| #[trigger] is_earliest(self@, i) && self@[i].deadline == d,
                None => self@.len() == 0,
            },
    {
        match self.earliest() {
            Some(i) => Some(self.timeouts[i].deadline),
            None => None,
        }
    }

    /// Takes out the token that is due first, if its deadline is `now` or
    /// earlier. Otherwise nothing changes.
    pub fn next(&mut self, now: Timestamp) -> (due: Option<T>)
        ensures
            match due {
                Some(token) => exists|i: int|
                    {
                        &&& #[trigger] is_earliest(old(self)@, i)
                        &&& old(self)@[i].deadline <= now
                        &&& old(self)@[i].token == token
                        &&& final(self)@ == old(self)@.remove(i)
                    },
                None => final(self)@ == old(self)@ && forall|i: int|
                    is_earliest(old(self)@, i) ==> old(self)@[i].deadline > now,
            },
    {
        match self.earliest() {
            Some(i) => {
                if self.timeouts[i].deadline <= now {
                    let timeout = self.timeouts.remove(i);
                    Some(timeout.token)
                } else {
                    proof {
                        assert forall|j: int| is_earliest(self@, j) implies self@[j].deadline
                            > now by {
                            assert(self@[j].deadline <= self@[i as int].deadline);
                            assert(self@[i as int].deadline <= self@[j].deadline);
                        }
                    }
                    None
                }
            },
            None => None,
        }
    }
}

} // verus!
