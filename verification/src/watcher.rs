//! How filesystem events keep the index up to date.

use vstd::prelude::*;

verus! {

/// What kind of change an event reports.
#[derive(Debug, Clone, Copy, PartialEq, Eq)]
pub enum EventKind {
    Create,
    Modify,
    Remove,
    Other,
}

/// What becomes of the paths of an event.
#[derive(Debug, Clone, Copy, PartialEq, Eq)]
pub enum IndexAction {
    /// They are indexed again.
    Upsert,
    /// They leave the index.
    Remove,
    /// Nothing.
    Ignore,
}

/// What becomes of the paths of an event.
pub fn handle_event(kind: EventKind) -> (a: IndexAction)
    ensures
        a == match kind {
            EventKind::Create => IndexAction::Upsert,
            EventKind::Modify => IndexAction::Upsert,
            EventKind::Remove => IndexAction::Remove,
            EventKind::Other => IndexAction::Ignore,
        },
{
    match kind {
        EventKind::Create => IndexAction::Upsert,
        EventKind::Modify => IndexAction::Upsert,
        EventKind::Remove => IndexAction::Remove,
        EventKind::Other => IndexAction::Ignore,
    }
}

/// Counts events up to the next retrain.
pub struct RetrainCounter {
    count: usize,
    threshold: usize,
}

/// The count after one more event, and whether a retrain is due.
pub open spec fn counted_event(count: nat, threshold: nat) -> (nat, bool) {
    if count + 1 >= threshold {
        (0, true)
    } else {
        (count + 1, false)
    }
}

/// The count after `n` events.
pub open spec fn count_after(threshold: nat, n: nat) -> nat
    decreases n,
{
    if n == 0 {
        0
    } else {
        counted_event(count_after(threshold, (n - 1) as nat), threshold).0
    }
}

impl RetrainCounter {
    pub closed spec fn count(&self) -> nat {
        self.count as nat
    }

    pub closed spec fn threshold(&self) -> nat {
        self.threshold as nat
    }

    #[verifier::type_invariant]
    spec fn below(&self) -> bool {
        self.count == 0 || self.count < self.threshold
    }

    pub fn new(threshold: usize) -> (c: RetrainCounter)
        ensures
            c.count() == 0,
            c.threshold() == threshold,
    {
        RetrainCounter { count: 0, threshold }
    }

    /// Counts an event. Whether a retrain is due.
    pub fn note(&mut self) -> (due: bool)
        ensures
            final(self).threshold() == old(self).threshold(),
            (final(self).count(), due) == counted_event(old(self).count(), old(self).threshold()),
    {
        proof {
            use_type_invariant(&*self);
        }
        let threshold = self.threshold;
        if threshold <= 1 || self.count >= threshold - 1 {
            *self = RetrainCounter { count: 0, threshold };
            true
        } else {
            *self = RetrainCounter { count: self.count + 1, threshold };
            false
        }
    }
}

/// A retrain is due at every `threshold`-th event and at no other; with a
/// threshold of 0, at every event.
pub proof fn law_retrain_at_every_threshold(threshold: nat, n: nat)
    ensures
        threshold >= 1 ==> count_after(threshold, n) == n % threshold,
        threshold >= 1 ==> (counted_event(count_after(threshold, n), threshold).1 <==> (n + 1)
            % threshold == 0),
        threshold == 0 ==> counted_event(count_after(threshold, n), threshold).1,
    decreases n,
{
    if n > 0 {
        law_retrain_at_every_threshold(threshold, (n - 1) as nat);
    }
    if threshold >= 1 {
        let t = threshold as int;
        let m = n as int;
        if n > 0 {
            let before = (m - 1) % t;
            assert(m % t == if before + 1 == t {
                0
            } else {
                before + 1
            }) by {
                vstd::arithmetic::div_mod::lemma_fundamental_div_mod(m - 1, t);
                let q = (m - 1) / t;
                if before + 1 == t {
                    assert(m == t * (q + 1)) by (nonlinear_arith)
                        requires
                            m - 1 == t * q + before,
                            before + 1 == t,
                    ;
                    vstd::arithmetic::div_mod::lemma_fundamental_div_mod_converse(m, t, q + 1, 0);
                } else {
                    vstd::arithmetic::div_mod::lemma_fundamental_div_mod_converse(
                        m,
                        t,
                        q,
                        before + 1,
                    );
                }
            }
        } else {
            vstd::arithmetic::div_mod::lemma_small_mod(0, threshold);
        }
        let here = m % t;
        vstd::arithmetic::div_mod::lemma_fundamental_div_mod(m, t);
        vstd::arithmetic::div_mod::lemma_mod_bound(m, t);
        let q = m / t;
        assert(q * t == t * q) by (nonlinear_arith);
        if here + 1 == t {
            assert(m + 1 == t * (q + 1)) by (nonlinear_arith)
                requires
                    m == t * q + here,
                    here + 1 == t,
            ;
            vstd::arithmetic::div_mod::lemma_fundamental_div_mod_converse(m + 1, t, q + 1, 0);
        } else {
            vstd::arithmetic::div_mod::lemma_fundamental_div_mod_converse(m + 1, t, q, here + 1);
        }
    }
}

} // verus!
