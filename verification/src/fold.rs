//! Sums of products that are reduced once.
use crate::arith;
use crate::domain::repeated;
use crate::field::Field;
use vstd::prelude::*;

verus! {

/// Accumulates rows of terms against powers or factors. Products go to wide
/// accumulators, which are reduced once at the end; terms with power one are added up
/// directly.
pub struct ReusablePowerFold<F: Field> {
    pub accumulators: Vec<F::Accumulator>,
    pub terms: Vec<F>,
    pub factors: Vec<F>,
    pub addends: Vec<F>,
    /// A bound on the carry of each accumulator.
    pub folded: Ghost<nat>,
}

impl<F: Field> ReusablePowerFold<F> {
    pub open spec fn wf(self) -> bool {
        &&& self.terms@.len() == self.accumulators@.len()
        &&& self.factors@.len() == self.accumulators@.len()
        &&& self.addends@.len() == self.accumulators@.len()
        &&& forall|i: int|
            0 <= i < self.accumulators@.len() ==> F::carries(#[trigger] self.accumulators@[i])
                <= self.folded@
    }

    pub open spec fn len(self) -> nat {
        self.accumulators@.len()
    }

    /// What row `i` has accumulated.
    pub open spec fn total(self, i: int) -> int {
        F::accumulated(self.accumulators@[i]) + self.addends@[i].val()
    }

    /// Empty accumulators for a number of rows.
    pub fn new(len: usize) -> (r: Self)
        ensures
            r.wf(),
            r.len() == len,
            r.folded@ == 0,
            forall|i: int| 0 <= i < len ==> #[trigger] r.total(i) == 0,
    {
        let mut r = ReusablePowerFold {
            accumulators: Vec::new(),
            terms: repeated(F::zero(), len),
            factors: repeated(F::zero(), len),
            addends: repeated(F::zero(), len),
            folded: Ghost(0nat),
        };
        let mut i: usize = 0;
        while i < len
            invariant
                i <= len,
                r.accumulators@.len() == i,
                r.terms@.len() == len,
                r.factors@.len() == len,
                r.addends@.len() == len,
                r.folded@ == 0,
                forall|k: int| 0 <= k < len ==> (#[trigger] r.addends@[k]).val() == 0,
                forall|k: int|
                    0 <= k < i ==> F::accumulated(#[trigger] r.accumulators@[k]) == 0 && F::carries(
                        r.accumulators@[k],
                    ) == 0,
            decreases len - i,
        {
            r.accumulators.push(F::accumulator());
            i += 1;
        }
        r
    }

    /// Makes what was accumulated before unreachable.
    pub fn reset(&mut self)
        requires
            old(self).wf(),
        ensures
            final(self).wf(),
            final(self).len() == old(self).len(),
            final(self).folded@ == 0,
            forall|i: int| 0 <= i < final(self).len() ==> #[trigger] final(self).total(i) == 0,
    {
        let n: usize = self.accumulators.len();
        let mut i: usize = 0;
        while i < n
            invariant
                i <= n,
                self.accumulators@.len() == n,
                self.terms@.len() == n,
                self.factors@.len() == n,
                self.addends@.len() == n,
                forall|k: int|
                    0 <= k < i ==> F::accumulated(#[trigger] self.accumulators@[k]) == 0 && F::carries(
                        self.accumulators@[k],
                    ) == 0 && self.addends@[k].val() == 0,
            decreases n - i,
        {
            self.accumulators.set(i, F::accumulator());
            self.addends.set(i, F::zero());
            i += 1;
        }
        self.folded = Ghost(0nat);
    }

    /// Adds the terms, each multiplied by `power`.
    pub fn accumulate(&mut self, power: F)
        requires
            old(self).wf(),
            old(self).folded@ < u64::MAX,
        ensures
            final(self).wf(),
            final(self).len() == old(self).len(),
            final(self).folded@ <= old(self).folded@ + 1,
            final(self).terms@ == old(self).terms@,
            forall|i: int|
                0 <= i < final(self).len() ==> arith::eqm(
                    #[trigger] final(self).total(i),
                    old(self).total(i) + old(self).terms@[i].val() * power.val(),
                    F::order(),
                ),
    {
        if power.equals(&F::one()) {
            proof {
                assert forall|i: int| 0 <= i < self.len() implies self.terms@[i].val()
                    * power.val() == self.terms@[i].val() by {
                    vstd::arithmetic::mul::lemma_mul_basics(self.terms@[i].val());
                }
            }
            self.accumulate_addends();
            return ;
        }
        let n: usize = self.accumulators.len();
        let ghost old_self = *self;
        let mut i: usize = 0;
        while i < n
            invariant
                i <= n,
                old_self == *old(self),
                old_self.wf(),
                old_self.folded@ < u64::MAX,
                n == old_self.len(),
                self.accumulators@.len() == n,
                self.terms == old_self.terms,
                self.factors == old_self.factors,
                self.addends == old_self.addends,
                self.folded == old_self.folded,
                forall|k: int|
                    i <= k < n ==> #[trigger] self.accumulators@[k] == old_self.accumulators@[k],
                forall|k: int|
                    0 <= k < i ==> F::accumulated(#[trigger] self.accumulators@[k]) == (
                    F::accumulated(old_self.accumulators@[k]) + old_self.terms@[k].val() * power.val()) % F::order() && F::carries(
                        self.accumulators@[k],
                    ) <= old_self.folded@ + 1,
            decreases n - i,
        {
            let mut acc = self.accumulators[i];
            assert(F::carries(old_self.accumulators@[i as int]) <= old_self.folded@);
            F::mul_accumulate(&mut acc, &self.terms[i], &power);
            self.accumulators.set(i, acc);
            i += 1;
        }
        self.folded = Ghost((self.folded@ + 1) as nat);
        proof {
            F::lemma_order();
            assert forall|k: int| 0 <= k < n implies arith::eqm(
                #[trigger] self.total(k),
                old_self.total(k) + old_self.terms@[k].val() * power.val(),
                F::order(),
            ) by {
                let s = F::accumulated(old_self.accumulators@[k]);
                let t = old_self.terms@[k].val() * power.val();
                let a = old_self.addends@[k].val();
                arith::lemma_mod_range(s + t, F::order());
                arith::lemma_eqm_add((s + t) % F::order(), s + t, a, a, F::order());
            }
        }
    }

    /// Adds the terms.
    pub fn accumulate_addends(&mut self)
        requires
            old(self).wf(),
        ensures
            final(self).wf(),
            final(self).len() == old(self).len(),
            final(self).folded@ == old(self).folded@,
            final(self).terms@ == old(self).terms@,
            forall|i: int|
                0 <= i < final(self).len() ==> arith::eqm(
                    #[trigger] final(self).total(i),
                    old(self).total(i) + old(self).terms@[i].val(),
                    F::order(),
                ),
    {
        let n: usize = self.addends.len();
        let ghost old_self = *self;
        let ghost p = F::order();
        proof {
            F::lemma_order();
        }
        let mut i: usize = 0;
        while i < n
            invariant
                i <= n,
                p == F::order(),
                p > 2,
                old_self == *old(self),
                old_self.wf(),
                n == old_self.len(),
                self.accumulators == old_self.accumulators,
                self.terms == old_self.terms,
                self.factors == old_self.factors,
                self.folded == old_self.folded,
                self.addends@.len() == n,
                forall|k: int|
                    i <= k < n ==> #[trigger] self.addends@[k] == old_self.addends@[k],
                forall|k: int|
                    0 <= k < i ==> arith::eqm(
                        (#[trigger] self.addends@[k]).val(),
                        old_self.addends@[k].val() + old_self.terms@[k].val(),
                        p,
                    ),
            decreases n - i,
        {
            let sum = self.addends[i].add(self.terms[i]);
            proof {
                arith::lemma_mod_range(
                    self.addends@[i as int].val() + self.terms@[i as int].val(),
                    p,
                );
            }
            self.addends.set(i, sum);
            i += 1;
        }
        proof {
            assert forall|k: int| 0 <= k < n implies arith::eqm(
                #[trigger] self.total(k),
                old_self.total(k) + old_self.terms@[k].val(),
                p,
            ) by {
                let s = F::accumulated(old_self.accumulators@[k]);
                assert(self.addends@[k].val() == self.addends@[k].val());
                arith::lemma_eqm_add(
                    s,
                    s,
                    self.addends@[k].val(),
                    old_self.addends@[k].val() + old_self.terms@[k].val(),
                    p,
                );
            }
        }
    }

    /// Adds the terms, each multiplied by its factor.
    pub fn accumulate_products(&mut self)
        requires
            old(self).wf(),
            old(self).folded@ < u64::MAX,
        ensures
            final(self).wf(),
            final(self).len() == old(self).len(),
            final(self).folded@ == old(self).folded@ + 1,
            forall|i: int|
                0 <= i < final(self).len() ==> arith::eqm(
                    #[trigger] final(self).total(i),
                    old(self).total(i) + old(self).factors@[i].val() * old(self).terms@[i].val(),
                    F::order(),
                ),
    {
        let n: usize = self.accumulators.len();
        let ghost old_self = *self;
        let mut i: usize = 0;
        while i < n
            invariant
                i <= n,
                old_self == *old(self),
                old_self.wf(),
                old_self.folded@ < u64::MAX,
                n == old_self.len(),
                self.accumulators@.len() == n,
                self.terms == old_self.terms,
                self.factors == old_self.factors,
                self.addends == old_self.addends,
                self.folded == old_self.folded,
                forall|k: int|
                    i <= k < n ==> #[trigger] self.accumulators@[k] == old_self.accumulators@[k],
                forall|k: int|
                    0 <= k < i ==> F::accumulated(#[trigger] self.accumulators@[k]) == (
                    F::accumulated(old_self.accumulators@[k]) + old_self.factors@[k].val() * old_self.terms@[k].val()) % F::order() && F::carries(
                        self.accumulators@[k],
                    ) <= old_self.folded@ + 1,
            decreases n - i,
        {
            let mut acc = self.accumulators[i];
            assert(F::carries(old_self.accumulators@[i as int]) <= old_self.folded@);
            F::mul_accumulate(&mut acc, &self.factors[i], &self.terms[i]);
            self.accumulators.set(i, acc);
            i += 1;
        }
        self.folded = Ghost((self.folded@ + 1) as nat);
        proof {
            F::lemma_order();
            assert forall|k: int| 0 <= k < n implies arith::eqm(
                #[trigger] self.total(k),
                old_self.total(k) + old_self.factors@[k].val() * old_self.terms@[k].val(),
                F::order(),
            ) by {
                let s = F::accumulated(old_self.accumulators@[k]);
                let t = old_self.factors@[k].val() * old_self.terms@[k].val();
                let a = old_self.addends@[k].val();
                arith::lemma_mod_range(s + t, F::order());
                arith::lemma_eqm_add((s + t) % F::order(), s + t, a, a, F::order());
            }
        }
    }

    /// Writes what was accumulated.
    pub fn finish_into(&self, output: &mut [F])
        requires
            self.wf(),
            old(output)@.len() == self.len(),
        ensures
            final(output)@.len() == self.len(),
            forall|i: int|
                0 <= i < self.len() ==> (#[trigger] final(output)@[i]).val() == self.total(i)
                    % F::order(),
    {
        let n: usize = output.len();
        let ghost p = F::order();
        proof {
            F::lemma_order();
        }
        let mut i: usize = 0;
        while i < n
            invariant
                i <= n,
                p == F::order(),
                p > 2,
                self.wf(),
                n == self.len(),
                output@.len() == n,
                forall|k: int|
                    0 <= k < i ==> (#[trigger] output@[k]).val() == self.total(k) % p,
            decreases n - i,
        {
            let reduced = F::reduce(self.accumulators[i]);
            let sum = reduced.add(self.addends[i]);
            output[i] = sum;
            i += 1;
        }
    }
}

} // verus!
