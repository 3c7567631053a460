use vstd::prelude::*;
use crate::transaction::Transaction;
use crate::transaction::tx_valid;

verus! {

/// The holding area for unconfirmed transactions. Every stored transaction
/// passed validation at insertion time.
pub struct MemPool {
    pub transactions: Vec<Transaction>,
}

impl MemPool {
    /// Every stored transaction is valid.
    pub open spec fn wf(self) -> bool {
        forall|i: int| 0 <= i < self.transactions@.len() ==> tx_valid(self.transactions@[i])
    }

    /// Builds an empty pool.
    pub fn new() -> (r: MemPool)
        ensures
            r.transactions@.len() == 0,
            r.wf(),
    {
        MemPool { transactions: Vec::new() }
    }

    /// Validates `tx`; appends it and returns true on success, leaves the pool
    /// unchanged and returns false otherwise.
    pub fn add_transaction(&mut self, tx: Transaction) -> (r: bool)
        ensures
            r == tx_valid(tx),
            r ==> final(self).transactions@ == old(self).transactions@.push(tx),
            !r ==> *final(self) == *old(self),
            old(self).wf() ==> final(self).wf(),
    {
        if tx.is_valid() {
            self.transactions.push(tx);
            true
        } else {
            false
        }
    }

    /// Removes and returns up to `count` transactions, most recently added
    /// first, fewer when the pool is smaller.
    pub fn get_transactions(&mut self, count: usize) -> (r: Vec<Transaction>)
        ensures
            count <= old(self).transactions@.len() ==> r@.len() == count,
            count > old(self).transactions@.len() ==> r@.len() == old(
                self,
            ).transactions@.len(),
            final(self).transactions@ == old(self).transactions@.take(
                old(self).transactions@.len() - r@.len(),
            ),
            forall|j: int|
                0 <= j < r@.len() ==> r@[j] == old(self).transactions@[old(
                    self,
                ).transactions@.len() - 1 - j],
            old(self).wf() ==> final(self).wf(),
    {
        let ghost old_len = self.transactions@.len() as int;
        let mut r: Vec<Transaction> = Vec::new();
        let mut i: usize = 0;
        while i < count && self.transactions.len() > 0
            invariant
                i <= count,
                r@.len() == i,
                i <= old_len,
                old_len == old(self).transactions@.len(),
                self.transactions@ == old(self).transactions@.take(old_len - i),
                forall|j: int|
                    0 <= j < i ==> r@[j] == old(self).transactions@[old_len - 1 - j],
            decreases count - i,
        {
            match self.transactions.pop() {
                Some(tx) => {
                    proof {
                        assert(self.transactions@ =~= old(self).transactions@.take(
                            old_len - i - 1,
                        ));
                    }
                    r.push(tx);
                },
                None => {
                    proof {
                        assert(false);
                    }
                },
            }
            i = i + 1;
        }
        proof {
            assert(self.transactions@ =~= old(self).transactions@.take(old_len - r@.len()));
        }
        r
    }

    /// Returns previously extracted transactions to the pool, undoing a LIFO
    /// extraction: pushing them back newest-extracted first restores the
    /// original order.
    pub fn restore_transactions(&mut self, drained: Vec<Transaction>)
        ensures
            final(self).transactions@ == old(self).transactions@ + drained@.reverse(),
            old(self).wf() && (forall|i: int|
                0 <= i < drained@.len() ==> tx_valid(#[trigger] drained@[i])) ==> final(self).wf(),
    {
        let ghost dinit = drained@;
        let mut drained = drained;
        proof {
            assert(dinit.take(dinit.len() as int) =~= dinit);
            assert(self.transactions@ =~= old(self).transactions@ + dinit.subrange(
                dinit.len() as int,
                dinit.len() as int,
            ).reverse());
        }
        while drained.len() > 0
            invariant
                drained@.len() <= dinit.len(),
                drained@ == dinit.take(drained@.len() as int),
                self.transactions@ == old(self).transactions@ + dinit.subrange(
                    drained@.len() as int,
                    dinit.len() as int,
                ).reverse(),
            decreases drained@.len(),
        {
            let ghost l = drained@.len() as int;
            match drained.pop() {
                Some(tx) => {
                    proof {
                        assert(tx == dinit[l - 1]);
                        assert(drained@ =~= dinit.take(l - 1));
                    }
                    self.transactions.push(tx);
                    proof {
                        assert(dinit.subrange(l - 1, dinit.len() as int).reverse()
                            =~= dinit.subrange(l, dinit.len() as int).reverse().push(
                            dinit[l - 1],
                        ));
                        assert(self.transactions@ =~= old(self).transactions@ + dinit.subrange(
                            l - 1,
                            dinit.len() as int,
                        ).reverse());
                    }
                },
                None => {
                    proof {
                        assert(false);
                    }
                },
            }
        }
        proof {
            assert(dinit.subrange(0, dinit.len() as int) =~= dinit);
            if old(self).wf() && (forall|i: int|
                0 <= i < dinit.len() ==> tx_valid(#[trigger] dinit[i])) {
                assert forall|i: int| 0 <= i < self.transactions@.len() implies tx_valid(
                    self.transactions@[i],
                ) by {
                    if i >= old(self).transactions@.len() {
                        let j = i - old(self).transactions@.len();
                        assert(self.transactions@[i] == dinit.reverse()[j]);
                        assert(dinit.reverse()[j] == dinit[dinit.len() - 1 - j]);
                    }
                }
            }
        }
    }

    /// Empties the pool.
    pub fn clear(&mut self)
        ensures
            final(self).transactions@.len() == 0,
            final(self).wf(),
    {
        self.transactions.clear();
    }

    /// The current entry count.
    pub fn size(&self) -> (r: usize)
        ensures
            r == self.transactions@.len(),
    {
        self.transactions.len()
    }
}

} // verus!
