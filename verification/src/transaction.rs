use vstd::prelude::*;

verus! {

/// An atomic transfer record. Immutable once constructed. The signature and
/// public key are opaque strings: the core checks them for presence only,
/// never cryptographically.
pub struct Transaction {
    pub from: String,
    pub to: String,
    pub amount: u64,
    pub timestamp: u64,
    pub signature: String,
    pub public_key: String,
}

/// A transaction is valid when its amount is positive, its addresses are
/// non-empty and distinct, and its signature and public key are non-empty.
pub open spec fn tx_valid(t: Transaction) -> bool {
    &&& t.amount > 0
    &&& t.from@.len() > 0
    &&& t.to@.len() > 0
    &&& t.from@ != t.to@
    &&& t.signature@.len() > 0
    &&& t.public_key@.len() > 0
}

impl Transaction {
    /// Builds a transaction, stamping it with the current wall-clock time.
    pub fn new(from: String, to: String, amount: u64, signature: String, public_key: String) -> (r:
        Transaction)
        ensures
            r.from == from,
            r.to == to,
            r.amount == amount,
            r.signature == signature,
            r.public_key == public_key,
    {
        let timestamp = crate::clock::now_or_zero();
        Transaction { from, to, amount, timestamp, signature, public_key }
    }

    /// Decides validity exactly as `tx_valid` states it.
    pub fn is_valid(&self) -> (r: bool)
        ensures
            r == tx_valid(*self),
    {
        if self.amount == 0 {
            return false;
        }
        if self.from.as_str().is_empty() || self.to.as_str().is_empty() {
            return false;
        }
        if self.from == self.to {
            return false;
        }
        if self.signature.as_str().is_empty() || self.public_key.as_str().is_empty() {
            return false;
        }
        true
    }
}

impl Clone for Transaction {
    /// A clone is equal to the original.
    fn clone(&self) -> (r: Self)
        ensures
            r == *self,
    {
        Transaction {
            from: self.from.clone(),
            to: self.to.clone(),
            amount: self.amount,
            timestamp: self.timestamp,
            signature: self.signature.clone(),
            public_key: self.public_key.clone(),
        }
    }
}

/// Clones a sequence of transactions value for value.
pub fn clone_transactions(v: &Vec<Transaction>) -> (r: Vec<Transaction>)
    ensures
        r@ == v@,
{
    let mut r: Vec<Transaction> = Vec::new();
    let mut i: usize = 0;
    while i < v.len()
        invariant
            i <= v@.len(),
            r@ == v@.take(i as int),
        decreases v@.len() - i,
    {
        r.push(v[i].clone());
        proof {
            assert(r@ =~= v@.take(i + 1));
        }
        i = i + 1;
    }
    proof {
        assert(v@.take(v@.len() as int) =~= v@);
    }
    r
}

} // verus!
