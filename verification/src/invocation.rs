//! What the host tells the contract about one invocation: the ledger clock
//! and whose authorization the invocation carries.

use vstd::prelude::*;
use crate::types::Address;

verus! {

/// The circumstances of one call of an entry point.
pub struct Invocation {
    /// Sequence number of the current ledger.
    pub ledger_sequence: u32,
    /// Close time of the current ledger, in seconds.
    pub ledger_timestamp: u64,
    /// The principals that have authorized this invocation.
    pub signers: Vec<Address>,
}

impl Invocation {
    /// Whether the invocation carries the authorization of `who`.
    pub open spec fn authorizes(&self, who: Address) -> bool {
        self.signers@.contains(who)
    }

    /// An invocation at the given ledger that nobody has authorized.
    pub fn new(ledger_sequence: u32, ledger_timestamp: u64) -> (call: Invocation)
        ensures
            call.ledger_sequence == ledger_sequence,
            call.ledger_timestamp == ledger_timestamp,
            call.signers@ == Seq::<Address>::empty(),
    {
        Invocation { ledger_sequence, ledger_timestamp, signers: Vec::new() }
    }

    /// Adds the authorization of `who`.
    pub fn authorize(&mut self, who: Address)
        ensures
            final(self).ledger_sequence == old(self).ledger_sequence,
            final(self).ledger_timestamp == old(self).ledger_timestamp,
            final(self).signers@ == old(self).signers@.push(who),
            final(self).authorizes(who),
            forall|a: Address| old(self).authorizes(a) ==> final(self).authorizes(a),
    {
        self.signers.push(who);
        proof {
            assert(self.signers@[self.signers@.len() - 1] == who);
            assert forall|a: Address| old(self).authorizes(a) implies self.authorizes(a) by {
                let i = old(self).signers@.index_of(a);
                assert(self.signers@[i] == a);
            }
        }
    }

    /// Whether the invocation carries the authorization of `who`.
    pub fn is_authorized(&self, who: &Address) -> (authorized: bool)
        ensures
            authorized == self.authorizes(*who),
    {
        let mut i: usize = 0;
        while i < self.signers.len()
            invariant
                i <= self.signers@.len(),
                forall|j: int| 0 <= j < i ==> self.signers@[j] != *who,
            decreases self.signers@.len() - i,
        {
            if self.signers[i] == *who {
                return true;
            }
            i += 1;
        }
        false
    }
}

} // verus!
