//! The record of deployed contracts: names and package hashes, with the
//! creation time of the record.  Reading and writing the record's file is
//! the host program's business; this module holds and queries the data.

use vstd::prelude::*;

verus! {

/// One deployed contract: its name and the formatted hash of its package.
#[derive(Debug)]
pub struct DeployedContract {
    pub name: String,
    pub package_hash: String,
}

/// The deployed contracts known to the tool, with the record's creation
/// time.
#[derive(Debug)]
pub struct DeployedContractsContainer {
    time: String,
    contracts: Vec<DeployedContract>,
}

/// The package hash stored under `name`, first match.
pub open spec fn hash_under(contracts: Seq<DeployedContract>, name: Seq<char>) -> Option<Seq<char>>
    decreases contracts.len(),
{
    if contracts.len() == 0 {
        None
    } else if contracts[0].name@ == name {
        Some(contracts[0].package_hash@)
    } else {
        hash_under(contracts.drop_first(), name)
    }
}

impl DeployedContractsContainer {
    /// The contracts in the container, in registration order.
    pub closed spec fn spec_contracts(&self) -> Seq<DeployedContract> {
        self.contracts@
    }

    /// The record's creation time, as the model sees it.
    pub closed spec fn spec_time(&self) -> Seq<char> {
        self.time@
    }

    /// An empty record created at the given time.
    pub fn new(time: String) -> (r: DeployedContractsContainer)
        ensures
            r.spec_time() == time@,
            r.spec_contracts().len() == 0,
    {
        DeployedContractsContainer { time, contracts: Vec::new() }
    }

    /// Record one deployed contract.
    pub fn add_contract(&mut self, name: String, package_hash: String)
        ensures
            final(self).spec_contracts().len() == old(self).spec_contracts().len() + 1,
            final(self).spec_contracts().drop_last() == old(self).spec_contracts(),
            final(self).spec_contracts().last().name@ == name@,
            final(self).spec_contracts().last().package_hash@ == package_hash@,
            final(self).spec_time() == old(self).spec_time(),
    {
        self.contracts.push(DeployedContract { name, package_hash });
        proof {
            assert(self.contracts@.drop_last() =~= old(self).contracts@);
        }
    }

    /// The package hash recorded under `name`, if any.
    pub fn address<'a>(&'a self, name: &String) -> (r: Option<&'a String>)
        ensures
            r is Some <==> hash_under(self.spec_contracts(), name@) is Some,
            r matches Some(h) ==> Some(h@) == hash_under(self.spec_contracts(), name@),
    {
        let ghost all = self.contracts@;
        let mut i: usize = 0;
        proof {
            assert(all.skip(0) =~= all);
        }
        while i < self.contracts.len()
            invariant
                0 <= i <= all.len(),
                all == self.contracts@,
                (hash_under(all.skip(i as int), name@) matches Some(h) ==> hash_under(all, name@)
                    == Some(h)),
                (hash_under(all.skip(i as int), name@) is None ==> hash_under(all, name@)
                    is None),
            decreases all.len() - i,
        {
            proof {
                assert(all.skip(i as int)[0] == all[i as int]);
                assert(all.skip(i as int).drop_first() =~= all.skip(i + 1));
            }
            if self.contracts[i].name.eq(name) {
                return Some(&self.contracts[i].package_hash);
            }
            i = i + 1;
        }
        proof {
            assert(all.skip(all.len() as int) =~= Seq::<DeployedContract>::empty());
        }
        None
    }

    /// The record's creation time.
    pub fn time(&self) -> (r: &String)
        ensures
            r@ == self.spec_time(),
    {
        &self.time
    }

    /// The recorded contracts, for the host program to persist.
    pub fn contracts(&self) -> (r: &Vec<DeployedContract>)
        ensures
            r@ == self.spec_contracts(),
    {
        &self.contracts
    }
}

} // verus!
