//! A hash map from endpoint pairs to positions.

use std::collections::HashMap;

use vstd::prelude::*;

use crate::conn::EndpointPair;
use crate::net::IpAddr;

verus! {

broadcast use vstd::std_specs::hash::group_hash_axioms;

/// Maps endpoint pairs to positions.
pub struct PairIndex {
    buckets: HashMap<u64, Vec<(EndpointPair, usize)>>,
}

/// The bucket that holds `pair`.
spec fn bucket_number(pair: EndpointPair) -> u64 {
    address_bits(pair.low.ip) ^ address_bits(pair.high.ip) ^ ((pair.low.port as u64 * 0x1_0000
        + pair.high.port as u64) as u64)
}

/// The low bits of an address, which vary most between hosts.
spec fn address_bits(ip: IpAddr) -> u64 {
    match ip {
        IpAddr::V4(a) => (a.0 as u64 * 0x1_0000_0000) as u64,
        IpAddr::V6(a) => (a.0 % 0x1_0000_0000_0000_0000) as u64,
    }
}

/// The position recorded first for `pair` from index `from` on.
spec fn found(bucket: Seq<(EndpointPair, usize)>, pair: EndpointPair, from: int) -> Option<usize>
    decreases bucket.len() - from,
{
    if from < 0 || from >= bucket.len() {
        None
    } else if bucket[from].0 == pair {
        Some(bucket[from].1)
    } else {
        found(bucket, pair, from + 1)
    }
}

impl View for PairIndex {
    type V = Map<EndpointPair, usize>;

    closed spec fn view(&self) -> Map<EndpointPair, usize> {
        Map::new(|pair: EndpointPair| self.entry(pair) is Some, |pair: EndpointPair| self.entry(
            pair,
        ).unwrap())
    }
}

fn bits_of(ip: IpAddr) -> (res: u64)
    ensures
        res == address_bits(ip),
{
    match ip {
        IpAddr::V4(a) => a.0 as u64 * 0x1_0000_0000,
        IpAddr::V6(a) => (a.0 % 0x1_0000_0000_0000_0000) as u64,
    }
}

fn number_of(pair: EndpointPair) -> (res: u64)
    ensures
        res == bucket_number(pair),
{
    bits_of(pair.low.ip) ^ bits_of(pair.high.ip) ^ (pair.low.port as u64 * 0x1_0000
        + pair.high.port as u64)
}

impl PairIndex {
    spec fn bucket(self, number: u64) -> Seq<(EndpointPair, usize)> {
        if self.buckets@.contains_key(number) {
            self.buckets@[number]@
        } else {
            Seq::empty()
        }
    }

    spec fn entry(self, pair: EndpointPair) -> Option<usize> {
        found(self.bucket(bucket_number(pair)), pair, 0)
    }

    /// An empty index.
    #[must_use]
    pub fn new() -> (res: PairIndex)
        ensures
            res@ == Map::<EndpointPair, usize>::empty(),
    {
        let res = PairIndex { buckets: HashMap::new() };
        proof {
            assert(res@ =~= Map::<EndpointPair, usize>::empty());
        }
        res
    }

    /// The position of `pair`.
    #[must_use]
    pub fn get(&self, pair: EndpointPair) -> (res: Option<usize>)
        ensures
            match res {
                Some(i) => self@.contains_key(pair) && self@[pair] == i,
                None => !self@.contains_key(pair),
            },
    {
        match self.buckets.get(&number_of(pair)) {
            None => None,
            Some(bucket) => {
                let mut k: usize = 0;
                while k < bucket.len()
                    invariant
                        k <= bucket@.len(),
                        bucket@ == self.bucket(bucket_number(pair)),
                        self.entry(pair) == found(bucket@, pair, k as int),
                    decreases bucket@.len() - k,
                {
                    if bucket[k].0 == pair {
                        return Some(bucket[k].1);
                    }
                    k = k + 1;
                }
                None
            },
        }
    }

    /// Records `position` for `pair`, in place of any earlier one.
    pub fn insert(&mut self, pair: EndpointPair, position: usize)
        ensures
            final(self)@ == old(self)@.insert(pair, position),
    {
        let number: u64 = number_of(pair);
        let ghost old_bucket = self.bucket(number);
        let ghost before = *self;
        let mut bucket: Vec<(EndpointPair, usize)> = match self.buckets.remove(&number) {
            Some(b) => b,
            None => Vec::new(),
        };
        proof {
            assert(bucket@ =~= old_bucket);
        }
        let mut k: usize = 0;
        while k < bucket.len() && bucket[k].0 != pair
            invariant
                k <= bucket@.len(),
                bucket@ == old_bucket,
                forall|j: int| 0 <= j < k ==> (#[trigger] bucket@[j]).0 != pair,
            decreases bucket@.len() - k,
        {
            k = k + 1;
        }
        if k < bucket.len() {
            bucket[k] = (pair, position);
        } else {
            bucket.push((pair, position));
        }
        let ghost new_bucket = bucket@;
        self.buckets.insert(number, bucket);
        proof {
            lemma_found_at(new_bucket, pair, k as int, 0);
            assert forall|other: EndpointPair| other != pair implies #[trigger] self.entry(other)
                == before.entry(other) by {
                if bucket_number(other) == number {
                    lemma_found_elsewhere(old_bucket, new_bucket, other, k as int, 0);
                }
            }
            assert(self@ =~= before@.insert(pair, position));
        }
    }
}

proof fn lemma_found_at(
    bucket: Seq<(EndpointPair, usize)>,
    pair: EndpointPair,
    k: int,
    from: int,
)
    requires
        0 <= from <= k < bucket.len(),
        bucket[k].0 == pair,
        forall|j: int| 0 <= j < k ==> (#[trigger] bucket[j]).0 != pair,
    ensures
        found(bucket, pair, from) == Some(bucket[k].1),
    decreases k - from,
{
    if from < k {
        lemma_found_at(bucket, pair, k, from + 1);
    }
}

proof fn lemma_found_elsewhere(
    before: Seq<(EndpointPair, usize)>,
    after: Seq<(EndpointPair, usize)>,
    other: EndpointPair,
    k: int,
    from: int,
)
    requires
        0 <= from <= after.len(),
        0 <= k < after.len(),
        after.len() == before.len() || (after.len() == before.len() + 1 && k == before.len()),
        after[k].0 != other,
        k < before.len() ==> before[k].0 != other,
        forall|j: int| 0 <= j < before.len() && j != k ==> before[j] == #[trigger] after[j],
    ensures
        found(after, other, from) == found(before, other, from),
    decreases after.len() - from,
{
    if from < after.len() {
        lemma_found_elsewhere(before, after, other, k, from + 1);
    }
}

} // verus!
