//! The table of buckets that a node keeps, one for each sender it has seen.

use std::collections::HashMap;

use vstd::prelude::*;
use vstd::set_lib::*;
use vstd::std_specs::hash::*;
use vstd::std_specs::iter::IteratorSpec;

use crate::bucket::Bucket;
use crate::request::{Ipv4Addr, Sender};

verus! {

/// The buckets of all senders, kept apart by the kind of sender.
#[derive(Debug)]
pub struct LeaseTable {
    payers: HashMap<u64, Bucket>,
    nodes: HashMap<u64, Bucket>,
    addresses: HashMap<u32, Bucket>,
}

impl View for LeaseTable {
    type V = Map<Sender, Bucket>;

    closed spec fn view(&self) -> Map<Sender, Bucket> {
        Map::new(
            |sender: Sender|
                match sender {
                    Sender::Payer(id) => self.payers@.contains_key(id),
                    Sender::Node(id) => self.nodes@.contains_key(id),
                    Sender::Unknown(addr) => self.addresses@.contains_key(addr.bits),
                },
            |sender: Sender|
                match sender {
                    Sender::Payer(id) => self.payers@[id],
                    Sender::Node(id) => self.nodes@[id],
                    Sender::Unknown(addr) => self.addresses@[addr.bits],
                },
        )
    }
}

impl Clone for LeaseTable {
    fn clone(&self) -> (copy: Self)
        ensures
            copy@ == self@,
    {
        let copy = LeaseTable {
            payers: self.payers.clone(),
            nodes: self.nodes.clone(),
            addresses: self.addresses.clone(),
        };
        assert(copy@ =~= self@);
        copy
    }
}

/// `entries` lists `map`: every key with its bucket, once.
pub open spec fn lists_map<K>(entries: Seq<(K, Bucket)>, map: Map<K, Bucket>) -> bool {
    &&& forall|i: int|
        0 <= i < entries.len() ==> map.contains_key((#[trigger] entries[i]).0)
            && map[entries[i].0] == entries[i].1
    &&& forall|key: K| #[trigger]
        map.contains_key(key) ==> exists|i: int|
            0 <= i < entries.len() && (#[trigger] entries[i]).0 == key
    &&& forall|i: int, j: int|
        0 <= i < j < entries.len() ==> (#[trigger] entries[i]).0 != (#[trigger] entries[j]).0
}

/// The pairs that `map` holds, in the order in which it is walked.
fn list_pairs<K: Copy>(map: &HashMap<K, Bucket>) -> (pairs: Vec<(K, Bucket)>)
    requires
        obeys_key_model::<K>(),
    ensures
        lists_map(pairs@, map@),
{
    let mut pairs: Vec<(K, Bucket)> = Vec::new();
    let walk = map.iter();
    let ghost walked = IteratorSpec::remaining(&walk);
    for pair in it: walk
        invariant
            walked == it.seq(),
            pairs@.len() == it.index(),
            forall|i: int|
                0 <= i < it.index() ==> #[trigger] pairs@[i] == (*it.seq()[i].0, *it.seq()[i].1),
    {
        let (key, bucket) = pair;
        pairs.push((*key, *bucket));
    }
    proof {
        assert forall|i: int| 0 <= i < pairs@.len() implies map@.contains_key(
            (#[trigger] pairs@[i]).0,
        ) && map@[pairs@[i].0] == pairs@[i].1 by {
            assert(map@.contains_key(*walked[i].0));
        }
        assert forall|key: K| #[trigger] map@.contains_key(key) implies exists|i: int|
            0 <= i < pairs@.len() && (#[trigger] pairs@[i]).0 == key by {
            assert(walked.contains((&key, &map@[key])));
            let i = choose|i: int| 0 <= i < walked.len() && walked[i] == (&key, &map@[key]);
            assert(pairs@[i].0 == key);
        }
        assert forall|i: int, j: int| 0 <= i < j < pairs@.len() implies (#[trigger] pairs@[i]).0
            != (#[trigger] pairs@[j]).0 by {
            assert(map@[*walked[i].0] == *walked[i].1);
            assert(map@[*walked[j].0] == *walked[j].1);
            assert(walked[i] != walked[j]);
        }
    }
    pairs
}

impl LeaseTable {
    /// A table without buckets.
    pub fn new() -> (table: Self)
        ensures
            table@ == Map::<Sender, Bucket>::empty(),
    {
        let table = LeaseTable {
            payers: HashMap::new(),
            nodes: HashMap::new(),
            addresses: HashMap::new(),
        };
        assert(table@ =~= Map::<Sender, Bucket>::empty());
        table
    }

    /// The bucket of `sender`, if there is one.
    pub fn get(&self, sender: &Sender) -> (bucket: Option<Bucket>)
        ensures
            bucket == (if self@.contains_key(*sender) {
                Some(self@[*sender])
            } else {
                None
            }),
    {
        let found = match sender {
            Sender::Payer(id) => self.payers.get(id),
            Sender::Node(id) => self.nodes.get(id),
            Sender::Unknown(addr) => self.addresses.get(&addr.bits),
        };
        match found {
            Some(bucket) => Some(*bucket),
            None => None,
        }
    }

    /// Whether `sender` has a bucket.
    pub fn contains_key(&self, sender: &Sender) -> (found: bool)
        ensures
            found == self@.contains_key(*sender),
    {
        self.get(sender).is_some()
    }

    /// Puts `bucket` in the place of whatever bucket `sender` had.
    pub fn insert(&mut self, sender: Sender, bucket: Bucket)
        ensures
            final(self)@ == old(self)@.insert(sender, bucket),
    {
        match sender {
            Sender::Payer(id) => {
                self.payers.insert(id, bucket);
            },
            Sender::Node(id) => {
                self.nodes.insert(id, bucket);
            },
            Sender::Unknown(addr) => {
                self.addresses.insert(addr.bits, bucket);
            },
        }
        assert(self@ =~= old(self)@.insert(sender, bucket));
    }

    /// The number of buckets.
    pub fn len(&self) -> (len: usize)
        ensures
            self@.dom().finite(),
            len == (if self@.len() <= usize::MAX {
                self@.len()
            } else {
                usize::MAX as nat
            }),
    {
        proof {
            let payers = self.payers@.dom();
            let nodes = self.nodes@.dom();
            let addresses = self.addresses@.dom();
            let payer = |id: u64| Sender::Payer(id);
            let node = |id: u64| Sender::Node(id);
            let unknown = |bits: u32| Sender::Unknown(Ipv4Addr { bits });
            lemma_map_size(payers, payers.map(payer), payer);
            lemma_map_size(nodes, nodes.map(node), node);
            lemma_map_size(addresses, addresses.map(unknown), unknown);
            let all = payers.map(payer).union(nodes.map(node));
            assert(payers.map(payer).disjoint(nodes.map(node)));
            assert(all.disjoint(addresses.map(unknown)));
            lemma_set_disjoint_lens(payers.map(payer), nodes.map(node));
            lemma_set_disjoint_lens(all, addresses.map(unknown));
            assert forall|sender: Sender| #[trigger] self@.dom().contains(sender) implies all.union(
                addresses.map(unknown),
            ).contains(sender) by {
                match sender {
                    Sender::Payer(id) => assert(payers.map(payer).contains(payer(id))),
                    Sender::Node(id) => assert(nodes.map(node).contains(node(id))),
                    Sender::Unknown(addr) => assert(addresses.map(unknown).contains(
                        unknown(addr.bits),
                    )),
                }
            }
            assert(self@.dom() =~= all.union(addresses.map(unknown)));
        }
        self.payers.len().saturating_add(self.nodes.len()).saturating_add(self.addresses.len())
    }

    /// All buckets with their senders, in no particular order.
    pub fn entries(&self) -> (entries: Vec<(Sender, Bucket)>)
        ensures
            lists_map(entries@, self@),
    {
        let payers = list_pairs(&self.payers);
        let nodes = list_pairs(&self.nodes);
        let addresses = list_pairs(&self.addresses);
        let mut entries: Vec<(Sender, Bucket)> = Vec::new();
        for i in 0..payers.len()
            invariant
                entries@.len() == i,
                forall|j: int|
                    0 <= j < i ==> #[trigger] entries@[j] == (
                        Sender::Payer(payers@[j].0),
                        payers@[j].1,
                    ),
        {
            entries.push((Sender::Payer(payers[i].0), payers[i].1));
        }
        let ghost first = entries@;
        for i in 0..nodes.len()
            invariant
                entries@.len() == first.len() + i,
                forall|j: int| 0 <= j < first.len() ==> #[trigger] entries@[j] == first[j],
                forall|j: int|
                    first.len() <= j < first.len() + i ==> #[trigger] entries@[j] == (
                        Sender::Node(nodes@[j - first.len()].0),
                        nodes@[j - first.len()].1,
                    ),
        {
            entries.push((Sender::Node(nodes[i].0), nodes[i].1));
        }
        let ghost second = entries@;
        for i in 0..addresses.len()
            invariant
                entries@.len() == second.len() + i,
                forall|j: int| 0 <= j < second.len() ==> #[trigger] entries@[j] == second[j],
                forall|j: int|
                    second.len() <= j < second.len() + i ==> #[trigger] entries@[j] == (
                        Sender::Unknown(Ipv4Addr { bits: addresses@[j - second.len()].0 }),
                        addresses@[j - second.len()].1,
                    ),
        {
            entries.push((Sender::Unknown(Ipv4Addr { bits: addresses[i].0 }), addresses[i].1));
        }
        proof {
            let a = first.len() as int;
            let b = second.len() as int;
            assert forall|i: int| 0 <= i < entries@.len() implies self@.contains_key(
                (#[trigger] entries@[i]).0,
            ) && self@[entries@[i].0] == entries@[i].1 by {
                if i < a {
                    assert(self.payers@.contains_key(payers@[i].0));
                } else if i < b {
                    assert(self.nodes@.contains_key(nodes@[i - a].0));
                } else {
                    assert(self.addresses@.contains_key(addresses@[i - b].0));
                }
            }
            assert forall|sender: Sender| #[trigger] self@.contains_key(sender) implies exists|
                i: int,
            | 0 <= i < entries@.len() && (#[trigger] entries@[i]).0 == sender by {
                match sender {
                    Sender::Payer(id) => {
                        assert(self.payers@.contains_key(id));
                        let i = choose|i: int|
                            0 <= i < payers@.len() && (#[trigger] payers@[i]).0 == id;
                        assert(entries@[i].0 == sender);
                    },
                    Sender::Node(id) => {
                        assert(self.nodes@.contains_key(id));
                        let i = choose|i: int|
                            0 <= i < nodes@.len() && (#[trigger] nodes@[i]).0 == id;
                        assert(entries@[a + i].0 == sender);
                    },
                    Sender::Unknown(addr) => {
                        assert(self.addresses@.contains_key(addr.bits));
                        let i = choose|i: int|
                            0 <= i < addresses@.len() && (#[trigger] addresses@[i]).0 == addr.bits;
                        assert(entries@[b + i].0 == sender);
                    },
                }
            }
            assert forall|i: int, j: int| 0 <= i < j < entries@.len() implies (
            #[trigger] entries@[i]).0 != (#[trigger] entries@[j]).0 by {
                if j < a {
                    assert(payers@[i].0 != payers@[j].0);
                } else if a <= i && j < b {
                    assert(nodes@[i - a].0 != nodes@[j - a].0);
                } else if b <= i {
                    assert(addresses@[i - b].0 != addresses@[j - b].0);
                }
            }
        }
        entries
    }
}

} // verus!
