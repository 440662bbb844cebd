//! The key-value store: text keys, byte-string values, each key at most once.
//!
//! The entries are a `Vec` of pairs searched in order, with the map they
//! stand for kept as a ghost value. A `HashMap<String, _>` is not used: what
//! vstd says of a lookup holds only for key types that obey its key model,
//! which it grants to primitive types alone; for `String` it would have to be
//! assumed, so nothing about what a lookup returns could be proved.
use vstd::prelude::*;

verus! {

pub struct Store {
    entries: Vec<(String, Vec<u8>)>,
    contents: Ghost<Map<Seq<char>, Seq<u8>>>,
}

impl View for Store {
    type V = Map<Seq<char>, Seq<u8>>;

    closed spec fn view(&self) -> Map<Seq<char>, Seq<u8>> {
        self.contents@
    }
}

impl Store {
    /// The entries hold each key once, and hold exactly the map.
    pub closed spec fn wf(&self) -> bool {
        &&& forall|i: int, j: int|
            0 <= i < j < self.entries@.len() ==> #[trigger] self.entries@[i].0@
                != #[trigger] self.entries@[j].0@
        &&& forall|k: Seq<char>|
            #[trigger] self.contents@.contains_key(k) <==> exists|i: int|
                0 <= i < self.entries@.len() && #[trigger] self.entries@[i].0@ == k
        &&& forall|i: int|
            0 <= i < self.entries@.len() ==> self.contents@[#[trigger] self.entries@[i].0@]
                == self.entries@[i].1@
    }

    /// An empty store.
    pub fn new() -> (r: Store)
        ensures
            r.wf(),
            r@ == Map::<Seq<char>, Seq<u8>>::empty(),
    {
        Store { entries: Vec::new(), contents: Ghost(Map::empty()) }
    }

    /// Where `key` stands among the entries.
    fn position(&self, key: &String) -> (r: Option<usize>)
        requires
            self.wf(),
        ensures
            r matches Some(i) ==> i < self.entries@.len() && self.entries@[i as int].0@ == key@,
            r is None <==> !self@.contains_key(key@),
    {
        let mut i: usize = 0;
        while i < self.entries.len()
            invariant
                self.wf(),
                i <= self.entries@.len(),
                forall|j: int| 0 <= j < i ==> self.entries@[j].0@ != key@,
            decreases self.entries@.len() - i,
        {
            if self.entries[i].0 == *key {
                return Some(i);
            }
            i += 1;
        }
        None
    }

    /// The value stored under `key`, if any.
    pub fn get(&self, key: &String) -> (r: Option<Vec<u8>>)
        requires
            self.wf(),
        ensures
            r is Some <==> self@.contains_key(key@),
            r matches Some(v) ==> v@ == self@[key@],
    {
        match self.position(key) {
            Some(i) => Some(self.entries[i].1.clone()),
            None => None,
        }
    }

    /// Stores `value` under `key`, replacing what was there.
    pub fn set(&mut self, key: String, value: Vec<u8>)
        requires
            old(self).wf(),
        ensures
            final(self).wf(),
            final(self)@ == old(self)@.insert(key@, value@),
    {
        let ghost (k, v) = (key@, value@);
        let ghost before = self.entries@;
        let ghost mut at: int = before.len() as int;
        match self.position(&key) {
            Some(i) => {
                proof {
                    at = i as int;
                }
                self.entries.remove(i);
                self.entries.insert(i, (key, value));
                proof {
                    assert(self.entries@ =~= before.update(i as int, self.entries@[i as int]));
                }
            },
            None => {
                self.entries.push((key, value));
            },
        }
        self.contents = Ghost(self.contents@.insert(k, v));
        proof {
            let e = self.entries@;
            assert(forall|i: int| 0 <= i < e.len() && e[i].0@ != k ==> i < before.len() && e[i]
                == before[i]);
            assert(e[at].0@ == k);
            assert forall|q: Seq<char>| #[trigger]
                self.contents@.contains_key(q) implies exists|i: int|
                0 <= i < e.len() && #[trigger] e[i].0@ == q by {
                if q != k {
                    let i = choose|i: int| 0 <= i < before.len() && #[trigger] before[i].0@ == q;
                    assert(e[i] == before[i]);
                }
            }
        }
    }
}

/// Two sets of one key, applied one after the other in either order, leave
/// that key holding exactly the value of the one applied last: never a mix
/// of the two.
pub proof fn lemma_sets_of_one_key(
    m: Map<Seq<char>, Seq<u8>>,
    key: Seq<char>,
    first: Seq<u8>,
    second: Seq<u8>,
)
    ensures
        m.insert(key, first).insert(key, second).contains_key(key),
        m.insert(key, first).insert(key, second)[key] == second,
        m.insert(key, second).insert(key, first)[key] == first,
{
}

} // verus!
