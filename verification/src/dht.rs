//! Node-local state of the DHT layer: the key/value cache that STORE frames
//! fill and FIND_VALUE frames are answered from, and the set of outbound
//! addresses held in a simulated partition.
use vstd::prelude::*;
use crate::protocol::{DhtKey, PeerAddress, AddressModel, same_address, same_bytes20};
use vstd::slice::slice_to_vec;

verus! {

/// One cached DHT entry.
pub struct StoredValue {
    pub key: DhtKey,
    pub value: Vec<u8>,
}

/// The node-local DHT key/value cache. Each key is held at most once.
pub struct ValueStore {
    entries: Vec<StoredValue>,
    contents: Ghost<Map<Seq<u8>, Seq<u8>>>,
}

impl View for ValueStore {
    type V = Map<Seq<u8>, Seq<u8>>;

    /// The cached entries, each key with its value.
    closed spec fn view(&self) -> Map<Seq<u8>, Seq<u8>> {
        self.contents@
    }
}

impl ValueStore {
    /// Each key is held at most once, and the ghost contents describe the
    /// entries.
    pub closed spec fn wf(&self) -> bool {
        &&& forall|i: int, j: int|
            0 <= i < j < self.entries@.len() ==> (#[trigger] self.entries@[i]).key@
                != (#[trigger] self.entries@[j]).key@
        &&& forall|i: int|
            0 <= i < self.entries@.len() ==> self.contents@.contains_key(
                (#[trigger] self.entries@[i]).key@,
            ) && self.contents@[self.entries@[i].key@] == self.entries@[i].value@
        &&& forall|k: Seq<u8>|
            #[trigger] self.contents@.contains_key(k) ==> exists|i: int|
                0 <= i < self.entries@.len() && (#[trigger] self.entries@[i]).key@ == k
    }

    /// An empty cache.
    pub fn new() -> (s: ValueStore)
        ensures
            s.wf(),
            s.view() == Map::<Seq<u8>, Seq<u8>>::empty(),
    {
        ValueStore { entries: Vec::new(), contents: Ghost(Map::empty()) }
    }

    /// Position of `key` among the entries, if it is cached.
    fn find(&self, key: &DhtKey) -> (r: Option<usize>)
        requires
            self.wf(),
        ensures
            match r {
                Some(i) => i < self.entries@.len() && self.entries@[i as int].key@ == key@,
                None => !self.view().contains_key(key@),
            },
    {
        let n = self.entries.len();
        let mut i: usize = 0;
        while i < n
            invariant
                n == self.entries@.len(),
                i <= n,
                forall|j: int| 0 <= j < i ==> (#[trigger] self.entries@[j]).key@ != key@,
            decreases n - i,
        {
            if same_bytes20(&self.entries[i].key.0, &key.0) {
                return Some(i);
            }
            i = i + 1;
        }
        None
    }

    /// Caches `value` under `key`, replacing what was cached under it.
    pub fn insert(&mut self, key: DhtKey, value: Vec<u8>)
        requires
            old(self).wf(),
        ensures
            final(self).wf(),
            final(self).view() == old(self).view().insert(key@, value@),
    {
        let ghost old_entries = self.entries@;
        let ghost new_contents = self.contents@.insert(key@, value@);
        match self.find(&key) {
            Some(i) => {
                let ghost v = value@;
                self.entries.set(i, StoredValue { key, value });
                proof {
                    assert(self.entries@[i as int].value@ == v);
                }
                self.contents = Ghost(new_contents);
                proof {
                    assert forall|k: Seq<u8>| #[trigger] self.contents@.contains_key(k) implies exists|
                        j: int,
                    |
                        0 <= j < self.entries@.len() && (#[trigger] self.entries@[j]).key@ == k by {
                        if k != key@ {
                            let j = choose|j: int|
                                0 <= j < old_entries.len() && (#[trigger] old_entries[j]).key@ == k;
                            assert(self.entries@[j] == old_entries[j]);
                        } else {
                            assert(self.entries@[i as int].key@ == k);
                        }
                    }
                }
            },
            None => {
                let ghost v = value@;
                self.entries.push(StoredValue { key, value });
                proof {
                    let last = self.entries@.len() - 1;
                    assert(self.entries@[last].value@ == v);
                    assert(self.entries@[last].key@ == key@);
                }
                self.contents = Ghost(new_contents);
                proof {
                    let last = self.entries@.len() - 1;
                    assert forall|k: Seq<u8>| #[trigger] self.contents@.contains_key(k) implies exists|
                        j: int,
                    |
                        0 <= j < self.entries@.len() && (#[trigger] self.entries@[j]).key@ == k by {
                        if k != key@ {
                            let j = choose|j: int|
                                0 <= j < old_entries.len() && (#[trigger] old_entries[j]).key@ == k;
                            assert(self.entries@[j] == old_entries[j]);
                        } else {
                            assert(self.entries@[last].key@ == k);
                        }
                    }
                }
            },
        }
    }

    /// A copy of the value cached under `key`, if any.
    pub fn get(&self, key: &DhtKey) -> (r: Option<Vec<u8>>)
        requires
            self.wf(),
        ensures
            match r {
                Some(v) => self.view().contains_key(key@) && v@ == self.view()[key@],
                None => !self.view().contains_key(key@),
            },
    {
        match self.find(key) {
            Some(i) => Some(slice_to_vec(self.entries[i].value.as_slice())),
            None => None,
        }
    }

    /// Number of cached entries.
    pub fn len(&self) -> (n: usize)
        requires
            self.wf(),
        ensures
            n == self.view().len(),
    {
        proof {
            let m = self.contents@;
            let keys = self.entries@.map_values(|e: StoredValue| e.key@);
            assert forall|k: Seq<u8>| m.dom().contains(k) <==> keys.to_set().contains(k) by {
                if m.dom().contains(k) {
                    let i = choose|i: int|
                        0 <= i < self.entries@.len() && (#[trigger] self.entries@[i]).key@ == k;
                    assert(keys[i] == k);
                }
                if keys.to_set().contains(k) {
                    let i = choose|i: int| 0 <= i < keys.len() && keys[i] == k;
                    assert(self.entries@[i].key@ == k);
                }
            }
            assert(m.dom() =~= keys.to_set());
            assert(keys.no_duplicates()) by {
                assert forall|i: int, j: int|
                    0 <= i < keys.len() && 0 <= j < keys.len() && i != j implies keys[i] != keys[j] by {
                    if i < j {
                        assert(self.entries@[i].key@ != self.entries@[j].key@);
                    } else {
                        assert(self.entries@[j].key@ != self.entries@[i].key@);
                    }
                }
            }
            keys.unique_seq_to_set();
        }
        self.entries.len()
    }
}

/// Outbound addresses currently cut off by a simulated partition.
pub struct Blocklist {
    addrs: Vec<PeerAddress>,
}

impl View for Blocklist {
    type V = Set<AddressModel>;

    /// The blocked addresses.
    closed spec fn view(&self) -> Set<AddressModel> {
        self.addrs@.map_values(|a: PeerAddress| a@).to_set()
    }
}

impl Blocklist {
    /// Each address is held at most once.
    pub closed spec fn wf(&self) -> bool {
        forall|i: int, j: int|
            0 <= i < j < self.addrs@.len() ==> (#[trigger] self.addrs@[i])@ != (
            #[trigger] self.addrs@[j])@
    }

    /// No address is blocked.
    pub fn new() -> (s: Blocklist)
        ensures
            s.wf(),
            s.view() == Set::<AddressModel>::empty(),
    {
        let s = Blocklist { addrs: Vec::new() };
        assert(s.view() =~= Set::<AddressModel>::empty());
        s
    }

    fn position(&self, addr: &PeerAddress) -> (r: Option<usize>)
        ensures
            match r {
                Some(i) => i < self.addrs@.len() && self.addrs@[i as int]@ == addr@,
                None => forall|j: int| 0 <= j < self.addrs@.len() ==> self.addrs@[j]@ != addr@,
            },
    {
        let n = self.addrs.len();
        let mut i: usize = 0;
        while i < n
            invariant
                n == self.addrs@.len(),
                i <= n,
                forall|j: int| 0 <= j < i ==> self.addrs@[j]@ != addr@,
            decreases n - i,
        {
            if same_address(&self.addrs[i], addr) {
                return Some(i);
            }
            i = i + 1;
        }
        None
    }

    /// Frames to `addr` are dropped from now on.
    pub fn block(&mut self, addr: PeerAddress)
        requires
            old(self).wf(),
        ensures
            final(self).wf(),
            final(self).view() == old(self).view().insert(addr@),
    {
        let ghost old_addrs = self.addrs@;
        match self.position(&addr) {
            Some(i) => {
                proof {
                    assert(old_addrs.map_values(|a: PeerAddress| a@)[i as int] == addr@);
                    assert(old_addrs.map_values(|a: PeerAddress| a@).contains(addr@));
                    assert(self.view().contains(addr@));
                    assert(self.view() =~= old(self).view().insert(addr@));
                }
            },
            None => {
                self.addrs.push(addr);
                proof {
                    assert(self.addrs@.map_values(|a: PeerAddress| a@) =~= old_addrs.map_values(
                        |a: PeerAddress| a@,
                    ).push(addr@));
                    old_addrs.map_values(|a: PeerAddress| a@).lemma_push_to_set_commute(addr@);
                    assert(self.view() =~= old(self).view().insert(addr@));
                }
            },
        }
    }

    /// Frames to `addr` are sent again.
    pub fn unblock(&mut self, addr: &PeerAddress)
        requires
            old(self).wf(),
        ensures
            final(self).wf(),
            final(self).view() == old(self).view().remove(addr@),
    {
        let ghost old_addrs = self.addrs@;
        match self.position(addr) {
            Some(i) => {
                self.addrs.remove(i);
                proof {
                    let olds = old_addrs.map_values(|a: PeerAddress| a@);
                    let news = self.addrs@.map_values(|a: PeerAddress| a@);
                    assert forall|x: AddressModel| #[trigger] news.contains(x) <==> (olds.contains(x)
                        && x != addr@) by {
                        if news.contains(x) {
                            let j = choose|j: int| 0 <= j < news.len() && news[j] == x;
                            if j < i {
                                assert(olds[j] == x);
                            } else {
                                assert(olds[j + 1] == x);
                            }
                            if x == addr@ {
                                if j < i {
                                    assert(old_addrs[j]@ != old_addrs[i as int]@);
                                } else {
                                    assert(old_addrs[i as int]@ != old_addrs[j + 1]@);
                                }
                            }
                        }
                        if olds.contains(x) && x != addr@ {
                            let j = choose|j: int| 0 <= j < olds.len() && olds[j] == x;
                            assert(j != i);
                            if j < i {
                                assert(news[j] == x);
                            } else {
                                assert(news[j - 1] == x);
                            }
                        }
                    }
                    assert(self.view() =~= old(self).view().remove(addr@));
                }
            },
            None => {
                proof {
                    assert(!old_addrs.map_values(|a: PeerAddress| a@).contains(addr@));
                    assert(self.view() =~= old(self).view().remove(addr@));
                }
            },
        }
    }

    /// Whether frames to `addr` are dropped.
    pub fn is_blocked(&self, addr: &PeerAddress) -> (r: bool)
        ensures
            r == self.view().contains(addr@),
    {
        match self.position(addr) {
            Some(i) => {
                assert(self.addrs@.map_values(|a: PeerAddress| a@)[i as int] == addr@);
                true
            },
            None => false,
        }
    }
}

} // verus!
