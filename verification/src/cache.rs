//! The bound of the response cache: which keys the cache holds, oldest
//! first, and which key has to leave when a new one comes in. The responses
//! themselves are kept by the caller, under these keys.

use vstd::prelude::*;

verus! {

/// The keys of a bounded cache in the order in which they came in.
pub struct ContentStore {
    keys: Vec<Vec<u8>>,
    capacity: usize,
}

/// Whether no key stands twice.
pub open spec fn no_key_twice(keys: Seq<Seq<u8>>) -> bool {
    forall|i: int, j: int| 0 <= i < j < keys.len() ==> keys[i] != keys[j]
}

impl ContentStore {
    /// The keys held, the oldest first.
    pub closed spec fn view(&self) -> Seq<Seq<u8>> {
        self.keys.deep_view()
    }

    /// How many keys the cache may hold.
    pub closed spec fn capacity(&self) -> usize {
        self.capacity
    }

    /// No key stands twice, and there are no more keys than the cache may
    /// hold.
    #[verifier::type_invariant]
    spec fn inv(&self) -> bool {
        no_key_twice(self.keys.deep_view()) && self.keys@.len() <= self.capacity
    }

    /// An empty cache that may hold `capacity` keys.
    pub fn new(capacity: usize) -> (store: ContentStore)
        ensures
            store@ == Seq::<Seq<u8>>::empty(),
            store.capacity() == capacity,
    {
        let store = ContentStore { keys: Vec::new(), capacity };
        assert(store.keys.deep_view() =~= Seq::<Seq<u8>>::empty());
        store
    }

    /// The number of keys held.
    pub fn len(&self) -> (n: usize)
        ensures
            n == self@.len(),
            n <= self.capacity(),
            no_key_twice(self@),
    {
        proof {
            use_type_invariant(self);
        }
        self.keys.len()
    }

    /// Whether the cache holds the key.
    pub fn contains(&self, key: &Vec<u8>) -> (held: bool)
        ensures
            held == self@.contains(key@),
    {
        let mut i: usize = 0;
        while i < self.keys.len()
            invariant
                i <= self.keys@.len(),
                forall|k: int| 0 <= k < i ==> self.keys.deep_view()[k] != key@,
            decreases self.keys@.len() - i,
        {
            assert(self.keys.deep_view()[i as int] == self.keys@[i as int]@);
            if same_bytes(&self.keys[i], key) {
                return true;
            }
            i += 1;
        }
        false
    }

    /// Takes note that a value is stored under `key`, and says which key has
    /// to leave: none where the key is held already, or where there is room;
    /// the oldest key where the cache is full. A cache that may hold nothing
    /// lets the new key leave at once.
    pub fn put(&mut self, key: Vec<u8>) -> (evicted: Option<Vec<u8>>)
        ensures
            final(self).capacity() == old(self).capacity(),
            no_key_twice(final(self)@),
            final(self)@.len() <= final(self).capacity(),
            old(self)@.contains(key@) ==> evicted is None && final(self)@ == old(self)@,
            !old(self)@.contains(key@) && old(self).capacity() == 0 ==> final(self)@ == old(self)@
                && evicted is Some && evicted->0@ == key@,
            !old(self)@.contains(key@) && old(self)@.len() < old(self).capacity() ==> evicted
                is None && final(self)@ == old(self)@.push(key@),
            !old(self)@.contains(key@) && 0 < old(self).capacity() == old(self)@.len() ==> evicted
                is Some && evicted->0@ == old(self)@[0] && final(self)@ == old(self)@.skip(1).push(
                key@,
            ),
    {
        proof {
            use_type_invariant(&*self);
        }
        if self.contains(&key) {
            return None;
        }
        if self.capacity == 0 {
            return Some(key);
        }
        let mut work = ContentStore::new(self.capacity);
        core::mem::swap(self, &mut work);
        let ContentStore { keys, capacity } = work;
        let mut keys = keys;
        let ghost before = keys.deep_view();
        let evicted = if keys.len() == capacity {
            let ghost whole = keys@;
            let oldest = keys.remove(0);
            proof {
                assert(oldest@ == before[0]) by {
                    assert(before[0] == whole[0]@);
                }
                assert(keys.deep_view().len() == before.skip(1).len());
                assert forall|k: int| 0 <= k < keys@.len() implies keys.deep_view()[k]
                    == before.skip(1)[k] by {
                    assert(keys.deep_view()[k] == keys@[k]@);
                    assert(before[k + 1] == whole[k + 1]@);
                }
                assert(keys.deep_view() =~= before.skip(1));
            }
            Some(oldest)
        } else {
            None
        };
        let ghost middle = keys.deep_view();
        let ghost part = keys@;
        let ghost added = key@;
        keys.push(key);
        proof {
            assert(keys.deep_view().len() == middle.push(added).len());
            assert forall|k: int| 0 <= k < keys@.len() implies keys.deep_view()[k] == middle.push(
                added,
            )[k] by {
                assert(keys.deep_view()[k] == keys@[k]@);
                if k < part.len() {
                    assert(middle[k] == part[k]@);
                }
            }
            assert(keys.deep_view() =~= middle.push(added));
            assert forall|i: int, j: int| 0 <= i < j < keys@.len() implies keys.deep_view()[i]
                != keys.deep_view()[j] by {
                if j == keys@.len() - 1 {
                    assert(before.contains(middle[i]));
                }
            }
        }
        *self = ContentStore { keys, capacity };
        evicted
    }
}

fn same_bytes(a: &Vec<u8>, b: &Vec<u8>) -> (eq: bool)
    ensures
        eq == (a@ == b@),
{
    if a.len() != b.len() {
        return false;
    }
    let mut i: usize = 0;
    while i < a.len()
        invariant
            i <= a@.len() == b@.len(),
            forall|k: int| 0 <= k < i ==> a@[k] == b@[k],
        decreases a@.len() - i,
    {
        if a[i] != b[i] {
            return false;
        }
        i += 1;
    }
    assert(a@ =~= b@);
    true
}

} // verus!
