//! The in-memory key/value state: a storage of byte keys and byte values
//! with exact map semantics, offered to executors through the storage
//! externalities interface.

use vstd::prelude::*;
use vstd::pervasive::VecAdditionalExecFns;
use crate::traits::{ChainState, StorageExternalities};

verus! {

/// The map a list of key/value pairs spells out, later entries winning.
pub open spec fn pairs_to_map(s: Seq<(Vec<u8>, Vec<u8>)>) -> Map<Seq<u8>, Seq<u8>>
    decreases s.len(),
{
    if s.len() == 0 {
        Map::empty()
    } else {
        pairs_to_map(s.drop_last()).insert(s.last().0@, s.last().1@)
    }
}

/// Whether a list of pairs holds pairwise distinct keys.
pub open spec fn distinct_keys(s: Seq<(Vec<u8>, Vec<u8>)>) -> bool {
    forall|i: int, j: int| 0 <= i < j < s.len() ==> (#[trigger] s[i]).0@ != (#[trigger] s[j]).0@
}

proof fn lemma_pairs_found(s: Seq<(Vec<u8>, Vec<u8>)>, i: int)
    requires
        distinct_keys(s),
        0 <= i < s.len(),
    ensures
        pairs_to_map(s).contains_key(s[i].0@),
        pairs_to_map(s)[s[i].0@] == s[i].1@,
    decreases s.len(),
{
    if i < s.len() - 1 {
        lemma_pairs_found(s.drop_last(), i);
        assert(s.drop_last()[i] == s[i]);
        assert(s[i].0@ != s.last().0@);
    }
}

proof fn lemma_pairs_absent(s: Seq<(Vec<u8>, Vec<u8>)>, k: Seq<u8>)
    requires
        forall|i: int| 0 <= i < s.len() ==> (#[trigger] s[i]).0@ != k,
    ensures
        !pairs_to_map(s).contains_key(k),
    decreases s.len(),
{
    if s.len() > 0 {
        lemma_pairs_absent(s.drop_last(), k);
    }
}

proof fn lemma_pairs_update(s: Seq<(Vec<u8>, Vec<u8>)>, i: int, p: (Vec<u8>, Vec<u8>))
    requires
        distinct_keys(s),
        0 <= i < s.len(),
        p.0@ == s[i].0@,
    ensures
        pairs_to_map(s.update(i, p)) =~= pairs_to_map(s).insert(p.0@, p.1@),
    decreases s.len(),
{
    let t = s.update(i, p);
    if i == s.len() - 1 {
        assert(t.drop_last() =~= s.drop_last());
        assert(t.last() == p);
    } else {
        assert(t.drop_last() =~= s.drop_last().update(i, p));
        assert(s.drop_last()[i] == s[i]);
        lemma_pairs_update(s.drop_last(), i, p);
        assert(t.last() == s.last());
        assert(s[i].0@ != s.last().0@);
        assert(pairs_to_map(t) == pairs_to_map(s.drop_last()).insert(p.0@, p.1@).insert(
            s.last().0@,
            s.last().1@,
        ));
    }
}

proof fn lemma_pairs_remove(s: Seq<(Vec<u8>, Vec<u8>)>, i: int)
    requires
        distinct_keys(s),
        0 <= i < s.len(),
    ensures
        pairs_to_map(s.remove(i)) =~= pairs_to_map(s).remove(s[i].0@),
    decreases s.len(),
{
    let t = s.remove(i);
    if i == s.len() - 1 {
        assert(t =~= s.drop_last());
        assert forall|j: int| 0 <= j < s.drop_last().len() implies (
        #[trigger] s.drop_last()[j]).0@ != s[i].0@ by {
            assert(s.drop_last()[j] == s[j]);
        }
        lemma_pairs_absent(s.drop_last(), s[i].0@);
        assert(pairs_to_map(s.drop_last()).remove(s[i].0@) =~= pairs_to_map(s.drop_last()));
    } else {
        assert(t.drop_last() =~= s.drop_last().remove(i));
        assert(s.drop_last()[i] == s[i]);
        lemma_pairs_remove(s.drop_last(), i);
        assert(t.last() == s.last());
        assert(s[i].0@ != s.last().0@);
        assert(pairs_to_map(t) == pairs_to_map(s.drop_last()).remove(s[i].0@).insert(
            s.last().0@,
            s.last().1@,
        ));
    }
}

/// Whether two byte strings are equal.
fn bytes_equal(a: &[u8], b: &[u8]) -> (r: bool)
    ensures
        r == (a@ == b@),
{
    if a.len() != b.len() {
        proof {
            assert(a@ != b@);
        }
        return false;
    }
    let n = a.len();
    let mut i: usize = 0;
    while i < n
        invariant
            n == a@.len(),
            n == b@.len(),
            i <= n,
            forall|k: int| 0 <= k < i ==> a@[k] == b@[k],
        decreases n - i,
    {
        if a[i] != b[i] {
            return false;
        }
        i = i + 1;
    }
    proof {
        assert(a@ =~= b@);
    }
    true
}

/// Copy a byte string.
fn copy_bytes(v: &[u8]) -> (r: Vec<u8>)
    ensures
        r@ == v@,
{
    let mut out: Vec<u8> = Vec::new();
    let mut i: usize = 0;
    while i < v.len()
        invariant
            i <= v@.len(),
            out@ == v@.take(i as int),
        decreases v@.len() - i,
    {
        out.push(v[i]);
        i = i + 1;
        proof {
            assert(out@ =~= v@.take(i as int));
        }
    }
    proof {
        assert(v@.take(v@.len() as int) =~= v@);
    }
    out
}

/// State stored in memory: a key/value storage over byte strings, holding
/// each key at most once.
pub struct KeyValueMemoryState {
    storage: Vec<(Vec<u8>, Vec<u8>)>,
}

impl View for KeyValueMemoryState {
    type V = Map<Seq<u8>, Seq<u8>>;

    closed spec fn view(&self) -> Map<Seq<u8>, Seq<u8>> {
        pairs_to_map(self.storage@)
    }
}

impl KeyValueMemoryState {
    #[verifier::type_invariant]
    closed spec fn inv(&self) -> bool {
        distinct_keys(self.storage@)
    }

    /// Create an empty storage.
    pub fn new() -> (r: Self)
        ensures
            r@ =~= Map::<Seq<u8>, Seq<u8>>::empty(),
    {
        Self { storage: Vec::new() }
    }

    /// Produce a storage holding the same contents.
    pub fn replicate(&self) -> (r: Self)
        ensures
            r@ == self@,
    {
        proof {
            use_type_invariant(self);
        }
        let mut storage: Vec<(Vec<u8>, Vec<u8>)> = Vec::new();
        let n = self.storage.len();
        let mut i: usize = 0;
        while i < n
            invariant
                n == self.storage@.len(),
                i <= n,
                storage@.len() == i,
                forall|k: int|
                    0 <= k < i ==> (#[trigger] storage@[k]).0@ == self.storage@[k].0@
                        && storage@[k].1@ == self.storage@[k].1@,
            decreases n - i,
        {
            let key = copy_bytes(self.storage[i].0.as_slice());
            let value = copy_bytes(self.storage[i].1.as_slice());
            storage.push((key, value));
            i = i + 1;
        }
        let r = Self { storage };
        proof {
            lemma_pairs_views_equal(self.storage@, r.storage@);
        }
        r
    }

}

/// The position of the given key among the pairs, when it occurs.
fn find_pair(storage: &Vec<(Vec<u8>, Vec<u8>)>, key: &[u8]) -> (r: Option<usize>)
    ensures
        match r {
            Some(i) => i < storage@.len() && storage@[i as int].0@ == key@,
            None => forall|k: int|
                0 <= k < storage@.len() ==> (#[trigger] storage@[k]).0@ != key@,
        },
{
    let n = storage.len();
    let mut i: usize = 0;
    while i < n
        invariant
            n == storage@.len(),
            i <= n,
            forall|k: int| 0 <= k < i ==> (#[trigger] storage@[k]).0@ != key@,
        decreases n - i,
    {
        if bytes_equal(storage[i].0.as_slice(), key) {
            return Some(i);
        }
        i = i + 1;
    }
    None
}

proof fn lemma_pairs_views_equal(a: Seq<(Vec<u8>, Vec<u8>)>, b: Seq<(Vec<u8>, Vec<u8>)>)
    requires
        a.len() == b.len(),
        forall|k: int|
            0 <= k < a.len() ==> (#[trigger] b[k]).0@ == a[k].0@ && b[k].1@ == a[k].1@,
    ensures
        pairs_to_map(a) == pairs_to_map(b),
        distinct_keys(a) ==> distinct_keys(b),
    decreases a.len(),
{
    if a.len() > 0 {
        assert forall|k: int|
            0 <= k < a.drop_last().len() implies (#[trigger] b.drop_last()[k]).0@
            == a.drop_last()[k].0@ && b.drop_last()[k].1@ == a.drop_last()[k].1@ by {
            assert(a.drop_last()[k] == a[k]);
            assert(b.drop_last()[k] == b[k]);
        }
        lemma_pairs_views_equal(a.drop_last(), b.drop_last());
        assert(b.last().0@ == a.last().0@ && b.last().1@ == a.last().1@);
    }
}

impl ChainState for KeyValueMemoryState {
    fn duplicate(&self) -> (r: Self) {
        self.replicate()
    }
}

impl StorageExternalities for KeyValueMemoryState {
    open spec fn spec_storage(&self) -> Map<Seq<u8>, Seq<u8>> {
        self@
    }

    fn read_storage(&self, key: &[u8]) -> (r: Option<Vec<u8>>) {
        proof {
            use_type_invariant(self);
        }
        match find_pair(&self.storage, key) {
            Some(i) => {
                proof {
                    lemma_pairs_found(self.storage@, i as int);
                }
                Some(copy_bytes(self.storage[i].1.as_slice()))
            },
            None => {
                proof {
                    lemma_pairs_absent(self.storage@, key@);
                }
                None
            },
        }
    }

    fn write_storage(&mut self, key: Vec<u8>, value: Vec<u8>) {
        proof {
            use_type_invariant(&*self);
        }
        let mut storage: Vec<(Vec<u8>, Vec<u8>)> = Vec::new();
        core::mem::swap(&mut self.storage, &mut storage);
        let ghost s0 = storage@;
        match find_pair(&storage, key.as_slice()) {
            Some(i) => {
                proof {
                    lemma_pairs_update(s0, i as int, (key, value));
                    assert forall|i2: int, j2: int|
                        0 <= i2 < j2 < s0.update(i as int, (key, value)).len() implies (
                    #[trigger] s0.update(i as int, (key, value))[i2]).0@ != (#[trigger] s0.update(
                        i as int,
                        (key, value),
                    )[j2]).0@ by {
                        assert(s0[i2].0@ != s0[j2].0@);
                    }
                }
                storage.set(i, (key, value));
            },
            None => {
                proof {
                    lemma_pairs_absent(s0, key@);
                    assert(pairs_to_map(s0.push((key, value))) == pairs_to_map(s0).insert(
                        key@,
                        value@,
                    )) by {
                        assert(s0.push((key, value)).drop_last() =~= s0);
                    }
                    assert forall|i: int, j: int|
                        0 <= i < j < s0.push((key, value)).len() implies (#[trigger] s0.push(
                        (key, value),
                    )[i]).0@ != (#[trigger] s0.push((key, value))[j]).0@ by {
                        if j == s0.len() {
                            assert(s0.push((key, value))[i] == s0[i]);
                        } else {
                            assert(s0.push((key, value))[i] == s0[i]);
                            assert(s0.push((key, value))[j] == s0[j]);
                        }
                    }
                }
                storage.push((key, value));
            },
        }
        core::mem::swap(&mut self.storage, &mut storage);
    }

    fn remove_storage(&mut self, key: &[u8]) {
        proof {
            use_type_invariant(&*self);
        }
        let mut storage: Vec<(Vec<u8>, Vec<u8>)> = Vec::new();
        core::mem::swap(&mut self.storage, &mut storage);
        let ghost s0 = storage@;
        match find_pair(&storage, key) {
            Some(i) => {
                proof {
                    lemma_pairs_remove(s0, i as int);
                    assert forall|i2: int, j2: int|
                        0 <= i2 < j2 < s0.remove(i as int).len() implies (#[trigger] s0.remove(
                        i as int,
                    )[i2]).0@ != (#[trigger] s0.remove(i as int)[j2]).0@ by {
                        let t = s0.remove(i as int);
                        assert(t[i2] == (if i2 < i as int {
                            s0[i2]
                        } else {
                            s0[i2 + 1]
                        }));
                        assert(t[j2] == (if j2 < i as int {
                            s0[j2]
                        } else {
                            s0[j2 + 1]
                        }));
                    }
                }
                storage.remove(i);
            },
            None => {
                proof {
                    lemma_pairs_absent(s0, key@);
                    assert(pairs_to_map(s0).remove(key@) =~= pairs_to_map(s0));
                }
            },
        }
        core::mem::swap(&mut self.storage, &mut storage);
    }
}

} // verus!
