//! The secret store: for each owned note, the commitment and the secret
//! `rho` that opens it, in order of insertion, one entry per commitment.

use vstd::prelude::*;

verus! {

/// Owned secrets, keyed by commitment.
#[derive(Clone, Debug)]
pub struct SecretMap {
    entries: Vec<(String, [u8; 32])>,
}

/// Whether some entry has key `k`.
pub open spec fn has_key(s: Seq<(Seq<char>, Seq<u8>)>, k: Seq<char>) -> bool {
    exists|i: int| 0 <= i < s.len() && #[trigger] s[i].0 == k
}

/// Entry `i` is the first one with key `k`.
pub open spec fn first_with_key(s: Seq<(Seq<char>, Seq<u8>)>, k: Seq<char>, i: int) -> bool {
    &&& 0 <= i < s.len()
    &&& s[i].0 == k
    &&& forall|j: int| 0 <= j < i ==> #[trigger] s[j].0 != k
}

/// No two entries share a key.
pub open spec fn keys_unique(s: Seq<(Seq<char>, Seq<u8>)>) -> bool {
    forall|i: int, j: int| 0 <= i < j < s.len() ==> #[trigger] s[i].0 != #[trigger] s[j].0
}

/// `t` is `s` with `v` recorded under `k`: the first entry with key `k`
/// takes the new secret, or a new entry is appended when there is none.
pub open spec fn inserted(
    s: Seq<(Seq<char>, Seq<u8>)>,
    k: Seq<char>,
    v: Seq<u8>,
    t: Seq<(Seq<char>, Seq<u8>)>,
) -> bool {
    &&& has_key(s, k) ==> exists|i: int| first_with_key(s, k, i) && t == #[trigger] s.update(i, (k, v))
    &&& !has_key(s, k) ==> t == s.push((k, v))
}

/// The entries whose key is not among `spent`.
pub open spec fn without_keys(s: Seq<(Seq<char>, Seq<u8>)>, spent: Seq<Seq<char>>) -> Seq<
    (Seq<char>, Seq<u8>),
> {
    s.filter(|e: (Seq<char>, Seq<u8>)| !spent.contains(e.0))
}

/// Removing entries keeps the keys of the rest distinct.
pub proof fn lemma_without_keys_unique(s: Seq<(Seq<char>, Seq<u8>)>, spent: Seq<Seq<char>>)
    requires
        keys_unique(s),
    ensures
        keys_unique(without_keys(s, spent)),
    decreases s.len(),
{
    reveal(Seq::filter);
    if s.len() > 0 {
        let p = |e: (Seq<char>, Seq<u8>)| !spent.contains(e.0);
        let rest = s.drop_last();
        assert(keys_unique(rest));
        lemma_without_keys_unique(rest, spent);
        let f = without_keys(rest, spent);
        if p(s.last()) {
            assert forall|i: int| 0 <= i < f.len() implies #[trigger] f[i].0 != s.last().0 by {
                assert(f.contains(f[i]));
                rest.lemma_filter_contains_rev(p, f[i]);
                let j = choose|j: int| 0 <= j < rest.len() && rest[j] == f[i];
                assert(s[j] == rest[j]);
            }
            let t = f.push(s.last());
            assert(without_keys(s, spent) == t);
            assert forall|i: int, j: int| 0 <= i < j < t.len() implies #[trigger] t[i].0
                != #[trigger] t[j].0 by {
                if j == t.len() - 1 {
                    assert(f[i].0 != s.last().0);
                } else {
                    assert(t[i] == f[i] && t[j] == f[j]);
                }
            }
        }
    }
}

impl View for SecretMap {
    type V = Seq<(Seq<char>, Seq<u8>)>;

    closed spec fn view(&self) -> Seq<(Seq<char>, Seq<u8>)> {
        self.entries@.map_values(|e: (String, [u8; 32])| (e.0@, e.1@))
    }
}

impl SecretMap {
    /// An empty store.
    pub fn new() -> (r: SecretMap)
        ensures
            r@ == Seq::<(Seq<char>, Seq<u8>)>::empty(),
    {
        let r = SecretMap { entries: Vec::new() };
        assert(r@ =~= Seq::<(Seq<char>, Seq<u8>)>::empty());
        r
    }

    /// Every secret is 32 bytes long.
    pub proof fn lemma_secret_len(&self, i: int)
        requires
            0 <= i < self@.len(),
        ensures
            self@[i].1.len() == 32,
    {
    }

    /// The number of entries.
    pub fn len(&self) -> (r: usize)
        ensures
            r == self@.len(),
    {
        self.entries.len()
    }

    /// The key of entry `i`.
    pub fn key_at(&self, i: usize) -> (r: &String)
        requires
            i < self@.len(),
        ensures
            r@ == self@[i as int].0,
    {
        &self.entries[i].0
    }

    /// The secret of entry `i`.
    pub fn secret_at(&self, i: usize) -> (r: &[u8; 32])
        requires
            i < self@.len(),
        ensures
            r@ == self@[i as int].1,
    {
        &self.entries[i].1
    }

    fn index_of(&self, key: &String) -> (r: Option<usize>)
        ensures
            r is None <==> !has_key(self@, key@),
            r matches Some(i) ==> first_with_key(self@, key@, i as int),
    {
        let mut i: usize = 0;
        while i < self.entries.len()
            invariant
                i <= self@.len(),
                self@.len() == self.entries@.len(),
                forall|j: int| 0 <= j < i ==> #[trigger] self@[j].0 != key@,
            decreases self.entries.len() - i,
        {
            if self.entries[i].0 == *key {
                assert(self@[i as int].0 == key@);
                return Some(i);
            }
            i = i + 1;
        }
        None
    }

    /// The secret recorded under `key`, if any.
    pub fn get(&self, key: &String) -> (r: Option<&[u8; 32]>)
        ensures
            r is None <==> !has_key(self@, key@),
            r matches Some(v) ==> exists|i: int|
                first_with_key(self@, key@, i) && #[trigger] self@[i].1 == v@,
    {
        match self.index_of(key) {
            Some(i) => {
                let v = &self.entries[i].1;
                assert(self@[i as int].1 == v@);
                Some(v)
            },
            None => None,
        }
    }

    /// Whether a secret is recorded under `key`.
    pub fn contains_key(&self, key: &String) -> (r: bool)
        ensures
            r == has_key(self@, key@),
    {
        self.index_of(key).is_some()
    }

    /// Records `rho` under `key`, replacing the secret of an entry that has
    /// that key already.
    pub fn insert(&mut self, key: String, rho: [u8; 32])
        ensures
            inserted(old(self)@, key@, rho@, final(self)@),
            keys_unique(old(self)@) ==> keys_unique(final(self)@),
    {
        let ghost k = key@;
        match self.index_of(&key) {
            Some(i) => {
                self.entries.set(i, (key, rho));
                assert(final(self)@ =~= old(self)@.update(i as int, (k, rho@)));
            },
            None => {
                self.entries.push((key, rho));
                assert(final(self)@ =~= old(self)@.push((k, rho@)));
            },
        }
    }

    /// The store without the entries whose key is among `spent`, in order.
    pub fn without(&self, spent: &Vec<String>) -> (r: SecretMap)
        ensures
            r@ == without_keys(self@, views_of(spent@)),
            keys_unique(self@) ==> keys_unique(r@),
    {
        proof {
            if keys_unique(self@) {
                lemma_without_keys_unique(self@, views_of(spent@));
            }
        }
        let ghost sv = views_of(spent@);
        let mut out: Vec<(String, [u8; 32])> = Vec::new();
        let mut i: usize = 0;
        while i < self.entries.len()
            invariant
                i <= self@.len(),
                self@.len() == self.entries@.len(),
                sv == views_of(spent@),
                out@.map_values(|e: (String, [u8; 32])| (e.0@, e.1@)) == without_keys(
                    self@.take(i as int),
                    sv,
                ),
            decreases self.entries.len() - i,
        {
            let found = contains_string(spent, &self.entries[i].0);
            let ghost before = out@.map_values(|e: (String, [u8; 32])| (e.0@, e.1@));
            let ghost pre = self@.take(i as int);
            let ghost cur = self@.take(i + 1);
            proof {
                reveal(Seq::filter);
            }
            assert(cur.len() == i + 1);
            assert(cur.drop_last() =~= pre);
            assert(cur.last() == self@[i as int]);
            assert(self@[i as int].0 == self.entries@[i as int].0@);
            assert(found == sv.contains(self@[i as int].0));
            assert(without_keys(cur, sv) == if found {
                without_keys(pre, sv)
            } else {
                without_keys(pre, sv).push(self@[i as int])
            });
            if !found {
                out.push((self.entries[i].0.clone(), self.entries[i].1));
                assert(out@.map_values(|e: (String, [u8; 32])| (e.0@, e.1@)) =~= before.push(
                    self@[i as int],
                ));
            }
            i = i + 1;
        }
        assert(self@.take(i as int) =~= self@);
        SecretMap { entries: out }
    }
}

/// The views of a sequence of strings, in order.
pub open spec fn views_of(v: Seq<String>) -> Seq<Seq<char>> {
    v.map_values(|x: String| x@)
}

/// Whether `v` holds a string equal to `s`.
pub fn contains_string(v: &Vec<String>, s: &String) -> (r: bool)
    ensures
        r == views_of(v@).contains(s@),
{
    let mut i: usize = 0;
    while i < v.len()
        invariant
            i <= v@.len(),
            forall|j: int| 0 <= j < i ==> #[trigger] v@[j]@ != s@,
        decreases v.len() - i,
    {
        if v[i] == *s {
            assert(views_of(v@)[i as int] == s@);
            return true;
        }
        i = i + 1;
    }
    assert forall|j: int| 0 <= j < v@.len() implies #[trigger] views_of(v@)[j] != s@ by {
        assert(v@[j]@ != s@);
    }
    false
}

} // verus!
