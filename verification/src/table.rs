//! Address-keyed maps, stored as entry lists with pairwise-distinct keys.
use crate::cell_id::CellId;
use vstd::prelude::*;

verus! {

/// The mapping an entry list denotes: a later entry overrides an earlier
/// one with the same address.
pub open spec fn assoc_map<V>(s: Seq<(CellId, V)>) -> Map<CellId, V>
    decreases s.len(),
{
    if s.len() == 0 {
        Map::empty()
    } else {
        assoc_map(s.drop_last()).insert(s.last().0, s.last().1)
    }
}

/// No two entries share an address.
pub open spec fn keys_unique<V>(s: Seq<(CellId, V)>) -> bool {
    forall|i: int, j: int| 0 <= i < j < s.len() ==> (#[trigger] s[i]).0 != (#[trigger] s[j]).0
}

/// An address is in the denoted map exactly when some entry carries it.
pub proof fn lemma_assoc_dom<V>(s: Seq<(CellId, V)>, k: CellId)
    ensures
        assoc_map(s).contains_key(k) <==> exists|i: int| 0 <= i < s.len() && (#[trigger] s[i]).0 == k,
    decreases s.len(),
{
    if s.len() > 0 {
        lemma_assoc_dom(s.drop_last(), k);
        if s.last().0 == k {
            assert(s[s.len() - 1].0 == k);
        } else if assoc_map(s).contains_key(k) {
            let i = choose|i: int| 0 <= i < s.drop_last().len() && (#[trigger] s.drop_last()[i]).0 == k;
            assert(s[i].0 == k);
        } else if exists|i: int| 0 <= i < s.len() && (#[trigger] s[i]).0 == k {
            let i = choose|i: int| 0 <= i < s.len() && (#[trigger] s[i]).0 == k;
            assert(s.drop_last()[i].0 == k);
        }
    }
}

/// With distinct keys, each entry is what the denoted map holds at its
/// address.
pub proof fn lemma_assoc_at<V>(s: Seq<(CellId, V)>, i: int)
    requires
        keys_unique(s),
        0 <= i < s.len(),
    ensures
        assoc_map(s).contains_key(s[i].0),
        assoc_map(s)[s[i].0] == s[i].1,
    decreases s.len(),
{
    if i == s.len() - 1 {
    } else {
        assert(s.drop_last()[i] == s[i]);
        lemma_assoc_at(s.drop_last(), i);
        assert(s[i].0 != s.last().0);
    }
}

/// Removing an entry takes exactly its address out of the denoted map.
pub proof fn lemma_assoc_remove<V>(s: Seq<(CellId, V)>, i: int)
    requires
        keys_unique(s),
        0 <= i < s.len(),
    ensures
        !assoc_map(s.remove(i)).contains_key(s[i].0),
        forall|k: CellId|
            k != s[i].0 ==> (assoc_map(s.remove(i)).contains_key(k) <==> assoc_map(s).contains_key(
                k,
            )),
        forall|k: CellId|
            k != s[i].0 && assoc_map(s).contains_key(k) ==> assoc_map(s.remove(i))[k] == assoc_map(
                s,
            )[k],
        keys_unique(s.remove(i)),
    decreases s.len(),
{
    assert forall|a: int, b: int| 0 <= a < b < s.remove(i).len() implies (#[trigger] s.remove(
        i,
    )[a]).0 != (#[trigger] s.remove(i)[b]).0 by {
        let a0 = if a < i {
            a
        } else {
            a + 1
        };
        let b0 = if b < i {
            b
        } else {
            b + 1
        };
        assert(s.remove(i)[a] == s[a0] && s.remove(i)[b] == s[b0]);
    }
    lemma_assoc_dom(s.remove(i), s[i].0);
    if exists|j: int| 0 <= j < s.remove(i).len() && (#[trigger] s.remove(i)[j]).0 == s[i].0 {
        let j = choose|j: int| 0 <= j < s.remove(i).len() && (#[trigger] s.remove(i)[j]).0 == s[i].0;
        let j0 = if j < i {
            j
        } else {
            j + 1
        };
        assert(s[j0].0 == s[i].0 && j0 != i);
    }
    if i == s.len() - 1 {
        assert(s.remove(i) =~= s.drop_last());
        lemma_assoc_dom(s.drop_last(), s[i].0);
        if exists|j: int| 0 <= j < s.drop_last().len() && (#[trigger] s.drop_last()[j]).0
            == s[i].0 {
            let j = choose|j: int|
                0 <= j < s.drop_last().len() && (#[trigger] s.drop_last()[j]).0 == s[i].0;
            assert(s[j].0 == s[i].0 && j < i);
        }
    } else {
        let d = s.drop_last();
        assert(s.remove(i).drop_last() =~= d.remove(i));
        assert(s.remove(i).last() == s.last());
        assert forall|a: int, b: int| 0 <= a < b < d.len() implies (#[trigger] d[a]).0 != (
        #[trigger] d[b]).0 by {
            assert(d[a] == s[a] && d[b] == s[b]);
        }
        assert(d[i] == s[i]);
        lemma_assoc_remove(d, i);
        assert(s.last().0 != s[i].0);
        assert(assoc_map(s.remove(i)) == assoc_map(d.remove(i)).insert(s.last().0, s.last().1));
        assert(assoc_map(s) == assoc_map(d).insert(s.last().0, s.last().1));
        assert forall|k: CellId| k != s[i].0 implies (assoc_map(s.remove(i)).contains_key(k)
            <==> assoc_map(s).contains_key(k)) by {
            if k != s.last().0 {
                assert(assoc_map(d.remove(i)).contains_key(k) <==> assoc_map(d).contains_key(k));
            }
        }
        assert forall|k: CellId| k != s[i].0 && assoc_map(s).contains_key(k) implies assoc_map(
            s.remove(i),
        )[k] == assoc_map(s)[k] by {
            if k != s.last().0 {
                assert(assoc_map(d).contains_key(k));
                assert(assoc_map(d.remove(i))[k] == assoc_map(d)[k]);
            }
        }
    }
}

/// An address-keyed map, stored as an entry list with pairwise-distinct
/// addresses; a lookup finds the entry that carries the address.
#[derive(Debug)]
pub struct AssocMap<V> {
    pub entries: Vec<(CellId, V)>,
}

impl<V> View for AssocMap<V> {
    type V = Map<CellId, V>;

    open spec fn view(&self) -> Map<CellId, V> {
        assoc_map(self.entries@)
    }
}

impl<V> AssocMap<V> {
    /// Entries carry pairwise-distinct addresses.
    pub open spec fn wf(&self) -> bool {
        keys_unique(self.entries@)
    }

    /// An empty map.
    pub fn new() -> (r: Self)
        ensures
            r.wf(),
            r@ == Map::<CellId, V>::empty(),
            r.entries@.len() == 0,
    {
        AssocMap { entries: Vec::new() }
    }

    /// How many entries the map holds.
    pub fn len(&self) -> (n: usize)
        ensures
            n == self.entries@.len(),
    {
        self.entries.len()
    }

    /// The entry at a position, for walking all entries.
    pub fn entry_at(&self, i: usize) -> (r: &(CellId, V))
        requires
            i < self.entries@.len(),
        ensures
            *r == self.entries@[i as int],
    {
        &self.entries[i]
    }

    /// The value stored at an address, if the address has one.
    pub fn get(&self, k: &CellId) -> (r: Option<&V>)
        requires
            self.wf(),
        ensures
            (match r {
                Some(v) => self@.contains_key(*k) && *v == self@[*k],
                None => !self@.contains_key(*k),
            }),
    {
        let n = self.entries.len();
        let mut i: usize = 0;
        while i < n
            invariant
                i <= n,
                n == self.entries@.len(),
                self.wf(),
                forall|j: int| 0 <= j < i ==> (#[trigger] self.entries@[j]).0 != *k,
            decreases n - i,
        {
            if self.entries[i].0 == *k {
                proof {
                    lemma_assoc_at(self.entries@, i as int);
                }
                return Some(&self.entries[i].1);
            }
            i += 1;
        }
        proof {
            lemma_assoc_dom(self.entries@, *k);
        }
        None
    }

    /// Stores a value at an address, replacing what the address held.
    pub fn insert(&mut self, k: CellId, v: V)
        requires
            old(self).wf(),
        ensures
            final(self).wf(),
            final(self)@ == old(self)@.insert(k, v),
    {
        let n = self.entries.len();
        let mut i: usize = 0;
        while i < n
            invariant
                i <= n,
                n == self.entries@.len(),
                self.wf(),
                *self == *old(self),
                forall|j: int| 0 <= j < i ==> (#[trigger] self.entries@[j]).0 != k,
            decreases n - i,
        {
            if self.entries[i].0 == k {
                proof {
                    lemma_assoc_remove(self.entries@, i as int);
                    lemma_assoc_dom(self.entries@.remove(i as int), k);
                }
                let ghost removed = self.entries@.remove(i as int);
                self.entries.remove(i);
                self.entries.push((k, v));
                proof {
                    assert(self.entries@.drop_last() =~= removed);
                    assert forall|a: int, b: int| 0 <= a < b < self.entries@.len() implies (
                    #[trigger] self.entries@[a]).0 != (#[trigger] self.entries@[b]).0 by {
                        lemma_assoc_dom(removed, self.entries@[b].0);
                    }
                    assert(self@ =~= old(self)@.insert(k, v));
                }
                return ;
            }
            i += 1;
        }
        self.entries.push((k, v));
        proof {
            assert(self.entries@.drop_last() =~= old(self).entries@);
            assert forall|a: int, b: int| 0 <= a < b < self.entries@.len() implies (
            #[trigger] self.entries@[a]).0 != (#[trigger] self.entries@[b]).0 by {
                if b == self.entries@.len() - 1 {
                    assert(old(self).entries@[a].0 != k);
                }
            }
        }
    }
}

} // verus!
