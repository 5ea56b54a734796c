//! Dependency bookkeeping and Kahn's topological sort over cell addresses.
use crate::cell_id::CellId;
use crate::error::{Error, SpecErr};
use crate::expr::{is_dep, table_view, Cells, SpecExpr};
use crate::table::{lemma_assoc_at, lemma_assoc_dom};
use vstd::prelude::*;

verus! {

/// An element is in a pushed sequence exactly when it was there before or
/// is the pushed one.
proof fn lemma_push_contains(s: Seq<CellId>, x: CellId, y: CellId)
    ensures
        s.push(x).contains(y) <==> s.contains(y) || y == x,
{
    if s.push(x).contains(y) {
        let i = choose|i: int| 0 <= i < s.push(x).len() && s.push(x)[i] == y;
        if i < s.len() {
            assert(s[i] == y);
        }
    }
    if s.contains(y) {
        let i = choose|i: int| 0 <= i < s.len() && s[i] == y;
        assert(s.push(x)[i] == y);
    }
    if y == x {
        assert(s.push(x)[s.len() as int] == y);
    }
}

/// Appending to a duplicate-free sequence an element it does not hold
/// keeps it duplicate-free.
proof fn lemma_push_no_dup(s: Seq<CellId>, x: CellId)
    requires
        s.no_duplicates(),
        !s.contains(x),
    ensures
        s.push(x).no_duplicates(),
{
    assert forall|i: int, j: int| 0 <= i < j < s.push(x).len() implies s.push(x)[i] != s.push(
        x,
    )[j] by {
        if j == s.len() {
            assert(s[i] == s.push(x)[i]);
        }
    }
}

/// Removing a position from a duplicate-free sequence removes exactly that
/// element, and keeps the sequence duplicate-free.
proof fn lemma_remove_at(s: Seq<CellId>, p: int)
    requires
        s.no_duplicates(),
        0 <= p < s.len(),
    ensures
        forall|y: CellId| s.remove(p).contains(y) <==> s.contains(y) && y != s[p],
        s.remove(p).no_duplicates(),
        s.remove(p).len() == s.len() - 1,
{
    s.remove_ensures(p);
    assert forall|y: CellId| s.remove(p).contains(y) <==> s.contains(y) && y != s[p] by {
        if s.remove(p).contains(y) {
            let i = choose|i: int| 0 <= i < s.remove(p).len() && s.remove(p)[i] == y;
            if i < p {
                assert(s[i] == y);
                assert(s[i] != s[p]);
            } else {
                assert(s[i + 1] == y);
                assert(s[i + 1] != s[p]);
            }
        }
        if s.contains(y) && y != s[p] {
            let i = choose|i: int| 0 <= i < s.len() && s[i] == y;
            if i < p {
                assert(s.remove(p)[i] == y);
            } else {
                assert(s.remove(p)[i - 1] == y);
            }
        }
    }
    assert forall|i: int, j: int| 0 <= i < j < s.remove(p).len() implies s.remove(p)[i] != s.remove(
        p,
    )[j] by {
        let i0 = if i < p {
            i
        } else {
            i + 1
        };
        let j0 = if j < p {
            j
        } else {
            j + 1
        };
        assert(s.remove(p)[i] == s[i0] && s.remove(p)[j] == s[j0]);
    }
}

/// A duplicate-free sequence whose elements all occur in another
/// duplicate-free sequence is no longer than it.
proof fn lemma_unique_subset_len(a: Seq<CellId>, b: Seq<CellId>)
    requires
        a.no_duplicates(),
        b.no_duplicates(),
        forall|x: CellId| a.contains(x) ==> b.contains(x),
    ensures
        a.len() <= b.len(),
{
    broadcast use vstd::seq_lib::seq_to_set_is_finite;

    a.unique_seq_to_set();
    b.unique_seq_to_set();
    assert(a.to_set().subset_of(b.to_set()));
    vstd::set_lib::lemma_len_subset(a.to_set(), b.to_set());
}

/// The position of an address in a vector of addresses, if it occurs.
fn find_id(v: &Vec<CellId>, x: &CellId) -> (r: Option<usize>)
    ensures
        (match r {
            Some(p) => p < v@.len() && v@[p as int] == *x,
            None => !v@.contains(*x),
        }),
{
    let n = v.len();
    let mut i: usize = 0;
    while i < n
        invariant
            i <= n,
            n == v@.len(),
            forall|j: int| 0 <= j < i ==> v@[j] != *x,
        decreases n - i,
    {
        if v[i] == *x {
            return Some(i);
        }
        i += 1;
    }
    None
}

/// Whether a vector of addresses holds the given address.
fn contains_id(v: &Vec<CellId>, x: &CellId) -> (r: bool)
    ensures
        r == v@.contains(*x),
{
    let n = v.len();
    let mut i: usize = 0;
    while i < n
        invariant
            i <= n,
            n == v@.len(),
            forall|j: int| 0 <= j < i ==> v@[j] != *x,
        decreases n - i,
    {
        if v[i] == *x {
            return true;
        }
        i += 1;
    }
    false
}

/// A copy of a vector of addresses.
fn copy_ids(v: &Vec<CellId>) -> (r: Vec<CellId>)
    ensures
        r@ == v@,
{
    let n = v.len();
    let mut r: Vec<CellId> = Vec::new();
    let mut i: usize = 0;
    while i < n
        invariant
            i <= n,
            n == v@.len(),
            r@ == v@.take(i as int),
        decreases n - i,
    {
        r.push(v[i]);
        proof {
            assert(v@.take(i as int).push(v@[i as int]) =~= v@.take(i + 1 as int));
        }
        i += 1;
    }
    proof {
        assert(v@.take(n as int) =~= v@);
    }
    r
}

/// The same addresses with every repetition dropped.
fn dedup_ids(v: &Vec<CellId>) -> (r: Vec<CellId>)
    ensures
        r@.no_duplicates(),
        forall|x: CellId| r@.contains(x) <==> v@.contains(x),
{
    let n = v.len();
    let mut r: Vec<CellId> = Vec::new();
    let mut i: usize = 0;
    while i < n
        invariant
            i <= n,
            n == v@.len(),
            r@.no_duplicates(),
            forall|x: CellId| r@.contains(x) <==> v@.take(i as int).contains(x),
        decreases n - i,
    {
        let ghost prev = r@;
        if !contains_id(&r, &v[i]) {
            r.push(v[i]);
            proof {
                lemma_push_no_dup(prev, v@[i as int]);
            }
        }
        proof {
            assert forall|x: CellId| r@.contains(x) <==> v@.take(i + 1 as int).contains(x) by {
                lemma_push_contains(prev, v@[i as int], x);
                lemma_push_contains(v@.take(i as int), v@[i as int], x);
                assert(v@.take(i as int).push(v@[i as int]) =~= v@.take(i + 1 as int));
            }
        }
        i += 1;
    }
    proof {
        assert(v@.take(n as int) =~= v@);
    }
    r
}

/// What a key list and a parallel list of lists record for an address:
/// the list at the key's position, or nothing.
pub open spec fn deps_lookup(keys: Seq<CellId>, lists: Seq<Vec<CellId>>, d: CellId) -> Seq<CellId> {
    if exists|i: int| 0 <= i < keys.len() && keys[i] == d {
        lists[choose|i: int| 0 <= i < keys.len() && keys[i] == d]@
    } else {
        Seq::empty()
    }
}

/// The prepared state of Kahn's algorithm: the table's addresses, each
/// address's not-yet-resolved dependencies, the reverse adjacency, and the
/// worklist of addresses whose dependencies are all resolved.
pub struct State {
    /// The table's addresses, in table order, pairwise distinct.
    pub nodes: Vec<CellId>,
    /// For each address of `nodes`, its dependencies that are not yet
    /// resolved; an address stands in the dependency graph exactly while
    /// this list is non-empty.
    pub remaining: Vec<Vec<CellId>>,
    /// The addresses that something depends on, pairwise distinct.
    pub dep_keys: Vec<CellId>,
    /// For each address of `dep_keys`, the addresses depending on it.
    pub dep_lists: Vec<Vec<CellId>>,
    /// Addresses whose dependencies are all resolved and that have not
    /// been handed out yet.
    pub no_deps: Vec<CellId>,
}

impl State {
    /// The not-yet-resolved dependencies of the address at a position.
    pub open spec fn rem(&self, j: int) -> Seq<CellId> {
        self.remaining@[j]@
    }

    /// The recorded dependents of an address, empty if none were recorded.
    pub open spec fn dependents_of(&self, d: CellId) -> Seq<CellId> {
        deps_lookup(self.dep_keys@, self.dep_lists@, d)
    }

    /// The state's representation invariant: parallel lists line up and
    /// hold no repeated addresses, and the worklist holds only addresses
    /// whose dependencies are all resolved.
    pub open spec fn wf(&self) -> bool {
        &&& self.remaining@.len() == self.nodes@.len()
        &&& self.dep_lists@.len() == self.dep_keys@.len()
        &&& self.nodes@.no_duplicates()
        &&& self.dep_keys@.no_duplicates()
        &&& (forall|j: int| 0 <= j < self.nodes@.len() ==> (#[trigger] self.remaining@[j])@.no_duplicates())
        &&& (forall|i: int|
            0 <= i < self.dep_keys@.len() ==> (#[trigger] self.dep_lists@[i])@.no_duplicates())
        &&& self.no_deps@.no_duplicates()
        &&& (forall|x: CellId|
            self.no_deps@.contains(x) ==> exists|j: int|
                0 <= j < self.nodes@.len() && self.nodes@[j] == x && (#[trigger] self.rem(j)).len()
                    == 0)
    }

    /// The position of an address among the state's nodes, if it is one.
    fn find_node(&self, id: &CellId) -> (r: Option<usize>)
        ensures
            (match r {
                Some(i) => i < self.nodes@.len() && self.nodes@[i as int] == *id,
                None => !self.nodes@.contains(*id),
            }),
    {
        let n = self.nodes.len();
        let mut i: usize = 0;
        while i < n
            invariant
                i <= n,
                n == self.nodes@.len(),
                forall|j: int| 0 <= j < i ==> self.nodes@[j] != *id,
            decreases n - i,
        {
            if self.nodes[i] == *id {
                return Some(i);
            }
            i += 1;
        }
        None
    }

    /// The addresses that depend on the given address, if any were
    /// recorded.
    pub fn get_dependents(&self, dependency: &CellId) -> (r: Option<&Vec<CellId>>)
        requires
            self.wf(),
        ensures
            (match r {
                Some(l) => self.dep_keys@.contains(*dependency) && l@ == self.dependents_of(
                    *dependency,
                ),
                None => !self.dep_keys@.contains(*dependency),
            }),
    {
        let n = self.dep_keys.len();
        let mut i: usize = 0;
        while i < n
            invariant
                i <= n,
                n == self.dep_keys@.len(),
                self.wf(),
                forall|j: int| 0 <= j < i ==> self.dep_keys@[j] != *dependency,
            decreases n - i,
        {
            if self.dep_keys[i] == *dependency {
                proof {
                    assert(self.dep_keys@[i as int] == *dependency);
                    let w = choose|w: int|
                        0 <= w < self.dep_keys@.len() && self.dep_keys@[w] == *dependency;
                    assert(w == i);
                }
                return Some(&self.dep_lists[i]);
            }
            i += 1;
        }
        None
    }

    /// Whether every address's dependencies are resolved: the dependency
    /// graph is empty.
    pub fn is_resolved(&self) -> (r: bool)
        requires
            self.wf(),
        ensures
            r == (forall|j: int| 0 <= j < self.nodes@.len() ==> (#[trigger] self.rem(j)).len() == 0),
    {
        let n = self.nodes.len();
        let mut i: usize = 0;
        while i < n
            invariant
                i <= n,
                n == self.nodes@.len(),
                self.wf(),
                forall|j: int| 0 <= j < i ==> (#[trigger] self.rem(j)).len() == 0,
            decreases n - i,
        {
            if self.remaining[i].len() > 0 {
                proof {
                    assert(self.rem(i as int).len() > 0);
                }
                return false;
            }
            i += 1;
        }
        true
    }

    /// The addresses whose dependencies can never all be resolved: those
    /// still holding an unresolved dependency.
    pub fn unresolved(&self) -> (r: Vec<CellId>)
        requires
            self.wf(),
        ensures
            r@.no_duplicates(),
            forall|x: CellId|
                r@.contains(x) <==> exists|j: int|
                    0 <= j < self.nodes@.len() && self.nodes@[j] == x && (#[trigger] self.rem(
                        j,
                    )).len() > 0,
    {
        let n = self.nodes.len();
        let mut r: Vec<CellId> = Vec::new();
        let mut i: usize = 0;
        while i < n
            invariant
                i <= n,
                n == self.nodes@.len(),
                self.wf(),
                r@.no_duplicates(),
                forall|x: CellId|
                    r@.contains(x) <==> exists|j: int|
                        0 <= j < i && self.nodes@[j] == x && (#[trigger] self.rem(j)).len() > 0,
            decreases n - i,
        {
            let ghost prev = r@;
            if self.remaining[i].len() > 0 {
                r.push(self.nodes[i]);
                proof {
                    assert(!prev.contains(self.nodes@[i as int])) by {
                        if prev.contains(self.nodes@[i as int]) {
                            let j = choose|j: int|
                                0 <= j < i && self.nodes@[j] == self.nodes@[i as int] && (
                                #[trigger] self.rem(j)).len() > 0;
                        }
                    }
                    lemma_push_no_dup(prev, self.nodes@[i as int]);
                }
            }
            proof {
                assert forall|x: CellId|
                    r@.contains(x) <==> exists|j: int|
                        0 <= j < i + 1 && self.nodes@[j] == x && (#[trigger] self.rem(j)).len()
                            > 0 by {
                    lemma_push_contains(prev, self.nodes@[i as int], x);
                    if r@.contains(x) {
                        if prev.contains(x) {
                            let j = choose|j: int|
                                0 <= j < i && self.nodes@[j] == x && (#[trigger] self.rem(j)).len()
                                    > 0;
                            assert(0 <= j < i + 1 && self.nodes@[j] == x && self.rem(j).len() > 0);
                        } else {
                            assert(x == self.nodes@[i as int] && self.rem(i as int).len() > 0);
                        }
                    }
                    if exists|j: int|
                        0 <= j < i + 1 && self.nodes@[j] == x && (#[trigger] self.rem(j)).len()
                            > 0 {
                        let j = choose|j: int|
                            0 <= j < i + 1 && self.nodes@[j] == x && (#[trigger] self.rem(j)).len()
                                > 0;
                        if j < i {
                            assert(prev.contains(x));
                        } else {
                            assert(self.rem(i as int).len() > 0);
                        }
                    }
                }
            }
            i += 1;
        }
        r
    }

    /// Notes that `dependency` is resolved for `dependent`: takes it out
    /// of the dependent's unresolved dependencies, and when none remain,
    /// hands the dependent to the worklist.  An address that is not a node
    /// of the graph is left alone.
    pub fn resolve(&mut self, dependent: &CellId, dependency: &CellId)
        requires
            old(self).wf(),
        ensures
            final(self).wf(),
            final(self).nodes@ == old(self).nodes@,
            final(self).dep_keys@ == old(self).dep_keys@,
            final(self).dep_lists@ == old(self).dep_lists@,
            final(self).remaining@.len() == old(self).remaining@.len(),
            (forall|j: int|
                0 <= j < old(self).nodes@.len() && old(self).nodes@[j] != *dependent ==> final(self).remaining@[j] == (#[trigger] old(self).remaining@[j])),
            (forall|j: int, d: CellId|
                0 <= j < old(self).nodes@.len() && old(self).nodes@[j] == *dependent ==> (
                #[trigger] final(self).rem(j).contains(d) <==> old(self).rem(j).contains(d) && d
                    != *dependency)),
            (forall|j: int|
                0 <= j < old(self).nodes@.len() && old(self).nodes@[j] == *dependent && !old(
                    self,
                ).rem(j).contains(*dependency) ==> final(self).remaining@[j] == (#[trigger] old(
                    self,
                ).remaining@[j])),
            (if exists|j: int|
                0 <= j < old(self).nodes@.len() && old(self).nodes@[j] == *dependent && (
                #[trigger] old(self).rem(j)).contains(*dependency) && old(self).rem(j).len() == 1 {
                final(self).no_deps@ == old(self).no_deps@.push(*dependent)
            } else {
                final(self).no_deps@ == old(self).no_deps@
            }),
    {
        let found = self.find_node(dependent);
        match found {
            None => {},
            Some(i) => {
                let found = find_id(&self.remaining[i], dependency);
                if let Some(p) = found {
                    let ghost oldrow = self.rem(i as int);
                    let mut row = self.remaining.remove(i);
                    row.remove(p);
                    let emptied = row.len() == 0;
                    self.remaining.insert(i, row);
                    proof {
                        assert(self.remaining@ =~= old(self).remaining@.update(
                            i as int,
                            self.remaining@[i as int],
                        ));
                        lemma_remove_at(oldrow, p as int);
                        assert forall|j: int|
                            0 <= j < old(self).nodes@.len() && old(self).nodes@[j] == *dependent
                                && j != i implies false by {
                            assert(old(self).nodes@[i as int] == old(self).nodes@[j]);
                        }
                    }
                    if emptied {
                        self.no_deps.push(*dependent);
                        proof {
                            assert(!old(self).no_deps@.contains(*dependent)) by {
                                if old(self).no_deps@.contains(*dependent) {
                                    let j = choose|j: int|
                                        0 <= j < old(self).nodes@.len() && old(self).nodes@[j]
                                            == *dependent && (#[trigger] old(self).rem(j)).len()
                                            == 0;
                                    assert(j == i);
                                }
                            }
                            lemma_push_no_dup(old(self).no_deps@, *dependent);
                            assert forall|x: CellId| self.no_deps@.contains(x) implies exists|
                                j: int,
                            |
                                0 <= j < self.nodes@.len() && self.nodes@[j] == x && (
                                #[trigger] self.rem(j)).len() == 0 by {
                                lemma_push_contains(old(self).no_deps@, *dependent, x);
                                if old(self).no_deps@.contains(x) {
                                    let j = choose|j: int|
                                        0 <= j < old(self).nodes@.len() && old(self).nodes@[j] == x
                                            && (#[trigger] old(self).rem(j)).len() == 0;
                                    assert(j != i);
                                    assert(self.rem(j).len() == 0);
                                } else {
                                    assert(self.rem(i as int).len() == 0);
                                }
                            }
                        }
                    } else {
                        proof {
                            assert forall|x: CellId| self.no_deps@.contains(x) implies exists|
                                j: int,
                            |
                                0 <= j < self.nodes@.len() && self.nodes@[j] == x && (
                                #[trigger] self.rem(j)).len() == 0 by {
                                let j = choose|j: int|
                                    0 <= j < old(self).nodes@.len() && old(self).nodes@[j] == x && (
                                    #[trigger] old(self).rem(j)).len() == 0;
                                assert(j != i);
                                assert(self.rem(j).len() == 0);
                            }
                        }
                    }
                } else {
                    proof {
                        assert(!self.rem(i as int).contains(*dependency));
                        assert forall|j: int|
                            0 <= j < old(self).nodes@.len() && old(self).nodes@[j] == *dependent
                                && j != i implies false by {
                            assert(old(self).nodes@[i as int] == old(self).nodes@[j]);
                        }
                    }
                }
            },
        }
    }
}

} // verus!

verus! {

/// With distinct keys, the record of the key at a position is exactly that
/// position's list.
proof fn lemma_lookup_at(keys: Seq<CellId>, lists: Seq<Vec<CellId>>, i: int)
    requires
        keys.no_duplicates(),
        lists.len() == keys.len(),
        0 <= i < keys.len(),
    ensures
        deps_lookup(keys, lists, keys[i]) == lists[i]@,
{
    let d = keys[i];
    assert(0 <= i < keys.len() && keys[i] == d);
    let w = choose|w: int| 0 <= w < keys.len() && keys[w] == d;
    assert(w == i);
}

/// An address recorded under no key has an empty record.
proof fn lemma_lookup_absent(keys: Seq<CellId>, lists: Seq<Vec<CellId>>, d: CellId)
    requires
        !keys.contains(d),
    ensures
        deps_lookup(keys, lists, d) == Seq::<CellId>::empty(),
{
    if exists|i: int| 0 <= i < keys.len() && keys[i] == d {
        let i = choose|i: int| 0 <= i < keys.len() && keys[i] == d;
        assert(keys.contains(d));
    }
}

/// Growing one list of a record grows the record pointwise.
proof fn lemma_lookup_update(keys: Seq<CellId>, lists: Seq<Vec<CellId>>, ik: int, l2: Vec<CellId>)
    requires
        keys.no_duplicates(),
        lists.len() == keys.len(),
        0 <= ik < keys.len(),
        forall|x: CellId| lists[ik]@.contains(x) ==> l2@.contains(x),
    ensures
        forall|d: CellId, x: CellId|
            #[trigger] deps_lookup(keys, lists, d).contains(x) ==> deps_lookup(
                keys,
                lists.update(ik, l2),
                d,
            ).contains(x),
        deps_lookup(keys, lists.update(ik, l2), keys[ik]) == l2@,
{
    lemma_lookup_at(keys, lists.update(ik, l2), ik);
    assert forall|d: CellId, x: CellId|
        #[trigger] deps_lookup(keys, lists, d).contains(x) implies deps_lookup(
        keys,
        lists.update(ik, l2),
        d,
    ).contains(x) by {
        let w = choose|w: int| 0 <= w < keys.len() && keys[w] == d;
        lemma_lookup_at(keys, lists, w);
        lemma_lookup_at(keys, lists.update(ik, l2), w);
    }
}

/// Recording a new key keeps every old record and gives the new key the
/// new list.
proof fn lemma_lookup_push(keys: Seq<CellId>, lists: Seq<Vec<CellId>>, d1: CellId, l1: Vec<CellId>)
    requires
        keys.no_duplicates(),
        lists.len() == keys.len(),
        !keys.contains(d1),
    ensures
        forall|d: CellId|
            d != d1 ==> #[trigger] deps_lookup(keys.push(d1), lists.push(l1), d) == deps_lookup(
                keys,
                lists,
                d,
            ),
        deps_lookup(keys.push(d1), lists.push(l1), d1) == l1@,
{
    lemma_push_no_dup(keys, d1);
    lemma_lookup_at(keys.push(d1), lists.push(l1), keys.len() as int);
    assert forall|d: CellId| d != d1 implies #[trigger] deps_lookup(
        keys.push(d1),
        lists.push(l1),
        d,
    ) == deps_lookup(keys, lists, d) by {
        if exists|i: int| 0 <= i < keys.len() && keys[i] == d {
            let w = choose|w: int| 0 <= w < keys.len() && keys[w] == d;
            lemma_lookup_at(keys, lists, w);
            assert(keys.push(d1)[w] == d);
            lemma_lookup_at(keys.push(d1), lists.push(l1), w);
        } else {
            lemma_lookup_absent(keys, lists, d);
            if exists|i: int| 0 <= i < keys.push(d1).len() && keys.push(d1)[i] == d {
                let w = choose|w: int| 0 <= w < keys.push(d1).len() && keys.push(d1)[w] == d;
                assert(w < keys.len());
                assert(keys[w] == d);
                assert(keys.contains(d));
            }
            lemma_lookup_absent(keys.push(d1), lists.push(l1), d);
        }
    }
}

/// A recorded dependent is justified: position `xi` of the list recorded
/// under key `ki` names one of the first `bound` nodes, and that node's
/// dependency row holds the key.
pub open spec fn justified_entry(
    nodes: Seq<CellId>,
    remaining: Seq<Vec<CellId>>,
    bound: int,
    keys: Seq<CellId>,
    lists: Seq<Vec<CellId>>,
    ki: int,
    xi: int,
) -> bool {
    exists|j: int|
        0 <= j < bound && nodes[j] == lists[ki]@[xi] && (#[trigger] remaining[j])@.contains(
            keys[ki],
        )
}

impl State {
    /// Prepares Kahn's algorithm for a table: records every address's
    /// dependencies and its dependents, and seeds the worklist with the
    /// addresses whose expressions read no cell at all.
    pub fn from_cells(cells: &Cells) -> (st: State)
        requires
            cells.wf(),
        ensures
            st.wf(),
            st.nodes@.len() == cells.entries@.len(),
            forall|j: int|
                0 <= j < st.nodes@.len() ==> st.nodes@[j] == (#[trigger] cells.entries@[j]).0,
            forall|j: int, d: CellId|
                0 <= j < st.nodes@.len() ==> (#[trigger] st.rem(j).contains(d) <==> is_dep(
                    cells.entries@[j].1@,
                    d,
                )),
            forall|j: int, d: CellId|
                0 <= j < st.nodes@.len() && #[trigger] st.rem(j).contains(d)
                    ==> st.dependents_of(d).contains(st.nodes@[j]),
            forall|d: CellId, x: CellId|
                #[trigger] st.dependents_of(d).contains(x) ==> exists|j: int|
                    0 <= j < st.nodes@.len() && st.nodes@[j] == x && (#[trigger] st.rem(
                        j,
                    )).contains(d),
            forall|x: CellId|
                st.no_deps@.contains(x) <==> (exists|j: int|
                    0 <= j < st.nodes@.len() && st.nodes@[j] == x && (#[trigger] st.rem(j)).len()
                        == 0),
    {
        let mut st = State {
            nodes: Vec::new(),
            remaining: Vec::new(),
            dep_keys: Vec::new(),
            dep_lists: Vec::new(),
            no_deps: Vec::new(),
        };
        let n = cells.len();
        let mut i: usize = 0;
        while i < n
            invariant
                i <= n,
                n == cells.entries@.len(),
                cells.wf(),
                st.nodes@.len() == i,
                st.remaining@.len() == i,
                st.dep_lists@.len() == st.dep_keys@.len(),
                st.nodes@.no_duplicates(),
                st.dep_keys@.no_duplicates(),
                forall|j: int| 0 <= j < i ==> st.nodes@[j] == (#[trigger] cells.entries@[j]).0,
                forall|j: int| 0 <= j < i ==> (#[trigger] st.rem(j)).no_duplicates(),
                forall|k: int|
                    0 <= k < st.dep_keys@.len() ==> (#[trigger] st.dep_lists@[k])@.no_duplicates(),
                forall|j: int, d: CellId|
                    0 <= j < i ==> (#[trigger] st.rem(j).contains(d) <==> is_dep(
                        cells.entries@[j].1@,
                        d,
                    )),
                forall|j: int, d: CellId|
                    0 <= j < i && #[trigger] st.rem(j).contains(d) ==> st.dependents_of(
                        d,
                    ).contains(st.nodes@[j]),
                forall|ki: int, xi: int|
                    0 <= ki < st.dep_keys@.len() && 0 <= xi < st.dep_lists@[ki]@.len()
                        ==> #[trigger] justified_entry(
                        st.nodes@,
                        st.remaining@,
                        i as int,
                        st.dep_keys@,
                        st.dep_lists@,
                        ki,
                        xi,
                    ),
                st.no_deps@.no_duplicates(),
                forall|x: CellId|
                    st.no_deps@.contains(x) <==> (exists|j: int|
                        0 <= j < i && st.nodes@[j] == x && (#[trigger] st.rem(j)).len() == 0),
            decreases n - i,
        {
            let ghost st0 = st;
            let p = cells.entry_at(i);
            let id = p.0;
            let raw = p.1.get_deps();
            let rdeps = dedup_ids(&raw);
            let ghost rd = rdeps@;
            proof {
                assert(cells.entries@[i as int].0 == id);
                assert(!st.nodes@.contains(id)) by {
                    if st.nodes@.contains(id) {
                        let j = choose|j: int| 0 <= j < st.nodes@.len() && st.nodes@[j] == id;
                        assert(cells.entries@[j].0 == cells.entries@[i as int].0);
                    }
                }
                assert(forall|d: CellId|
                    rd.contains(d) <==> is_dep(cells.entries@[i as int].1@, d));
            }
            // record `id` as a dependent of each of its dependencies
            let ghost kin = st.dep_keys@;
            let ghost lin = st.dep_lists@;
            let m = rdeps.len();
            let mut t: usize = 0;
            while t < m
                invariant
                    t <= m,
                    m == rd.len(),
                    rd.no_duplicates(),
                    st.nodes@ == st0.nodes@,
                    st.remaining@ == st0.remaining@,
                    st.no_deps@ == st0.no_deps@,
                    rdeps@ == rd,
                    i < cells.entries@.len(),
                    st.dep_lists@.len() == st.dep_keys@.len(),
                    st.dep_keys@.no_duplicates(),
                    forall|k: int|
                        0 <= k < st.dep_keys@.len() ==> (
                        #[trigger] st.dep_lists@[k])@.no_duplicates(),
                    forall|d: CellId, x: CellId|
                        #[trigger] deps_lookup(kin, lin, d).contains(x) ==> st.dependents_of(
                            d,
                        ).contains(x),
                    forall|q: int|
                        0 <= q < t ==> st.dependents_of(#[trigger] rd[q]).contains(id),
                    forall|ki: int, xi: int|
                        0 <= ki < st.dep_keys@.len() && 0 <= xi < st.dep_lists@[ki]@.len() ==> (
                        #[trigger] justified_entry(
                            st0.nodes@,
                            st0.remaining@,
                            i as int,
                            st.dep_keys@,
                            st.dep_lists@,
                            ki,
                            xi,
                        ) || (st.dep_lists@[ki]@[xi] == id && rd.contains(st.dep_keys@[ki]))),
                decreases m - t,
            {
                let d = rdeps[t];
                let ghost kcur = st.dep_keys@;
                let ghost lcur = st.dep_lists@;
                match find_id(&st.dep_keys, &d) {
                    Some(ik) => {
                        let mut l = st.dep_lists.remove(ik);
                        let ghost oldl = l@;
                        if !contains_id(&l, &id) {
                            l.push(id);
                            proof {
                                lemma_push_no_dup(oldl, id);
                            }
                        }
                        let ghost l2 = l@;
                        st.dep_lists.insert(ik, l);
                        proof {
                            assert(st.dep_lists@ =~= lcur.update(
                                ik as int,
                                st.dep_lists@[ik as int],
                            ));
                            assert(forall|x: CellId| oldl.contains(x) ==> l2.contains(x)) by {
                                if oldl != l2 {
                                    assert forall|x: CellId| oldl.contains(x) implies l2.contains(
                                        x,
                                    ) by {
                                        lemma_push_contains(oldl, id, x);
                                    }
                                }
                            }
                            lemma_lookup_update(kcur, lcur, ik as int, st.dep_lists@[ik as int]);
                            assert(st.dependents_of(d).contains(id)) by {
                                lemma_push_contains(oldl, id, id);
                            }
                            assert forall|d0: CellId, x: CellId|
                                #[trigger] deps_lookup(kin, lin, d0).contains(x) implies st
                                .dependents_of(d0).contains(x) by {
                                assert(deps_lookup(kcur, lcur, d0).contains(x));
                            }
                            assert forall|q: int|
                                0 <= q < t + 1 implies st.dependents_of(
                                #[trigger] rd[q],
                            ).contains(id) by {
                                if q < t {
                                    assert(deps_lookup(kcur, lcur, rd[q]).contains(id));
                                }
                            }
                            assert forall|ki: int, xi: int|
                                0 <= ki < st.dep_keys@.len() && 0 <= xi
                                    < st.dep_lists@[ki]@.len() implies (#[trigger] justified_entry(
                                st0.nodes@,
                                st0.remaining@,
                                i as int,
                                st.dep_keys@,
                                st.dep_lists@,
                                ki,
                                xi,
                            ) || (st.dep_lists@[ki]@[xi] == id && rd.contains(
                                st.dep_keys@[ki],
                            ))) by {
                                if ki != ik {
                                    assert(st.dep_lists@[ki] == lcur[ki]);
                                    assert(justified_entry(
                                        st0.nodes@,
                                        st0.remaining@,
                                        i as int,
                                        kcur,
                                        lcur,
                                        ki,
                                        xi,
                                    ) || (lcur[ki]@[xi] == id && rd.contains(kcur[ki])));
                                    if justified_entry(
                                        st0.nodes@,
                                        st0.remaining@,
                                        i as int,
                                        kcur,
                                        lcur,
                                        ki,
                                        xi,
                                    ) {
                                        let j = choose|j: int|
                                            0 <= j < i && st0.nodes@[j] == lcur[ki]@[xi] && (
                                            #[trigger] st0.remaining@[j])@.contains(kcur[ki]);
                                        assert(0 <= j < i && st0.nodes@[j]
                                            == st.dep_lists@[ki]@[xi] && (
                                        st0.remaining@[j])@.contains(st.dep_keys@[ki]));
                                    }
                                } else {
                                    if xi < oldl.len() {
                                        assert(st.dep_lists@[ik as int]@[xi] == oldl[xi]);
                                        assert(lcur[ik as int]@[xi] == oldl[xi]);
                                        assert(justified_entry(
                                            st0.nodes@,
                                            st0.remaining@,
                                            i as int,
                                            kcur,
                                            lcur,
                                            ik as int,
                                            xi,
                                        ) || (lcur[ik as int]@[xi] == id && rd.contains(
                                            kcur[ik as int],
                                        )));
                                        if justified_entry(
                                            st0.nodes@,
                                            st0.remaining@,
                                            i as int,
                                            kcur,
                                            lcur,
                                            ik as int,
                                            xi,
                                        ) {
                                            let j = choose|j: int|
                                                0 <= j < i && st0.nodes@[j] == lcur[ik as int]@[xi]
                                                    && (#[trigger] st0.remaining@[j])@.contains(
                                                    kcur[ik as int],
                                                );
                                            assert(0 <= j < i && st0.nodes@[j]
                                                == st.dep_lists@[ki]@[xi] && (
                                            st0.remaining@[j])@.contains(st.dep_keys@[ki]));
                                        }
                                    } else {
                                        assert(st.dep_lists@[ik as int]@[xi] == id);
                                        assert(st.dep_keys@[ik as int] == d);
                                        assert(rd.contains(d)) by {
                                            assert(rd[t as int] == d);
                                        }
                                    }
                                }
                            }
                        }
                    },
                    None => {
                        st.dep_keys.push(d);
                        let mut l: Vec<CellId> = Vec::new();
                        l.push(id);
                        st.dep_lists.push(l);
                        proof {
                            lemma_push_no_dup(kcur, d);
                            lemma_lookup_push(kcur, lcur, d, st.dep_lists@[st.dep_lists@.len() - 1]);
                            assert(st.dependents_of(d).contains(id)) by {
                                assert(st.dependents_of(d)[0] == id);
                            }
                            assert forall|d0: CellId, x: CellId|
                                #[trigger] deps_lookup(kin, lin, d0).contains(x) implies st
                                .dependents_of(d0).contains(x) by {
                                assert(deps_lookup(kcur, lcur, d0).contains(x));
                                if d0 != d {
                                    assert(st.dependents_of(d0) == deps_lookup(kcur, lcur, d0));
                                } else {
                                    lemma_lookup_absent(kcur, lcur, d);
                                }
                            }
                            assert forall|q: int|
                                0 <= q < t + 1 implies st.dependents_of(
                                #[trigger] rd[q],
                            ).contains(id) by {
                                if q < t {
                                    assert(deps_lookup(kcur, lcur, rd[q]).contains(id));
                                    if rd[q] != d {
                                        assert(st.dependents_of(rd[q]) == deps_lookup(
                                            kcur,
                                            lcur,
                                            rd[q],
                                        ));
                                    }
                                }
                            }
                            assert forall|ki: int, xi: int|
                                0 <= ki < st.dep_keys@.len() && 0 <= xi
                                    < st.dep_lists@[ki]@.len() implies (#[trigger] justified_entry(
                                st0.nodes@,
                                st0.remaining@,
                                i as int,
                                st.dep_keys@,
                                st.dep_lists@,
                                ki,
                                xi,
                            ) || (st.dep_lists@[ki]@[xi] == id && rd.contains(
                                st.dep_keys@[ki],
                            ))) by {
                                if ki < kcur.len() {
                                    assert(st.dep_keys@[ki] == kcur[ki] && st.dep_lists@[ki]
                                        == lcur[ki]);
                                    assert(justified_entry(
                                        st0.nodes@,
                                        st0.remaining@,
                                        i as int,
                                        kcur,
                                        lcur,
                                        ki,
                                        xi,
                                    ) || (lcur[ki]@[xi] == id && rd.contains(kcur[ki])));
                                    if justified_entry(
                                        st0.nodes@,
                                        st0.remaining@,
                                        i as int,
                                        kcur,
                                        lcur,
                                        ki,
                                        xi,
                                    ) {
                                        let j = choose|j: int|
                                            0 <= j < i && st0.nodes@[j] == lcur[ki]@[xi] && (
                                            #[trigger] st0.remaining@[j])@.contains(kcur[ki]);
                                        assert(0 <= j < i && st0.nodes@[j]
                                            == st.dep_lists@[ki]@[xi] && (
                                        st0.remaining@[j])@.contains(st.dep_keys@[ki]));
                                    }
                                } else {
                                    assert(ki == kcur.len());
                                    assert(st.dep_keys@[ki] == d);
                                    assert(st.dep_lists@[ki]@ =~= seq![id]);
                                    assert(st.dep_lists@[ki]@[xi] == id);
                                    assert(rd.contains(d)) by {
                                        assert(rd[t as int] == d);
                                    }
                                }
                            }
                        }
                    },
                }
                t += 1;
            }
            // add the node itself, its dependency row, and maybe a seed
            let ghost mid_no_deps = st.no_deps@;
            let ghost mid_nodes = st.nodes@;
            let ghost kfin = st.dep_keys@;
            let ghost lfin = st.dep_lists@;
            let seeded = rdeps.len() == 0;
            if seeded {
                proof {
                    assert(!st.no_deps@.contains(id)) by {
                        if st0.no_deps@.contains(id) {
                            let j = choose|j: int|
                                0 <= j < i && st0.nodes@[j] == id && (#[trigger] st0.rem(j)).len()
                                    == 0;
                            assert(st0.nodes@.contains(id));
                        }
                    }
                    lemma_push_no_dup(st.no_deps@, id);
                }
                st.no_deps.push(id);
            }
            st.nodes.push(id);
            st.remaining.push(rdeps);
            i += 1;
            proof {
                lemma_push_no_dup(mid_nodes, id);
                assert(st.nodes@ == st0.nodes@.push(id));
                assert(st.remaining@.len() == i);
                assert(st.rem(i - 1) == rd);
                assert(st.nodes@[i - 1] == id);
                assert(forall|j: int| 0 <= j < i - 1 ==> st.remaining@[j] == st0.remaining@[j]);
                assert(forall|j: int| 0 <= j < i - 1 ==> st.nodes@[j] == st0.nodes@[j]);
                assert(st.dep_keys@ == kfin && st.dep_lists@ == lfin);
                assert forall|j: int| 0 <= j < i implies (#[trigger] st.rem(j)).no_duplicates() by {
                    if j < i - 1 {
                        assert(st.rem(j) == st0.rem(j));
                    } else {
                        assert(st.rem(j) == rd);
                    }
                }
                assert forall|j: int, d: CellId| 0 <= j < i implies (#[trigger] st.rem(j).contains(
                    d,
                ) <==> is_dep(cells.entries@[j].1@, d)) by {
                    if j < i - 1 {
                        assert(st.rem(j) == st0.rem(j));
                    } else {
                        assert(st.rem(j) == rd);
                    }
                }
                assert forall|ki: int, xi: int|
                    0 <= ki < st.dep_keys@.len() && 0 <= xi < st.dep_lists@[ki]@.len() implies
                #[trigger] justified_entry(
                    st.nodes@,
                    st.remaining@,
                    i as int,
                    st.dep_keys@,
                    st.dep_lists@,
                    ki,
                    xi,
                ) by {
                    if justified_entry(
                        st0.nodes@,
                        st0.remaining@,
                        i - 1,
                        st.dep_keys@,
                        st.dep_lists@,
                        ki,
                        xi,
                    ) {
                        let j = choose|j: int|
                            0 <= j < i - 1 && st0.nodes@[j] == st.dep_lists@[ki]@[xi] && (
                            #[trigger] st0.remaining@[j])@.contains(st.dep_keys@[ki]);
                        assert(st.nodes@[j] == st0.nodes@[j] && st.remaining@[j]
                            == st0.remaining@[j]);
                        assert(0 <= j < i && st.nodes@[j] == st.dep_lists@[ki]@[xi] && (
                        st.remaining@[j])@.contains(st.dep_keys@[ki]));
                    } else {
                        assert(st.dep_lists@[ki]@[xi] == id && rd.contains(st.dep_keys@[ki]));
                        assert(st.nodes@[i - 1] == id && (st.remaining@[i - 1])@ == rd);
                        assert(0 <= i - 1 < i && st.nodes@[i - 1] == st.dep_lists@[ki]@[xi] && (
                        st.remaining@[i - 1])@.contains(st.dep_keys@[ki]));
                    }
                }
                assert forall|j: int, d: CellId|
                    0 <= j < i && #[trigger] st.rem(j).contains(d) implies st.dependents_of(
                    d,
                ).contains(st.nodes@[j]) by {
                    if j < i - 1 {
                        assert(st.rem(j) == st0.rem(j));
                        assert(st0.dependents_of(d).contains(st0.nodes@[j]));
                        assert(deps_lookup(kin, lin, d).contains(st0.nodes@[j]));
                        assert(st.dependents_of(d) == deps_lookup(kfin, lfin, d));
                    } else {
                        assert(rd.contains(d));
                        let q = choose|q: int| 0 <= q < rd.len() && rd[q] == d;
                        assert(st.dependents_of(rd[q]).contains(id));
                    }
                }
                assert forall|x: CellId|
                    st.no_deps@.contains(x) <==> (exists|j: int|
                        0 <= j < i && st.nodes@[j] == x && (#[trigger] st.rem(j)).len() == 0) by {
                    if seeded {
                        lemma_push_contains(st0.no_deps@, id, x);
                    }
                    if st.no_deps@.contains(x) {
                        if st0.no_deps@.contains(x) {
                            let j = choose|j: int|
                                0 <= j < i - 1 && st0.nodes@[j] == x && (#[trigger] st0.rem(
                                    j,
                                )).len() == 0;
                            assert(st.nodes@[j] == x && st.rem(j).len() == 0);
                        } else {
                            assert(seeded && x == id);
                            assert(st.nodes@[i - 1] == x && st.rem(i - 1).len() == 0);
                        }
                    }
                    if exists|j: int|
                        0 <= j < i && st.nodes@[j] == x && (#[trigger] st.rem(j)).len() == 0 {
                        let j = choose|j: int|
                            0 <= j < i && st.nodes@[j] == x && (#[trigger] st.rem(j)).len() == 0;
                        if j < i - 1 {
                            assert(st0.nodes@[j] == x && st0.rem(j).len() == 0);
                            assert(st0.no_deps@.contains(x));
                            assert(st.no_deps@.contains(x));
                        } else {
                            assert(x == id && rd.len() == 0);
                            assert(st.no_deps@.contains(x));
                        }
                    }
                }
            }
        }
        proof {
            assert forall|x: CellId| st.no_deps@.contains(x) implies exists|j: int|
                0 <= j < st.nodes@.len() && st.nodes@[j] == x && (#[trigger] st.rem(j)).len()
                    == 0 by {
                let j = choose|j: int|
                    0 <= j < i && st.nodes@[j] == x && (#[trigger] st.rem(j)).len() == 0;
                assert(0 <= j < st.nodes@.len() && st.nodes@[j] == x && st.rem(j).len() == 0);
            }
            assert(st.remaining@.len() == st.nodes@.len());
            assert(st.dep_lists@.len() == st.dep_keys@.len());
            assert(st.nodes@.no_duplicates());
            assert(st.dep_keys@.no_duplicates());
            assert forall|j: int|
                0 <= j < st.nodes@.len() implies (#[trigger] st.remaining@[j])@.no_duplicates() by {
                assert(st.rem(j).no_duplicates());
            }
            assert forall|d: CellId, x: CellId|
                #[trigger] st.dependents_of(d).contains(x) implies exists|j: int|
                0 <= j < st.nodes@.len() && st.nodes@[j] == x && (#[trigger] st.rem(j)).contains(
                    d,
                ) by {
                if exists|w: int| 0 <= w < st.dep_keys@.len() && st.dep_keys@[w] == d {
                    let w = choose|w: int| 0 <= w < st.dep_keys@.len() && st.dep_keys@[w] == d;
                    lemma_lookup_at(st.dep_keys@, st.dep_lists@, w);
                    assert(st.dependents_of(d) == st.dep_lists@[w]@);
                    let xi = choose|xi: int|
                        0 <= xi < st.dep_lists@[w]@.len() && st.dep_lists@[w]@[xi] == x;
                    assert(justified_entry(
                        st.nodes@,
                        st.remaining@,
                        i as int,
                        st.dep_keys@,
                        st.dep_lists@,
                        w,
                        xi,
                    ));
                    let j = choose|j: int|
                        0 <= j < i && st.nodes@[j] == st.dep_lists@[w]@[xi] && (
                        #[trigger] st.remaining@[j])@.contains(st.dep_keys@[w]);
                    assert(0 <= j < st.nodes@.len() && st.nodes@[j] == x && st.rem(j).contains(d));
                } else {
                    lemma_lookup_absent(st.dep_keys@, st.dep_lists@, d);
                }
            }
            assert(forall|k: int|
                0 <= k < st.dep_keys@.len() ==> (#[trigger] st.dep_lists@[k])@.no_duplicates());
            assert(st.no_deps@.no_duplicates());
        }
        st
    }
}

} // verus!

verus! {

impl State {
    /// Notes that `dependency` is resolved for every address that was
    /// recorded as depending on it; each one whose unresolved dependencies
    /// thereby run out is handed to the worklist.
    pub fn resolve_for_dependants_of(&mut self, dependency: &CellId)
        requires
            old(self).wf(),
        ensures
            final(self).wf(),
            final(self).nodes@ == old(self).nodes@,
            final(self).dep_keys@ == old(self).dep_keys@,
            final(self).dep_lists@ == old(self).dep_lists@,
            final(self).remaining@.len() == old(self).remaining@.len(),
            (forall|j: int|
                0 <= j < old(self).nodes@.len() && !old(self).dependents_of(*dependency).contains(
                    old(self).nodes@[j],
                ) ==> final(self).remaining@[j] == (#[trigger] old(self).remaining@[j])),
            (forall|j: int, d: CellId|
                0 <= j < old(self).nodes@.len() && old(self).dependents_of(*dependency).contains(
                    old(self).nodes@[j],
                ) ==> (#[trigger] final(self).rem(j).contains(d) <==> old(self).rem(j).contains(d)
                    && d != *dependency)),
            (forall|x: CellId|
                final(self).no_deps@.contains(x) <==> old(self).no_deps@.contains(x) || (exists|
                    j: int,
                |
                    0 <= j < old(self).nodes@.len() && old(self).nodes@[j] == x && old(
                        self,
                    ).dependents_of(*dependency).contains(x) && (#[trigger] old(self).rem(
                        j,
                    )).contains(*dependency) && old(self).rem(j).len() == 1)),
    {
        let ghost pre = *self;
        let found = self.get_dependents(dependency);
        match found {
            None => {
                proof {
                    lemma_lookup_absent(pre.dep_keys@, pre.dep_lists@, *dependency);
                }
            },
            Some(list) => {
                let ids = copy_ids(list);
                proof {
                    assert(ids@ == pre.dependents_of(*dependency));
                    assert(ids@.no_duplicates()) by {
                        let w = choose|w: int|
                            0 <= w < pre.dep_keys@.len() && pre.dep_keys@[w] == *dependency;
                    }
                }
                let n = ids.len();
                let mut t: usize = 0;
                while t < n
                    invariant
                        t <= n,
                        n == ids@.len(),
                        ids@ == pre.dependents_of(*dependency),
                        ids@.no_duplicates(),
                        self.wf(),
                        self.nodes@ == pre.nodes@,
                        self.dep_keys@ == pre.dep_keys@,
                        self.dep_lists@ == pre.dep_lists@,
                        self.remaining@.len() == pre.remaining@.len(),
                        (forall|j: int|
                            0 <= j < pre.nodes@.len() && !ids@.take(t as int).contains(
                                pre.nodes@[j],
                            ) ==> self.remaining@[j] == (#[trigger] pre.remaining@[j])),
                        (forall|j: int, d: CellId|
                            0 <= j < pre.nodes@.len() && ids@.take(t as int).contains(
                                pre.nodes@[j],
                            ) ==> (#[trigger] self.rem(j).contains(d) <==> pre.rem(j).contains(d)
                                && d != *dependency)),
                        (forall|x: CellId|
                            self.no_deps@.contains(x) <==> pre.no_deps@.contains(x) || (exists|
                                j: int,
                            |
                                0 <= j < pre.nodes@.len() && pre.nodes@[j] == x && ids@.take(
                                    t as int,
                                ).contains(x) && (#[trigger] pre.rem(j)).contains(*dependency)
                                    && pre.rem(j).len() == 1)),
                    decreases n - t,
                {
                    let ghost cur = *self;
                    let x = ids[t];
                    proof {
                        assert(!ids@.take(t as int).contains(x)) by {
                            if ids@.take(t as int).contains(x) {
                                let q = choose|q: int| 0 <= q < t && ids@.take(t as int)[q] == x;
                                assert(ids@[q] == ids@[t as int]);
                            }
                        }
                        assert(ids@.take(t + 1).drop_last() =~= ids@.take(t as int));
                        assert(ids@.take(t + 1).last() == x);
                    }
                    self.resolve(&x, dependency);
                    t += 1;
                    proof {
                        assert forall|j: int|
                            0 <= j < pre.nodes@.len() && !ids@.take(t as int).contains(
                                pre.nodes@[j],
                            ) implies self.remaining@[j] == (#[trigger] pre.remaining@[j]) by {
                            lemma_push_contains(ids@.take(t - 1), x, pre.nodes@[j]);
                            assert(ids@.take(t - 1).push(x) =~= ids@.take(t as int));
                            assert(cur.remaining@[j] == pre.remaining@[j]);
                            assert(cur.nodes@[j] != x);
                        }
                        assert forall|j: int, d: CellId|
                            0 <= j < pre.nodes@.len() && ids@.take(t as int).contains(
                                pre.nodes@[j],
                            ) implies (#[trigger] self.rem(j).contains(d) <==> pre.rem(j).contains(
                            d,
                        ) && d != *dependency) by {
                            lemma_push_contains(ids@.take(t - 1), x, pre.nodes@[j]);
                            assert(ids@.take(t - 1).push(x) =~= ids@.take(t as int));
                            if ids@.take(t - 1).contains(pre.nodes@[j]) {
                                assert(pre.nodes@[j] != x);
                                assert(self.remaining@[j] == cur.remaining@[j]);
                                assert(cur.rem(j).contains(d) <==> pre.rem(j).contains(d) && d
                                    != *dependency);
                            } else {
                                assert(pre.nodes@[j] == x);
                                assert(cur.remaining@[j] == pre.remaining@[j]);
                                assert(self.rem(j).contains(d) <==> cur.rem(j).contains(d) && d
                                    != *dependency);
                            }
                        }
                        assert forall|x0: CellId|
                            self.no_deps@.contains(x0) <==> pre.no_deps@.contains(x0) || (exists|
                                j: int,
                            |
                                0 <= j < pre.nodes@.len() && pre.nodes@[j] == x0 && ids@.take(
                                    t as int,
                                ).contains(x0) && (#[trigger] pre.rem(j)).contains(*dependency)
                                    && pre.rem(j).len() == 1) by {
                            lemma_push_contains(ids@.take(t - 1), x, x0);
                            assert(ids@.take(t - 1).push(x) =~= ids@.take(t as int));
                            let pushed = exists|j: int|
                                0 <= j < cur.nodes@.len() && cur.nodes@[j] == x && (
                                #[trigger] cur.rem(j)).contains(*dependency) && cur.rem(j).len()
                                    == 1;
                            if pushed {
                                assert(self.no_deps@ == cur.no_deps@.push(x));
                                lemma_push_contains(cur.no_deps@, x, x0);
                            } else {
                                assert(self.no_deps@ == cur.no_deps@);
                            }
                            if self.no_deps@.contains(x0) {
                                if cur.no_deps@.contains(x0) {
                                    if !pre.no_deps@.contains(x0) {
                                        let j = choose|j: int|
                                            0 <= j < pre.nodes@.len() && pre.nodes@[j] == x0
                                                && ids@.take(t - 1).contains(x0) && (
                                            #[trigger] pre.rem(j)).contains(*dependency)
                                                && pre.rem(j).len() == 1;
                                        assert(ids@.take(t as int).contains(x0));
                                        assert(0 <= j < pre.nodes@.len() && pre.nodes@[j] == x0
                                            && ids@.take(t as int).contains(x0) && pre.rem(
                                            j,
                                        ).contains(*dependency) && pre.rem(j).len() == 1);
                                    }
                                } else {
                                    assert(pushed && x0 == x);
                                    let j = choose|j: int|
                                        0 <= j < cur.nodes@.len() && cur.nodes@[j] == x && (
                                        #[trigger] cur.rem(j)).contains(*dependency) && cur.rem(
                                            j,
                                        ).len() == 1;
                                    assert(!ids@.take(t - 1).contains(pre.nodes@[j]));
                                    assert(cur.remaining@[j] == pre.remaining@[j]);
                                    assert(ids@.take(t as int).contains(x0));
                                    assert(0 <= j < pre.nodes@.len() && pre.nodes@[j] == x0
                                        && ids@.take(t as int).contains(x0) && pre.rem(j).contains(
                                        *dependency,
                                    ) && pre.rem(j).len() == 1);
                                }
                            }
                            if pre.no_deps@.contains(x0) {
                                assert(cur.no_deps@.contains(x0));
                                assert(self.no_deps@.contains(x0));
                            }
                            if exists|j: int|
                                0 <= j < pre.nodes@.len() && pre.nodes@[j] == x0 && ids@.take(
                                    t as int,
                                ).contains(x0) && (#[trigger] pre.rem(j)).contains(*dependency)
                                    && pre.rem(j).len() == 1 {
                                let j = choose|j: int|
                                    0 <= j < pre.nodes@.len() && pre.nodes@[j] == x0 && ids@.take(
                                        t as int,
                                    ).contains(x0) && (#[trigger] pre.rem(j)).contains(*dependency)
                                        && pre.rem(j).len() == 1;
                                if ids@.take(t - 1).contains(x0) {
                                    assert(0 <= j < pre.nodes@.len() && pre.nodes@[j] == x0
                                        && ids@.take(t - 1).contains(x0) && pre.rem(j).contains(
                                        *dependency,
                                    ) && pre.rem(j).len() == 1);
                                    assert(cur.no_deps@.contains(x0));
                                    assert(self.no_deps@.contains(x0));
                                } else {
                                    assert(x0 == x);
                                    assert(!ids@.take(t - 1).contains(pre.nodes@[j]));
                                    assert(cur.remaining@[j] == pre.remaining@[j]);
                                    assert(0 <= j < cur.nodes@.len() && cur.nodes@[j] == x
                                        && cur.rem(j).contains(*dependency) && cur.rem(j).len()
                                        == 1);
                                    assert(pushed);
                                    assert(self.no_deps@.contains(x0));
                                }
                            }
                        }
                    }
                }
                proof {
                    assert(ids@.take(n as int) =~= ids@);
                }
            },
        }
    }
}

} // verus!

verus! {

/// Every address an ordered address depends on stands strictly earlier in
/// the order.
pub open spec fn order_respects(m: Map<CellId, SpecExpr>, order: Seq<CellId>) -> bool {
    forall|t: int, d: CellId|
        0 <= t < order.len() && #[trigger] is_dep(m[order[t]], d) ==> exists|u: int|
            0 <= u < t && order[u] == d
}

/// A resolved run of cells: each at most once, all of them cells of the
/// table, every dependency before its dependent (so in particular inside
/// the run).
pub open spec fn self_contained_order(m: Map<CellId, SpecExpr>, order: Seq<CellId>) -> bool {
    &&& order.no_duplicates()
    &&& (forall|x: CellId| order.contains(x) ==> m.contains_key(x))
    &&& order_respects(m, order)
}

/// A full evaluation order for a table: each address exactly once, every
/// dependency before its dependent.
pub open spec fn complete_order(m: Map<CellId, SpecExpr>, order: Seq<CellId>) -> bool {
    &&& self_contained_order(m, order)
    &&& (forall|x: CellId| m.contains_key(x) ==> order.contains(x))
}

/// One stuck address's certificate: it depends on `d`, and `d` is an
/// absent cell or itself stuck.
pub open spec fn stuck_on(m: Map<CellId, SpecExpr>, stuck: Seq<CellId>, a: CellId, d: CellId) -> bool {
    is_dep(m[a], d) && (!m.contains_key(d) || stuck.contains(d))
}

/// An address of the set is genuinely stuck: it is a cell of the table,
/// and it depends on something absent or itself stuck.
pub open spec fn stuck_at(m: Map<CellId, SpecExpr>, stuck: Seq<CellId>, i: int) -> bool {
    &&& m.contains_key(stuck[i])
    &&& exists|d: CellId| #[trigger] stuck_on(m, stuck, stuck[i], d)
}

/// A witness that evaluation can never finish: a non-empty set of
/// addresses, each depending on an absent cell or on another address of
/// the set.
pub open spec fn blocked(m: Map<CellId, SpecExpr>, stuck: Seq<CellId>) -> bool {
    &&& stuck.len() > 0
    &&& (forall|i: int| 0 <= i < stuck.len() ==> #[trigger] stuck_at(m, stuck, i))
}

/// Orders a table's addresses so that every cell follows everything it
/// depends on (Kahn's algorithm), or reports exactly the addresses whose
/// references can never be resolved — a dependency cycle, or a reference
/// to a cell that has no entry: the failure carries a blocked set, and
/// every address outside it forms a resolved, dependency-respecting run.
/// Which of several unrelated cells comes first is left open.
pub fn topological_sort(exprs: &Cells) -> (r: Result<Vec<CellId>, Error>)
    requires
        exprs.wf(),
    ensures
        r matches Ok(order) ==> complete_order(table_view(exprs@), order@),
        r matches Err(e) ==> e@ matches SpecErr::Cycle { ids } && blocked(table_view(exprs@), ids)
            && ids.no_duplicates() && (exists|done: Seq<CellId>|
            #[trigger] self_contained_order(table_view(exprs@), done) && (forall|x: CellId|
                #[trigger] table_view(exprs@).contains_key(x) ==> (done.contains(x)
                    <==> !ids.contains(x)))),
{
    let ghost m = table_view(exprs@);
    let mut st = State::from_cells(exprs);
    let ghost nodes0 = st.nodes@;
    let ghost n = nodes0.len() as int;
    proof {
        assert forall|j: int| 0 <= j < n implies m.contains_key(#[trigger] nodes0[j]) && m[nodes0[j]]
            == (exprs.entries@[j].1)@ by {
            lemma_assoc_at(exprs.entries@, j);
        }
        assert forall|x: CellId| m.contains_key(x) implies nodes0.contains(x) by {
            lemma_assoc_dom(exprs.entries@, x);
            let i = choose|i: int| 0 <= i < exprs.entries@.len() && exprs.entries@[i].0 == x;
            assert(nodes0[i] == x);
        }
        assert forall|j: int, d: CellId|
            0 <= j < n && #[trigger] is_dep(m[nodes0[j]], d) implies st.dependents_of(d).contains(
            nodes0[j],
        ) by {
            assert(st.rem(j).contains(d));
        }
    }
    let mut res: Vec<CellId> = Vec::new();
    while st.no_deps.len() > 0
        invariant
            st.wf(),
            st.nodes@ == nodes0,
            st.remaining@.len() == nodes0.len(),
            n == nodes0.len() as int,
            exprs.wf(),
            m == table_view(exprs@),
            forall|j: int|
                0 <= j < n ==> m.contains_key(#[trigger] nodes0[j]) && m[nodes0[j]]
                    == (exprs.entries@[j].1)@,
            forall|x: CellId| m.contains_key(x) ==> nodes0.contains(x),
            res@.no_duplicates(),
            res@.len() <= n,
            forall|x: CellId| res@.contains(x) ==> nodes0.contains(x),
            forall|j: int, d: CellId|
                0 <= j < n ==> (#[trigger] st.rem(j).contains(d) <==> is_dep(m[nodes0[j]], d)
                    && !res@.contains(d)),
            forall|x: CellId|
                st.no_deps@.contains(x) <==> ((exists|j: int|
                    0 <= j < n && nodes0[j] == x && (#[trigger] st.rem(j)).len() == 0)
                    && !res@.contains(x)),
            forall|t: int, d: CellId|
                0 <= t < res@.len() && #[trigger] is_dep(m[res@[t]], d) ==> exists|u: int|
                    0 <= u < t && res@[u] == d,
            forall|j: int, d: CellId|
                0 <= j < n && #[trigger] is_dep(m[nodes0[j]], d) ==> st.dependents_of(d).contains(
                    nodes0[j],
                ),
        decreases n - res@.len(),
    {
        let ghost scur = st;
        let ghost rprev = res@;
        let x = st.no_deps.pop().unwrap();
        proof {
            assert(scur.no_deps@.contains(x)) by {
                assert(scur.no_deps@[scur.no_deps@.len() - 1] == x);
            }
            let jx = choose|j: int|
                0 <= j < n && nodes0[j] == x && (#[trigger] scur.rem(j)).len() == 0;
            assert(!rprev.contains(x));
            // the worklist after the pop
            lemma_remove_at(scur.no_deps@, scur.no_deps@.len() - 1);
            assert(st.no_deps@ =~= scur.no_deps@.remove(scur.no_deps@.len() - 1));
            assert forall|y: CellId| st.no_deps@.contains(y) implies exists|j: int|
                0 <= j < st.nodes@.len() && st.nodes@[j] == y && (#[trigger] st.rem(j)).len()
                    == 0 by {
                assert(scur.no_deps@.contains(y));
                let j = choose|j: int|
                    0 <= j < n && nodes0[j] == y && (#[trigger] scur.rem(j)).len() == 0;
                assert(st.rem(j).len() == 0);
            }
            assert(st.wf());
        }
        res.push(x);
        proof {
            lemma_push_no_dup(rprev, x);
            assert forall|t: int, d: CellId|
                0 <= t < res@.len() && #[trigger] is_dep(m[res@[t]], d) implies exists|u: int|
                0 <= u < t && res@[u] == d by {
                if t < rprev.len() {
                    assert(res@[t] == rprev[t]);
                    assert(is_dep(m[rprev[t]], d));
                    let u = choose|u: int| 0 <= u < t && rprev[u] == d;
                    assert(res@[u] == d);
                } else {
                    assert(res@[t] == x);
                    let jx = choose|j: int|
                        0 <= j < n && nodes0[j] == x && (#[trigger] scur.rem(j)).len() == 0;
                    assert(!scur.rem(jx).contains(d));
                    assert(rprev.contains(d));
                    let u = choose|u: int| 0 <= u < rprev.len() && rprev[u] == d;
                    assert(res@[u] == d);
                }
            }
            assert(forall|x0: CellId| res@.contains(x0) ==> rprev.contains(x0) || x0 == x);
            assert forall|x0: CellId| res@.contains(x0) implies nodes0.contains(x0) by {
                lemma_push_contains(rprev, x, x0);
            }
            lemma_unique_subset_len(res@, nodes0);
        }
        let ghost st1 = st;
        st.resolve_for_dependants_of(&x);
        proof {
            let ghost deps_x = st1.dependents_of(x);
            assert(st.dependents_of(x) == deps_x);
            assert(st1.remaining@ == scur.remaining@);
            assert(st1.nodes@ == nodes0);
            assert(st1.dep_keys@ == scur.dep_keys@ && st1.dep_lists@ == scur.dep_lists@);
            assert(res@[res@.len() - 1] == x);
            assert(res@.contains(x));
            // rows after resolution
            assert forall|j: int, d: CellId| 0 <= j < n implies (#[trigger] st.rem(j).contains(d)
                <==> is_dep(m[nodes0[j]], d) && !res@.contains(d)) by {
                lemma_push_contains(rprev, x, d);
                assert(st1.rem(j) == scur.rem(j));
                assert(scur.rem(j).contains(d) <==> is_dep(m[nodes0[j]], d) && !rprev.contains(d));
                if deps_x.contains(nodes0[j]) {
                    assert(st.rem(j).contains(d) <==> st1.rem(j).contains(d) && d != x);
                } else {
                    assert(st.remaining@[j] == st1.remaining@[j]);
                    assert(!scur.rem(j).contains(x)) by {
                        if scur.rem(j).contains(x) {
                            assert(is_dep(m[nodes0[j]], x));
                            assert(scur.dependents_of(x).contains(nodes0[j]));
                            assert(deps_x.contains(nodes0[j]));
                        }
                    }
                    if d == x {
                        assert(!st.rem(j).contains(d));
                        if is_dep(m[nodes0[j]], x) && !rprev.contains(x) {
                            assert(scur.rem(j).contains(x));
                        }
                    }
                }
            }
            // worklist after resolution
            assert forall|y: CellId|
                st.no_deps@.contains(y) <==> ((exists|j: int|
                    0 <= j < n && nodes0[j] == y && (#[trigger] st.rem(j)).len() == 0)
                    && !res@.contains(y)) by {
                lemma_push_contains(rprev, x, y);
                if st.no_deps@.contains(y) {
                    if st1.no_deps@.contains(y) {
                        assert(scur.no_deps@.contains(y));
                        let j = choose|j: int|
                            0 <= j < n && nodes0[j] == y && (#[trigger] scur.rem(j)).len() == 0;
                        assert(y != x);
                        assert(!rprev.contains(y));
                        assert(st.rem(j).len() == 0) by {
                            if deps_x.contains(nodes0[j]) {
                                assert(forall|d: CellId|
                                    #[trigger] st.rem(j).contains(d) ==> st1.rem(j).contains(d));
                                if st.rem(j).len() > 0 {
                                    assert(st.rem(j).contains(st.rem(j)[0]));
                                }
                            } else {
                                assert(st.remaining@[j] == st1.remaining@[j]);
                            }
                        }
                    } else {
                        let j = choose|j: int|
                            0 <= j < n && st1.nodes@[j] == y && deps_x.contains(y) && (
                            #[trigger] st1.rem(j)).contains(x) && st1.rem(j).len() == 1;
                        assert(st.rem(j).len() == 0) by {
                            assert(forall|d: CellId|
                                #[trigger] st.rem(j).contains(d) <==> st1.rem(j).contains(d) && d
                                    != x);
                            if st.rem(j).len() > 0 {
                                let d0 = st.rem(j)[0];
                                assert(st.rem(j).contains(d0));
                                assert(st1.rem(j).contains(d0) && d0 != x);
                                let q = choose|q: int|
                                    0 <= q < st1.rem(j).len() && st1.rem(j)[q] == d0;
                                let qx = choose|q: int|
                                    0 <= q < st1.rem(j).len() && st1.rem(j)[q] == x;
                                assert(q == 0 && qx == 0);
                            }
                        }
                        assert(!res@.contains(y)) by {
                            assert(st1.rem(j).contains(x));
                            assert(st1.rem(j) == scur.rem(j));
                            assert(scur.rem(j).contains(x));
                            assert(is_dep(m[nodes0[j]], x) && !rprev.contains(x));
                            if rprev.contains(y) {
                                let ty = choose|u: int| 0 <= u < rprev.len() && rprev[u] == y;
                                assert(is_dep(m[rprev[ty]], x));
                                let u = choose|u: int| 0 <= u < ty && rprev[u] == x;
                                assert(rprev.contains(x));
                            }
                            assert(y != x) by {
                                let jx = choose|j0: int|
                                    0 <= j0 < n && nodes0[j0] == x && (#[trigger] scur.rem(
                                        j0,
                                    )).len() == 0;
                                if y == x {
                                    assert(j == jx);
                                }
                            }
                        }
                    }
                } else {
                    if (exists|j: int|
                        0 <= j < n && nodes0[j] == y && (#[trigger] st.rem(j)).len() == 0)
                        && !res@.contains(y) {
                        let j = choose|j: int|
                            0 <= j < n && nodes0[j] == y && (#[trigger] st.rem(j)).len() == 0;
                        assert(y != x && !rprev.contains(y));
                        if st1.rem(j).len() == 0 {
                            assert(scur.rem(j).len() == 0);
                            assert(scur.no_deps@.contains(y));
                            assert(st1.no_deps@.contains(y));
                            assert(st.no_deps@.contains(y));
                        } else {
                            assert(deps_x.contains(nodes0[j])) by {
                                if !deps_x.contains(nodes0[j]) {
                                    assert(st.remaining@[j] == st1.remaining@[j]);
                                }
                            }
                            assert(forall|d: CellId|
                                #[trigger] st.rem(j).contains(d) <==> st1.rem(j).contains(d) && d
                                    != x);
                            assert(st1.rem(j).contains(x)) by {
                                let d0 = st1.rem(j)[0];
                                assert(st1.rem(j).contains(d0));
                                if d0 != x {
                                    assert(st.rem(j).contains(d0));
                                }
                            }
                            assert(st1.rem(j).len() == 1) by {
                                if st1.rem(j).len() >= 2 {
                                    let d0 = st1.rem(j)[0];
                                    let d1 = st1.rem(j)[1];
                                    assert(st1.rem(j).contains(d0) && st1.rem(j).contains(d1));
                                    assert(d0 != d1);
                                    if d0 != x {
                                        assert(st.rem(j).contains(d0));
                                    }
                                    if d1 != x {
                                        assert(st.rem(j).contains(d1));
                                    }
                                }
                            }
                            assert(0 <= j < st1.nodes@.len() && st1.nodes@[j] == y
                                && st1.dependents_of(x).contains(y) && st1.rem(j).contains(x)
                                && st1.rem(j).len() == 1);
                            assert(st.no_deps@.contains(y));
                        }
                    }
                }
            }
        }
    }
    if st.is_resolved() {
        proof {
            assert forall|x: CellId| res@.contains(x) <==> m.contains_key(x) by {
                if res@.contains(x) {
                    assert(nodes0.contains(x));
                    let j = choose|j: int| 0 <= j < nodes0.len() && nodes0[j] == x;
                    assert(m.contains_key(nodes0[j]));
                }
                if m.contains_key(x) {
                    assert(nodes0.contains(x));
                    let j = choose|j: int| 0 <= j < nodes0.len() && nodes0[j] == x;
                    assert(st.rem(j).len() == 0);
                    if !res@.contains(x) {
                        assert(st.no_deps@.contains(x));
                    }
                }
            }
            assert(res@.no_duplicates());
            assert forall|t: int, d: CellId|
                0 <= t < res@.len() && #[trigger] is_dep(m[res@[t]], d) implies exists|u: int|
                0 <= u < t && res@[u] == d by {}
            assert(order_respects(m, res@));
            assert(complete_order(m, res@));
            assert(complete_order(table_view(exprs@), res@));
        }
        Ok(res)
    } else {
        let stuck = st.unresolved();
        proof {
            assert(stuck@.len() > 0) by {
                let j = choose|j: int|
                    0 <= j < st.nodes@.len() && (#[trigger] st.rem(j)).len() != 0;
                assert(stuck@.contains(nodes0[j]));
            }
            assert forall|i: int| 0 <= i < stuck@.len() implies #[trigger] stuck_at(
                m,
                stuck@,
                i,
            ) by {
                assert(stuck@.contains(stuck@[i]));
                let j = choose|j: int|
                    0 <= j < nodes0.len() && nodes0[j] == stuck@[i] && (#[trigger] st.rem(j)).len()
                        > 0;
                assert(m.contains_key(nodes0[j]));
                let d = st.rem(j)[0];
                assert(st.rem(j).contains(d));
                assert(is_dep(m[stuck@[i]], d) && !res@.contains(d));
                if m.contains_key(d) {
                    assert(nodes0.contains(d));
                    let jd = choose|jd: int| 0 <= jd < nodes0.len() && nodes0[jd] == d;
                    assert(st.rem(jd).len() > 0) by {
                        if st.rem(jd).len() == 0 {
                            assert(st.no_deps@.contains(d));
                        }
                    }
                    assert(stuck@.contains(d));
                }
                assert(stuck_on(m, stuck@, stuck@[i], d));
            }
            assert(stuck@.len() > 0);
            assert(blocked(m, stuck@));
            assert(blocked(table_view(exprs@), stuck@));
            assert(self_contained_order(m, res@)) by {
                assert forall|x: CellId| res@.contains(x) implies m.contains_key(x) by {
                    assert(nodes0.contains(x));
                    let j = choose|j: int| 0 <= j < nodes0.len() && nodes0[j] == x;
                    assert(m.contains_key(nodes0[j]));
                }
            }
            assert forall|x: CellId| #[trigger] m.contains_key(x) implies (res@.contains(x)
                <==> !stuck@.contains(x)) by {
                assert(nodes0.contains(x));
                let j = choose|j: int| 0 <= j < nodes0.len() && nodes0[j] == x;
                if res@.contains(x) {
                    let tx = choose|u: int| 0 <= u < res@.len() && res@[u] == x;
                    assert(st.rem(j).len() == 0) by {
                        if st.rem(j).len() > 0 {
                            let d0 = st.rem(j)[0];
                            assert(st.rem(j).contains(d0));
                            assert(is_dep(m[res@[tx]], d0) && !res@.contains(d0));
                            let u = choose|u: int| 0 <= u < tx && res@[u] == d0;
                            assert(res@.contains(d0));
                        }
                    }
                    assert(!stuck@.contains(x)) by {
                        if stuck@.contains(x) {
                            let j2 = choose|j2: int|
                                0 <= j2 < nodes0.len() && nodes0[j2] == x && (#[trigger] st.rem(
                                    j2,
                                )).len() > 0;
                            assert(j2 == j);
                        }
                    }
                } else {
                    assert(stuck@.contains(x)) by {
                        if st.rem(j).len() == 0 {
                            assert(st.no_deps@.contains(x));
                        }
                        assert(nodes0[j] == x && st.rem(j).len() > 0);
                    }
                }
            }
            assert(self_contained_order(table_view(exprs@), res@) && (forall|x: CellId|
                #[trigger] table_view(exprs@).contains_key(x) ==> (res@.contains(x)
                    <==> !stuck@.contains(x))));
        }
        Err(Error::Cycle { ids: stuck })
    }
}

} // verus!

verus! {

/// A dependency path through a table: consecutive addresses are linked by
/// a direct dependency, and all but the last belong to the table.
pub open spec fn dep_path(m: Map<CellId, SpecExpr>, p: Seq<CellId>) -> bool {
    &&& p.len() >= 2
    &&& (forall|i: int|
        0 <= i < p.len() - 1 ==> m.contains_key(#[trigger] p[i]) && is_dep(m[p[i]], p[i + 1]))
}

/// In a full evaluation order, an address stands strictly after every
/// address it transitively depends on: the end of any dependency path out
/// of it comes earlier in the order.
pub proof fn lemma_order_respects_transitive_deps(
    m: Map<CellId, SpecExpr>,
    order: Seq<CellId>,
    p: Seq<CellId>,
    s: int,
    t: int,
)
    requires
        complete_order(m, order),
        dep_path(m, p),
        0 <= s < order.len(),
        0 <= t < order.len(),
        order[s] == p[0],
        order[t] == p.last(),
    ensures
        t < s,
    decreases p.len(),
{
    assert(is_dep(m[order[s]], p[1]));
    let u = choose|u: int| 0 <= u < s && order[u] == p[1];
    if p.len() == 2 {
        assert(order[u] == order[t]);
        assert(u == t) by {
            if u != t {
                assert(order[u] == order[t]);
            }
        }
    } else {
        let q = p.drop_first();
        assert(dep_path(m, q)) by {
            assert forall|i: int|
                0 <= i < q.len() - 1 implies m.contains_key(#[trigger] q[i]) && is_dep(
                m[q[i]],
                q[i + 1],
            ) by {
                assert(q[i] == p[i + 1] && q[i + 1] == p[i + 2]);
            }
        }
        assert(q[0] == p[1] && q.last() == p.last());
        lemma_order_respects_transitive_deps(m, order, q, u, t);
    }
}

/// A blocked set admits no resolution at all: no address of the set can
/// stand anywhere in any self-contained run, so the set names exactly the
/// addresses that can never be evaluated.
pub proof fn lemma_blocked_never_resolved(
    m: Map<CellId, SpecExpr>,
    stuck: Seq<CellId>,
    order: Seq<CellId>,
    t: int,
)
    requires
        blocked(m, stuck),
        self_contained_order(m, order),
        0 <= t < order.len(),
    ensures
        !stuck.contains(order[t]),
    decreases t,
{
    if stuck.contains(order[t]) {
        let i = choose|i: int| 0 <= i < stuck.len() && stuck[i] == order[t];
        assert(stuck_at(m, stuck, i));
        let d = choose|d: CellId| #[trigger] stuck_on(m, stuck, stuck[i], d);
        assert(is_dep(m[order[t]], d));
        let u = choose|u: int| 0 <= u < t && order[u] == d;
        assert(order.contains(d)) by {
            assert(order[u] == d);
        }
        assert(m.contains_key(d));
        assert(stuck.contains(d));
        lemma_blocked_never_resolved(m, stuck, order, u);
        assert(!stuck.contains(order[u]));
    }
}

/// A table with a blocked set has no full evaluation order at all: cycle
/// detection and a successful ordering exclude one another.
pub proof fn lemma_blocked_excludes_order(
    m: Map<CellId, SpecExpr>,
    stuck: Seq<CellId>,
    order: Seq<CellId>,
)
    requires
        blocked(m, stuck),
    ensures
        !complete_order(m, order),
{
    if complete_order(m, order) {
        assert(stuck_at(m, stuck, 0));
        assert(m.contains_key(stuck[0]));
        assert(order.contains(stuck[0]));
        let t = choose|t: int| 0 <= t < order.len() && order[t] == stuck[0];
        assert(stuck.contains(order[t])) by {
            assert(stuck[0] == order[t]);
        }
        lemma_blocked_never_resolved(m, stuck, order, t);
    }
}

} // verus!
