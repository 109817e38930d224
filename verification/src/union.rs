//! A union-find over integer keys whose representatives are the smallest
//! members seen by the joins.

use vstd::prelude::*;
use std::collections::{HashMap, HashSet};
use vstd::std_specs::hash::spec_keys_iter;
use vstd::std_specs::iter::IteratorSpec;

verus! {

broadcast use vstd::std_specs::hash::group_hash_axioms;

/// Parent links: each key maps to a key that is no larger than itself, and
/// a key that maps to itself is a representative.
pub struct Union(HashMap<u64, u64>);

/// Every parent is itself a key, and no larger than its child.
pub open spec fn links_wf(m: Map<u64, u64>) -> bool {
    forall|k: u64| #[trigger] m.contains_key(k) ==> m.contains_key(m[k]) && m[k] <= k
}

/// The representative reached from `a` by following parent links.
pub open spec fn root(m: Map<u64, u64>, a: u64) -> u64
    decreases a,
{
    if m.contains_key(a) && m[a] < a {
        root(m, m[a])
    } else {
        a
    }
}

/// The links once `a` is known: a new key starts out as its own representative.
pub open spec fn with_key(m: Map<u64, u64>, a: u64) -> Map<u64, u64> {
    if m.contains_key(a) {
        m
    } else {
        m.insert(a, a)
    }
}

/// The smaller of two keys.
pub open spec fn min_key(a: u64, b: u64) -> u64 {
    if a <= b {
        a
    } else {
        b
    }
}

/// The links after joining `a` and `b`: both are linked directly to the smaller
/// of their two representatives.
pub open spec fn joined(m: Map<u64, u64>, a: u64, b: u64) -> Map<u64, u64> {
    let m1 = with_key(m, a);
    let m2 = with_key(m1, b);
    let top = min_key(root(m, a), root(m1, b));
    m2.insert(a, top).insert(b, top)
}

impl View for Union {
    type V = Map<u64, u64>;

    closed spec fn view(&self) -> Map<u64, u64> {
        self.0@
    }
}

/// Following links from `a` ends at a representative, which is no larger than
/// `a` and is a key whenever `a` is.
pub proof fn lemma_root(m: Map<u64, u64>, a: u64)
    requires
        links_wf(m),
    ensures
        root(m, a) <= a,
        m.contains_key(a) ==> m.contains_key(root(m, a)) && m[root(m, a)] == root(m, a),
        root(m, root(m, a)) == root(m, a),
    decreases a,
{
    if m.contains_key(a) && m[a] < a {
        lemma_root(m, m[a]);
    }
}

/// Adding a new key that links to itself keeps the links well formed.
pub proof fn lemma_with_key_wf(m: Map<u64, u64>, a: u64)
    requires
        links_wf(m),
    ensures
        links_wf(with_key(m, a)),
        root(with_key(m, a), a) == root(m, a),
{
    lemma_root(m, a);
}

/// Adding a new key that links to itself changes no other key's representative.
pub proof fn lemma_root_with_key(m: Map<u64, u64>, a: u64, b: u64)
    requires
        links_wf(m),
        m.contains_key(b) || b != a,
    ensures
        root(with_key(m, a), b) == root(m, b),
    decreases b,
{
    if m.contains_key(b) && m[b] < b {
        lemma_root_with_key(m, a, m[b]);
    }
}

/// Relinking a key to a smaller key keeps the links well formed.
pub proof fn lemma_relink_wf(m: Map<u64, u64>, k: u64, t: u64)
    requires
        links_wf(m),
        m.contains_key(t),
        t <= k,
    ensures
        links_wf(m.insert(k, t)),
{
    assert forall|j: u64| #[trigger] m.insert(k, t).contains_key(j) implies m.insert(k, t).contains_key(
        m.insert(k, t)[j],
    ) && m.insert(k, t)[j] <= j by {
        if j != k {
            assert(m.contains_key(j));
        }
    }
}

/// After `join(a, b)` both keys have the same representative: the smaller of
/// their representatives before the join; and the links stay well formed.
pub proof fn law_join_unites(m: Map<u64, u64>, a: u64, b: u64)
    requires
        links_wf(m),
    ensures
        links_wf(joined(m, a, b)),
        root(joined(m, a, b), a) == min_key(root(m, a), root(m, b)),
        root(joined(m, a, b), b) == min_key(root(m, a), root(m, b)),
{
    let m1 = with_key(m, a);
    let m2 = with_key(m1, b);
    lemma_with_key_wf(m, a);
    lemma_with_key_wf(m1, b);
    lemma_root(m, a);
    lemma_root(m1, b);
    if m.contains_key(b) || b != a {
        lemma_root_with_key(m, a, b);
    }
    let top = min_key(root(m, a), root(m1, b));
    assert(m2.contains_key(top) && m2[top] == top);
    lemma_relink_wf(m2, a, top);
    lemma_relink_wf(m2.insert(a, top), b, top);
    let j = joined(m, a, b);
    assert(j[top] == top);
    assert(root(j, top) == top);
    assert(j[a] == top && j[b] == top);
    assert(root(j, a) == top);
    assert(root(j, b) == top);
}

/// `find` gives the representative of `a`, which is its own representative,
/// and a second `find` of `a` changes nothing.
pub proof fn law_find_stable(m: Map<u64, u64>, a: u64)
    requires
        links_wf(m),
    ensures
        links_wf(with_key(m, a)),
        root(with_key(m, a), a) == root(m, a),
        root(with_key(m, a), root(m, a)) == root(m, a),
        with_key(with_key(m, a), a) == with_key(m, a),
{
    lemma_with_key_wf(m, a);
    lemma_root(with_key(m, a), a);
}

impl Union {
    /// The links are well formed.
    pub open spec fn wf(&self) -> bool {
        links_wf(self@)
    }

    /// An empty union.
    pub fn new() -> (res: Union)
        ensures
            res@ == Map::<u64, u64>::empty(),
            res.wf(),
    {
        Union(HashMap::new())
    }

    /// Links `a` and `b` to the smaller of their representatives.
    pub fn join(&mut self, a: u64, b: u64)
        requires
            old(self).wf(),
        ensures
            final(self).wf(),
            final(self)@ == joined(old(self)@, a, b),
    {
        let ra = self.find(a);
        let rb = self.find(b);
        let top = if ra <= rb {
            ra
        } else {
            rb
        };
        let ghost m = old(self)@;
        let ghost m1 = with_key(m, a);
        let ghost m2 = self@;
        proof {
            lemma_with_key_wf(m, a);
            lemma_root(m, a);
            lemma_root(m1, b);
            assert(m2.contains_key(ra));
            assert(m2.contains_key(rb));
        }
        self.0.insert(a, top);
        proof {
            lemma_relink_wf(m2, a, top);
        }
        self.0.insert(b, top);
        proof {
            lemma_relink_wf(m2.insert(a, top), b, top);
        }
    }

    /// The representative of `a`, adding `a` as its own representative when it
    /// is not yet a key.
    pub fn find(&mut self, a: u64) -> (res: u64)
        requires
            old(self).wf(),
        ensures
            final(self).wf(),
            res == root(old(self)@, a),
            final(self)@ == with_key(old(self)@, a),
    {
        if let Some(r) = self.lookup(a) {
            return r;
        }
        self.0.insert(a, a);
        proof {
            lemma_with_key_wf(old(self)@, a);
        }
        return a;
    }

    /// The representative of `a`, or `None` when `a` is not a key.
    pub fn lookup(&self, a: u64) -> (res: Option<u64>)
        requires
            self.wf(),
        ensures
            res == (if self@.contains_key(a) {
                Some(root(self@, a))
            } else {
                None::<u64>
            }),
    {
        let mut cur = a;
        loop
            invariant
                self.wf(),
                cur == a || self@.contains_key(a),
                self@.contains_key(a) ==> self@.contains_key(cur) && root(self@, cur) == root(
                    self@,
                    a,
                ),
            decreases cur,
        {
            let next = match self.0.get(&cur) {
                Some(n) => *n,
                None => return None,
            };
            if next == cur {
                return Some(cur);
            }
            cur = next;
        }
    }

    /// The keys grouped by representative, one set per representative, in no
    /// particular order.
    /// The keys, each once.
    fn key_list(&self) -> (keys: Vec<u64>)
        ensures
            keys@.to_set() == self@.dom(),
            keys@.no_duplicates(),
    {
        let ghost m = self@;
        let mut keys: Vec<u64> = Vec::new();
        for a in it: self.0.keys()
            invariant
                self@ == m,
                keys.len() == it.index(),
                forall|k: int| 0 <= k < it.index() ==> keys@[k] == *#[trigger] it.seq()[k],
        {
            keys.push(*a);
        }
        proof {
            let s = spec_keys_iter(&self.0).remaining();
            assert(keys@ =~= s.unref());
        }
        keys
    }

    /// The given keys grouped by representative.
    fn group_keys(&self, keys: &Vec<u64>) -> (res: (Vec<u64>, Vec<HashSet<u64>>))
        requires
            self.wf(),
            keys@.to_set() == self@.dom(),
        ensures
            groups_inv(self@, self@.dom(), res.0@, res.1@.map_values(|h: HashSet<u64>| h@)),
    {
        let ghost m = self@;
        let mut roots: Vec<u64> = Vec::new();
        let mut res: Vec<HashSet<u64>> = Vec::new();
        let mut n: usize = 0;
        proof {
            reveal(groups_inv);
            assert(keys@.take(0).to_set() =~= Set::<u64>::empty());
            assert(res@.map_values(|h: HashSet<u64>| h@) =~= Seq::<Set<u64>>::empty());
        }
        while n < keys.len()
            invariant
                self@ == m,
                self.wf(),
                n <= keys.len(),
                keys@.to_set() == m.dom(),
                roots.len() == res.len(),
                groups_inv(m, keys@.take(n as int).to_set(), roots@, res@.map_values(
                    |h: HashSet<u64>| h@,
                )),
            decreases keys.len() - n,
        {
            let a = keys[n];
            let ghost done = keys@.take(n as int).to_set();
            assert(keys@.to_set().contains(keys@[n as int]));
            let r = match self.lookup(a) {
                Some(r) => r,
                None => 0,
            };
            let mut idx: usize = 0;
            while idx < roots.len()
                invariant
                    idx <= roots.len(),
                    forall|i: int| 0 <= i < idx ==> roots[i] != r,
                ensures
                    idx <= roots.len(),
                    forall|i: int| 0 <= i < idx ==> roots[i] != r,
                    idx < roots.len() ==> roots[idx as int] == r,
                decreases roots.len() - idx,
            {
                if roots[idx] == r {
                    break;
                }
                idx += 1;
            }
            let ghost old_sets = res@.map_values(|h: HashSet<u64>| h@);
            let ghost old_roots = roots@;
            assert(m.contains_key(a));
            if idx < roots.len() {
                proof {
                    lemma_groups_add_old(m, done, old_roots, old_sets, a, idx as int);
                }
                let ghost before = res@;
                let mut set = res.remove(idx);
                set.insert(a);
                res.insert(idx, set);
                assert(res@ =~= before.update(idx as int, set));
                assert(res@.map_values(|h: HashSet<u64>| h@) =~= old_sets.update(
                    idx as int,
                    old_sets[idx as int].insert(a),
                ));
            } else {
                proof {
                    lemma_groups_add_new(m, done, old_roots, old_sets, a);
                }
                let mut set = HashSet::new();
                set.insert(a);
                roots.push(r);
                res.push(set);
                assert(res@.map_values(|h: HashSet<u64>| h@) =~= old_sets.push(
                    Set::empty().insert(a),
                ));
            }
            proof {
                assert(keys@.take(n + 1).to_set() =~= done.insert(a)) by {
                    assert(keys@.take(n + 1) =~= keys@.take(n as int).push(a));
                    keys@.take(n as int).lemma_push_to_set_commute(a);
                }
            }
            n += 1;
        }
        assert(keys@.take(keys.len() as int) =~= keys@);
        (roots, res)
    }

    /// The keys grouped by representative, one set per representative, in no
    /// particular order.
    pub fn sets(&mut self) -> (res: Vec<HashSet<u64>>)
        requires
            old(self).wf(),
        ensures
            final(self)@ == old(self)@,
            final(self).wf(),
            forall|i: int| 0 <= i < res.len() ==> #[trigger] res[i]@ != Set::<u64>::empty(),
            forall|i: int, x: u64| 0 <= i < res.len() && #[trigger] res[i]@.contains(x)
                ==> res[i]@ == class_of(old(self)@, root(old(self)@, x)),
            forall|k: u64| #[trigger] old(self)@.contains_key(k) ==> exists|i: int|
                0 <= i < res.len() && #[trigger] res[i]@.contains(k),
            forall|i: int, j: int, x: u64|
                0 <= i < res.len() && 0 <= j < res.len() && i != j && #[trigger] res[i]@.contains(x)
                    ==> !(#[trigger] res[j]@.contains(x)),
    {
        let keys = self.key_list();
        let (roots, res) = self.group_keys(&keys);
        proof {
            let sets = res@.map_values(|h: HashSet<u64>| h@);
            lemma_groups_done_classes(self@, roots@, sets);
            lemma_groups_done_cover(self@, roots@, sets);
            assert forall|i: int| 0 <= i < res.len() implies #[trigger] res[i]@ == sets[i] by {}
        }
        res
    }
}

/// The keys of `m` whose representative is `r`.
pub open spec fn class_of(m: Map<u64, u64>, r: u64) -> Set<u64> {
    Set::new(|x: u64| m.contains_key(x) && root(m, x) == r)
}

/// The grouping of the keys in `done` by representative: `sets[i]` holds the
/// keys of `done` whose representative is `roots[i]`.
#[verifier::opaque]
pub open spec fn groups_inv(
    m: Map<u64, u64>,
    done: Set<u64>,
    roots: Seq<u64>,
    sets: Seq<Set<u64>>,
) -> bool {
    &&& roots.len() == sets.len()
    &&& forall|x: u64| #[trigger] done.contains(x) ==> m.contains_key(x)
    &&& forall|i: int| 0 <= i < sets.len() ==> #[trigger] sets[i] == Set::new(
        |x: u64| done.contains(x) && root(m, x) == roots[i],
    )
    &&& forall|i: int, j: int| 0 <= i < j < roots.len() ==> roots[i] != roots[j]
    &&& forall|x: u64| #[trigger] done.contains(x) ==> exists|i: int|
        0 <= i < roots.len() && roots[i] == root(m, x)
    &&& forall|i: int| #![trigger roots[i]] 0 <= i < roots.len() ==> exists|x: u64|
        done.contains(x) && root(m, x) == roots[i]
}

/// Once every key is grouped, every set is nonempty and is the class of each
/// of its members.
proof fn lemma_groups_done_classes(m: Map<u64, u64>, roots: Seq<u64>, sets: Seq<Set<u64>>)
    requires
        groups_inv(m, m.dom(), roots, sets),
    ensures
        forall|i: int| 0 <= i < sets.len() ==> #[trigger] sets[i] != Set::<u64>::empty(),
        forall|i: int, x: u64| 0 <= i < sets.len() && #[trigger] sets[i].contains(x)
            ==> sets[i] == class_of(m, root(m, x)),
{
    reveal(groups_inv);
    assert forall|i: int| 0 <= i < sets.len() implies #[trigger] sets[i] != Set::<u64>::empty() by {
        assert(roots[i] == roots[i]);
        let x = choose|x: u64| m.dom().contains(x) && root(m, x) == roots[i];
        assert(sets[i].contains(x));
    }
    assert forall|i: int, x: u64| 0 <= i < sets.len() && #[trigger] sets[i].contains(x)
        implies sets[i] == class_of(m, root(m, x)) by {
        assert(sets[i] =~= class_of(m, root(m, x)));
    }
}

/// Once every key is grouped, every key is in exactly one set.
proof fn lemma_groups_done_cover(m: Map<u64, u64>, roots: Seq<u64>, sets: Seq<Set<u64>>)
    requires
        groups_inv(m, m.dom(), roots, sets),
    ensures
        forall|k: u64| #[trigger] m.contains_key(k) ==> exists|i: int|
            0 <= i < sets.len() && #[trigger] sets[i].contains(k),
        forall|i: int, j: int, x: u64|
            0 <= i < sets.len() && 0 <= j < sets.len() && i != j && #[trigger] sets[i].contains(x)
                ==> !(#[trigger] sets[j].contains(x)),
{
    reveal(groups_inv);
    assert forall|k: u64| #[trigger] m.contains_key(k) implies exists|i: int|
        0 <= i < sets.len() && #[trigger] sets[i].contains(k) by {
        assert(m.dom().contains(k));
        let i = choose|i: int| 0 <= i < roots.len() && roots[i] == root(m, k);
        assert(sets[i].contains(k));
    }
    assert forall|i: int, j: int, x: u64|
        0 <= i < sets.len() && 0 <= j < sets.len() && i != j && #[trigger] sets[i].contains(x)
            implies !(#[trigger] sets[j].contains(x)) by {
        if i < j {
            assert(roots[i] != roots[j]);
        } else {
            assert(roots[j] != roots[i]);
        }
    }
}

/// Adding key `a` to the set of its representative `roots[idx]`.
proof fn lemma_groups_add_old(
    m: Map<u64, u64>,
    done: Set<u64>,
    roots: Seq<u64>,
    sets: Seq<Set<u64>>,
    a: u64,
    idx: int,
)
    requires
        groups_inv(m, done, roots, sets),
        m.contains_key(a),
        0 <= idx < roots.len(),
        roots[idx] == root(m, a),
    ensures
        groups_inv(m, done.insert(a), roots, sets.update(idx, sets[idx].insert(a))),
{
    reveal(groups_inv);
    let d2 = done.insert(a);
    let s2 = sets.update(idx, sets[idx].insert(a));
    assert forall|i: int| 0 <= i < s2.len() implies #[trigger] s2[i] == Set::new(
        |x: u64| d2.contains(x) && root(m, x) == roots[i],
    ) by {
        assert(s2[i] =~= Set::new(|x: u64| d2.contains(x) && root(m, x) == roots[i]));
    }
    assert forall|x: u64| #[trigger] d2.contains(x) implies exists|i: int|
        0 <= i < roots.len() && roots[i] == root(m, x) by {
        if x == a {
            assert(roots[idx] == root(m, x));
        }
    }
    assert forall|i: int| #![trigger roots[i]] 0 <= i < roots.len() implies exists|x: u64|
        d2.contains(x) && root(m, x) == roots[i] by {
        let x = choose|x: u64| done.contains(x) && root(m, x) == roots[i];
        assert(d2.contains(x));
    }
}

/// Adding key `a`, whose representative has no set yet, in a new set at the end.
proof fn lemma_groups_add_new(
    m: Map<u64, u64>,
    done: Set<u64>,
    roots: Seq<u64>,
    sets: Seq<Set<u64>>,
    a: u64,
)
    requires
        groups_inv(m, done, roots, sets),
        m.contains_key(a),
        forall|i: int| 0 <= i < roots.len() ==> roots[i] != root(m, a),
    ensures
        groups_inv(
            m,
            done.insert(a),
            roots.push(root(m, a)),
            sets.push(Set::empty().insert(a)),
        ),
{
    reveal(groups_inv);
    let d2 = done.insert(a);
    let r2 = roots.push(root(m, a));
    let s2 = sets.push(Set::empty().insert(a));
    assert forall|i: int| 0 <= i < s2.len() implies #[trigger] s2[i] == Set::new(
        |x: u64| d2.contains(x) && root(m, x) == r2[i],
    ) by {
        if i < sets.len() {
            assert(s2[i] =~= Set::new(|x: u64| d2.contains(x) && root(m, x) == r2[i]));
        } else {
            assert forall|x: u64| d2.contains(x) && root(m, x) == r2[i] implies x == a by {
                if x != a {
                    assert(done.contains(x));
                    let j = choose|j: int| 0 <= j < roots.len() && roots[j] == root(m, x);
                }
            }
            assert(s2[i] =~= Set::new(|x: u64| d2.contains(x) && root(m, x) == r2[i]));
        }
    }
    assert forall|x: u64| #[trigger] d2.contains(x) implies exists|i: int|
        0 <= i < r2.len() && r2[i] == root(m, x) by {
        if x == a {
            assert(r2[roots.len() as int] == root(m, x));
        } else {
            let j = choose|j: int| 0 <= j < roots.len() && roots[j] == root(m, x);
            assert(r2[j] == root(m, x));
        }
    }
    assert forall|i: int| #![trigger r2[i]] 0 <= i < r2.len() implies exists|x: u64|
        d2.contains(x) && root(m, x) == r2[i] by {
        if i < roots.len() {
            assert(roots[i] == r2[i]);
            let x = choose|x: u64| done.contains(x) && root(m, x) == roots[i];
            assert(d2.contains(x));
        } else {
            assert(d2.contains(a));
        }
    }
}

} // verus!
