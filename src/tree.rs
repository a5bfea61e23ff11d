//! The tree of tiers: for each tier id, the ids of the tiers that refer to
//! it as their parent.
use vstd::prelude::*;
use crate::ledger::{copy_strings, strs_view};
use crate::text::push_char;

verus! {

/// What the tree reads of one tier: its id and, for a referring tier, the
/// id of its parent.
pub struct TierLink {
    pub id: String,
    pub parent: Option<String>,
}

/// For each tier id, the ids of its child tiers, in document order. Keys
/// are unique.
pub struct TierTree {
    entries: Vec<(String, Vec<String>)>,
}

pub open spec fn keys_unique(es: Seq<(String, Vec<String>)>) -> bool {
    forall|i: int, j: int|
        0 <= i < es.len() && 0 <= j < es.len() && (#[trigger] es[i]).0@ == (#[trigger] es[j]).0@
            ==> i == j
}

pub open spec fn has_key(es: Seq<(String, Vec<String>)>, k: Seq<char>) -> bool {
    exists|i: int| 0 <= i < es.len() && (#[trigger] es[i]).0@ == k
}

pub open spec fn key_index(es: Seq<(String, Vec<String>)>, k: Seq<char>) -> int {
    choose|i: int| 0 <= i < es.len() && (#[trigger] es[i]).0@ == k
}

pub open spec fn entries_map(es: Seq<(String, Vec<String>)>) -> Map<Seq<char>, Seq<Seq<char>>> {
    Map::new(|k: Seq<char>| has_key(es, k), |k: Seq<char>| strs_view(es[key_index(es, k)].1@))
}

/// Whether `k` is listed as the child of some tier in `m`.
pub open spec fn is_child(m: Map<Seq<char>, Seq<Seq<char>>>, k: Seq<char>) -> bool {
    exists|p: Seq<char>| m.contains_key(p) && (#[trigger] m[p]).contains(k)
}

/// `m` without the tiers that are some tier's child and have no children
/// of their own: those are shown under their parent already.
pub open spec fn pruned(m: Map<Seq<char>, Seq<Seq<char>>>) -> Map<Seq<char>, Seq<Seq<char>>> {
    m.restrict(m.dom().filter(|k: Seq<char>| !(is_child(m, k) && m[k].len() == 0)))
}

/// The ids of the tiers in `ts` whose parent is `k`, in order.
pub open spec fn children_of(ts: Seq<TierLink>, k: Seq<char>) -> Seq<Seq<char>>
    decreases ts.len(),
{
    if ts.len() == 0 {
        Seq::empty()
    } else {
        let rest = children_of(ts.drop_last(), k);
        match ts.last().parent {
            Some(p) => if p@ == k { rest.push(ts.last().id@) } else { rest },
            None => rest,
        }
    }
}

/// Whether `k` is the id of one of the first `n` tiers.
pub open spec fn id_among(ts: Seq<TierLink>, n: int, k: Seq<char>) -> bool {
    exists|i: int| 0 <= i < n && (#[trigger] ts[i]).id@ == k
}

/// Whether `k` is the parent of one of the first `n` tiers.
pub open spec fn parent_among(ts: Seq<TierLink>, n: int, k: Seq<char>) -> bool {
    exists|i: int| 0 <= i < n && (#[trigger] ts[i]).parent is Some && ts[i].parent->Some_0@ == k
}

/// Whether `k` is a tier id or the parent of a tier in `ts`.
pub open spec fn named_in(ts: Seq<TierLink>, k: Seq<char>) -> bool {
    id_among(ts, ts.len() as int, k) || parent_among(ts, ts.len() as int, k)
}

/// Every tier and every parent, each with its children.
pub open spec fn links_map(ts: Seq<TierLink>) -> Map<Seq<char>, Seq<Seq<char>>> {
    Map::new(|k: Seq<char>| named_in(ts, k), |k: Seq<char>| children_of(ts, k))
}

/// Whether `k` is the key of one of the first `n` entries whose flag is set.
pub open spec fn marked(es: Seq<(String, Vec<String>)>, flags: Seq<bool>, n: int, k: Seq<char>) -> bool {
    exists|a: int| 0 <= a < n && (#[trigger] es[a]).0@ == k && flags[a]
}

impl View for TierTree {
    type V = Map<Seq<char>, Seq<Seq<char>>>;

    closed spec fn view(&self) -> Map<Seq<char>, Seq<Seq<char>>> {
        entries_map(self.entries@)
    }
}

proof fn lemma_index_of_key(es: Seq<(String, Vec<String>)>, i: int)
    requires
        keys_unique(es),
        0 <= i < es.len(),
    ensures
        has_key(es, es[i].0@),
        key_index(es, es[i].0@) == i,
{
    assert(has_key(es, es[i].0@));
}

proof fn lemma_push_entry(es: Seq<(String, Vec<String>)>, e: (String, Vec<String>))
    requires
        keys_unique(es),
        !has_key(es, e.0@),
    ensures
        keys_unique(es.push(e)),
        entries_map(es.push(e)) == entries_map(es).insert(e.0@, strs_view(e.1@)),
{
    let ns = es.push(e);
    assert forall|a: int, b: int|
        0 <= a < ns.len() && 0 <= b < ns.len() && (#[trigger] ns[a]).0@ == (#[trigger] ns[b]).0@
            implies a == b by {
        if a < es.len() && b == es.len() {
            assert(es[a].0@ == e.0@);
        }
        if b < es.len() && a == es.len() {
            assert(es[b].0@ == e.0@);
        }
        if a < es.len() && b < es.len() {
            assert(ns[a] == es[a] && ns[b] == es[b]);
        }
    }
    assert forall|k: Seq<char>| has_key(ns, k) <==> (has_key(es, k) || k == e.0@) by {
        if has_key(es, k) {
            let a = choose|a: int| 0 <= a < es.len() && (#[trigger] es[a]).0@ == k;
            assert(ns[a] == es[a]);
        }
        if k == e.0@ {
            assert(ns[es.len() as int] == e);
        }
    }
    assert forall|k: Seq<char>| #[trigger] has_key(ns, k) implies strs_view(ns[key_index(ns, k)].1@)
        == (if k == e.0@ { strs_view(e.1@) } else { strs_view(es[key_index(es, k)].1@) }) by {
        let a = key_index(ns, k);
        if k == e.0@ {
            lemma_index_of_key(ns, es.len() as int);
        } else {
            assert(a < es.len());
            assert(ns[a] == es[a]);
            lemma_index_of_key(es, a);
        }
    }
    assert(entries_map(ns) =~= entries_map(es).insert(e.0@, strs_view(e.1@)));
}

proof fn lemma_update_entry(es: Seq<(String, Vec<String>)>, j: int, e: (String, Vec<String>))
    requires
        keys_unique(es),
        0 <= j < es.len(),
        e.0@ == es[j].0@,
    ensures
        keys_unique(es.update(j, e)),
        entries_map(es.update(j, e)) == entries_map(es).insert(e.0@, strs_view(e.1@)),
{
    let ns = es.update(j, e);
    assert forall|a: int, b: int|
        0 <= a < ns.len() && 0 <= b < ns.len() && (#[trigger] ns[a]).0@ == (#[trigger] ns[b]).0@
            implies a == b by {
        assert(ns[a].0@ == es[a].0@ && ns[b].0@ == es[b].0@);
    }
    assert forall|k: Seq<char>| has_key(ns, k) <==> has_key(es, k) by {
        if has_key(es, k) {
            let a = choose|a: int| 0 <= a < es.len() && (#[trigger] es[a]).0@ == k;
            assert(ns[a].0@ == k);
        }
        if has_key(ns, k) {
            let a = choose|a: int| 0 <= a < ns.len() && (#[trigger] ns[a]).0@ == k;
            assert(es[a].0@ == k);
        }
    }
    assert forall|k: Seq<char>| #[trigger] has_key(ns, k) implies strs_view(ns[key_index(ns, k)].1@)
        == (if k == e.0@ { strs_view(e.1@) } else { strs_view(es[key_index(es, k)].1@) }) by {
        let a = key_index(ns, k);
        assert(es[a].0@ == k);
        lemma_index_of_key(es, a);
        if k == e.0@ {
            lemma_index_of_key(es, j);
        }
    }
    assert(entries_map(ns) =~= entries_map(es).insert(e.0@, strs_view(e.1@)));
}

proof fn lemma_no_parent_step(ts: Seq<TierLink>, i: int, n: int)
    requires
        0 <= i < ts.len(),
        ts[i].parent is None,
    ensures
        Map::new(
            |k: Seq<char>| id_among(ts, n, k) || parent_among(ts, i + 1, k),
            |k: Seq<char>| children_of(ts.take(i + 1), k),
        ) == Map::new(
            |k: Seq<char>| id_among(ts, n, k) || parent_among(ts, i, k),
            |k: Seq<char>| children_of(ts.take(i), k),
        ),
{
    assert(ts.take(i + 1).drop_last() =~= ts.take(i));
    assert(ts.take(i + 1).last() == ts[i]);
    assert forall|k: Seq<char>| #[trigger] children_of(ts.take(i + 1), k) == children_of(ts.take(i), k) by {
    }
    assert forall|k: Seq<char>| #[trigger] parent_among(ts, i + 1, k) <==> parent_among(ts, i, k) by {
        if parent_among(ts, i + 1, k) {
            let a = choose|a: int| 0 <= a < i + 1 && (#[trigger] ts[a]).parent is Some && ts[a].parent->Some_0@ == k;
            assert(a < i);
        }
    }
    assert(Map::new(
        |k: Seq<char>| id_among(ts, n, k) || parent_among(ts, i + 1, k),
        |k: Seq<char>| children_of(ts.take(i + 1), k),
    ) =~= Map::new(
        |k: Seq<char>| id_among(ts, n, k) || parent_among(ts, i, k),
        |k: Seq<char>| children_of(ts.take(i), k),
    ));
}

proof fn lemma_no_children(ts: Seq<TierLink>, i: int, k: Seq<char>)
    requires
        0 <= i <= ts.len(),
        !parent_among(ts, i, k),
    ensures
        children_of(ts.take(i), k) == Seq::<Seq<char>>::empty(),
    decreases i,
{
    if i > 0 {
        assert(ts.take(i).drop_last() =~= ts.take(i - 1));
        assert(ts.take(i).last() == ts[i - 1]);
        assert(!parent_among(ts, i - 1, k)) by {
            if parent_among(ts, i - 1, k) {
                let a = choose|a: int| 0 <= a < i - 1 && (#[trigger] ts[a]).parent is Some && ts[a].parent->Some_0@ == k;
                assert(0 <= a < i);
            }
        }
        lemma_no_children(ts, i - 1, k);
        if ts[i - 1].parent is Some {
            assert(ts[i - 1].parent->Some_0@ != k);
        }
    } else {
        assert(ts.take(0) =~= Seq::<TierLink>::empty());
    }
}

proof fn lemma_parent_step(ts: Seq<TierLink>, i: int, n: int)
    requires
        0 <= i < ts.len(),
        ts[i].parent is Some,
    ensures
        ({
            let pk = ts[i].parent->Some_0@;
            Map::new(
                |k: Seq<char>| id_among(ts, n, k) || parent_among(ts, i + 1, k),
                |k: Seq<char>| children_of(ts.take(i + 1), k),
            ) == Map::new(
                |k: Seq<char>| id_among(ts, n, k) || parent_among(ts, i, k),
                |k: Seq<char>| children_of(ts.take(i), k),
            ).insert(pk, children_of(ts.take(i), pk).push(ts[i].id@))
        }),
{
    let pk = ts[i].parent->Some_0@;
    assert(ts.take(i + 1).drop_last() =~= ts.take(i));
    assert(ts.take(i + 1).last() == ts[i]);
    assert forall|k: Seq<char>| #[trigger] children_of(ts.take(i + 1), k) == if k == pk {
        children_of(ts.take(i), k).push(ts[i].id@)
    } else {
        children_of(ts.take(i), k)
    } by {
    }
    assert forall|k: Seq<char>| #[trigger] parent_among(ts, i + 1, k) <==> (parent_among(ts, i, k) || k == pk) by {
        if k == pk {
            assert(ts[i].parent is Some && ts[i].parent->Some_0@ == k);
        }
        if parent_among(ts, i + 1, k) && k != pk {
            let a = choose|a: int| 0 <= a < i + 1 && (#[trigger] ts[a]).parent is Some && ts[a].parent->Some_0@ == k;
            assert(a < i);
        }
    }
    assert(Map::new(
        |k: Seq<char>| id_among(ts, n, k) || parent_among(ts, i + 1, k),
        |k: Seq<char>| children_of(ts.take(i + 1), k),
    ) =~= Map::new(
        |k: Seq<char>| id_among(ts, n, k) || parent_among(ts, i, k),
        |k: Seq<char>| children_of(ts.take(i), k),
    ).insert(pk, children_of(ts.take(i), pk).push(ts[i].id@)));
}

impl TierTree {
    pub closed spec fn wf(&self) -> bool {
        keys_unique(self.entries@)
    }

    /// The tree of `tiers`: every tier id and every parent id, each with the
    /// ids of the tiers that name it as their parent, in order; then pruned.
    pub fn new(tiers: &[TierLink]) -> (r: TierTree)
        ensures
            r.wf(),
            r@ == pruned(links_map(tiers@)),
    {
        let ghost ts = tiers@;
        let mut tree = TierTree { entries: Vec::new() };
        assert(tree@ =~= Map::new(|k: Seq<char>| id_among(ts, 0, k), |k: Seq<char>| Seq::<Seq<char>>::empty()));
        let mut i: usize = 0;
        while i < tiers.len()
            invariant
                i <= ts.len(),
                ts == tiers@,
                tree.wf(),
                tree@ == Map::new(|k: Seq<char>| id_among(ts, i as int, k), |k: Seq<char>| Seq::<Seq<char>>::empty()),
            decreases ts.len() - i,
        {
            let id = &tiers[i].id;
            let ghost before = tree@;
            match tree.find(id.as_str()) {
                Some(_) => {
                    assert(tree@ =~= Map::new(|k: Seq<char>| id_among(ts, i + 1, k), |k: Seq<char>| Seq::<Seq<char>>::empty())) by {
                        assert forall|k: Seq<char>| #[trigger] id_among(ts, i + 1, k) <==> (id_among(ts, i as int, k) || k == id@) by {
                            if k == id@ { assert(ts[i as int].id@ == k); }
                            if id_among(ts, i + 1, k) && k != id@ {
                                let a = choose|a: int| 0 <= a < i + 1 && (#[trigger] ts[a]).id@ == k;
                                assert(a < i);
                            }
                        }
                    }
                },
                None => {
                    let e: (String, Vec<String>) = (id.clone(), Vec::new());
                    proof {
                        lemma_push_entry(tree.entries@, e);
                        assert(strs_view(e.1@) =~= Seq::<Seq<char>>::empty());
                    }
                    tree.entries.push(e);
                    assert(tree@ =~= Map::new(|k: Seq<char>| id_among(ts, i + 1, k), |k: Seq<char>| Seq::<Seq<char>>::empty())) by {
                        assert forall|k: Seq<char>| #[trigger] id_among(ts, i + 1, k) <==> (id_among(ts, i as int, k) || k == id@) by {
                            if k == id@ { assert(ts[i as int].id@ == k); }
                            if id_among(ts, i + 1, k) && k != id@ {
                                let a = choose|a: int| 0 <= a < i + 1 && (#[trigger] ts[a]).id@ == k;
                                assert(a < i);
                            }
                        }
                    }
                },
            }
            i += 1;
        }
        let n = tiers.len();
        let mut i: usize = 0;
        assert(tree@ =~= Map::new(
            |k: Seq<char>| id_among(ts, n as int, k) || parent_among(ts, 0, k),
            |k: Seq<char>| children_of(ts.take(0), k),
        )) by {
            assert(ts.take(0) =~= Seq::<TierLink>::empty());
        }
        while i < n
            invariant
                i <= n == ts.len(),
                ts == tiers@,
                tree.wf(),
                tree@ == Map::new(
                    |k: Seq<char>| id_among(ts, n as int, k) || parent_among(ts, i as int, k),
                    |k: Seq<char>| children_of(ts.take(i as int), k),
                ),
            decreases n - i,
        {
            let ghost before = tree@;
            let t = &tiers[i];
            proof {
                assert(ts.take(i + 1).drop_last() =~= ts.take(i as int));
                assert(ts.take(i + 1).last() == ts[i as int]);
            }
            match &t.parent {
                None => {
                    proof {
                        lemma_no_parent_step(ts, i as int, n as int);
                    }
                },
                Some(p) => {
                    let ghost pk = p@;
                    proof {
                        lemma_parent_step(ts, i as int, n as int);
                    }
                    match tree.find(p.as_str()) {
                        Some(j) => {
                            let ghost es = tree.entries@;
                            let ghost old_e = es[j as int];
                            tree.entries[j].1.push(t.id.clone());
                            proof {
                                let e = tree.entries@[j as int];
                                assert(tree.entries@ == es.update(j as int, e));
                                assert(strs_view(e.1@) =~= strs_view(old_e.1@).push(t.id@));
                                lemma_update_entry(es, j as int, e);
                                assert(before.contains_key(pk));
                                assert(before[pk] == strs_view(old_e.1@));
                            }
                        },
                        None => {
                            let mut ch: Vec<String> = Vec::new();
                            ch.push(t.id.clone());
                            let e: (String, Vec<String>) = (p.clone(), ch);
                            proof {
                                lemma_push_entry(tree.entries@, e);
                                assert(!before.contains_key(pk));
                                lemma_no_children(ts, i as int, pk);
                                assert(strs_view(e.1@) =~= Seq::<Seq<char>>::empty().push(t.id@));
                            }
                            tree.entries.push(e);
                        },
                    }
                },
            }
            i += 1;
        }
        assert(ts.take(n as int) =~= ts);
        assert(tree@ =~= links_map(ts));
        tree.prune();
        tree
    }

    /// The position of the entry for `key`.
    fn find(&self, key: &str) -> (r: Option<usize>)
        requires
            self.wf(),
        ensures
            r is None ==> !has_key(self.entries@, key@),
            r is Some ==> r->Some_0 < self.entries@.len() && self.entries@[r->Some_0 as int].0@
                == key@ && key_index(self.entries@, key@) == r->Some_0,
    {
        let mut i: usize = 0;
        while i < self.entries.len()
            invariant
                i <= self.entries@.len(),
                keys_unique(self.entries@),
                forall|j: int| 0 <= j < i ==> (#[trigger] self.entries@[j]).0@ != key@,
            decreases self.entries@.len() - i,
        {
            if str_eq(self.entries[i].0.as_str(), key) {
                proof {
                    lemma_index_of_key(self.entries@, i as int);
                }
                return Some(i);
            }
            i += 1;
        }
        None
    }

    /// The children of `tier_id`; none where it is not in the tree.
    pub fn get(&self, tier_id: &str) -> (r: Vec<String>)
        requires
            self.wf(),
        ensures
            strs_view(r@) == if self@.contains_key(tier_id@) {
                self@[tier_id@]
            } else {
                Seq::empty()
            },
    {
        match self.find(tier_id) {
            Some(i) => copy_strings(self.entries[i].1.as_slice()),
            None => {
                let r: Vec<String> = Vec::new();
                assert(strs_view(r@) =~= Seq::<Seq<char>>::empty());
                r
            },
        }
    }

    /// The number of children of `tier_id`.
    pub fn len(self, tier_id: &str) -> (r: usize)
        requires
            self.wf(),
        ensures
            r == if self@.contains_key(tier_id@) {
                self@[tier_id@].len()
            } else {
                0
            },
    {
        let v = self.get(tier_id);
        assert(strs_view(v@).len() == v@.len());
        v.len()
    }

    /// Whether `k` is listed among the children of some tier.
    fn listed_as_child(&self, k: &str) -> (r: bool)
        requires
            self.wf(),
        ensures
            r == is_child(self@, k@),
    {
        let ghost m = self@;
        let ghost es = self.entries@;
        let mut i: usize = 0;
        while i < self.entries.len()
            invariant
                i <= es.len(),
                es == self.entries@,
                m == self@,
                keys_unique(es),
                forall|a: int| 0 <= a < i ==> !strs_view(#[trigger] es[a].1@).contains(k@),
            decreases es.len() - i,
        {
            let ch = &self.entries[i].1;
            let mut j: usize = 0;
            while j < ch.len()
                invariant
                    i < es.len(),
                    keys_unique(es),
                    m == entries_map(es),
                    m == self@,
                    ch == es[i as int].1,
                    j <= ch@.len(),
                    forall|b: int| 0 <= b < j ==> ch@[b]@ != k@,
                decreases ch@.len() - j,
            {
                if str_eq(ch[j].as_str(), k) {
                    proof {
                        lemma_index_of_key(es, i as int);
                        assert(strs_view(ch@)[j as int] == k@);
                        assert(m.contains_key(es[i as int].0@));
                        assert(m[es[i as int].0@] == strs_view(ch@));
                        assert(m[es[i as int].0@].contains(k@));
                        assert(is_child(m, k@));
                    }
                    return true;
                }
                j += 1;
            }
            assert(!strs_view(ch@).contains(k@)) by {
                if strs_view(ch@).contains(k@) {
                    let b = choose|b: int| 0 <= b < strs_view(ch@).len() && strs_view(ch@)[b] == k@;
                    assert(ch@[b]@ == k@);
                }
            }
            i += 1;
        }
        assert(!is_child(m, k@)) by {
            if is_child(m, k@) {
                let p = choose|p: Seq<char>| m.contains_key(p) && (#[trigger] m[p]).contains(k@);
                let a = key_index(es, p);
                assert(m[p] == strs_view(es[a].1@));
            }
        }
        false
    }

    /// The tier ids, in the order of the entries.
    fn keys(&self) -> (r: Vec<String>)
        ensures
            r@.len() == self.entries@.len(),
            forall|i: int| 0 <= i < r@.len() ==> (#[trigger] r@[i])@ == self.entries@[i].0@,
    {
        let mut r: Vec<String> = Vec::new();
        let mut i: usize = 0;
        while i < self.entries.len()
            invariant
                i <= self.entries@.len(),
                r@.len() == i,
                forall|a: int| 0 <= a < i ==> (#[trigger] r@[a])@ == self.entries@[a].0@,
            decreases self.entries@.len() - i,
        {
            r.push(self.entries[i].0.clone());
            i += 1;
        }
        r
    }

    /// Removes the tiers that are listed as another tier's child and have no
    /// children of their own.
    pub fn prune(&mut self)
        requires
            old(self).wf(),
        ensures
            final(self).wf(),
            final(self)@ == pruned(old(self)@),
    {
        let ghost m0 = self@;
        let keys = self.keys();
        let ghost es0 = self.entries@;
        let mut flags: Vec<bool> = Vec::new();
        let mut i: usize = 0;
        while i < keys.len()
            invariant
                i <= keys@.len() == es0.len(),
                self@ == m0,
                self.entries@ == es0,
                self.wf(),
                forall|a: int| 0 <= a < keys@.len() ==> (#[trigger] keys@[a])@ == es0[a].0@,
                flags@.len() == i,
                forall|a: int|
                    0 <= a < i ==> (#[trigger] flags@[a]) == (is_child(m0, es0[a].0@)
                        && m0[es0[a].0@].len() == 0),
            decreases keys@.len() - i,
        {
            proof {
                lemma_index_of_key(es0, i as int);
            }
            let child = self.listed_as_child(keys[i].as_str());
            let empty = self.entries[i].1.len() == 0;
            proof {
                assert(strs_view(es0[i as int].1@).len() == es0[i as int].1@.len());
            }
            flags.push(child && empty);
            i += 1;
        }
        assert(self@ =~= m0.restrict(m0.dom().filter(|k: Seq<char>| !marked(es0, flags@, 0, k))));
        let mut i: usize = 0;
        while i < keys.len()
            invariant
                i <= keys@.len() == es0.len() == flags@.len(),
                self.wf(),
                keys_unique(es0),
                m0 == entries_map(es0),
                forall|a: int| 0 <= a < keys@.len() ==> (#[trigger] keys@[a])@ == es0[a].0@,
                forall|a: int|
                    0 <= a < keys@.len() ==> (#[trigger] flags@[a]) == (is_child(m0, es0[a].0@)
                        && m0[es0[a].0@].len() == 0),
                self@ == m0.restrict(
                    m0.dom().filter(|k: Seq<char>| !marked(es0, flags@, i as int, k)),
                ),
            decreases keys@.len() - i,
        {
            let ghost before = self@;
            if flags[i] {
                self.remove(keys[i].as_str());
            }
            proof {
                lemma_index_of_key(es0, i as int);
                assert forall|k: Seq<char>| #[trigger] marked(es0, flags@, i + 1, k)
                    <==> (marked(es0, flags@, i as int, k) || (k == es0[i as int].0@ && flags@[i as int])) by {
                    if marked(es0, flags@, i + 1, k) && !(k == es0[i as int].0@ && flags@[i as int]) {
                        let a = choose|a: int| 0 <= a < i + 1 && (#[trigger] es0[a]).0@ == k && flags@[a];
                        assert(a < i);
                    }
                    if k == es0[i as int].0@ && flags@[i as int] {
                        assert(es0[i as int].0@ == k);
                    }
                }
                assert(self@ =~= m0.restrict(
                    m0.dom().filter(|k: Seq<char>| !marked(es0, flags@, i + 1, k)),
                ));
            }
            i += 1;
        }
        proof {
            assert forall|k: Seq<char>| m0.contains_key(k) implies (#[trigger] marked(es0, flags@, keys@.len() as int, k)
                <==> (is_child(m0, k) && m0[k].len() == 0)) by {
                let a = key_index(es0, k);
                lemma_index_of_key(es0, a);
                if marked(es0, flags@, keys@.len() as int, k) {
                    let b = choose|b: int| 0 <= b < keys@.len() && (#[trigger] es0[b]).0@ == k && flags@[b];
                    lemma_index_of_key(es0, b);
                }
                assert(es0[a].0@ == k);
            }
            assert(self@ =~= pruned(m0));
        }
    }

    /// The tier ids at the top of the tree's entries: each key once.
    pub fn ids(&self) -> (r: Vec<String>)
        requires
            self.wf(),
        ensures
            forall|i: int| 0 <= i < r@.len() ==> self@.contains_key(#[trigger] r@[i]@),
            forall|k: Seq<char>| #[trigger] self@.contains_key(k) ==> exists|i: int| 0 <= i < r@.len() && r@[i]@ == k,
    {
        let r = self.keys();
        proof {
            assert forall|i: int| 0 <= i < r@.len() implies self@.contains_key(#[trigger] r@[i]@) by {
                assert(has_key(self.entries@, self.entries@[i].0@));
            }
            assert forall|k: Seq<char>| #[trigger] self@.contains_key(k) implies exists|i: int| 0 <= i < r@.len() && r@[i]@ == k by {
                let a = key_index(self.entries@, k);
                assert(r@[a]@ == k);
            }
        }
        r
    }

    /// Removes the entry for `key`, returning its children.
    pub fn remove(&mut self, key: &str) -> (r: Option<Vec<String>>)
        requires
            old(self).wf(),
        ensures
            final(self).wf(),
            final(self)@ == old(self)@.remove(key@),
            r is Some <==> old(self)@.contains_key(key@),
            r is Some ==> strs_view(r->Some_0@) == old(self)@[key@],
    {
        match self.find(key) {
            Some(i) => {
                let ghost es = self.entries@;
                let (_, children) = self.entries.remove(i);
                proof {
                    let ns = self.entries@;
                    assert(ns =~= es.remove(i as int));
                    assert(keys_unique(ns)) by {
                        assert forall|a: int, b: int|
                            0 <= a < ns.len() && 0 <= b < ns.len() && (#[trigger] ns[a]).0@
                                == (#[trigger] ns[b]).0@ implies a == b by {
                            let a2 = if a < i { a } else { a + 1 };
                            let b2 = if b < i { b } else { b + 1 };
                            assert(ns[a] == es[a2] && ns[b] == es[b2]);
                        }
                    }
                    assert forall|k: Seq<char>| has_key(ns, k) <==> (has_key(es, k) && k != key@) by {
                        if has_key(ns, k) {
                            let a = choose|a: int| 0 <= a < ns.len() && (#[trigger] ns[a]).0@ == k;
                            let a2 = if a < i { a } else { a + 1 };
                            assert(ns[a] == es[a2]);
                            assert(es[a2].0@ == k);
                        }
                        if has_key(es, k) && k != key@ {
                            let a = choose|a: int| 0 <= a < es.len() && (#[trigger] es[a]).0@ == k;
                            assert(a != i);
                            let a2 = if a < i { a } else { a - 1 };
                            assert(ns[a2] == es[a]);
                        }
                    }
                    assert forall|k: Seq<char>| #[trigger] has_key(ns, k) implies strs_view(
                        ns[key_index(ns, k)].1@,
                    ) == strs_view(es[key_index(es, k)].1@) by {
                        let a = key_index(ns, k);
                        let a2 = if a < i { a } else { a + 1 };
                        assert(ns[a] == es[a2]);
                        lemma_index_of_key(es, a2);
                    }
                    assert(entries_map(ns) =~= entries_map(es).remove(key@));
                }
                Some(children)
            },
            None => {
                assert(entries_map(self.entries@) =~= entries_map(self.entries@).remove(key@));
                None
            },
        }
    }
}

/// Whether two strings hold the same characters.
fn str_eq(a: &str, b: &str) -> (r: bool)
    ensures
        r == (a@ == b@),
{
    let av = crate::text::chars_of(a);
    let bv = crate::text::chars_of(b);
    if av.len() != bv.len() {
        return false;
    }
    let mut i: usize = 0;
    while i < av.len()
        invariant
            i <= av@.len() == bv@.len(),
            av@ == a@,
            bv@ == b@,
            forall|k: int| 0 <= k < i ==> av@[k] == bv@[k],
        decreases av@.len() - i,
    {
        if av[i] != bv[i] {
            assert(a@[i as int] != b@[i as int]);
            return false;
        }
        i += 1;
    }
    assert(a@ =~= b@);
    true
}

/// One line of the printed tree: three spaces per level of `depth`, the
/// branch (`╰─ ` for the last child, `├─ ` otherwise), and the tier id.
pub open spec fn branch_text(depth: nat, id: Seq<char>, last: bool) -> Seq<char> {
    Seq::new(depth * 3, |i: int| ' ') + (if last {
        seq!['╰', '─', ' ']
    } else {
        seq!['├', '─', ' ']
    }) + id
}

/// Builds one line of the printed tree.
pub fn branch_line(depth: usize, id: &str, last: bool) -> (r: String)
    ensures
        r@ == branch_text(depth as nat, id@, last),
{
    let mut s = String::new();
    let mut d: usize = 0;
    while d < depth
        invariant
            d <= depth,
            s@ == Seq::new((d * 3) as nat, |i: int| ' '),
        decreases depth - d,
    {
        push_char(&mut s, ' ');
        push_char(&mut s, ' ');
        push_char(&mut s, ' ');
        d += 1;
        assert(s@ =~= Seq::new((d * 3) as nat, |i: int| ' '));
    }
    let ghost pad = s@;
    if last {
        push_char(&mut s, '╰');
    } else {
        push_char(&mut s, '├');
    }
    push_char(&mut s, '─');
    push_char(&mut s, ' ');
    s.append(id);
    assert(s@ =~= branch_text(depth as nat, id@, last));
    s
}

} // verus!
