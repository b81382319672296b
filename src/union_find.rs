//! The store itself: a parent forest kept in hash maps, with path compression
//! on lookup and union by size on merge.
use std::collections::HashMap;
use std::collections::HashSet;
use vstd::prelude::*;

use crate::model::{
    added, ancestor, appended, compressed, group, group_size, lemma_ancestor_shift,
    lemma_root_fixed, lemma_root_unique, lemma_walk_bounded, lemma_walk_rank, merged,
    merged_entries, merged_parents, nontrivial_groups, on_walk, root_of, valid_model, valid_parts,
    with_parent,
};
use crate::text::{forest_text, push_link};

verus! {

broadcast use vstd::std_specs::hash::group_hash_axioms;

/// A disjoint-set store over `u64` elements. Elements come into existence the
/// first time they are named; groups only ever merge.
#[derive(Clone)]
pub struct UnionFind {
    parents: HashMap<u64, u64>,
    sizes: HashMap<u64, usize>,
    order: Vec<u64>,
    /// The root that each element's parent chain ends at.
    roots: Ghost<Map<u64, u64>>,
    /// Strictly increases along every parent link, so each chain ends.
    rank: Ghost<Map<u64, nat>>,
}

/// The members of the group of `r` among the first `i` elements of `order`.
spec fn prefix_group(rep: Map<u64, u64>, order: Seq<u64>, i: int, r: u64) -> Set<u64> {
    order.take(i).to_set().filter(|z: u64| rep[z] == r)
}

/// Follows at most `n` parent links of `p` from `x`, to the first element that
/// is its own parent.
fn walk_to_root(p: &HashMap<u64, u64>, x: u64, n: usize) -> (r: Option<(u64, usize)>)
    requires
        p@.dom().contains(x),
        forall|y: u64| p@.dom().contains(y) ==> p@.dom().contains(#[trigger] p@[y]),
    ensures
        match r {
            Some((r, d)) => {
                &&& p@.dom().contains(r)
                &&& p@[r] == r
                &&& d <= n
                &&& ancestor(p@, x, d as nat) == r
                &&& forall|j: nat| j < d ==> #[trigger] p@[ancestor(p@, x, j)] != ancestor(p@, x, j)
            },
            None => forall|k: nat|
                k <= n ==> #[trigger] p@[ancestor(p@, x, k)] != ancestor(p@, x, k),
        },
{
    let mut cur = x;
    let mut k: usize = 0;
    loop
        invariant
            k <= n,
            cur == ancestor(p@, x, k as nat),
            p@.dom().contains(cur),
            forall|j: nat| j < k ==> #[trigger] p@[ancestor(p@, x, j)] != ancestor(p@, x, j),
            forall|y: u64| p@.dom().contains(y) ==> p@.dom().contains(#[trigger] p@[y]),
        decreases n - k,
    {
        let up = match p.get(&cur) {
            Some(v) => *v,
            None => cur,
        };
        if up == cur {
            assert(ancestor(p@, x, k as nat) == cur);
            return Some((cur, k));
        }
        if k == n {
            return None;
        }
        assert(ancestor(p@, x, (k + 1) as nat) == up);
        cur = up;
        k = k + 1;
    }
}

/// Whether each element of `order` occurs in it once.
fn listed_once(order: &Vec<u64>) -> (b: bool)
    ensures
        b == order@.no_duplicates(),
{
    let mut seen: HashSet<u64> = HashSet::new();
    let mut i: usize = 0;
    while i < order.len()
        invariant
            i <= order@.len(),
            seen@ == order@.take(i as int).to_set(),
            order@.take(i as int).no_duplicates(),
        decreases order@.len() - i,
    {
        let x = order[i];
        proof {
            order@.take(i as int).lemma_push_to_set_commute(x);
            assert(order@.take(i + 1) == order@.take(i as int).push(x));
        }
        if !seen.insert(x) {
            proof {
                let j = order@.take(i as int).index_of(x);
                assert(order@[j] == order@[i as int]);
            }
            return false;
        }
        proof {
            assert forall|a: int, b: int|
                0 <= a < b < i + 1 implies #[trigger] order@.take(i + 1)[a] != #[trigger] order@.take(
                i + 1,
            )[b] by {
                if b == i {
                    assert(order@.take(i as int)[a] == order@[a]);
                    assert(order@.take(i as int).contains(order@[a]));
                }
            }
        }
        i = i + 1;
    }
    proof {
        assert(order@.take(order@.len() as int) == order@);
    }
    true
}

/// Whether every element of `order` has a parent in `p`, and that parent has
/// one too.
fn parents_listed(order: &Vec<u64>, p: &HashMap<u64, u64>) -> (b: bool)
    ensures
        b == forall|i: int|
            0 <= i < order@.len() ==> p@.dom().contains(#[trigger] order@[i]) && p@.dom().contains(
                p@[order@[i]],
            ),
{
    let mut i: usize = 0;
    while i < order.len()
        invariant
            i <= order@.len(),
            forall|j: int|
                0 <= j < i ==> p@.dom().contains(#[trigger] order@[j]) && p@.dom().contains(
                    p@[order@[j]],
                ),
        decreases order@.len() - i,
    {
        let x = order[i];
        match p.get(&x) {
            Some(up) => {
                if !p.contains_key(up) {
                    return false;
                }
                assert(p@.dom().contains(x) && p@.dom().contains(p@[x]));
                assert(x == order@[i as int]);
            },
            None => {
                return false;
            },
        }
        i = i + 1;
    }
    true
}

/// The root that each element of `order` reaches by at most `order.len()`
/// parent links of `p`, or `None` where one reaches none.
fn find_roots(order: &Vec<u64>, p: &HashMap<u64, u64>) -> (r: Option<
    (HashMap<u64, u64>, HashMap<u64, usize>),
>)
    requires
        order@.no_duplicates(),
        p@.dom() == order@.to_set(),
        forall|y: u64| p@.dom().contains(y) ==> p@.dom().contains(#[trigger] p@[y]),
    ensures
        match r {
            Some((flat, depth)) => {
                &&& flat@.dom() == p@.dom()
                &&& depth@.dom() == p@.dom()
                &&& forall|y: u64| #[trigger]
                    flat@.dom().contains(y) ==> {
                        &&& p@.dom().contains(flat@[y])
                        &&& p@[flat@[y]] == flat@[y]
                        &&& exists|k: nat|
                            k <= order@.len() && #[trigger] ancestor(p@, y, k) == flat@[y]
                        &&& depth@[y] <= order@.len()
                        &&& ancestor(p@, y, depth@[y] as nat) == flat@[y]
                        &&& forall|j: nat|
                            j < depth@[y] ==> #[trigger] p@[ancestor(p@, y, j)] != ancestor(p@, y, j)
                    }
            },
            None => exists|y: u64|
                #[trigger] p@.dom().contains(y) && forall|k: nat|
                    k <= order@.len() ==> #[trigger] p@[ancestor(p@, y, k)] != ancestor(p@, y, k),
        },
{
    let n = order.len();
    let mut flat: HashMap<u64, u64> = HashMap::new();
    let mut depth: HashMap<u64, usize> = HashMap::new();
    let mut i: usize = 0;
    while i < n
        invariant
            n == order@.len(),
            i <= n,
            p@.dom() == order@.to_set(),
            forall|y: u64| p@.dom().contains(y) ==> p@.dom().contains(#[trigger] p@[y]),
            flat@.dom() == order@.take(i as int).to_set(),
            depth@.dom() == flat@.dom(),
            forall|y: u64| #[trigger]
                flat@.dom().contains(y) ==> {
                    &&& p@.dom().contains(flat@[y])
                    &&& p@[flat@[y]] == flat@[y]
                    &&& exists|k: nat| k <= n && #[trigger] ancestor(p@, y, k) == flat@[y]
                    &&& depth@[y] <= n
                    &&& ancestor(p@, y, depth@[y] as nat) == flat@[y]
                    &&& forall|j: nat|
                        j < depth@[y] ==> #[trigger] p@[ancestor(p@, y, j)] != ancestor(p@, y, j)
                },
        decreases n - i,
    {
        let x = order[i];
        proof {
            assert(order@.to_set().contains(x));
            order@.take(i as int).lemma_push_to_set_commute(x);
            assert(order@.take(i + 1) == order@.take(i as int).push(x));
        }
        match walk_to_root(p, x, n) {
            Some((root, d)) => {
                flat.insert(x, root);
                depth.insert(x, d);
            },
            None => {
                return None;
            },
        }
        i = i + 1;
    }
    proof {
        assert(order@.take(n as int) == order@);
    }
    Some((flat, depth))
}

/// For each element of `order`, how many elements `flat` sends to it.
fn count_groups(order: &Vec<u64>, flat: &HashMap<u64, u64>) -> (sizes: HashMap<u64, usize>)
    requires
        order@.no_duplicates(),
        flat@.dom() == order@.to_set(),
        forall|y: u64| flat@.dom().contains(y) ==> flat@.dom().contains(#[trigger] flat@[y]),
    ensures
        sizes@.dom() == flat@.dom(),
        forall|q: u64| #[trigger]
            sizes@.contains_key(q) ==> sizes@[q] == group_size(flat@, q),
{
    let ghost rep = flat@;
    let n = order.len();
    let mut sizes: HashMap<u64, usize> = HashMap::new();
    let mut i: usize = 0;
    while i < n
        invariant
            n == order@.len(),
            i <= n,
            sizes@.dom() == order@.take(i as int).to_set(),
            forall|q: u64| #[trigger] sizes@.contains_key(q) ==> sizes@[q] == 0,
        decreases n - i,
    {
        let x = order[i];
        proof {
            order@.take(i as int).lemma_push_to_set_commute(x);
            assert(order@.take(i + 1) == order@.take(i as int).push(x));
        }
        sizes.insert(x, 0);
        i = i + 1;
    }
    proof {
        assert(order@.take(n as int) == order@);
        assert forall|q: u64| #[trigger] sizes@.contains_key(q) implies sizes@[q] == prefix_group(
            rep,
            order@,
            0,
            q,
        ).len() by {
            assert(prefix_group(rep, order@, 0, q) =~= Set::empty());
        }
    }
    let mut i: usize = 0;
    while i < n
        invariant
            n == order@.len(),
            i <= n,
            order@.no_duplicates(),
            rep.dom() == order@.to_set(),
            forall|y: u64| rep.dom().contains(y) ==> rep.dom().contains(#[trigger] rep[y]),
            flat@ == rep,
            sizes@.dom() == rep.dom(),
            forall|q: u64| #[trigger]
                sizes@.contains_key(q) ==> sizes@[q] == prefix_group(rep, order@, i as int, q).len()
                    && sizes@[q] <= i,
        decreases n - i,
    {
        let x = order[i];
        proof {
            assert(order@.to_set().contains(x));
            order@.take(i as int).lemma_push_to_set_commute(x);
            assert(order@.take(i + 1) == order@.take(i as int).push(x));
            vstd::seq_lib::seq_to_set_is_finite(order@.take(i as int));
            assert(!order@.take(i as int).contains(x)) by {
                if order@.take(i as int).contains(x) {
                    let j = order@.take(i as int).index_of(x);
                    assert(order@[j] == order@[i as int]);
                }
            }
        }
        let root = match flat.get(&x) {
            Some(v) => *v,
            None => x,
        };
        let count = match sizes.get(&root) {
            Some(c) => *c,
            None => 0,
        };
        sizes.insert(root, count + 1);
        proof {
            assert(sizes@.dom() =~= rep.dom());
            assert forall|q: u64| #[trigger] sizes@.contains_key(q) implies sizes@[q]
                == prefix_group(rep, order@, i + 1, q).len() && sizes@[q] <= i + 1 by {
                let before = prefix_group(rep, order@, i as int, q);
                let after = prefix_group(rep, order@, i + 1, q);
                if q == root {
                    assert(after =~= before.insert(x));
                } else {
                    assert(after =~= before);
                }
            }
        }
        i = i + 1;
    }
    proof {
        assert(order@.take(n as int) == order@);
        assert forall|q: u64| #[trigger] sizes@.contains_key(q) implies sizes@[q] == group_size(
            rep,
            q,
        ) by {
            assert(prefix_group(rep, order@, n as int, q) =~= group(rep, q));
        }
    }
    sizes
}

/// Whether `order` lists each element once and `p` gives exactly those
/// elements a parent among them.
fn parents_close(order: &Vec<u64>, parents: &HashMap<u64, u64>) -> (b: bool)
    ensures
        b ==> {
            &&& order@.no_duplicates()
            &&& parents@.dom() == order@.to_set()
            &&& forall|y: u64|
                parents@.dom().contains(y) ==> parents@.dom().contains(#[trigger] parents@[y])
        },
        !b ==> !valid_parts(order@, parents@),
{
    if !listed_once(order) {
        return false;
    }
    if !parents_listed(order, parents) {
        proof {
            assert(!valid_parts(order@, parents@)) by {
                if valid_parts(order@, parents@) {
                    assert forall|i: int| 0 <= i < order@.len() implies parents@.dom().contains(
                        #[trigger] order@[i],
                    ) && parents@.dom().contains(parents@[order@[i]]) by {
                        assert(order@.to_set().contains(order@[i]));
                    }
                }
            }
        }
        return false;
    }
    let n = order.len();
    proof {
        order@.unique_seq_to_set();
        vstd::seq_lib::seq_to_set_is_finite(order@);
        assert forall|y: u64| #[trigger] order@.to_set().contains(y) implies parents@.dom().contains(
            y,
        ) by {
            let j = order@.index_of(y);
            assert(order@[j] == y);
        }
    }
    if parents.len() != n {
        return false;
    }
    proof {
        vstd::set_lib::lemma_subset_equality(order@.to_set(), parents@.dom());
        assert forall|y: u64| parents@.dom().contains(y) implies parents@.dom().contains(
            #[trigger] parents@[y],
        ) by {
            let j = order@.index_of(y);
            assert(order@[j] == y);
        }
    }
    true
}

/// Roots found within `entries.len()` links for every entry make the parts
/// valid, and taking them as representatives gives a consistent state.
proof fn lemma_roots_valid(entries: Seq<u64>, p: Map<u64, u64>, rep: Map<u64, u64>)
    requires
        entries.no_duplicates(),
        p.dom() == entries.to_set(),
        forall|y: u64| p.dom().contains(y) ==> p.dom().contains(#[trigger] p[y]),
        rep.dom() == p.dom(),
        forall|y: u64| #[trigger]
            rep.dom().contains(y) ==> {
                &&& p.dom().contains(rep[y])
                &&& p[rep[y]] == rep[y]
                &&& exists|k: nat| k <= entries.len() && #[trigger] ancestor(p, y, k) == rep[y]
            },
    ensures
        valid_parts(entries, p),
        valid_model(entries, rep),
        forall|x: u64| #[trigger] rep.dom().contains(x) ==> root_of(p, x, rep[x]),
{
    lemma_roots_model(entries, p, rep);
    lemma_roots_reached(entries, p, rep);
    assert forall|x: u64| #[trigger] rep.dom().contains(x) implies root_of(p, x, rep[x]) by {
        let k = choose|k: nat| k <= entries.len() && #[trigger] ancestor(p, x, k) == rep[x];
    }
}

/// Roots taken as representatives give a consistent state.
proof fn lemma_roots_model(entries: Seq<u64>, p: Map<u64, u64>, rep: Map<u64, u64>)
    requires
        entries.no_duplicates(),
        p.dom() == entries.to_set(),
        forall|y: u64| p.dom().contains(y) ==> p.dom().contains(#[trigger] p[y]),
        rep.dom() == p.dom(),
        forall|y: u64| #[trigger]
            rep.dom().contains(y) ==> {
                &&& p.dom().contains(rep[y])
                &&& p[rep[y]] == rep[y]
                &&& exists|k: nat| k <= entries.len() && #[trigger] ancestor(p, y, k) == rep[y]
            },
    ensures
        valid_model(entries, rep),
{
    assert forall|y: u64| rep.dom().contains(y) implies rep.dom().contains(#[trigger] rep[y])
        && rep[rep[y]] == rep[y] by {
        let r = rep[y];
        assert(p.dom().contains(r));
        let k = choose|k: nat| k <= entries.len() && #[trigger] ancestor(p, r, k) == rep[r];
        lemma_root_fixed(p, r, k);
    }
}

/// Roots found within `entries.len()` links make the parts valid.
proof fn lemma_roots_reached(entries: Seq<u64>, p: Map<u64, u64>, rep: Map<u64, u64>)
    requires
        entries.no_duplicates(),
        p.dom() == entries.to_set(),
        forall|y: u64| p.dom().contains(y) ==> p.dom().contains(#[trigger] p[y]),
        rep.dom() == p.dom(),
        forall|y: u64| #[trigger]
            rep.dom().contains(y) ==> {
                &&& p.dom().contains(rep[y])
                &&& p[rep[y]] == rep[y]
                &&& exists|k: nat| k <= entries.len() && #[trigger] ancestor(p, y, k) == rep[y]
            },
    ensures
        valid_parts(entries, p),
{
    assert forall|y: u64| #[trigger] p.dom().contains(y) implies exists|k: nat|
        k <= entries.len() && #[trigger] p[ancestor(p, y, k)] == ancestor(p, y, k) by {
        let k = choose|k: nat| k <= entries.len() && #[trigger] ancestor(p, y, k) == rep[y];
        assert(p[ancestor(p, y, k)] == ancestor(p, y, k));
    }
}

impl UnionFind {
    /// The known elements, in the order they were first seen.
    pub closed spec fn entries_view(&self) -> Seq<u64> {
        self.order@
    }

    /// The representative of each known element.
    pub closed spec fn rep(&self) -> Map<u64, u64> {
        self.roots@
    }

    /// The parent pointer currently stored for each known element.
    pub closed spec fn parent_map(&self) -> Map<u64, u64> {
        self.parents@
    }

    /// The store's invariant: the abstract state is consistent, every parent
    /// lies in its child's group and outranks it, roots are exactly the
    /// representatives, and each root's size is the size of its group.
    pub closed spec fn wf(&self) -> bool {
        let p = self.parents@;
        let rep = self.roots@;
        let rk = self.rank@;
        let s = self.sizes@;
        &&& valid_model(self.order@, rep)
        &&& p.dom() == rep.dom()
        &&& rk.dom() == rep.dom()
        &&& s.dom() == rep.dom()
        &&& forall|x: u64|
            p.dom().contains(x) ==> {
                &&& p.dom().contains(#[trigger] p[x])
                &&& rep[p[x]] == rep[x]
                &&& p[x] != x ==> rk[x] < rk[p[x]]
                &&& p[x] == x ==> rep[x] == x
            }
        &&& forall|x: u64|
            p.dom().contains(x) ==> p[#[trigger] rep[x]] == rep[x] && rk[x] <= rk[rep[x]]
        &&& forall|r: u64|
            #![trigger s[r]]
            rep.dom().contains(r) && rep[r] == r ==> s[r] == group_size(rep, r)
    }

    /// An empty store.
    pub fn new() -> (r: Self)
        ensures
            r.wf(),
            r.entries_view() == Seq::<u64>::empty(),
            r.rep() == Map::<u64, u64>::empty(),
    {
        let r = UnionFind {
            parents: HashMap::new(),
            sizes: HashMap::new(),
            order: Vec::new(),
            roots: Ghost(Map::empty()),
            rank: Ghost(Map::empty()),
        };
        proof {
            assert(r.order@.to_set() =~= Set::empty());
        }
        r
    }

    /// Makes `x` known: an unseen element becomes a group of its own.
    fn make_known(&mut self, x: u64)
        requires
            old(self).wf(),
        ensures
            final(self).wf(),
            final(self).rep() == added(old(self).rep(), x),
            final(self).entries_view() == appended(old(self).entries_view(), old(self).rep(), x),
            final(self).parent_map() == (if old(self).rep().dom().contains(x) {
                old(self).parent_map()
            } else {
                old(self).parent_map().insert(x, x)
            }),
    {
        if !self.parents.contains_key(&x) {
            let ghost old_rep = self.roots@;
            let ghost old_order = self.order@;
            let ghost old_sizes = self.sizes@;
            self.parents.insert(x, x);
            self.sizes.insert(x, 1);
            self.order.push(x);
            self.roots = Ghost(self.roots@.insert(x, x));
            self.rank = Ghost(self.rank@.insert(x, 0));
            proof {
                let rep = self.roots@;
                assert(!old_rep.dom().contains(x));
                assert forall|r: u64|
                    #![trigger self.sizes@[r]]
                    rep.dom().contains(r) && rep[r] == r implies self.sizes@[r] == group_size(
                        rep,
                        r,
                    ) by {
                    if r == x {
                        assert forall|z: u64| #[trigger] group(rep, x).contains(z) implies z == x by {
                            if z != x {
                                assert(old_rep.dom().contains(old_rep[z]));
                            }
                        }
                        assert(group(rep, x) =~= set![x]);
                    } else {
                        assert(group(rep, r) =~= group(old_rep, r));
                        assert(old_sizes[r] == group_size(old_rep, r));
                    }
                }
                assert(self.sizes@.dom() =~= rep.dom());
                old_order.lemma_push_to_set_commute(x);
                assert(self.order@ == old_order.push(x));
                assert(self.order@.no_duplicates());
            }
        }
    }

    /// The stored parent of a known element.
    fn parent_of(&self, x: u64) -> (r: u64)
        requires
            self.wf(),
            self.rep().dom().contains(x),
        ensures
            r == self.parent_map()[x],
    {
        match self.parents.get(&x) {
            Some(p) => *p,
            None => x,
        }
    }

    /// Sets the parent of the known element `c` to its root `root`.
    fn point_at_root(&mut self, c: u64, root: u64)
        requires
            old(self).wf(),
            old(self).rep().dom().contains(c),
            root == old(self).rep()[c],
        ensures
            final(self).wf(),
            final(self).parents@ == old(self).parents@.insert(c, root),
            final(self).roots == old(self).roots,
            final(self).order == old(self).order,
            final(self).rank == old(self).rank,
    {
        proof {
            let p = self.parents@;
            assert(p.dom().contains(p[c]));
            if root != c {
                assert(p[c] != c);
                assert(self.rank@[c] < self.rank@[p[c]]);
                assert(self.rank@[p[c]] <= self.rank@[self.roots@[p[c]]]);
            }
        }
        self.parents.insert(c, root);
        proof {
            let p = self.parents@;
            assert(p.dom() =~= self.roots@.dom());
            assert(self.sizes@.dom() == self.roots@.dom());
            let rep = self.roots@;
            let rk = self.rank@;
            assert forall|y: u64| p.dom().contains(y) implies p[#[trigger] rep[y]] == rep[y]
                && rk[y] <= rk[rep[y]] by {
                if rep[y] == c {
                    assert(rep[c] == c);
                }
            }
            assert forall|y: u64| p.dom().contains(y) implies {
                &&& p.dom().contains(#[trigger] p[y])
                &&& rep[p[y]] == rep[y]
                &&& p[y] != y ==> rk[y] < rk[p[y]]
                &&& p[y] == y ==> rep[y] == y
            } by {
                if y == c {
                    assert(rep[rep[c]] == rep[c]);
                }
            }

        }
    }

    /// The representative of `x`'s group. An unseen `x` is first added as a
    /// group of its own. Every element on the walk from `x` is then pointed
    /// straight at the representative, so a second lookup takes one step.
    pub fn find(&mut self, x: u64) -> (r: u64)
        requires
            old(self).wf(),
        ensures
            final(self).wf(),
            final(self).rep() == added(old(self).rep(), x),
            final(self).entries_view() == appended(old(self).entries_view(), old(self).rep(), x),
            r == final(self).rep()[x],
            final(self).parent_map() == compressed(with_parent(old(self).parent_map(), x), x, r),
            final(self).parent_map()[x] == r,
            final(self).parent_map().dom() == final(self).rep().dom(),
            !old(self).rep().dom().contains(x) ==> final(self).parent_map() == old(
                self,
            ).parent_map().insert(x, x),
    {
        self.make_known(x);
        let ghost mid = self.parents@;
        let ghost target = self.roots@[x];
        let mut root: u64 = x;
        let mut up: u64 = self.parent_of(x);
        while up != root
            invariant
                self.wf(),
                self.rep().dom().contains(root),
                self.roots@[root] == target,
                up == self.parents@[root],
            decreases self.rank@[target] - self.rank@[root],
        {
            root = up;
            up = self.parent_of(root);
        }
        assert(root == target);
        proof {
            assert forall|w: u64| mid.dom().contains(w) implies mid.dom().contains(#[trigger] mid[w])
                && self.rank@[w] <= self.rank@[mid[w]] by {
                assert(mid.dom().contains(mid[w]));
            }
            assert(ancestor(mid, x, 0) == x);
            assert(self.parents@ =~= Map::new(
                |y: u64| mid.dom().contains(y),
                |y: u64|
                    if on_walk(mid, x, y) && !on_walk(mid, x, y) {
                        root
                    } else {
                        mid[y]
                    },
            ));
        }
        let mut cur: u64 = x;
        while cur != root
            invariant
                self.wf(),
                self.roots@ == added(old(self).rep(), x),
                self.order@ == appended(old(self).entries_view(), old(self).rep(), x),
                root == target,
                self.rep().dom().contains(cur),
                self.roots@[cur] == target,
                cur == x || self.parents@[x] == root,
                self.parents@.dom() == mid.dom(),
                mid.dom().contains(cur),
                on_walk(mid, x, cur),
                forall|w: u64|
                    mid.dom().contains(w) ==> mid.dom().contains(#[trigger] mid[w])
                        && self.rank@[w] <= self.rank@[mid[w]],
                self.parents@ == Map::new(
                    |y: u64| mid.dom().contains(y),
                    |y: u64|
                        if on_walk(mid, x, y) && !on_walk(mid, cur, y) {
                            root
                        } else {
                            mid[y]
                        },
                ),
            decreases self.rank@[target] - self.rank@[cur],
        {
            proof {
                assert(ancestor(mid, cur, 0) == cur);
            }
            let next = self.parent_of(cur);
            proof {
                assert(next == mid[cur]);
                assert(next != cur);
                assert(self.rank@[cur] < self.rank@[next]);
                assert forall|y: u64| #[trigger] on_walk(mid, cur, y) == (y == cur || on_walk(
                    mid,
                    next,
                    y,
                )) by {
                    if on_walk(mid, cur, y) && y != cur {
                        let j = choose|j: nat| #[trigger] ancestor(mid, cur, j) == y;
                        assert(j > 0);
                        lemma_ancestor_shift(mid, cur, (j - 1) as nat);
                        assert(ancestor(mid, next, (j - 1) as nat) == y);
                    }
                    if on_walk(mid, next, y) {
                        let j = choose|j: nat| #[trigger] ancestor(mid, next, j) == y;
                        lemma_ancestor_shift(mid, cur, j);
                        assert(ancestor(mid, cur, j + 1) == y);
                    }
                }
                assert(!on_walk(mid, next, cur)) by {
                    if on_walk(mid, next, cur) {
                        let j = choose|j: nat| #[trigger] ancestor(mid, next, j) == cur;
                        lemma_walk_rank(mid, self.rank@, next, j);
                    }
                }
                let j0 = choose|j: nat| #[trigger] ancestor(mid, x, j) == cur;
                assert(ancestor(mid, x, j0 + 1) == mid[ancestor(mid, x, j0)]);
            }
            self.point_at_root(cur, root);
            cur = next;
            proof {
                assert(self.parents@ =~= Map::new(
                    |y: u64| mid.dom().contains(y),
                    |y: u64|
                        if on_walk(mid, x, y) && !on_walk(mid, cur, y) {
                            root
                        } else {
                            mid[y]
                        },
                ));
            }
        }
        proof {
            assert forall|y: u64| #[trigger] on_walk(mid, root, y) implies y == root by {
                let j = choose|j: nat| #[trigger] ancestor(mid, root, j) == y;
                lemma_root_fixed(mid, root, j);
            }
            assert(ancestor(mid, root, 0) == root);
            assert(self.parents@ =~= compressed(mid, x, root));
            if !old(self).rep().dom().contains(x) {
                assert forall|y: u64| #[trigger] on_walk(mid, x, y) implies y == x by {
                    let j = choose|j: nat| #[trigger] ancestor(mid, x, j) == y;
                    lemma_root_fixed(mid, x, j);
                }
                assert(self.parents@ =~= old(self).parent_map().insert(x, x));
            }
        }
        root
    }

    /// The size of the group of the root `r`.
    fn size_of(&self, r: u64) -> (n: usize)
        requires
            self.wf(),
            self.rep().dom().contains(r),
            self.rep()[r] == r,
        ensures
            n == group_size(self.rep(), r),
    {
        match self.sizes.get(&r) {
            Some(n) => *n,
            None => 0,
        }
    }

    /// Hangs the root `gone` under the root `keep`, whose groups together
    /// hold `total` elements.
    fn link(&mut self, keep: u64, gone: u64, total: usize)
        requires
            old(self).wf(),
            keep != gone,
            old(self).rep().dom().contains(keep),
            old(self).rep().dom().contains(gone),
            old(self).rep()[keep] == keep,
            old(self).rep()[gone] == gone,
            total == group_size(old(self).rep(), keep) + group_size(old(self).rep(), gone),
        ensures
            final(self).wf(),
            final(self).rep() == old(self).rep().map_values(
                |v: u64|
                    if v == gone {
                        keep
                    } else {
                        v
                    },
            ),
            final(self).order == old(self).order,
            final(self).parents@ == old(self).parents@.insert(gone, keep),
    {
        let ghost rep = self.roots@;
        let ghost rk = self.rank@;
        let ghost p = self.parents@;
        let ghost s = self.sizes@;
        self.parents.insert(gone, keep);
        self.sizes.insert(keep, total);
        let ghost top: nat = if rk[keep] > rk[gone] {
            rk[keep]
        } else {
            rk[gone] + 1
        };
        self.roots = Ghost(rep.map_values(|v: u64| if v == gone { keep } else { v }));
        self.rank = Ghost(rk.insert(keep, top));
        proof {
            let rep2 = self.roots@;
            let p2 = self.parents@;
            let rk2 = self.rank@;
            let s2 = self.sizes@;
            assert(rep2.dom() == rep.dom());
            assert(p2.dom() =~= rep.dom());
            assert(rk2.dom() =~= rep.dom());
            assert(s2.dom() =~= rep.dom());
            assert forall|x: u64| rep2.dom().contains(x) implies rep2.dom().contains(
                #[trigger] rep2[x],
            ) && rep2[rep2[x]] == rep2[x] by {
                assert(rep.dom().contains(rep[x]));
            }
            assert forall|x: u64| p2.dom().contains(x) implies {
                &&& p2.dom().contains(#[trigger] p2[x])
                &&& rep2[p2[x]] == rep2[x]
                &&& p2[x] != x ==> rk2[x] < rk2[p2[x]]
                &&& p2[x] == x ==> rep2[x] == x
            } by {
                if x != gone {
                    assert(p.dom().contains(p[x]));
                    assert(rep[p[x]] == rep[x]);
                    if p[x] != x {
                        assert(rk[x] < rk[p[x]]);
                    }
                }
            }
            assert forall|x: u64| p2.dom().contains(x) implies p2[#[trigger] rep2[x]] == rep2[x]
                && rk2[x] <= rk2[rep2[x]] by {
                assert(p[rep[x]] == rep[x] && rk[x] <= rk[rep[x]]);
            }
            assert(group(rep2, keep) =~= group(rep, keep) + group(rep, gone));
            assert(group(rep, keep).disjoint(group(rep, gone)));
            vstd::seq_lib::seq_to_set_is_finite(self.order@);
            vstd::set_lib::lemma_set_disjoint_lens(group(rep, keep), group(rep, gone));
            assert forall|r: u64|
                #![trigger s2[r]]
                rep2.dom().contains(r) && rep2[r] == r implies s2[r] == group_size(rep2, r) by {
                if r != keep {
                    assert(group(rep2, r) =~= group(rep, r));
                    assert(s[r] == group_size(rep, r));
                }
            }
        }
    }

    /// Merges the groups of `x` and `y`, adding either one first if it is
    /// unseen. The root of the smaller group is hung under the root of the
    /// larger one; on a tie `y`'s root goes under `x`'s.
    pub fn union(&mut self, x: u64, y: u64)
        requires
            old(self).wf(),
        ensures
            final(self).wf(),
            final(self).rep() == merged(old(self).rep(), x, y),
            final(self).entries_view() == merged_entries(
                old(self).entries_view(),
                old(self).rep(),
                x,
                y,
            ),
            final(self).parent_map() == merged_parents(
                old(self).parent_map(),
                old(self).rep(),
                x,
                y,
            ),
    {
        let rx = self.find(x);
        let ry = self.find(y);
        if rx != ry {
            let sx = self.size_of(rx);
            let sy = self.size_of(ry);
            proof {
                let rep = self.roots@;
                assert(group(rep, rx).disjoint(group(rep, ry)));
                assert(group(rep, rx) + group(rep, ry) <= rep.dom());
                vstd::seq_lib::seq_to_set_is_finite(self.order@);
                vstd::set_lib::lemma_set_disjoint_lens(group(rep, rx), group(rep, ry));
                vstd::set_lib::lemma_len_subset(group(rep, rx) + group(rep, ry), rep.dom());
                self.order@.unique_seq_to_set();
            }
            let n = self.order.len();
            assert(sx + sy <= n);
            let total: usize = sx + sy;
            if sx < sy {
                self.link(ry, rx, total);
            } else {
                self.link(rx, ry, total);
            }
        }
    }

    /// The number of known elements (not the number of groups).
    pub fn size(&self) -> (n: usize)
        requires
            self.wf(),
        ensures
            n == self.entries_view().len(),
    {
        self.order.len()
    }

    /// Every known element once, in the order it was first seen.
    pub fn entries(&mut self) -> (r: Vec<u64>)
        requires
            old(self).wf(),
        ensures
            *final(self) == *old(self),
            r@ == old(self).entries_view(),
    {
        self.order.clone()
    }

    /// A copy of the stored parent pointers. A parent is always in the same
    /// group as its child, and only a group's representative is its own parent.
    pub fn parents(&self) -> (r: HashMap<u64, u64>)
        requires
            self.wf(),
        ensures
            r@ == self.parent_map(),
            r@.dom() == self.rep().dom(),
            forall|x: u64| r@.dom().contains(x) ==> r@.dom().contains(#[trigger] r@[x]) && self.rep()[r@[x]]
                    == self.rep()[x] && (r@[x] == x <==> self.rep()[x] == x),
            forall|x: u64| #[trigger] r@.dom().contains(x) ==> root_of(r@, x, self.rep()[x]),
    {
        proof {
            assert forall|x: u64| #[trigger] self.parents@.dom().contains(x) implies (self.parents@[x]
                == x <==> self.roots@[x] == x) by {
                assert(self.parents@[self.roots@[x]] == self.roots@[x]);
            }
            self.lemma_parents_reach_roots();
        }
        self.parents.clone()
    }

    /// The groups of two or more elements, each once, in no promised order.
    /// Representatives are looked up with `find`, so parent pointers may be
    /// compressed along the way; the groups themselves do not change.
    pub fn subsets(&mut self) -> (r: Vec<HashSet<u64>>)
        requires
            old(self).wf(),
        ensures
            final(self).wf(),
            final(self).rep() == old(self).rep(),
            final(self).entries_view() == old(self).entries_view(),
            r@.map_values(|h: HashSet<u64>| h@).to_set() == nontrivial_groups(old(self).rep()),
            r@.map_values(|h: HashSet<u64>| h@).no_duplicates(),
    {
        let ghost rep = self.roots@;
        let ghost order = self.order@;
        let n = self.order.len();
        let mut out: Vec<HashSet<u64>> = Vec::new();
        let mut slot: HashMap<u64, usize> = HashMap::new();
        let ghost mut owners: Seq<u64> = Seq::empty();
        let mut i: usize = 0;
        while i < n
            invariant
                self.wf(),
                self.roots@ == rep,
                self.order@ == order,
                n == order.len(),
                i <= n,
                owners.len() == out@.len(),
                forall|k: int|
                    0 <= k < owners.len() ==> {
                        &&& rep.dom().contains(#[trigger] owners[k])
                        &&& rep[owners[k]] == owners[k]
                        &&& group_size(rep, owners[k]) >= 2
                        &&& slot@.contains_key(owners[k])
                        &&& slot@[owners[k]] == k
                        &&& out@[k]@ == prefix_group(rep, order, i as int, owners[k])
                    },
                forall|q: u64| #[trigger]
                    slot@.contains_key(q) ==> slot@[q] < owners.len() && owners[slot@[q] as int]
                        == q,
                forall|j: int|
                    0 <= j < i && group_size(rep, rep[#[trigger] order[j]]) >= 2
                        ==> slot@.contains_key(rep[order[j]]),
            decreases n - i,
        {
            let x = self.order[i];
            proof {
                assert(order.to_set().contains(x));
                assert(order.take(i + 1) == order.take(i as int).push(x));
                order.take(i as int).lemma_push_to_set_commute(x);
            }
            let root = self.find(x);
            let count = self.size_of(root);
            if count >= 2 {
                match slot.get(&root) {
                    Some(k) => {
                        let k = *k;
                        out[k].insert(x);
                        proof {
                            assert forall|k2: int| 0 <= k2 < owners.len() implies out@[k2]@
                                == prefix_group(rep, order, i + 1, #[trigger] owners[k2]) by {
                                assert(prefix_group(rep, order, i + 1, owners[k2])
                                    =~= if k2 == k {
                                    prefix_group(rep, order, i as int, owners[k2]).insert(x)
                                } else {
                                    prefix_group(rep, order, i as int, owners[k2])
                                });
                            }
                        }
                    },
                    None => {
                        let mut fresh: HashSet<u64> = HashSet::new();
                        fresh.insert(x);
                        proof {
                            assert forall|z: u64|
                                #[trigger] prefix_group(rep, order, i as int, root).contains(
                                    z,
                                ) implies false by {
                                let j = order.take(i as int).index_of(z);
                                assert(order[j] == z);
                            }
                            assert(prefix_group(rep, order, i + 1, root) =~= set![x]);
                            assert forall|k2: int| 0 <= k2 < owners.len() implies prefix_group(
                                rep,
                                order,
                                i + 1,
                                #[trigger] owners[k2],
                            ) == prefix_group(rep, order, i as int, owners[k2]) by {
                                assert(prefix_group(rep, order, i + 1, owners[k2])
                                    =~= prefix_group(rep, order, i as int, owners[k2]));
                            }
                        }
                        slot.insert(root, out.len());
                        out.push(fresh);
                        proof {
                            owners = owners.push(root);
                        }
                    },
                }
            } else {
                proof {
                    assert forall|k2: int| 0 <= k2 < owners.len() implies prefix_group(
                        rep,
                        order,
                        i + 1,
                        #[trigger] owners[k2],
                    ) == prefix_group(rep, order, i as int, owners[k2]) by {
                        assert(prefix_group(rep, order, i + 1, owners[k2]) =~= prefix_group(
                            rep,
                            order,
                            i as int,
                            owners[k2],
                        ));
                    }
                }
            }
            i = i + 1;
        }
        proof {
            let gs = out@.map_values(|h: HashSet<u64>| h@);
            assert(order.take(n as int) == order);
            assert forall|k: int| 0 <= k < owners.len() implies gs[k] == group(
                rep,
                #[trigger] owners[k],
            ) by {
                assert(prefix_group(rep, order, n as int, owners[k]) =~= group(rep, owners[k]));
            }
            assert forall|g: Set<u64>| #[trigger] gs.to_set().contains(g) implies nontrivial_groups(
                rep,
            ).contains(g) by {
                let k = gs.index_of(g);
                assert(gs[k] == group(rep, owners[k]));
            }
            assert forall|g: Set<u64>| #[trigger] nontrivial_groups(rep).contains(g) implies gs.to_set().contains(g) by {
                let q = choose|q: u64|
                    #![trigger group(rep, q)]
                    rep.dom().contains(q) && rep[q] == q && group_size(rep, q) >= 2 && g == group(rep, q);
                let j = order.index_of(q);
                assert(order[j] == q);
                let k = slot@[q] as int;
                assert(gs[k] == group(rep, owners[k]));
            }
            assert(gs.to_set() =~= nontrivial_groups(rep));
            assert forall|k1: int, k2: int| 0 <= k1 < gs.len() && 0 <= k2 < gs.len() && k1 != k2 implies #[trigger] gs[k1] != #[trigger] gs[k2] by {
                assert(gs[k1] == group(rep, owners[k1]));
                assert(gs[k2] == group(rep, owners[k2]));
                assert(group(rep, owners[k1]).contains(owners[k1]));
            }
        }
        out
    }

    /// Parent links from a known element reach its representative, each link
    /// raising the rank; the result is the number of links.
    proof fn lemma_reach(&self, x: u64) -> (k: nat)
        requires
            self.wf(),
            self.rep().dom().contains(x),
        ensures
            ancestor(self.parents@, x, k) == self.roots@[x],
            forall|t: nat|
                t <= k ==> self.parents@.dom().contains(#[trigger] ancestor(self.parents@, x, t)),
            forall|t: nat|
                t < k ==> #[trigger] self.rank@[ancestor(self.parents@, x, t)] < self.rank@[ancestor(
                    self.parents@,
                    x,
                    t + 1,
                )],
        decreases self.rank@[self.roots@[x]] - self.rank@[x],
    {
        let p = self.parents@;
        let rk = self.rank@;
        assert(p.dom().contains(p[x]));
        assert(ancestor(p, x, 0) == x);
        if p[x] == x {
            0
        } else {
            let y = p[x];
            assert(self.roots@[y] == self.roots@[x]);
            assert(rk[y] <= rk[self.roots@[y]]);
            let k1 = self.lemma_reach(y);
            lemma_ancestor_shift(p, x, k1);
            assert forall|t: nat| t <= k1 + 1 implies p.dom().contains(
                #[trigger] ancestor(p, x, t),
            ) by {
                if t > 0 {
                    lemma_ancestor_shift(p, x, (t - 1) as nat);
                }
            }
            assert forall|t: nat| t < k1 + 1 implies #[trigger] rk[ancestor(p, x, t)] < rk[ancestor(
                p,
                x,
                t + 1,
            )] by {
                lemma_ancestor_shift(p, x, t);
                if t > 0 {
                    lemma_ancestor_shift(p, x, (t - 1) as nat);
                    assert(rk[ancestor(p, y, (t - 1) as nat)] < rk[ancestor(p, y, t)]);
                }
            }
            k1 + 1
        }
    }

    /// Parent links from every known element reach its representative, in
    /// fewer links than there are elements; so the stored parents, with the
    /// entries, are a valid persisted form.
    pub proof fn lemma_parents_reach_roots(&self)
        requires
            self.wf(),
        ensures
            forall|x: u64| #[trigger]
                self.rep().dom().contains(x) ==> root_of(self.parent_map(), x, self.rep()[x]),
            valid_parts(self.entries_view(), self.parent_map()),
    {
        let p = self.parents@;
        let n = self.order@.len();
        self.order@.unique_seq_to_set();
        vstd::seq_lib::seq_to_set_is_finite(self.order@);
        assert forall|x: u64| #[trigger] p.dom().contains(x) implies root_of(p, x, self.roots@[x])
            && exists|k: nat| k <= n && #[trigger] p[ancestor(p, x, k)] == ancestor(p, x, k) by {
            let k = self.lemma_reach(x);
            lemma_walk_bounded(p, self.rank@, p.dom(), x, k);
            assert(p[self.roots@[x]] == self.roots@[x]);
        }
    }

    /// Two well-formed stores with the same stored parents resolve every
    /// element alike. With `lemma_parents_reach_roots` and the contract of
    /// `from_parts`, a store rebuilt from its own `entries` and `parents` has
    /// the same entries, parents and representatives.
    pub proof fn lemma_same_parents_same_groups(a: &UnionFind, b: &UnionFind)
        requires
            a.wf(),
            b.wf(),
            a.parent_map() == b.parent_map(),
        ensures
            a.rep() == b.rep(),
    {
        a.lemma_parents_reach_roots();
        b.lemma_parents_reach_roots();
        assert forall|x: u64| #[trigger] a.rep().dom().contains(x) implies a.rep()[x] == b.rep()[x] by {
            lemma_root_unique(a.parent_map(), x, a.rep()[x], b.rep()[x]);
        }
        assert(a.rep() =~= b.rep());
    }

    /// The abstract state of a well-formed store is consistent.
    pub proof fn lemma_valid(&self)
        requires
            self.wf(),
        ensures
            valid_model(self.entries_view(), self.rep()),
            self.parent_map().dom() == self.rep().dom(),
    {
    }

    /// A readable rendering: one line `x -> p` per known element, in the
    /// order first seen, with the parent pointer currently stored for it.
    pub fn str(&self) -> (r: String)
        requires
            self.wf(),
        ensures
            r@ == forest_text(self.entries_view(), self.parent_map()),
    {
        let mut out = String::new();
        let n = self.order.len();
        let mut i: usize = 0;
        while i < n
            invariant
                self.wf(),
                n == self.order@.len(),
                i <= n,
                out@ == forest_text(self.order@.take(i as int), self.parents@),
            decreases n - i,
        {
            let x = self.order[i];
            proof {
                assert(self.order@.to_set().contains(x));
            }
            let p = self.parent_of(x);
            push_link(&mut out, x, p);
            proof {
                let t = self.order@.take(i + 1);
                assert(t.drop_last() =~= self.order@.take(i as int));
                assert(t.last() == x);
            }
            i = i + 1;
        }
        proof {
            assert(self.order@.take(n as int) =~= self.order@);
        }
        out
    }

    /// A store whose representatives are the first roots that its parent
    /// links reach, ranked by how many links a root lies above each element,
    /// with matching sizes, is well formed.
    proof fn lemma_restored_wf(uf: &UnionFind, depth: Map<u64, usize>)
        requires
            valid_model(uf.order@, uf.roots@),
            uf.parents@.dom() == uf.roots@.dom(),
            forall|y: u64|
                uf.parents@.dom().contains(y) ==> uf.parents@.dom().contains(
                    #[trigger] uf.parents@[y],
                ),
            depth.dom() == uf.roots@.dom(),
            forall|y: u64| #[trigger]
                uf.roots@.dom().contains(y) ==> {
                    &&& uf.parents@[uf.roots@[y]] == uf.roots@[y]
                    &&& depth[y] <= uf.order@.len()
                    &&& ancestor(uf.parents@, y, depth[y] as nat) == uf.roots@[y]
                    &&& forall|j: nat|
                        j < depth[y] ==> #[trigger] uf.parents@[ancestor(uf.parents@, y, j)]
                            != ancestor(uf.parents@, y, j)
                },
            uf.sizes@.dom() == uf.roots@.dom(),
            forall|q: u64| #[trigger]
                uf.sizes@.contains_key(q) ==> uf.sizes@[q] == group_size(uf.roots@, q),
            uf.rank@ == Map::new(
                |y: u64| uf.roots@.dom().contains(y),
                |y: u64| (uf.order@.len() - depth[y]) as nat,
            ),
        ensures
            uf.wf(),
    {
        let rep = uf.roots@;
        let p = uf.parents@;
        let rk = uf.rank@;
        let n = uf.order@.len();
        assert(rk.dom() =~= rep.dom());
        assert forall|x: u64| #[trigger] rep.dom().contains(x) && p[x] == x implies depth[x] == 0
            && rep[x] == x by {
            assert(ancestor(p, x, 0) == x);
        }
        assert forall|x: u64| p.dom().contains(x) implies {
            &&& p.dom().contains(#[trigger] p[x])
            &&& rep[p[x]] == rep[x]
            &&& p[x] != x ==> rk[x] < rk[p[x]]
            &&& p[x] == x ==> rep[x] == x
        } by {
            assert(rep.dom().contains(x));
            if p[x] != x {
                let y = p[x];
                let d = depth[x];
                assert(ancestor(p, x, 0) == x);
                assert(d > 0);
                assert(rep.dom().contains(y));
                let d2 = depth[y];
                assert forall|t: nat| true implies #[trigger] ancestor(p, y, t) == ancestor(p, x, t + 1) by {
                    lemma_ancestor_shift(p, x, t);
                }
                if d2 < d - 1 {
                    assert(ancestor(p, y, d2 as nat) == ancestor(p, x, (d2 + 1) as nat));
                    assert(p[ancestor(p, x, (d2 + 1) as nat)] != ancestor(p, x, (d2 + 1) as nat));
                } else if d2 > d - 1 {
                    assert(ancestor(p, y, (d - 1) as nat) == ancestor(p, x, d as nat));
                    assert(p[ancestor(p, y, (d - 1) as nat)] != ancestor(p, y, (d - 1) as nat));
                }
                assert(ancestor(p, y, d2 as nat) == ancestor(p, x, (d2 + 1) as nat));
            }
        }
        assert forall|x: u64| p.dom().contains(x) implies p[#[trigger] rep[x]] == rep[x]
            && rk[x] <= rk[rep[x]] by {
            assert(rep.dom().contains(x));
            assert(rep.dom().contains(rep[x]));
            assert(rep.dom().contains(rep[x]) && p[rep[x]] == rep[x]);
        }
        assert forall|q: u64|
            #![trigger uf.sizes@[q]]
            rep.dom().contains(q) && rep[q] == q implies uf.sizes@[q] == group_size(rep, q) by {
            assert(uf.sizes@.contains_key(q));
        }
    }

    /// Rebuilds a store from its persisted form: the entries in first-seen
    /// order and a parent for each. Gives `None` unless the two fit together
    /// as `valid_parts` says. The rebuilt store lists the same entries in the
    /// same order, and resolves each one to the root that its parent links
    /// reach; its parent pointers are the given ones.
    pub fn from_parts(order: Vec<u64>, parents: HashMap<u64, u64>) -> (r: Option<Self>)
        ensures
            r.is_some() == valid_parts(order@, parents@),
            r matches Some(uf) ==> {
                &&& uf.wf()
                &&& uf.entries_view() == order@
                &&& uf.parent_map() == parents@
                &&& uf.rep().dom() == parents@.dom()
                &&& forall|x: u64| #[trigger]
                    uf.rep().dom().contains(x) ==> root_of(parents@, x, uf.rep()[x])
            },
    {
        if !parents_close(&order, &parents) {
            return None;
        }
        let n = order.len();
        let (flat, depth) = match find_roots(&order, &parents) {
            Some(found) => found,
            None => {
                proof {
                    let y = choose|y: u64|
                        #[trigger] parents@.dom().contains(y) && forall|k: nat|
                            k <= order@.len() ==> #[trigger] parents@[ancestor(parents@, y, k)]
                                != ancestor(parents@, y, k);
                    assert(!valid_parts(order@, parents@));
                }
                return None;
            },
        };
        let ghost rep = flat@;
        proof {
            lemma_roots_valid(order@, parents@, rep);
        }
        let sizes = count_groups(&order, &flat);
        let ghost rank = Map::new(
            |y: u64| rep.dom().contains(y),
            |y: u64| (n - depth@[y]) as nat,
        );
        let uf = UnionFind { parents, sizes, order, roots: Ghost(rep), rank: Ghost(rank) };
        proof {
            Self::lemma_restored_wf(&uf, depth@);
        }
        Some(uf)
    }
}

} // verus!
