//! The abstract state of a disjoint-set store: the elements in the order they
//! were first seen, and the representative that each element resolves to.
use vstd::prelude::*;

verus! {

/// The elements that `rep` resolves to the representative `r`.
pub open spec fn group(rep: Map<u64, u64>, r: u64) -> Set<u64> {
    rep.dom().filter(|z: u64| rep[z] == r)
}

/// The number of elements in the group of the representative `r`.
pub open spec fn group_size(rep: Map<u64, u64>, r: u64) -> nat {
    group(rep, r).len()
}

/// A consistent abstract state: every element is listed once, the listed
/// elements are exactly those with a representative, and each representative
/// is itself an element that resolves to itself.
pub open spec fn valid_model(entries: Seq<u64>, rep: Map<u64, u64>) -> bool {
    &&& entries.no_duplicates()
    &&& rep.dom() == entries.to_set()
    &&& forall|x: u64|
        rep.dom().contains(x) ==> rep.dom().contains(#[trigger] rep[x]) && rep[rep[x]] == rep[x]
}

/// Representatives once `x` is known: an unseen element becomes its own group.
pub open spec fn added(rep: Map<u64, u64>, x: u64) -> Map<u64, u64> {
    if rep.dom().contains(x) {
        rep
    } else {
        rep.insert(x, x)
    }
}

/// Entries once `x` is known: an unseen element is appended.
pub open spec fn appended(entries: Seq<u64>, rep: Map<u64, u64>, x: u64) -> Seq<u64> {
    if rep.dom().contains(x) {
        entries
    } else {
        entries.push(x)
    }
}

/// The representative that survives when the groups of the representatives
/// `rx` and `ry` merge: the one of the larger group, `rx` on a tie.
pub open spec fn survivor(rep: Map<u64, u64>, rx: u64, ry: u64) -> u64 {
    if group_size(rep, rx) < group_size(rep, ry) {
        ry
    } else {
        rx
    }
}

/// Representatives after the groups of `x` and `y` are merged.
pub open spec fn merged(rep: Map<u64, u64>, x: u64, y: u64) -> Map<u64, u64> {
    let m = added(added(rep, x), y);
    let rx = m[x];
    let ry = m[y];
    if rx == ry {
        m
    } else {
        let keep = survivor(m, rx, ry);
        let gone = if keep == rx {
            ry
        } else {
            rx
        };
        m.map_values(|v: u64| if v == gone { keep } else { v })
    }
}

/// Parents after a merge of `x` and `y`: the walks from `x` and then from `y`
/// are compressed, and if the two roots differ, the root that does not
/// survive gets the survivor as its parent.
pub open spec fn merged_parents(p: Map<u64, u64>, rep: Map<u64, u64>, x: u64, y: u64) -> Map<
    u64,
    u64,
> {
    let m1 = added(rep, x);
    let rx = m1[x];
    let p1 = compressed(with_parent(p, x), x, rx);
    let m = added(m1, y);
    let ry = m[y];
    let p2 = compressed(with_parent(p1, y), y, ry);
    if rx == ry {
        p2
    } else {
        let keep = survivor(m, rx, ry);
        let gone = if keep == rx {
            ry
        } else {
            rx
        };
        p2.insert(gone, keep)
    }
}

/// Entries after a merge of `x` and `y`: each unseen one appended, `x` first.
pub open spec fn merged_entries(entries: Seq<u64>, rep: Map<u64, u64>, x: u64, y: u64) -> Seq<
    u64,
> {
    appended(appended(entries, rep, x), added(rep, x), y)
}

/// Both elements are known and share a representative.
pub open spec fn same_group(rep: Map<u64, u64>, a: u64, b: u64) -> bool {
    rep.dom().contains(a) && rep.dom().contains(b) && rep[a] == rep[b]
}

/// The groups of two or more elements.
pub open spec fn nontrivial_groups(rep: Map<u64, u64>) -> Set<Set<u64>> {
    Set::new(
        |g: Set<u64>|
            exists|r: u64|
                #![trigger group(rep, r)]
                rep.dom().contains(r) && rep[r] == r && group_size(rep, r) >= 2 && g == group(
                    rep,
                    r,
                ),
    )
}

/// The element reached from `x` by following `k` parent links of `p`.
pub open spec fn ancestor(p: Map<u64, u64>, x: u64, k: nat) -> u64
    decreases k,
{
    if k == 0 {
        x
    } else {
        p[ancestor(p, x, (k - 1) as nat)]
    }
}

/// `r` is its own parent in `p` and is reached from `x` by parent links.
pub open spec fn root_of(p: Map<u64, u64>, x: u64, r: u64) -> bool {
    p[r] == r && exists|k: nat| #[trigger] ancestor(p, x, k) == r
}

/// A persisted store that can be restored: the entries are listed once each
/// and are exactly the elements with a parent, every parent is an entry, and
/// from each entry at most as many links as there are entries reach a root.
pub open spec fn valid_parts(entries: Seq<u64>, p: Map<u64, u64>) -> bool {
    &&& entries.no_duplicates()
    &&& p.dom() == entries.to_set()
    &&& forall|x: u64| p.dom().contains(x) ==> p.dom().contains(#[trigger] p[x])
    &&& forall|x: u64|
        #[trigger] p.dom().contains(x) ==> exists|k: nat|
            k <= entries.len() && #[trigger] p[ancestor(p, x, k)] == ancestor(p, x, k)
}

/// `y` lies on the walk of parent links of `p` from `x`.
pub open spec fn on_walk(p: Map<u64, u64>, x: u64, y: u64) -> bool {
    exists|j: nat| #[trigger] ancestor(p, x, j) == y
}

/// Parents once `x` is known: an unseen element is its own parent.
pub open spec fn with_parent(p: Map<u64, u64>, x: u64) -> Map<u64, u64> {
    if p.dom().contains(x) {
        p
    } else {
        p.insert(x, x)
    }
}

/// Parents after full path compression from `x`: every element on the walk
/// from `x` points at `r`, every other parent is unchanged.
pub open spec fn compressed(p: Map<u64, u64>, x: u64, r: u64) -> Map<u64, u64> {
    Map::new(|y: u64| p.dom().contains(y), |y: u64| if on_walk(p, x, y) { r } else { p[y] })
}

/// Ranks never fall along parent links, so none falls along a walk.
pub proof fn lemma_walk_rank(p: Map<u64, u64>, rk: Map<u64, nat>, z: u64, j: nat)
    requires
        p.dom().contains(z),
        forall|w: u64|
            p.dom().contains(w) ==> p.dom().contains(#[trigger] p[w]) && rk[w] <= rk[p[w]],
    ensures
        p.dom().contains(ancestor(p, z, j)),
        rk[z] <= rk[ancestor(p, z, j)],
    decreases j,
{
    if j > 0 {
        lemma_walk_rank(p, rk, z, (j - 1) as nat);
        let w = ancestor(p, z, (j - 1) as nat);
        assert(p.dom().contains(p[w]) && rk[w] <= rk[p[w]]);
    }
}

/// Following `k + 1` links from `x` is following `k` links from its parent.
pub proof fn lemma_ancestor_shift(p: Map<u64, u64>, x: u64, k: nat)
    ensures
        ancestor(p, x, k + 1) == ancestor(p, p[x], k),
    decreases k,
{
    assert(ancestor(p, x, k + 1) == p[ancestor(p, x, k)]);
    if k > 0 {
        lemma_ancestor_shift(p, x, (k - 1) as nat);
        assert(ancestor(p, p[x], k) == p[ancestor(p, p[x], (k - 1) as nat)]);
    } else {
        assert(ancestor(p, x, 0) == x);
    }
}

/// Along a walk whose ranks rise at every link, the rank at step `i` is below
/// the rank at any later step `j`.
pub proof fn lemma_rank_rises(p: Map<u64, u64>, rk: Map<u64, nat>, x: u64, k: nat, i: nat, j: nat)
    requires
        forall|t: nat| t < k ==> #[trigger] rk[ancestor(p, x, t)] < rk[ancestor(p, x, t + 1)],
        i < j <= k,
    ensures
        rk[ancestor(p, x, i)] < rk[ancestor(p, x, j)],
    decreases j - i,
{
    if i + 1 < j {
        lemma_rank_rises(p, rk, x, k, i + 1, j);
        assert(rk[ancestor(p, x, i)] < rk[ancestor(p, x, i + 1)]);
    } else {
        assert(rk[ancestor(p, x, i)] < rk[ancestor(p, x, i + 1)]);
    }
}

/// A walk of `k` links inside `dom` whose ranks rise at every link visits
/// `k + 1` distinct elements, so `k` is below the size of `dom`.
pub proof fn lemma_walk_bounded(
    p: Map<u64, u64>,
    rk: Map<u64, nat>,
    dom: Set<u64>,
    x: u64,
    k: nat,
)
    requires
        dom.finite(),
        forall|t: nat| t <= k ==> dom.contains(#[trigger] ancestor(p, x, t)),
        forall|t: nat| t < k ==> #[trigger] rk[ancestor(p, x, t)] < rk[ancestor(p, x, t + 1)],
    ensures
        k < dom.len(),
{
    let walk = Seq::new(k + 1, |t: int| ancestor(p, x, t as nat));
    assert forall|a: int, b: int| 0 <= a < b < walk.len() implies #[trigger] walk[a] != #[trigger] walk[b] by {
        lemma_rank_rises(p, rk, x, k, a as nat, b as nat);
    }
    walk.unique_seq_to_set();
    assert forall|v: u64| #[trigger] walk.to_set().contains(v) implies dom.contains(v) by {
        let t = walk.index_of(v);
        assert(walk[t] == ancestor(p, x, t as nat));
    }
    vstd::set_lib::lemma_len_subset(walk.to_set(), dom);
}

/// Following `a + b` links is following `a` links and then `b` more.
pub proof fn lemma_ancestor_add(p: Map<u64, u64>, x: u64, a: nat, b: nat)
    ensures
        ancestor(p, x, a + b) == ancestor(p, ancestor(p, x, a), b),
    decreases b,
{
    if b > 0 {
        lemma_ancestor_add(p, x, a, (b - 1) as nat);
        assert(ancestor(p, x, a + b) == p[ancestor(p, x, (a + b - 1) as nat)]);
    }
}

/// An element reaches at most one root.
pub proof fn lemma_root_unique(p: Map<u64, u64>, x: u64, r1: u64, r2: u64)
    requires
        root_of(p, x, r1),
        root_of(p, x, r2),
    ensures
        r1 == r2,
{
    let k1 = choose|k: nat| #[trigger] ancestor(p, x, k) == r1;
    let k2 = choose|k: nat| #[trigger] ancestor(p, x, k) == r2;
    if k1 <= k2 {
        lemma_ancestor_add(p, x, k1, (k2 - k1) as nat);
        lemma_root_fixed(p, r1, (k2 - k1) as nat);
    } else {
        lemma_ancestor_add(p, x, k2, (k1 - k2) as nat);
        lemma_root_fixed(p, r2, (k1 - k2) as nat);
    }
}

/// A root reaches only itself.
pub proof fn lemma_root_fixed(p: Map<u64, u64>, r: u64, k: nat)
    requires
        p[r] == r,
    ensures
        ancestor(p, r, k) == r,
    decreases k,
{
    if k > 0 {
        lemma_root_fixed(p, r, (k - 1) as nat);
    }
}

/// Making an element known keeps the abstract state consistent.
pub proof fn lemma_added_valid(entries: Seq<u64>, rep: Map<u64, u64>, x: u64)
    requires
        valid_model(entries, rep),
    ensures
        valid_model(appended(entries, rep, x), added(rep, x)),
{
    if !rep.dom().contains(x) {
        entries.lemma_push_to_set_commute(x);
        assert(added(rep, x).dom() =~= appended(entries, rep, x).to_set());
    }
}

/// Looking up the same element twice: the second lookup adds nothing and
/// returns the representative that the first one returned.
pub proof fn lemma_find_idempotent(entries: Seq<u64>, rep: Map<u64, u64>, x: u64)
    requires
        valid_model(entries, rep),
    ensures
        added(added(rep, x), x) == added(rep, x),
        appended(appended(entries, rep, x), added(rep, x), x) == appended(entries, rep, x),
        added(added(rep, x), x)[x] == added(rep, x)[x],
{
}

/// Looking up an unseen element adds exactly that element, as its own
/// representative.
pub proof fn lemma_find_unseen(entries: Seq<u64>, rep: Map<u64, u64>, z: u64)
    requires
        valid_model(entries, rep),
        !rep.dom().contains(z),
    ensures
        appended(entries, rep, z).len() == entries.len() + 1,
        added(rep, z)[z] == z,
        added(rep, z).dom() == rep.dom().insert(z),
{
}

/// Merging an element with itself changes no group; it only makes the
/// element known.
pub proof fn lemma_union_self(entries: Seq<u64>, rep: Map<u64, u64>, x: u64)
    requires
        valid_model(entries, rep),
    ensures
        merged(rep, x, x) == added(rep, x),
        merged_entries(entries, rep, x, x) == appended(entries, rep, x),
{
}

/// After a merge of `x` and `y`, both are known and share a representative.
pub proof fn lemma_union_joins(rep: Map<u64, u64>, x: u64, y: u64)
    ensures
        same_group(merged(rep, x, y), x, y),
{
    let m = added(added(rep, x), y);
    if m[x] != m[y] {
        let keep = survivor(m, m[x], m[y]);
        assert(merged(rep, x, y)[x] == keep);
        assert(merged(rep, x, y)[y] == keep);
    }
}

/// Merging `x` and `y` a second time changes nothing.
pub proof fn lemma_union_twice(entries: Seq<u64>, rep: Map<u64, u64>, x: u64, y: u64)
    requires
        valid_model(entries, rep),
    ensures
        merged(merged(rep, x, y), x, y) == merged(rep, x, y),
        merged_entries(merged_entries(entries, rep, x, y), merged(rep, x, y), x, y)
            == merged_entries(entries, rep, x, y),
{
    lemma_union_joins(rep, x, y);
    let r1 = merged(rep, x, y);
    assert(added(added(r1, x), y) == r1);
}

/// Merging `x` with `y` and merging `y` with `x` both join the two, and they
/// leave the same elements grouped together (the surviving representative
/// may differ on a tie).
pub proof fn lemma_union_symmetric(entries: Seq<u64>, rep: Map<u64, u64>, x: u64, y: u64)
    requires
        valid_model(entries, rep),
    ensures
        same_group(merged(rep, x, y), x, y),
        same_group(merged(rep, y, x), x, y),
        merged(rep, x, y).dom() == merged(rep, y, x).dom(),
        forall|a: u64, b: u64|
            #[trigger] same_group(merged(rep, x, y), a, b) <==> #[trigger] same_group(
                merged(rep, y, x),
                a,
                b,
            ),
{
    lemma_union_joins(rep, x, y);
    lemma_union_joins(rep, y, x);
    let m = added(added(rep, x), y);
    assert(added(added(rep, y), x) =~= m);
    let r1 = merged(rep, x, y);
    let r2 = merged(rep, y, x);
    if m[x] != m[y] {
        assert forall|a: u64, b: u64| #[trigger] same_group(r1, a, b) <==> #[trigger] same_group(
            r2,
            a,
            b,
        ) by {
            if m.dom().contains(a) && m.dom().contains(b) {
                assert(r1[a] == r1[b] <==> (m[a] == m[b] || ((m[a] == m[x] || m[a] == m[y]) && (
                m[b] == m[x] || m[b] == m[y]))));
                assert(r2[a] == r2[b] <==> (m[a] == m[b] || ((m[a] == m[x] || m[a] == m[y]) && (
                m[b] == m[x] || m[b] == m[y]))));
            }
        }
    }
}

/// Groups only grow: elements grouped together before a merge are still
/// grouped together after it, and every group of two or more elements lies
/// within such a group afterwards.
pub proof fn lemma_union_monotone(entries: Seq<u64>, rep: Map<u64, u64>, x: u64, y: u64)
    requires
        valid_model(entries, rep),
    ensures
        rep.dom() <= merged(rep, x, y).dom(),
        forall|a: u64, b: u64|
            #[trigger] same_group(rep, a, b) ==> #[trigger] same_group(merged(rep, x, y), a, b),
        forall|g: Set<u64>| #[trigger]
            nontrivial_groups(rep).contains(g) ==> exists|h: Set<u64>|
                #[trigger] nontrivial_groups(merged(rep, x, y)).contains(h) && g <= h,
{
    let m = added(added(rep, x), y);
    let r1 = merged(rep, x, y);
    lemma_added_valid(entries, rep, x);
    lemma_added_valid(appended(entries, rep, x), added(rep, x), y);
    assert forall|a: u64, b: u64| #[trigger] same_group(rep, a, b) implies #[trigger] same_group(
        r1,
        a,
        b,
    ) by {
        assert(m[a] == rep[a] && m[b] == rep[b]);
    }
    assert forall|g: Set<u64>| #[trigger] nontrivial_groups(rep).contains(g) implies exists|
        h: Set<u64>,
    | #[trigger] nontrivial_groups(r1).contains(h) && g <= h by {
        let q = choose|q: u64|
            #![trigger group(rep, q)]
            rep.dom().contains(q) && rep[q] == q && group_size(rep, q) >= 2 && g == group(rep, q);
        let t = r1[q];
        assert(m[q] == q);
        assert(r1.dom().contains(t) && r1[t] == t);
        assert(g <= group(r1, t));
        vstd::seq_lib::seq_to_set_is_finite(merged_entries(entries, rep, x, y));
        assert(r1.dom() == m.dom());
        assert(m.dom() == merged_entries(entries, rep, x, y).to_set());
        vstd::set_lib::lemma_len_subset(g, group(r1, t));
        assert(nontrivial_groups(r1).contains(group(r1, t)));
    }
}

/// The groups of two or more elements hold known elements only and do not
/// overlap; every known element lies in one of them or is alone in its group.
pub proof fn lemma_groups_partition(entries: Seq<u64>, rep: Map<u64, u64>)
    requires
        valid_model(entries, rep),
    ensures
        forall|g: Set<u64>| #[trigger] nontrivial_groups(rep).contains(g) ==> g <= entries.to_set(),
        forall|g1: Set<u64>, g2: Set<u64>|
            #[trigger] nontrivial_groups(rep).contains(g1) && #[trigger] nontrivial_groups(
                rep,
            ).contains(g2) ==> g1 == g2 || g1.disjoint(g2),
        forall|x: u64|
            #[trigger] entries.to_set().contains(x) ==> (exists|g: Set<u64>|
                #[trigger] nontrivial_groups(rep).contains(g) && g.contains(x)) || group(rep, rep[x])
                == set![x],
        forall|x: u64, g: Set<u64>|
            #[trigger] nontrivial_groups(rep).contains(g) && #[trigger] g.contains(x) ==> group(
                rep,
                rep[x],
            ) == g && g != set![x],
{
    vstd::seq_lib::seq_to_set_is_finite(entries);
    assert forall|x: u64, g: Set<u64>| #[trigger]
        nontrivial_groups(rep).contains(g) && #[trigger] g.contains(x) implies group(rep, rep[x])
        == g && g != set![x] by {
        let q = choose|q: u64|
            #![trigger group(rep, q)]
            rep.dom().contains(q) && rep[q] == q && group_size(rep, q) >= 2 && g == group(rep, q);
        assert(rep[x] == q);
        if g == set![x] {
            assert(set![x].len() == 1);
        }
    }
    assert forall|x: u64| #[trigger] entries.to_set().contains(x) implies (exists|g: Set<u64>|
        #[trigger] nontrivial_groups(rep).contains(g) && g.contains(x)) || group(rep, rep[x])
        == set![x] by {
        let q = rep[x];
        let g = group(rep, q);
        assert(g.contains(x));
        assert(rep[q] == q);
        if group_size(rep, q) >= 2 {
            assert(nontrivial_groups(rep).contains(g));
        } else {
            assert(g.len() == 1);
            assert(g.remove(x).len() == 0);
            assert(g.remove(x) =~= Set::empty());
            assert(g =~= set![x]);
        }
    }
    assert forall|g1: Set<u64>, g2: Set<u64>|
        #[trigger] nontrivial_groups(rep).contains(g1) && #[trigger] nontrivial_groups(
            rep,
        ).contains(g2) implies g1 == g2 || g1.disjoint(g2) by {
        if !g1.disjoint(g2) {
            let z = choose|z: u64| g1.contains(z) && g2.contains(z);
            assert(group(rep, rep[z]) == g1);
            assert(group(rep, rep[z]) == g2);
        }
    }
}

/// A merge keeps the abstract state consistent.
pub proof fn lemma_merged_valid(entries: Seq<u64>, rep: Map<u64, u64>, x: u64, y: u64)
    requires
        valid_model(entries, rep),
    ensures
        valid_model(merged_entries(entries, rep, x, y), merged(rep, x, y)),
{
    lemma_added_valid(entries, rep, x);
    lemma_added_valid(appended(entries, rep, x), added(rep, x), y);
    let m = added(added(rep, x), y);
    let r1 = merged(rep, x, y);
    assert(r1.dom() =~= m.dom());
    assert forall|z: u64| r1.dom().contains(z) implies r1.dom().contains(#[trigger] r1[z])
        && r1[r1[z]] == r1[z] by {
        assert(m.dom().contains(m[z]) && m[m[z]] == m[z]);
    }
}

/// The state after merging each pair of `ops` in turn. Looking up `z` acts on
/// the groups as merging `z` with itself does.
pub open spec fn after_merges(entries: Seq<u64>, rep: Map<u64, u64>, ops: Seq<(u64, u64)>) -> (
    Seq<u64>,
    Map<u64, u64>,
)
    decreases ops.len(),
{
    if ops.len() == 0 {
        (entries, rep)
    } else {
        let before = after_merges(entries, rep, ops.drop_last());
        let (x, y) = ops.last();
        (merged_entries(before.0, before.1, x, y), merged(before.1, x, y))
    }
}

/// Over any sequence of merges, groups only grow: elements grouped together
/// stay grouped together, and every group of two or more elements lies within
/// such a group at the end.
pub proof fn lemma_merges_monotone(entries: Seq<u64>, rep: Map<u64, u64>, ops: Seq<(u64, u64)>)
    requires
        valid_model(entries, rep),
    ensures
        valid_model(after_merges(entries, rep, ops).0, after_merges(entries, rep, ops).1),
        rep.dom() <= after_merges(entries, rep, ops).1.dom(),
        forall|a: u64, b: u64|
            #[trigger] same_group(rep, a, b) ==> #[trigger] same_group(
                after_merges(entries, rep, ops).1,
                a,
                b,
            ),
        forall|g: Set<u64>| #[trigger]
            nontrivial_groups(rep).contains(g) ==> exists|h: Set<u64>|
                #[trigger] nontrivial_groups(after_merges(entries, rep, ops).1).contains(h) && g
                    <= h,
    decreases ops.len(),
{
    if ops.len() > 0 {
        lemma_merges_monotone(entries, rep, ops.drop_last());
        let before = after_merges(entries, rep, ops.drop_last());
        let (x, y) = ops.last();
        let after = after_merges(entries, rep, ops);
        lemma_merged_valid(before.0, before.1, x, y);
        lemma_union_monotone(before.0, before.1, x, y);
        assert forall|a: u64, b: u64| #[trigger] same_group(rep, a, b) implies #[trigger] same_group(
            after.1,
            a,
            b,
        ) by {
            assert(same_group(before.1, a, b));
        }
        assert forall|g: Set<u64>| #[trigger] nontrivial_groups(rep).contains(g) implies exists|
            h: Set<u64>,
        | #[trigger] nontrivial_groups(after.1).contains(h) && g <= h by {
            let h1 = choose|h: Set<u64>| #[trigger]
                nontrivial_groups(before.1).contains(h) && g <= h;
            let h2 = choose|h: Set<u64>| #[trigger]
                nontrivial_groups(after.1).contains(h) && h1 <= h;
            assert(g <= h2);
        }
    }
}

} // verus!
