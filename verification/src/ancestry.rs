use vstd::prelude::*;

verus! {

/// Parent indices of a vertex arena: `None` marks a root vertex.
/// Every stored parent index stays inside the arena.
pub open spec fn wf_parents(ps: Seq<Option<usize>>) -> bool {
    forall|i: int|
        0 <= i < ps.len() ==> ((#[trigger] ps[i]) matches Option::Some(p) ==> p < ps.len())
}

/// Following parent links from `v` arrives at a root within `k` steps.
pub open spec fn reaches_root(ps: Seq<Option<usize>>, v: int, k: nat) -> bool
    decreases k,
{
    0 <= v < ps.len() && match ps[v] {
        Option::None => true,
        Option::Some(p) => k > 0 && reaches_root(ps, p as int, (k - 1) as nat),
    }
}

/// Some number of parent steps takes `v` to a root.
pub open spec fn has_root_path(ps: Seq<Option<usize>>, v: int) -> bool {
    exists|k: nat| reaches_root(ps, v, k)
}

/// The parent-pointer graph is a forest: every vertex reaches a root.
pub open spec fn acyclic(ps: Seq<Option<usize>>) -> bool {
    forall|v: int| 0 <= v < ps.len() ==> #[trigger] has_root_path(ps, v)
}

/// `x` lies on the parent chain of `v` (including `v` itself), within `k` steps.
pub open spec fn in_chain(ps: Seq<Option<usize>>, v: int, x: int, k: nat) -> bool
    decreases k,
{
    0 <= v < ps.len() && (v == x || match ps[v] {
        Option::None => false,
        Option::Some(p) => k > 0 && in_chain(ps, p as int, x, (k - 1) as nat),
    })
}

/// `x` lies on the parent chain of `v` (including `v` itself).
pub open spec fn chain_has(ps: Seq<Option<usize>>, v: int, x: int) -> bool {
    exists|k: nat| in_chain(ps, v, x, k)
}

pub proof fn lemma_reaches_push(ps: Seq<Option<usize>>, o: Option<usize>, v: int, k: nat)
    requires
        reaches_root(ps, v, k),
    ensures
        reaches_root(ps.push(o), v, k),
    decreases k,
{
    assert(ps.push(o)[v] == ps[v]);
    match ps[v] {
        Option::None => {},
        Option::Some(p) => {
            lemma_reaches_push(ps, o, p as int, (k - 1) as nat);
        },
    }
}

/// Appending a fresh root keeps the forest a forest.
pub proof fn lemma_acyclic_push_none(ps: Seq<Option<usize>>)
    requires
        acyclic(ps),
    ensures
        acyclic(ps.push(Option::None)),
{
    let ps2 = ps.push(Option::None);
    assert forall|v: int| 0 <= v < ps2.len() implies #[trigger] has_root_path(ps2, v) by {
        if v < ps.len() {
            assert(has_root_path(ps, v));
            let k = choose|k: nat| reaches_root(ps, v, k);
            lemma_reaches_push(ps, Option::None, v, k);
        } else {
            assert(ps2[v] is None);
            assert(reaches_root(ps2, v, 0));
        }
    }
}

/// A chain step: for a non-root vertex other than the sought one, chain
/// membership coincides with chain membership of its parent.
pub proof fn lemma_chain_step(ps: Seq<Option<usize>>, v: int, x: int)
    requires
        0 <= v < ps.len(),
        v != x,
    ensures
        match ps[v] {
            Option::None => !chain_has(ps, v, x),
            Option::Some(p) => chain_has(ps, v, x) == chain_has(ps, p as int, x),
        },
{
    match ps[v] {
        Option::None => {
            assert forall|k: nat| !in_chain(ps, v, x, k) by {}
        },
        Option::Some(p) => {
            if chain_has(ps, v, x) {
                let k = choose|k: nat| in_chain(ps, v, x, k);
                assert(in_chain(ps, p as int, x, (k - 1) as nat));
            }
            if chain_has(ps, p as int, x) {
                let k = choose|k: nat| in_chain(ps, p as int, x, k);
                assert(in_chain(ps, v, x, k + 1));
            }
        },
    }
}

proof fn lemma_no_chain_above_k(ps: Seq<Option<usize>>, v: int, x: int, b: int, k: nat)
    requires
        0 <= v < b,
        x >= b,
        forall|i: int|
            0 <= i < ps.len() ==> ((#[trigger] ps[i]) matches Option::Some(p) ==> p < b),
    ensures
        !in_chain(ps, v, x, k),
    decreases k,
{
    if 0 <= v < ps.len() {
        match ps[v] {
            Option::None => {},
            Option::Some(p) => {
                if k > 0 {
                    lemma_no_chain_above_k(ps, p as int, x, b, (k - 1) as nat);
                }
            },
        }
    }
}

/// No parent chain that stays below `b` can pass through an index at or
/// above `b`.
pub proof fn lemma_no_chain_above(ps: Seq<Option<usize>>, v: int, x: int, b: int)
    requires
        0 <= v < b,
        x >= b,
        forall|i: int|
            0 <= i < ps.len() ==> ((#[trigger] ps[i]) matches Option::Some(p) ==> p < b),
    ensures
        !chain_has(ps, v, x),
{
    assert forall|k: nat| !in_chain(ps, v, x, k) by {
        lemma_no_chain_above_k(ps, v, x, b, k);
    }
}

proof fn lemma_in_chain_update_eq(
    ps: Seq<Option<usize>>,
    c: int,
    pn: usize,
    v: int,
    x: int,
    k: nat,
)
    requires
        !chain_has(ps, v, c),
        0 <= c < ps.len(),
    ensures
        in_chain(ps.update(c, Option::Some(pn)), v, x, k) == in_chain(ps, v, x, k),
    decreases k,
{
    let ps2 = ps.update(c, Option::Some(pn));
    if 0 <= v < ps.len() {
        if v == c {
            assert(in_chain(ps, v, c, 0));
            assert(false);
        }
        assert(ps2[v] == ps[v]);
        match ps[v] {
            Option::None => {},
            Option::Some(p) => {
                if chain_has(ps, p as int, c) {
                    let k0 = choose|k0: nat| in_chain(ps, p as int, c, k0);
                    assert(in_chain(ps, v, c, k0 + 1));
                    assert(false);
                }
                if k > 0 {
                    lemma_in_chain_update_eq(ps, c, pn, p as int, x, (k - 1) as nat);
                }
            },
        }
    }
}

/// Re-pointing `c` leaves chain membership unchanged for every vertex whose
/// chain avoids `c`.
pub proof fn lemma_chain_has_update_eq(ps: Seq<Option<usize>>, c: int, pn: usize, v: int, x: int)
    requires
        !chain_has(ps, v, c),
        0 <= c < ps.len(),
    ensures
        chain_has(ps.update(c, Option::Some(pn)), v, x) == chain_has(ps, v, x),
{
    let ps2 = ps.update(c, Option::Some(pn));
    assert forall|k: nat| in_chain(ps2, v, x, k) == in_chain(ps, v, x, k) by {
        lemma_in_chain_update_eq(ps, c, pn, v, x, k);
    }
    if chain_has(ps2, v, x) {
        let k = choose|k: nat| in_chain(ps2, v, x, k);
        assert(in_chain(ps, v, x, k));
    }
    if chain_has(ps, v, x) {
        let k = choose|k: nat| in_chain(ps, v, x, k);
        assert(in_chain(ps2, v, x, k));
    }
}

proof fn lemma_in_chain_grow_eq(ps: Seq<Option<usize>>, ps2: Seq<Option<usize>>, v: int, x: int, k: nat)
    requires
        ps.len() <= ps2.len(),
        forall|i: int| 0 <= i < ps.len() ==> ps2[i] == #[trigger] ps[i],
        forall|i: int|
            0 <= i < ps.len() ==> ((#[trigger] ps[i]) matches Option::Some(p) ==> p < ps.len()),
        0 <= v < ps.len(),
    ensures
        in_chain(ps2, v, x, k) == in_chain(ps, v, x, k),
    decreases k,
{
    assert(ps2[v] == ps[v]);
    match ps[v] {
        Option::None => {},
        Option::Some(p) => {
            if k > 0 {
                lemma_in_chain_grow_eq(ps, ps2, p as int, x, (k - 1) as nat);
            }
        },
    }
}

/// Appending vertices (and edges out of the appended region) leaves chain
/// membership of the old vertices unchanged.
pub proof fn lemma_chain_has_grow_eq(ps: Seq<Option<usize>>, ps2: Seq<Option<usize>>, v: int, x: int)
    requires
        ps.len() <= ps2.len(),
        forall|i: int| 0 <= i < ps.len() ==> ps2[i] == #[trigger] ps[i],
        forall|i: int|
            0 <= i < ps.len() ==> ((#[trigger] ps[i]) matches Option::Some(p) ==> p < ps.len()),
        0 <= v < ps.len(),
    ensures
        chain_has(ps2, v, x) == chain_has(ps, v, x),
{
    assert forall|k: nat| in_chain(ps2, v, x, k) == in_chain(ps, v, x, k) by {
        lemma_in_chain_grow_eq(ps, ps2, v, x, k);
    }
    if chain_has(ps2, v, x) {
        let k = choose|k: nat| in_chain(ps2, v, x, k);
        assert(in_chain(ps, v, x, k));
    }
    if chain_has(ps, v, x) {
        let k = choose|k: nat| in_chain(ps, v, x, k);
        assert(in_chain(ps2, v, x, k));
    }
}

/// Re-pointing `c` leaves every chain that avoids `c` untouched.
pub proof fn lemma_update_keeps_reach(
    ps: Seq<Option<usize>>,
    c: int,
    pnew: usize,
    u: int,
    k: nat,
)
    requires
        reaches_root(ps, u, k),
        !chain_has(ps, u, c),
        0 <= c < ps.len(),
    ensures
        reaches_root(ps.update(c, Option::Some(pnew)), u, k),
    decreases k,
{
    if u == c {
        assert(in_chain(ps, u, c, 0));
        assert(false);
    }
    let ps2 = ps.update(c, Option::Some(pnew));
    assert(ps2[u] == ps[u]);
    match ps[u] {
        Option::None => {},
        Option::Some(p) => {
            if chain_has(ps, p as int, c) {
                let k0 = choose|k0: nat| in_chain(ps, p as int, c, k0);
                assert(in_chain(ps, u, c, k0 + 1));
                assert(false);
            }
            lemma_update_keeps_reach(ps, c, pnew, p as int, (k - 1) as nat);
        },
    }
}

proof fn lemma_update_reach_exists(ps: Seq<Option<usize>>, c: int, pnew: usize, v: int, k: nat)
    requires
        acyclic(ps),
        reaches_root(ps, v, k),
        0 <= c < ps.len(),
        0 <= pnew < ps.len(),
        !chain_has(ps, pnew as int, c),
    ensures
        has_root_path(ps.update(c, Option::Some(pnew)), v),
    decreases k,
{
    let ps2 = ps.update(c, Option::Some(pnew));
    if v == c {
        assert(has_root_path(ps, pnew as int));
        let kp = choose|kp: nat| reaches_root(ps, pnew as int, kp);
        lemma_update_keeps_reach(ps, c, pnew, pnew as int, kp);
        assert(ps2[v] == Option::Some(pnew));
        assert(reaches_root(ps2, v, kp + 1));
    } else {
        assert(ps2[v] == ps[v]);
        match ps[v] {
            Option::None => {
                assert(reaches_root(ps2, v, 0));
            },
            Option::Some(p) => {
                lemma_update_reach_exists(ps, c, pnew, p as int, (k - 1) as nat);
                let kq = choose|kq: nat| reaches_root(ps2, p as int, kq);
                assert(reaches_root(ps2, v, kq + 1));
            },
        }
    }
}

/// Re-pointing `c` at a vertex whose chain avoids `c` keeps the forest a
/// forest: the one edge that changes cannot close a cycle.
pub proof fn lemma_update_acyclic(ps: Seq<Option<usize>>, c: int, pnew: usize)
    requires
        acyclic(ps),
        0 <= c < ps.len(),
        0 <= pnew < ps.len(),
        !chain_has(ps, pnew as int, c),
    ensures
        acyclic(ps.update(c, Option::Some(pnew))),
{
    let ps2 = ps.update(c, Option::Some(pnew));
    assert forall|v: int| 0 <= v < ps2.len() implies #[trigger] has_root_path(ps2, v) by {
        assert(has_root_path(ps, v));
        let k = choose|k: nat| reaches_root(ps, v, k);
        lemma_update_reach_exists(ps, c, pnew, v, k);
    }
}

} // verus!
