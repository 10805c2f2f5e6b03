//! Sampling-based motion planning over an integer configuration-space grid:
//! rapidly exploring random trees with local rewiring, a bidirectional
//! connect planner, and randomized path smoothing.
//!
//! Points are vectors of signed fixed-point coordinates, all threshold
//! comparisons are made on exact squared Euclidean distances, and one
//! steering step moves at most one grid unit farther than the nominal step
//! length.  The feasibility predicate and the sampler are caller-supplied
//! closures.

pub mod ancestry;
pub mod geom;
mod rng;
pub mod tree;

use crate::geom::{
    bounded, copy_point, points_equal, sq_dist, squared_euclidean, steer, valid_point,
    COORD_LIMIT, DIM_LIMIT,
};
use crate::rng::random_index_below;
use crate::tree::{point_free, ExtendStatus, Tree};
use vstd::prelude::*;

verus! {

/// Reverse the order of the waypoints of a path.
fn reverse_path(p: Vec<Vec<i64>>) -> (r: Vec<Vec<i64>>)
    ensures
        r@.len() == p@.len(),
        forall|j: int| 0 <= j < p@.len() ==> #[trigger] r@[j] == p@[p@.len() - 1 - j],
{
    let mut src = p;
    let ghost orig = src@;
    let mut r: Vec<Vec<i64>> = Vec::new();
    while src.len() > 0
        invariant
            src@ == orig.take(src@.len() as int),
            r@.len() + src@.len() == orig.len(),
            forall|j: int| 0 <= j < r@.len() ==> #[trigger] r@[j] == orig[orig.len() - 1 - j],
        decreases src@.len(),
    {
        let x = src.pop().unwrap();
        r.push(x);
        proof {
            assert(src@ =~= orig.take(src@.len() as int));
            assert(x == orig[src@.len() as int]);
        }
    }
    r
}

/// Join the two root paths of a successful bidirectional connection into one
/// waypoint sequence running from the start-rooted tree's root to the
/// goal-rooted tree's root.  `tree_b` reached `tree_a`'s newest vertex; if
/// `b_holds_start` the concatenation is reversed so the result still runs
/// start to goal.
#[verifier::rlimit(100)]
fn assemble_path<FF: Fn(&Vec<i64>) -> bool>(
    tree_a: &Tree,
    tree_b: &Tree,
    new_index: usize,
    reach_index: usize,
    extend_length: i64,
    b_holds_start: bool,
    is_free: &FF,
) -> (r: Vec<Vec<i64>>)
    requires
        tree_a.wf(),
        tree_a.rooted(),
        tree_b.wf(),
        tree_b.rooted(),
        tree_a.dim == tree_b.dim,
        1 <= new_index < tree_a.vertices@.len(),
        1 <= reach_index < tree_b.vertices@.len(),
        1 <= extend_length <= COORD_LIMIT,
        tree_a.edges_within((extend_length + 1) * (extend_length + 1)),
        tree_b.edges_within((extend_length + 1) * (extend_length + 1)),
        tree_a.free_non_roots(*is_free),
        tree_b.free_non_roots(*is_free),
        sq_dist(
            tree_b.vertices@[reach_index as int].data@,
            tree_a.vertices@[new_index as int].data@,
        ) < extend_length * extend_length,
    ensures
        r@.len() >= 2,
        b_holds_start ==> r@[0]@ == tree_b.vertices@[0].data@ && r@[r@.len() - 1]@
            == tree_a.vertices@[0].data@,
        !b_holds_start ==> r@[0]@ == tree_a.vertices@[0].data@ && r@[r@.len() - 1]@
            == tree_b.vertices@[0].data@,
        forall|j: int|
            0 <= j < r@.len() - 1 ==> sq_dist((#[trigger] r@[j])@, r@[j + 1]@) <= (extend_length
                + 1) * (extend_length + 1),
        forall|j: int| 1 <= j < r@.len() - 1 ==> point_free(*is_free, (#[trigger] r@[j])@),
        forall|j: int|
            0 <= j < r@.len() ==> valid_point((#[trigger] r@[j])@, tree_a.dim as nat),
{
    let ghost bb = (extend_length + 1) * (extend_length + 1);
    proof {
        assert(extend_length * extend_length <= bb && 0 <= bb) by (nonlinear_arith)
            requires
                extend_length >= 1,
                bb == (extend_length + 1) * (extend_length + 1),
        ;
    }
    let ghost qn = tree_a.vertices@[new_index as int].data@;
    let ghost rc = tree_b.vertices@[reach_index as int].data@;
    let a_partial = tree_a.get_until_root(new_index);
    let b_all = tree_b.get_until_root(reach_index);
    let ghost apath = a_partial@;
    let ghost bpath = b_all@;
    let ghost alen = apath.len() as int;
    let ghost blen = bpath.len() as int;
    proof {
        // the new vertex and the reached vertex both have parents
        assert(tree_a.parents()[new_index as int] is Some);
        assert(tree_b.parents()[reach_index as int] is Some);
        assert(alen >= 1 && blen >= 1);
        // per-segment step bounds and interior feasibility
        assert forall|k: int| 0 <= k < alen - 1 implies sq_dist(
            (#[trigger] apath[k])@,
            apath[k + 1]@,
        ) <= bb && point_free(*is_free, apath[k]@) by {
            let c = choose|c: int|
                0 <= c < tree_a.vertices@.len() && c != 0 && ((
                #[trigger] tree_a.parents()[c]) matches Option::Some(p2) && apath[k]@
                    == tree_a.vertices@[c].data@ && apath[k + 1]@
                    == tree_a.vertices@[p2 as int].data@);
            assert(tree_a.parents()[c] is Some);
        }
        assert forall|k: int| 0 <= k < blen - 1 implies sq_dist(
            (#[trigger] bpath[k])@,
            bpath[k + 1]@,
        ) <= bb && point_free(*is_free, bpath[k]@) by {
            let c = choose|c: int|
                0 <= c < tree_b.vertices@.len() && c != 0 && ((
                #[trigger] tree_b.parents()[c]) matches Option::Some(p2) && bpath[k]@
                    == tree_b.vertices@[c].data@ && bpath[k + 1]@
                    == tree_b.vertices@[p2 as int].data@);
            assert(tree_b.parents()[c] is Some);
        }
        // the hand-off between the two trees is short
        let a0 = apath[0]@;
        let b0 = bpath[0]@;
        let pa = tree_a.parents()[new_index as int]->Some_0;
        assert(a0 == tree_a.vertices@[pa as int].data@);
        assert(sq_dist(tree_a.vertices@[new_index as int].data@, a0) <= bb);
        crate::geom::lemma_sq_dist_sym(tree_a.vertices@[new_index as int].data@, a0);
        let pb = tree_b.parents()[reach_index as int]->Some_0;
        assert(b0 == tree_b.vertices@[pb as int].data@);
        assert(sq_dist(rc, b0) <= bb);
        assert(sq_dist(rc, qn) < extend_length * extend_length);
        crate::geom::lemma_sq_dist_sym(rc, qn);
        assert(sq_dist(apath[0]@, qn) <= bb);
        assert(sq_dist(qn, rc) <= bb);
    }
    let rev_a = reverse_path(a_partial);
    let mut path = rev_a;
    path.push(copy_point(&tree_a.vertices[new_index].data));
    path.push(copy_point(&tree_b.vertices[reach_index].data));
    let mut btail = b_all;
    path.append(&mut btail);
    proof {
        let pp = path@;
        let nn = alen + blen + 2;
        assert(pp.len() == nn);
        assert(forall|j: int| 0 <= j < alen ==> #[trigger] pp[j] == apath[alen - 1 - j]);
        assert(pp[alen]@ == qn);
        assert(pp[alen + 1]@ == rc);
        assert(forall|j: int| alen + 2 <= j < nn ==> #[trigger] pp[j] == bpath[j - alen - 2]);
        assert(pp[0]@ == tree_a.vertices@[0].data@);
        assert(pp[nn - 1]@ == tree_b.vertices@[0].data@);
        assert forall|j: int| 0 <= j < nn - 1 implies sq_dist((#[trigger] pp[j])@, pp[j + 1]@)
            <= bb by {
            if j + 1 < alen {
                let k = alen - 2 - j;
                assert(pp[j] == apath[k + 1] && pp[j + 1] == apath[k]);
                crate::geom::lemma_sq_dist_sym(apath[k]@, apath[k + 1]@);
            } else if j == alen - 1 {
                assert(pp[j] == apath[0] && pp[j + 1]@ == qn);
            } else if j == alen {
                assert(pp[j]@ == qn && pp[j + 1]@ == rc);
            } else if j == alen + 1 {
                assert(pp[j]@ == rc && pp[j + 1] == bpath[0]);
            } else {
                let k = j - alen - 2;
                assert(pp[j] == bpath[k] && pp[j + 1] == bpath[k + 1]);
            }
        }
        assert forall|j: int| 1 <= j < nn - 1 implies point_free(*is_free, (#[trigger] pp[j])@) by {
            if j < alen {
                assert(pp[j] == apath[alen - 1 - j]);
            } else if j == alen {
                assert(point_free(*is_free, (#[trigger] tree_a.vertices@[new_index as int]).data@));
            } else if j == alen + 1 {
                assert(point_free(
                    *is_free,
                    (#[trigger] tree_b.vertices@[reach_index as int]).data@,
                ));
            } else {
                assert(pp[j] == bpath[j - alen - 2]);
            }
        }
        assert forall|j: int|
            0 <= j < nn implies valid_point((#[trigger] pp[j])@, tree_a.dim as nat) by {
            if j == alen {
                assert(valid_point((#[trigger] tree_a.vertices@[new_index as int]).data@,
                    tree_a.dim as nat));
            } else if j == alen + 1 {
                assert(valid_point((#[trigger] tree_b.vertices@[reach_index as int]).data@,
                    tree_b.dim as nat));
            }
        }
    }
    if !b_holds_start {
        return path;
    }
    let ghost pp = path@;
    let ghost nn = alen + blen + 2;
    let path2 = reverse_path(path);
    proof {
        let p2 = path2@;
        assert(p2[0]@ == tree_b.vertices@[0].data@);
        assert(p2[nn - 1]@ == tree_a.vertices@[0].data@);
        assert forall|j: int| 0 <= j < nn - 1 implies sq_dist((#[trigger] p2[j])@, p2[j + 1]@)
            <= bb by {
            let k = nn - 2 - j;
            assert(p2[j] == pp[k + 1] && p2[j + 1] == pp[k]);
            crate::geom::lemma_sq_dist_sym(pp[k]@, pp[k + 1]@);
        }
        assert forall|j: int| 1 <= j < nn - 1 implies point_free(*is_free, (#[trigger] p2[j])@) by {
            assert(p2[j] == pp[nn - 1 - j]);
        }
    }
    path2
}

/// Search a feasible path from `start` to `goal`, growing one tree from each
/// end: each round draws one sample, extends the active tree toward it, and
/// on any advance tries to connect the other tree to the new vertex; the two
/// trees swap roles every round.  On success the returned waypoints run from
/// `start` to `goal`; after `num_max_try` rounds without a connection the
/// search reports failure.
///
/// Every consecutive pair of returned waypoints is within one steering step
/// (at most one grid unit past the step length), the two meeting vertices of
/// the trees included, and every waypoint between the two endpoints was
/// accepted by the feasibility predicate.
#[verifier::rlimit(100)]
pub fn dual_rrt_connect<FF, FR>(
    start: &Vec<i64>,
    goal: &Vec<i64>,
    is_free: FF,
    random_sample: FR,
    extend_length: i64,
    num_max_try: usize,
) -> (result: Result<Vec<Vec<i64>>, String>) where
    FF: Fn(&Vec<i64>) -> bool,
    FR: Fn() -> Vec<i64>,

    requires
        start@.len() == goal@.len(),
        start@.len() <= DIM_LIMIT,
        bounded(start@),
        bounded(goal@),
        1 <= extend_length <= COORD_LIMIT,
        forall|p: &Vec<i64>| call_requires(is_free, (p,)),
        call_requires(random_sample, ()),
        forall|r: Vec<i64>|
            call_ensures(random_sample, (), r) ==> r@.len() == start@.len() && bounded(r@),
    ensures
        num_max_try == 0 ==> result is Err,
        (forall|p: &Vec<i64>, b: bool| call_ensures(is_free, (p,), b) ==> !b) ==> result is Err,
        match result {
            Result::Ok(path) => {
                &&& path@.len() >= 2
                &&& path@[0]@ == start@
                &&& path@[path@.len() - 1]@ == goal@
                &&& forall|j: int|
                    0 <= j < path@.len() - 1 ==> sq_dist((#[trigger] path@[j])@, path@[j + 1]@)
                        <= (extend_length + 1) * (extend_length + 1)
                &&& forall|j: int|
                    1 <= j < path@.len() - 1 ==> point_free(is_free, (#[trigger] path@[j])@)
                &&& forall|j: int|
                    0 <= j < path@.len() ==> valid_point(
                        (#[trigger] path@[j])@,
                        start@.len() as nat,
                    )
            },
            Result::Err(_) => true,
        },
{
    let dim = start.len();
    let ghost bb = (extend_length + 1) * (extend_length + 1);
    proof {
        assert(extend_length * extend_length <= bb && 0 <= bb) by (nonlinear_arith)
            requires
                extend_length >= 1,
                bb == (extend_length + 1) * (extend_length + 1),
        ;
    }
    let mut tree_a = Tree::new(dim);
    let mut tree_b = Tree::new(dim);
    tree_a.add_vertex(start);
    tree_b.add_vertex(goal);
    let mut a_is_start = true;
    let mut i: usize = 0;
    while i < num_max_try
        invariant
            tree_a.wf(),
            tree_a.rooted(),
            tree_a.vertices@.len() >= 1,
            tree_a.dim == start@.len(),
            tree_b.wf(),
            tree_b.rooted(),
            tree_b.vertices@.len() >= 1,
            tree_b.dim == start@.len(),
            tree_a.vertices@[0].data@ == (if a_is_start {
                start@
            } else {
                goal@
            }),
            tree_b.vertices@[0].data@ == (if a_is_start {
                goal@
            } else {
                start@
            }),
            tree_a.edges_within(bb),
            tree_b.edges_within(bb),
            tree_a.free_non_roots(is_free),
            tree_b.free_non_roots(is_free),
            start@.len() == goal@.len() <= DIM_LIMIT,
            bounded(start@),
            bounded(goal@),
            1 <= extend_length <= COORD_LIMIT,
            bb == (extend_length + 1) * (extend_length + 1),
            extend_length * extend_length <= bb,
            0 <= bb,
            forall|p: &Vec<i64>| call_requires(is_free, (p,)),
            call_requires(random_sample, ()),
            forall|r: Vec<i64>|
                call_ensures(random_sample, (), r) ==> r@.len() == start@.len() && bounded(r@),
            0 <= i <= num_max_try,
        decreases num_max_try - i,
    {
        let q_rand = random_sample();
        let st = tree_a.extend(&q_rand, extend_length, &is_free);
        match st {
            ExtendStatus::Trapped => {},
            ExtendStatus::Advanced(new_index) | ExtendStatus::Reached(new_index) => {
                let q_new_point = copy_point(&tree_a.vertices[new_index].data);
                let st_b = tree_b.connect(&q_new_point, extend_length, &is_free);
                if let ExtendStatus::Reached(reach_index) = st_b {
                    let path = assemble_path(
                        &tree_a,
                        &tree_b,
                        new_index,
                        reach_index,
                        extend_length,
                        !a_is_start,
                        &is_free,
                    );
                    return Ok(path);
                }
            },
        }
        let tmp = tree_a;
        tree_a = tree_b;
        tree_b = tmp;
        a_is_start = !a_is_start;
        i = i + 1;
    }
    Err("failed".to_string())
}

/// Extract the full root path of `index` — the root first, the vertex
/// itself last — and carry the tree-wide step bound and feasibility facts
/// over to the returned waypoints.
fn root_path_checked<FF: Fn(&Vec<i64>) -> bool>(
    tree: &Tree,
    index: usize,
    extend_length: i64,
    is_free: &FF,
) -> (path: Vec<Vec<i64>>)
    requires
        tree.wf(),
        tree.rooted(),
        index < tree.vertices@.len(),
        1 <= extend_length <= COORD_LIMIT,
        tree.edges_within((extend_length + 1) * (extend_length + 1)),
        tree.free_non_roots(*is_free),
    ensures
        path@.len() >= 1,
        path@[0]@ == tree.vertices@[0].data@,
        path@[path@.len() - 1]@ == tree.vertices@[index as int].data@,
        forall|j: int|
            0 <= j < path@.len() - 1 ==> sq_dist((#[trigger] path@[j])@, path@[j + 1]@) <= (
            extend_length + 1) * (extend_length + 1),
        forall|j: int| 1 <= j < path@.len() ==> point_free(*is_free, (#[trigger] path@[j])@),
        forall|j: int|
            0 <= j < path@.len() ==> valid_point((#[trigger] path@[j])@, tree.dim as nat),
        path@.len() == 1 <==> tree.parents()[index as int] is None,
{
    let ghost bb = (extend_length + 1) * (extend_length + 1);
    let mut combined: Vec<Vec<i64>> = Vec::new();
    combined.push(copy_point(&tree.vertices[index].data));
    let mut tail = tree.get_until_root(index);
    let ghost tpath = tail@;
    combined.append(&mut tail);
    let ghost cc = combined@;
    let ghost clen = tpath.len() + 1;
    proof {
        assert(cc.len() == clen);
        assert(cc[0]@ == tree.vertices@[index as int].data@);
        assert(forall|j: int| 1 <= j < clen ==> #[trigger] cc[j] == tpath[j - 1]);
        if tpath.len() == 0 {
            assert(tree.parents()[index as int] is None);
            assert(index == 0);
        } else {
            assert(tree.parents()[index as int] is Some);
            assert(index != 0);
            let pi = tree.parents()[index as int]->Some_0;
            assert(tpath[0]@ == tree.vertices@[pi as int].data@);
            assert(sq_dist(cc[0]@, cc[1]@) <= bb);
            assert(point_free(*is_free, tree.vertices@[index as int].data@));
        }
        assert forall|k: int| 0 <= k < tpath.len() - 1 implies sq_dist(
            (#[trigger] tpath[k])@,
            tpath[k + 1]@,
        ) <= bb && point_free(*is_free, tpath[k]@) by {
            let c = choose|c: int|
                0 <= c < tree.vertices@.len() && c != 0 && ((
                #[trigger] tree.parents()[c]) matches Option::Some(p2) && tpath[k]@
                    == tree.vertices@[c].data@ && tpath[k + 1]@ == tree.vertices@[p2 as int].data@);
            assert(tree.parents()[c] is Some);
        }
        assert(cc[clen - 1]@ == tree.vertices@[0].data@);
    }
    let path = reverse_path(combined);
    proof {
        let pp = path@;
        assert(pp.len() == clen);
        assert(pp[0]@ == tree.vertices@[0].data@);
        assert(pp[clen - 1]@ == tree.vertices@[index as int].data@);
        assert forall|j: int| 0 <= j < clen - 1 implies sq_dist((#[trigger] pp[j])@, pp[j + 1]@)
            <= bb by {
            let k = clen - 2 - j;
            assert(pp[j] == cc[k + 1] && pp[j + 1] == cc[k]);
            crate::geom::lemma_sq_dist_sym(cc[k]@, cc[k + 1]@);
        }
        assert forall|j: int| 1 <= j < clen implies point_free(*is_free, (#[trigger] pp[j])@) by {
            assert(pp[j] == cc[clen - 1 - j]);
        }
        assert(forall|j: int| 0 <= j < clen ==> valid_point((#[trigger] pp[j])@, tree.dim as nat));
    }
    path
}

/// Grow a single tree rooted at `start`, extending with local rewiring
/// toward a sample that is the goal itself once in ten draws.  Whenever a
/// new vertex lands within `extend_length` of the goal and the goal is
/// feasible, the goal is appended and its root path is returned at once;
/// otherwise, after the iteration budget, the root path of the vertex
/// closest to the goal is returned.  The waypoints run from `start` to the
/// walked-to vertex inclusive (the goal itself on a direct connection), each
/// consecutive pair one steering step apart.
#[verifier::rlimit(100)]
pub fn rrt_star_connect<FF, FR>(
    start: &Vec<i64>,
    goal: &Vec<i64>,
    is_free: FF,
    random_sample: FR,
    extend_length: i64,
    num_max_try: usize,
) -> (result: Result<Vec<Vec<i64>>, String>) where
    FF: Fn(&Vec<i64>) -> bool,
    FR: Fn() -> Vec<i64>,

    requires
        start@.len() == goal@.len(),
        start@.len() <= DIM_LIMIT,
        bounded(start@),
        bounded(goal@),
        1 <= extend_length <= COORD_LIMIT,
        forall|p: &Vec<i64>| call_requires(is_free, (p,)),
        call_requires(random_sample, ()),
        forall|r: Vec<i64>|
            call_ensures(random_sample, (), r) ==> r@.len() == start@.len() && bounded(r@),
    ensures
        result is Ok,
        num_max_try == 0 ==> (result matches Result::Ok(path) && path@.len() == 1),
        (forall|v: &Vec<i64>, b: bool| call_ensures(is_free, (v,), b) ==> !b) ==> (result
            matches Result::Ok(path) && path@.len() == 1),
        match result {
            Result::Ok(path) => {
                &&& path@.len() >= 1
                &&& path@[0]@ == start@
                &&& forall|j: int|
                    0 <= j < path@.len() - 1 ==> sq_dist((#[trigger] path@[j])@, path@[j + 1]@)
                        <= (extend_length + 1) * (extend_length + 1)
                &&& forall|j: int|
                    1 <= j < path@.len() ==> point_free(is_free, (#[trigger] path@[j])@)
                &&& forall|j: int|
                    0 <= j < path@.len() ==> valid_point(
                        (#[trigger] path@[j])@,
                        start@.len() as nat,
                    )
            },
            Result::Err(_) => false,
        },
{
    let dim = start.len();
    let ghost bb = (extend_length + 1) * (extend_length + 1);
    proof {
        assert(extend_length * extend_length <= bb && 0 <= bb) by (nonlinear_arith)
            requires
                extend_length >= 1,
                bb == (extend_length + 1) * (extend_length + 1),
        ;
    }
    proof {
        assert(extend_length * extend_length <= 1_000_000_000_000) by (nonlinear_arith)
            requires
                1 <= extend_length <= 1_000_000,
        ;
    }
    let ell_sq = extend_length * extend_length;
    let mut tree = Tree::new(dim);
    tree.add_vertex(start);
    let mut closest_to_goal = copy_point(start);
    let ghost mut closest_idx: int = 0;
    let mut min_dist_sq = squared_euclidean(goal, start);
    let mut i: usize = 0;
    while i < num_max_try
        invariant
            tree.wf(),
            tree.rooted(),
            tree.vertices@.len() >= 1,
            tree.dim == start@.len(),
            tree.vertices@[0].data@ == start@,
            tree.edges_within(bb),
            tree.free_non_roots(is_free),
            0 <= closest_idx < tree.vertices@.len(),
            closest_idx <= usize::MAX,
            tree.vertices@[closest_idx].data@ == closest_to_goal@,
            i == 0 ==> closest_idx == 0 && tree.vertices@.len() == 1,
            (forall|v: &Vec<i64>, b: bool| call_ensures(is_free, (v,), b) ==> !b)
                ==> closest_idx == 0 && tree.vertices@.len() == 1,
            start@.len() == goal@.len() <= DIM_LIMIT,
            bounded(start@),
            bounded(goal@),
            1 <= extend_length <= COORD_LIMIT,
            bb == (extend_length + 1) * (extend_length + 1),
            extend_length * extend_length <= bb,
            ell_sq == extend_length * extend_length,
            forall|p: &Vec<i64>| call_requires(is_free, (p,)),
            call_requires(random_sample, ()),
            forall|r: Vec<i64>|
                call_ensures(random_sample, (), r) ==> r@.len() == start@.len() && bounded(r@),
            0 <= i <= num_max_try,
        decreases num_max_try - i,
    {
        let q_rand: Vec<i64>;
        if random_index_below(10) == 0 {
            // goal bias: head straight for the goal once in ten draws
            q_rand = copy_point(goal);
        } else {
            q_rand = random_sample();
        }
        let st = tree.extend_rewire(&q_rand, extend_length, &is_free);
        match st {
            ExtendStatus::Trapped => {},
            ExtendStatus::Advanced(index) | ExtendStatus::Reached(index) => {
                proof {
                    if forall|v: &Vec<i64>, b: bool| call_ensures(is_free, (v,), b) ==> !b {
                        let w = choose|v: Vec<i64>|
                            v@ == tree.vertices@[index as int].data@ && call_ensures(
                                is_free,
                                (&v,),
                                true,
                            );
                        assert(false);
                    }
                }
                let new_point = copy_point(&tree.vertices[index].data);
                let dist_to_goal_sq = squared_euclidean(goal, &new_point);
                if dist_to_goal_sq < min_dist_sq {
                    closest_to_goal = copy_point(&new_point);
                    proof {
                        closest_idx = index as int;
                    }
                    min_dist_sq = dist_to_goal_sq;
                }
                // connect straight to the goal if it is in reach and free
                if dist_to_goal_sq < ell_sq {
                    if is_free(goal) {
                        proof {
                            assert(point_free(is_free, goal@)) by {
                                assert((*goal)@ == goal@ && call_ensures(is_free, (goal,), true));
                            }
                        }
                        let ghost pre = tree;
                        let goal_index = tree.add_vertex(goal);
                        proof {
                            let ps1 = tree.parents();
                            assert forall|k: int|
                                0 <= k < ps1.len() implies ((#[trigger] ps1[k]) matches
                            Option::Some(p) ==> p < goal_index as int) by {
                                if k < goal_index as int {
                                    assert(ps1[k] == pre.parents()[k]);
                                }
                            }
                            crate::ancestry::lemma_no_chain_above(
                                ps1,
                                index as int,
                                goal_index as int,
                                goal_index as int,
                            );
                        }
                        tree.add_edge(index, goal_index);
                        proof {
                            let fin = tree;
                            assert forall|k: int| 0 <= k < fin.vertices@.len() implies ((
                            #[trigger] fin.parents()[k]) is None <==> k == 0) by {
                                if k < goal_index as int {
                                    assert(fin.parents()[k] == pre.parents()[k]);
                                }
                            }
                            assert(fin.vertices@[goal_index as int].data@ == goal@);
                            assert(fin.vertices@[index as int].data@ == new_point@);
                            assert forall|c: int|
                                0 <= c < fin.vertices@.len() implies ((
                            #[trigger] fin.parents()[c]) matches Option::Some(p) ==> sq_dist(
                                fin.vertices@[c].data@,
                                fin.vertices@[p as int].data@,
                            ) <= bb) by {
                                if c < goal_index as int {
                                    assert(fin.parents()[c] == pre.parents()[c]);
                                    assert(fin.vertices@[c] == pre.vertices@[c]);
                                } else {
                                    assert(fin.parents()[c] == Option::Some(index));
                                }
                            }
                            assert forall|c: int| 1 <= c < fin.vertices@.len() implies point_free(
                                is_free,
                                (#[trigger] fin.vertices@[c]).data@,
                            ) by {
                                if c < goal_index as int {
                                    assert(fin.vertices@[c] == pre.vertices@[c]);
                                }
                            }
                        }
                        let path = root_path_checked(&tree, goal_index, extend_length, &is_free);
                        return Ok(path);
                    }
                }
            },
        }
        i = i + 1;
    }
    // no direct connection: return the path to the vertex that came closest
    let mut idx: usize = 0;
    while !points_equal(&tree.vertices[idx].data, &closest_to_goal)
        invariant
            tree.wf(),
            0 <= idx <= closest_idx < tree.vertices@.len(),
            closest_idx <= usize::MAX,
            tree.vertices@[closest_idx].data@ == closest_to_goal@,
        decreases closest_idx - idx,
    {
        proof {
            assert(idx != closest_idx);
        }
        idx = idx + 1;
    }
    let path = root_path_checked(&tree, idx, extend_length, &is_free);
    Ok(path)
}

/// Every pair of waypoints with at least one waypoint strictly between them
/// is already within one step of each other.
pub open spec fn all_pairs_within(p: Seq<Vec<i64>>, ell: int) -> bool {
    forall|i1: int, i2: int|
        0 <= i1 && i1 + 2 <= i2 < p.len() ==> sq_dist((#[trigger] p[i1])@, (#[trigger] p[i2])@)
            < ell * ell
}

/// No pair of waypoints with at least one waypoint strictly between them is
/// within one step of each other.
pub open spec fn no_pairs_within(p: Seq<Vec<i64>>, ell: int) -> bool {
    forall|i1: int, i2: int|
        0 <= i1 && i1 + 2 <= i2 < p.len() ==> sq_dist((#[trigger] p[i1])@, (#[trigger] p[i2])@)
            >= ell * ell
}

/// `m` lists, in strictly increasing order, the positions in `a` from which
/// the waypoints of `b` were taken: `b` is an order-preserving subsequence.
pub open spec fn is_subseq_map(m: Seq<int>, a: Seq<Vec<i64>>, b: Seq<Vec<i64>>) -> bool {
    &&& m.len() == b.len()
    &&& forall|k: int| 0 <= k < m.len() ==> 0 <= #[trigger] m[k] < a.len() && b[k] == a[m[k]]
    &&& forall|k1: int, k2: int| 0 <= k1 < k2 < m.len() ==> m[k1] < m[k2]
}

/// Randomized shortcutting of a path in place: each attempt picks two
/// waypoints with at least one waypoint strictly between them and walks a
/// straight, feasibility-checked, step-subdivided line from the first toward
/// the second; if the walk arrives, the waypoints strictly between the two
/// are removed.  A failed attempt leaves the path unchanged; smoothing stops
/// early once only the two endpoints remain.  Paths of fewer than three
/// waypoints are returned unmodified.
///
/// The result is an order-preserving subsequence of the input with the same
/// endpoints.  If every eligible pair is already within one step, the first
/// attempt must shorten the path; if the predicate rejects every point and
/// no eligible pair is within one step, no attempt can change the path.
#[verifier::rlimit(100)]
pub fn smooth_path<FF>(
    path: &mut Vec<Vec<i64>>,
    is_free: FF,
    extend_length: i64,
    num_max_try: usize,
) where FF: Fn(&Vec<i64>) -> bool
    requires
        1 <= extend_length <= COORD_LIMIT,
        forall|p: &Vec<i64>| call_requires(is_free, (p,)),
        forall|j: int|
            0 <= j < old(path)@.len() ==> valid_point(
                (#[trigger] old(path)@[j])@,
                old(path)@[0]@.len() as nat,
            ),
    ensures
        final(path)@.len() <= old(path)@.len(),
        old(path)@.len() < 3 ==> final(path)@ == old(path)@,
        old(path)@.len() >= 3 ==> final(path)@.len() >= 2,
        old(path)@.len() >= 1 ==> final(path)@[0] == old(path)@[0]
            && final(path)@[final(path)@.len() - 1] == old(path)@[old(path)@.len() - 1],
        forall|j: int|
            0 <= j < final(path)@.len() ==> old(path)@.contains(#[trigger] final(path)@[j]),
        exists|m: Seq<int>| is_subseq_map(m, old(path)@, final(path)@),
        (forall|v: &Vec<i64>, b: bool| call_ensures(is_free, (v,), b) ==> !b)
            && no_pairs_within(old(path)@, extend_length as int) ==> final(path)@ == old(path)@,
        all_pairs_within(old(path)@, extend_length as int) && num_max_try >= 1 && old(
            path,
        )@.len() >= 3 ==> final(path)@.len() < old(path)@.len(),
{
    proof {
        let idm = Seq::new(path@.len(), |i: int| i);
        assert(is_subseq_map(idm, path@, path@));
    }
    if path.len() < 3 {
        return;
    }
    let ghost orig = path@;
    let ghost dim = orig[0]@.len() as nat;
    proof {
        assert(extend_length * extend_length <= 1_000_000_000_000) by (nonlinear_arith)
            requires
                1 <= extend_length <= 1_000_000,
        ;
    }
    let ell_sq = extend_length * extend_length;
    let mut trial: usize = 0;
    while trial < num_max_try
        invariant
            orig == old(path)@,
            path@.len() >= 3,
            path@.len() <= orig.len(),
            orig.len() >= 3,
            path@[0] == orig[0],
            path@[path@.len() - 1] == orig[orig.len() - 1],
            forall|j: int| 0 <= j < path@.len() ==> orig.contains(#[trigger] path@[j]),
            forall|j: int| 0 <= j < path@.len() ==> valid_point((#[trigger] path@[j])@, dim),
            1 <= extend_length <= COORD_LIMIT,
            ell_sq == extend_length * extend_length,
            forall|p: &Vec<i64>| call_requires(is_free, (p,)),
            0 <= trial <= num_max_try,
            trial == 0 ==> path@ == orig,
            (forall|v: &Vec<i64>, b: bool| call_ensures(is_free, (v,), b) ==> !b)
                && no_pairs_within(orig, extend_length as int) ==> path@ == orig,
            all_pairs_within(orig, extend_length as int) && trial >= 1 ==> path@.len()
                < orig.len(),
            exists|m: Seq<int>| is_subseq_map(m, orig, path@),
        decreases num_max_try - trial,
    {
        let ind1 = random_index_below(path.len() - 2);
        let ind2 = ind1 + 2 + random_index_below(path.len() - ind1 - 2);
        let mut base_point = copy_point(&path[ind1]);
        let point2 = copy_point(&path[ind2]);
        let mut reached = false;
        let d0 = squared_euclidean(&base_point, &point2);
        proof {
            crate::geom::lemma_sq_dist_nonneg(base_point@, point2@);
        }
        if d0 < ell_sq {
            reached = true;
        } else {
            loop
                invariant_except_break
                    sq_dist(base_point@, point2@) >= ell_sq,
                invariant
                    valid_point(base_point@, dim),
                    valid_point(point2@, dim),
                    1 <= extend_length <= COORD_LIMIT,
                    ell_sq == extend_length * extend_length,
                    forall|p: &Vec<i64>| call_requires(is_free, (p,)),
                    (forall|v: &Vec<i64>, b: bool| call_ensures(is_free, (v,), b) ==> !b)
                        ==> !reached,
                decreases sq_dist(base_point@, point2@),
            {
                let check_point = steer(&base_point, &point2, extend_length);
                if points_equal(&check_point, &base_point) {
                    // the grid cannot advance along this segment
                    break;
                }
                if !is_free(&check_point) {
                    break;
                }
                base_point = check_point;
                let d = squared_euclidean(&base_point, &point2);
                proof {
                    crate::geom::lemma_sq_dist_nonneg(base_point@, point2@);
                }
                if d < ell_sq {
                    reached = true;
                    proof {
                        if forall|v: &Vec<i64>, b: bool| call_ensures(is_free, (v,), b) ==> !b {
                            assert(call_ensures(is_free, (&base_point,), true));
                            assert(false);
                        }
                    }
                    break;
                }
            }
        }
        if reached {
            proof {
                if (forall|v: &Vec<i64>, b: bool| call_ensures(is_free, (v,), b) ==> !b)
                    && no_pairs_within(orig, extend_length as int) {
                    assert(sq_dist((orig[ind1 as int])@, (orig[ind2 as int])@) >= ell_sq);
                    assert(false);
                }
            }
            // the straight segment is feasible: drop everything strictly
            // between the two chosen waypoints
            let ghost pre = path@;
            let count = ind2 - ind1 - 1;
            let mut rcount: usize = 0;
            while rcount < count
                invariant
                    0 <= rcount <= count,
                    count == ind2 - ind1 - 1,
                    0 <= ind1 as int,
                    ind1 + 2 <= ind2 < pre.len(),
                    path@ == pre.take(ind1 + 1) + pre.skip(ind1 + 1 + rcount),
                decreases count - rcount,
            {
                proof {
                    assert(path@.len() == pre.len() - rcount);
                }
                path.remove(ind1 + 1);
                proof {
                    assert(path@ =~= pre.take(ind1 + 1) + pre.skip(ind1 + 1 + rcount + 1));
                }
                rcount = rcount + 1;
            }
            proof {
                let cur = path@;
                assert(cur == pre.take(ind1 + 1) + pre.skip(ind2 as int));
                assert(cur.len() == pre.len() - (ind2 - ind1 - 1));
                assert(cur[0] == pre[0]);
                assert(cur[cur.len() - 1] == pre[pre.len() - 1]);
                assert forall|j: int| 0 <= j < cur.len() implies orig.contains(
                    #[trigger] cur[j],
                ) by {
                    if j <= ind1 as int {
                        assert(cur[j] == pre[j]);
                    } else {
                        assert(cur[j] == pre[j + (ind2 - ind1 - 1)]);
                    }
                }
                assert forall|j: int| 0 <= j < cur.len() implies valid_point(
                    (#[trigger] cur[j])@,
                    dim,
                ) by {
                    if j <= ind1 as int {
                        assert(cur[j] == pre[j]);
                    } else {
                        assert(cur[j] == pre[j + (ind2 - ind1 - 1)]);
                    }
                }
                // order-preserving subsequence bookkeeping
                let m_pre = choose|m: Seq<int>| is_subseq_map(m, orig, pre);
                let m_new = m_pre.take(ind1 + 1) + m_pre.skip(ind2 as int);
                assert forall|k: int|
                    0 <= k < m_new.len() implies 0 <= #[trigger] m_new[k] < orig.len() && cur[k]
                    == orig[m_new[k]] by {
                    if k <= ind1 as int {
                        assert(m_new[k] == m_pre[k]);
                        assert(cur[k] == pre[k]);
                    } else {
                        assert(m_new[k] == m_pre[k + (ind2 - ind1 - 1)]);
                        assert(cur[k] == pre[k + (ind2 - ind1 - 1)]);
                    }
                }
                assert forall|k1: int, k2: int|
                    0 <= k1 < k2 < m_new.len() implies m_new[k1] < m_new[k2] by {
                    if k1 <= ind1 as int && k2 <= ind1 as int {
                        assert(m_new[k1] == m_pre[k1] && m_new[k2] == m_pre[k2]);
                    } else if k1 <= ind1 as int {
                        assert(m_new[k1] == m_pre[k1]);
                        assert(m_new[k2] == m_pre[k2 + (ind2 - ind1 - 1)]);
                    } else {
                        assert(m_new[k1] == m_pre[k1 + (ind2 - ind1 - 1)]);
                        assert(m_new[k2] == m_pre[k2 + (ind2 - ind1 - 1)]);
                    }
                }
                assert(is_subseq_map(m_new, orig, cur));
            }
            if path.len() == 2 {
                return;
            }
        }
        proof {
            if all_pairs_within(orig, extend_length as int) && trial == 0 {
                assert(sq_dist((orig[ind1 as int])@, (orig[ind2 as int])@) < ell_sq);
                assert(reached);
            }
        }
        trial = trial + 1;
    }
}

/// Smoothing never invalidates feasibility: every waypoint that survives a
/// transformation that only keeps waypoints of the given path — as
/// `smooth_path` guarantees of its result — still satisfies the feasibility
/// predicate if every waypoint of the given path did.
pub proof fn lemma_smoothing_keeps_feasibility<FF: Fn(&Vec<i64>) -> bool>(
    f: FF,
    before: Seq<Vec<i64>>,
    after: Seq<Vec<i64>>,
)
    requires
        forall|j: int| 0 <= j < before.len() ==> point_free(f, (#[trigger] before[j])@),
        forall|j: int| 0 <= j < after.len() ==> before.contains(#[trigger] after[j]),
    ensures
        forall|j: int| 0 <= j < after.len() ==> point_free(f, (#[trigger] after[j])@),
{
    assert forall|j: int| 0 <= j < after.len() implies point_free(f, (#[trigger] after[j])@) by {
        let w = choose|w: int| 0 <= w < before.len() && before[w] == after[j];
        assert(point_free(f, before[w]@));
    }
}

} // verus!
