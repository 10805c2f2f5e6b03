use crate::ancestry::{
    acyclic, chain_has, has_root_path, in_chain, lemma_acyclic_push_none, lemma_chain_step,
    lemma_no_chain_above, lemma_update_acyclic, reaches_root, wf_parents,
};
use crate::geom::{
    bounded, copy_point, points_equal, sq_dist, squared_euclidean, steer, steer_spec, valid_point,
    lemma_sq_dist_nonneg, lemma_sq_dist_self, COORD_LIMIT, DIM_LIMIT,
};
use vstd::prelude::*;
use vstd::pervasive::VecAdditionalExecFns;

verus! {

/// Outcome of one tree-extension step: the step landed within reach of the
/// target, or it advanced without reaching it, or the candidate point was
/// rejected and the tree is unchanged.
#[derive(Debug, PartialEq, Eq, Structural)]
pub enum ExtendStatus {
    Reached(usize),
    Advanced(usize),
    Trapped,
}

/// Node that contains user data.
#[derive(Debug, Clone)]
pub struct Node<T> {
    pub parent_index: Option<usize>,
    pub data: T,
}

impl<T> Node<T> {
    /// A fresh root node: no parent yet.
    pub fn new(data: T) -> (r: Node<T>)
        ensures
            r.parent_index is None,
            r.data == data,
    {
        Node { parent_index: None, data }
    }
}

/// `f` has returned `true` on some vector holding exactly the coordinates `p`.
pub open spec fn point_free<F: Fn(&Vec<i64>) -> bool>(f: F, p: Seq<i64>) -> bool {
    exists|v: Vec<i64>| #![trigger v.view()] v@ == p && call_ensures(f, (&v,), true)
}

/// `f` has returned `false` on some vector holding exactly the coordinates `p`.
pub open spec fn point_rejected<F: Fn(&Vec<i64>) -> bool>(f: F, p: Seq<i64>) -> bool {
    exists|v: Vec<i64>| #![trigger v.view()] v@ == p && call_ensures(f, (&v,), false)
}

/// An incrementally grown rooted tree over configuration-space points:
/// an append-only vertex arena with parent pointers, doubling as its own
/// exact spatial index for nearest and radius queries.
#[derive(Debug)]
pub struct Tree {
    pub vertices: Vec<Node<Vec<i64>>>,
    pub dim: usize,
}

/// `i` is the index the nearest-vertex query returns: it minimizes the
/// squared distance to `q`, and it is the first index that attains the
/// minimum.
pub open spec fn is_first_nearest(t: Tree, q: Seq<i64>, i: int) -> bool {
    &&& 0 <= i < t.vertices@.len()
    &&& forall|j: int|
        0 <= j < t.vertices@.len() ==> sq_dist(t.vertices@[i].data@, q) <= sq_dist(
            (#[trigger] t.vertices@[j]).data@,
            q,
        )
    &&& forall|j: int|
        0 <= j < i ==> sq_dist((#[trigger] t.vertices@[j]).data@, q) > sq_dist(
            t.vertices@[i].data@,
            q,
        )
}

/// The index of the nearest vertex to `q` (the first one on ties).
pub open spec fn nearest_index_spec(t: Tree, q: Seq<i64>) -> int {
    choose|i: int| is_first_nearest(t, q, i)
}

/// There is exactly one first-nearest index.
pub proof fn lemma_first_nearest_unique(t: Tree, q: Seq<i64>, i: int)
    requires
        is_first_nearest(t, q, i),
    ensures
        nearest_index_spec(t, q) == i,
{
    let c = nearest_index_spec(t, q);
    assert(is_first_nearest(t, q, c));
    let di = sq_dist(t.vertices@[i].data@, q);
    let dc = sq_dist(t.vertices@[c].data@, q);
    if c < i {
        assert(dc > di && dc <= di);
    } else if i < c {
        assert(di > dc && di <= dc);
    }
}

/// The point one extension step inserts: the steering step from the nearest
/// vertex toward `q`.
pub open spec fn extend_candidate(t: Tree, q: Seq<i64>, ell: int) -> Seq<i64> {
    steer_spec(t.vertices@[nearest_index_spec(t, q)].data@, q, ell)
}

/// The grid cannot advance from the nearest vertex toward `q`: the target is
/// out of reach yet the rounded steering step does not move.
pub open spec fn grid_stalled(t: Tree, q: Seq<i64>, ell: int) -> bool {
    &&& sq_dist(t.vertices@[nearest_index_spec(t, q)].data@, q) >= ell * ell
    &&& steer_spec(t.vertices@[nearest_index_spec(t, q)].data@, q, ell) == t.vertices@[
    nearest_index_spec(t, q)].data@
}

/// After one rewiring pass toward `q`, vertex `v` must end re-parented onto
/// the inserted candidate: it already has a parent, lies within the step
/// radius of the candidate, sits strictly closer to the candidate than to
/// its current parent, and is not an ancestor of the inserted candidate.
pub open spec fn rewires_onto(t: Tree, q: Seq<i64>, ell: int, v: int) -> bool {
    &&& t.parents()[v] is Some
    &&& sq_dist(t.vertices@[v].data@, extend_candidate(t, q, ell)) <= ell * ell
    &&& sq_dist(extend_candidate(t, q, ell), t.vertices@[v].data@) < sq_dist(
        t.vertices@[t.parents()[v]->Some_0 as int].data@,
        t.vertices@[v].data@,
    )
    &&& !chain_has(t.parents(), nearest_index_spec(t, q), v)
}

impl Tree {
    /// The parent pointer of each vertex.
    pub open spec fn parents(self) -> Seq<Option<usize>> {
        Seq::new(self.vertices@.len(), |i: int| self.vertices@[i].parent_index)
    }

    /// Well-formed tree: matching dimensionality, bounded coordinates,
    /// in-range parent indices, and an acyclic parent graph.
    pub open spec fn wf(self) -> bool {
        &&& self.dim <= DIM_LIMIT
        &&& forall|i: int|
            0 <= i < self.vertices@.len() ==> valid_point(
                (#[trigger] self.vertices@[i]).data@,
                self.dim as nat,
            )
        &&& wf_parents(self.parents())
        &&& acyclic(self.parents())
    }

    /// The first vertex is the single root; every later vertex has a parent.
    pub open spec fn rooted(self) -> bool {
        forall|i: int|
            0 <= i < self.vertices@.len() ==> ((#[trigger] self.parents()[i]) is None <==> i == 0)
    }

    /// Every parent edge spans a squared distance of at most `b`.
    pub open spec fn edges_within(self, b: int) -> bool {
        forall|c: int|
            0 <= c < self.vertices@.len() ==> ((#[trigger] self.parents()[c]) matches Option::Some(
                p,
            ) ==> sq_dist(self.vertices@[c].data@, self.vertices@[p as int].data@) <= b)
    }

    /// The feasibility predicate accepted every non-root vertex when it was
    /// inserted.  Roots are planner-supplied endpoints and are never tested.
    pub open spec fn free_non_roots<F: Fn(&Vec<i64>) -> bool>(self, f: F) -> bool {
        forall|c: int|
            1 <= c < self.vertices@.len() ==> point_free(f, (#[trigger] self.vertices@[c]).data@)
    }

    /// Create a new, empty tree over a `dim`-dimensional space.
    pub fn new(dim: usize) -> (t: Tree)
        requires
            dim <= DIM_LIMIT,
        ensures
            t.vertices@.len() == 0,
            t.dim == dim,
            t.wf(),
            t.rooted(),
    {
        Tree { vertices: Vec::new(), dim }
    }

    /// Append a vertex holding a copy of `q`, with no parent yet; its index
    /// is returned and stays stable for the tree's lifetime.
    pub fn add_vertex(&mut self, q: &Vec<i64>) -> (idx: usize)
        requires
            old(self).wf(),
            valid_point(q@, old(self).dim as nat),
        ensures
            final(self).wf(),
            final(self).dim == old(self).dim,
            idx == old(self).vertices@.len(),
            final(self).vertices@.len() == old(self).vertices@.len() + 1,
            forall|i: int|
                0 <= i < old(self).vertices@.len() ==> final(self).vertices@[i] == old(
                    self,
                ).vertices@[i],
            final(self).vertices@[idx as int].parent_index is None,
            final(self).vertices@[idx as int].data@ == q@,
            final(self).parents() == old(self).parents().push(Option::None),
            old(self).vertices@.len() == 0 ==> final(self).rooted(),
    {
        let idx = self.vertices.len();
        let node = Node::new(copy_point(q));
        self.vertices.push(node);
        proof {
            assert(self.parents() =~= old(self).parents().push(Option::None));
            lemma_acyclic_push_none(old(self).parents());
        }
        idx
    }

    /// Point vertex `q2_index`'s parent link at `q1_index`, overwriting any
    /// existing parent.  The caller must ensure this cannot close a cycle:
    /// the child may not lie on the parent's root chain.
    pub fn add_edge(&mut self, q1_index: usize, q2_index: usize)
        requires
            old(self).wf(),
            q1_index < old(self).vertices@.len(),
            q2_index < old(self).vertices@.len(),
            !chain_has(old(self).parents(), q1_index as int, q2_index as int),
        ensures
            final(self).wf(),
            final(self).dim == old(self).dim,
            final(self).vertices@.len() == old(self).vertices@.len(),
            forall|i: int|
                0 <= i < final(self).vertices@.len() && i != q2_index ==> final(self).vertices@[i]
                    == old(self).vertices@[i],
            final(self).vertices@[q2_index as int].data == old(self).vertices@[q2_index as int].data,
            final(self).vertices@[q2_index as int].parent_index == Option::Some(q1_index),
            final(self).parents() == old(self).parents().update(
                q2_index as int,
                Option::Some(q1_index),
            ),
    {
        let mut node = Node::new(Vec::new());
        self.vertices.set_and_swap(q2_index, &mut node);
        node.parent_index = Some(q1_index);
        self.vertices.set_and_swap(q2_index, &mut node);
        proof {
            assert(self.vertices@ =~= old(self).vertices@.update(
                q2_index as int,
                Node {
                    parent_index: Option::Some(q1_index),
                    data: old(self).vertices@[q2_index as int].data,
                },
            ));
            assert(self.parents() =~= old(self).parents().update(
                q2_index as int,
                Option::Some(q1_index),
            ));
            lemma_update_acyclic(old(self).parents(), q2_index as int, q1_index);
        }
    }

    /// Index of a vertex at minimal Euclidean distance from `q`.
    pub fn get_nearest_index(&self, q: &Vec<i64>) -> (r: usize)
        requires
            self.wf(),
            self.vertices@.len() >= 1,
            q@.len() == self.dim,
            bounded(q@),
        ensures
            r < self.vertices@.len(),
            is_first_nearest(*self, q@, r as int),
            r as int == nearest_index_spec(*self, q@),
            forall|j: int|
                0 <= j < self.vertices@.len() ==> sq_dist(self.vertices@[r as int].data@, q@)
                    <= sq_dist((#[trigger] self.vertices@[j]).data@, q@),
    {
        let n = self.vertices.len();
        let mut best: usize = 0;
        let mut best_d: i64 = squared_euclidean(&self.vertices[0].data, q);
        let mut j: usize = 1;
        while j < n
            invariant
                self.wf(),
                n == self.vertices@.len(),
                q@.len() == self.dim,
                bounded(q@),
                1 <= j <= n,
                best < j,
                best_d == sq_dist(self.vertices@[best as int].data@, q@),
                forall|i: int|
                    0 <= i < j ==> best_d <= sq_dist((#[trigger] self.vertices@[i]).data@, q@),
                forall|i: int|
                    0 <= i < best ==> sq_dist((#[trigger] self.vertices@[i]).data@, q@) > best_d,
            decreases n - j,
        {
            let d = squared_euclidean(&self.vertices[j].data, q);
            if d < best_d {
                best = j;
                best_d = d;
            }
            j = j + 1;
        }
        proof {
            lemma_first_nearest_unique(*self, q@, best as int);
        }
        best
    }

    /// Indices of all vertices within Euclidean distance `radius` of `q`,
    /// boundary inclusive, in increasing index order.
    pub fn get_nearest_indices_in_radius(&self, q: &Vec<i64>, radius: i64) -> (r: Vec<usize>)
        requires
            self.wf(),
            q@.len() == self.dim,
            bounded(q@),
            0 <= radius <= 3_000_000_000,
        ensures
            forall|j: int|
                0 <= j < r@.len() ==> (#[trigger] r@[j]) < self.vertices@.len() && sq_dist(
                    self.vertices@[r@[j] as int].data@,
                    q@,
                ) <= radius * radius,
            forall|v: int|
                0 <= v < self.vertices@.len() && sq_dist(
                    (#[trigger] self.vertices@[v]).data@,
                    q@,
                ) <= radius * radius ==> r@.contains(v as usize),
            forall|j1: int, j2: int| 0 <= j1 < j2 < r@.len() ==> r@[j1] < r@[j2],
    {
        proof {
            assert(radius * radius <= 9_000_000_000_000_000_000) by (nonlinear_arith)
                requires
                    0 <= radius <= 3_000_000_000,
            ;
        }
        let rad_sq: i64 = radius * radius;
        let n = self.vertices.len();
        let mut r: Vec<usize> = Vec::new();
        let mut v: usize = 0;
        while v < n
            invariant
                self.wf(),
                n == self.vertices@.len(),
                q@.len() == self.dim,
                bounded(q@),
                rad_sq == radius * radius,
                0 <= v <= n,
                forall|j: int|
                    0 <= j < r@.len() ==> (#[trigger] r@[j]) < v && sq_dist(
                        self.vertices@[r@[j] as int].data@,
                        q@,
                    ) <= rad_sq,
                forall|i: int|
                    0 <= i < v && sq_dist((#[trigger] self.vertices@[i]).data@, q@) <= rad_sq
                        ==> r@.contains(i as usize),
                forall|j1: int, j2: int| 0 <= j1 < j2 < r@.len() ==> r@[j1] < r@[j2],
            decreases n - v,
        {
            let ghost old_r = r@;
            let d = squared_euclidean(&self.vertices[v].data, q);
            if d <= rad_sq {
                r.push(v);
                proof {
                    assert(r@ == old_r.push(v as usize));
                    assert forall|i: int|
                        0 <= i < v + 1 && sq_dist(
                            (#[trigger] self.vertices@[i]).data@,
                            q@,
                        ) <= rad_sq implies r@.contains(i as usize) by {
                        if i < v {
                            assert(old_r.contains(i as usize));
                            let w = choose|w: int|
                                0 <= w < old_r.len() && old_r[w] == i as usize;
                            assert(r@[w] == i as usize);
                        } else {
                            assert(r@[r@.len() - 1] == v);
                        }
                    }
                }
            }
            v = v + 1;
        }
        r
    }

    /// Does `x` lie on the parent chain of `v` (including `v` itself)?
    fn chain_contains(&self, v: usize, x: usize) -> (r: bool)
        requires
            self.wf(),
            v < self.vertices@.len(),
            x < self.vertices@.len(),
        ensures
            r == chain_has(self.parents(), v as int, x as int),
    {
        let ghost ps = self.parents();
        let mut cur: usize = v;
        proof {
            assert(has_root_path(ps, v as int));
        }
        let ghost mut fuel: nat = choose|k: nat| reaches_root(ps, v as int, k);
        loop
            invariant
                self.wf(),
                cur < self.vertices@.len(),
                x < self.vertices@.len(),
                ps == self.parents(),
                reaches_root(ps, cur as int, fuel),
                chain_has(ps, v as int, x as int) == chain_has(ps, cur as int, x as int),
            decreases fuel,
        {
            if cur == x {
                proof {
                    assert(in_chain(ps, cur as int, x as int, 0));
                }
                return true;
            }
            proof {
                lemma_chain_step(ps, cur as int, x as int);
            }
            match self.vertices[cur].parent_index {
                None => {
                    return false;
                },
                Some(p) => {
                    proof {
                        assert(ps[cur as int] == Option::Some(p));
                        fuel = (fuel - 1) as nat;
                    }
                    cur = p;
                },
            }
        }
    }

    /// Points along the parent chain of `index`, starting at its parent and
    /// ending at the root, in leaf-to-root order; the starting vertex itself
    /// is excluded.
    pub fn get_until_root(&self, index: usize) -> (path: Vec<Vec<i64>>)
        requires
            self.wf(),
            self.rooted(),
            index < self.vertices@.len(),
        ensures
            path@.len() == 0 <==> self.parents()[index as int] is None,
            path@.len() >= 1 ==> (self.parents()[index as int] matches Option::Some(p)
                && path@[0]@ == self.vertices@[p as int].data@),
            path@.len() >= 1 ==> path@[path@.len() - 1]@ == self.vertices@[0].data@,
            forall|j: int|
                0 <= j < path@.len() - 1 ==> exists|c: int|
                    0 <= c < self.vertices@.len() && c != 0 && ((#[trigger] self.parents()[c])
                        matches Option::Some(p2) && (#[trigger] path@[j])@
                        == self.vertices@[c].data@ && path@[j + 1]@
                        == self.vertices@[p2 as int].data@),
            forall|j: int|
                0 <= j < path@.len() ==> valid_point((#[trigger] path@[j])@, self.dim as nat),
    {
        let ghost ps = self.parents();
        let mut path: Vec<Vec<i64>> = Vec::new();
        let mut cur: usize = index;
        proof {
            assert(has_root_path(ps, index as int));
        }
        let ghost mut fuel: nat = choose|k: nat| reaches_root(ps, index as int, k);
        loop
            invariant
                self.wf(),
                self.rooted(),
                ps == self.parents(),
                index < self.vertices@.len(),
                cur < self.vertices@.len(),
                reaches_root(ps, cur as int, fuel),
                path@.len() == 0 ==> cur == index,
                path@.len() == 0 <==> (cur == index && self.parents()[index as int] is None)
                    || path@.len() == 0 && cur == index,
                path@.len() >= 1 ==> (self.parents()[index as int] matches Option::Some(p)
                    && path@[0]@ == self.vertices@[p as int].data@),
                path@.len() >= 1 ==> path@[path@.len() - 1]@ == self.vertices@[cur as int].data@,
                forall|j: int|
                    0 <= j < path@.len() - 1 ==> exists|c: int|
                        0 <= c < self.vertices@.len() && c != 0 && ((#[trigger] self.parents()[c])
                            matches Option::Some(p2) && (#[trigger] path@[j])@
                            == self.vertices@[c].data@ && path@[j + 1]@
                            == self.vertices@[p2 as int].data@),
                forall|j: int|
                    0 <= j < path@.len() ==> valid_point((#[trigger] path@[j])@, self.dim as nat),
            decreases fuel,
        {
            let ghost old_path = path@;
            let ghost old_cur = cur;
            match self.vertices[cur].parent_index {
                None => {
                    proof {
                        if path@.len() >= 1 {
                            assert(self.parents()[cur as int] is None);
                            assert(cur == 0);
                        }
                    }
                    return path;
                },
                Some(p) => {
                    proof {
                        assert(ps[cur as int] == Option::Some(p));
                        fuel = (fuel - 1) as nat;
                    }
                    cur = p;
                    path.push(copy_point(&self.vertices[cur].data));
                    proof {
                        assert(path@.len() == old_path.len() + 1);
                        assert(forall|j: int| 0 <= j < old_path.len() ==> path@[j] == old_path[j]);
                        if old_path.len() >= 1 {
                            assert(old_path[old_path.len() - 1]@
                                == self.vertices@[old_cur as int].data@);
                            assert(self.parents()[old_cur as int] == Option::Some(p));
                            assert(old_cur != 0);
                            assert forall|j: int| 0 <= j < path@.len() - 1 implies exists|c: int|
                                0 <= c < self.vertices@.len() && c != 0 && ((
                                #[trigger] self.parents()[c]) matches Option::Some(p2) && (
                                #[trigger] path@[j])@ == self.vertices@[c].data@ && path@[j + 1]@
                                    == self.vertices@[p2 as int].data@) by {
                                if j == path@.len() - 2 {
                                    assert(self.parents()[old_cur as int] == Option::Some(
                                        p as usize,
                                    ));
                                    assert(path@[j]@ == self.vertices@[old_cur as int].data@);
                                    assert(path@[j + 1]@ == self.vertices@[p as int].data@);
                                }
                            }
                        }
                    }
                },
            }
        }
    }

    /// One bounded growth step toward `q_target`: steer from the nearest
    /// vertex by at most `extend_length`, and insert the candidate if the
    /// feasibility predicate accepts it, linking it to the nearest vertex.
    pub fn extend<F: Fn(&Vec<i64>) -> bool>(
        &mut self,
        q_target: &Vec<i64>,
        extend_length: i64,
        is_free: &F,
    ) -> (st: ExtendStatus)
        requires
            old(self).wf(),
            old(self).rooted(),
            old(self).vertices@.len() >= 1,
            q_target@.len() == old(self).dim,
            bounded(q_target@),
            1 <= extend_length <= COORD_LIMIT,
            forall|p: &Vec<i64>| call_requires(*is_free, (p,)),
        ensures
            final(self).wf(),
            final(self).rooted(),
            final(self).dim == old(self).dim,
            final(self).vertices@.len() >= old(self).vertices@.len(),
            forall|i: int|
                0 <= i < old(self).vertices@.len() ==> final(self).vertices@[i] == old(
                    self,
                ).vertices@[i],
            old(self).edges_within((extend_length + 1) * (extend_length + 1))
                ==> final(self).edges_within((extend_length + 1) * (extend_length + 1)),
            old(self).free_non_roots(*is_free) ==> final(self).free_non_roots(*is_free),
            match st {
                ExtendStatus::Trapped => {
                    &&& *final(self) == *old(self)
                    &&& (grid_stalled(*old(self), q_target@, extend_length as int)
                        || point_rejected(
                        *is_free,
                        extend_candidate(*old(self), q_target@, extend_length as int),
                    ))
                },
                ExtendStatus::Reached(ni) => {
                    &&& ni == old(self).vertices@.len()
                    &&& final(self).vertices@.len() == old(self).vertices@.len() + 1
                    &&& final(self).vertices@[ni as int].data@ == extend_candidate(
                        *old(self),
                        q_target@,
                        extend_length as int,
                    )
                    &&& final(self).parents()[ni as int] == Option::Some(
                        nearest_index_spec(*old(self), q_target@) as usize,
                    )
                    &&& sq_dist(
                        final(self).vertices@[ni as int].data@,
                        old(self).vertices@[nearest_index_spec(*old(self), q_target@)].data@,
                    ) <= (extend_length + 1) * (extend_length + 1)
                    &&& point_free(*is_free, final(self).vertices@[ni as int].data@)
                    &&& sq_dist(final(self).vertices@[ni as int].data@, q_target@) < extend_length
                        * extend_length
                },
                ExtendStatus::Advanced(ni) => {
                    &&& ni == old(self).vertices@.len()
                    &&& final(self).vertices@.len() == old(self).vertices@.len() + 1
                    &&& final(self).vertices@[ni as int].data@ == extend_candidate(
                        *old(self),
                        q_target@,
                        extend_length as int,
                    )
                    &&& final(self).parents()[ni as int] == Option::Some(
                        nearest_index_spec(*old(self), q_target@) as usize,
                    )
                    &&& sq_dist(
                        final(self).vertices@[ni as int].data@,
                        old(self).vertices@[nearest_index_spec(*old(self), q_target@)].data@,
                    ) <= (extend_length + 1) * (extend_length + 1)
                    &&& point_free(*is_free, final(self).vertices@[ni as int].data@)
                    &&& sq_dist(final(self).vertices@[ni as int].data@, q_target@)
                        >= extend_length * extend_length
                    &&& forall|j: int|
                        0 <= j < old(self).vertices@.len() ==> sq_dist(
                            final(self).vertices@[ni as int].data@,
                            q_target@,
                        ) < sq_dist((#[trigger] old(self).vertices@[j]).data@, q_target@)
                },
            },
    {
        proof {
            assert(extend_length * extend_length <= 1_000_000_000_000) by (nonlinear_arith)
                requires
                    1 <= extend_length <= 1_000_000,
            ;
            assert(extend_length * extend_length <= (extend_length + 1) * (extend_length + 1))
                by (nonlinear_arith)
                requires
                    extend_length >= 1,
            ;
        }
        let ell_sq = extend_length * extend_length;
        let nearest_index = self.get_nearest_index(q_target);
        let nearest_q = copy_point(&self.vertices[nearest_index].data);
        let sq = squared_euclidean(&nearest_q, q_target);
        let q_new: Vec<i64>;
        if sq < ell_sq {
            q_new = copy_point(q_target);
            proof {
                lemma_sq_dist_self(q_target@);
            }
        } else {
            q_new = steer(&nearest_q, q_target, extend_length);
            if points_equal(&q_new, &nearest_q) {
                // the grid cannot advance from the nearest vertex
                proof {
                    assert(grid_stalled(*old(self), q_target@, extend_length as int));
                }
                return ExtendStatus::Trapped;
            }
        }
        proof {
            assert(nearest_q@ == old(self).vertices@[nearest_index_spec(
                *old(self),
                q_target@,
            )].data@);
            assert(q_new@ == extend_candidate(*old(self), q_target@, extend_length as int));
        }
        if (*is_free)(&q_new) {
            proof {
                assert(point_free(*is_free, q_new@)) by {
                    assert(q_new@ == q_new@ && call_ensures(*is_free, (&q_new,), true));
                }
            }
            let ghost pre = *self;
            let new_index = self.add_vertex(&q_new);
            proof {
                let ps1 = self.parents();
                assert forall|i: int|
                    0 <= i < ps1.len() implies ((#[trigger] ps1[i]) matches Option::Some(p) ==> p
                    < new_index as int) by {
                    if i < new_index as int {
                        assert(ps1[i] == pre.parents()[i]);
                    }
                }
                lemma_no_chain_above(ps1, nearest_index as int, new_index as int, new_index as int);
            }
            self.add_edge(nearest_index, new_index);
            proof {
                let fin = *self;
                assert forall|i: int| 0 <= i < fin.vertices@.len() implies ((
                #[trigger] fin.parents()[i]) is None <==> i == 0) by {
                    if i < new_index as int {
                        assert(fin.parents()[i] == pre.parents()[i]);
                    }
                }
                assert(fin.vertices@[new_index as int].data@ == q_new@);
                assert(sq_dist(q_new@, nearest_q@) <= (extend_length + 1) * (extend_length + 1))
                    by {
                    if sq < ell_sq {
                        crate::geom::lemma_sq_dist_sym(q_new@, nearest_q@);
                    } else {
                        crate::geom::lemma_sq_dist_sym(nearest_q@, q_new@);
                    }
                }
                if pre.edges_within((extend_length + 1) * (extend_length + 1)) {
                    assert forall|c: int|
                        0 <= c < fin.vertices@.len() implies ((
                    #[trigger] fin.parents()[c]) matches Option::Some(p) ==> sq_dist(
                        fin.vertices@[c].data@,
                        fin.vertices@[p as int].data@,
                    ) <= (extend_length + 1) * (extend_length + 1)) by {
                        if c < new_index as int {
                            assert(fin.parents()[c] == pre.parents()[c]);
                            assert(fin.vertices@[c] == pre.vertices@[c]);
                        } else {
                            assert(fin.parents()[c] == Option::Some(nearest_index));
                        }
                    }
                }
                if pre.free_non_roots(*is_free) {
                    assert forall|c: int| 1 <= c < fin.vertices@.len() implies point_free(
                        *is_free,
                        (#[trigger] fin.vertices@[c]).data@,
                    ) by {
                        if c < new_index as int {
                            assert(fin.vertices@[c] == pre.vertices@[c]);
                        }
                    }
                }
            }
            let sq2 = squared_euclidean(&q_new, q_target);
            if sq2 < ell_sq {
                ExtendStatus::Reached(new_index)
            } else {
                ExtendStatus::Advanced(new_index)
            }
        } else {
            proof {
                assert(point_rejected(*is_free, q_new@)) by {
                    assert(q_new@ == q_new@ && call_ensures(*is_free, (&q_new,), false));
                }
            }
            ExtendStatus::Trapped
        }
    }

    /// Like `extend`, with one local rewiring pass after insertion: every
    /// existing vertex within `extend_length` of the candidate whose current
    /// parent is farther away than the candidate is re-parented onto the new
    /// vertex, unless that vertex is an ancestor of the new vertex (which
    /// would close a cycle in the parent graph).
    pub fn extend_rewire<F: Fn(&Vec<i64>) -> bool>(
        &mut self,
        q_target: &Vec<i64>,
        extend_length: i64,
        is_free: &F,
    ) -> (st: ExtendStatus)
        requires
            old(self).wf(),
            old(self).rooted(),
            old(self).vertices@.len() >= 1,
            q_target@.len() == old(self).dim,
            bounded(q_target@),
            1 <= extend_length <= COORD_LIMIT,
            forall|p: &Vec<i64>| call_requires(*is_free, (p,)),
        ensures
            final(self).wf(),
            final(self).rooted(),
            final(self).dim == old(self).dim,
            final(self).vertices@.len() >= old(self).vertices@.len(),
            forall|i: int|
                0 <= i < old(self).vertices@.len() ==> (#[trigger] final(self).vertices@[i]).data
                    == old(self).vertices@[i].data,
            forall|v: int|
                0 <= v < old(self).vertices@.len() ==> (#[trigger] final(self).parents()[v]) == old(
                    self,
                ).parents()[v] || (final(self).parents()[v] == Option::Some(
                    old(self).vertices@.len() as usize,
                ) && old(self).parents()[v] is Some && sq_dist(
                    old(self).vertices@[v].data@,
                    extend_candidate(*old(self), q_target@, extend_length as int),
                ) <= extend_length * extend_length && sq_dist(
                    extend_candidate(*old(self), q_target@, extend_length as int),
                    old(self).vertices@[v].data@,
                ) < sq_dist(
                    old(self).vertices@[old(self).parents()[v]->Some_0 as int].data@,
                    old(self).vertices@[v].data@,
                )),
            forall|v: int|
                0 <= v < old(self).vertices@.len() && (#[trigger] old(self).parents()[v]) is Some
                    ==> final(self).parents()[v] is Some && sq_dist(
                    old(self).vertices@[v].data@,
                    final(self).vertices@[final(self).parents()[v]->Some_0 as int].data@,
                ) <= sq_dist(
                    old(self).vertices@[v].data@,
                    old(self).vertices@[old(self).parents()[v]->Some_0 as int].data@,
                ),
            !(st is Trapped) ==> forall|v: int|
                0 <= v < old(self).vertices@.len() && #[trigger] rewires_onto(
                    *old(self),
                    q_target@,
                    extend_length as int,
                    v,
                ) ==> final(self).parents()[v] == Option::Some(
                    old(self).vertices@.len() as usize,
                ),
            old(self).edges_within((extend_length + 1) * (extend_length + 1))
                ==> final(self).edges_within((extend_length + 1) * (extend_length + 1)),
            old(self).free_non_roots(*is_free) ==> final(self).free_non_roots(*is_free),
            match st {
                ExtendStatus::Trapped => {
                    &&& *final(self) == *old(self)
                    &&& (grid_stalled(*old(self), q_target@, extend_length as int)
                        || point_rejected(
                        *is_free,
                        extend_candidate(*old(self), q_target@, extend_length as int),
                    ))
                },
                ExtendStatus::Reached(ni) => {
                    &&& ni == old(self).vertices@.len()
                    &&& final(self).vertices@.len() == old(self).vertices@.len() + 1
                    &&& final(self).vertices@[ni as int].data@ == extend_candidate(
                        *old(self),
                        q_target@,
                        extend_length as int,
                    )
                    &&& final(self).parents()[ni as int] == Option::Some(
                        nearest_index_spec(*old(self), q_target@) as usize,
                    )
                    &&& sq_dist(
                        final(self).vertices@[ni as int].data@,
                        old(self).vertices@[nearest_index_spec(*old(self), q_target@)].data@,
                    ) <= (extend_length + 1) * (extend_length + 1)
                    &&& point_free(*is_free, final(self).vertices@[ni as int].data@)
                    &&& sq_dist(final(self).vertices@[ni as int].data@, q_target@) < extend_length
                        * extend_length
                },
                ExtendStatus::Advanced(ni) => {
                    &&& ni == old(self).vertices@.len()
                    &&& final(self).vertices@.len() == old(self).vertices@.len() + 1
                    &&& final(self).vertices@[ni as int].data@ == extend_candidate(
                        *old(self),
                        q_target@,
                        extend_length as int,
                    )
                    &&& final(self).parents()[ni as int] == Option::Some(
                        nearest_index_spec(*old(self), q_target@) as usize,
                    )
                    &&& sq_dist(
                        final(self).vertices@[ni as int].data@,
                        old(self).vertices@[nearest_index_spec(*old(self), q_target@)].data@,
                    ) <= (extend_length + 1) * (extend_length + 1)
                    &&& point_free(*is_free, final(self).vertices@[ni as int].data@)
                    &&& sq_dist(final(self).vertices@[ni as int].data@, q_target@)
                        >= extend_length * extend_length
                },
            },
    {
        proof {
            assert(extend_length * extend_length <= 1_000_000_000_000) by (nonlinear_arith)
                requires
                    1 <= extend_length <= 1_000_000,
            ;
            assert(extend_length * extend_length <= (extend_length + 1) * (extend_length + 1))
                by (nonlinear_arith)
                requires
                    extend_length >= 1,
            ;
        }
        let ell_sq = extend_length * extend_length;
        let ghost bb = (extend_length + 1) * (extend_length + 1);
        let nearest_index = self.get_nearest_index(q_target);
        let nearest_q = copy_point(&self.vertices[nearest_index].data);
        let sq = squared_euclidean(&nearest_q, q_target);
        let q_new: Vec<i64>;
        if sq < ell_sq {
            q_new = copy_point(q_target);
            proof {
                lemma_sq_dist_self(q_target@);
            }
        } else {
            q_new = steer(&nearest_q, q_target, extend_length);
            if points_equal(&q_new, &nearest_q) {
                // the grid cannot advance from the nearest vertex
                proof {
                    assert(grid_stalled(*old(self), q_target@, extend_length as int));
                }
                return ExtendStatus::Trapped;
            }
        }
        proof {
            assert(nearest_q@ == old(self).vertices@[nearest_index_spec(
                *old(self),
                q_target@,
            )].data@);
            assert(q_new@ == extend_candidate(*old(self), q_target@, extend_length as int));
        }
        if (*is_free)(&q_new) {
            proof {
                assert(point_free(*is_free, q_new@)) by {
                    assert(q_new@ == q_new@ && call_ensures(*is_free, (&q_new,), true));
                }
            }
            // gather the existing vertices near the candidate before inserting it
            let neighbors = self.get_nearest_indices_in_radius(&q_new, extend_length);
            let ghost pre = *self;
            let new_index = self.add_vertex(&q_new);
            proof {
                let ps1 = self.parents();
                assert forall|i: int|
                    0 <= i < ps1.len() implies ((#[trigger] ps1[i]) matches Option::Some(p) ==> p
                    < new_index as int) by {
                    if i < new_index as int {
                        assert(ps1[i] == pre.parents()[i]);
                    }
                }
                lemma_no_chain_above(ps1, nearest_index as int, new_index as int, new_index as int);
            }
            self.add_edge(nearest_index, new_index);
            proof {
                let fin = *self;
                assert forall|i: int| 0 <= i < fin.vertices@.len() implies ((
                #[trigger] fin.parents()[i]) is None <==> i == 0) by {
                    if i < new_index as int {
                        assert(fin.parents()[i] == pre.parents()[i]);
                    }
                }
                assert(sq_dist(q_new@, nearest_q@) <= bb) by {
                    if sq < ell_sq {
                        crate::geom::lemma_sq_dist_sym(q_new@, nearest_q@);
                    } else {
                        crate::geom::lemma_sq_dist_sym(nearest_q@, q_new@);
                    }
                }
                if pre.edges_within(bb) {
                    assert forall|c: int|
                        0 <= c < fin.vertices@.len() implies ((
                    #[trigger] fin.parents()[c]) matches Option::Some(p) ==> sq_dist(
                        fin.vertices@[c].data@,
                        fin.vertices@[p as int].data@,
                    ) <= bb) by {
                        if c < new_index as int {
                            assert(fin.parents()[c] == pre.parents()[c]);
                            assert(fin.vertices@[c] == pre.vertices@[c]);
                        } else {
                            assert(fin.parents()[c] == Option::Some(nearest_index));
                        }
                    }
                }
                if pre.free_non_roots(*is_free) {
                    assert forall|c: int| 1 <= c < fin.vertices@.len() implies point_free(
                        *is_free,
                        (#[trigger] fin.vertices@[c]).data@,
                    ) by {
                        if c < new_index as int {
                            assert(fin.vertices@[c] == pre.vertices@[c]);
                        }
                    }
                }
            }
            let ghost mid = *self;
            proof {
                let nrst = nearest_index_spec(*old(self), q_target@);
                assert(forall|v: int|
                    0 <= v < new_index ==> mid.parents()[v] == old(self).parents()[v]
                        && (#[trigger] mid.vertices@[v]).data == old(self).vertices@[v].data);
                assert forall|x: int|
                    #![trigger chain_has(mid.parents(), new_index as int, x)]
                    chain_has(mid.parents(), new_index as int, x) == (x == new_index as int
                        || chain_has(old(self).parents(), nrst, x)) by {
                    if x != new_index as int {
                        lemma_chain_step(mid.parents(), new_index as int, x);
                        assert(mid.parents()[new_index as int] == Option::Some(nearest_index));
                        crate::ancestry::lemma_chain_has_grow_eq(
                            old(self).parents(),
                            mid.parents(),
                            nrst,
                            x,
                        );
                    } else {
                        assert(in_chain(mid.parents(), new_index as int, x, 0));
                    }
                }
            }
            // local rewiring: re-parent near neighbors that end up closer to
            // the new vertex than to their current parent
            let mut k: usize = 0;
            while k < neighbors.len()
                invariant
                    self.wf(),
                    self.rooted(),
                    self.dim == mid.dim,
                    0 <= k <= neighbors@.len(),
                    self.vertices@.len() == mid.vertices@.len(),
                    new_index as int == mid.vertices@.len() - 1,
                    forall|j: int|
                        0 <= j < neighbors@.len() ==> (#[trigger] neighbors@[j]) < new_index,
                    forall|j: int|
                        0 <= j < neighbors@.len() ==> sq_dist(
                            mid.vertices@[neighbors@[j] as int].data@,
                            q_new@,
                        ) <= ell_sq,
                    forall|i: int|
                        0 <= i < self.vertices@.len() ==> (#[trigger] self.vertices@[i]).data
                            == mid.vertices@[i].data,
                    self.vertices@[new_index as int] == mid.vertices@[new_index as int],
                    mid.vertices@[new_index as int].data@ == q_new@,
                    q_new@.len() == self.dim,
                    bounded(q_new@),
                    ell_sq == extend_length * extend_length,
                    ell_sq <= bb,
                    mid.edges_within(bb) ==> self.edges_within(bb),
                    mid.free_non_roots(*is_free) ==> self.free_non_roots(*is_free),
                    forall|j1: int, j2: int|
                        0 <= j1 < j2 < neighbors@.len() ==> neighbors@[j1] < neighbors@[j2],
                    forall|j: int|
                        k <= j < neighbors@.len() ==> self.parents()[#[trigger] neighbors@[j] as int]
                            == mid.parents()[neighbors@[j] as int],
                    forall|v: int|
                        0 <= v < new_index ==> (#[trigger] self.parents()[v]) == mid.parents()[v]
                            || (self.parents()[v] == Option::Some(new_index)
                            && mid.parents()[v] is Some && sq_dist(
                            mid.vertices@[v].data@,
                            q_new@,
                        ) <= ell_sq && sq_dist(q_new@, mid.vertices@[v].data@) < sq_dist(
                            mid.vertices@[mid.parents()[v]->Some_0 as int].data@,
                            mid.vertices@[v].data@,
                        )),
                    forall|v: int|
                        0 <= v < new_index ==> mid.parents()[v] == old(self).parents()[v]
                            && (#[trigger] mid.vertices@[v]).data == old(self).vertices@[v].data,
                    extend_candidate(*old(self), q_target@, extend_length as int) == q_new@,
                    forall|x: int|
                        #![trigger chain_has(mid.parents(), new_index as int, x)]
                        chain_has(mid.parents(), new_index as int, x) == (x == new_index as int
                            || chain_has(
                            old(self).parents(),
                            nearest_index_spec(*old(self), q_target@),
                            x,
                        )),
                    forall|x: int|
                        #![trigger chain_has(self.parents(), new_index as int, x)]
                        chain_has(self.parents(), new_index as int, x) == chain_has(
                            mid.parents(),
                            new_index as int,
                            x,
                        ),
                    forall|j: int|
                        0 <= j < k && rewires_onto(
                            *old(self),
                            q_target@,
                            extend_length as int,
                            (#[trigger] neighbors@[j]) as int,
                        ) ==> self.parents()[neighbors@[j] as int] == Option::Some(new_index),
                decreases neighbors@.len() - k,
            {
                let neighbor_index = neighbors[k];
                match self.vertices[neighbor_index].parent_index {
                    Some(parent_index) => {
                        proof {
                            assert(self.parents()[neighbor_index as int] == Option::Some(
                                parent_index,
                            ));
                        }
                        let neighbor_q = copy_point(&self.vertices[neighbor_index].data);
                        let d_to_new = squared_euclidean(&q_new, &neighbor_q);
                        let d_to_parent = squared_euclidean(
                            &self.vertices[parent_index].data,
                            &neighbor_q,
                        );
                        if d_to_new < d_to_parent {
                            if !self.chain_contains(new_index, neighbor_index) {
                                let ghost before = *self;
                                self.add_edge(new_index, neighbor_index);
                                proof {
                                    let fin = *self;
                                    assert forall|i: int|
                                        0 <= i < fin.vertices@.len() implies ((
                                    #[trigger] fin.parents()[i]) is None <==> i == 0) by {
                                        if i != neighbor_index as int {
                                            assert(fin.parents()[i] == before.parents()[i]);
                                        }
                                    }
                                    crate::geom::lemma_sq_dist_sym(neighbor_q@, q_new@);
                                    if mid.edges_within(bb) {
                                        assert forall|c: int|
                                            0 <= c < fin.vertices@.len() implies ((
                                        #[trigger] fin.parents()[c]) matches Option::Some(p)
                                            ==> sq_dist(
                                            fin.vertices@[c].data@,
                                            fin.vertices@[p as int].data@,
                                        ) <= bb) by {
                                            if c != neighbor_index as int {
                                                assert(fin.parents()[c] == before.parents()[c]);
                                                assert(fin.vertices@[c] == before.vertices@[c]);
                                            } else {
                                                assert(fin.parents()[c] == Option::Some(new_index));
                                                assert(fin.vertices@[c].data@ == neighbor_q@);
                                                assert(fin.vertices@[new_index as int].data@
                                                    == q_new@);
                                            }
                                        }
                                    }
                                    if mid.free_non_roots(*is_free) {
                                        assert forall|c: int|
                                            1 <= c < fin.vertices@.len() implies point_free(
                                            *is_free,
                                            (#[trigger] fin.vertices@[c]).data@,
                                        ) by {
                                            assert(fin.vertices@[c].data
                                                == before.vertices@[c].data);
                                        }
                                    }
                                    assert forall|x: int|
                                        #![trigger chain_has(fin.parents(), new_index as int, x)]
                                        chain_has(fin.parents(), new_index as int, x)
                                            == chain_has(mid.parents(), new_index as int, x) by {
                                        crate::ancestry::lemma_chain_has_update_eq(
                                            before.parents(),
                                            neighbor_index as int,
                                            new_index,
                                            new_index as int,
                                            x,
                                        );
                                    }
                                    assert(neighbor_index == neighbors@[k as int]);
                                    assert(before.parents()[neighbor_index as int]
                                        == mid.parents()[neighbor_index as int]);
                                    assert forall|j: int|
                                        k + 1 <= j < neighbors@.len() implies fin.parents()[
                                    #[trigger] neighbors@[j] as int] == mid.parents()[
                                    neighbors@[j] as int] by {
                                        assert(neighbors@[k as int] < neighbors@[j]);
                                        assert(fin.parents()[neighbors@[j] as int]
                                            == before.parents()[neighbors@[j] as int]);
                                    }
                                    assert forall|v: int|
                                        0 <= v < new_index implies (#[trigger] fin.parents()[v])
                                        == mid.parents()[v] || (fin.parents()[v] == Option::Some(
                                        new_index,
                                    ) && mid.parents()[v] is Some && sq_dist(
                                        mid.vertices@[v].data@,
                                        q_new@,
                                    ) <= ell_sq && sq_dist(q_new@, mid.vertices@[v].data@)
                                        < sq_dist(
                                        mid.vertices@[mid.parents()[v]->Some_0 as int].data@,
                                        mid.vertices@[v].data@,
                                    )) by {
                                        if v == neighbor_index as int {
                                            assert(fin.parents()[v] == Option::Some(new_index));
                                            assert(mid.parents()[v] == Option::Some(parent_index));
                                            assert(neighbor_q@ == mid.vertices@[v].data@);
                                            assert(sq_dist(mid.vertices@[v].data@, q_new@)
                                                <= ell_sq);
                                            assert(before.vertices@[parent_index as int].data
                                                == mid.vertices@[parent_index as int].data);
                                            assert(d_to_new == sq_dist(q_new@, neighbor_q@));
                                            assert(d_to_parent == sq_dist(
                                                mid.vertices@[parent_index as int].data@,
                                                neighbor_q@,
                                            ));
                                        } else {
                                            assert(fin.parents()[v] == before.parents()[v]);
                                        }
                                    }
                                }
                            }
                        }
                    },
                    None => {},
                }
                k = k + 1;
            }
            proof {
                let fin = *self;
                let oldt = *old(self);
                let cand = extend_candidate(oldt, q_target@, extend_length as int);
                assert(cand == q_new@);
                assert forall|v: int| 0 <= v < new_index implies mid.parents()[v]
                    == oldt.parents()[v] && (#[trigger] mid.vertices@[v]).data
                    == oldt.vertices@[v].data by {
                    assert(mid.parents()[v] == pre.parents()[v]);
                    assert(mid.vertices@[v].data == pre.vertices@[v].data);
                }
                assert forall|v: int|
                    0 <= v < new_index && #[trigger] rewires_onto(
                        oldt,
                        q_target@,
                        extend_length as int,
                        v,
                    ) implies fin.parents()[v] == Option::Some(new_index) by {
                    assert(sq_dist(oldt.vertices@[v].data@, q_new@) <= ell_sq);
                    assert(neighbors@.contains(v as usize));
                    let w = choose|w: int| 0 <= w < neighbors@.len() && neighbors@[w] == v as usize;
                    assert(neighbors@[w] as int == v);
                }
                assert forall|v: int|
                    0 <= v < new_index && (#[trigger] oldt.parents()[v]) is Some implies
                    fin.parents()[v] is Some && sq_dist(
                    oldt.vertices@[v].data@,
                    fin.vertices@[fin.parents()[v]->Some_0 as int].data@,
                ) <= sq_dist(
                    oldt.vertices@[v].data@,
                    oldt.vertices@[oldt.parents()[v]->Some_0 as int].data@,
                ) by {
                    let p0 = oldt.parents()[v]->Some_0 as int;
                    assert(0 <= p0 < new_index as int);
                    if fin.parents()[v] == mid.parents()[v] {
                        assert(fin.vertices@[p0].data == oldt.vertices@[p0].data);
                    } else {
                        assert(fin.parents()[v] == Option::Some(new_index));
                        assert(fin.vertices@[new_index as int].data@ == q_new@);
                        crate::geom::lemma_sq_dist_sym(q_new@, oldt.vertices@[v].data@);
                        crate::geom::lemma_sq_dist_sym(
                            oldt.vertices@[p0].data@,
                            oldt.vertices@[v].data@,
                        );
                    }
                }
            }
            let sq2 = squared_euclidean(&q_new, q_target);
            if sq2 < ell_sq {
                ExtendStatus::Reached(new_index)
            } else {
                ExtendStatus::Advanced(new_index)
            }
        } else {
            proof {
                assert(point_rejected(*is_free, q_new@)) by {
                    assert(q_new@ == q_new@ && call_ensures(*is_free, (&q_new,), false));
                }
            }
            ExtendStatus::Trapped
        }
    }

    /// Repeatedly extend toward `q_target` until the step is trapped or the
    /// target is reached; advances are consumed silently.  A trapped outcome
    /// means the last step's candidate was rejected by the predicate or the
    /// grid could not advance from the nearest vertex; under a predicate that
    /// accepts everything, only the grid stall can end the loop short of the
    /// target.
    pub fn connect<F: Fn(&Vec<i64>) -> bool>(
        &mut self,
        q_target: &Vec<i64>,
        extend_length: i64,
        is_free: &F,
    ) -> (st: ExtendStatus)
        requires
            old(self).wf(),
            old(self).rooted(),
            old(self).vertices@.len() >= 1,
            q_target@.len() == old(self).dim,
            bounded(q_target@),
            1 <= extend_length <= COORD_LIMIT,
            forall|p: &Vec<i64>| call_requires(*is_free, (p,)),
        ensures
            final(self).wf(),
            final(self).rooted(),
            final(self).dim == old(self).dim,
            final(self).vertices@.len() >= old(self).vertices@.len(),
            forall|i: int|
                0 <= i < old(self).vertices@.len() ==> final(self).vertices@[i] == old(
                    self,
                ).vertices@[i],
            old(self).edges_within((extend_length + 1) * (extend_length + 1))
                ==> final(self).edges_within((extend_length + 1) * (extend_length + 1)),
            old(self).free_non_roots(*is_free) ==> final(self).free_non_roots(*is_free),
            !(st is Advanced),
            match st {
                ExtendStatus::Trapped => grid_stalled(*final(self), q_target@, extend_length as int)
                    || point_rejected(
                    *is_free,
                    extend_candidate(*final(self), q_target@, extend_length as int),
                ),
                ExtendStatus::Reached(ni) => {
                    &&& 1 <= ni < final(self).vertices@.len()
                    &&& old(self).vertices@.len() <= ni
                    &&& point_free(*is_free, final(self).vertices@[ni as int].data@)
                    &&& sq_dist(final(self).vertices@[ni as int].data@, q_target@) < extend_length
                        * extend_length
                },
                ExtendStatus::Advanced(_) => false,
            },
    {
        proof {
            lemma_sq_dist_nonneg(
                self.vertices@[self.vertices@.len() - 1].data@,
                q_target@,
            );
        }
        loop
            invariant
                self.wf(),
                self.rooted(),
                self.dim == old(self).dim,
                self.vertices@.len() >= 1,
                self.vertices@.len() >= old(self).vertices@.len(),
                forall|i: int|
                    0 <= i < old(self).vertices@.len() ==> self.vertices@[i] == old(
                        self,
                    ).vertices@[i],
                old(self).edges_within((extend_length + 1) * (extend_length + 1))
                    ==> self.edges_within((extend_length + 1) * (extend_length + 1)),
                old(self).free_non_roots(*is_free) ==> self.free_non_roots(*is_free),
                q_target@.len() == self.dim,
                bounded(q_target@),
                1 <= extend_length <= COORD_LIMIT,
                forall|p: &Vec<i64>| call_requires(*is_free, (p,)),
                sq_dist(self.vertices@[self.vertices@.len() - 1].data@, q_target@) >= 0,
            decreases sq_dist(self.vertices@[self.vertices@.len() - 1].data@, q_target@),
        {
            let ghost last = self.vertices@.len() - 1;
            let st = self.extend(q_target, extend_length, is_free);
            match st {
                ExtendStatus::Trapped => {
                    return ExtendStatus::Trapped;
                },
                ExtendStatus::Reached(idx) => {
                    return ExtendStatus::Reached(idx);
                },
                ExtendStatus::Advanced(ni) => {
                    proof {
                        lemma_sq_dist_nonneg(
                            self.vertices@[self.vertices@.len() - 1].data@,
                            q_target@,
                        );
                        assert(sq_dist(self.vertices@[ni as int].data@, q_target@) < sq_dist(
                            self.vertices@[last].data@,
                            q_target@,
                        ));
                    }
                },
            }
        }
    }
}

} // verus!
