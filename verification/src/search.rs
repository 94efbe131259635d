//! One simulation: choosing a path down the tree, generating the moves of the leaf,
//! and carrying its value back up.
//!
//! The arithmetic on priors and values is somebody else's; what it is applied to, and
//! where the results go, is decided here.

use crate::arith::{softmax_fits, Arithmetic};
use crate::ieee::{greater, gt, is_nan, is_peak, neg, negated, Real, Real32, NEG_INFINITY, ZERO};
use crate::tree::{
    arena_wf, bushy, child, fresh_node, links_ok, nodes, visits_within, Node, NodeView, POLICY_SIZE,
};
use vstd::prelude::*;

verus! {

/// What a score sees of the parent: its visit count, at least one.
pub open spec fn parent_visits(n: NodeView) -> u32 {
    if n.visit_count > 1 {
        n.visit_count
    } else {
        1
    }
}

/// `scores` holds what the score gives for each child of node `n`.
pub open spec fn scored<A: Arithmetic>(
    arena: Seq<Node>,
    n: int,
    arith: A,
    scores: Seq<Real>,
) -> bool {
    &&& scores.len() == arena[n].children@.len()
    &&& forall|j: int|
        0 <= j < scores.len() ==> call_ensures(
            A::score,
            (&arith, parent_visits(arena[n]@), &arena[child(nodes(arena), n, j)]),
            #[trigger] scores[j],
        )
}

/// `choice` is the edge with the first of the largest scores; `None` when no score
/// exceeds negative infinity.
pub open spec fn best_edge(
    edges: Seq<(u16, u32)>,
    scores: Seq<Real>,
    choice: Option<(u16, usize)>,
) -> bool {
    match choice {
        Some((handle, c)) => exists|p: int|
            #[trigger] is_peak(scores, p) && edges[p].0 == handle && edges[p].1 == c,
        None => forall|i: int|
            0 <= i < scores.len() ==> !greater(#[trigger] scores[i], NEG_INFINITY),
    }
}

/// Scoring the children of node `n` leads to `choice`.
pub open spec fn selects<A: Arithmetic>(
    arena: Seq<Node>,
    n: int,
    arith: A,
    choice: Option<(u16, usize)>,
) -> bool {
    exists|scores: Seq<Real>| #[trigger]
        scored(arena, n, arith, scores) && best_edge(arena[n].children@, scores, choice)
}

/// The child with the highest score, the first one on ties. The score is given the
/// parent's visit count, at least one, and the child.
pub fn select_child<A: Arithmetic>(
    arena: &[Node],
    node_idx: usize,
    arith: &A,
) -> (best: Option<(u16, usize)>)
    requires
        links_ok(nodes(arena@), 0, arena@.len() as int),
        node_idx < arena@.len(),
    ensures
        selects(arena@, node_idx as int, *arith, best),
        best matches Some((_, c)) ==> node_idx < c < arena@.len(),
{
    let node = &arena[node_idx];
    let parent: u32 = if node.visit_count > 1 {
        node.visit_count
    } else {
        1
    };
    let mut best: Option<(u16, usize)> = None;
    let mut best_score: Real = NEG_INFINITY;
    let ghost mut scores: Seq<Real> = Seq::empty();
    let ghost mut at: int = -1;
    let mut j: usize = 0;
    while j < node.children.len()
        invariant
            links_ok(nodes(arena@), 0, arena@.len() as int),
            node_idx < arena@.len(),
            *node == arena@[node_idx as int],
            parent == parent_visits(node@),
            0 <= j <= node.children@.len(),
            scores.len() == j,
            forall|k: int|
                0 <= k < j ==> call_ensures(
                    A::score,
                    (arith, parent, &arena@[child(nodes(arena@), node_idx as int, k)]),
                    #[trigger] scores[k],
                ),
            best is None ==> best_score == NEG_INFINITY && forall|k: int|
                0 <= k < j ==> !greater(#[trigger] scores[k], NEG_INFINITY),
            best matches Some((h, c)) ==> {
                &&& is_peak(scores, at)
                &&& best_score == scores[at]
                &&& node.children@[at].0 == h
                &&& node.children@[at].1 == c
                &&& node_idx < c < arena@.len()
            },
        decreases node.children@.len() - j,
    {
        let (handle, child_idx) = node.children[j];
        assert(child_idx == child(nodes(arena@), node_idx as int, j as int));
        let s = arith.score(parent, &arena[child_idx as usize]);
        let ghost earlier = scores;
        proof {
            scores = scores.push(s);
            assert(forall|k: int| 0 <= k < j ==> scores[k] == #[trigger] earlier[k]);
        }
        if gt(s, best_score) {
            best_score = s;
            best = Some((handle, child_idx as usize));
            proof {
                at = j as int;
                assert forall|k: int| 0 <= k < scores.len() implies !greater(
                    #[trigger] scores[k],
                    scores[at],
                ) by {
                    if k < j {
                        assert(scores[k] == earlier[k]);
                    }
                }
                assert forall|k: int| 0 <= k < at implies is_nan(#[trigger] scores[k])
                    || greater(scores[at], scores[k]) by {
                    assert(scores[k] == earlier[k]);
                }
            }
        } else if best.is_some() {
            proof {
                assert(scores[at] == earlier[at]);
                assert forall|k: int| 0 <= k < scores.len() implies !greater(
                    #[trigger] scores[k],
                    scores[at],
                ) by {
                    if k < j {
                        assert(scores[k] == earlier[k]);
                    }
                }
                assert forall|k: int| 0 <= k < at implies is_nan(#[trigger] scores[k])
                    || greater(scores[at], scores[k]) by {
                    assert(scores[k] == earlier[k]);
                }
            }
        }
        j += 1;
    }
    assert(scored(arena@, node_idx as int, *arith, scores));
    best
}

/// A selected child has the first of the highest scores. The score of a child is asked for with
/// the visit count of its parent, or with one when the parent has none, and with the child itself.
pub proof fn selected_children_score_highest<A: Arithmetic>(
    arena: Seq<Node>,
    n: int,
    arith: A,
    handle: u16,
    c: usize,
) -> (found: (Seq<Real>, int))
    requires
        0 <= n < arena.len(),
        selects(arena, n, arith, Some((handle, c))),
    ensures
        ({
            let (scores, p) = found;
            let visits: u32 = if arena[n].visit_count == 0 {
                1
            } else {
                arena[n].visit_count
            };
            &&& scores.len() == arena[n].children@.len()
            &&& forall|j: int|
                0 <= j < scores.len() ==> call_ensures(
                    A::score,
                    (&arith, visits, &arena[arena[n].children@[j].1 as int]),
                    #[trigger] scores[j],
                )
            &&& 0 <= p < scores.len()
            &&& arena[n].children@[p].0 == handle
            &&& arena[n].children@[p].1 == c
            &&& greater(scores[p], NEG_INFINITY)
            &&& forall|j: int| 0 <= j < scores.len() ==> !greater(#[trigger] scores[j], scores[p])
            &&& forall|j: int|
                0 <= j < p ==> is_nan(#[trigger] scores[j]) || greater(scores[p], scores[j])
        }),
{
    let choice: Option<(u16, usize)> = Some((handle, c));
    let scores = choose|scores: Seq<Real>| #[trigger]
        scored(arena, n, arith, scores) && best_edge(arena[n].children@, scores, choice);
    let p = choose|p: int|
        #[trigger] is_peak(scores, p) && arena[n].children@[p].0 == handle
            && arena[n].children@[p].1 == c;
    lemma_scores(arena, n, arith, scores);
    (scores, p)
}

/// No child is selected only where none has a score above negative infinity.
pub proof fn children_without_a_score_are_not_selected<A: Arithmetic>(
    arena: Seq<Node>,
    n: int,
    arith: A,
) -> (scores: Seq<Real>)
    requires
        0 <= n < arena.len(),
        selects(arena, n, arith, None),
    ensures
        scores.len() == arena[n].children@.len(),
        forall|j: int|
            0 <= j < scores.len() ==> call_ensures(
                A::score,
                (
                    &arith,
                    if arena[n].visit_count == 0 {
                        1u32
                    } else {
                        arena[n].visit_count
                    },
                    &arena[arena[n].children@[j].1 as int],
                ),
                #[trigger] scores[j],
            ) && !greater(scores[j], NEG_INFINITY),
{
    let scores = choose|scores: Seq<Real>| #[trigger]
        scored(arena, n, arith, scores) && best_edge(arena[n].children@, scores, None);
    lemma_scores(arena, n, arith, scores);
    scores
}

proof fn lemma_scores<A: Arithmetic>(arena: Seq<Node>, n: int, arith: A, scores: Seq<Real>)
    requires
        0 <= n < arena.len(),
        scored(arena, n, arith, scores),
    ensures
        forall|j: int|
            0 <= j < scores.len() ==> call_ensures(
                A::score,
                (
                    &arith,
                    if arena[n].visit_count == 0 {
                        1u32
                    } else {
                        arena[n].visit_count
                    },
                    &arena[arena[n].children@[j].1 as int],
                ),
                #[trigger] scores[j],
            ),
{
    let visits: u32 = if arena[n].visit_count == 0 {
        1
    } else {
        arena[n].visit_count
    };
    assert(parent_visits(arena[n]@) == visits);
    assert forall|j: int| 0 <= j < scores.len() implies call_ensures(
        A::score,
        (&arith, visits, &arena[arena[n].children@[j].1 as int]),
        #[trigger] scores[j],
    ) by {
        let c = child(nodes(arena), n, j);
        assert(call_ensures(A::score, (&arith, parent_visits(arena[n]@), &arena[c]), scores[j]));
        assert(nodes(arena)[n] == arena[n]@);
    }
}

/// From `path[0]`, every step of the path goes to the child that the scores select,
/// playing the handle of that edge.
pub open spec fn descends<A: Arithmetic>(
    arena: Seq<Node>,
    arith: A,
    path: Seq<usize>,
    handles: Seq<u16>,
) -> bool {
    &&& path.len() == handles.len() + 1
    &&& forall|k: int| 0 <= k < path.len() ==> 0 <= #[trigger] path[k] < arena.len()
    &&& forall|k: int|
        0 <= k < handles.len() ==> #[trigger] steps_down(arena, arith, path, handles, k)
}

/// The `k`-th step of a descent: from an inner node to its selected child.
pub open spec fn steps_down<A: Arithmetic>(
    arena: Seq<Node>,
    arith: A,
    path: Seq<usize>,
    handles: Seq<u16>,
    k: int,
) -> bool {
    &&& is_inner(arena[path[k] as int]@)
    &&& path[k] < path[k + 1]
    &&& selects(arena, path[k] as int, arith, Some((handles[k], path[k + 1])))
}

/// A node that a descent does not stop at.
pub open spec fn is_inner(n: NodeView) -> bool {
    n.expanded && n.children.len() > 0
}

/// Walks greedily down from `root_idx` until a node without generated moves or
/// without any moves. Returns the indices on the way and the handles of the moves
/// played between them; `None` when some node on the way has no selectable child.
pub fn walk_to_leaf<A: Arithmetic>(
    arena: &[Node],
    root_idx: usize,
    arith: &A,
) -> (walk: Option<(Vec<usize>, Vec<u16>)>)
    requires
        links_ok(nodes(arena@), 0, arena@.len() as int),
        root_idx < arena@.len(),
    ensures
        match walk {
            Some((path, handles)) => {
                &&& path@[0] == root_idx
                &&& descends(arena@, *arith, path@, handles@)
                &&& ascending(path@)
                &&& !is_inner(arena@[path@.last() as int]@)
            },
            None => exists|path: Seq<usize>, handles: Seq<u16>|
                {
                    &&& #[trigger] descends(arena@, *arith, path, handles)
                    &&& path[0] == root_idx
                    &&& is_inner(arena@[path.last() as int]@)
                    &&& selects(arena@, path.last() as int, *arith, None)
                },
        },
{
    let mut path: Vec<usize> = Vec::new();
    path.push(root_idx);
    let mut handles: Vec<u16> = Vec::new();
    let mut node_idx: usize = root_idx;
    while arena[node_idx].expanded && arena[node_idx].children.len() > 0
        invariant
            links_ok(nodes(arena@), 0, arena@.len() as int),
            node_idx < arena@.len(),
            path@.len() > 0,
            path@[0] == root_idx,
            path@.last() == node_idx,
            descends(arena@, *arith, path@, handles@),
        decreases arena@.len() - node_idx,
    {
        match select_child(arena, node_idx, arith) {
            Some((handle, child_idx)) => {
                let ghost earlier = (path@, handles@);
                path.push(child_idx);
                handles.push(handle);
                node_idx = child_idx;
                proof {
                    assert forall|k: int| 0 <= k < path@.len() implies 0 <= #[trigger] path@[k]
                        < arena@.len() by {
                        if k < earlier.0.len() {
                            assert(path@[k] == earlier.0[k]);
                        }
                    }
                    assert forall|k: int| 0 <= k < handles@.len() implies #[trigger] steps_down(
                        arena@,
                        *arith,
                        path@,
                        handles@,
                        k,
                    ) by {
                        if k < earlier.1.len() {
                            assert(steps_down(arena@, *arith, earlier.0, earlier.1, k));
                            assert(handles@[k] == earlier.1[k]);
                            assert(path@[k] == earlier.0[k]);
                            assert(path@[k + 1] == earlier.0[k + 1]);
                        }
                    }
                }
            },
            None => {
                assert(descends(arena@, *arith, path@, handles@));
                return None;
            },
        }
    }
    proof {
        descents_ascend(arena@, *arith, path@, handles@);
    }
    Some((path, handles))
}

/// A descent never visits a node twice: its indices ascend.
pub proof fn descents_ascend<A: Arithmetic>(
    arena: Seq<Node>,
    arith: A,
    path: Seq<usize>,
    handles: Seq<u16>,
)
    requires
        descends(arena, arith, path, handles),
    ensures
        ascending(path),
    decreases path.len(),
{
    if path.len() > 1 {
        let front = path.drop_last();
        let played = handles.drop_last();
        assert forall|k: int| 0 <= k < front.len() implies 0 <= #[trigger] front[k] < arena.len() by {
            assert(path[k] < arena.len());
        }
        assert forall|k: int| 0 <= k < played.len() implies #[trigger] steps_down(
            arena,
            arith,
            front,
            played,
            k,
        ) by {
            assert(steps_down(arena, arith, path, handles, k));
            assert(front[k + 1] == path[k + 1]);
        }
        descents_ascend(arena, arith, front, played);
        assert forall|k: int, l: int| 0 <= k < l < path.len() implies #[trigger] path[k]
            < #[trigger] path[l] by {
            assert(steps_down(arena, arith, path, handles, path.len() - 2));
            if l < front.len() {
                assert(front[k] < front[l]);
            } else if k < path.len() - 2 {
                assert(front[k] < front[path.len() - 2]);
            }
        }
    }
}

/// The path is the way from the root to a leaf of the tree.
pub open spec fn walks<A: Arithmetic>(
    arena: Seq<Node>,
    arith: A,
    path: Seq<usize>,
    handles: Seq<u16>,
) -> bool {
    &&& descends(arena, arith, path, handles)
    &&& path[0] == 0
    &&& !is_inner(arena[path.last() as int]@)
}

/// The way of a search starts at the root and ends at the first node whose moves were not
/// generated or that has none. Each step from a node goes to the child that is selected there,
/// by the handle of that child.
pub proof fn ways_end_at_a_leaf<A: Arithmetic>(
    arena: Seq<Node>,
    arith: A,
    path: Seq<usize>,
    handles: Seq<u16>,
)
    requires
        walks(arena, arith, path, handles),
    ensures
        path.len() == handles.len() + 1,
        path[0] == 0,
        !arena[path.last() as int].expanded || arena[path.last() as int].children@.len() == 0,
        forall|k: int|
            0 <= k < handles.len() ==> arena[#[trigger] path[k] as int].expanded
                && arena[path[k] as int].children@.len() > 0,
        forall|k: int|
            0 <= k < handles.len() ==> selects(
                arena,
                path[k] as int,
                arith,
                Some((#[trigger] handles[k], path[k + 1])),
            ),
{
    assert forall|k: int| 0 <= k < handles.len() implies arena[#[trigger] path[k] as int].expanded
        && arena[path[k] as int].children@.len() > 0 by {
        assert(steps_down(arena, arith, path, handles, k));
    }
    assert forall|k: int| 0 <= k < handles.len() implies selects(
        arena,
        path[k] as int,
        arith,
        Some((#[trigger] handles[k], path[k + 1])),
    ) by {
        assert(steps_down(arena, arith, path, handles, k));
    }
}

/// The way from the root ends at a node with children of which none can be selected.
pub open spec fn blocked<A: Arithmetic>(arena: Seq<Node>, arith: A) -> bool {
    exists|path: Seq<usize>, handles: Seq<u16>|
        {
            &&& #[trigger] descends(arena, arith, path, handles)
            &&& path[0] == 0
            &&& is_inner(arena[path.last() as int]@)
            &&& selects(arena, path.last() as int, arith, None)
        }
}

// --- expansion ---------------------------------------------------------------

/// A legal move: its handle and its policy index.
pub type Move = (u16, i32);

/// Every move has a policy index.
pub open spec fn moves_ok(legal: Seq<Move>) -> bool {
    forall|j: int| 0 <= j < legal.len() ==> 0 <= (#[trigger] legal[j]).1 < POLICY_SIZE
}

/// The logits of the legal moves, in the order of the moves.
pub open spec fn gathered(legal: Seq<Move>, logits: Seq<Real32>) -> Seq<Real32> {
    Seq::new(legal.len(), |j: int| logits[legal[j].1 as int])
}

/// Picks out the logits of the legal moves, in the order of the moves.
pub fn legal_logits(legal: &Vec<Move>, logits: &[Real32]) -> (out: Vec<Real32>)
    requires
        moves_ok(legal@),
        logits@.len() == POLICY_SIZE,
    ensures
        out@ == gathered(legal@, logits@),
        out@.len() == legal@.len(),
        forall|j: int|
            0 <= j < legal@.len() ==> #[trigger] out@[j] == logits@[legal@[j].1 as int],
{
    let mut out: Vec<Real32> = Vec::new();
    let mut j: usize = 0;
    while j < legal.len()
        invariant
            moves_ok(legal@),
            logits@.len() == POLICY_SIZE,
            0 <= j <= legal@.len(),
            out@ == gathered(legal@, logits@).take(j as int),
        decreases legal@.len() - j,
    {
        let (_, index) = legal[j];
        assert(legal@[j as int].1 == index);
        out.push(logits[index as usize]);
        assert(out@ =~= gathered(legal@, logits@).take(j + 1));
        j += 1;
    }
    assert(out@ =~= gathered(legal@, logits@));
    out
}

/// How many moves receive a prior.
pub open spec fn paired(legal: Seq<Move>, priors: Seq<Real>) -> nat {
    if priors.len() < legal.len() {
        priors.len()
    } else {
        legal.len()
    }
}

/// The links to the children that an expansion appends to an arena of `len` nodes.
pub open spec fn new_edges(len: nat, legal: Seq<Move>, priors: Seq<Real>) -> Seq<(u16, u32)> {
    Seq::new(paired(legal, priors), |j: int| (legal[j].0, (len + j) as u32))
}

/// The arena once node `n` was expanded: one fresh child per move, appended in order.
pub open spec fn expanded_at(
    a: Seq<NodeView>,
    n: int,
    legal: Seq<Move>,
    priors: Seq<Real>,
) -> Seq<NodeView> {
    a.update(
        n,
        NodeView {
            expanded: true,
            children: a[n].children + new_edges(a.len(), legal, priors),
            ..a[n]
        },
    ) + Seq::new(paired(legal, priors), |j: int| fresh_node(priors[j], legal[j].1))
}

/// Expansion keeps the arena well-formed.
pub proof fn expansion_keeps_the_tree(
    a: Seq<NodeView>,
    n: int,
    legal: Seq<Move>,
    priors: Seq<Real>,
)
    requires
        arena_wf(a),
        0 <= n < a.len(),
        moves_ok(legal),
        a.len() + legal.len() <= u32::MAX,
    ensures
        arena_wf(expanded_at(a, n, legal, priors)),
{
    let b = expanded_at(a, n, legal, priors);
    let old_n = a[n].children.len();
    assert forall|i: int, j: int| 0 <= i < b.len() && 0 <= j < b[i].children.len() implies {
        &&& i < #[trigger] child(b, i, j) < b.len()
        &&& i < a.len()
        &&& (i != n || j < old_n) ==> child(b, i, j) == child(a, i, j)
        &&& (i == n && j >= old_n) ==> child(b, i, j) == a.len() + (j - old_n)
    } by {
        if i < a.len() && (i != n || j < old_n) {
            assert(child(b, i, j) == child(a, i, j));
        }
    }
    assert forall|i: int, j: int, k: int, l: int|
        0 <= i < b.len() && 0 <= k < b.len() && 0 <= j < b[i].children.len() && 0 <= l
            < b[k].children.len() && #[trigger] child(b, i, j) == #[trigger] child(
            b,
            k,
            l,
        ) implies i == k && j == l by {
        if i != n || j < old_n {
            assert(child(a, i, j) == child(b, i, j));
        }
        if k != n || l < old_n {
            assert(child(a, k, l) == child(b, k, l));
        }
    }
    assert forall|i: int, j: int| 0 <= i < b.len() && 0 <= j < b[i].children.len() implies 0
        <= b[#[trigger] child(b, i, j)].move_index < POLICY_SIZE by {
        if i != n || j < old_n {
            assert(child(a, i, j) == child(b, i, j));
        } else {
            assert(b[child(b, i, j)] == fresh_node(priors[j - old_n], legal[j - old_n].1));
        }
    }
    assert forall|i: int| 0 <= i < b.len() && (#[trigger] b[i]).children.len() > 0 implies b[i].expanded by {
        if i < a.len() {
            assert(a[i].children.len() > 0 ==> a[i].expanded);
        }
    }
}

/// Marks a node as expanded and gives it one fresh child per move, in order, each
/// with its prior.
pub fn attach_children(
    arena: &mut Vec<Node>,
    node_idx: usize,
    legal: &Vec<Move>,
    priors: &Vec<Real>,
)
    requires
        arena_wf(nodes(old(arena)@)),
        node_idx < old(arena)@.len(),
        moves_ok(legal@),
        old(arena)@.len() + legal@.len() <= u32::MAX,
    ensures
        nodes(final(arena)@) == expanded_at(
            nodes(old(arena)@),
            node_idx as int,
            legal@,
            priors@,
        ),
        arena_wf(nodes(final(arena)@)),
{
    let ghost a = nodes(arena@);
    let ghost len = arena@.len();
    let mut j: usize = 0;
    while j < legal.len() && j < priors.len()
        invariant
            node_idx < len,
            len == a.len(),
            len + legal@.len() <= u32::MAX,
            0 <= j <= paired(legal@, priors@),
            nodes(arena@) == a.update(
                node_idx as int,
                NodeView {
                    children: a[node_idx as int].children + new_edges(
                        len,
                        legal@,
                        priors@,
                    ).take(j as int),
                    ..a[node_idx as int]
                },
            ) + Seq::new(j as nat, |k: int| fresh_node(priors@[k], legal@[k].1)),
        decreases legal@.len() - j,
    {
        let ghost before = nodes(arena@);
        let cidx = arena.len() as u32;
        assert(before.len() == arena@.len());
        let (handle, index) = legal[j];
        arena.push(Node::new(priors[j], index));
        arena[node_idx].children.push((handle, cidx));
        proof {
            let edges = new_edges(len, legal@, priors@);
            assert(edges.take(j + 1) =~= edges.take(j as int).push((handle, cidx)));
            assert(a[node_idx as int].children + edges.take(j + 1) =~= (a[node_idx as int].children
                + edges.take(j as int)).push((handle, cidx)));
            let want = a.update(
                node_idx as int,
                NodeView {
                    children: a[node_idx as int].children + edges.take(j + 1),
                    ..a[node_idx as int]
                },
            ) + Seq::new((j + 1) as nat, |k: int| fresh_node(priors@[k], legal@[k].1));
            assert forall|k: int| 0 <= k < want.len() implies #[trigger] nodes(arena@)[k]
                == want[k] by {
                if k < before.len() && k != node_idx {
                    assert(before[k] == nodes(arena@)[k]);
                } else if k == node_idx {
                    assert(before[k].children == a[node_idx as int].children + edges.take(
                        j as int,
                    ));
                }
            }
            assert(nodes(arena@) =~= want);
        }
        j += 1;
    }
    let ghost before = nodes(arena@);
    arena[node_idx].expanded = true;
    proof {
        let edges = new_edges(len, legal@, priors@);
        assert(edges.take(j as int) =~= edges);
        let want = expanded_at(a, node_idx as int, legal@, priors@);
        assert forall|k: int| 0 <= k < want.len() implies #[trigger] nodes(arena@)[k] == want[k] by {
            if k != node_idx {
                assert(before[k] == nodes(arena@)[k]);
            } else {
                assert(before[k].children == a[k].children + edges);
            }
        }
        assert(nodes(arena@) =~= want);
        expansion_keeps_the_tree(a, node_idx as int, legal@, priors@);
    }
}

/// What an expansion with the given policy row makes of an arena: the priors are what
/// the softmax gives for the logits of the legal moves. Without a legal move the
/// node is only marked.
pub open spec fn expands<A: Arithmetic>(
    before: Seq<NodeView>,
    after: Seq<NodeView>,
    n: int,
    legal: Seq<Move>,
    logits: Seq<Real32>,
    arith: A,
) -> bool {
    if legal.len() == 0 {
        after == expanded_at(before, n, legal, Seq::empty())
    } else {
        exists|row: Vec<Real32>, priors: Vec<Real>| #[trigger]
            call_ensures(A::softmax, (&arith, &row), priors) && row@ == gathered(legal, logits) && after
                == expanded_at(before, n, legal, priors@)
    }
}

/// What an expansion does, move by move. The softmax is asked about one row, whose `j`-th entry
/// is the policy entry at the policy index of the `j`-th legal move. The `j`-th new child is
/// reached by the handle of the `j`-th move, holds its policy index, and has as its prior the
/// `j`-th answer. Every other node stays as it is.
pub proof fn priors_belong_to_their_moves<A: Arithmetic>(
    before: Seq<NodeView>,
    after: Seq<NodeView>,
    n: int,
    legal: Seq<Move>,
    logits: Seq<Real32>,
    arith: A,
) -> (asked: (Vec<Real32>, Vec<Real>))
    requires
        expands(before, after, n, legal, logits, arith),
        softmax_fits(arith),
        0 <= n < before.len(),
        before.len() + legal.len() <= u32::MAX,
    ensures
        after.len() == before.len() + legal.len(),
        after[n].expanded,
        after[n].visit_count == before[n].visit_count,
        after[n].value_sum == before[n].value_sum,
        after[n].prior == before[n].prior,
        after[n].move_index == before[n].move_index,
        after[n].children.len() == before[n].children.len() + legal.len(),
        forall|k: int|
            0 <= k < before[n].children.len() ==> #[trigger] after[n].children[k]
                == before[n].children[k],
        forall|i: int| 0 <= i < before.len() && i != n ==> #[trigger] after[i] == before[i],
        legal.len() > 0 ==> {
            let (row, priors) = asked;
            &&& call_ensures(A::softmax, (&arith, &row), priors)
            &&& row@.len() == legal.len()
            &&& priors@.len() == legal.len()
            &&& forall|j: int|
                0 <= j < legal.len() ==> #[trigger] row@[j] == logits[legal[j].1 as int]
            &&& forall|j: int|
                #![trigger legal[j]]
                0 <= j < legal.len() ==> {
                    &&& after[before.len() + j].move_index == legal[j].1
                    &&& row@[j] == logits[after[before.len() + j].move_index as int]
                    &&& after[before.len() + j].prior == priors@[j]
                    &&& after[before.len() + j].visit_count == 0
                    &&& after[before.len() + j].value_sum == ZERO
                    &&& !after[before.len() + j].expanded
                    &&& !after[before.len() + j].noised
                    &&& after[before.len() + j].children.len() == 0
                    &&& after[n].children[before[n].children.len() + j].0 == legal[j].0
                    &&& after[n].children[before[n].children.len() + j].1 == before.len() + j
                }
        },
{
    let (row, priors) = choose|row: Vec<Real32>, priors: Vec<Real>| #[trigger]
        call_ensures(A::softmax, (&arith, &row), priors) && row@ == gathered(legal, logits) && after
            == expanded_at(before, n, legal, priors@);
    if legal.len() > 0 {
        assert(priors@.len() == row@.len());
        assert forall|j: int|
            #![trigger legal[j]]
            0 <= j < legal.len() implies after[before.len() + j] == fresh_node(
            priors@[j],
            legal[j].1,
        ) && after[n].children[before[n].children.len() + j] == (
            legal[j].0,
            (before.len() + j) as u32,
        ) by {}
    }
    (row, priors)
}

/// Generates the children of a node from the legal moves of its position, with the
/// softmax of their logits as priors.
pub fn expand_node<A: Arithmetic>(
    arena: &mut Vec<Node>,
    node_idx: usize,
    legal: &Vec<Move>,
    logits: &[Real32],
    arith: &A,
)
    requires
        arena_wf(nodes(old(arena)@)),
        node_idx < old(arena)@.len(),
        moves_ok(legal@),
        logits@.len() == POLICY_SIZE,
        old(arena)@.len() + legal@.len() <= u32::MAX,
    ensures
        expands(
            nodes(old(arena)@),
            nodes(final(arena)@),
            node_idx as int,
            legal@,
            logits@,
            *arith,
        ),
        arena_wf(nodes(final(arena)@)),
        old(arena)@.len() <= final(arena)@.len() <= old(arena)@.len() + legal@.len(),
        final(arena)@[node_idx as int].expanded,
        forall|i: int|
            0 <= i < old(arena)@.len() && i != node_idx ==> (#[trigger] final(arena)@[i])@
                == old(arena)@[i]@,
        bushy(nodes(old(arena)@)) && softmax_fits(*arith) && legal@.len() > 0 ==> bushy(
            nodes(final(arena)@),
        ),
        forall|bound: int|
            bound >= 0 && visits_within(nodes(old(arena)@), bound) ==> visits_within(
                nodes(final(arena)@),
                bound,
            ),
{
    let ghost a = nodes(arena@);
    if legal.len() > 0 {
        let row = legal_logits(legal, logits);
        let priors = arith.softmax(&row);
        attach_children(arena, node_idx, legal, &priors);
        assert(call_ensures(A::softmax, (arith, &row), priors));
    } else {
        let none: Vec<Real> = Vec::new();
        attach_children(arena, node_idx, legal, &none);
        assert(none@ =~= Seq::<Real>::empty());
    }
    proof {
        let b = nodes(arena@);
        assert forall|i: int| 0 <= i < a.len() && i != node_idx implies (#[trigger] arena@[i])@
            == a[i] by {
            assert(arena@[i]@ == b[i]);
        }
        assert(arena@[node_idx as int]@ == b[node_idx as int]);
        if bushy(a) && softmax_fits(*arith) && legal@.len() > 0 {
            assert forall|i: int| 0 <= i < b.len() && (#[trigger] b[i]).expanded implies b[i].children.len()
                > 0 by {
                if i < a.len() && i != node_idx {
                    assert(b[i] == a[i]);
                }
            }
        }
        assert forall|bound: int| bound >= 0 && visits_within(a, bound) implies visits_within(
            b,
            bound,
        ) by {
            assert forall|i: int| 0 <= i < b.len() implies (#[trigger] b[i]).visit_count <= bound by {
                if i < a.len() {
                    assert(a[i].visit_count <= bound);
                    assert(b[i].visit_count == a[i].visit_count);
                }
            }
        }
    }
}

// --- backup ------------------------------------------------------------------

/// A node after one more visit, with a new value sum.
pub open spec fn visited(n: NodeView, sum: Real) -> NodeView {
    NodeView { visit_count: (n.visit_count + 1) as u32, value_sum: sum, ..n }
}

/// Backing up `value` along `path` turns the arena `before` into `after`: from the end
/// of the path to its start, each node is visited once and adds the value to its sum,
/// and the value changes sign from one node to the next.
pub open spec fn backs_up<A: Arithmetic>(
    before: Seq<NodeView>,
    after: Seq<NodeView>,
    path: Seq<usize>,
    value: Real,
    arith: A,
) -> bool
    decreases path.len(),
{
    if path.len() == 0 {
        after == before
    } else {
        let n = path.last() as int;
        exists|sum: Real| #[trigger]
            call_ensures(A::plus, (&arith, before[n].value_sum, value), sum) && backs_up(
                before.update(n, visited(before[n], sum)),
                after,
                path.drop_last(),
                negated(value),
                arith,
            )
    }
}

/// How often node `i` occurs on the path.
pub open spec fn times(path: Seq<usize>, i: int) -> nat
    decreases path.len(),
{
    if path.len() == 0 {
        0
    } else {
        times(path.drop_last(), i) + if path.last() == i {
            1nat
        } else {
            0
        }
    }
}

/// The path stays inside an arena of `len` nodes.
pub open spec fn path_within(path: Seq<usize>, len: nat) -> bool {
    forall|k: int| 0 <= k < path.len() ==> (#[trigger] path[k]) < len
}

/// A path that leads downwards.
pub open spec fn ascending(path: Seq<usize>) -> bool {
    forall|k: int, l: int| 0 <= k < l < path.len() ==> #[trigger] path[k] < #[trigger] path[l]
}

/// The visit counts leave room for one more visit per occurrence on the path.
pub open spec fn room_for(a: Seq<NodeView>, path: Seq<usize>) -> bool {
    forall|i: int|
        0 <= i < a.len() ==> (#[trigger] a[i]).visit_count + times(path, i) <= u32::MAX
}

/// Everything a node holds but its visit count and value sum.
pub open spec fn same_but_visits(x: NodeView, y: NodeView) -> bool {
    x == (NodeView { visit_count: x.visit_count, value_sum: x.value_sum, ..y })
}

/// A backup adds to each visit count the number of occurrences on the path and leaves
/// everything but visit counts and value sums as it was.
pub proof fn backup_counts_visits<A: Arithmetic>(
    before: Seq<NodeView>,
    after: Seq<NodeView>,
    path: Seq<usize>,
    value: Real,
    arith: A,
)
    requires
        backs_up(before, after, path, value, arith),
        path_within(path, before.len()),
        room_for(before, path),
    ensures
        after.len() == before.len(),
        forall|i: int|
            0 <= i < before.len() ==> {
                &&& same_but_visits(#[trigger] after[i], before[i])
                &&& after[i].visit_count == before[i].visit_count + times(path, i)
            },
    decreases path.len(),
{
    if path.len() > 0 {
        let n = path.last() as int;
        let sum = choose|sum: Real| #[trigger]
            call_ensures(A::plus, (&arith, before[n].value_sum, value), sum) && backs_up(
                before.update(n, visited(before[n], sum)),
                after,
                path.drop_last(),
                negated(value),
                arith,
            );
        let mid = before.update(n, visited(before[n], sum));
        assert(path[path.len() - 1] < before.len());
        assert(before[n].visit_count + times(path, n) <= u32::MAX);
        assert forall|k: int| 0 <= k < path.drop_last().len() implies (#[trigger] path.drop_last()[k])
            < mid.len() by {
            assert(path[k] < before.len());
        }
        assert forall|i: int| 0 <= i < mid.len() implies (#[trigger] mid[i]).visit_count + times(
            path.drop_last(),
            i,
        ) <= u32::MAX by {
            assert(before[i].visit_count + times(path, i) <= u32::MAX);
        }
        backup_counts_visits(mid, after, path.drop_last(), negated(value), arith);
        assert forall|i: int| 0 <= i < before.len() implies same_but_visits(
            #[trigger] after[i],
            before[i],
        ) && after[i].visit_count == before[i].visit_count + times(path, i) by {
            assert(same_but_visits(after[i], mid[i]));
        }
    }
}

/// No node occurs twice on the path.
pub open spec fn no_repeats(path: Seq<usize>) -> bool {
    forall|k: int, l: int| 0 <= k < l < path.len() ==> #[trigger] path[k] != #[trigger] path[l]
}

/// A node occurs on a path without repeats once or not at all.
pub proof fn lemma_no_repeats(path: Seq<usize>, i: int)
    requires
        no_repeats(path),
    ensures
        times(path, i) == (if path.contains(i as usize) && 0 <= i <= usize::MAX {
            1nat
        } else {
            0
        }),
    decreases path.len(),
{
    if path.len() > 0 {
        let rest = path.drop_last();
        assert(no_repeats(rest)) by {
            assert forall|k: int, l: int| 0 <= k < l < rest.len() implies #[trigger] rest[k]
                != #[trigger] rest[l] by {
                assert(path[k] != path[l]);
            }
        }
        lemma_no_repeats(rest, i);
        if 0 <= i <= usize::MAX {
            let v = i as usize;
            if path.last() == v {
                assert(path[path.len() - 1] == v);
                if rest.contains(v) {
                    let k = choose|k: int| 0 <= k < rest.len() && rest[k] == v;
                    assert(path[k] != path[path.len() - 1]);
                }
            } else if path.contains(v) {
                let k = choose|k: int| 0 <= k < path.len() && path[k] == v;
                assert(rest[k] == v);
            } else if rest.contains(v) {
                let k = choose|k: int| 0 <= k < rest.len() && rest[k] == v;
                assert(path[k] == v);
            }
        }
    }
}

/// A node occurs on an ascending path once or not at all.
pub proof fn ascending_paths_do_not_repeat(path: Seq<usize>, i: int)
    requires
        ascending(path),
    ensures
        times(path, i) == (if path.contains(i as usize) && 0 <= i <= usize::MAX {
            1nat
        } else {
            0
        }),
{
    lemma_no_repeats(path, i);
}

/// `value` after `steps` changes of sign.
pub open spec fn alternated(value: Real, steps: int) -> Real {
    if steps % 2 == 0 {
        value
    } else {
        negated(value)
    }
}

/// On a path without repeats the node `d` steps above the leaf adds the value with its sign
/// changed `d` times.
pub proof fn backup_alternates_signs<A: Arithmetic>(
    before: Seq<NodeView>,
    after: Seq<NodeView>,
    path: Seq<usize>,
    value: Real,
    arith: A,
)
    requires
        backs_up(before, after, path, value, arith),
        path_within(path, before.len()),
        no_repeats(path),
    ensures
        forall|k: int|
            0 <= k < path.len() ==> call_ensures(
                A::plus,
                (
                    &arith,
                    before[(#[trigger] path[k]) as int].value_sum,
                    alternated(value, path.len() - 1 - k),
                ),
                after[path[k] as int].value_sum,
            ),
        forall|i: int|
            0 <= i < before.len() && !path.contains(i as usize) ==> after[i] == #[trigger] before[i],
    decreases path.len(),
{
    if path.len() > 0 {
        let n = path.last() as int;
        let sum = choose|sum: Real| #[trigger]
            call_ensures(A::plus, (&arith, before[n].value_sum, value), sum) && backs_up(
                before.update(n, visited(before[n], sum)),
                after,
                path.drop_last(),
                negated(value),
                arith,
            );
        let mid = before.update(n, visited(before[n], sum));
        let rest = path.drop_last();
        assert forall|k: int| 0 <= k < rest.len() implies (#[trigger] rest[k]) < mid.len() by {
            assert(path[k] < before.len());
        }
        assert forall|k: int, l: int| 0 <= k < l < rest.len() implies #[trigger] rest[k]
            != #[trigger] rest[l] by {
            assert(path[k] != path[l]);
        }
        backup_alternates_signs(mid, after, rest, negated(value), arith);
        assert(path[path.len() - 1] == n);
        assert forall|k: int| 0 <= k < path.len() implies call_ensures(
            A::plus,
            (&arith, before[(#[trigger] path[k]) as int].value_sum, alternated(value, path.len() - 1 - k)),
            after[path[k] as int].value_sum,
        ) by {
            if k < rest.len() {
                assert(rest[k] == path[k]);
                assert(path[k] != path[path.len() - 1]);
                assert(mid[path[k] as int] == before[path[k] as int]);
                crate::ieee::negation_is_an_involution(value);
            } else {
                if rest.contains(n as usize) {
                    let l = choose|l: int| 0 <= l < rest.len() && rest[l] == n as usize;
                    assert(path[l] != path[path.len() - 1]);
                }
                assert(after[n] == mid[n]);
            }
        }
        assert forall|i: int| 0 <= i < before.len() && !path.contains(i as usize) implies after[i]
            == #[trigger] before[i] by {
            if rest.contains(i as usize) {
                let l = choose|l: int| 0 <= l < rest.len() && rest[l] == i as usize;
                assert(path[l] == i as usize);
            }
            if i == n {
                assert(path[path.len() - 1] == i as usize);
            }
            assert(mid[i] == before[i]);
        }
    }
}

/// Adding a value to a sum and then its opposite leads back to the sum.
pub open spec fn cancels<A: Arithmetic>(arith: A, sum: Real, value: Real) -> bool {
    forall|up: Real, down: Real|
        #![trigger call_ensures(A::plus, (&arith, sum, value), up), call_ensures(A::plus, (&arith, up, negated(value)), down)]
        call_ensures(A::plus, (&arith, sum, value), up) && call_ensures(
            A::plus,
            (&arith, up, negated(value)),
            down,
        ) ==> down == sum
}

/// Backing up a value and then its opposite along the same path restores every sum, as long as
/// the additions on the path cancel out, and counts two visits at each node of the path.
/// Nothing else changes.
pub proof fn opposite_backups_cancel_out<A: Arithmetic>(
    before: Seq<NodeView>,
    mid: Seq<NodeView>,
    after: Seq<NodeView>,
    path: Seq<usize>,
    value: Real,
    arith: A,
)
    requires
        backs_up(before, mid, path, value, arith),
        backs_up(mid, after, path, negated(value), arith),
        path_within(path, before.len()),
        no_repeats(path),
        before.len() <= usize::MAX,
        visits_within(before, u32::MAX - 2),
        forall|k: int|
            0 <= k < path.len() ==> cancels(
                arith,
                before[(#[trigger] path[k]) as int].value_sum,
                alternated(value, path.len() - 1 - k),
            ),
    ensures
        after.len() == before.len(),
        forall|i: int|
            0 <= i < before.len() ==> #[trigger] after[i] == if path.contains(i as usize) {
                NodeView { visit_count: (before[i].visit_count + 2) as u32, ..before[i] }
            } else {
                before[i]
            },
{
    assert forall|i: int| 0 <= i < before.len() implies (#[trigger] before[i]).visit_count + times(
        path,
        i,
    ) <= u32::MAX by {
        lemma_no_repeats(path, i);
    }
    backup_counts_visits(before, mid, path, value, arith);
    assert forall|i: int| 0 <= i < mid.len() implies (#[trigger] mid[i]).visit_count + times(
        path,
        i,
    ) <= u32::MAX by {
        lemma_no_repeats(path, i);
        assert(before[i].visit_count <= u32::MAX - 2);
    }
    backup_counts_visits(mid, after, path, negated(value), arith);
    backup_alternates_signs(before, mid, path, value, arith);
    backup_alternates_signs(mid, after, path, negated(value), arith);
    assert forall|i: int| 0 <= i < before.len() implies #[trigger] after[i] == if path.contains(
        i as usize,
    ) {
        NodeView { visit_count: (before[i].visit_count + 2) as u32, ..before[i] }
    } else {
        before[i]
    } by {
        lemma_no_repeats(path, i);
        assert(same_but_visits(mid[i], before[i]));
        assert(same_but_visits(after[i], mid[i]));
        if path.contains(i as usize) {
            let k = choose|k: int| 0 <= k < path.len() && path[k] == i as usize;
            let v = alternated(value, path.len() - 1 - k);
            crate::ieee::negation_is_an_involution(value);
            assert(alternated(negated(value), path.len() - 1 - k) == negated(v));
            assert(path[k] == i);
            assert(cancels(arith, before[path[k] as int].value_sum, v));
            assert(call_ensures(A::plus, (&arith, before[i].value_sum, v), mid[i].value_sum));
            assert(call_ensures(A::plus, (&arith, mid[i].value_sum, negated(v)), after[i].value_sum));
        } else {
            assert(mid[i] == before[i]);
        }
    }
}

/// Carries a value from the end of a path to its start: every node is visited once
/// more and adds the value to its sum, and the value changes sign at each step.
pub fn backprop<A: Arithmetic>(
    arena: &mut Vec<Node>,
    path: &Vec<usize>,
    value: Real,
    arith: &A,
)
    requires
        path_within(path@, old(arena)@.len()),
        room_for(nodes(old(arena)@), path@),
    ensures
        backs_up(nodes(old(arena)@), nodes(final(arena)@), path@, value, *arith),
        final(arena)@.len() == old(arena)@.len(),
        forall|i: int|
            0 <= i < final(arena)@.len() ==> {
                &&& same_but_visits(
                    #[trigger] nodes(final(arena)@)[i],
                    nodes(old(arena)@)[i],
                )
                &&& nodes(final(arena)@)[i].visit_count == nodes(old(arena)@)[i].visit_count
                    + times(path@, i)
            },
        arena_wf(nodes(old(arena)@)) ==> arena_wf(nodes(final(arena)@)),
{
    let ghost a = nodes(arena@);
    let mut v: Real = value;
    let mut k: usize = path.len();
    assert(path@.take(k as int) =~= path@);
    while k > 0
        invariant
            0 <= k <= path@.len(),
            arena@.len() == a.len(),
            path_within(path@, a.len()),
            room_for(nodes(arena@), path@.take(k as int)),
            forall|after: Seq<NodeView>| #[trigger]
                backs_up(nodes(arena@), after, path@.take(k as int), v, *arith) ==> backs_up(
                    a,
                    after,
                    path@,
                    value,
                    *arith,
                ),
        decreases k,
    {
        let ghost before = nodes(arena@);
        let ghost front = path@.take(k as int);
        k -= 1;
        let n: usize = path[k];
        assert(front.last() == n);
        assert(front.drop_last() =~= path@.take(k as int));
        assert(before[n as int].visit_count + times(front, n as int) <= u32::MAX);
        let sum = arith.plus(arena[n].value_sum, v);
        let count = arena[n].visit_count;
        arena[n].visit_count = count + 1;
        arena[n].value_sum = sum;
        let ghost mid = before.update(n as int, visited(before[n as int], sum));
        assert(nodes(arena@) =~= mid);
        proof {
            assert(call_ensures(A::plus, (arith, before[n as int].value_sum, v), sum));
            assert forall|after: Seq<NodeView>| #[trigger]
                backs_up(nodes(arena@), after, path@.take(k as int), negated(v), *arith) implies backs_up(
                a,
                after,
                path@,
                value,
                *arith,
            ) by {
                assert(backs_up(before, after, front, v, *arith));
            }
            assert forall|i: int| 0 <= i < mid.len() implies (#[trigger] mid[i]).visit_count + times(
                path@.take(k as int),
                i,
            ) <= u32::MAX by {
                assert(before[i].visit_count + times(front, i) <= u32::MAX);
            }
        }
        v = neg(v);
    }
    proof {
        let b = nodes(arena@);
        assert(backs_up(b, b, path@.take(0), v, *arith));
        backup_counts_visits(a, b, path@, value, *arith);
        if arena_wf(a) {
            assert forall|i: int| 0 <= i < a.len() implies b[i].children == a[i].children
                && b[i].expanded == a[i].expanded && b[i].move_index == #[trigger] a[i].move_index by {
                assert(same_but_visits(b[i], a[i]));
            }
            lemma_same_links(a, b);
        }
    }
}

/// Well-formedness is a matter of links, expansion marks and policy indices alone.
pub proof fn lemma_same_links(a: Seq<NodeView>, b: Seq<NodeView>)
    requires
        arena_wf(a),
        b.len() == a.len(),
        forall|i: int|
            0 <= i < a.len() ==> b[i].children == a[i].children && b[i].expanded == a[i].expanded
                && b[i].move_index == #[trigger] a[i].move_index,
    ensures
        arena_wf(b),
{
    assert forall|i: int, j: int| 0 <= i < b.len() && 0 <= j < b[i].children.len() implies i
        < #[trigger] child(b, i, j) < b.len() && 0 <= b[child(b, i, j)].move_index
        < POLICY_SIZE by {
        assert(a[i].move_index == b[i].move_index);
        assert(child(a, i, j) == child(b, i, j));
        assert(a[child(a, i, j)].move_index == b[child(a, i, j)].move_index);
    }
    assert forall|i: int, j: int, k: int, l: int|
        0 <= i < b.len() && 0 <= k < b.len() && 0 <= j < b[i].children.len() && 0 <= l
            < b[k].children.len() && #[trigger] child(b, i, j) == #[trigger] child(
            b,
            k,
            l,
        ) implies i == k && j == l by {
        assert(a[i].move_index == b[i].move_index && a[k].move_index == b[k].move_index);
        assert(child(a, i, j) == child(b, i, j));
        assert(child(a, k, l) == child(b, k, l));
    }
    assert forall|i: int| 0 <= i < b.len() && (#[trigger] b[i]).children.len() > 0 implies b[i].expanded by {
        assert(a[i].move_index == b[i].move_index);
    }
}

/// Backs a value up along an ascending path, which visits no node more than once.
pub fn back_up_once<A: Arithmetic>(
    arena: &mut Vec<Node>,
    path: &Vec<usize>,
    value: Real,
    arith: &A,
)
    requires
        arena_wf(nodes(old(arena)@)),
        path_within(path@, old(arena)@.len()),
        ascending(path@),
        visits_within(nodes(old(arena)@), u32::MAX - 1),
    ensures
        backs_up(nodes(old(arena)@), nodes(final(arena)@), path@, value, *arith),
        arena_wf(nodes(final(arena)@)),
        final(arena)@.len() == old(arena)@.len(),
        forall|bound: int|
            visits_within(nodes(old(arena)@), bound) ==> visits_within(
                nodes(final(arena)@),
                bound + 1,
            ),
        bushy(nodes(old(arena)@)) ==> bushy(nodes(final(arena)@)),
        final(arena)@[0].expanded == old(arena)@[0].expanded,
{
    let ghost a = nodes(arena@);
    proof {
        assert forall|i: int| 0 <= i < a.len() implies (#[trigger] a[i]).visit_count + times(
            path@,
            i,
        ) <= u32::MAX by {
            ascending_paths_do_not_repeat(path@, i);
        }
    }
    backprop(arena, path, value, arith);
    proof {
        let b = nodes(arena@);
        assert forall|bound: int| visits_within(a, bound) implies visits_within(b, bound + 1) by {
            assert forall|i: int| 0 <= i < b.len() implies (#[trigger] b[i]).visit_count <= bound
                + 1 by {
                ascending_paths_do_not_repeat(path@, i);
                assert(a[i].visit_count <= bound);
            }
        }
        assert(b[0].expanded == a[0].expanded);
        if bushy(a) {
            assert forall|i: int| 0 <= i < b.len() && (#[trigger] b[i]).expanded implies b[i].children.len()
                > 0 by {
                assert(a[i].expanded);
            }
        }
    }
}

/// A value that is backed up along a path without repeats is added as it is at the leaf and at
/// every second node above it, and with its sign changed at the nodes between. Every node on
/// the path is visited once more, and no other node changes.
pub proof fn neighbours_see_opposite_values<A: Arithmetic>(
    before: Seq<NodeView>,
    after: Seq<NodeView>,
    path: Seq<usize>,
    value: Real,
    arith: A,
    k: int,
)
    requires
        backs_up(before, after, path, value, arith),
        path_within(path, before.len()),
        no_repeats(path),
        before.len() <= usize::MAX,
        0 <= k < path.len(),
        forall|i: int| 0 <= i < before.len() ==> (#[trigger] before[i]).visit_count < u32::MAX,
    ensures
        (path.len() - 1 - k) % 2 == 0 ==> call_ensures(
            A::plus,
            (&arith, before[path[k] as int].value_sum, value),
            after[path[k] as int].value_sum,
        ),
        (path.len() - 1 - k) % 2 == 1 && value < 0x8000_0000_0000_0000 ==> call_ensures(
            A::plus,
            (
                &arith,
                before[path[k] as int].value_sum,
                (value + 0x8000_0000_0000_0000) as u64,
            ),
            after[path[k] as int].value_sum,
        ),
        (path.len() - 1 - k) % 2 == 1 && value >= 0x8000_0000_0000_0000 ==> call_ensures(
            A::plus,
            (
                &arith,
                before[path[k] as int].value_sum,
                (value - 0x8000_0000_0000_0000) as u64,
            ),
            after[path[k] as int].value_sum,
        ),
        after[path[k] as int].visit_count == before[path[k] as int].visit_count + 1,
        after.len() == before.len(),
        forall|i: int|
            0 <= i < before.len() && !path.contains(i as usize) ==> #[trigger] after[i] == before[i],
{
    backup_alternates_signs(before, after, path, value, arith);
    assert(room_for(before, path)) by {
        assert forall|i: int| 0 <= i < before.len() implies (#[trigger] before[i]).visit_count
            + times(path, i) <= u32::MAX by {
            lemma_no_repeats(path, i);
        }
    }
    backup_counts_visits(before, after, path, value, arith);
    lemma_no_repeats(path, path[k] as int);
    assert(path.contains(path[k]));
    assert(path[k] < before.len());
}

/// A blocked search came down from the root, child by selected child, to a node that has children
/// and where none of them can be selected.
pub proof fn blocked_ways_end_where_nothing_is_selected<A: Arithmetic>(
    arena: Seq<Node>,
    arith: A,
) -> (way: (Seq<usize>, Seq<u16>))
    requires
        blocked(arena, arith),
    ensures
        ({
            let (path, handles) = way;
            let last = path.last() as int;
            &&& path.len() == handles.len() + 1
            &&& path[0] == 0
            &&& 0 <= last < arena.len()
            &&& arena[last].expanded
            &&& arena[last].children@.len() > 0
            &&& selects(arena, last, arith, None)
            &&& forall|k: int|
                0 <= k < handles.len() ==> selects(
                    arena,
                    path[k] as int,
                    arith,
                    Some((#[trigger] handles[k], path[k + 1])),
                )
        }),
{
    let (path, handles) = choose|path: Seq<usize>, handles: Seq<u16>|
        {
            &&& #[trigger] descends(arena, arith, path, handles)
            &&& path[0] == 0
            &&& is_inner(arena[path.last() as int]@)
            &&& selects(arena, path.last() as int, arith, None)
        };
    assert(0 <= path[path.len() - 1] < arena.len());
    assert forall|k: int| 0 <= k < handles.len() implies selects(
        arena,
        path[k] as int,
        arith,
        Some((#[trigger] handles[k], path[k + 1])),
    ) by {
        assert(steps_down(arena, arith, path, handles, k));
    }
    (path, handles)
}

} // verus!
