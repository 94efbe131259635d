//! The root of a search: exploration noise on its priors, and the policy and the move
//! that its visit counts amount to.

use crate::arith::{Arithmetic, Table};
use crate::ieee::{gt, greater, is_zero, zero, Real, Real32, ONE, ONE32, ZERO32};
use crate::search::lemma_same_links;
use crate::tree::{arena_wf, bushy, child, links_ok, nodes, Node, NodeView, POLICY_SIZE, visits_within};
use vstd::prelude::*;

verus! {

// --- exploration noise -------------------------------------------------------

/// What noise a root still needs.
#[derive(Clone, Copy, PartialEq, Eq, Structural)]
pub enum NoiseDraw {
    /// None: it has no children, or it got its noise already.
    Nothing,
    /// All of the noise goes to the only child.
    Certain,
    /// A point of the simplex with this many coordinates.
    Sample(usize),
}

/// What noise node `root` of the arena still needs.
pub open spec fn noise_needed(n: NodeView) -> NoiseDraw {
    if n.noised || n.children.len() == 0 {
        NoiseDraw::Nothing
    } else if n.children.len() == 1 {
        NoiseDraw::Certain
    } else {
        NoiseDraw::Sample(n.children.len() as usize)
    }
}

/// Tells what noise a root still needs.
pub fn noise_draw(arena: &Vec<Node>, root_idx: usize) -> (draw: NoiseDraw)
    requires
        root_idx < arena@.len(),
    ensures
        draw == noise_needed(arena@[root_idx as int]@),
{
    let root = &arena[root_idx];
    if root.noised || root.children.len() == 0 {
        NoiseDraw::Nothing
    } else if root.children.len() == 1 {
        NoiseDraw::Certain
    } else {
        NoiseDraw::Sample(root.children.len())
    }
}

/// How many children receive noise.
pub open spec fn noise_count(n: NodeView, noise: Seq<Real>) -> int {
    if noise.len() < n.children.len() {
        noise.len() as int
    } else {
        n.children.len() as int
    }
}

/// Node `i` is one of the first `k` children of `root`.
pub open spec fn among_children(a: Seq<NodeView>, root: int, k: int, i: int) -> bool {
    exists|j: int| 0 <= j < k && #[trigger] child(a, root, j) == i
}

/// Noise turns the arena `before` into `after`: each child's prior becomes the mixture
/// of itself with its share of the noise, and the root is marked. A root
/// that is marked already or has no children is left alone.
pub open spec fn noises<A: Arithmetic>(
    before: Seq<NodeView>,
    after: Seq<NodeView>,
    root: int,
    noise: Seq<Real>,
    arith: A,
) -> bool {
    if noise_needed(before[root]) == NoiseDraw::Nothing {
        after == before
    } else {
        let k = noise_count(before[root], noise);
        &&& after.len() == before.len()
        &&& forall|j: int|
            0 <= j < k ==> call_ensures(
                A::mix,
                (&arith, before[#[trigger] child(before, root, j)].prior, noise[j]),
                after[child(before, root, j)].prior,
            )
        &&& forall|i: int|
            0 <= i < before.len() ==> {
                &&& #[trigger] after[i] == (NodeView {
                    prior: after[i].prior,
                    noised: before[i].noised || i == root,
                    ..before[i]
                })
                &&& !among_children(before, root, k, i) ==> after[i].prior == before[i].prior
            }
    }
}

/// A root that got its noise once is never changed by noise again.
pub proof fn noise_is_applied_once<A: Arithmetic>(
    before: Seq<NodeView>,
    after: Seq<NodeView>,
    again: Seq<NodeView>,
    root: int,
    noise: Seq<Real>,
    more: Seq<Real>,
    arith: A,
)
    requires
        0 <= root < before.len(),
        noises(before, after, root, noise, arith),
        noises(after, again, root, more, arith),
    ensures
        again == after,
{
    if noise_needed(before[root]) != NoiseDraw::Nothing {
        assert(after[root].noised);
    }
}

/// Mixes the given noise into the priors of the root's children, once per root.
pub fn mix_noise<A: Arithmetic>(
    arena: &mut Vec<Node>,
    root_idx: usize,
    noise: &Vec<Real>,
    arith: &A,
)
    requires
        arena_wf(nodes(old(arena)@)),
        root_idx < old(arena)@.len(),
    ensures
        noises(nodes(old(arena)@), nodes(final(arena)@), root_idx as int, noise@, *arith),
        arena_wf(nodes(final(arena)@)),
        final(arena)@.len() == old(arena)@.len(),
        forall|i: int|
            0 <= i < final(arena)@.len() ==> {
                &&& (#[trigger] final(arena)@[i])@.visit_count == old(arena)@[i]@.visit_count
                &&& final(arena)@[i]@.children == old(arena)@[i]@.children
                &&& final(arena)@[i]@.expanded == old(arena)@[i]@.expanded
            },
{
    if arena[root_idx].noised || arena[root_idx].children.len() == 0 {
        return ;
    }
    let ghost a = nodes(arena@);
    let ghost root = root_idx as int;
    let k: usize = arena[root_idx].children.len();
    let mut j: usize = 0;
    while j < k && j < noise.len()
        invariant
            arena_wf(a),
            root == root_idx,
            root_idx < a.len(),
            k == a[root].children.len(),
            0 <= j <= noise_count(a[root], noise@),
            arena@.len() == a.len(),
            forall|l: int|
                0 <= l < j ==> call_ensures(
                    A::mix,
                    (arith, a[#[trigger] child(a, root, l)].prior, noise@[l]),
                    nodes(arena@)[child(a, root, l)].prior,
                ),
            forall|i: int|
                0 <= i < a.len() ==> {
                    &&& #[trigger] nodes(arena@)[i] == (NodeView {
                        prior: nodes(arena@)[i].prior,
                        ..a[i]
                    })
                    &&& !among_children(a, root, j as int, i) ==> nodes(arena@)[i].prior
                        == a[i].prior
                },
        decreases k - j,
    {
        let ghost before = nodes(arena@);
        assert(before[root].children == a[root].children);
        let (_, c) = arena[root_idx].children[j];
        let ci: usize = c as usize;
        assert(child(a, root, j as int) == ci);
        proof {
            if among_children(a, root, j as int, ci as int) {
                let l = choose|l: int| 0 <= l < j && #[trigger] child(a, root, l) == ci;
                assert(l == j);
            }
            assert(before[ci as int].prior == a[ci as int].prior);
        }
        let mixed = arith.mix(arena[ci].prior, noise[j]);
        arena[ci].prior = mixed;
        proof {
            let now = nodes(arena@);
            assert forall|l: int| 0 <= l < j + 1 implies call_ensures(
                A::mix,
                (arith, a[#[trigger] child(a, root, l)].prior, noise@[l]),
                now[child(a, root, l)].prior,
            ) by {
                if l < j {
                    assert(child(a, root, l) != ci);
                    assert(now[child(a, root, l)] == before[child(a, root, l)]);
                }
            }
            assert forall|i: int| 0 <= i < a.len() implies {
                &&& #[trigger] now[i] == (NodeView { prior: now[i].prior, ..a[i] })
                &&& !among_children(a, root, j + 1, i) ==> now[i].prior == a[i].prior
            } by {
                assert(before[i] == (NodeView { prior: before[i].prior, ..a[i] }));
                if !among_children(a, root, j + 1, i) {
                    if among_children(a, root, j as int, i) {
                        let l = choose|l: int| 0 <= l < j && #[trigger] child(a, root, l) == i;
                        assert(0 <= l < j + 1 && child(a, root, l) == i);
                    }
                    assert(i != ci) by {
                        if i == ci {
                            assert(0 <= j < j + 1 && child(a, root, j as int) == i);
                        }
                    }
                    assert(now[i] == before[i]);
                }
            }
        }
        j += 1;
    }
    let ghost before = nodes(arena@);
    arena[root_idx].noised = true;
    proof {
        let now = nodes(arena@);
        assert forall|i: int| 0 <= i < a.len() implies {
            &&& #[trigger] now[i] == (NodeView {
                prior: now[i].prior,
                noised: a[i].noised || i == root,
                ..a[i]
            })
            &&& now[i].prior == before[i].prior
        } by {
            assert(before[i] == (NodeView { prior: before[i].prior, ..a[i] }));
        }
        assert forall|l: int| 0 <= l < j implies call_ensures(
            A::mix,
            (arith, a[#[trigger] child(a, root, l)].prior, noise@[l]),
            now[child(a, root, l)].prior,
        ) by {
            assert(now[child(a, root, l)].prior == before[child(a, root, l)].prior);
        }
        assert forall|i: int| 0 <= i < a.len() implies now[i].children == a[i].children
            && now[i].expanded == a[i].expanded && now[i].move_index
            == #[trigger] a[i].move_index by {
            assert(now[i].prior == before[i].prior);
        }
        lemma_same_links(a, now);
        assert forall|i: int| 0 <= i < arena@.len() implies {
            &&& (#[trigger] arena@[i])@.visit_count == a[i].visit_count
            &&& arena@[i]@.children == a[i].children
            &&& arena@[i]@.expanded == a[i].expanded
        } by {
            assert(now[i].prior == before[i].prior);
        }
    }
}

/// `noise` is what a root in need of `draw` is given: nothing, all of it for an only
/// child, or a point of the simplex drawn at the table.
pub open spec fn is_noise<T: Table>(
    draw: NoiseDraw,
    table: T,
    seat: u64,
    line: Vec<u16>,
    noise: Seq<Real>,
) -> bool {
    match draw {
        NoiseDraw::Nothing => noise.len() == 0,
        NoiseDraw::Certain => noise == seq![ONE],
        NoiseDraw::Sample(k) => exists|v: Vec<Real>| #[trigger]
            call_ensures(T::noise, (&table, seat, &line, k), v) && noise == v@,
    }
}

/// The root of the arena `before` gets its noise, which gives `after`.
pub open spec fn gets_noise<A: Arithmetic, T: Table>(
    before: Seq<NodeView>,
    after: Seq<NodeView>,
    root: int,
    arith: A,
    table: T,
    seat: u64,
    line: Vec<u16>,
) -> bool {
    exists|noise: Seq<Real>| #[trigger]
        noises(before, after, root, noise, arith) && is_noise(
            noise_needed(before[root]),
            table,
            seat,
            line,
            noise,
        )
}

/// How a root gets its noise. A root that has it already, or has no children, is left alone. To
/// any other root's only child goes all of the noise; several children share a point of the
/// simplex with one coordinate for each of them, drawn at the table for the line of the game. The
/// prior of the `j`-th child is mixed with the `j`-th coordinate. Nothing else changes but that
/// the root is marked.
pub proof fn noise_is_shared_in_order<A: Arithmetic, T: Table>(
    before: Seq<NodeView>,
    after: Seq<NodeView>,
    root: int,
    arith: A,
    table: T,
    seat: u64,
    line: Vec<u16>,
) -> (noise: Seq<Real>)
    requires
        gets_noise(before, after, root, arith, table, seat, line),
        0 <= root < before.len(),
        before[root].children.len() <= usize::MAX,
    ensures
        before[root].noised || before[root].children.len() == 0 ==> after == before,
        !before[root].noised && before[root].children.len() == 1 ==> noise == seq![
            0x3ff0_0000_0000_0000u64,
        ],
        !before[root].noised && before[root].children.len() > 1 ==> exists|v: Vec<Real>| #[trigger]
            call_ensures(
                T::noise,
                (&table, seat, &line, before[root].children.len() as usize),
                v,
            ) && noise == v@,
        !before[root].noised ==> forall|j: int|
            0 <= j < before[root].children.len() && j < noise.len() ==> call_ensures(
                A::mix,
                (&arith, before[(#[trigger] before[root].children[j]).1 as int].prior, noise[j]),
                after[before[root].children[j].1 as int].prior,
            ),
        before[root].children.len() > 0 ==> after[root].noised,
        after.len() == before.len(),
        forall|i: int|
            0 <= i < before.len() ==> {
                &&& (#[trigger] after[i]).visit_count == before[i].visit_count
                &&& after[i].value_sum == before[i].value_sum
                &&& after[i].children == before[i].children
                &&& after[i].expanded == before[i].expanded
                &&& after[i].move_index == before[i].move_index
                &&& i != root ==> after[i].noised == before[i].noised
            },
        forall|i: int|
            0 <= i < before.len() && (forall|j: int|
                0 <= j < before[root].children.len() ==> (#[trigger] before[root].children[j]).1
                    != i) ==> (#[trigger] after[i]).prior == before[i].prior,
{
    let noise = choose|noise: Seq<Real>| #[trigger]
        noises(before, after, root, noise, arith) && is_noise(
            noise_needed(before[root]),
            table,
            seat,
            line,
            noise,
        );
    if noise_needed(before[root]) != NoiseDraw::Nothing {
        assert forall|j: int|
            0 <= j < before[root].children.len() && j < noise.len() implies call_ensures(
            A::mix,
            (&arith, before[(#[trigger] before[root].children[j]).1 as int].prior, noise[j]),
            after[before[root].children[j].1 as int].prior,
        ) by {
            assert(child(before, root, j) == before[root].children[j].1);
        }
        assert forall|i: int|
            0 <= i < before.len() && (forall|j: int|
                0 <= j < before[root].children.len() ==> (#[trigger] before[root].children[j]).1
                    != i) implies (#[trigger] after[i]).prior == before[i].prior by {
            let k = noise_count(before[root], noise);
            if among_children(before, root, k, i) {
                let j = choose|j: int| 0 <= j < k && #[trigger] child(before, root, j) == i;
                assert(before[root].children[j].1 == i);
            }
        }
    }
    noise
}

/// Draws noise for the root and mixes it into the priors of its children, once per root.
pub fn add_dirichlet_noise<A: Arithmetic, T: Table>(
    arena: &mut Vec<Node>,
    root_idx: usize,
    arith: &A,
    table: &T,
    seat: u64,
    line: &Vec<u16>,
)
    requires
        arena_wf(nodes(old(arena)@)),
        root_idx < old(arena)@.len(),
    ensures
        gets_noise(
            nodes(old(arena)@),
            nodes(final(arena)@),
            root_idx as int,
            *arith,
            *table,
            seat,
            *line,
        ),
        arena_wf(nodes(final(arena)@)),
        final(arena)@.len() == old(arena)@.len(),
        forall|i: int|
            0 <= i < final(arena)@.len() ==> {
                &&& (#[trigger] final(arena)@[i])@.visit_count == old(arena)@[i]@.visit_count
                &&& final(arena)@[i]@.children == old(arena)@[i]@.children
                &&& final(arena)@[i]@.expanded == old(arena)@[i]@.expanded
            },
{
    let noise: Vec<Real> = match noise_draw(arena, root_idx) {
        NoiseDraw::Nothing => Vec::new(),
        NoiseDraw::Certain => {
            let mut only: Vec<Real> = Vec::new();
            only.push(ONE);
            assert(only@ =~= seq![ONE]);
            only
        },
        NoiseDraw::Sample(k) => {
            let v = table.noise(seat, line, k);
            assert(call_ensures(T::noise, (table, seat, line, k), v));
            v
        },
    };
    mix_noise(arena, root_idx, &noise, arith);
    assert(noises(nodes(old(arena)@), nodes(arena@), root_idx as int, noise@, *arith));
}

/// The noise step at the root, which happens only when the run asks for noise.
pub open spec fn noise_step<A: Arithmetic, T: Table>(
    before: Seq<NodeView>,
    after: Seq<NodeView>,
    wanted: bool,
    arith: A,
    table: T,
    seat: u64,
    line: Vec<u16>,
) -> bool {
    if wanted {
        gets_noise(before, after, 0, arith, table, seat, line)
    } else {
        after == before
    }
}

/// Gives the root its noise when the run asks for noise.
pub fn root_noise<A: Arithmetic, T: Table>(
    arena: &mut Vec<Node>,
    wanted: bool,
    arith: &A,
    table: &T,
    seat: u64,
    line: &Vec<u16>,
)
    requires
        arena_wf(nodes(old(arena)@)),
    ensures
        noise_step(nodes(old(arena)@), nodes(final(arena)@), wanted, *arith, *table, seat, *line),
        arena_wf(nodes(final(arena)@)),
        final(arena)@.len() == old(arena)@.len(),
        final(arena)@[0].expanded == old(arena)@[0].expanded,
        bushy(nodes(old(arena)@)) ==> bushy(nodes(final(arena)@)),
        forall|bound: int|
            visits_within(nodes(old(arena)@), bound) ==> visits_within(
                nodes(final(arena)@),
                bound,
            ),
{
    if wanted {
        let ghost a = nodes(arena@);
        add_dirichlet_noise(arena, 0, arith, table, seat, line);
        proof {
            let b = nodes(arena@);
            assert forall|i: int| 0 <= i < b.len() implies (#[trigger] b[i]).visit_count
                == a[i].visit_count && b[i].children == a[i].children && b[i].expanded
                == a[i].expanded by {
                assert(arena@[i]@ == b[i]);
            }
            assert(arena@[0]@.expanded == a[0].expanded);
            if bushy(a) {
                assert forall|i: int| 0 <= i < b.len() && (
                #[trigger] b[i]).expanded implies b[i].children.len() > 0 by {
                    assert(a[i].expanded);
                }
            }
            assert forall|bound: int| visits_within(a, bound) implies visits_within(b, bound) by {
                assert forall|i: int| 0 <= i < b.len() implies (#[trigger] b[i]).visit_count
                    <= bound by {
                    assert(a[i].visit_count <= bound);
                }
            }
        }
    }
}

// --- visit counts ------------------------------------------------------------

/// Visit counts of the children of node `n`, in order.
pub open spec fn child_visits(a: Seq<NodeView>, n: int) -> Seq<u32> {
    Seq::new(a[n].children.len(), |j: int| a[child(a, n, j)].visit_count)
}

/// Policy indices of the children of node `n`, in order.
pub open spec fn child_indices(a: Seq<NodeView>, n: int) -> Seq<int> {
    Seq::new(a[n].children.len(), |j: int| a[child(a, n, j)].move_index as int)
}

/// Visit counts of the root's children, in order.
pub fn root_visits(arena: &[Node], root_idx: usize) -> (counts: Vec<u32>)
    requires
        links_ok(nodes(arena@), 0, arena@.len() as int),
        root_idx < arena@.len(),
    ensures
        counts@ == child_visits(nodes(arena@), root_idx as int),
{
    let ghost a = nodes(arena@);
    let mut counts: Vec<u32> = Vec::new();
    let root = &arena[root_idx];
    let mut j: usize = 0;
    while j < root.children.len()
        invariant
            a == nodes(arena@),
            links_ok(a, 0, arena@.len() as int),
            root_idx < arena@.len(),
            *root == arena@[root_idx as int],
            0 <= j <= root.children@.len(),
            counts@ == child_visits(a, root_idx as int).take(j as int),
        decreases root.children@.len() - j,
    {
        let (_, c) = root.children[j];
        assert(child(a, root_idx as int, j as int) == c);
        counts.push(arena[c as usize].visit_count);
        assert(counts@ =~= child_visits(a, root_idx as int).take(j + 1));
        j += 1;
    }
    assert(counts@ =~= child_visits(a, root_idx as int));
    counts
}

/// `r` is the first place of the largest count.
pub open spec fn is_first_max(counts: Seq<u32>, r: int) -> bool {
    &&& 0 <= r < counts.len()
    &&& forall|i: int| 0 <= i < counts.len() ==> #[trigger] counts[i] <= counts[r]
    &&& forall|i: int| 0 <= i < r ==> #[trigger] counts[i] < counts[r]
}

/// Place of the largest count, the first one on ties.
pub fn most_visited(counts: &Vec<u32>) -> (r: usize)
    requires
        counts@.len() > 0,
    ensures
        is_first_max(counts@, r as int),
{
    let mut r: usize = 0;
    let mut i: usize = 1;
    while i < counts.len()
        invariant
            0 <= r < i <= counts@.len(),
            forall|k: int| 0 <= k < i ==> #[trigger] counts@[k] <= counts@[r as int],
            forall|k: int| 0 <= k < r ==> #[trigger] counts@[k] < counts@[r as int],
        decreases counts@.len() - i,
    {
        if counts[i] > counts[r] {
            r = i;
        }
        i += 1;
    }
    r
}

/// A policy vector without any probability.
pub open spec fn no_policy() -> Seq<Real32> {
    Seq::new(POLICY_SIZE as nat, |x: int| ZERO32)
}

/// The policy vector that results from writing the first `k` shares, in order, each at
/// its policy index.
pub open spec fn placed(indices: Seq<int>, shares: Seq<Real32>, k: nat) -> Seq<Real32>
    decreases k,
{
    if k == 0 {
        no_policy()
    } else {
        placed(indices, shares, (k - 1) as nat).update(indices[k - 1], shares[k - 1])
    }
}

/// How many children receive a share.
pub open spec fn share_count(indices: Seq<int>, shares: Seq<Real32>) -> nat {
    if shares.len() < indices.len() {
        shares.len()
    } else {
        indices.len()
    }
}

/// The policy vector for given shares of the root's children; `None` stands for
/// counts that carry no weight.
pub open spec fn policy_of(indices: Seq<int>, shares: Option<Seq<Real32>>) -> Seq<Real32> {
    match shares {
        None => no_policy(),
        Some(s) => placed(indices, s, share_count(indices, s)),
    }
}

/// An index that no child carries keeps probability zero.
pub proof fn policy_is_supported_by_children(indices: Seq<int>, shares: Seq<Real32>, k: nat, x: int)
    requires
        k <= indices.len(),
        k <= shares.len(),
        0 <= x < POLICY_SIZE,
        forall|j: int| 0 <= j < k ==> 0 <= #[trigger] indices[j] < POLICY_SIZE,
        forall|j: int| 0 <= j < k ==> #[trigger] indices[j] != x,
    ensures
        placed(indices, shares, k).len() == POLICY_SIZE,
        placed(indices, shares, k)[x] == ZERO32,
    decreases k,
{
    if k > 0 {
        policy_is_supported_by_children(indices, shares, (k - 1) as nat, x);
    }
}

fn empty_policy() -> (pi: Vec<Real32>)
    ensures
        pi@ == no_policy(),
{
    let mut pi: Vec<Real32> = Vec::new();
    while pi.len() < POLICY_SIZE
        invariant
            pi@.len() <= POLICY_SIZE,
            forall|x: int| 0 <= x < pi@.len() ==> #[trigger] pi@[x] == ZERO32,
        decreases POLICY_SIZE - pi@.len(),
    {
        pi.push(ZERO32);
    }
    assert(pi@ =~= no_policy());
    pi
}

/// Writes shares at the policy indices of the root's children.
pub fn place_shares(
    arena: &[Node],
    root_idx: usize,
    shares: &Option<Vec<Real32>>,
) -> (pi: Vec<Real32>)
    requires
        links_ok(nodes(arena@), 0, arena@.len() as int),
        root_idx < arena@.len(),
    ensures
        pi@ == policy_of(
            child_indices(nodes(arena@), root_idx as int),
            match shares {
                Some(s) => Some(s@),
                None => None,
            },
        ),
        pi@.len() == POLICY_SIZE,
{
    let ghost a = nodes(arena@);
    let ghost indices = child_indices(a, root_idx as int);
    let mut pi = empty_policy();
    if let Some(shares) = shares {
        let root = &arena[root_idx];
        let mut j: usize = 0;
        while j < root.children.len() && j < shares.len()
            invariant
                a == nodes(arena@),
                links_ok(a, 0, arena@.len() as int),
                root_idx < arena@.len(),
                *root == arena@[root_idx as int],
                indices == child_indices(a, root_idx as int),
                0 <= j <= share_count(indices, shares@),
                pi@.len() == POLICY_SIZE,
                pi@ == placed(indices, shares@, j as nat),
            decreases root.children@.len() - j,
        {
            let (_, c) = root.children[j];
            assert(child(a, root_idx as int, j as int) == c);
            let x: i32 = arena[c as usize].move_index;
            assert(indices[j as int] == x);
            pi.set(x as usize, shares[j]);
            j += 1;
        }
    }
    pi
}

/// `pi` is the policy that the visit counts of node `n` amount to.
pub open spec fn is_policy<A: Arithmetic>(
    a: Seq<NodeView>,
    n: int,
    temperature: Real,
    arith: A,
    pi: Seq<Real32>,
) -> bool {
    let counts = child_visits(a, n);
    let indices = child_indices(a, n);
    if counts.len() == 0 {
        pi == no_policy()
    } else if is_zero(temperature) {
        exists|r: int| #[trigger]
            is_first_max(counts, r) && pi == no_policy().update(indices[r], ONE32)
    } else {
        exists|c: Vec<u32>, shares: Option<Vec<Real32>>| #[trigger]
            call_ensures(A::shares, (&arith, &c, temperature), shares) && c@ == counts && pi == policy_of(
                indices,
                match shares {
                    Some(s) => Some(s@),
                    None => None,
                },
            )
    }
}

/// A share that is not written over stands at its policy index.
proof fn lemma_placed(indices: Seq<int>, shares: Seq<Real32>, k: nat, j: int)
    requires
        0 <= j < k <= indices.len(),
        k <= shares.len(),
        forall|l: int| 0 <= l < k ==> 0 <= #[trigger] indices[l] < POLICY_SIZE,
        forall|l: int| j < l < k ==> #[trigger] indices[l] != indices[j],
    ensures
        placed(indices, shares, k).len() == POLICY_SIZE,
        placed(indices, shares, k)[indices[j]] == shares[j],
    decreases k,
{
    if j < k - 1 {
        lemma_placed(indices, shares, (k - 1) as nat, j);
        assert(indices[k - 1] != indices[j]);
    } else {
        lemma_placed_len(indices, shares, (k - 1) as nat);
    }
}

proof fn lemma_placed_len(indices: Seq<int>, shares: Seq<Real32>, k: nat)
    requires
        forall|l: int| 0 <= l < k ==> 0 <= #[trigger] indices[l] < POLICY_SIZE,
    ensures
        placed(indices, shares, k).len() == POLICY_SIZE,
    decreases k,
{
    if k > 0 {
        lemma_placed_len(indices, shares, (k - 1) as nat);
    }
}

/// The policy at temperature zero is all on the first of the most visited moves: one at its
/// policy index, and zero everywhere else.
pub proof fn cold_policies_are_certain<A: Arithmetic>(
    a: Seq<NodeView>,
    n: int,
    temperature: Real,
    arith: A,
    pi: Seq<Real32>,
) -> (r: int)
    requires
        is_policy(a, n, temperature, arith, pi),
        temperature == 0 || temperature == 0x8000_0000_0000_0000,
        a[n].children.len() > 0,
        links_ok(a, 0, a.len() as int),
        0 <= n < a.len(),
    ensures
        0 <= r < a[n].children.len(),
        forall|j: int|
            0 <= j < a[n].children.len() ==> a[(#[trigger] a[n].children[j]).1 as int].visit_count
                <= a[a[n].children[r].1 as int].visit_count,
        forall|j: int|
            0 <= j < r ==> a[(#[trigger] a[n].children[j]).1 as int].visit_count
                < a[a[n].children[r].1 as int].visit_count,
        pi.len() == POLICY_SIZE,
        pi[a[a[n].children[r].1 as int].move_index as int] == 0x3f80_0000,
        forall|x: int|
            0 <= x < POLICY_SIZE && x != a[a[n].children[r].1 as int].move_index
                ==> #[trigger] pi[x] == 0,
{
    let counts = child_visits(a, n);
    let indices = child_indices(a, n);
    let r = choose|r: int| #[trigger]
        is_first_max(counts, r) && pi == no_policy().update(indices[r], ONE32);
    assert forall|j: int| 0 <= j < a[n].children.len() implies counts[j] == a[(
    #[trigger] a[n].children[j]).1 as int].visit_count by {
        assert(child(a, n, j) == a[n].children[j].1);
    }
    assert(child(a, n, r) == a[n].children[r].1);
    assert(0 <= a[child(a, n, r)].move_index < POLICY_SIZE);
    r
}

/// The policy at any other temperature holds shares that are asked for the visit counts of the
/// children, in their order, at that temperature. The share of the `j`-th child stands at the
/// policy index of that child, unless a later child has the same index. Where no child
/// has its index, the policy is zero, and everywhere when the counts carry no weight.
pub proof fn warm_policies_hold_the_shares<A: Arithmetic>(
    a: Seq<NodeView>,
    n: int,
    temperature: Real,
    arith: A,
    pi: Seq<Real32>,
) -> (asked: (Vec<u32>, Option<Vec<Real32>>))
    requires
        is_policy(a, n, temperature, arith, pi),
        temperature != 0,
        temperature != 0x8000_0000_0000_0000,
        a[n].children.len() > 0,
        links_ok(a, 0, a.len() as int),
        0 <= n < a.len(),
    ensures
        ({
            let (counts, shares) = asked;
            &&& call_ensures(A::shares, (&arith, &counts, temperature), shares)
            &&& counts@.len() == a[n].children.len()
            &&& forall|j: int|
                0 <= j < counts@.len() ==> #[trigger] counts@[j] == a[a[n].children[j].1 as int].visit_count
            &&& pi.len() == POLICY_SIZE
            &&& shares is None ==> forall|x: int| 0 <= x < POLICY_SIZE ==> #[trigger] pi[x] == 0
            &&& shares matches Some(s) ==> forall|j: int|
                0 <= j < a[n].children.len() && j < s@.len() && (forall|l: int|
                    j < l < a[n].children.len() ==> a[(
                    #[trigger] a[n].children[l]).1 as int].move_index
                        != a[a[n].children[j].1 as int].move_index)
                    ==> pi[a[(#[trigger] a[n].children[j]).1 as int].move_index as int] == s@[j]
            &&& forall|x: int|
                0 <= x < POLICY_SIZE && (forall|l: int|
                    0 <= l < a[n].children.len() ==> a[(
                    #[trigger] a[n].children[l]).1 as int].move_index != x)
                    ==> #[trigger] pi[x] == 0
        }),
{
    let indices = child_indices(a, n);
    let (c, shares) = choose|c: Vec<u32>, shares: Option<Vec<Real32>>| #[trigger]
        call_ensures(A::shares, (&arith, &c, temperature), shares) && c@ == child_visits(a, n) && pi
            == policy_of(
            indices,
            match shares {
                Some(s) => Some(s@),
                None => None,
            },
        );
    assert forall|j: int| 0 <= j < c@.len() implies #[trigger] c@[j]
        == a[a[n].children[j].1 as int].visit_count by {
        assert(child(a, n, j) == a[n].children[j].1);
    }
    assert forall|l: int| 0 <= l < indices.len() implies 0 <= #[trigger] indices[l] < POLICY_SIZE
        && indices[l] == a[a[n].children[l].1 as int].move_index by {
        assert(child(a, n, l) == a[n].children[l].1);
        assert(0 <= a[child(a, n, l)].move_index < POLICY_SIZE);
    }
    if let Some(v) = shares {
        let s = v@;
        let k = share_count(indices, s);
        lemma_placed_len(indices, s, k);
        assert forall|j: int|
            0 <= j < a[n].children.len() && j < s.len() && (forall|l: int|
                j < l < a[n].children.len() ==> a[(
                #[trigger] a[n].children[l]).1 as int].move_index
                    != a[a[n].children[j].1 as int].move_index) implies pi[a[(
        #[trigger] a[n].children[j]).1 as int].move_index as int] == s[j] by {
            assert(indices[j] == a[a[n].children[j].1 as int].move_index);
            assert forall|l: int| j < l < k implies #[trigger] indices[l] != indices[j] by {
                assert(a[a[n].children[l].1 as int].move_index
                    != a[a[n].children[j].1 as int].move_index);
            }
            lemma_placed(indices, s, k, j);
        }
        assert forall|x: int|
            0 <= x < POLICY_SIZE && (forall|l: int|
                0 <= l < a[n].children.len() ==> a[(
                #[trigger] a[n].children[l]).1 as int].move_index
                    != x) implies #[trigger] pi[x] == 0 by {
            assert forall|l: int| 0 <= l < k implies #[trigger] indices[l] != x by {
                assert(a[a[n].children[l].1 as int].move_index != x);
            }
            policy_is_supported_by_children(indices, s, k, x);
        }
    }
    (c, shares)
}

/// The policy that the root's visit counts amount to. At temperature zero it is all on
/// the most visited move, the first one on ties. Otherwise it is the
/// shares of the counts, or nothing when they carry no weight.
pub fn visits_to_pi<A: Arithmetic>(
    arena: &[Node],
    root_idx: usize,
    temperature: Real,
    arith: &A,
) -> (pi: Vec<Real32>)
    requires
        links_ok(nodes(arena@), 0, arena@.len() as int),
        root_idx < arena@.len(),
    ensures
        pi@.len() == POLICY_SIZE,
        is_policy(nodes(arena@), root_idx as int, temperature, *arith, pi@),
{
    let ghost a = nodes(arena@);
    if arena[root_idx].children.len() == 0 {
        return empty_policy();
    }
    let counts = root_visits(arena, root_idx);
    if zero(temperature) {
        let best = most_visited(&counts);
        let (_, c) = arena[root_idx].children[best];
        assert(child(a, root_idx as int, best as int) == c);
        let x: i32 = arena[c as usize].move_index;
        let mut pi = empty_policy();
        pi.set(x as usize, ONE32);
        assert(child_indices(a, root_idx as int)[best as int] == x);
        return pi;
    }
    let shares = arith.shares(&counts, temperature);
    assert(call_ensures(A::shares, (arith, &counts, temperature), shares));
    place_shares(arena, root_idx, &shares)
}

/// `r` is the first of `n` places whose cumulative weight exceeds the threshold, or the
/// last place when none does.
pub open spec fn is_pick(cumulative: Seq<Real>, threshold: Real, n: int, r: int) -> bool {
    &&& 0 <= r < n
    &&& forall|i: int| 0 <= i < r && i < cumulative.len() ==> !greater(
        #[trigger] cumulative[i],
        threshold,
    )
    &&& (r < cumulative.len() && greater(cumulative[r], threshold)) || r == n - 1
}

/// Place of the first cumulative weight above the threshold, out of `n` places; the last
/// place when there is none.
pub fn pick_above(cumulative: &Vec<Real>, threshold: Real, n: usize) -> (r: usize)
    requires
        0 < n,
    ensures
        is_pick(cumulative@, threshold, n as int, r as int),
{
    let mut i: usize = 0;
    while i < cumulative.len() && i < n
        invariant
            0 <= i <= n,
            i <= cumulative@.len(),
            0 < n,
            forall|k: int| 0 <= k < i ==> !greater(#[trigger] cumulative@[k], threshold),
        decreases n - i,
    {
        if gt(cumulative[i], threshold) {
            return i;
        }
        i += 1;
    }
    n - 1
}

/// `handle` is a move that sampling from the visit counts of node `n` leads to.
pub open spec fn is_sample<T: Table>(
    a: Seq<NodeView>,
    n: int,
    temperature: Real,
    table: T,
    seat: u64,
    line: Vec<u16>,
    handle: u16,
) -> bool {
    let counts = child_visits(a, n);
    let edges = a[n].children;
    if is_zero(temperature) {
        exists|r: int| #[trigger] is_first_max(counts, r) && handle == edges[r].0
    } else {
        exists|c: Vec<u32>, threshold: Real, cumulative: Vec<Real>, r: int|
            #![trigger call_ensures(T::draw, (&table, seat, &line, &c, temperature), (threshold, cumulative)), edges[r]]
            call_ensures(T::draw, (&table, seat, &line, &c, temperature), (threshold, cumulative))
                && c@ == counts && is_pick(cumulative@, threshold, edges.len() as int, r) && handle
                == edges[r].0
    }
}

/// A move that is sampled at temperature zero belongs to the first of the most visited children:
/// no child has more visits, and every earlier child has fewer.
pub proof fn cold_moves_are_the_most_visited<T: Table>(
    a: Seq<NodeView>,
    n: int,
    temperature: Real,
    table: T,
    seat: u64,
    line: Vec<u16>,
    handle: u16,
) -> (r: int)
    requires
        is_sample(a, n, temperature, table, seat, line, handle),
        temperature == 0 || temperature == 0x8000_0000_0000_0000,
    ensures
        0 <= r < a[n].children.len(),
        a[n].children[r].0 == handle,
        forall|j: int|
            0 <= j < a[n].children.len() ==> a[(#[trigger] a[n].children[j]).1 as int].visit_count
                <= a[a[n].children[r].1 as int].visit_count,
        forall|j: int|
            0 <= j < r ==> a[(#[trigger] a[n].children[j]).1 as int].visit_count
                < a[a[n].children[r].1 as int].visit_count,
{
    let counts = child_visits(a, n);
    let r = choose|r: int| #[trigger] is_first_max(counts, r) && handle == a[n].children[r].0;
    assert forall|j: int| 0 <= j < a[n].children.len() implies counts[j] == a[(
    #[trigger] a[n].children[j]).1 as int].visit_count by {
        assert(child(a, n, j) == a[n].children[j].1);
    }
    r
}

/// A move that is sampled at any other temperature belongs to the first child whose cumulative
/// weight exceeds the threshold, or to the last child. The table drew weights and threshold at
/// that temperature for the visit counts of the children, in their order.
pub proof fn warm_moves_exceed_their_threshold<T: Table>(
    a: Seq<NodeView>,
    n: int,
    temperature: Real,
    table: T,
    seat: u64,
    line: Vec<u16>,
    handle: u16,
) -> (drawn: (Vec<u32>, Real, Vec<Real>, int))
    requires
        is_sample(a, n, temperature, table, seat, line, handle),
        temperature != 0,
        temperature != 0x8000_0000_0000_0000,
    ensures
        ({
            let (counts, threshold, cumulative, r) = drawn;
            &&& call_ensures(
                T::draw,
                (&table, seat, &line, &counts, temperature),
                (threshold, cumulative),
            )
            &&& counts@.len() == a[n].children.len()
            &&& forall|j: int|
                0 <= j < counts@.len() ==> #[trigger] counts@[j] == a[a[n].children[j].1 as int].visit_count
            &&& 0 <= r < a[n].children.len()
            &&& a[n].children[r].0 == handle
            &&& forall|i: int|
                0 <= i < r && i < cumulative@.len() ==> !greater(
                    #[trigger] cumulative@[i],
                    threshold,
                )
            &&& r < a[n].children.len() - 1 ==> r < cumulative@.len() && greater(
                cumulative@[r],
                threshold,
            )
        }),
{
    let edges = a[n].children;
    let (c, threshold, cumulative, r) = choose|
        c: Vec<u32>,
        threshold: Real,
        cumulative: Vec<Real>,
        r: int,
    |
        #![trigger call_ensures(T::draw, (&table, seat, &line, &c, temperature), (threshold, cumulative)), edges[r]]
        call_ensures(T::draw, (&table, seat, &line, &c, temperature), (threshold, cumulative)) && c@
            == child_visits(a, n) && is_pick(cumulative@, threshold, edges.len() as int, r) && handle
            == edges[r].0;
    assert forall|j: int| 0 <= j < c@.len() implies #[trigger] c@[j]
        == a[a[n].children[j].1 as int].visit_count by {
        assert(child(a, n, j) == a[n].children[j].1);
    }
    (c, threshold, cumulative, r)
}

/// The move to play at the root. At temperature zero it is the most visited one, the
/// first on ties. Otherwise a threshold is drawn below the cumulative weights of the
/// counts, and the move is the first whose cumulative weight exceeds the threshold, or
/// the last one.
pub fn sample_move<T: Table>(
    arena: &[Node],
    root_idx: usize,
    temperature: Real,
    table: &T,
    seat: u64,
    line: &Vec<u16>,
) -> (handle: u16)
    requires
        links_ok(nodes(arena@), 0, arena@.len() as int),
        root_idx < arena@.len(),
        arena@[root_idx as int].children@.len() > 0,
    ensures
        is_sample(nodes(arena@), root_idx as int, temperature, *table, seat, *line, handle),
        exists|j: int|
            0 <= j < arena@[root_idx as int].children@.len() && handle == (
            #[trigger] arena@[root_idx as int].children@[j]).0,
{
    let counts = root_visits(arena, root_idx);
    let r: usize = if zero(temperature) {
        most_visited(&counts)
    } else {
        let (threshold, cumulative) = table.draw(seat, line, &counts, temperature);
        let n: usize = arena[root_idx].children.len();
        let r = pick_above(&cumulative, threshold, n);
        assert(call_ensures(
            T::draw,
            (table, seat, line, &counts, temperature),
            (threshold, cumulative),
        ));
        assert(is_pick(cumulative@, threshold, n as int, r as int));
        r
    };
    arena[root_idx].children[r].0
}

} // verus!
