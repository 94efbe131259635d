//! The search tree: an arena of nodes with the root at index 0.
//!
//! A node is named by its index. Links run from lower to higher indices and every
//! node has at most one parent, so the arena spells a tree below each of its nodes.

use crate::arith::Arithmetic;
use crate::ieee::{Real, ZERO};
use vstd::prelude::*;

verus! {

/// Number of entries in a policy vector: 64 squares times 73 move planes.
pub const POLICY_SIZE: usize = 4672;

/// Length of an encoded position: 18 planes of 8 by 8 squares.
pub const ENC_LEN: usize = 1152;

/// One position of the search tree.
pub struct Node {
    /// Probability that the policy gives to the move leading here.
    pub prior: Real,
    /// How many simulations passed through this node.
    pub visit_count: u32,
    /// Sum of the backed-up values, from the point of view of the side to move here.
    pub value_sum: Real,
    /// `(move handle, child index)` in the order in which the moves were generated.
    pub children: Vec<(u16, u32)>,
    /// Whether the moves of this node were generated.
    pub expanded: bool,
    /// Whether exploration noise was mixed into the priors of the children.
    pub noised: bool,
    /// Policy index of the move leading here; -1 at a fresh root.
    pub move_index: i32,
}

/// A [`Node`] as a mathematical value.
#[verifier::ext_equal]
pub struct NodeView {
    pub prior: Real,
    pub visit_count: u32,
    pub value_sum: Real,
    pub children: Seq<(u16, u32)>,
    pub expanded: bool,
    pub noised: bool,
    pub move_index: i32,
}

impl View for Node {
    type V = NodeView;

    open spec fn view(&self) -> NodeView {
        NodeView {
            prior: self.prior,
            visit_count: self.visit_count,
            value_sum: self.value_sum,
            children: self.children@,
            expanded: self.expanded,
            noised: self.noised,
            move_index: self.move_index,
        }
    }
}

/// The nodes of an arena as mathematical values.
pub open spec fn nodes(arena: Seq<Node>) -> Seq<NodeView> {
    Seq::new(arena.len(), |i: int| arena[i]@)
}

/// A node that was never visited and never expanded.
pub open spec fn fresh_node(prior: Real, move_index: i32) -> NodeView {
    NodeView {
        prior,
        visit_count: 0,
        value_sum: ZERO,
        children: Seq::empty(),
        expanded: false,
        noised: false,
        move_index,
    }
}

/// The arena of a tree that holds nothing but a fresh root.
pub open spec fn fresh_tree() -> Seq<NodeView> {
    seq![fresh_node(ZERO, (-1) as i32)]
}

/// Index of the `j`-th child of node `i`.
pub open spec fn child(a: Seq<NodeView>, i: int, j: int) -> int {
    a[i].children[j].1 as int
}

/// The nodes `lo..hi` are closed under links, link upwards only, share no child,
/// carry children only when expanded, and each child has a policy index.
pub open spec fn links_ok(a: Seq<NodeView>, lo: int, hi: int) -> bool {
    &&& 0 <= lo <= hi <= a.len()
    &&& forall|i: int, j: int|
        lo <= i < hi && 0 <= j < a[i].children.len() ==> i < #[trigger] child(a, i, j) < hi
    &&& forall|i: int, j: int, k: int, l: int|
        lo <= i < hi && lo <= k < hi && 0 <= j < a[i].children.len() && 0 <= l
            < a[k].children.len() && #[trigger] child(a, i, j) == #[trigger] child(a, k, l) ==> i
            == k && j == l
    &&& forall|i: int|
        lo <= i < hi && (#[trigger] a[i]).children.len() > 0 ==> a[i].expanded
    &&& forall|i: int, j: int|
        lo <= i < hi && 0 <= j < a[i].children.len() ==> 0 <= a[#[trigger] child(
            a,
            i,
            j,
        )].move_index < POLICY_SIZE
}

/// A non-empty arena whose links spell a tree and whose indices fit in a link.
pub open spec fn arena_wf(a: Seq<NodeView>) -> bool {
    &&& 1 <= a.len() <= u32::MAX
    &&& links_ok(a, 0, a.len() as int)
}

/// Every visit count is at most `bound`.
pub open spec fn visits_within(a: Seq<NodeView>, bound: int) -> bool {
    forall|i: int| 0 <= i < a.len() ==> (#[trigger] a[i]).visit_count <= bound
}

/// Every expanded node has children.
pub open spec fn bushy(a: Seq<NodeView>) -> bool {
    forall|i: int| 0 <= i < a.len() && (#[trigger] a[i]).expanded ==> a[i].children.len() > 0
}

/// The tree below a node, with the arena indices forgotten.
#[verifier::ext_equal]
pub struct Tree {
    pub prior: Real,
    pub visit_count: u32,
    pub value_sum: Real,
    pub expanded: bool,
    pub noised: bool,
    pub move_index: i32,
    pub children: Seq<(u16, Tree)>,
}

/// The tree that the arena spells below node `i`.
pub open spec fn tree_of(a: Seq<NodeView>, i: int) -> Tree
    decreases a.len() - i,
{
    Tree {
        prior: a[i].prior,
        visit_count: a[i].visit_count,
        value_sum: a[i].value_sum,
        expanded: a[i].expanded,
        noised: a[i].noised,
        move_index: a[i].move_index,
        children: Seq::new(
            a[i].children.len(),
            |j: int|
                (
                    a[i].children[j].0,
                    if i < child(a, i, j) < a.len() {
                        tree_of(a, child(a, i, j))
                    } else {
                        arbitrary()
                    },
                ),
        ),
    }
}

/// Number of nodes in the tree below node `i`.
pub open spec fn subtree_size(a: Seq<NodeView>, i: int) -> nat
    decreases a.len() - i, a[i].children.len() + 1,
{
    if 0 <= i < a.len() {
        1 + forest_size(a, i, a[i].children.len())
    } else {
        0
    }
}

/// Number of nodes in the trees below the first `j` children of node `i`.
pub open spec fn forest_size(a: Seq<NodeView>, i: int, j: nat) -> nat
    decreases a.len() - i, j,
{
    if j == 0 {
        0
    } else {
        let c = child(a, i, j - 1);
        forest_size(a, i, (j - 1) as nat) + if i < c < a.len() {
            subtree_size(a, c)
        } else {
            0
        }
    }
}

/// The links of a copy of node `i` to the copies of its first `n` children, which are laid out
/// one after the other from index `base` on.
pub open spec fn copied_edges(a: Seq<NodeView>, i: int, base: nat, n: nat) -> Seq<(u16, u32)> {
    Seq::new(
        n,
        |k: int| (a[i].children[k].0, (base + forest_size(a, i, k as nat)) as u32),
    )
}

/// The copy of the tree below node `i`, laid out from index `base` on: the node itself, and then
/// the trees below its children, in order.
pub open spec fn copied(a: Seq<NodeView>, i: int, base: nat) -> Seq<NodeView>
    decreases a.len() - i, a[i].children.len() + 1,
{
    if 0 <= i < a.len() {
        let n = a[i].children.len();
        seq![NodeView { children: copied_edges(a, i, base + 1, n), ..a[i] }] + copied_forest(
            a,
            i,
            base + 1,
            n,
        )
    } else {
        Seq::empty()
    }
}

/// The copies of the trees below the first `j` children of node `i`, laid out from index `base`
/// on.
pub open spec fn copied_forest(a: Seq<NodeView>, i: int, base: nat, j: nat) -> Seq<NodeView>
    decreases a.len() - i, j,
{
    if j == 0 {
        Seq::empty()
    } else {
        let c = child(a, i, j - 1);
        copied_forest(a, i, base, (j - 1) as nat) + if i < c < a.len() {
            copied(a, c, base + forest_size(a, i, (j - 1) as nat))
        } else {
            Seq::empty()
        }
    }
}

impl Node {
    /// A node that was never visited and never expanded.
    pub fn new(prior: Real, move_index: i32) -> (node: Self)
        ensures
            node@ == fresh_node(prior, move_index),
    {
        Node {
            prior,
            visit_count: 0,
            value_sum: ZERO,
            children: Vec::new(),
            expanded: false,
            noised: false,
            move_index,
        }
    }

    /// Mean backed-up value: zero before the first visit, and the quotient of the sum
    /// by the number of visits afterwards.
    pub fn q<A: Arithmetic>(&self, arith: &A) -> (r: Real)
        ensures
            self.visit_count == 0 ==> r == ZERO,
            self.visit_count > 0 ==> call_ensures(
                A::quotient,
                (arith, self.value_sum, self.visit_count),
                r,
            ),
    {
        if self.visit_count > 0 {
            arith.quotient(self.value_sum, self.visit_count)
        } else {
            ZERO
        }
    }
}

/// The indices of the nodes in the tree below node `i`.
spec fn members(a: Seq<NodeView>, i: int) -> Set<int>
    decreases a.len() - i, a[i].children.len() + 1,
{
    if 0 <= i < a.len() {
        forest_members(a, i, a[i].children.len()).insert(i)
    } else {
        Set::empty()
    }
}

/// The indices of the nodes below the first `j` children of node `i`.
spec fn forest_members(a: Seq<NodeView>, i: int, j: nat) -> Set<int>
    decreases a.len() - i, j,
{
    if j == 0 {
        Set::empty()
    } else {
        let c = child(a, i, j - 1);
        forest_members(a, i, (j - 1) as nat).union(
            if i < c < a.len() {
                members(a, c)
            } else {
                Set::empty()
            },
        )
    }
}

/// Every member of a tree but its root is the child of a member.
proof fn lemma_members_have_parents(a: Seq<NodeView>, i: int, x: int)
    requires
        links_ok(a, 0, a.len() as int),
        members(a, i).contains(x),
    ensures
        i <= x < a.len(),
        x != i ==> exists|p: int, l: int|
            members(a, i).contains(p) && 0 <= p < x && 0 <= l < a[p].children.len()
                && #[trigger] child(a, p, l) == x,
    decreases a.len() - i, a[i].children.len() + 1,
{
    if x != i {
        lemma_forest_members_have_parents(a, i, a[i].children.len(), x);
        let (p, l) = choose|p: int, l: int|
            (p == i || forest_members(a, i, a[i].children.len()).contains(p)) && 0 <= p < x && 0
                <= l < a[p].children.len() && #[trigger] child(a, p, l) == x;
        assert(members(a, i).contains(p));
    }
}

proof fn lemma_forest_members_have_parents(a: Seq<NodeView>, i: int, j: nat, x: int)
    requires
        links_ok(a, 0, a.len() as int),
        0 <= i < a.len(),
        j <= a[i].children.len(),
        forest_members(a, i, j).contains(x),
    ensures
        i < x < a.len(),
        exists|p: int, l: int|
            (p == i || forest_members(a, i, j).contains(p)) && 0 <= p < x && 0 <= l
                < a[p].children.len() && #[trigger] child(a, p, l) == x,
    decreases a.len() - i, j,
{
    if j > 0 {
        let c = child(a, i, j - 1);
        if forest_members(a, i, (j - 1) as nat).contains(x) {
            lemma_forest_members_have_parents(a, i, (j - 1) as nat, x);
            let (p, l) = choose|p: int, l: int|
                (p == i || forest_members(a, i, (j - 1) as nat).contains(p)) && 0 <= p < x && 0 <= l
                    < a[p].children.len() && #[trigger] child(a, p, l) == x;
            assert(p == i || forest_members(a, i, j).contains(p));
        } else {
            lemma_members_have_parents(a, c, x);
            if x == c {
                assert(child(a, i, j - 1) == x);
            } else {
                let (p, l) = choose|p: int, l: int|
                    members(a, c).contains(p) && 0 <= p < x && 0 <= l < a[p].children.len()
                        && #[trigger] child(a, p, l) == x;
                assert(forest_members(a, i, j).contains(p));
            }
        }
    }
}

/// Trees that meet are nested.
proof fn lemma_trees_nest(a: Seq<NodeView>, i: int, k: int, x: int)
    requires
        links_ok(a, 0, a.len() as int),
        members(a, i).contains(x),
        members(a, k).contains(x),
    ensures
        members(a, i).contains(k) || members(a, k).contains(i),
    decreases x,
{
    lemma_members_have_parents(a, i, x);
    lemma_members_have_parents(a, k, x);
    if x != i && x != k {
        let (p, l) = choose|p: int, l: int|
            members(a, i).contains(p) && 0 <= p < x && 0 <= l < a[p].children.len()
                && #[trigger] child(a, p, l) == x;
        let (q, m) = choose|q: int, m: int|
            members(a, k).contains(q) && 0 <= q < x && 0 <= m < a[q].children.len()
                && #[trigger] child(a, q, m) == x;
        assert(p == q);
        lemma_trees_nest(a, i, k, p);
    }
}

/// The trees below two children of one node are disjoint.
proof fn lemma_siblings_disjoint(a: Seq<NodeView>, i: int, j: int, k: int, x: int)
    requires
        links_ok(a, 0, a.len() as int),
        0 <= i < a.len(),
        0 <= j < a[i].children.len(),
        0 <= k < a[i].children.len(),
        j != k,
        members(a, child(a, i, j)).contains(x),
    ensures
        !members(a, child(a, i, k)).contains(x),
{
    let c = child(a, i, j);
    let d = child(a, i, k);
    if members(a, d).contains(x) {
        lemma_trees_nest(a, c, d, x);
        let (top, low, n) = if members(a, c).contains(d) {
            (c, d, k)
        } else {
            (d, c, j)
        };
        lemma_members_have_parents(a, top, low);
        assert(low != top);
        let (p, l) = choose|p: int, l: int|
            members(a, top).contains(p) && 0 <= p < low && 0 <= l < a[p].children.len()
                && #[trigger] child(a, p, l) == low;
        lemma_members_have_parents(a, top, p);
        assert(child(a, i, n) == low);
        assert(p == i);
    }
}

/// A tree has as many members as its size says.
proof fn lemma_member_count(a: Seq<NodeView>, i: int)
    requires
        links_ok(a, 0, a.len() as int),
        0 <= i < a.len(),
    ensures
        members(a, i).finite(),
        members(a, i).len() == subtree_size(a, i),
    decreases a.len() - i, a[i].children.len() + 1,
{
    let n = a[i].children.len();
    lemma_forest_member_count(a, i, n);
    if forest_members(a, i, n).contains(i) {
        lemma_forest_members_have_parents(a, i, n, i);
    }
}

proof fn lemma_forest_member_count(a: Seq<NodeView>, i: int, j: nat)
    requires
        links_ok(a, 0, a.len() as int),
        0 <= i < a.len(),
        j <= a[i].children.len(),
    ensures
        forest_members(a, i, j).finite(),
        forest_members(a, i, j).len() == forest_size(a, i, j),
    decreases a.len() - i, j,
{
    if j > 0 {
        let c = child(a, i, j - 1);
        let before = forest_members(a, i, (j - 1) as nat);
        lemma_forest_member_count(a, i, (j - 1) as nat);
        lemma_member_count(a, c);
        assert forall|x: int| before.contains(x) implies !members(a, c).contains(x) by {
            lemma_forest_member_sits_below_a_child(a, i, (j - 1) as nat, x);
            let k = choose|k: int|
                0 <= k < j - 1 && members(a, #[trigger] child(a, i, k)).contains(x);
            lemma_siblings_disjoint(a, i, k, j - 1, x);
        }
        assert(before.disjoint(members(a, c)));
        vstd::set_lib::lemma_set_disjoint_lens(before, members(a, c));
        assert(before.union(members(a, c)) == before + members(a, c));
    }
}

proof fn lemma_forest_member_sits_below_a_child(a: Seq<NodeView>, i: int, j: nat, x: int)
    requires
        links_ok(a, 0, a.len() as int),
        0 <= i < a.len(),
        j <= a[i].children.len(),
        forest_members(a, i, j).contains(x),
    ensures
        exists|k: int| 0 <= k < j && members(a, #[trigger] child(a, i, k)).contains(x),
    decreases j,
{
    if j > 0 {
        if forest_members(a, i, (j - 1) as nat).contains(x) {
            lemma_forest_member_sits_below_a_child(a, i, (j - 1) as nat, x);
            let k = choose|k: int|
                0 <= k < j - 1 && members(a, #[trigger] child(a, i, k)).contains(x);
            assert(members(a, child(a, i, k)).contains(x));
        } else {
            assert(members(a, child(a, i, j - 1)).contains(x));
        }
    }
}

/// No tree is larger than the part of the arena that starts at its root.
pub proof fn subtree_fits_in_the_arena(a: Seq<NodeView>, i: int)
    requires
        links_ok(a, 0, a.len() as int),
        0 <= i < a.len(),
    ensures
        1 <= subtree_size(a, i) <= a.len() - i,
{
    lemma_member_count(a, i);
    let range = vstd::set_lib::set_int_range(i, a.len() as int);
    vstd::set_lib::lemma_int_range(i, a.len() as int);
    assert forall|x: int| members(a, i).contains(x) implies range.contains(x) by {
        lemma_members_have_parents(a, i, x);
    }
    vstd::set_lib::lemma_len_subset(members(a, i), range);
}

/// A tree is spelled by the nodes of its segment alone.
proof fn lemma_tree_of_segment(a: Seq<NodeView>, b: Seq<NodeView>, lo: int, hi: int, i: int)
    requires
        links_ok(a, lo, hi),
        hi <= b.len(),
        forall|k: int| lo <= k < hi ==> #[trigger] a[k] == b[k],
        lo <= i < hi,
    ensures
        tree_of(a, i) == tree_of(b, i),
    decreases hi - i,
{
    let s = tree_of(a, i);
    let t = tree_of(b, i);
    assert(a[i] == b[i]);
    assert forall|j: int| 0 <= j < s.children.len() implies s.children[j] == t.children[j] by {
        assert(child(a, i, j) == child(b, i, j));
        lemma_tree_of_segment(a, b, lo, hi, child(a, i, j));
    }
    assert(s.children =~= t.children);
}

/// Adjacent closed segments form a closed segment.
proof fn lemma_join_segments(a: Seq<NodeView>, lo: int, mid: int, hi: int)
    requires
        links_ok(a, lo, mid),
        links_ok(a, mid, hi),
    ensures
        links_ok(a, lo, hi),
{
}

/// Closedness of a segment is a matter of its nodes alone.
proof fn lemma_links_of_segment(a: Seq<NodeView>, b: Seq<NodeView>, lo: int, hi: int)
    requires
        links_ok(a, lo, hi),
        hi <= b.len(),
        forall|k: int| lo <= k < hi ==> #[trigger] a[k] == b[k],
    ensures
        links_ok(b, lo, hi),
{
    assert forall|i: int, j: int| lo <= i < hi && 0 <= j < b[i].children.len() implies i
        < #[trigger] child(b, i, j) < hi by {
        assert(a[i] == b[i]);
        assert(child(a, i, j) == child(b, i, j));
    }
    assert forall|i: int, j: int, k: int, l: int|
        lo <= i < hi && lo <= k < hi && 0 <= j < b[i].children.len() && 0 <= l
            < b[k].children.len() && #[trigger] child(b, i, j) == #[trigger] child(
            b,
            k,
            l,
        ) implies i == k && j == l by {
        assert(a[i] == b[i] && a[k] == b[k]);
        assert(child(a, i, j) == child(b, i, j));
        assert(child(a, k, l) == child(b, k, l));
    }
    assert forall|i: int| lo <= i < hi && (#[trigger] b[i]).children.len() > 0 implies b[i].expanded by {
        assert(a[i] == b[i]);
    }
    assert forall|i: int, j: int| lo <= i < hi && 0 <= j < b[i].children.len() implies 0
        <= b[#[trigger] child(b, i, j)].move_index < POLICY_SIZE by {
        assert(a[i] == b[i]);
        assert(child(a, i, j) == child(b, i, j));
        assert(a[child(a, i, j)] == b[child(a, i, j)]);
    }
}

/// The nodes hold the same statistics and have equally many children.
pub open spec fn same_shape(x: NodeView, y: NodeView) -> bool {
    &&& x == (NodeView { children: x.children, ..y })
    &&& x.children.len() == y.children.len()
}

/// Copies the tree below `src[idx]` to the end of `new`, keeping the order of the
/// children, and returns where its root went. What `new` held is left alone.
pub fn copy_subtree(src: &[Node], idx: usize, new: &mut Vec<Node>) -> (my_idx: usize)
    requires
        links_ok(nodes(src@), 0, src@.len() as int),
        idx < src@.len(),
        old(new)@.len() + subtree_size(nodes(src@), idx as int) <= u32::MAX,
    ensures
        my_idx == old(new)@.len(),
        final(new)@.len() == old(new)@.len() + subtree_size(nodes(src@), idx as int),
        final(new)@.take(my_idx as int) == old(new)@,
        nodes(final(new)@) == nodes(old(new)@) + copied(
            nodes(src@),
            idx as int,
            old(new)@.len(),
        ),
        tree_of(nodes(final(new)@), my_idx as int) == tree_of(nodes(src@), idx as int),
        links_ok(nodes(final(new)@), my_idx as int, final(new)@.len() as int),
        forall|i: int|
            my_idx <= i < final(new)@.len() ==> exists|k: int|
                idx <= k < src@.len() && same_shape(
                    (#[trigger] final(new)@[i])@,
                    #[trigger] nodes(src@)[k],
                ),
    decreases src@.len() - idx,
{
    let ghost o = nodes(src@);
    let ghost held = new@;
    let my_idx: usize = new.len();
    let onode = &src[idx];
    let twin = Node {
        prior: onode.prior,
        visit_count: onode.visit_count,
        value_sum: onode.value_sum,
        children: Vec::new(),
        expanded: onode.expanded,
        noised: onode.noised,
        move_index: onode.move_index,
    };
    let ghost bare = twin@;
    assert(o[idx as int] == onode@);
    new.push(twin);
    let edges: &Vec<(u16, u32)> = &onode.children;
    let mut new_children: Vec<(u16, u32)> = Vec::new();
    let mut j: usize = 0;
    proof {
        assert(nodes(new@) =~= nodes(held).push(bare) + copied_forest(
            o,
            idx as int,
            (my_idx + 1) as nat,
            0,
        ));
        assert(new_children@ =~= copied_edges(o, idx as int, (my_idx + 1) as nat, 0));
    }
    while j < edges.len()
        invariant
            o == nodes(src@),
            links_ok(o, 0, src@.len() as int),
            idx < src@.len(),
            o.len() == src@.len(),
            edges@ == o[idx as int].children,
            my_idx == held.len(),
            held.len() + subtree_size(o, idx as int) <= u32::MAX,
            0 <= j <= edges@.len(),
            new_children@.len() == j,
            new@.len() == my_idx + 1 + forest_size(o, idx as int, j as nat),
            new@.take(my_idx as int) == held,
            new@[my_idx as int]@ == bare,
            nodes(new@) == nodes(held).push(bare) + copied_forest(
                o,
                idx as int,
                (my_idx + 1) as nat,
                j as nat,
            ),
            new_children@ == copied_edges(o, idx as int, (my_idx + 1) as nat, j as nat),
            bare == (NodeView { children: Seq::empty(), ..o[idx as int] }),
            links_ok(nodes(new@), my_idx + 1, new@.len() as int),
            forall|k: int|
                0 <= k < j ==> {
                    &&& (#[trigger] new_children@[k]).0 == edges@[k].0
                    &&& my_idx < new_children@[k].1 < new@.len()
                    &&& tree_of(nodes(new@), new_children@[k].1 as int) == tree_of(
                        o,
                        child(o, idx as int, k),
                    )
                    &&& nodes(new@)[new_children@[k].1 as int].move_index == o[child(
                        o,
                        idx as int,
                        k,
                    )].move_index
                },
            forall|k: int, l: int|
                0 <= k < l < j ==> (#[trigger] new_children@[k]).1 < (#[trigger] new_children@[l]).1,
            forall|i: int, l: int, k: int|
                my_idx < i < new@.len() && 0 <= l < new@[i].children@.len() && 0 <= k < j
                    ==> #[trigger] child(nodes(new@), i, l) != (#[trigger] new_children@[k]).1,
            forall|i: int|
                my_idx < i < new@.len() ==> exists|k: int|
                    idx <= k < src@.len() && same_shape(
                        (#[trigger] new@[i])@,
                        #[trigger] nodes(src@)[k],
                    ),
        decreases edges@.len() - j,
    {
        let (h, c) = edges[j];
        assert(c == child(o, idx as int, j as int));
        proof {
            lemma_forest_size_monotone(o, idx as int, (j + 1) as nat, edges@.len());
        }
        let ghost before = new@;
        let nc = copy_subtree(src, c as usize, new);
        let ghost b = nodes(before);
        let ghost a = nodes(new@);
        proof {
            assert forall|k: int| 0 <= k < nc implies #[trigger] b[k] == a[k] by {
                assert(new@.take(nc as int)[k] == new@[k]);
            }
            assert(new@.take(my_idx as int) =~= new@.take(nc as int).take(my_idx as int));
            lemma_links_of_segment(b, a, my_idx + 1, nc as int);
            lemma_join_segments(a, my_idx + 1, nc as int, new@.len() as int);
            assert forall|k: int| 0 <= k < j implies tree_of(
                a,
                (#[trigger] new_children@[k]).1 as int,
            ) == tree_of(o, child(o, idx as int, k)) && a[new_children@[k].1 as int].move_index
                == o[child(o, idx as int, k)].move_index by {
                lemma_tree_of_segment(b, a, my_idx + 1, nc as int, new_children@[k].1 as int);
                assert(b[new_children@[k].1 as int] == a[new_children@[k].1 as int]);
            }
            assert(tree_of(a, nc as int).move_index == tree_of(o, c as int).move_index);
            assert forall|i: int, l: int, k: int|
                my_idx < i < new@.len() && 0 <= l < new@[i].children@.len() && 0 <= k
                    < j implies #[trigger] child(a, i, l) != (#[trigger] new_children@[k]).1 by {
                if i < nc {
                    assert(b[i] == a[i]);
                    assert(child(b, i, l) == child(a, i, l));
                }
            }
            assert forall|i: int, l: int|
                my_idx < i < new@.len() && 0 <= l < new@[i].children@.len() implies #[trigger] child(
                a,
                i,
                l,
            ) != nc by {
                if i < nc {
                    assert(b[i] == a[i]);
                    assert(child(b, i, l) == child(a, i, l));
                }
            }
            assert forall|i: int| my_idx < i < new@.len() implies exists|k: int|
                idx <= k < src@.len() && same_shape(
                    (#[trigger] new@[i])@,
                    #[trigger] nodes(src@)[k],
                ) by {
                if i < nc {
                    assert(b[i] == a[i]);
                    assert(before[i]@ == new@[i]@);
                }
            }
        }
        new_children.push((h, nc as u32));
        proof {
            let base = (my_idx + 1) as nat;
            assert(a =~= nodes(held).push(bare) + copied_forest(o, idx as int, base, (j + 1) as nat));
            assert(new_children@ =~= copied_edges(o, idx as int, base, (j + 1) as nat));
        }
        j += 1;
    }
    let ghost before = nodes(new@);
    let ghost arena = new@;
    new[my_idx].children = new_children;
    proof {
        let a = nodes(new@);
        let hi = new@.len() as int;
        assert(new@.take(my_idx as int) =~= held) by {
            assert(arena.take(my_idx as int) == held);
        }
        assert forall|k: int| my_idx < k < hi implies #[trigger] before[k] == a[k] by {}
        lemma_links_of_segment(before, a, my_idx + 1, hi);
        assert(a[my_idx as int].children == new_children@);
        assert forall|k: int| 0 <= k < new_children@.len() implies child(a, my_idx as int, k)
            == (#[trigger] new_children@[k]).1 by {}
        assert(links_ok(a, my_idx as int, hi)) by {
            assert forall|i: int, j: int, k: int, l: int|
                my_idx <= i < hi && my_idx <= k < hi && 0 <= j < a[i].children.len() && 0 <= l
                    < a[k].children.len() && #[trigger] child(a, i, j) == #[trigger] child(
                    a,
                    k,
                    l,
                ) implies i == k && j == l by {
                if i > my_idx {
                    assert(before[i] == a[i]);
                    assert(child(before, i, j) == child(a, i, j));
                }
                if k > my_idx {
                    assert(before[k] == a[k]);
                    assert(child(before, k, l) == child(a, k, l));
                }
                if i == my_idx {
                    assert(child(a, i, j) == new_children@[j].1);
                }
                if k == my_idx {
                    assert(child(a, k, l) == new_children@[l].1);
                }
            }
            assert forall|i: int, j: int|
                my_idx <= i < hi && 0 <= j < a[i].children.len() implies 0 <= a[#[trigger] child(
                a,
                i,
                j,
            )].move_index < POLICY_SIZE by {
                if i == my_idx {
                    assert(child(a, i, j) == new_children@[j].1);
                    assert(before[child(a, i, j)] == a[child(a, i, j)]);
                }
            }
            if new_children@.len() > 0 {
                assert(o[idx as int].expanded);
            }
            assert forall|i: int, j: int| my_idx <= i < hi && 0 <= j < a[i].children.len() implies i
                < #[trigger] child(a, i, j) < hi by {
                if i == my_idx {
                    assert(child(a, i, j) == new_children@[j].1);
                }
            }
        }
        assert(a =~= nodes(held) + copied(o, idx as int, held.len())) by {
            let forest = copied_forest(o, idx as int, held.len() + 1, new_children@.len());
            let root = NodeView { children: new_children@, ..o[idx as int] };
            assert(copied(o, idx as int, held.len()) == seq![root] + forest);
            assert(a[my_idx as int] == root);
            assert forall|k: int| 0 <= k < my_idx implies #[trigger] a[k] == nodes(held)[k] by {
                assert(new@.take(my_idx as int)[k] == new@[k]);
            }
            let want = nodes(held) + (seq![root] + forest);
            assert(before == nodes(held).push(bare) + forest);
            assert(a.len() == want.len());
            assert forall|k: int| 0 <= k < a.len() implies #[trigger] a[k] == want[k] by {
                if k > my_idx {
                    assert(before[k] == a[k]);
                    assert(before[k] == forest[k - my_idx - 1]);
                    assert(want[k] == forest[k - my_idx - 1]);
                }
            }
            assert(a =~= want);
        }
        let s = tree_of(a, my_idx as int);
        let t = tree_of(o, idx as int);
        assert forall|k: int| 0 <= k < s.children.len() implies s.children[k] == t.children[k] by {
            let c = new_children@[k].1 as int;
            assert(child(a, my_idx as int, k) == c);
            lemma_tree_of_segment(before, a, my_idx + 1, hi, c);
        }
        assert(s.children =~= t.children);
        assert forall|i: int| my_idx <= i < hi implies exists|k: int|
            idx <= k < src@.len() && same_shape((#[trigger] new@[i])@, #[trigger] nodes(src@)[k]) by {
            if i == my_idx {
                assert(same_shape(new@[i]@, nodes(src@)[idx as int]));
            } else {
                assert(before[i] == a[i]);
                assert(arena[i]@ == new@[i]@);
            }
        }
    }
    my_idx
}

proof fn lemma_forest_size_monotone(a: Seq<NodeView>, i: int, j: nat, k: nat)
    requires
        j <= k,
    ensures
        forest_size(a, i, j) <= forest_size(a, i, k),
    decreases k,
{
    if j < k {
        lemma_forest_size_monotone(a, i, j, (k - 1) as nat);
    }
}

} // verus!
