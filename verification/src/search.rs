//! The search tree: an arena of nodes, each a snapshot reached from the root
//! by a sequence of actions, with the statistics gathered below it.

use crate::action::Action;
use crate::eval::outcome;
use crate::playout::{played_out, reaches, rollout};
use crate::random::{choose_action, seeded_rng};
use crate::rules::{get_new_state, is_fit, next_state, state_fits};
use crate::state::{GameState, Snapshot, FINAL_DAY};
use crate::uct::{
    key_bound, lemma_score_order, lemma_zero_rate_compares_means, score_above, uct_above, uct_key,
    uct_value, MAX_VISITS,
};
use rand::rngs::StdRng;
use vstd::prelude::*;

verus! {

/// One node of the search tree.
#[derive(Debug)]
pub struct Node {
    /// Handle of the node this one was expanded from; the root has none.
    pub parent: Option<usize>,
    /// Handles of the nodes expanded from this one, in the order of their
    /// expansion.
    pub children: Vec<usize>,
    /// The action that led here from the parent.
    pub action: Action,
    /// Number of playouts that went through this node.
    pub visits: u64,
    /// Sum of the outcomes of those playouts.
    pub wins: i64,
    /// The snapshot the node stands for.
    pub state: GameState,
}

/// The model of a node.
pub struct NodeModel {
    pub parent: Option<usize>,
    pub children: Seq<usize>,
    pub action: Action,
    pub visits: int,
    pub wins: int,
    pub state: Snapshot,
}

impl View for Node {
    type V = NodeModel;

    open spec fn view(&self) -> NodeModel {
        NodeModel {
            parent: self.parent,
            children: self.children@,
            action: self.action,
            visits: self.visits as int,
            wins: self.wins as int,
            state: self.state@,
        }
    }
}

/// The search tree. Node 0 is the root; a handle is a position in `nodes`.
#[derive(Debug)]
pub struct SearchTree {
    pub nodes: Vec<Node>,
    /// Weight of the exploration bonus in the selection score, in units of
    /// the outcome: 1000 weighs a bonus of one like the gap between a draw
    /// and the best outcome.
    pub explore_rate: u32,
}

impl View for SearchTree {
    type V = Seq<NodeModel>;

    open spec fn view(&self) -> Seq<NodeModel> {
        Seq::new(self.nodes@.len(), |i: int| self.nodes@[i]@)
    }
}

/// The root has no parent; every other node has a parent with a smaller
/// handle, and is one of its children.
pub open spec fn parent_fits(t: Seq<NodeModel>, i: int) -> bool {
    if i == 0 {
        t[i].parent is None
    } else {
        &&& t[i].parent is Some
        &&& t[i].parent.unwrap() < i
        &&& t[t[i].parent.unwrap() as int].children.contains(i as usize)
    }
}

/// Each child of node `i` is a later node that names `i` as its parent.
pub open spec fn children_fit(t: Seq<NodeModel>, i: int) -> bool {
    forall|k: int|
        0 <= k < t[i].children.len() ==> i < #[trigger] t[i].children[k] < t.len()
            && t[t[i].children[k] as int].parent == Some(i as usize)
}

/// No two children of node `i` were reached by the same action.
pub open spec fn children_distinct(t: Seq<NodeModel>, i: int) -> bool {
    forall|k: int, l: int|
        0 <= k < l < t[i].children.len() ==> t[#[trigger] t[i].children[k] as int].action
            != t[#[trigger] t[i].children[l] as int].action
}

/// A node other than the root holds the snapshot that follows its parent's
/// when the parent's player chooses the node's action, one of the parent's
/// legal actions.
pub open spec fn follows_parent(t: Seq<NodeModel>, i: int) -> bool {
    i > 0 ==> {
        let p = t[i].parent.unwrap() as int;
        &&& t[p].state.day < FINAL_DAY
        &&& t[p].state.action_list.contains(t[i].action)
        &&& t[i].state == next_state(t[p].state, t[i].action)
    }
}

/// The outcomes counted at a node are as many as its visits, each within
/// the range of an outcome, and a node is visited no more often than its
/// parent.
pub open spec fn stats_fit(t: Seq<NodeModel>, i: int) -> bool {
    &&& 0 <= t[i].visits <= MAX_VISITS
    &&& -1000 * t[i].visits <= t[i].wins <= 1000 * t[i].visits
    &&& i > 0 ==> t[i].visits <= t[t[i].parent.unwrap() as int].visits
}

/// What holds of each node of a search tree.
pub open spec fn node_wf(t: Seq<NodeModel>, i: int) -> bool {
    &&& parent_fits(t, i)
    &&& children_fit(t, i)
    &&& children_distinct(t, i)
    &&& follows_parent(t, i)
    &&& stats_fit(t, i)
    &&& state_fits(t[i].state)
}

/// The invariant of the search tree.
pub open spec fn tree_wf(t: Seq<NodeModel>) -> bool {
    &&& t.len() > 0
    &&& forall|i: int| 0 <= i < t.len() ==> #[trigger] node_wf(t, i)
}

/// Whether node `i` has a child that was reached by action `a`.
pub open spec fn tried(t: Seq<NodeModel>, i: int, a: Action) -> bool {
    exists|k: int|
        0 <= k < t[i].children.len() && t[#[trigger] t[i].children[k] as int].action == a
}

/// Whether each legal action of node `i` has a child.
pub open spec fn fully_expanded(t: Seq<NodeModel>, i: int) -> bool {
    forall|j: int|
        0 <= j < t[i].state.action_list.len() ==> tried(t, i, #[trigger] t[i].state.action_list[j])
}

/// Whether the match is over at node `i`.
pub open spec fn terminal(t: Seq<NodeModel>, i: int) -> bool {
    t[i].state.day >= FINAL_DAY
}

impl SearchTree {
    /// The invariant of the search tree.
    pub open spec fn wf(&self) -> bool {
        tree_wf(self@)
    }

    /// A tree that holds the root only, with no playout counted.
    pub fn new(state: GameState, explore_rate: u32) -> (tree: SearchTree)
        requires
            state_fits(state@),
        ensures
            tree.wf(),
            tree@ == root_only(state@),
            tree.explore_rate == explore_rate,
    {
        let root = Node {
            parent: None,
            children: Vec::new(),
            action: Action::Wait,
            visits: 0,
            wins: 0,
            state,
        };
        let mut nodes: Vec<Node> = Vec::new();
        nodes.push(root);
        let tree = SearchTree { nodes, explore_rate };
        assert(tree@ =~= root_only(state@));
        assert(node_wf(tree@, 0));
        tree
    }

    /// Number of nodes.
    pub fn len(&self) -> (n: usize)
        ensures
            n == self@.len(),
    {
        self.nodes.len()
    }
}

/// Whether `node` has a child that was reached by `action`.
pub fn has_child_for(tree: &SearchTree, node: usize, action: Action) -> (found: bool)
    requires
        tree.wf(),
        node < tree@.len(),
    ensures
        found == tried(tree@, node as int, action),
{
    assert(node_wf(tree@, node as int));
    let mut k: usize = 0;
    while k < tree.nodes[node].children.len()
        invariant
            node < tree@.len(),
            children_fit(tree@, node as int),
            k <= tree@[node as int].children.len(),
            forall|l: int|
                0 <= l < k ==> tree@[#[trigger] tree@[node as int].children[l] as int].action
                    != action,
        decreases tree@[node as int].children.len() - k,
    {
        let child = tree.nodes[node].children[k];
        assert(child == tree@[node as int].children[k as int]);
        if tree.nodes[child].action == action {
            return true;
        }
        k += 1;
    }
    false
}

/// Whether each legal action of `node` has been tried.
pub fn is_fully_expanded(tree: &SearchTree, node: usize) -> (full: bool)
    requires
        tree.wf(),
        node < tree@.len(),
    ensures
        full == fully_expanded(tree@, node as int),
{
    let mut j: usize = 0;
    while j < tree.nodes[node].state.action_list.len()
        invariant
            tree.wf(),
            node < tree@.len(),
            j <= tree@[node as int].state.action_list.len(),
            forall|l: int|
                0 <= l < j ==> tried(
                    tree@,
                    node as int,
                    #[trigger] tree@[node as int].state.action_list[l],
                ),
        decreases tree@[node as int].state.action_list.len() - j,
    {
        let action = tree.nodes[node].state.action_list[j];
        if !has_child_for(tree, node, action) {
            return false;
        }
        j += 1;
    }
    true
}

/// The numerator of the selection score of the `k`-th child of `node`.
pub open spec fn child_key(t: Seq<NodeModel>, rate: int, node: int, k: int) -> int {
    let c = t[node].children[k] as int;
    uct_key(t[c].wins, t[c].visits, t[node].visits, rate)
}

/// Whether the selection score of the `k`-th child of `node` is above that
/// of the `l`-th.
pub open spec fn child_above(t: Seq<NodeModel>, rate: int, node: int, k: int, l: int) -> bool {
    score_above(
        child_key(t, rate, node, k),
        t[t[node].children[k] as int].visits,
        child_key(t, rate, node, l),
        t[t[node].children[l] as int].visits,
    )
}

/// Whether some child of `node` has not been visited yet.
pub open spec fn has_unvisited_child(t: Seq<NodeModel>, node: int) -> bool {
    exists|j: int|
        0 <= j < t[node].children.len() && t[#[trigger] t[node].children[j] as int].visits == 0
}

/// Whether the `k`-th child of `node` is the one that selection descends
/// to: the first child that was never visited, if there is one, and
/// otherwise the first of the children with the highest selection score.
pub open spec fn is_selected(t: Seq<NodeModel>, rate: int, node: int, k: int) -> bool {
    let kids = t[node].children;
    &&& 0 <= k < kids.len()
    &&& if has_unvisited_child(t, node) {
        &&& t[kids[k] as int].visits == 0
        &&& forall|j: int| 0 <= j < k ==> t[#[trigger] kids[j] as int].visits != 0
    } else {
        &&& forall|j: int| 0 <= j < kids.len() ==> !#[trigger] child_above(t, rate, node, j, k)
        &&& forall|j: int| 0 <= j < k ==> #[trigger] child_above(t, rate, node, k, j)
    }
}

/// Selection descends to one child only.
pub proof fn lemma_selection_unique(t: Seq<NodeModel>, rate: int, node: int, k: int, l: int)
    requires
        is_selected(t, rate, node, k),
        is_selected(t, rate, node, l),
    ensures
        k == l,
{
    if has_unvisited_child(t, node) {
        if k < l {
            assert(t[t[node].children[k] as int].visits != 0);
        } else if l < k {
            assert(t[t[node].children[l] as int].visits != 0);
        }
    } else {
        if k < l {
            assert(child_above(t, rate, node, l, k));
            assert(!child_above(t, rate, node, l, k));
        } else if l < k {
            assert(child_above(t, rate, node, k, l));
            assert(!child_above(t, rate, node, k, l));
        }
    }
}

/// With no weight on exploration, selection among children that were all
/// visited is pure exploitation: no child has a higher mean outcome than the
/// selected one.
pub proof fn lemma_zero_rate_exploits(t: Seq<NodeModel>, node: int, k: int, j: int)
    requires
        forall|l: int|
            0 <= l < t[node].children.len() ==> t[#[trigger] t[node].children[l] as int].visits
                > 0,
        is_selected(t, 0, node, k),
        0 <= j < t[node].children.len(),
    ensures
        t[t[node].children[j] as int].wins * t[t[node].children[k] as int].visits
            <= t[t[node].children[k] as int].wins * t[t[node].children[j] as int].visits,
{
    let cj = t[node].children[j] as int;
    let ck = t[node].children[k] as int;
    assert(!has_unvisited_child(t, node)) by {
        if has_unvisited_child(t, node) {
            let l = choose|l: int|
                0 <= l < t[node].children.len() && t[#[trigger] t[node].children[l] as int].visits
                    == 0;
            assert(t[t[node].children[l] as int].visits > 0);
        }
    }
    assert(!child_above(t, 0, node, j, k));
    lemma_zero_rate_compares_means(
        t[cj].wins,
        t[cj].visits,
        t[ck].wins,
        t[ck].visits,
        t[node].visits,
    );
}

/// The child of `node` to descend to: the first child that was never
/// visited, if there is one, and otherwise the first of the children with
/// the highest selection score.
pub fn select_child_by_utc(tree: &SearchTree, node: usize) -> (child: usize)
    requires
        tree.wf(),
        node < tree@.len(),
        tree@[node as int].children.len() > 0,
    ensures
        exists|k: int|
            is_selected(tree@, tree.explore_rate as int, node as int, k) && child
                == tree@[node as int].children[k],
        node < child < tree@.len(),
        tree@[child as int].parent == Some(node),
{
    let ghost t = tree@;
    let ghost rate = tree.explore_rate as int;
    let ghost n = node as int;
    assert(node_wf(t, n));
    let count = tree.nodes[node].children.len();
    let mut k: usize = 0;
    while k < count
        invariant
            t == tree@,
            tree.wf(),
            node < t.len(),
            n == node,
            count == t[n].children.len(),
            children_fit(t, n),
            k <= count,
            forall|j: int| 0 <= j < k ==> t[#[trigger] t[n].children[j] as int].visits != 0,
        decreases count - k,
    {
        let c = tree.nodes[node].children[k];
        assert(c == t[n].children[k as int]);
        if tree.nodes[c].visits == 0 {
            assert(is_selected(t, rate, n, k as int));
            return c;
        }
        k += 1;
    }
    assert(!has_unvisited_child(t, n));
    let parent_visits = tree.nodes[node].visits;
    let first = tree.nodes[node].children[0];
    assert(first == t[n].children[0]);
    assert(node_wf(t, first as int));
    let mut best: usize = 0;
    let mut best_visits: u64 = tree.nodes[first].visits;
    let mut best_key: i128 = uct_value(
        tree.nodes[first].wins,
        best_visits,
        parent_visits,
        tree.explore_rate,
    );
    let mut k: usize = 1;
    while k < count
        invariant
            t == tree@,
            tree.wf(),
            rate == tree.explore_rate,
            node < t.len(),
            n == node,
            count == t[n].children.len(),
            children_fit(t, n),
            stats_fit(t, n),
            parent_visits == t[n].visits,
            1 <= k <= count,
            best < k,
            best_visits == t[t[n].children[best as int] as int].visits,
            best_visits <= MAX_VISITS,
            best_key == child_key(t, rate, n, best as int),
            -key_bound() < best_key < key_bound(),
            forall|j: int| 0 <= j < count ==> t[#[trigger] t[n].children[j] as int].visits > 0,
            forall|j: int| 0 <= j < k ==> !#[trigger] child_above(t, rate, n, j, best as int),
            forall|j: int| 0 <= j < best ==> #[trigger] child_above(t, rate, n, best as int, j),
        decreases count - k,
    {
        let c = tree.nodes[node].children[k];
        assert(c == t[n].children[k as int]);
        assert(node_wf(t, c as int));
        let visits = tree.nodes[c].visits;
        let key = uct_value(tree.nodes[c].wins, visits, parent_visits, tree.explore_rate);
        assert(key == child_key(t, rate, n, k as int));
        if uct_above(key, visits, best_key, best_visits) {
            assert(child_above(t, rate, n, k as int, best as int));
            assert forall|j: int| 0 <= j < k implies #[trigger] child_above(
                t,
                rate,
                n,
                k as int,
                j,
            ) by {
                assert(!child_above(t, rate, n, j, best as int));
                let cj = t[n].children[j] as int;
                lemma_score_order(
                    child_key(t, rate, n, j),
                    t[cj].visits,
                    best_key as int,
                    best_visits as int,
                    key as int,
                    visits as int,
                );
            }
            assert forall|j: int| 0 <= j < k + 1 implies !#[trigger] child_above(
                t,
                rate,
                n,
                j,
                k as int,
            ) by {
                if j < k {
                    assert(child_above(t, rate, n, k as int, j));
                }
            }
            best = k;
            best_visits = visits;
            best_key = key;
        }
        k += 1;
    }
    let chosen = tree.nodes[node].children[best];
    assert(chosen == t[n].children[best as int]);
    assert(is_selected(t, rate, n, best as int));
    chosen
}

/// The tree `t` with one more node: a child of `parent`, reached by
/// `action`, with no playout counted.
pub open spec fn attached(t: Seq<NodeModel>, parent: int, action: Action) -> Seq<NodeModel> {
    let child = NodeModel {
        parent: Some(parent as usize),
        children: Seq::empty(),
        action,
        visits: 0,
        wins: 0,
        state: next_state(t[parent].state, action),
    };
    let grown = NodeModel { children: t[parent].children.push(t.len() as usize), ..t[parent] };
    t.update(parent, grown).push(child)
}

/// Whether `a` is a legal action of `node` that has no child yet.
pub open spec fn untried(t: Seq<NodeModel>, node: int, a: Action) -> bool {
    t[node].state.action_list.contains(a) && !tried(t, node, a)
}

/// Adds to `parent` the child that `action` leads to, and returns its
/// handle.
pub fn attach_child(tree: &mut SearchTree, parent: usize, action: Action) -> (child: usize)
    requires
        old(tree).wf(),
        parent < old(tree)@.len(),
        old(tree)@[parent as int].state.day < FINAL_DAY,
        untried(old(tree)@, parent as int, action),
    ensures
        final(tree)@ == attached(old(tree)@, parent as int, action),
        final(tree).explore_rate == old(tree).explore_rate,
        final(tree).wf(),
        child == old(tree)@.len(),
{
    let ghost t = tree@;
    let ghost p = parent as int;
    let child = tree.nodes.len();
    assert(node_wf(t, p));
    let state = get_new_state(&tree.nodes[parent].state, action);
    tree.nodes[parent].children.push(child);
    tree.nodes.push(
        Node { parent: Some(parent), children: Vec::new(), action, visits: 0, wins: 0, state },
    );
    let ghost r = tree@;
    assert(r =~= attached(t, p, action));
    assert(r[p].children.last() == child);
    assert forall|i: int| 0 <= i < r.len() implies #[trigger] node_wf(r, i) by {
        if i < t.len() {
            assert(node_wf(t, i));
            if i > 0 {
                let q = t[i].parent.unwrap() as int;
                assert(node_wf(t, q));
                let k = choose|k: int| 0 <= k < t[q].children.len() && t[q].children[k] == i;
                assert(r[q].children[k] == i);
            }
            assert(children_fit(r, i));
            assert(children_distinct(r, i)) by {
                if i == p {
                    assert forall|k: int, l: int| 0 <= k < l < r[i].children.len() implies r[
                    #[trigger] r[i].children[k] as int].action != r[#[trigger] r[i].children[l] as int].action by {
                        if l == t[p].children.len() {
                            assert(t[t[p].children[k] as int].action != action);
                        }
                    }
                }
            }
        } else {
            assert(r[p].children[t[p].children.len() as int] == i);
        }
    }
    child
}

/// The legal actions of `node` that have no child yet, in the order of the
/// node's list.
pub fn untried_actions(tree: &SearchTree, node: usize) -> (list: Vec<Action>)
    requires
        tree.wf(),
        node < tree@.len(),
    ensures
        list@ == tree@[node as int].state.action_list.filter(
            |a: Action| !tried(tree@, node as int, a),
        ),
        forall|a: Action| #[trigger] list@.contains(a) <==> untried(tree@, node as int, a),
{
    let ghost all = tree@[node as int].state.action_list;
    let ghost fresh = |a: Action| !tried(tree@, node as int, a);
    let mut list: Vec<Action> = Vec::new();
    let mut j: usize = 0;
    proof {
        reveal(Seq::filter);
        assert(all.take(0).filter(fresh) =~= Seq::<Action>::empty());
    }
    while j < tree.nodes[node].state.action_list.len()
        invariant
            tree.wf(),
            node < tree@.len(),
            all == tree@[node as int].state.action_list,
            fresh == |a: Action| !tried(tree@, node as int, a),
            j <= all.len(),
            list@ == all.take(j as int).filter(fresh),
        decreases all.len() - j,
    {
        let action = tree.nodes[node].state.action_list[j];
        proof {
            assert(all.take(j + 1) =~= all.take(j as int).push(action));
            all.take(j as int).lemma_filter_push(action, fresh);
        }
        if !has_child_for(tree, node, action) {
            list.push(action);
        }
        j += 1;
    }
    proof {
        broadcast use vstd::seq_lib::group_filter_ensures;

        assert(all.take(all.len() as int) =~= all);
        assert forall|a: Action| #[trigger] list@.contains(a) <==> untried(
            tree@,
            node as int,
            a,
        ) by {
            if list@.contains(a) {
                let i = choose|i: int| 0 <= i < list@.len() && list@[i] == a;
                assert(fresh(list@[i]));
                all.lemma_filter_contains_rev(fresh, a);
            }
            if untried(tree@, node as int, a) {
                let i = choose|i: int| 0 <= i < all.len() && all[i] == a;
                assert(fresh(all[i]));
                assert(all.filter(fresh).contains(all[i]));
            }
        }
    }
    list
}

/// Expands `parent` by one of its untried actions, picked at random, and
/// returns the handle of the new child.
pub fn expand_and_select_child(tree: &mut SearchTree, parent: usize, rng: &mut StdRng) -> (child:
    usize)
    requires
        old(tree).wf(),
        parent < old(tree)@.len(),
        old(tree)@[parent as int].state.day < FINAL_DAY,
        !fully_expanded(old(tree)@, parent as int),
    ensures
        exists|a: Action|
            untried(old(tree)@, parent as int, a) && final(tree)@ == attached(
                old(tree)@,
                parent as int,
                a,
            ),
        final(tree).explore_rate == old(tree).explore_rate,
        final(tree).wf(),
        child == old(tree)@.len(),
{
    let ghost t = tree@;
    let unused_actions = untried_actions(tree, parent);
    proof {
        let j = choose|j: int|
            0 <= j < t[parent as int].state.action_list.len() && !tried(
                t,
                parent as int,
                #[trigger] t[parent as int].state.action_list[j],
            );
        let a = t[parent as int].state.action_list[j];
        assert(t[parent as int].state.action_list.contains(a));
        assert(unused_actions@.contains(a));
    }
    let picked = choose_action(&unused_actions, rng);
    let action = picked.unwrap();
    attach_child(tree, parent, action)
}

/// Whether node `i` lies on the way from node `from` up to the root, the
/// two ends included.
pub open spec fn on_path(t: Seq<NodeModel>, from: int, i: int) -> bool
    decreases from,
{
    from == i || (from > 0 && t[from].parent is Some && t[from].parent.unwrap() < from && on_path(
        t,
        t[from].parent.unwrap() as int,
        i,
    ))
}

/// The node with one more playout counted, of the given outcome.
pub open spec fn credited(n: NodeModel, outcome: int) -> NodeModel {
    NodeModel { visits: n.visits + 1, wins: n.wins + outcome, ..n }
}

/// The tree with a playout of the given outcome counted at `leaf` and at
/// each of its ancestors, and nowhere else.
pub open spec fn backed_up(t: Seq<NodeModel>, leaf: int, outcome: int) -> Seq<NodeModel> {
    Seq::new(
        t.len(),
        |i: int|
            if on_path(t, leaf, i) {
                credited(t[i], outcome)
            } else {
                t[i]
            },
    )
}

/// The way up from a node holds no node with a larger handle.
pub proof fn lemma_path_goes_up(t: Seq<NodeModel>, from: int, i: int)
    requires
        on_path(t, from, i),
    ensures
        i <= from,
    decreases from,
{
    if from != i {
        lemma_path_goes_up(t, t[from].parent.unwrap() as int, i);
    }
}

/// The way up from any node ends at the root.
pub proof fn lemma_path_reaches_root(t: Seq<NodeModel>, from: int)
    requires
        tree_wf(t),
        0 <= from < t.len(),
    ensures
        on_path(t, from, 0),
    decreases from,
{
    assert(node_wf(t, from));
    if from > 0 {
        lemma_path_reaches_root(t, t[from].parent.unwrap() as int);
    }
}

/// Counts a playout of the given outcome at `node` and at each of its
/// ancestors up to the root.
pub fn backpropagate(tree: &mut SearchTree, node: usize, outcome: i64)
    requires
        old(tree).wf(),
        node < old(tree)@.len(),
        -1000 <= outcome <= 1000,
        old(tree)@[0].visits < MAX_VISITS,
    ensures
        final(tree)@ == backed_up(old(tree)@, node as int, outcome as int),
        final(tree).explore_rate == old(tree).explore_rate,
        final(tree).wf(),
    decreases node,
{
    let ghost t = tree@;
    let ghost n = node as int;
    assert(node_wf(t, n));
    let parent = tree.nodes[node].parent;
    match parent {
        Some(p) => {
            backpropagate(tree, p, outcome);
        },
        None => {},
    }
    let ghost mid = tree@;
    assert(mid.len() == t.len());
    assert(mid[n] == t[n]) by {
        if parent is Some {
            if on_path(t, parent.unwrap() as int, n) {
                lemma_path_goes_up(t, parent.unwrap() as int, n);
            }
        }
    }
    assert(node_wf(mid, n));
    assert(mid[n].visits < MAX_VISITS) by {
        if parent is Some {
            let p = parent.unwrap() as int;
            assert(on_path(t, p, p));
            assert(node_wf(mid, p));
            assert(mid[p] == credited(t[p], outcome as int));
        } else {
            assert(n == 0);
        }
    }
    tree.nodes[node].visits = tree.nodes[node].visits + 1;
    tree.nodes[node].wins = tree.nodes[node].wins + outcome;
    let ghost r = tree@;
    assert(r =~= backed_up(t, n, outcome as int)) by {
        assert forall|i: int| 0 <= i < t.len() implies r[i] == backed_up(t, n, outcome as int)[i] by {
            if i != n {
                assert(r[i] == mid[i]);
            }
        }
    }
    assert forall|i: int| 0 <= i < r.len() implies #[trigger] node_wf(r, i) by {
        assert(node_wf(mid, i));
        if i > 0 {
            assert(node_wf(mid, mid[i].parent.unwrap() as int));
        }
        assert(parent_fits(r, i));
        assert(children_fit(r, i));
        assert(children_distinct(r, i));
        assert(follows_parent(r, i));
        assert(stats_fit(r, i)) by {
            if i == n && parent is Some {
                assert(on_path(t, parent.unwrap() as int, parent.unwrap() as int));
            }
        }
    }
}

/// Whether selection goes no further than `node`: the match is over there,
/// or the node has no child, or one of its legal actions is untried.
pub open spec fn stops_at(t: Seq<NodeModel>, node: int) -> bool {
    terminal(t, node) || t[node].children.len() == 0 || !fully_expanded(t, node)
}

/// Whether selection, starting at the root, comes to `node`: each node on
/// the way was one to go on from, and each step went to the selected child.
pub open spec fn reached_by_selection(t: Seq<NodeModel>, rate: int, node: int) -> bool
    decreases node,
{
    node == 0 || {
        let p = t[node].parent.unwrap() as int;
        &&& node > 0
        &&& t[node].parent is Some
        &&& p < node
        &&& !stops_at(t, p)
        &&& exists|k: int| #[trigger] is_selected(t, rate, p, k) && t[p].children[k] == node
        &&& reached_by_selection(t, rate, p)
    }
}

/// What a descent leaves behind when it stopped at `stop` and returned
/// `leaf`: where there was nothing to expand, the tree as it was and the
/// node itself; otherwise the tree with a new child of `stop` for one of its
/// untried actions, and that child.
pub open spec fn expanded_at(
    before: Seq<NodeModel>,
    after: Seq<NodeModel>,
    stop: int,
    leaf: int,
) -> bool {
    if terminal(before, stop) || fully_expanded(before, stop) {
        after == before && leaf == stop
    } else {
        leaf == before.len() && exists|a: Action|
            untried(before, stop, a) && after == #[trigger] attached(before, stop, a)
    }
}

/// One descent: from the root down by selection to a node to stop at, which
/// is then expanded by one child if it can be. Returns the new child, or the
/// node itself where there was nothing to expand.
pub fn traverse(tree: &mut SearchTree, rng: &mut StdRng) -> (leaf: usize)
    requires
        old(tree).wf(),
    ensures
        final(tree).wf(),
        final(tree).explore_rate == old(tree).explore_rate,
        leaf < final(tree)@.len(),
        exists|stop: int|
            0 <= stop < old(tree)@.len() && #[trigger] reached_by_selection(
                old(tree)@,
                old(tree).explore_rate as int,
                stop,
            ) && stops_at(old(tree)@, stop) && expanded_at(
                old(tree)@,
                final(tree)@,
                stop,
                leaf as int,
            ),
{
    let ghost t = tree@;
    let ghost rate = tree.explore_rate as int;
    let mut current_node: usize = 0;
    let mut descending = true;
    while descending
        invariant
            tree@ == t,
            tree.wf(),
            rate == tree.explore_rate,
            current_node < t.len(),
            reached_by_selection(t, rate, current_node as int),
            !descending ==> stops_at(t, current_node as int),
        decreases t.len() - current_node, descending as int,
    {
        if tree.nodes[current_node].state.day >= FINAL_DAY
            || tree.nodes[current_node].children.len() == 0 || !is_fully_expanded(
            tree,
            current_node,
        ) {
            descending = false;
        } else {
            current_node = select_child_by_utc(tree, current_node);
        }
    }
    if tree.nodes[current_node].state.day >= FINAL_DAY || is_fully_expanded(tree, current_node) {
        return current_node;
    }
    expand_and_select_child(tree, current_node, rng)
}

/// The action to fall back on where the search has nothing to say: waiting
/// if it is offered or nothing is, and the first action offered otherwise.
pub open spec fn fallback_action(list: Seq<Action>) -> Action {
    if list.len() == 0 || list.contains(Action::Wait) {
        Action::Wait
    } else {
        list[0]
    }
}

/// Whether the `k`-th child of the root is the last of the most visited
/// ones: no child was visited more often, and none after it as often.
pub open spec fn is_best(t: Seq<NodeModel>, k: int) -> bool {
    let kids = t[0].children;
    &&& 0 <= k < kids.len()
    &&& forall|j: int|
        0 <= j < kids.len() ==> t[#[trigger] kids[j] as int].visits <= t[kids[k] as int].visits
    &&& forall|j: int|
        k < j < kids.len() ==> t[#[trigger] kids[j] as int].visits < t[kids[k] as int].visits
}

/// The move that the tree speaks for: the action of the most visited child
/// of the root, the last of them where several were visited as often; the
/// fallback action where the root has no child. The outcomes play no part.
pub open spec fn best_action_of(t: Seq<NodeModel>) -> Action {
    if t[0].children.len() == 0 {
        fallback_action(t[0].state.action_list)
    } else {
        t[t[0].children[choose|k: int| is_best(t, k)] as int].action
    }
}

/// One child only is the last of the most visited.
pub proof fn lemma_best_unique(t: Seq<NodeModel>, k: int, l: int)
    requires
        is_best(t, k),
        is_best(t, l),
    ensures
        k == l,
{
    let kids = t[0].children;
    if k < l {
        assert(t[kids[l] as int].visits < t[kids[k] as int].visits);
        assert(t[kids[k] as int].visits <= t[kids[l] as int].visits);
    } else if l < k {
        assert(t[kids[k] as int].visits < t[kids[l] as int].visits);
        assert(t[kids[l] as int].visits <= t[kids[k] as int].visits);
    }
}

/// The fallback action.
pub fn fallback(list: &Vec<Action>) -> (action: Action)
    ensures
        action == fallback_action(list@),
        list@.len() > 0 ==> list@.contains(action),
{
    if list.len() == 0 {
        return Action::Wait;
    }
    let mut j: usize = 0;
    while j < list.len()
        invariant
            j <= list.len(),
            forall|l: int| 0 <= l < j ==> list@[l] != Action::Wait,
        decreases list.len() - j,
    {
        if list[j] == Action::Wait {
            assert(list@.contains(list@[j as int]));
            return Action::Wait;
        }
        j += 1;
    }
    assert(list@.contains(list@[0]));
    list[0]
}

/// The move that the tree speaks for.
pub fn best_action(tree: &SearchTree) -> (action: Action)
    requires
        tree.wf(),
    ensures
        action == best_action_of(tree@),
        tree@[0].state.action_list.len() > 0 ==> tree@[0].state.action_list.contains(action),
{
    let ghost t = tree@;
    assert(node_wf(t, 0));
    let count = tree.nodes[0].children.len();
    if count == 0 {
        return fallback(&tree.nodes[0].state.action_list);
    }
    let mut best: usize = 0;
    let mut k: usize = 1;
    while k < count
        invariant
            t == tree@,
            t.len() > 0,
            children_fit(t, 0),
            count == t[0].children.len(),
            1 <= k <= count,
            best < k,
            forall|j: int|
                0 <= j < k ==> t[#[trigger] t[0].children[j] as int].visits
                    <= t[t[0].children[best as int] as int].visits,
            forall|j: int|
                best < j < k ==> t[#[trigger] t[0].children[j] as int].visits
                    < t[t[0].children[best as int] as int].visits,
        decreases count - k,
    {
        let c = tree.nodes[0].children[k];
        let b = tree.nodes[0].children[best];
        assert(c == t[0].children[k as int]);
        assert(b == t[0].children[best as int]);
        if tree.nodes[c].visits >= tree.nodes[b].visits {
            best = k;
        }
        k += 1;
    }
    let chosen = tree.nodes[0].children[best];
    assert(chosen == t[0].children[best as int]);
    proof {
        assert(is_best(t, best as int));
        lemma_best_unique(t, best as int, choose|k: int| is_best(t, k));
        assert(node_wf(t, chosen as int));
    }
    tree.nodes[chosen].action
}

/// The move selector gives the same move for the same tree: what it returns
/// depends on nothing but the nodes.
pub proof fn lemma_best_action_determined(first: SearchTree, second: SearchTree)
    requires
        first@ == second@,
    ensures
        best_action_of(first@) == best_action_of(second@),
{
}

/// What a search keeps of a node: where it hangs, the action and the
/// snapshot it stands for, the children it had, in their order, and at
/// least the visits it had.
pub open spec fn node_kept(before: NodeModel, after: NodeModel) -> bool {
    &&& after.parent == before.parent
    &&& after.action == before.action
    &&& after.state == before.state
    &&& after.visits >= before.visits
    &&& before.children.len() <= after.children.len()
    &&& forall|k: int| 0 <= k < before.children.len() ==> after.children[k] == before.children[k]
}

/// Whether `after` holds every node of `before`, kept.
pub open spec fn grown_from(before: Seq<NodeModel>, after: Seq<NodeModel>) -> bool {
    &&& before.len() <= after.len()
    &&& forall|i: int| 0 <= i < before.len() ==> #[trigger] node_kept(before[i], after[i])
}

/// A tree that grew from a tree that grew from a first one grew from the
/// first.
pub proof fn lemma_grown_transitive(a: Seq<NodeModel>, b: Seq<NodeModel>, c: Seq<NodeModel>)
    requires
        grown_from(a, b),
        grown_from(b, c),
    ensures
        grown_from(a, c),
{
    assert forall|i: int| 0 <= i < a.len() implies #[trigger] node_kept(a[i], c[i]) by {
        assert(node_kept(a[i], b[i]));
        assert(node_kept(b[i], c[i]));
    }
}

/// One descent and the playout counted after it keep the tree, add at most
/// one node, and count one more visit at the root.
proof fn lemma_iteration_grows(
    before: Seq<NodeModel>,
    mid: Seq<NodeModel>,
    after: Seq<NodeModel>,
    stop: int,
    leaf: int,
    outcome: int,
)
    requires
        tree_wf(mid),
        0 <= stop < before.len(),
        0 <= leaf < mid.len(),
        expanded_at(before, mid, stop, leaf),
        after == backed_up(mid, leaf, outcome),
    ensures
        grown_from(before, after),
        after.len() <= before.len() + 1,
        after[0].visits == before[0].visits + 1,
{
    lemma_path_reaches_root(mid, leaf);
    assert(grown_from(before, mid)) by {
        assert forall|i: int| 0 <= i < before.len() implies #[trigger] node_kept(
            before[i],
            mid[i],
        ) by {}
    }
    assert(grown_from(mid, after)) by {
        assert forall|i: int| 0 <= i < mid.len() implies #[trigger] node_kept(mid[i], after[i]) by {}
    }
    lemma_grown_transitive(before, mid, after);
}

/// Whether `after` is `before` after a round of search that stopped its
/// descent at `stop`, left the tree `mid` with the leaf `leaf`, and counted
/// along the way up from the leaf the outcome of a playout that led in
/// `days` days from the leaf's snapshot to `end`.
pub open spec fn round_by(
    before: Seq<NodeModel>,
    after: Seq<NodeModel>,
    rate: int,
    stop: int,
    leaf: int,
    mid: Seq<NodeModel>,
    end: Snapshot,
    days: nat,
) -> bool {
    &&& 0 <= stop < before.len()
    &&& reached_by_selection(before, rate, stop)
    &&& stops_at(before, stop)
    &&& expanded_at(before, mid, stop, leaf)
    &&& 0 <= leaf < mid.len()
    &&& reaches(mid[leaf].state, end, days)
    &&& played_out(end)
    &&& after == backed_up(mid, leaf, outcome(end))
}

/// Whether one round of search can turn `before` into `after`: a descent by
/// selection, the expansion of the node it stops at, a playout from the
/// leaf, and the count of its outcome from the leaf up to the root.
pub open spec fn one_round(before: Seq<NodeModel>, after: Seq<NodeModel>, rate: int) -> bool {
    exists|stop: int, leaf: int, mid: Seq<NodeModel>, end: Snapshot, days: nat| #[trigger]
        round_by(before, after, rate, stop, leaf, mid, end, days)
}

/// Whether `n` rounds of search can turn `before` into `after`.
pub open spec fn rounds(before: Seq<NodeModel>, after: Seq<NodeModel>, rate: int, n: nat) -> bool
    decreases n,
{
    if n == 0 {
        before == after
    } else {
        exists|mid: Seq<NodeModel>|
            rounds(before, mid, rate, (n - 1) as nat) && #[trigger] one_round(mid, after, rate)
    }
}

/// One more round extends a search.
pub proof fn lemma_one_more_round(
    before: Seq<NodeModel>,
    mid: Seq<NodeModel>,
    after: Seq<NodeModel>,
    rate: int,
    n: nat,
)
    requires
        rounds(before, mid, rate, n),
        one_round(mid, after, rate),
    ensures
        rounds(before, after, rate, n + 1),
{
    assert(rounds(before, mid, rate, ((n + 1) - 1) as nat));
}

/// Runs `iterations` rounds of search on the tree, each a descent with an
/// expansion, a random playout and the count of its outcome, and returns
/// the move that the tree then speaks for.
pub fn mcts(tree: &mut SearchTree, iterations: u32, rng: &mut StdRng) -> (action: Action)
    requires
        old(tree).wf(),
        old(tree)@[0].visits + iterations <= MAX_VISITS,
    ensures
        final(tree).wf(),
        final(tree).explore_rate == old(tree).explore_rate,
        grown_from(old(tree)@, final(tree)@),
        final(tree)@.len() <= old(tree)@.len() + iterations,
        final(tree)@[0].visits == old(tree)@[0].visits + iterations,
        rounds(old(tree)@, final(tree)@, old(tree).explore_rate as int, iterations as nat),
        action == best_action_of(final(tree)@),
        final(tree)@[0].state.action_list.len() > 0 ==> final(tree)@[0].state.action_list.contains(
            action,
        ),
{
    let ghost start = tree@;
    assert(grown_from(start, start)) by {
        assert forall|i: int| 0 <= i < start.len() implies #[trigger] node_kept(
            start[i],
            start[i],
        ) by {}
    }
    let mut done: u32 = 0;
    while done < iterations
        invariant
            tree.wf(),
            tree.explore_rate == old(tree).explore_rate,
            done <= iterations,
            start == old(tree)@,
            start[0].visits + iterations <= MAX_VISITS,
            grown_from(start, tree@),
            tree@.len() <= start.len() + done,
            tree@[0].visits == start[0].visits + done,
            rounds(start, tree@, tree.explore_rate as int, done as nat),
        decreases iterations - done,
    {
        let ghost before = tree@;
        let leaf_node = traverse(tree, rng);
        let ghost mid = tree@;
        let ghost stop = choose|stop: int|
            0 <= stop < before.len() && #[trigger] reached_by_selection(
                before,
                tree.explore_rate as int,
                stop,
            ) && stops_at(before, stop) && expanded_at(before, mid, stop, leaf_node as int);
        assert(mid[0].visits == before[0].visits);
        let value = rollout(tree, leaf_node, rng);
        let ghost (end, days) = choose|end: Snapshot, days: nat|
            #[trigger] reaches(mid[leaf_node as int].state, end, days) && played_out(end) && value
                == outcome(end);
        backpropagate(tree, leaf_node, value);
        proof {
            lemma_iteration_grows(before, mid, tree@, stop, leaf_node as int, value as int);
            lemma_grown_transitive(start, before, tree@);
            assert(round_by(
                before,
                tree@,
                tree.explore_rate as int,
                stop,
                leaf_node as int,
                mid,
                end,
                days,
            ));
            lemma_one_more_round(start, before, tree@, tree.explore_rate as int, done as nat);
        }
        done = done + 1;
    }
    best_action(tree)
}

/// The tree that holds nothing but a root for the snapshot, with no playout
/// counted.
pub open spec fn root_only(s: Snapshot) -> Seq<NodeModel> {
    seq![
        NodeModel {
            parent: None,
            children: Seq::empty(),
            action: Action::Wait,
            visits: 0,
            wins: 0,
            state: s,
        },
    ]
}

/// The move for a turn: the result of a search of `iterations` rounds from
/// `state`, with chance started from `seed`. There is none where the
/// snapshot is not fit to search from. The move is one of the actions that
/// the snapshot offers, and waiting where it offers none.
pub fn choose_move(state: &GameState, iterations: u32, explore_rate: u32, seed: u64) -> (choice:
    Option<Action>)
    ensures
        choice is Some <==> state_fits(state@),
        choice is Some ==> exists|t: Seq<NodeModel>|
            #[trigger] rounds(root_only(state@), t, explore_rate as int, iterations as nat)
                && choice == Some(best_action_of(t)),
        choice is Some && state@.action_list.len() > 0 ==> state@.action_list.contains(
            choice.unwrap(),
        ),
        choice is Some && state@.action_list.len() == 0 ==> choice == Some(Action::Wait),
{
    if !is_fit(state) {
        return None;
    }
    let mut tree = SearchTree::new(state.duplicate(), explore_rate);
    let ghost start = tree@;
    let mut rng = seeded_rng(seed);
    let action = mcts(&mut tree, iterations, &mut rng);
    proof {
        let t = tree@;
        assert(node_kept(start[0], t[0]));
        assert(node_wf(t, 0));
        if state@.action_list.len() == 0 && t[0].children.len() > 0 {
            let c = t[0].children[0] as int;
            assert(node_wf(t, c));
            let j = choose|j: int|
                0 <= j < t[0].state.action_list.len() && t[0].state.action_list[j]
                    == t[c].action;
        }
    }
    Some(action)
}

} // verus!
