//! Deterministic dependency graphs for media-processing pipelines.
use vstd::prelude::*;
use crate::text::{byte_len, contains_str, lemma_seq_lt_order, seq_lt, str_eq, str_lt, views};

verus! {

#[derive(Debug, Clone, Copy, PartialEq, Eq, Structural)]
pub enum MediaGraphError {
    EmptyId,
    DuplicateNode,
    MissingDependency,
    Cycle,
    Capacity,
    InvalidState,
}

#[derive(Debug, Clone, Copy, PartialEq, Eq, Structural)]
pub enum NodeState {
    Pending,
    Ready,
    Running,
    Succeeded,
    Failed,
    Cancelled,
}

#[derive(Debug, Clone, PartialEq, Eq)]
pub struct MediaNode {
    pub id: String,
    pub dependencies: Vec<String>,
    pub state: NodeState,
}

/// A set of named nodes, each waiting on the nodes it depends on.
#[derive(Debug)]
pub struct MediaGraph {
    nodes: Vec<MediaNode>,
    max_nodes: usize,
}

pub open spec fn ids(nodes: Seq<MediaNode>) -> Seq<Seq<char>> {
    nodes.map_values(|n: MediaNode| n.id@)
}

pub open spec fn unique_ids(nodes: Seq<MediaNode>) -> bool {
    forall|i: int, j: int|
        0 <= i < nodes.len() && 0 <= j < nodes.len() && i != j ==> #[trigger] nodes[i].id@
            != #[trigger] nodes[j].id@
}

pub open spec fn depends_on(n: MediaNode, id: Seq<char>) -> bool {
    views(n.dependencies@).contains(id)
}

pub open spec fn with_state(n: MediaNode, s: NodeState) -> MediaNode {
    MediaNode { id: n.id, dependencies: n.dependencies, state: s }
}

/// Pending or ready: a node that has not started.
pub open spec fn waiting(s: NodeState) -> bool {
    s is Pending || s is Ready
}

/// Node `i` is not yet placed and every one of its dependencies is.
pub open spec fn is_ready(nodes: Seq<MediaNode>, placed: Seq<Seq<char>>, i: int) -> bool {
    &&& !placed.contains(nodes[i].id@)
    &&& forall|k: int|
        0 <= k < nodes[i].dependencies@.len() ==> placed.contains(
            #[trigger] nodes[i].dependencies@[k]@,
        )
}

/// Node `i` is ready and its id is the least, in string order, of all ready nodes.
pub open spec fn least_ready(nodes: Seq<MediaNode>, placed: Seq<Seq<char>>, i: int) -> bool {
    &&& 0 <= i < nodes.len()
    &&& is_ready(nodes, placed, i)
    &&& forall|j: int|
        0 <= j < nodes.len() && j != i && is_ready(nodes, placed, j) ==> seq_lt(
            nodes[i].id@,
            #[trigger] nodes[j].id@,
        )
}

pub open spec fn next_ready(nodes: Seq<MediaNode>, placed: Seq<Seq<char>>) -> Option<Seq<char>> {
    if exists|i: int| least_ready(nodes, placed, i) {
        Some(nodes[choose|i: int| least_ready(nodes, placed, i)].id@)
    } else {
        None
    }
}

/// The ids placed after `steps` rounds of: place the ready node with the least id.
pub open spec fn schedule(nodes: Seq<MediaNode>, steps: nat) -> Seq<Seq<char>>
    decreases steps,
{
    if steps == 0 {
        seq![]
    } else {
        let placed = schedule(nodes, (steps - 1) as nat);
        match next_ready(nodes, placed) {
            Some(id) => placed.push(id),
            None => placed,
        }
    }
}

/// Every dependency names a node of the graph.
pub open spec fn deps_known(nodes: Seq<MediaNode>) -> bool {
    forall|i: int, k: int|
        0 <= i < nodes.len() && 0 <= k < nodes[i].dependencies@.len() ==> ids(nodes).contains(
            #[trigger] nodes[i].dependencies@[k]@,
        )
}

/// What `plan` answers for a graph holding `nodes`.
pub open spec fn plan_spec(nodes: Seq<MediaNode>) -> Result<Seq<Seq<char>>, MediaGraphError> {
    if !deps_known(nodes) {
        Err(MediaGraphError::MissingDependency)
    } else if schedule(nodes, nodes.len()).len() < nodes.len() {
        Err(MediaGraphError::Cycle)
    } else {
        Ok(schedule(nodes, nodes.len()))
    }
}

/// What `add` answers for a graph holding `nodes` with room for `max` nodes.
pub open spec fn add_spec(
    nodes: Seq<MediaNode>,
    max: nat,
    id: Seq<char>,
    deps: Seq<Seq<char>>,
) -> Result<(), MediaGraphError> {
    if id.len() == 0 || byte_len(id) > 128 {
        Err(MediaGraphError::EmptyId)
    } else if nodes.len() >= max {
        Err(MediaGraphError::Capacity)
    } else if ids(nodes).contains(id) {
        Err(MediaGraphError::DuplicateNode)
    } else if exists|k: int| 0 <= k < deps.len() && (deps[k].len() == 0 || deps[k] == id) {
        Err(MediaGraphError::MissingDependency)
    } else {
        Ok(())
    }
}

/// `path` is a chain of waiting nodes: the first depends on `root`, each next one on the one before.
pub open spec fn cancel_path(nodes: Seq<MediaNode>, root: Seq<char>, path: Seq<int>) -> bool {
    &&& path.len() > 0
    &&& forall|t: int|
        0 <= t < path.len() ==> 0 <= #[trigger] path[t] < nodes.len() && waiting(
            nodes[path[t]].state,
        )
    &&& depends_on(nodes[path[0]], root)
    &&& forall|t: int|
        0 <= t < path.len() - 1 ==> depends_on(nodes[path[t + 1]], nodes[#[trigger] path[t]].id@)
}

/// Node `i` waits, directly or through other waiting nodes, on `root`.
pub open spec fn cancelled_by(nodes: Seq<MediaNode>, root: Seq<char>, i: int) -> bool {
    exists|p: Seq<int>| cancel_path(nodes, root, p) && p.last() == i
}

/// The nodes after cancelling everything that waits on `root`.
pub open spec fn after_cancel(nodes: Seq<MediaNode>, root: Seq<char>) -> Seq<MediaNode> {
    Seq::new(
        nodes.len(),
        |i: int|
            if cancelled_by(nodes, root, i) {
                with_state(nodes[i], NodeState::Cancelled)
            } else {
                nodes[i]
            },
    )
}

/// The state of the node named `id`, if there is one.
pub open spec fn state_of(nodes: Seq<MediaNode>, id: Seq<char>) -> Option<NodeState> {
    if ids(nodes).contains(id) {
        Some(nodes[ids(nodes).index_of(id)].state)
    } else {
        None
    }
}

proof fn lemma_least_ready_unique(nodes: Seq<MediaNode>, placed: Seq<Seq<char>>, i: int, j: int)
    requires
        least_ready(nodes, placed, i),
        least_ready(nodes, placed, j),
    ensures
        i == j,
{
    if i != j {
        lemma_seq_lt_order(nodes[i].id@, nodes[j].id@, nodes[i].id@);
    }
}

proof fn lemma_next_is(nodes: Seq<MediaNode>, placed: Seq<Seq<char>>, i: int)
    requires
        least_ready(nodes, placed, i),
    ensures
        next_ready(nodes, placed) == Some(nodes[i].id@),
{
    let c = choose|c: int| least_ready(nodes, placed, c);
    lemma_least_ready_unique(nodes, placed, i, c);
}

proof fn lemma_index_of_unique(nodes: Seq<MediaNode>, i: int)
    requires
        unique_ids(nodes),
        0 <= i < nodes.len(),
    ensures
        ids(nodes).contains(nodes[i].id@),
        ids(nodes).index_of(nodes[i].id@) == i,
{
    let s = ids(nodes);
    assert(s[i] == nodes[i].id@);
    let k = s.index_of(nodes[i].id@);
    assert(s[k] == nodes[k].id@);
}

/// Each id of a schedule names a node, occurs once, and comes after all of that node's
/// dependencies.
pub open spec fn topological(nodes: Seq<MediaNode>, order: Seq<Seq<char>>) -> bool {
    &&& order.no_duplicates()
    &&& forall|t: int|
        0 <= t < order.len() ==> exists|i: int|
            0 <= i < nodes.len() && nodes[i].id@ == #[trigger] order[t] && forall|k: int|
                0 <= k < nodes[i].dependencies@.len() ==> order.take(t).contains(
                    nodes[i].dependencies@[k]@,
                )
}

proof fn lemma_schedule_topological(nodes: Seq<MediaNode>, steps: nat)
    ensures
        topological(nodes, schedule(nodes, steps)),
        schedule(nodes, steps).len() <= steps,
    decreases steps,
{
    if steps > 0 {
        let placed = schedule(nodes, (steps - 1) as nat);
        lemma_schedule_topological(nodes, (steps - 1) as nat);
        if let Some(id) = next_ready(nodes, placed) {
            let i = choose|i: int| least_ready(nodes, placed, i);
            let o = placed.push(id);
            assert(o.take(placed.len() as int) =~= placed);
            assert forall|t: int| 0 <= t < o.len() implies exists|j: int|
                0 <= j < nodes.len() && nodes[j].id@ == #[trigger] o[t] && forall|k: int|
                    0 <= k < nodes[j].dependencies@.len() ==> o.take(t).contains(
                        nodes[j].dependencies@[k]@,
                    ) by {
                if t < placed.len() {
                    assert(o.take(t) =~= placed.take(t));
                    assert(o[t] == placed[t]);
                } else {
                    assert(nodes[i].id@ == o[t]);
                }
            }
        }
    }
}

/// A plan places every node exactly once, each after all of its dependencies.
pub proof fn lemma_plan_is_topological(nodes: Seq<MediaNode>)
    ensures
        plan_spec(nodes) matches Ok(order) ==> order.len() == nodes.len() && topological(
            nodes,
            order,
        ),
{
    lemma_schedule_topological(nodes, nodes.len());
}

/// The position before `t` on a cycle of `len` positions.
pub open spec fn cycle_prev(len: int, t: int) -> int {
    if t == 0 {
        len - 1
    } else {
        t - 1
    }
}

/// `c` walks a dependency cycle: every node on it depends on the one before it, the first on
/// the last.
pub open spec fn dependency_cycle(nodes: Seq<MediaNode>, c: Seq<int>) -> bool {
    &&& c.len() > 0
    &&& forall|t: int| 0 <= t < c.len() ==> 0 <= #[trigger] c[t] < nodes.len()
    &&& forall|t: int|
        0 <= t < c.len() ==> depends_on(nodes[#[trigger] c[t]], nodes[c[cycle_prev(c.len() as int, t)]].id@)
}

proof fn lemma_placed_after_deps(nodes: Seq<MediaNode>, order: Seq<Seq<char>>, t: int) -> (i: int)
    requires
        topological(nodes, order),
        0 <= t < order.len(),
    ensures
        0 <= i < nodes.len(),
        nodes[i].id@ == order[t],
        forall|k: int| 0 <= k < nodes[i].dependencies@.len() ==> order.take(t).contains(
            #[trigger] nodes[i].dependencies@[k]@,
        ),
{
    choose|i: int|
        0 <= i < nodes.len() && nodes[i].id@ == #[trigger] order[t] && forall|k: int|
            0 <= k < nodes[i].dependencies@.len() ==> order.take(t).contains(nodes[i].dependencies@[k]@)
}

#[verifier::rlimit(60)]
proof fn lemma_cycle_node_absent(nodes: Seq<MediaNode>, order: Seq<Seq<char>>, c: Seq<int>, t: int, s: int)
    requires
        unique_ids(nodes),
        topological(nodes, order),
        dependency_cycle(nodes, c),
        0 <= t < order.len(),
        0 <= s < c.len(),
    ensures
        order[t] != nodes[c[s]].id@,
    decreases t,
{
    if order[t] == nodes[c[s]].id@ {
        let i = lemma_placed_after_deps(nodes, order, t);
        assert(0 <= c[s] < nodes.len());
        assert(i == c[s]);
        let q = cycle_prev(c.len() as int, s);
        assert(0 <= c[q] < nodes.len());
        let dep = nodes[c[q]].id@;
        assert(depends_on(nodes[c[s]], dep));
        let ds = views(nodes[i].dependencies@);
        let k = choose|k: int| 0 <= k < ds.len() && ds[k] == dep;
        assert(nodes[i].dependencies@[k]@ == dep);
        assert(order.take(t).contains(dep));
        let u = choose|u: int| 0 <= u < order.take(t).len() && order.take(t)[u] == dep;
        assert(order[u] == dep);
        lemma_cycle_node_absent(nodes, order, c, u, q);
    }
}

/// A graph whose dependencies close a cycle has no plan: `plan` refuses it, with `Cycle`
/// when every dependency names a node.
#[verifier::rlimit(60)]
pub proof fn lemma_cycle_refused(nodes: Seq<MediaNode>, c: Seq<int>)
    requires
        unique_ids(nodes),
        dependency_cycle(nodes, c),
    ensures
        plan_spec(nodes) is Err,
        deps_known(nodes) ==> plan_spec(nodes) == Err::<Seq<Seq<char>>, MediaGraphError>(MediaGraphError::Cycle),
{
    broadcast use vstd::seq_lib::seq_to_set_is_finite;

    let o = schedule(nodes, nodes.len());
    lemma_schedule_topological(nodes, nodes.len());
    if o.len() == nodes.len() {
        let ids_n = ids(nodes);
        assert forall|x: Seq<char>| o.to_set().contains(x) implies ids_n.to_set().contains(x) by {
            let t = choose|t: int| 0 <= t < o.len() && o[t] == x;
            let i = lemma_placed_after_deps(nodes, o, t);
            assert(ids_n[i] == x);
        }
        assert(o.to_set().subset_of(ids_n.to_set()));
        o.unique_seq_to_set();
        assert forall|i: int, j: int| 0 <= i < ids_n.len() && 0 <= j < ids_n.len() && i != j implies ids_n[i]
            != ids_n[j] by {
            assert(nodes[i].id@ != nodes[j].id@);
        }
        assert(ids_n.no_duplicates());
        ids_n.unique_seq_to_set();
        vstd::set_lib::lemma_subset_equality(o.to_set(), ids_n.to_set());
        assert(0 <= c[0] < nodes.len());
        let x = nodes[c[0]].id@;
        assert(ids_n[c[0]] == x);
        assert(ids_n.to_set().contains(x));
        assert(o.to_set().contains(x));
        let t = choose|t: int| 0 <= t < o.len() && o[t] == x;
        lemma_cycle_node_absent(nodes, o, c, t, 0);
    }
}

proof fn lemma_schedule_stalls(nodes: Seq<MediaNode>, steps: nat)
    ensures
        schedule(nodes, steps).len() == steps || next_ready(nodes, schedule(nodes, steps)) is None,
    decreases steps,
{
    if steps > 0 {
        lemma_schedule_stalls(nodes, (steps - 1) as nat);
        lemma_schedule_topological(nodes, (steps - 1) as nat);
    }
}

/// Among the ready nodes below `k`, one has the least id.
proof fn lemma_least_ready_below(nodes: Seq<MediaNode>, placed: Seq<Seq<char>>, k: int) -> (m: int)
    requires
        unique_ids(nodes),
        0 <= k <= nodes.len(),
        exists|i: int| 0 <= i < k && is_ready(nodes, placed, i),
    ensures
        0 <= m < k,
        is_ready(nodes, placed, m),
        forall|j: int| 0 <= j < k && j != m && is_ready(nodes, placed, j) ==> seq_lt(nodes[m].id@, #[trigger] nodes[j].id@),
    decreases k,
{
    if exists|i: int| 0 <= i < k - 1 && is_ready(nodes, placed, i) {
        let m0 = lemma_least_ready_below(nodes, placed, k - 1);
        if is_ready(nodes, placed, k - 1) && seq_lt(nodes[k - 1].id@, nodes[m0].id@) {
            assert forall|j: int| 0 <= j < k && j != k - 1 && is_ready(nodes, placed, j) implies seq_lt(
                nodes[k - 1].id@,
                #[trigger] nodes[j].id@,
            ) by {
                if j != m0 {
                    lemma_seq_lt_order(nodes[k - 1].id@, nodes[m0].id@, nodes[j].id@);
                }
            }
            k - 1
        } else {
            if is_ready(nodes, placed, k - 1) {
                assert(nodes[k - 1].id@ != nodes[m0].id@);
                lemma_seq_lt_order(nodes[m0].id@, nodes[k - 1].id@, nodes[m0].id@);
            }
            m0
        }
    } else {
        assert forall|j: int| 0 <= j < k && j != k - 1 && is_ready(nodes, placed, j) implies seq_lt(
            nodes[k - 1].id@,
            #[trigger] nodes[j].id@,
        ) by {
            assert(0 <= j < k - 1);
        }
        k - 1
    }
}

/// The node a waiting node depends on that is not placed either.
pub open spec fn blocking_dep(nodes: Seq<MediaNode>, placed: Seq<Seq<char>>, i: int) -> int {
    choose|w: int|
        0 <= w < nodes.len() && !placed.contains(nodes[w].id@) && depends_on(nodes[i], #[trigger] nodes[w].id@)
}

/// Following unplaced dependencies `k` times from node `u`.
pub open spec fn blocked_walk(nodes: Seq<MediaNode>, placed: Seq<Seq<char>>, u: int, k: nat) -> int
    decreases k,
{
    if k == 0 {
        u
    } else {
        blocking_dep(nodes, placed, blocked_walk(nodes, placed, u, (k - 1) as nat))
    }
}

proof fn lemma_blocked_step(nodes: Seq<MediaNode>, placed: Seq<Seq<char>>, i: int)
    requires
        deps_known(nodes),
        0 <= i < nodes.len(),
        !placed.contains(nodes[i].id@),
        !is_ready(nodes, placed, i),
    ensures
        0 <= blocking_dep(nodes, placed, i) < nodes.len(),
        !placed.contains(nodes[blocking_dep(nodes, placed, i)].id@),
        depends_on(nodes[i], nodes[blocking_dep(nodes, placed, i)].id@),
{
    let k = choose|k: int| 0 <= k < nodes[i].dependencies@.len() && !placed.contains(#[trigger] nodes[i].dependencies@[k]@);
    let d = nodes[i].dependencies@[k]@;
    assert(ids(nodes).contains(d));
    let w = choose|w: int| 0 <= w < ids(nodes).len() && ids(nodes)[w] == d;
    assert(nodes[w].id@ == d);
    assert(views(nodes[i].dependencies@)[k] == d);
    assert(depends_on(nodes[i], nodes[w].id@));
}

proof fn lemma_blocked_walk(nodes: Seq<MediaNode>, placed: Seq<Seq<char>>, u: int, k: nat)
    requires
        deps_known(nodes),
        0 <= u < nodes.len(),
        !placed.contains(nodes[u].id@),
        forall|i: int| 0 <= i < nodes.len() ==> !is_ready(nodes, placed, i),
    ensures
        0 <= blocked_walk(nodes, placed, u, k) < nodes.len(),
        !placed.contains(nodes[blocked_walk(nodes, placed, u, k)].id@),
        depends_on(
            nodes[blocked_walk(nodes, placed, u, k)],
            nodes[blocked_walk(nodes, placed, u, k + 1)].id@,
        ),
    decreases k,
{
    if k > 0 {
        lemma_blocked_walk(nodes, placed, u, (k - 1) as nat);
        let prev = blocked_walk(nodes, placed, u, (k - 1) as nat);
        assert(!is_ready(nodes, placed, prev));
        lemma_blocked_step(nodes, placed, prev);
    }
    let cur = blocked_walk(nodes, placed, u, k);
    assert(!is_ready(nodes, placed, cur));
    lemma_blocked_step(nodes, placed, cur);
}

/// Some node is not placed when fewer ids than nodes are placed.
proof fn lemma_some_unplaced(nodes: Seq<MediaNode>, placed: Seq<Seq<char>>) -> (u: int)
    requires
        unique_ids(nodes),
        placed.len() < nodes.len(),
    ensures
        0 <= u < nodes.len(),
        !placed.contains(nodes[u].id@),
{
    broadcast use vstd::seq_lib::seq_to_set_is_finite;

    if exists|i: int| 0 <= i < nodes.len() && !placed.contains(nodes[i].id@) {
        choose|i: int| 0 <= i < nodes.len() && !placed.contains(nodes[i].id@)
    } else {
        let idset = ids(nodes);
        assert forall|x: Seq<char>| idset.to_set().contains(x) implies placed.to_set().contains(x) by {
            let i = choose|i: int| 0 <= i < idset.len() && idset[i] == x;
            assert(nodes[i].id@ == x);
        }
        assert(idset.to_set().subset_of(placed.to_set()));
        assert forall|i: int, j: int| 0 <= i < idset.len() && 0 <= j < idset.len() && i != j implies idset[i]
            != idset[j] by {
            assert(nodes[i].id@ != nodes[j].id@);
        }
        assert(idset.no_duplicates());
        idset.unique_seq_to_set();
        placed.lemma_cardinality_of_set();
        vstd::set_lib::lemma_len_subset(idset.to_set(), placed.to_set());
        assert(false);
        0
    }
}

/// A sequence of `n + 1` indices below `n` repeats one.
proof fn lemma_repeat(w: Seq<int>, n: nat) -> (ab: (int, int))
    requires
        w.len() == n + 1,
        forall|k: int| 0 <= k < w.len() ==> 0 <= #[trigger] w[k] < n,
    ensures
        0 <= ab.0 < ab.1 < w.len(),
        w[ab.0] == w[ab.1],
{
    broadcast use vstd::seq_lib::seq_to_set_is_finite;

    if exists|a: int, b: int| 0 <= a < b < w.len() && w[a] == w[b] {
        choose|a: int, b: int| 0 <= a < b < w.len() && w[a] == w[b]
    } else {
        assert forall|i: int, j: int| 0 <= i < w.len() && 0 <= j < w.len() && i != j implies w[i] != w[j] by {
            if i > j {
                assert(!(w[j] == w[i]));
            }
        }
        assert(w.no_duplicates());
        w.unique_seq_to_set();
        vstd::set_lib::lemma_int_range(0, n as int);
        assert(w.to_set().subset_of(vstd::set_lib::set_int_range(0, n as int)));
        vstd::set_lib::lemma_len_subset(w.to_set(), vstd::set_lib::set_int_range(0, n as int));
        assert(false);
        (0, 0)
    }
}

/// `plan` reports `Cycle` only for a graph whose dependencies really close a cycle.
#[verifier::rlimit(40)]
pub proof fn lemma_cycle_only_for_cycles(nodes: Seq<MediaNode>)
    requires
        unique_ids(nodes),
        plan_spec(nodes) == Err::<Seq<Seq<char>>, MediaGraphError>(MediaGraphError::Cycle),
    ensures
        exists|c: Seq<int>| dependency_cycle(nodes, c),
{
    let n = nodes.len();
    let placed = schedule(nodes, n);
    lemma_schedule_stalls(nodes, n);
    assert(placed.len() < n);
    assert forall|i: int| 0 <= i < nodes.len() implies !is_ready(nodes, placed, i) by {
        if is_ready(nodes, placed, i) {
            let m = lemma_least_ready_below(nodes, placed, n as int);
            assert(least_ready(nodes, placed, m));
        }
    }
    let u = lemma_some_unplaced(nodes, placed);
    let w = Seq::new((n + 1) as nat, |k: int| blocked_walk(nodes, placed, u, k as nat));
    assert forall|k: int| 0 <= k < w.len() implies 0 <= #[trigger] w[k] < n by {
        lemma_blocked_walk(nodes, placed, u, k as nat);
    }
    let (a, b) = lemma_repeat(w, n);
    let len = b - a;
    let c = Seq::new(len as nat, |t: int| w[b - t]);
    assert forall|t: int| 0 <= t < c.len() implies 0 <= #[trigger] c[t] < nodes.len() by {
        assert(c[t] == w[b - t]);
    }
    assert forall|t: int| 0 <= t < c.len() implies depends_on(
        nodes[#[trigger] c[t]],
        nodes[c[cycle_prev(c.len() as int, t)]].id@,
    ) by {
        let k = b - t;
        if t == 0 {
            lemma_blocked_walk(nodes, placed, u, a as nat);
            assert(c[0] == w[b] && w[b] == w[a]);
            assert(c[len - 1] == w[a + 1]);
        } else {
            lemma_blocked_walk(nodes, placed, u, k as nat);
            assert(c[t] == w[k]);
            assert(c[t - 1] == w[k + 1]);
        }
    }
    assert(dependency_cycle(nodes, c));
}

impl MediaGraph {
    /// Room for at least one node, no more nodes than that, and no id twice.
    pub closed spec fn wf(&self) -> bool {
        &&& self.max_nodes >= 1
        &&& self.nodes.len() <= self.max_nodes
        &&& unique_ids(self.nodes@)
    }

    /// The nodes, in the order they were added.
    pub closed spec fn nodes(&self) -> Seq<MediaNode> {
        self.nodes@
    }

    pub closed spec fn capacity(&self) -> nat {
        self.max_nodes as nat
    }

    /// An empty graph with room for `max_nodes` nodes (at least one).
    pub fn new(max_nodes: usize) -> (g: MediaGraph)
        ensures
            g.wf(),
            g.nodes().len() == 0,
            g.capacity() == if max_nodes < 1 {
                1
            } else {
                max_nodes as nat
            },
    {
        MediaGraph { nodes: Vec::new(), max_nodes: if max_nodes < 1 { 1 } else { max_nodes } }
    }

    fn find(&self, id: &str) -> (r: Option<usize>)
        requires
            self.wf(),
        ensures
            r matches Some(i) ==> i < self.nodes().len() && self.nodes()[i as int].id@ == id@
                && ids(self.nodes()).contains(id@) && ids(self.nodes()).index_of(id@) == i,
            r is None ==> !ids(self.nodes()).contains(id@),
    {
        let mut i: usize = 0;
        while i < self.nodes.len()
            invariant
                self.wf(),
                i <= self.nodes@.len(),
                forall|j: int| 0 <= j < i ==> self.nodes@[j].id@ != id@,
            decreases self.nodes@.len() - i,
        {
            if str_eq(self.nodes[i].id.as_str(), id) {
                proof {
                    lemma_index_of_unique(self.nodes@, i as int);
                }
                return Some(i);
            }
            i = i + 1;
        }
        proof {
            if ids(self.nodes@).contains(id@) {
                let k = ids(self.nodes@).index_of(id@);
                assert(self.nodes@[k].id@ == id@);
            }
        }
        None
    }

    /// Adds a pending node named `id` that waits on `dependencies`.
    pub fn add(&mut self, id: String, dependencies: Vec<String>) -> (r: Result<(), MediaGraphError>)
        requires
            old(self).wf(),
        ensures
            final(self).wf(),
            r == add_spec(old(self).nodes(), old(self).capacity(), id@, views(dependencies@)),
            r is Ok ==> final(self).nodes() == old(self).nodes().push(
                MediaNode { id: id, dependencies: dependencies, state: NodeState::Pending },
            ),
            r is Err ==> final(self).nodes() == old(self).nodes(),
            final(self).capacity() == old(self).capacity(),
    {
        if id.as_str().is_empty() || id.as_str().len() > 128 {
            return Err(MediaGraphError::EmptyId);
        }
        if self.nodes.len() >= self.max_nodes {
            return Err(MediaGraphError::Capacity);
        }
        match self.find(id.as_str()) {
            Some(i) => {
                proof {
                    assert(ids(self.nodes@)[i as int] == id@);
                }
                return Err(MediaGraphError::DuplicateNode);
            },
            None => {},
        }
        let mut k: usize = 0;
        while k < dependencies.len()
            invariant
                self.wf(),
                *self == *old(self),
                !(id@.len() == 0 || byte_len(id@) > 128),
                self.nodes@.len() < self.max_nodes,
                !ids(self.nodes@).contains(id@),
                k <= dependencies@.len(),
                forall|j: int|
                    0 <= j < k ==> !(#[trigger] dependencies@[j]@.len() == 0
                        || dependencies@[j]@ == id@),
            decreases dependencies@.len() - k,
        {
            let d = dependencies[k].as_str();
            if d.is_empty() || str_eq(d, id.as_str()) {
                proof {
                    assert(views(dependencies@)[k as int] == dependencies@[k as int]@);
                }
                return Err(MediaGraphError::MissingDependency);
            }
            k = k + 1;
        }
        proof {
            let ds = views(dependencies@);
            assert forall|j: int| 0 <= j < ds.len() implies !(ds[j].len() == 0 || ds[j] == id@) by {
                assert(ds[j] == dependencies@[j]@);
            }
            let s = ids(self.nodes@);
            assert forall|j: int| 0 <= j < self.nodes@.len() implies self.nodes@[j].id@ != id@ by {
                assert(s[j] == self.nodes@[j].id@);
            }
        }
        self.nodes.push(MediaNode { id, dependencies, state: NodeState::Pending });
        Ok(())
    }

    fn ready_at(&self, placed: &Vec<String>, i: usize) -> (r: bool)
        requires
            self.wf(),
            i < self.nodes().len(),
        ensures
            r == is_ready(self.nodes(), views(placed@), i as int),
    {
        let node = &self.nodes[i];
        if contains_str(placed, node.id.as_str()) {
            return false;
        }
        let mut k: usize = 0;
        while k < node.dependencies.len()
            invariant
                node == self.nodes@[i as int],
                k <= node.dependencies@.len(),
                forall|j: int|
                    0 <= j < k ==> views(placed@).contains(#[trigger] node.dependencies@[j]@),
            decreases node.dependencies@.len() - k,
        {
            if !contains_str(placed, node.dependencies[k].as_str()) {
                return false;
            }
            k = k + 1;
        }
        true
    }

    fn least_ready_index(&self, placed: &Vec<String>) -> (r: Option<usize>)
        requires
            self.wf(),
        ensures
            r matches Some(i) ==> least_ready(self.nodes(), views(placed@), i as int),
            r is None ==> forall|i: int|
                0 <= i < self.nodes().len() ==> !is_ready(self.nodes(), views(placed@), i),
    {
        let ghost nodes = self.nodes@;
        let ghost p = views(placed@);
        let mut best: Option<usize> = None;
        let mut i: usize = 0;
        while i < self.nodes.len()
            invariant
                self.wf(),
                nodes == self.nodes@,
                p == views(placed@),
                unique_ids(nodes),
                i <= nodes.len(),
                best matches Some(b) ==> b < i && is_ready(nodes, p, b as int) && forall|j: int|
                    0 <= j < i && j != b && is_ready(nodes, p, j) ==> seq_lt(
                        nodes[b as int].id@,
                        #[trigger] nodes[j].id@,
                    ),
                best is None ==> forall|j: int| 0 <= j < i ==> !is_ready(nodes, p, j),
            decreases nodes.len() - i,
        {
            if self.ready_at(placed, i) {
                match best {
                    None => {
                        best = Some(i);
                    },
                    Some(b) => {
                        if str_lt(self.nodes[i].id.as_str(), self.nodes[b].id.as_str()) {
                            proof {
                                assert forall|j: int|
                                    0 <= j < i + 1 && j != i && is_ready(nodes, p, j) implies seq_lt(
                                    nodes[i as int].id@,
                                    #[trigger] nodes[j].id@,
                                ) by {
                                    lemma_seq_lt_order(
                                        nodes[i as int].id@,
                                        nodes[b as int].id@,
                                        nodes[j].id@,
                                    );
                                }
                            }
                            best = Some(i);
                        } else {
                            proof {
                                lemma_seq_lt_order(
                                    nodes[i as int].id@,
                                    nodes[b as int].id@,
                                    nodes[b as int].id@,
                                );
                            }
                        }
                    },
                }
            }
            i = i + 1;
        }
        best
    }

    /// The order in which to run the nodes: repeatedly the ready node with the least id.
    pub fn plan(&self) -> (r: Result<Vec<String>, MediaGraphError>)
        requires
            self.wf(),
        ensures
            match r {
                Ok(order) => plan_spec(self.nodes()) == Ok::<_, MediaGraphError>(views(order@)),
                Err(e) => plan_spec(self.nodes()) == Err::<Seq<Seq<char>>, _>(e),
            },
    {
        let ghost nodes = self.nodes@;
        let n = self.nodes.len();
        let mut i: usize = 0;
        while i < n
            invariant
                self.wf(),
                nodes == self.nodes@,
                n == nodes.len(),
                i <= n,
                forall|a: int, k: int|
                    0 <= a < i && 0 <= k < nodes[a].dependencies@.len() ==> ids(nodes).contains(
                        #[trigger] nodes[a].dependencies@[k]@,
                    ),
            decreases n - i,
        {
            let node = &self.nodes[i];
            let mut k: usize = 0;
            while k < node.dependencies.len()
                invariant
                    self.wf(),
                    nodes == self.nodes@,
                    node == nodes[i as int],
                    i < n,
                    n == nodes.len(),
                    k <= node.dependencies@.len(),
                    forall|a: int, k2: int|
                        0 <= a < i && 0 <= k2 < nodes[a].dependencies@.len() ==> ids(
                            nodes,
                        ).contains(#[trigger] nodes[a].dependencies@[k2]@),
                    forall|k2: int|
                        0 <= k2 < k ==> ids(nodes).contains(
                            #[trigger] nodes[i as int].dependencies@[k2]@,
                        ),
                decreases node.dependencies@.len() - k,
            {
                if self.find(node.dependencies[k].as_str()).is_none() {
                    proof {
                        assert(!deps_known(nodes));
                    }
                    return Err(MediaGraphError::MissingDependency);
                }
                k = k + 1;
            }
            i = i + 1;
        }
        let mut order: Vec<String> = Vec::new();
        let mut step: usize = 0;
        while step < n
            invariant
                self.wf(),
                nodes == self.nodes@,
                n == nodes.len(),
                step <= n,
                deps_known(nodes),
                views(order@) == schedule(nodes, step as nat),
            decreases n - step,
        {
            let ghost before = views(order@);
            match self.least_ready_index(&order) {
                Some(b) => {
                    proof {
                        lemma_next_is(nodes, before, b as int);
                    }
                    order.push(self.nodes[b].id.clone());
                    proof {
                        assert(views(order@) =~= before.push(nodes[b as int].id@));
                    }
                },
                None => {
                    proof {
                        if exists|c: int| least_ready(nodes, before, c) {
                            let c = choose|c: int| least_ready(nodes, before, c);
                            assert(0 <= c < self.nodes().len());
                            assert(is_ready(self.nodes(), views(order@), c));
                        }
                    }
                },
            }
            step = step + 1;
        }
        proof {
            lemma_schedule_topological(nodes, n as nat);
        }
        if order.len() < n {
            return Err(MediaGraphError::Cycle);
        }
        Ok(order)
    }

    /// Marks a pending or ready node as running.
    pub fn mark_running(&mut self, id: &str) -> (r: Result<(), MediaGraphError>)
        requires
            old(self).wf(),
        ensures
            final(self).wf(),
            r == (match state_of(old(self).nodes(), id@) {
                None => Err(MediaGraphError::MissingDependency),
                Some(s) => if waiting(s) {
                    Ok(())
                } else {
                    Err(MediaGraphError::InvalidState)
                },
            }),
            r is Ok ==> final(self).nodes() == old(self).nodes().update(
                ids(old(self).nodes()).index_of(id@),
                with_state(
                    old(self).nodes()[ids(old(self).nodes()).index_of(id@)],
                    NodeState::Running,
                ),
            ),
            r is Err ==> final(self).nodes() == old(self).nodes(),
            final(self).capacity() == old(self).capacity(),
    {
        match self.find(id) {
            None => Err(MediaGraphError::MissingDependency),
            Some(i) => {
                let s = self.nodes[i].state;
                if !(s == NodeState::Pending || s == NodeState::Ready) {
                    return Err(MediaGraphError::InvalidState);
                }
                self.nodes[i].state = NodeState::Running;
                proof {
                    assert(self.nodes@ =~= old(self).nodes@.update(
                        i as int,
                        with_state(old(self).nodes@[i as int], NodeState::Running),
                    ));
                }
                Ok(())
            },
        }
    }

    fn finish(&mut self, id: &str, to: NodeState) -> (r: Result<usize, MediaGraphError>)
        requires
            old(self).wf(),
        ensures
            final(self).wf(),
            r matches Ok(i) ==> i < old(self).nodes().len() && i == ids(old(self).nodes()).index_of(
                id@,
            ),
            (r is Ok) == (state_of(old(self).nodes(), id@) == Some(NodeState::Running)),
            r matches Err(e) ==> e == (if state_of(old(self).nodes(), id@) is None {
                MediaGraphError::MissingDependency
            } else {
                MediaGraphError::InvalidState
            }),
            r is Ok ==> final(self).nodes() == old(self).nodes().update(
                ids(old(self).nodes()).index_of(id@),
                with_state(old(self).nodes()[ids(old(self).nodes()).index_of(id@)], to),
            ),
            r is Err ==> final(self).nodes() == old(self).nodes(),
            final(self).capacity() == old(self).capacity(),
    {
        match self.find(id) {
            None => Err(MediaGraphError::MissingDependency),
            Some(i) => {
                if self.nodes[i].state != NodeState::Running {
                    return Err(MediaGraphError::InvalidState);
                }
                self.nodes[i].state = to;
                proof {
                    assert(self.nodes@ =~= old(self).nodes@.update(
                        i as int,
                        with_state(old(self).nodes@[i as int], to),
                    ));
                }
                Ok(i)
            },
        }
    }

    /// Marks a running node as succeeded.
    pub fn mark_succeeded(&mut self, id: &str) -> (r: Result<(), MediaGraphError>)
        requires
            old(self).wf(),
        ensures
            final(self).wf(),
            r == (match state_of(old(self).nodes(), id@) {
                None => Err(MediaGraphError::MissingDependency),
                Some(s) => if s is Running {
                    Ok(())
                } else {
                    Err(MediaGraphError::InvalidState)
                },
            }),
            r is Ok ==> final(self).nodes() == old(self).nodes().update(
                ids(old(self).nodes()).index_of(id@),
                with_state(
                    old(self).nodes()[ids(old(self).nodes()).index_of(id@)],
                    NodeState::Succeeded,
                ),
            ),
            r is Err ==> final(self).nodes() == old(self).nodes(),
            final(self).capacity() == old(self).capacity(),
    {
        match self.finish(id, NodeState::Succeeded) {
            Ok(_) => Ok(()),
            Err(e) => Err(e),
        }
    }

    /// Marks a running node as failed and cancels every node waiting on it.
    pub fn mark_failed(&mut self, id: &str) -> (r: Result<(), MediaGraphError>)
        requires
            old(self).wf(),
        ensures
            final(self).wf(),
            r == (match state_of(old(self).nodes(), id@) {
                None => Err(MediaGraphError::MissingDependency),
                Some(s) => if s is Running {
                    Ok(())
                } else {
                    Err(MediaGraphError::InvalidState)
                },
            }),
            r is Ok ==> final(self).nodes() == after_cancel(
                old(self).nodes().update(
                    ids(old(self).nodes()).index_of(id@),
                    with_state(
                        old(self).nodes()[ids(old(self).nodes()).index_of(id@)],
                        NodeState::Failed,
                    ),
                ),
                id@,
            ),
            r is Err ==> final(self).nodes() == old(self).nodes(),
            final(self).capacity() == old(self).capacity(),
    {
        match self.finish(id, NodeState::Failed) {
            Ok(_) => {
                self.propagate_cancelled(id);
                Ok(())
            },
            Err(e) => Err(e),
        }
    }

    /// Cancels every node waiting, directly or not, on the node named `id`.
    pub fn cancel(&mut self, id: &str) -> (r: Result<(), MediaGraphError>)
        requires
            old(self).wf(),
        ensures
            final(self).wf(),
            r is Ok <==> ids(old(self).nodes()).contains(id@),
            r matches Err(e) ==> e == MediaGraphError::MissingDependency,
            r is Ok ==> final(self).nodes() == after_cancel(old(self).nodes(), id@),
            r is Err ==> final(self).nodes() == old(self).nodes(),
            final(self).capacity() == old(self).capacity(),
    {
        if self.find(id).is_none() {
            return Err(MediaGraphError::MissingDependency);
        }
        self.propagate_cancelled(id);
        Ok(())
    }

    fn propagate_cancelled(&mut self, root: &str)
        requires
            old(self).wf(),
        ensures
            final(self).wf(),
            final(self).nodes() == after_cancel(old(self).nodes(), root@),
            final(self).capacity() == old(self).capacity(),
    {
        let ghost orig = self.nodes@;
        let n = self.nodes.len();
        let mut queue: Vec<String> = Vec::new();
        queue.push(crate::text::owned(root));
        let mut head: usize = 0;
        let ghost mut hit: Set<int> = Set::empty();
        let ghost mut qn: Seq<int> = seq![-1];
        while head < queue.len()
            invariant
                self.nodes@.len() == orig.len(),
                n == orig.len(),
                self.max_nodes == old(self).max_nodes,
                unique_ids(self.nodes@),
                self.max_nodes >= 1,
                self.nodes@.len() <= self.max_nodes,
                forall|i: int|
                    0 <= i < n ==> (#[trigger] self.nodes@[i]).id == orig[i].id
                        && self.nodes@[i].dependencies == orig[i].dependencies
                        && self.nodes@[i].state == (if hit.contains(i) {
                        NodeState::Cancelled
                    } else {
                        orig[i].state
                    }),
                hit.subset_of(vstd::set_lib::set_int_range(0, n as int)),
                hit.finite(),
                queue@.len() == hit.len() + 1,
                head <= queue@.len(),
                queue@[0]@ == root@,
                forall|i: int|
                    #[trigger] hit.contains(i) ==> exists|q: int|
                        1 <= q < queue@.len() && queue@[q]@ == orig[i].id@,
                qn.len() == queue@.len(),
                forall|q: int|
                    1 <= q < qn.len() ==> hit.contains(#[trigger] qn[q]) && queue@[q]@
                        == orig[qn[q]].id@,
                forall|i: int| #[trigger] hit.contains(i) ==> cancelled_by(orig, root@, i),
                forall|q: int, i: int|
                    0 <= q < head && 0 <= i < n && waiting(orig[i].state) && depends_on(
                        orig[i],
                        #[trigger] queue@[q]@,
                    ) ==> #[trigger] hit.contains(i),
            decreases n + 1 - head,
        {
            proof {
                vstd::set_lib::lemma_int_range(0, n as int);
                vstd::set_lib::lemma_len_subset(hit, vstd::set_lib::set_int_range(0, n as int));
            }
            let x = queue[head].clone();
            let ghost xs = x@;
            let ghost hit_before = hit;
            let mut i: usize = 0;
            while i < n
                invariant
                    self.nodes@.len() == orig.len(),
                    n == orig.len(),
                    self.max_nodes == old(self).max_nodes,
                    unique_ids(self.nodes@),
                    self.max_nodes >= 1,
                    self.nodes@.len() <= self.max_nodes,
                    i <= n,
                    x@ == queue@[head as int]@,
                    head < queue@.len(),
                    hit_before.subset_of(hit),
                    forall|j: int| #[trigger] hit.contains(j) && !hit_before.contains(j) ==> j < i,
                    forall|j: int|
                        0 <= j < n ==> (#[trigger] self.nodes@[j]).id == orig[j].id
                            && self.nodes@[j].dependencies == orig[j].dependencies
                            && self.nodes@[j].state == (if hit.contains(j) {
                            NodeState::Cancelled
                        } else {
                            orig[j].state
                        }),
                    hit.subset_of(vstd::set_lib::set_int_range(0, n as int)),
                    hit.finite(),
                    queue@.len() == hit.len() + 1,
                    queue@[0]@ == root@,
                    forall|j: int|
                        #[trigger] hit.contains(j) ==> exists|q: int|
                            1 <= q < queue@.len() && queue@[q]@ == orig[j].id@,
                    qn.len() == queue@.len(),
                    forall|q: int|
                        1 <= q < qn.len() ==> hit.contains(#[trigger] qn[q]) && queue@[q]@
                            == orig[qn[q]].id@,
                    forall|j: int| #[trigger] hit.contains(j) ==> cancelled_by(orig, root@, j),
                    forall|q: int, j: int|
                        0 <= q < head && 0 <= j < n && waiting(orig[j].state) && depends_on(
                            orig[j],
                            #[trigger] queue@[q]@,
                        ) ==> #[trigger] hit.contains(j),
                    forall|j: int|
                        0 <= j < i && waiting(orig[j].state) && depends_on(orig[j], x@)
                            ==> #[trigger] hit.contains(j),
                decreases n - i,
            {
                let s = self.nodes[i].state;
                if (s == NodeState::Pending || s == NodeState::Ready) && contains_str(
                    &self.nodes[i].dependencies,
                    x.as_str(),
                ) {
                    let ghost qlen = queue@.len();
                    proof {
                        assert(!hit.contains(i as int));
                        assert(waiting(orig[i as int].state));
                        assert(depends_on(orig[i as int], x@));
                        // a chain reaching node i
                        if head == 0 {
                            let p = seq![i as int];
                            assert(cancel_path(orig, root@, p));
                            assert(p.last() == i as int);
                        } else {
                            let j = qn[head as int];
                            assert(cancelled_by(orig, root@, j));
                            let p = choose|p: Seq<int>| cancel_path(orig, root@, p) && p.last() == j;
                            let p2 = p.push(i as int);
                            assert forall|t: int| 0 <= t < p2.len() - 1 implies depends_on(
                                orig[p2[t + 1]],
                                orig[#[trigger] p2[t]].id@,
                            ) by {
                                if t < p.len() - 1 {
                                    assert(p2[t] == p[t]);
                                    assert(p2[t + 1] == p[t + 1]);
                                }
                            }
                            assert forall|t: int| 0 <= t < p2.len() implies 0 <= #[trigger] p2[t]
                                < orig.len() && waiting(orig[p2[t]].state) by {
                                if t < p.len() {
                                    assert(p2[t] == p[t]);
                                }
                            }
                            assert(cancel_path(orig, root@, p2));
                            assert(p2.last() == i as int);
                        }
                    }
                    let ghost oldq = queue@;
                    let ghost oldhit = hit;
                    self.nodes[i].state = NodeState::Cancelled;
                    let new_id = self.nodes[i].id.clone();
                    queue.push(new_id);
                    proof {
                        hit = hit.insert(i as int);
                        assert(queue@[qlen as int]@ == orig[i as int].id@);
                        qn = qn.push(i as int);
                        assert forall|q: int| 1 <= q < qn.len() implies hit.contains(
                            #[trigger] qn[q],
                        ) && queue@[q]@ == orig[qn[q]].id@ by {
                            if q < qlen {
                                assert(queue@[q] == oldq[q]);
                            }
                        }
                        assert forall|j: int| #[trigger] hit.contains(j) implies exists|q: int|
                            1 <= q < queue@.len() && queue@[q]@ == orig[j].id@ by {
                            if j == i as int {
                                assert(queue@[qlen as int]@ == orig[j].id@);
                            } else {
                                assert(oldhit.contains(j));
                                let q = choose|q: int| 1 <= q < oldq.len() && oldq[q]@ == orig[j].id@;
                                assert(queue@[q] == oldq[q]);
                            }
                        }
                        assert forall|q: int, j: int|
                            0 <= q < head && 0 <= j < n && waiting(orig[j].state) && depends_on(
                                orig[j],
                                #[trigger] queue@[q]@,
                            ) implies #[trigger] hit.contains(j) by {
                            assert(queue@[q] == oldq[q]);
                            if depends_on(orig[j], oldq[q]@) {
                                assert(oldhit.contains(j));
                            }
                        }
                    }
                }
                i = i + 1;
            }
            head = head + 1;
        }
        proof {
            assert forall|i: int| 0 <= i < n implies #[trigger] self.nodes@[i] == after_cancel(
                orig,
                root@,
            )[i] by {
                if cancelled_by(orig, root@, i) {
                    let p = choose|p: Seq<int>| cancel_path(orig, root@, p) && p.last() == i;
                    lemma_path_hit(orig, root@, p, queue@, hit, p.len() - 1);
                }
            }
            assert(self.nodes@ =~= after_cancel(orig, root@));
        }
    }

    /// The state of the node named `id`.
    pub fn state(&self, id: &str) -> (r: Option<NodeState>)
        requires
            self.wf(),
        ensures
            r == state_of(self.nodes(), id@),
    {
        match self.find(id) {
            Some(i) => Some(self.nodes[i].state),
            None => None,
        }
    }

    pub fn len(&self) -> (r: usize)
        ensures
            r == self.nodes().len(),
    {
        self.nodes.len()
    }

    pub fn is_empty(&self) -> (r: bool)
        ensures
            r == (self.nodes().len() == 0),
    {
        self.nodes.len() == 0
    }
}

proof fn lemma_path_hit(
    orig: Seq<MediaNode>,
    root: Seq<char>,
    p: Seq<int>,
    queue: Seq<String>,
    hit: Set<int>,
    t: int,
)
    requires
        cancel_path(orig, root, p),
        0 <= t < p.len(),
        queue.len() >= 1,
        queue[0]@ == root,
        forall|i: int|
            #[trigger] hit.contains(i) ==> exists|q: int|
                1 <= q < queue.len() && queue[q]@ == orig[i].id@,
        forall|q: int, i: int|
            0 <= q < queue.len() && 0 <= i < orig.len() && waiting(orig[i].state) && depends_on(
                orig[i],
                #[trigger] queue[q]@,
            ) ==> #[trigger] hit.contains(i),
    ensures
        hit.contains(p[t]),
    decreases t,
{
    assert(0 <= p[t] < orig.len() && waiting(orig[p[t]].state));
    if t == 0 {
        assert(depends_on(orig[p[0]], queue[0]@));
    } else {
        lemma_path_hit(orig, root, p, queue, hit, t - 1);
        let prev = p[t - 1];
        assert(depends_on(orig[p[t]], orig[prev].id@));
        let q = choose|q: int| 1 <= q < queue.len() && queue[q]@ == orig[prev].id@;
        assert(depends_on(orig[p[t]], queue[q]@));
    }
}

} // verus!
