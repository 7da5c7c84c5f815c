//! The state graph: one node per physical state, its realizations on it, and
//! who found what on the edges.
//!
//! Acyclicity is a theorem under a policy. Where every admitted edge strictly
//! reduces logical bytes there is no way back; once the objective is no
//! longer bytes, the structure is a general graph.
//!
//! A graph holds one model and one surface, which its root fixes.
use crate::canon::{short, short_of, texts, FIELD};
use crate::digest::told_apart;
use crate::error::VindexError;
use crate::identity::RepresentationStateId;
use crate::realization::{bytes_text, delta_fits, LogicalBytes, RealizationId, Realized, ResolvedState};
use crate::source_identity::{Source, SourceIdentity};
use crate::table::{
    in_order, lemma_lookup_at, lemma_names, lemma_place_of, lemma_row_of, lemma_seen_lookup,
    lemma_seen_with_row, lemma_with_row_grows, lemma_with_row_in_order, lemma_with_row_lookup, lookup, names, place_of,
    row_of, seen, with_row, Table,
};
use crate::text::{push_signed, same, signed_decimal};
use crate::transition::{observed, Action, Edge, Move, Origin, Provenance, Transition};
use vstd::prelude::*;
use vstd::string::*;

verus! {

/// What the graph admits as an edge.
#[derive(Debug, Clone, Copy, PartialEq, Eq, Structural)]
pub enum TransitionPolicy {
    /// Every edge strictly reduces logical bytes.
    StrictlyImprovingPhysical,
    /// Every edge is admitted.
    Unconstrained,
}

impl TransitionPolicy {
    /// Whether an edge with this delta is admitted.
    pub open spec fn takes(self, delta: int) -> bool {
        match self {
            TransitionPolicy::StrictlyImprovingPhysical => delta < 0,
            TransitionPolicy::Unconstrained => true,
        }
    }

    /// The policy's name.
    pub open spec fn title(self) -> Seq<char> {
        match self {
            TransitionPolicy::StrictlyImprovingPhysical => "StrictlyImprovingPhysical"@,
            TransitionPolicy::Unconstrained => "Unconstrained"@,
        }
    }

    /// The policy's name.
    pub fn name(self) -> (r: &'static str)
        ensures
            r@ == self.title(),
    {
        match self {
            TransitionPolicy::StrictlyImprovingPhysical => "StrictlyImprovingPhysical",
            TransitionPolicy::Unconstrained => "Unconstrained",
        }
    }

    /// Whether an edge with this delta is admitted.
    pub fn admits(self, physical_delta: i64) -> (r: bool)
        ensures
            r == self.takes(physical_delta as int),
    {
        match self {
            TransitionPolicy::StrictlyImprovingPhysical => physical_delta < 0,
            TransitionPolicy::Unconstrained => true,
        }
    }

    /// Whether every graph under this policy is acyclic.
    pub fn guarantees_acyclic(self) -> (r: bool)
        ensures
            r == (self is StrictlyImprovingPhysical),
    {
        matches!(self, TransitionPolicy::StrictlyImprovingPhysical)
    }
}

/// How a realization is read.
pub open spec fn as_realized() -> spec_fn(ResolvedState) -> Realized {
    |s: ResolvedState| s@
}

/// How a node is read.
pub open spec fn as_node() -> spec_fn(StateNode) -> Node {
    |n: StateNode| n@
}

/// How an edge is read.
pub open spec fn as_edge() -> spec_fn(Transition) -> Edge {
    |t: Transition| t@
}

/// One physical state, and every realization of it seen so far.
#[derive(Debug, Clone, PartialEq, Eq)]
pub struct StateNode {
    physical_id: RepresentationStateId,
    logical_bytes: LogicalBytes,
    realizations: Table<String, ResolvedState>,
}

/// One node, by its texts.
#[verifier::ext_equal]
pub struct Node {
    pub id: Seq<char>,
    pub bytes: u64,
    pub realizations: Seq<(Seq<char>, Realized)>,
}

impl View for StateNode {
    type V = Node;

    closed spec fn view(&self) -> Node {
        Node {
            id: self.physical_id@,
            bytes: self.logical_bytes@,
            realizations: seen(self.realizations.rows(), as_realized()),
        }
    }
}

/// A node that holds its first realization.
pub open spec fn fresh_node(child: Realized) -> Node {
    Node {
        id: child.state.id,
        bytes: child.bytes,
        realizations: seq![(child.realization, child)],
    }
}

/// A node with this realization on it. One seen before stays as it is.
pub open spec fn absorbed(node: Node, child: Realized) -> Node {
    if names(node.realizations, child.realization) {
        node
    } else {
        Node {
            realizations: with_row::<String, Realized>(
                node.realizations,
                child.realization,
                child,
            ),
            ..node
        }
    }
}

/// The refusal of a second price for one state.
pub open spec fn priced_text(id: Seq<char>, held: u64, reported: u64) -> Seq<char> {
    "state "@ + short_of(id) + " is already priced at "@ + bytes_text(held)
        + " but this realization reports "@ + bytes_text(reported)
        + " — one physical state presents one set of bytes, so one of the two footprints is wrong"@
}

impl StateNode {
    fn first(child: ResolvedState) -> (r: StateNode)
        ensures
            r@ == fresh_node(child@),
    {
        let physical_id: RepresentationStateId = child.physical_id().clone();
        let logical_bytes: LogicalBytes = child.logical_bytes();
        let key: String = child.realization_id().as_str().to_owned();
        let mut realizations: Table<String, ResolvedState> = Table::new();
        proof {
            lemma_seen_with_row::<String, ResolvedState, Realized>(
                realizations.rows(),
                as_realized(),
                key@,
                child,
            );
        }
        realizations.insert(key, child);
        assert(seen(Seq::<(Seq<char>, ResolvedState)>::empty(), as_realized()) =~= Seq::<
            (Seq<char>, Realized),
        >::empty());
        let r = StateNode { physical_id, logical_bytes, realizations };
        assert(r@.realizations =~= seq![(child@.realization, child@)]);
        r
    }

    /// The physical state.
    pub fn physical_id(&self) -> (r: &RepresentationStateId)
        ensures
            r@ == self@.id,
    {
        &self.physical_id
    }

    /// What it costs.
    pub fn logical_bytes(&self) -> (r: LogicalBytes)
        ensures
            r@ == self@.bytes,
    {
        self.logical_bytes
    }

    /// Every realization, in id order.
    pub fn realizations(&self) -> (r: Vec<&ResolvedState>)
        ensures
            r@.len() == self@.realizations.len(),
            forall|i: int| 0 <= i < r@.len() ==> (#[trigger] r@[i])@ == self@.realizations[i].1,
    {
        let mut v: Vec<&ResolvedState> = Vec::new();
        let mut i: usize = 0;
        while i < self.realizations.len()
            invariant
                i <= self.realizations.rows().len(),
                v@.len() == i,
                self@.realizations == seen(self.realizations.rows(), as_realized()),
                forall|k: int| 0 <= k < i ==> (#[trigger] v@[k])@ == self@.realizations[k].1,
            decreases self.realizations.rows().len() - i,
        {
            v.push(self.realizations.value_at(i));
            i = i + 1;
        }
        v
    }

    /// The realization with this id.
    pub fn realization(&self, id: &RealizationId) -> (r: Option<&ResolvedState>)
        ensures
            r matches Some(s) ==> lookup(self@.realizations, id@) == Some(s@),
            r is None ==> lookup(self@.realizations, id@) is None,
    {
        proof {
            lemma_seen_lookup(self.realizations.rows(), as_realized(), id@);
        }
        self.realizations.get(&id.as_str().to_owned())
    }

    /// How many realizations have been seen.
    pub fn realization_count(&self) -> (r: usize)
        ensures
            r == self@.realizations.len(),
    {
        self.realizations.len()
    }

    /// Fold a realization in, refusing one that disagrees about bytes.
    pub fn absorb(&mut self, state: ResolvedState) -> (r: Result<(), VindexError>)
        ensures
            r is Ok <==> state@.bytes == old(self)@.bytes,
            r is Ok ==> final(self)@ == absorbed(old(self)@, state@),
            r matches Err(e) ==> e.text() == priced_text(
                old(self)@.id,
                old(self)@.bytes,
                state@.bytes,
            ) && *final(self) == *old(self),
    {
        if !state.logical_bytes().same_bytes(self.logical_bytes) {
            let mut s: String = "state ".to_owned();
            s.append(self.physical_id.short());
            s.append(" is already priced at ");
            s.append(self.logical_bytes.describe().as_str());
            s.append(" but this realization reports ");
            s.append(state.logical_bytes().describe().as_str());
            s.append(
                " — one physical state presents one set of bytes, so one of the two footprints is wrong",
            );
            return Err(VindexError::Parse(s));
        }
        let key: String = state.realization_id().as_str().to_owned();
        proof {
            lemma_seen_lookup(self.realizations.rows(), as_realized(), key@);
            lemma_seen_with_row::<String, ResolvedState, Realized>(
                self.realizations.rows(),
                as_realized(),
                key@,
                state,
            );
        }
        if !self.realizations.contains(&key) {
            self.realizations.insert(key, state);
        }
        Ok(())
    }
}

/// **The search state graph.**
#[derive(Debug, Clone, PartialEq, Eq)]
pub struct RepresentationStateGraph {
    policy: TransitionPolicy,
    model: SourceIdentity,
    surface_identity: String,
    root: RepresentationStateId,
    nodes: Table<String, StateNode>,
    edges: Table<String, Transition>,
}

/// A graph, by its texts.
#[verifier::ext_equal]
pub struct Charted {
    pub policy: TransitionPolicy,
    pub model: Source,
    pub surface: Seq<char>,
    pub root: Seq<char>,
    pub nodes: Seq<(Seq<char>, Node)>,
    pub edges: Seq<(Seq<char>, Edge)>,
}

impl View for RepresentationStateGraph {
    type V = Charted;

    closed spec fn view(&self) -> Charted {
        Charted {
            policy: self.policy,
            model: self.model@,
            surface: self.surface_identity@,
            root: self.root@,
            nodes: seen(self.nodes.rows(), as_node()),
            edges: seen(self.edges.rows(), as_edge()),
        }
    }
}

/// The graph that holds its root alone.
pub open spec fn rooted(policy: TransitionPolicy, root: Realized) -> Charted {
    Charted {
        policy,
        model: root.state.model,
        surface: root.state.surface,
        root: root.state.id,
        nodes: seq![(root.state.id, fresh_node(root))],
        edges: Seq::empty(),
    }
}

/// The refusal of an edge from a state the graph does not hold.
pub open spec fn unheld_text(parent: Seq<char>) -> Seq<char> {
    "no state "@ + short_of(parent)
        + " in this graph — an edge cannot begin at a state the graph has never held"@
}

/// The refusal of a state of another surface.
pub open spec fn other_surface_text(surface: Seq<char>, held: Seq<char>) -> Seq<char> {
    "this state was resolved against surface "@ + short_of(surface) + " but the graph's root used "@
        + short_of(held)
        + " — the same bytes under a different enumerated surface is a different search problem"@
}

/// The refusal of an edge the policy does not admit.
pub open spec fn unadmitted_text(label: Seq<char>, delta: int, policy: TransitionPolicy) -> Seq<char> {
    "transition `"@ + label + "` moves "@ + signed_decimal(delta)
        + " logical bytes and the graph's policy is "@ + policy.title()
        + " — the policy is what makes this structure acyclic, so admitting this edge would silently change what the graph IS"@
}

/// The edge a move makes.
pub open spec fn edge_of(
    parent: Seq<char>,
    child: Realized,
    action: Move,
    delta: int,
    origin: Origin,
) -> Edge {
    Edge {
        parent,
        child: child.state.id,
        child_realization: child.realization,
        action,
        physical_delta: delta as i64,
        provenance: seq![origin],
    }
}

/// The edges with this one on record. One found before gains an observer.
pub open spec fn recorded(edges: Seq<(Seq<char>, Edge)>, edge: Edge, origin: Origin) -> Seq<
    (Seq<char>, Edge),
> {
    match lookup(edges, edge.identity()) {
        Some(held) => with_row::<String, Edge>(
            edges,
            edge.identity(),
            Edge { provenance: observed(held.provenance, origin), ..held },
        ),
        None => with_row::<String, Edge>(edges, edge.identity(), edge),
    }
}

impl Charted {
    /// The node a state would be after this realization of it.
    pub open spec fn node_with(self, child: Realized) -> Node {
        match lookup(self.nodes, child.state.id) {
            Some(held) => absorbed(held, child),
            None => fresh_node(child),
        }
    }

    /// **What applying a move gives**, or why it is refused.
    pub open spec fn applied(
        self,
        parent: Seq<char>,
        action: Move,
        child: Realized,
        origin: Origin,
    ) -> Result<Charted, Seq<char>> {
        match lookup(self.nodes, parent) {
            None => Err(unheld_text(parent)),
            Some(from) => if child.state.model.semantic != self.model.semantic {
                Err(
                    "this state belongs to a different container — a map's physical prize is a property of the model it resolves against, so one graph holds one model"@,
                )
            } else if child.state.surface != self.surface {
                Err(other_surface_text(child.state.surface, self.surface))
            } else if !self.policy.takes(child.bytes - from.bytes) {
                Err(unadmitted_text(action.label, child.bytes - from.bytes, self.policy))
            } else if lookup(self.nodes, child.state.id) is Some && lookup(
                self.nodes,
                child.state.id,
            )->0.bytes != child.bytes {
                Err(
                    priced_text(
                        lookup(self.nodes, child.state.id)->0.id,
                        lookup(self.nodes, child.state.id)->0.bytes,
                        child.bytes,
                    ),
                )
            } else {
                Ok(
                    Charted {
                        nodes: with_row::<String, Node>(
                            self.nodes,
                            child.state.id,
                            self.node_with(child),
                        ),
                        edges: recorded(
                            self.edges,
                            edge_of(parent, child, action, child.bytes - from.bytes, origin),
                            origin,
                        ),
                        ..self
                    },
                )
            },
        }
    }
}

/// A node stands under its own id and is priced once, and every realization
/// on it is identified by what it states.
pub open spec fn node_stands(g: Charted, id: Seq<char>, node: Node) -> bool {
    &&& node.id == id
    &&& node.realizations.len() > 0
    &&& in_order::<String, Realized>(node.realizations)
    &&& forall|i: int|
        0 <= i < node.realizations.len() ==> {
            let row = #[trigger] node.realizations[i];
            &&& row.1.realization == row.0
            &&& row.1.state.id == id
            &&& row.1.bytes == node.bytes
            &&& row.1.state.model.semantic == g.model.semantic
            &&& row.1.state.surface == g.surface
            &&& row.1.identified()
        }
}

/// An edge joins two nodes, arrives at a realization seen there, and moves
/// the bytes between them, as the policy admits.
pub open spec fn edge_stands(g: Charted, edge: Edge) -> bool {
    match (lookup(g.nodes, edge.parent), lookup(g.nodes, edge.child)) {
        (Some(from), Some(to)) => {
            &&& names(to.realizations, edge.child_realization)
            &&& edge.physical_delta == to.bytes - from.bytes
            &&& g.policy.takes(to.bytes - from.bytes)
        },
        _ => false,
    }
}

/// Every edge stands under its own identity.
#[verifier::opaque]
pub open spec fn edges_named(edges: Seq<(Seq<char>, Edge)>) -> bool {
    forall|i: int| 0 <= i < edges.len() ==> (#[trigger] edges[i]).0 == edges[i].1.identity()
}

impl Charted {
    /// **What every operation keeps.** One node per physical state and one
    /// price per node, every realization of the graph's own model and
    /// surface, and every edge under its own identity and between nodes the
    /// graph holds. How a container was exported is no part of its model.
    pub open spec fn well_formed(self) -> bool {
        &&& in_order::<String, Node>(self.nodes)
        &&& in_order::<String, Edge>(self.edges)
        &&& names(self.nodes, self.root)
        &&& forall|i: int|
            0 <= i < self.nodes.len() ==> node_stands(
                self,
                (#[trigger] self.nodes[i]).0,
                self.nodes[i].1,
            )
        &&& forall|i: int|
            0 <= i < self.edges.len() ==> edge_stands(self, (#[trigger] self.edges[i]).1)
        &&& edges_named(self.edges)
    }
}

proof fn lemma_rooted(policy: TransitionPolicy, root: Realized)
    requires
        root.identified(),
    ensures
        rooted(policy, root).well_formed(),
{
    let g = rooted(policy, root);
    reveal(edges_named);
    lemma_names(g.nodes, g.root);
    assert(g.nodes[0].0 == g.root);
}

proof fn lemma_lookup_stands(g: Charted, id: Seq<char>)
    requires
        g.well_formed(),
        names(g.nodes, id),
    ensures
        node_stands(g, id, lookup(g.nodes, id)->0),
{
    lemma_row_of(g.nodes, id);
    let k = row_of(g.nodes, id);
    assert(node_stands(g, g.nodes[k].0, g.nodes[k].1));
}

proof fn lemma_node_with(g: Charted, child: Realized)
    requires
        g.well_formed(),
        child.identified(),
        child.state.model.semantic == g.model.semantic,
        child.state.surface == g.surface,
        lookup(g.nodes, child.state.id) is Some ==> lookup(g.nodes, child.state.id)->0.bytes
            == child.bytes,
    ensures
        node_stands(g, child.state.id, g.node_with(child)),
        g.node_with(child).bytes == child.bytes,
        names(g.node_with(child).realizations, child.realization),
        forall|r: Seq<char>|
            lookup(g.nodes, child.state.id) is Some && names(
                lookup(g.nodes, child.state.id)->0.realizations,
                r,
            ) ==> names(g.node_with(child).realizations, r),
{
    let id = child.state.id;
    let after = g.node_with(child);
    match lookup(g.nodes, id) {
        Some(held) => {
            lemma_names(g.nodes, id);
            lemma_lookup_stands(g, id);
            if !names(held.realizations, child.realization) {
                let before = held.realizations;
                lemma_with_row_in_order::<String, Realized>(before, child.realization, child);
                lemma_with_row_lookup::<String, Realized>(
                    before,
                    child.realization,
                    child,
                    child.realization,
                );
                assert forall|r: Seq<char>| names(before, r) implies names(
                    after.realizations,
                    r,
                ) by {
                    lemma_with_row_lookup::<String, Realized>(before, child.realization, child, r);
                }
                let p = place_of::<String, Realized>(before, child.realization);
                lemma_place_of::<String, Realized>(before, child.realization);
                assert forall|i: int| 0 <= i < after.realizations.len() implies {
                    let row = #[trigger] after.realizations[i];
                    &&& row.1.realization == row.0
                    &&& row.1.state.id == id
                    &&& row.1.bytes == after.bytes
                    &&& row.1.state.model.semantic == g.model.semantic
                    &&& row.1.state.surface == g.surface
                    &&& row.1.identified()
                } by {
                    if i < p {
                        assert(after.realizations[i] == before[i]);
                    } else if i > p {
                        assert(after.realizations[i] == before[i - 1]);
                    }
                }
            }
        },
        None => {
            lemma_names(after.realizations, child.realization);
            assert(after.realizations[0].0 == child.realization);
        },
    }
}

proof fn lemma_recorded_is_named(edges: Seq<(Seq<char>, Edge)>, edge: Edge, origin: Origin)
    requires
        edges_named(edges),
    ensures
        edges_named(recorded(edges, edge, origin)),
{
    reveal(edges_named);
    let key = edge.identity();
    let written = match lookup(edges, key) {
        Some(held) => Edge { provenance: observed(held.provenance, origin), ..held },
        None => edge,
    };
    let after = with_row::<String, Edge>(edges, key, written);
    lemma_row_of(edges, key);
    lemma_place_of::<String, Edge>(edges, key);
    assert(written.identity() == key) by {
        if lookup(edges, key) is Some {
            let k = row_of(edges, key);
            assert(edges[k].0 == edges[k].1.identity());
            assert(written.canonical() == edges[k].1.canonical());
        }
    }
    let p = place_of::<String, Edge>(edges, key);
    assert forall|i: int| 0 <= i < after.len() implies (#[trigger] after[i]).0
        == after[i].1.identity() by {
        if names(edges, key) {
            if i != row_of(edges, key) {
                assert(after[i] == edges[i]);
            }
        } else if i < p {
            assert(after[i] == edges[i]);
        } else if i > p {
            assert(after[i] == edges[i - 1]);
        }
    }
}

/// **Applying a move keeps the graph well formed.**
pub proof fn law_apply_keeps_the_graph(
    g: Charted,
    parent: Seq<char>,
    action: Move,
    child: Realized,
    origin: Origin,
)
    requires
        g.well_formed(),
        child.identified(),
        g.applied(parent, action, child, origin) is Ok,
        delta_fits(child.bytes, lookup(g.nodes, parent)->0.bytes),
    ensures
        g.applied(parent, action, child, origin)->Ok_0.well_formed(),
{
    let h = g.applied(parent, action, child, origin)->Ok_0;
    let id = child.state.id;
    let node = g.node_with(child);
    let from = lookup(g.nodes, parent)->0;
    let edge = edge_of(parent, child, action, child.bytes - from.bytes, origin);
    lemma_names(g.nodes, parent);
    lemma_names(g.nodes, id);
    lemma_node_with(g, child);
    lemma_with_row_in_order::<String, Node>(g.nodes, id, node);
    lemma_with_row_lookup::<String, Node>(g.nodes, id, node, g.root);
    // Every node of the new graph stands.
    assert forall|i: int| 0 <= i < h.nodes.len() implies node_stands(
        h,
        (#[trigger] h.nodes[i]).0,
        h.nodes[i].1,
    ) by {
        let n = h.nodes[i].0;
        lemma_lookup_at::<String, Node>(h.nodes, i);
        lemma_with_row_lookup::<String, Node>(g.nodes, id, node, n);
        if n == id {
            assert(node_stands(g, id, node));
            assert(node_stands(h, id, node));
        } else {
            lemma_names(h.nodes, n);
            lemma_names(g.nodes, n);
            lemma_lookup_stands(g, n);
            assert(node_stands(h, n, h.nodes[i].1));
        }
    }
    // Every edge of the old graph stands in the new one.
    assert forall|e: Edge| edge_stands(g, e) implies edge_stands(h, e) by {
        lemma_with_row_lookup::<String, Node>(g.nodes, id, node, e.parent);
        lemma_with_row_lookup::<String, Node>(g.nodes, id, node, e.child);
        if lookup(g.nodes, id) is Some {
            assert(node.bytes == lookup(g.nodes, id)->0.bytes);
        }
    }
    lemma_with_row_lookup::<String, Node>(g.nodes, id, node, parent);
    assert(edge_stands(h, edge)) by {
        if parent == id {
            assert(lookup(g.nodes, id)->0.bytes == child.bytes);
        }
    }
    let key = edge.identity();
    let written = match lookup(g.edges, key) {
        Some(held) => Edge { provenance: observed(held.provenance, origin), ..held },
        None => edge,
    };
    assert(h.edges == with_row::<String, Edge>(g.edges, key, written));
    lemma_with_row_in_order::<String, Edge>(g.edges, key, written);
    lemma_row_of(g.edges, key);
    lemma_place_of::<String, Edge>(g.edges, key);
    assert(edge_stands(h, written)) by {
        if lookup(g.edges, key) is Some {
            let k = row_of(g.edges, key);
            assert(edge_stands(g, g.edges[k].1));
            assert(edge_stands(h, g.edges[k].1));
        }
    }
    let p = place_of::<String, Edge>(g.edges, key);
    lemma_recorded_is_named(g.edges, edge, origin);
    assert forall|i: int| 0 <= i < h.edges.len() implies edge_stands(h, (#[trigger] h.edges[i]).1) by {
        if names(g.edges, key) {
            if i != row_of(g.edges, key) {
                assert(h.edges[i] == g.edges[i]);
                assert(edge_stands(g, g.edges[i].1));
            }
        } else if i < p {
            assert(h.edges[i] == g.edges[i]);
            assert(edge_stands(g, g.edges[i].1));
        } else if i > p {
            assert(h.edges[i] == g.edges[i - 1]);
            assert(edge_stands(g, g.edges[i - 1].1));
        }
    }
}

impl RepresentationStateGraph {
    /// Start a graph at `root`, which fixes the model and the surface.
    pub fn new(policy: TransitionPolicy, root: ResolvedState) -> (r: RepresentationStateGraph)
        ensures
            r@ == rooted(policy, root@),
            r@.well_formed(),
    {
        let root_id: RepresentationStateId = root.physical_id().clone();
        let model: SourceIdentity = root.state().model().clone();
        let surface_identity: String = root.state().surface_identity().to_owned();
        let ghost held = root@;
        proof {
            use_type_invariant(&root);
        }
        let mut nodes: Table<String, StateNode> = Table::new();
        let key: String = root_id.as_str().to_owned();
        let node: StateNode = StateNode::first(root);
        proof {
            lemma_seen_with_row::<String, StateNode, Node>(nodes.rows(), as_node(), key@, node);
            lemma_rooted(policy, held);
        }
        nodes.insert(key, node);
        let edges: Table<String, Transition> = Table::new();
        let r = RepresentationStateGraph {
            policy,
            model,
            surface_identity,
            root: root_id,
            nodes,
            edges,
        };
        proof {
            assert(seen(Seq::<(Seq<char>, StateNode)>::empty(), as_node()) =~= Seq::<
                (Seq<char>, Node),
            >::empty());
            assert(r@.nodes =~= rooted(policy, held).nodes);
            assert(r@.edges =~= rooted(policy, held).edges);
        }
        r
    }

    /// **Apply `action` at `parent`, arriving at `child`.** Returns the
    /// child's physical id; a refusal leaves the graph as it was.
    pub fn apply(
        &mut self,
        parent: &RepresentationStateId,
        action: Action,
        child: ResolvedState,
        provenance: Provenance,
    ) -> (r: Result<RepresentationStateId, VindexError>)
        requires
            lookup(old(self)@.nodes, parent@) matches Some(from) ==> delta_fits(
                child@.bytes,
                from.bytes,
            ),
        ensures
            match old(self)@.applied(parent@, action@, child@, provenance@) {
                Ok(after) => r matches Ok(id) && id@ == child@.state.id && final(self)@ == after,
                Err(text) => r matches Err(e) && e.text() == text && final(self)@ == old(self)@,
            },
            old(self)@.well_formed() ==> final(self)@.well_formed(),
    {
        let ghost before = self@;
        let ghost child_shown = child@;
        let ghost action_shown = action@;
        let ghost origin = provenance@;
        proof {
            use_type_invariant(&child);
            lemma_seen_lookup(self.nodes.rows(), as_node(), parent@);
            if before.well_formed() && before.applied(parent@, action@, child@, origin) is Ok {
                law_apply_keeps_the_graph(before, parent@, action@, child@, origin);
            }
        }
        let parent_bytes: LogicalBytes = match self.nodes.get(&parent.as_str().to_owned()) {
            Some(node) => node.logical_bytes(),
            None => {
                let mut s: String = "no state ".to_owned();
                s.append(parent.short());
                s.append(
                    " in this graph — an edge cannot begin at a state the graph has never held",
                );
                return Err(VindexError::Parse(s));
            },
        };
        match self.check_same_model(&child) {
            Ok(()) => {},
            Err(e) => {
                return Err(e);
            },
        }
        let physical_delta: i64 = child.logical_bytes().delta_from(parent_bytes);
        if !self.policy.admits(physical_delta) {
            let mut s: String = "transition `".to_owned();
            s.append(action.label.as_str());
            s.append("` moves ");
            push_signed(&mut s, physical_delta);
            s.append(" logical bytes and the graph's policy is ");
            s.append(self.policy.name());
            s.append(
                " — the policy is what makes this structure acyclic, so admitting this edge would silently change what the graph IS",
            );
            return Err(VindexError::Parse(s));
        }
        let child_id: RepresentationStateId = child.physical_id().clone();
        let realization_id: RealizationId = child.realization_id().clone();
        let key: String = child_id.as_str().to_owned();
        let at: usize = self.nodes.find(&key);
        proof {
            lemma_seen_lookup(self.nodes.rows(), as_node(), key@);
            lemma_row_of(self.nodes.rows(), key@);
        }
        if at < self.nodes.len() {
            let ghost rows = self.nodes.rows();
            let ghost held = rows[at as int].1;
            let outcome: Result<(), VindexError> = self.nodes.value_at_mut(at).absorb(child);
            match outcome {
                Ok(()) => {
                    proof {
                        let now = self.nodes.rows()[at as int].1;
                        assert(now@ == absorbed(held@, child_shown));
                        assert(seen(self.nodes.rows(), as_node()) =~= with_row::<String, Node>(
                            before.nodes,
                            key@,
                            before.node_with(child_shown),
                        ));
                    }
                },
                Err(e) => {
                    proof {
                        assert(self.nodes.rows() =~= rows);
                        assert(self@ =~= before);
                    }
                    return Err(e);
                },
            }
        } else {
            let node: StateNode = StateNode::first(child);
            proof {
                lemma_seen_with_row::<String, StateNode, Node>(
                    self.nodes.rows(),
                    as_node(),
                    key@,
                    node,
                );
            }
            self.nodes.insert(key, node);
        }
        let edge: Transition = Transition::new(
            parent.clone(),
            child_id.clone(),
            realization_id,
            action,
            physical_delta,
            provenance.clone(),
        );
        let edge_key: String = edge.identity();
        let place: usize = self.edges.find(&edge_key);
        let ghost rows = self.edges.rows();
        proof {
            lemma_seen_lookup(rows, as_edge(), edge_key@);
            lemma_row_of(rows, edge_key@);
            lemma_seen_with_row::<String, Transition, Edge>(rows, as_edge(), edge_key@, edge);
        }
        if place < self.edges.len() {
            let ghost held = rows[place as int].1;
            self.edges.value_at_mut(place).observe(provenance);
            proof {
                assert(seen(self.edges.rows(), as_edge()) =~= recorded(
                    before.edges,
                    edge@,
                    origin,
                ));
            }
        } else {
            self.edges.insert(edge_key, edge);
        }
        proof {
            let after = before.applied(parent@, action_shown, child_shown, origin)->Ok_0;
            assert(self@.nodes == after.nodes);
            assert(self@.edges == after.edges);
            assert(self@ =~= after);
        }
        Ok(child_id)
    }

    fn check_same_model(&self, child: &ResolvedState) -> (r: Result<(), VindexError>)
        ensures
            r is Ok <==> child@.state.model.semantic == self@.model.semantic && child@.state.surface
                == self@.surface,
            r matches Err(e) ==> e.text() == (if child@.state.model.semantic
                != self@.model.semantic {
                "this state belongs to a different container — a map's physical prize is a property of the model it resolves against, so one graph holds one model"@
            } else {
                other_surface_text(child@.state.surface, self@.surface)
            }),
    {
        if !child.state().model().semantic.same_source(&self.model.semantic) {
            return Err(
                VindexError::Parse(
                    "this state belongs to a different container — a map's physical prize is a property of the model it resolves against, so one graph holds one model".to_owned(),
                ),
            );
        }
        if !same(child.state().surface_identity(), self.surface_identity.as_str()) {
            let mut s: String = "this state was resolved against surface ".to_owned();
            s.append(short(child.state().surface_identity()));
            s.append(" but the graph's root used ");
            s.append(short(self.surface_identity.as_str()));
            s.append(
                " — the same bytes under a different enumerated surface is a different search problem",
            );
            return Err(VindexError::Parse(s));
        }
        Ok(())
    }

    /// The policy.
    pub fn policy(&self) -> (r: TransitionPolicy)
        ensures
            r == self@.policy,
    {
        self.policy
    }

    /// The model.
    pub fn model(&self) -> (r: &SourceIdentity)
        ensures
            r@ == self@.model,
    {
        &self.model
    }

    /// The surface's identity.
    pub fn surface_identity(&self) -> (r: &str)
        ensures
            r@ == self@.surface,
    {
        self.surface_identity.as_str()
    }

    /// The root's id.
    pub fn root(&self) -> (r: &RepresentationStateId)
        ensures
            r@ == self@.root,
    {
        &self.root
    }

    /// The node of a state.
    pub fn node(&self, id: &RepresentationStateId) -> (r: Option<&StateNode>)
        ensures
            r matches Some(n) ==> lookup(self@.nodes, id@) == Some(n@),
            r is None ==> lookup(self@.nodes, id@) is None,
    {
        proof {
            lemma_seen_lookup(self.nodes.rows(), as_node(), id@);
        }
        self.nodes.get(&id.as_str().to_owned())
    }

    /// The nodes, in id order.
    pub fn nodes(&self) -> (r: Vec<&StateNode>)
        ensures
            r@.len() == self@.nodes.len(),
            forall|i: int| 0 <= i < r@.len() ==> (#[trigger] r@[i])@ == self@.nodes[i].1,
    {
        let mut v: Vec<&StateNode> = Vec::new();
        let mut i: usize = 0;
        while i < self.nodes.len()
            invariant
                i <= self.nodes.rows().len(),
                v@.len() == i,
                self@.nodes == seen(self.nodes.rows(), as_node()),
                forall|k: int| 0 <= k < i ==> (#[trigger] v@[k])@ == self@.nodes[k].1,
            decreases self.nodes.rows().len() - i,
        {
            v.push(self.nodes.value_at(i));
            i = i + 1;
        }
        v
    }

    /// How many nodes the graph holds.
    pub fn len(&self) -> (r: usize)
        ensures
            r == self@.nodes.len(),
    {
        self.nodes.len()
    }

    /// Whether the graph holds nothing. It always holds its root.
    pub fn is_empty(&self) -> (r: bool)
        ensures
            r == (self@.nodes.len() == 0),
            self@.well_formed() ==> !r,
    {
        proof {
            lemma_row_of(self@.nodes, self@.root);
        }
        self.nodes.is_empty()
    }

    /// The edges, in identity order.
    pub fn edges(&self) -> (r: Vec<&Transition>)
        ensures
            r@.len() == self@.edges.len(),
            forall|i: int| 0 <= i < r@.len() ==> (#[trigger] r@[i])@ == self@.edges[i].1,
    {
        let mut v: Vec<&Transition> = Vec::new();
        let mut i: usize = 0;
        while i < self.edges.len()
            invariant
                i <= self.edges.rows().len(),
                v@.len() == i,
                self@.edges == seen(self.edges.rows(), as_edge()),
                forall|k: int| 0 <= k < i ==> (#[trigger] v@[k])@ == self@.edges[k].1,
            decreases self.edges.rows().len() - i,
        {
            v.push(self.edges.value_at(i));
            i = i + 1;
        }
        v
    }

    /// How many edges the graph holds.
    pub fn edge_count(&self) -> (r: usize)
        ensures
            r == self@.edges.len(),
    {
        self.edges.len()
    }

    /// Every edge that arrives at a state.
    pub fn incoming(&self, id: &RepresentationStateId) -> (r: Vec<&Transition>)
        ensures
            r@.map_values(|t: &Transition| t@) == edges_to(self@.edges, id@),
    {
        let mut v: Vec<&Transition> = Vec::new();
        let mut i: usize = 0;
        assert(v@.map_values(|t: &Transition| t@) =~= Seq::<Edge>::empty());
        assert(self@.edges.take(0) =~= Seq::<(Seq<char>, Edge)>::empty());
        while i < self.edges.len()
            invariant
                i <= self.edges.rows().len(),
                self@.edges == seen(self.edges.rows(), as_edge()),
                v@.map_values(|t: &Transition| t@) == edges_to(self@.edges.take(i as int), id@),
            decreases self.edges.rows().len() - i,
        {
            let edge: &Transition = self.edges.value_at(i);
            let ghost next = self@.edges.take(i as int + 1);
            let ghost held = v@;
            assert(next.drop_last() =~= self@.edges.take(i as int));
            assert(next.last().1 == edge@);
            if same(edge.child().as_str(), id.as_str()) {
                v.push(edge);
                assert(v@.map_values(|t: &Transition| t@) =~= held.map_values(
                    |t: &Transition| t@,
                ).push(edge@));
            }
            i = i + 1;
        }
        assert(self@.edges.take(self@.edges.len() as int) =~= self@.edges);
        v
    }

    /// Every edge that departs from a state.
    pub fn outgoing(&self, id: &RepresentationStateId) -> (r: Vec<&Transition>)
        ensures
            r@.map_values(|t: &Transition| t@) == edges_from(self@.edges, id@),
    {
        let mut v: Vec<&Transition> = Vec::new();
        let mut i: usize = 0;
        assert(v@.map_values(|t: &Transition| t@) =~= Seq::<Edge>::empty());
        assert(self@.edges.take(0) =~= Seq::<(Seq<char>, Edge)>::empty());
        while i < self.edges.len()
            invariant
                i <= self.edges.rows().len(),
                self@.edges == seen(self.edges.rows(), as_edge()),
                v@.map_values(|t: &Transition| t@) == edges_from(self@.edges.take(i as int), id@),
            decreases self.edges.rows().len() - i,
        {
            let edge: &Transition = self.edges.value_at(i);
            let ghost next = self@.edges.take(i as int + 1);
            let ghost held = v@;
            assert(next.drop_last() =~= self@.edges.take(i as int));
            assert(next.last().1 == edge@);
            if same(edge.parent().as_str(), id.as_str()) {
                v.push(edge);
                assert(v@.map_values(|t: &Transition| t@) =~= held.map_values(
                    |t: &Transition| t@,
                ).push(edge@));
            }
            i = i + 1;
        }
        assert(self@.edges.take(self@.edges.len() as int) =~= self@.edges);
        v
    }

    /// **Whether the graph contains no directed cycle.**
    pub fn is_acyclic(&self) -> (r: bool)
        requires
            self@.well_formed(),
        ensures
            r == !cyclic(self@.edges),
            self@.policy is StrictlyImprovingPhysical ==> r,
    {
        proof {
            if self@.policy is StrictlyImprovingPhysical {
                law_strict_improvement_is_acyclic(self@);
            }
        }
        let mut finished: Vec<String> = Vec::new();
        let mut i: usize = 0;
        assert(topological(self@.edges, texts(finished@))) by {
            reveal(topological);
        }
        let ghost ids = ids_of(self@.nodes);
        while i < self.nodes.len()
            invariant
                i <= self.nodes.rows().len(),
                self@.well_formed(),
                ids == ids_of(self@.nodes),
                self.nodes.rows().len() == ids.len(),
                self@.policy is StrictlyImprovingPhysical ==> !cyclic(self@.edges),
                topological(self@.edges, texts(finished@)),
                forall|k: int| 0 <= k < i ==> texts(finished@).contains(#[trigger] ids[k]),
            decreases self.nodes.rows().len() - i,
        {
            let mut path: Vec<String> = Vec::new();
            let ghost held = texts(finished@);
            let id: &String = self.nodes.key_at(i);
            proof {
                lemma_held_at(self, i as int);
                assert(texts(path@) =~= Seq::<Seq<char>>::empty());
            }
            if !self.visit(id.as_str(), &mut finished, &mut path) {
                return false;
            }
            proof {
                assert forall|k: int| 0 <= k < i + 1 implies texts(finished@).contains(
                    #[trigger] ids[k],
                ) by {
                    if k < i {
                        assert(held.contains(ids[k]));
                    }
                }
            }
            i = i + 1;
        }
        proof {
            lemma_finished_is_acyclic(self@, texts(finished@));
        }
        true
    }

    /// Walk on from `id`, which `path` has led to. Where no way leads back,
    /// everything reached is finished, each state behind those it leads to.
    fn visit(&self, id: &str, finished: &mut Vec<String>, path: &mut Vec<String>) -> (r: bool)
        requires
            self@.well_formed(),
            names(self@.nodes, id@),
            is_walk(self@.edges, texts(old(path)@)),
            old(path)@.len() > 0 ==> step(self@.edges, texts(old(path)@).last(), id@),
            texts(old(path)@).no_duplicates(),
            forall|k: int|
                0 <= k < old(path)@.len() ==> names(self@.nodes, #[trigger] texts(old(path)@)[k]),
            topological(self@.edges, texts(old(finished)@)),
        ensures
            !r ==> cyclic(self@.edges),
            r ==> {
                &&& final(path)@ == old(path)@
                &&& topological(self@.edges, texts(final(finished)@))
                &&& texts(final(finished)@).contains(id@)
                &&& forall|n: Seq<char>|
                    texts(old(finished)@).contains(n) ==> texts(final(finished)@).contains(n)
            },
        decreases self@.nodes.len() - old(path)@.len(),
    {
        let ghost all = self@.edges;
        let ghost trail = texts(path@);
        if holds(finished, id) {
            return true;
        }
        if holds(path, id) {
            proof {
                let k = trail.index_of(id@);
                let round = trail.skip(k).push(id@);
                assert(round[0] == id@ && round.last() == id@);
                assert forall|m: int| 0 <= m < round.len() - 1 implies step(
                    all,
                    #[trigger] round[m],
                    round[m + 1],
                ) by {
                    assert(round[m] == trail[k + m]);
                    if m < round.len() - 2 {
                        assert(round[m + 1] == trail[k + m + 1]);
                        assert(step(all, trail[k + m], trail[k + m + 1]));
                    } else {
                        assert(trail[k + m] == trail.last());
                    }
                }
                assert(is_walk(all, round));
                assert(comes_back(all, round));
            }
            return false;
        }
        path.push(id.to_owned());
        let ghost longer = texts(path@);
        proof {
            assert(longer =~= trail.push(id@));
            assert forall|m: int| 0 <= m < longer.len() - 1 implies step(
                all,
                #[trigger] longer[m],
                longer[m + 1],
            ) by {
                assert(longer[m] == trail[m]);
                if m < longer.len() - 2 {
                    assert(longer[m + 1] == trail[m + 1]);
                    assert(step(all, trail[m], trail[m + 1]));
                }
            }
            assert forall|k: int| 0 <= k < path@.len() implies names(
                self@.nodes,
                #[trigger] longer[k],
            ) by {
                if k < trail.len() {
                    assert(longer[k] == trail[k]);
                }
            }
            assert(longer.no_duplicates()) by {
                assert forall|i: int, j: int|
                    0 <= i < longer.len() && 0 <= j < longer.len() && i != j implies longer[i]
                    != longer[j] by {
                    if i < trail.len() && j < trail.len() {
                        assert(longer[i] == trail[i] && longer[j] == trail[j]);
                    } else if i < trail.len() {
                        assert(longer[i] == trail[i]);
                        assert(trail.contains(trail[i]));
                    } else {
                        assert(longer[j] == trail[j]);
                        assert(trail.contains(trail[j]));
                    }
                }
            }
            lemma_path_is_no_longer_than_the_graph(self@.nodes, longer);
        }
        let ghost held = texts(finished@);
        let ghost here = path@;
        let mut i: usize = 0;
        while i < self.edges.len()
            invariant
                i <= self.edges.rows().len(),
                self@.well_formed(),
                all == self@.edges,
                all == seen(self.edges.rows(), as_edge()),
                path@ == here,
                longer == texts(here),
                here.len() == old(path)@.len() + 1,
                here.len() <= self@.nodes.len(),
                longer.last() == id@,
                is_walk(all, longer),
                longer.no_duplicates(),
                forall|k: int| 0 <= k < here.len() ==> names(self@.nodes, #[trigger] longer[k]),
                topological(all, texts(finished@)),
                forall|n: Seq<char>| held.contains(n) ==> texts(finished@).contains(n),
                forall|k: int|
                    0 <= k < i && (#[trigger] all[k]).1.parent == id@ ==> texts(
                        finished@,
                    ).contains(all[k].1.child),
            decreases self.edges.rows().len() - i,
        {
            let edge: &Transition = self.edges.value_at(i);
            assert(all[i as int].1 == edge@);
            let ghost known = texts(finished@);
            if same(edge.parent().as_str(), id) {
                proof {
                    assert(edge_stands(self@, all[i as int].1));
                    lemma_names(self@.nodes, edge@.child);
                    assert(step(all, id@, edge@.child));
                }
                if !self.visit(edge.child().as_str(), finished, path) {
                    return false;
                }
            }
            proof {
                assert forall|k: int|
                    0 <= k < i + 1 && (#[trigger] all[k]).1.parent == id@ implies texts(
                    finished@,
                ).contains(all[k].1.child) by {
                    if k < i {
                        assert(known.contains(all[k].1.child));
                    }
                }
            }
            i = i + 1;
        }
        let _ = path.pop();
        let ghost order = texts(finished@);
        finished.push(id.to_owned());
        proof {
            reveal(topological);
            let after = texts(finished@);
            assert(after =~= order.push(id@));
            assert(path@ =~= old(path)@);
            assert forall|k: int, n: Seq<char>|
                0 <= k < after.len() && #[trigger] step(all, after[k], n) implies after.take(
                k,
            ).contains(n) by {
                assert(after.take(k) =~= order.take(k));
                if k < order.len() {
                    assert(after[k] == order[k]);
                    assert(step(all, order[k], n));
                } else {
                    let e = choose|e: int|
                        0 <= e < all.len() && (#[trigger] all[e]).1.parent == id@ && all[e].1.child
                            == n;
                    assert(order.contains(all[e].1.child));
                    assert(order.take(k) =~= order);
                }
            }
            assert(after[order.len() as int] == id@);
            assert forall|n: Seq<char>| texts(old(finished)@).contains(n) implies after.contains(
                n,
            ) by {
                assert(order.contains(n));
                let k = order.index_of(n);
                assert(after[k] == n);
            }
        }
        true
    }
}

fn holds(v: &Vec<String>, name: &str) -> (r: bool)
    ensures
        r == texts(v@).contains(name@),
{
    let mut i: usize = 0;
    while i < v.len()
        invariant
            i <= v@.len(),
            forall|k: int| 0 <= k < i ==> #[trigger] texts(v@)[k] != name@,
        decreases v@.len() - i,
    {
        if same(v[i].as_str(), name) {
            assert(texts(v@)[i as int] == name@);
            return true;
        }
        i = i + 1;
    }
    false
}

spec fn ids_of(nodes: Seq<(Seq<char>, Node)>) -> Seq<Seq<char>> {
    nodes.map_values(|r: (Seq<char>, Node)| r.0)
}

proof fn lemma_held_at(graph: &RepresentationStateGraph, i: int)
    requires
        0 <= i < graph.nodes.rows().len(),
    ensures
        names(graph@.nodes, graph.nodes.rows()[i].0),
        ids_of(graph@.nodes)[i] == graph.nodes.rows()[i].0,
{
    lemma_names(graph@.nodes, graph.nodes.rows()[i].0);
    assert(graph@.nodes[i].0 == graph.nodes.rows()[i].0);
}

/// The edges that arrive at a state.
pub open spec fn edges_to(edges: Seq<(Seq<char>, Edge)>, id: Seq<char>) -> Seq<Edge>
    decreases edges.len(),
{
    if edges.len() == 0 {
        Seq::empty()
    } else if edges.last().1.child == id {
        edges_to(edges.drop_last(), id).push(edges.last().1)
    } else {
        edges_to(edges.drop_last(), id)
    }
}

/// The edges that depart from a state.
pub open spec fn edges_from(edges: Seq<(Seq<char>, Edge)>, id: Seq<char>) -> Seq<Edge>
    decreases edges.len(),
{
    if edges.len() == 0 {
        Seq::empty()
    } else if edges.last().1.parent == id {
        edges_from(edges.drop_last(), id).push(edges.last().1)
    } else {
        edges_from(edges.drop_last(), id)
    }
}

/// Some edge leads from one state to the other.
pub open spec fn step(edges: Seq<(Seq<char>, Edge)>, from: Seq<char>, to: Seq<char>) -> bool {
    exists|e: int|
        0 <= e < edges.len() && (#[trigger] edges[e]).1.parent == from && edges[e].1.child == to
}

/// Each state leads to the next.
pub open spec fn is_walk(edges: Seq<(Seq<char>, Edge)>, walk: Seq<Seq<char>>) -> bool {
    forall|k: int| 0 <= k < walk.len() - 1 ==> step(edges, #[trigger] walk[k], walk[k + 1])
}

/// A walk that comes back to where it started.
pub open spec fn comes_back(edges: Seq<(Seq<char>, Edge)>, walk: Seq<Seq<char>>) -> bool {
    walk.len() >= 2 && is_walk(edges, walk) && walk[0] == walk.last()
}

/// Some walk comes back to where it started.
pub open spec fn cyclic(edges: Seq<(Seq<char>, Edge)>) -> bool {
    exists|walk: Seq<Seq<char>>| comes_back(edges, walk)
}

/// Every state stands behind all those it leads to.
#[verifier::opaque]
spec fn topological(edges: Seq<(Seq<char>, Edge)>, order: Seq<Seq<char>>) -> bool {
    forall|k: int, n: Seq<char>|
        0 <= k < order.len() && #[trigger] step(edges, order[k], n) ==> order.take(k).contains(n)
}

proof fn lemma_path_is_no_longer_than_the_graph(
    nodes: Seq<(Seq<char>, Node)>,
    path: Seq<Seq<char>>,
)
    requires
        path.no_duplicates(),
        forall|k: int| 0 <= k < path.len() ==> names(nodes, #[trigger] path[k]),
    ensures
        path.len() <= nodes.len(),
{
    let ids = ids_of(nodes);
    path.unique_seq_to_set();
    ids.lemma_cardinality_of_set();
    vstd::seq_lib::seq_to_set_is_finite(ids);
    assert(path.to_set().subset_of(ids.to_set())) by {
        assert forall|n: Seq<char>| path.to_set().contains(n) implies ids.to_set().contains(n) by {
            let k = path.index_of(n);
            assert(path[k] == n);
            lemma_row_of(nodes, n);
            assert(ids[row_of(nodes, n)] == n);
        }
    }
    vstd::set_lib::lemma_len_subset(path.to_set(), ids.to_set());
}

proof fn lemma_walk_descends(edges: Seq<(Seq<char>, Edge)>, order: Seq<Seq<char>>, walk: Seq<Seq<char>>, i: int)
    requires
        topological(edges, order),
        is_walk(edges, walk),
        walk.len() > 0,
        order.contains(walk[0]),
        0 < i < walk.len(),
    ensures
        order.contains(walk[i]),
        order.index_of_first(walk[i]) is Some,
        order.index_of_first(walk[0]) is Some,
        order.index_of_first(walk[i])->0 < order.index_of_first(walk[0])->0,
    decreases i,
{
    reveal(topological);
    order.index_of_first_ensures(walk[0]);
    if i > 1 {
        lemma_walk_descends(edges, order, walk, i - 1);
    }
    order.index_of_first_ensures(walk[i - 1]);
    let k = order.index_of_first(walk[i - 1])->0;
    assert(step(edges, walk[i - 1], walk[i - 1 + 1]));
    assert(step(edges, order[k], walk[i]));
    assert(order.take(k).contains(walk[i]));
    let m = order.take(k).index_of(walk[i]);
    assert(order[m] == walk[i]);
    assert(order.contains(walk[i]));
    order.index_of_first_ensures(walk[i]);
}

proof fn lemma_finished_is_acyclic(g: Charted, order: Seq<Seq<char>>)
    requires
        g.well_formed(),
        topological(g.edges, order),
        forall|k: int| 0 <= k < g.nodes.len() ==> order.contains(#[trigger] ids_of(g.nodes)[k]),
    ensures
        !cyclic(g.edges),
{
    if cyclic(g.edges) {
        let walk = choose|walk: Seq<Seq<char>>| comes_back(g.edges, walk);
        assert(step(g.edges, walk[0], walk[1]));
        let e = choose|e: int|
            0 <= e < g.edges.len() && (#[trigger] g.edges[e]).1.parent == walk[0]
                && g.edges[e].1.child == walk[1];
        assert(edge_stands(g, g.edges[e].1));
        lemma_row_of(g.nodes, walk[0]);
        let k = row_of(g.nodes, walk[0]);
        assert(ids_of(g.nodes)[k] == walk[0]);
        assert(order.contains(walk[0]));
        lemma_walk_descends(g.edges, order, walk, walk.len() - 1);
    }
}

spec fn priced_at(g: Charted, id: Seq<char>) -> u64 {
    lookup(g.nodes, id)->0.bytes
}

proof fn lemma_walk_sheds(g: Charted, walk: Seq<Seq<char>>, i: int)
    requires
        g.well_formed(),
        g.policy is StrictlyImprovingPhysical,
        is_walk(g.edges, walk),
        0 < i < walk.len(),
    ensures
        priced_at(g, walk[i]) < priced_at(g, walk[0]),
    decreases i,
{
    if i > 1 {
        lemma_walk_sheds(g, walk, i - 1);
    }
    assert(step(g.edges, walk[i - 1], walk[i - 1 + 1]));
    let e = choose|e: int|
        0 <= e < g.edges.len() && (#[trigger] g.edges[e]).1.parent == walk[i - 1]
            && g.edges[e].1.child == walk[i];
    assert(edge_stands(g, g.edges[e].1));
}

/// **Strict improvement is acyclic.** Every edge sheds bytes, so no walk comes
/// back to where it started.
pub proof fn law_strict_improvement_is_acyclic(g: Charted)
    requires
        g.well_formed(),
        g.policy is StrictlyImprovingPhysical,
    ensures
        !cyclic(g.edges),
{
    if cyclic(g.edges) {
        let walk = choose|walk: Seq<Seq<char>>| comes_back(g.edges, walk);
        lemma_walk_sheds(g, walk, walk.len() - 1);
    }
}

/// **Replaying a move changes nothing.** The same observer finding the same
/// edge again leaves nodes, realizations, edges and records as they are.
pub proof fn law_replay_changes_nothing(
    g: Charted,
    parent: Seq<char>,
    action: Move,
    child: Realized,
    origin: Origin,
)
    requires
        g.applied(parent, action, child, origin) is Ok,
    ensures
        ({
            let h = g.applied(parent, action, child, origin)->Ok_0;
            h.applied(parent, action, child, origin) == Ok::<Charted, Seq<char>>(h)
        }),
{
    let h = g.applied(parent, action, child, origin)->Ok_0;
    let id = child.state.id;
    let node = g.node_with(child);
    let from = lookup(g.nodes, parent)->0;
    let edge = edge_of(parent, child, action, child.bytes - from.bytes, origin);
    let key = edge.identity();
    lemma_with_row_lookup::<String, Node>(g.nodes, id, node, parent);
    lemma_with_row_lookup::<String, Node>(g.nodes, id, node, id);
    assert(node.bytes == child.bytes);
    assert(names(node.realizations, child.realization)) by {
        match lookup(g.nodes, id) {
            Some(held) => {
                lemma_with_row_lookup::<String, Realized>(
                    held.realizations,
                    child.realization,
                    child,
                    child.realization,
                );
            },
            None => {
                lemma_names(node.realizations, child.realization);
                assert(node.realizations[0].0 == child.realization);
            },
        }
    }
    assert(lookup(h.nodes, parent)->0.bytes == from.bytes);
    assert(h.node_with(child) == node);
    lemma_row_of(h.nodes, id);
    assert(with_row::<String, Node>(h.nodes, id, node) =~= h.nodes);
    let written = match lookup(g.edges, key) {
        Some(held) => Edge { provenance: observed(held.provenance, origin), ..held },
        None => edge,
    };
    lemma_with_row_lookup::<String, Edge>(g.edges, key, written, key);
    assert(lookup(h.edges, key) == Some(written));
    assert(written.provenance.contains(origin)) by {
        match lookup(g.edges, key) {
            Some(held) => {
                if !held.provenance.contains(origin) {
                    assert(written.provenance[held.provenance.len() as int] == origin);
                }
            },
            None => {
                assert(written.provenance[0] == origin);
            },
        }
    }
    assert(Edge { provenance: observed(written.provenance, origin), ..written } == written);
    lemma_row_of(h.edges, key);
    assert(with_row::<String, Edge>(h.edges, key, written) =~= h.edges);
}

/// **Nothing is lost.** Applying a move keeps every node at its price with
/// every realization it held, and every edge with every record of how it was
/// found; and it holds the move just made, with its realization and its record.
pub proof fn law_nothing_is_lost(
    g: Charted,
    parent: Seq<char>,
    action: Move,
    child: Realized,
    origin: Origin,
    id: Seq<char>,
    realization: Seq<char>,
    key: Seq<char>,
    by: Origin,
)
    requires
        g.applied(parent, action, child, origin) is Ok,
    ensures
        ({
            let h = g.applied(parent, action, child, origin)->Ok_0;
            let from = lookup(g.nodes, parent)->0;
            let made = edge_of(parent, child, action, child.bytes - from.bytes, origin);
            &&& lookup(g.nodes, id) matches Some(node) ==> lookup(h.nodes, id) matches Some(kept)
                && kept.id == node.id && kept.bytes == node.bytes && (lookup(
                node.realizations,
                realization,
            ) is Some ==> lookup(kept.realizations, realization) == lookup(
                node.realizations,
                realization,
            ))
            &&& lookup(g.edges, key) matches Some(edge) ==> lookup(h.edges, key) matches Some(kept)
                && kept == (Edge { provenance: kept.provenance, ..edge }) && (
            edge.provenance.contains(by) ==> kept.provenance.contains(by))
            &&& lookup(h.nodes, child.state.id) matches Some(node) && names(
                node.realizations,
                child.realization,
            )
            &&& lookup(h.edges, made.identity()) matches Some(edge) && edge.provenance.contains(
                origin,
            )
        }),
{
    let h = g.applied(parent, action, child, origin)->Ok_0;
    let at = child.state.id;
    let node = g.node_with(child);
    let from = lookup(g.nodes, parent)->0;
    let made = edge_of(parent, child, action, child.bytes - from.bytes, origin);
    let name = made.identity();
    lemma_with_row_lookup::<String, Node>(g.nodes, at, node, id);
    lemma_with_row_lookup::<String, Node>(g.nodes, at, node, at);
    match lookup(g.nodes, at) {
        Some(held) => {
            lemma_with_row_lookup::<String, Realized>(
                held.realizations,
                child.realization,
                child,
                realization,
            );
            lemma_with_row_lookup::<String, Realized>(
                held.realizations,
                child.realization,
                child,
                child.realization,
            );
            lemma_names(held.realizations, child.realization);
            lemma_names(node.realizations, child.realization);
        },
        None => {
            lemma_names(node.realizations, child.realization);
            assert(node.realizations[0].0 == child.realization);
        },
    }
    let written = match lookup(g.edges, name) {
        Some(held) => Edge { provenance: observed(held.provenance, origin), ..held },
        None => made,
    };
    lemma_with_row_lookup::<String, Edge>(g.edges, name, written, key);
    lemma_with_row_lookup::<String, Edge>(g.edges, name, written, name);
    match lookup(g.edges, name) {
        Some(held) => {
            lemma_observed(held.provenance, origin, by);
            lemma_observed(held.provenance, origin, origin);
        },
        None => {
            assert(written.provenance[0] == origin);
        },
    }
}

proof fn lemma_observed(held: Seq<Origin>, origin: Origin, by: Origin)
    ensures
        held.contains(by) ==> observed(held, origin).contains(by),
        observed(held, origin).contains(origin),
{
    if !held.contains(origin) {
        let after = observed(held, origin);
        assert(after[held.len() as int] == origin);
        if held.contains(by) {
            let i = choose|i: int| 0 <= i < held.len() && held[i] == by;
            assert(after[i] == by);
        }
    }
}

/// The ids of a well-formed graph's nodes and realizations are digests.
proof fn lemma_ids_are_digests(g: Charted, id: Seq<char>, realization: Seq<char>)
    requires
        g.well_formed(),
        names(g.nodes, id),
    ensures
        id.len() == 64,
        names(lookup(g.nodes, id)->0.realizations, realization) ==> realization.len() == 64,
{
    lemma_lookup_stands(g, id);
    let node = lookup(g.nodes, id)->0;
    assert(node.realizations[0].1.identified());
    lemma_row_of(node.realizations, realization);
    if names(node.realizations, realization) {
        let k = row_of(node.realizations, realization);
        assert(node.realizations[k].1.identified());
    }
}

/// Edges whose ids are digests are written alike only where they join the same
/// states by the same move.
proof fn lemma_edge_text_identifies(a: Edge, b: Edge)
    requires
        a.parent.len() == b.parent.len(),
        a.child.len() == b.child.len(),
        a.child_realization.len() == b.child_realization.len(),
        a.canonical() == b.canonical(),
    ensures
        a.parent == b.parent,
        a.child == b.child,
        a.child_realization == b.child_realization,
        a.action.identity() == b.action.identity(),
{
    let x = a.canonical();
    let y = b.canonical();
    let p = "parent="@.len() as int;
    let q = p + a.parent.len();
    assert(x.subrange(p, q) =~= a.parent);
    assert(y.subrange(p, q) =~= b.parent);
    let c = q + FIELD@.len() + "child="@.len();
    let d = c + a.child.len();
    assert(x.subrange(c, d) =~= a.child);
    assert(y.subrange(c, d) =~= b.child);
    let r = d + FIELD@.len() + "realization="@.len();
    let s = r + a.child_realization.len();
    assert(x.subrange(r, s) =~= a.child_realization);
    assert(y.subrange(r, s) =~= b.child_realization);
    let t = s + FIELD@.len() + "action="@.len();
    assert(x.skip(t) =~= a.action.identity());
    assert(y.skip(t) =~= b.action.identity());
}

/// An edge on record under the identity of one that joins the graph's own
/// states joins the same states.
proof fn lemma_refound_edge(g: Charted, made: Edge)
    requires
        g.well_formed(),
        names(g.nodes, made.parent),
        made.child.len() == 64,
        made.child_realization.len() == 64,
        names(g.edges, made.identity()),
        told_apart(lookup(g.edges, made.identity())->0.canonical(), made.canonical()),
    ensures
        ({
            let held = lookup(g.edges, made.identity())->0;
            &&& held.parent == made.parent
            &&& held.child == made.child
            &&& held.child_realization == made.child_realization
            &&& held.action.identity() == made.action.identity()
            &&& edge_stands(g, held)
        }),
{
    let name = made.identity();
    lemma_row_of(g.edges, name);
    let k = row_of(g.edges, name);
    let held = g.edges[k].1;
    assert(lookup(g.edges, name) == Some(held));
    assert(edge_stands(g, held));
    assert(held.identity() == name) by {
        reveal(edges_named);
        assert(g.edges[k].0 == name);
    }
    lemma_names(g.nodes, held.parent);
    lemma_names(g.nodes, held.child);
    lemma_ids_are_digests(g, made.parent, made.child_realization);
    lemma_ids_are_digests(g, held.parent, held.child_realization);
    lemma_ids_are_digests(g, held.child, held.child_realization);
    lemma_edge_text_identifies(held, made);
}

/// **What applying a move leaves behind.** The child's node holds its
/// realization, and the edge on record joins this parent to it by this move
/// and moves the bytes between them, whether it was found before or not,
/// where the digest tells the edge's text from those on record. A node is
/// added exactly where the state is new, an edge exactly where its identity
/// is, and every other node and edge stays as it is.
pub proof fn law_apply_joins_parent_and_child(
    g: Charted,
    parent: Seq<char>,
    action: Move,
    child: Realized,
    origin: Origin,
    id: Seq<char>,
    key: Seq<char>,
)
    requires
        g.well_formed(),
        child.identified(),
        g.applied(parent, action, child, origin) is Ok,
        delta_fits(child.bytes, lookup(g.nodes, parent)->0.bytes),
        forall|i: int|
            0 <= i < g.edges.len() ==> told_apart(
                (#[trigger] g.edges[i]).1.canonical(),
                edge_of(
                    parent,
                    child,
                    action,
                    child.bytes - lookup(g.nodes, parent)->0.bytes,
                    origin,
                ).canonical(),
            ),
    ensures
        ({
            let h = g.applied(parent, action, child, origin)->Ok_0;
            let delta = child.bytes - lookup(g.nodes, parent)->0.bytes;
            let made = edge_of(parent, child, action, delta, origin);
            &&& lookup(h.nodes, child.state.id) matches Some(node) && node.bytes == child.bytes
                && names(node.realizations, child.realization)
            &&& lookup(h.edges, made.identity()) matches Some(edge) && edge.parent == parent
                && edge.child == child.state.id && edge.child_realization == child.realization
                && edge.action.identity() == action.identity() && edge.physical_delta == delta
                && edge.provenance.contains(origin)
            &&& h.nodes.len() == g.nodes.len() + (if names(g.nodes, child.state.id) {
                0int
            } else {
                1
            })
            &&& h.edges.len() == g.edges.len() + (if names(g.edges, made.identity()) {
                0int
            } else {
                1
            })
            &&& id != child.state.id ==> lookup(h.nodes, id) == lookup(g.nodes, id)
            &&& key != made.identity() ==> lookup(h.edges, key) == lookup(g.edges, key)
        }),
{
    let h = g.applied(parent, action, child, origin)->Ok_0;
    let from = lookup(g.nodes, parent)->0;
    let made = edge_of(parent, child, action, child.bytes - from.bytes, origin);
    let node = g.node_with(child);
    assert(h.nodes == with_row::<String, Node>(g.nodes, child.state.id, node));
    assert(h.edges == recorded(g.edges, made, origin));
    lemma_node_with(g, child);
    lemma_with_row_lookup::<String, Node>(g.nodes, child.state.id, node, id);
    lemma_with_row_grows::<String, Node>(g.nodes, child.state.id, node);
    lemma_names(g.nodes, parent);
    lemma_names(g.edges, made.identity());
    lemma_row_of(g.edges, made.identity());
    if names(g.edges, made.identity()) {
        let held = g.edges[row_of(g.edges, made.identity())].1;
        assert(told_apart(held.canonical(), made.canonical()));
        lemma_refound_edge(g, made);
    }
    lemma_recorded(g.edges, made, origin, key);
}

/// What recording an edge gives.
proof fn lemma_recorded(
    edges: Seq<(Seq<char>, Edge)>,
    edge: Edge,
    origin: Origin,
    key: Seq<char>,
)
    requires
        edge.provenance == seq![origin],
    ensures
        ({
            let after = recorded(edges, edge, origin);
            let held = lookup(edges, edge.identity());
            &&& lookup(after, edge.identity()) matches Some(now) && now.provenance.contains(origin)
                && now == (Edge {
                provenance: now.provenance,
                ..(match held {
                    Some(e) => e,
                    None => edge,
                })
            })
            &&& after.len() == edges.len() + (if names(edges, edge.identity()) {
                0int
            } else {
                1
            })
            &&& key != edge.identity() ==> lookup(after, key) == lookup(edges, key)
        }),
{
    let name = edge.identity();
    let written = match lookup(edges, name) {
        Some(held) => Edge { provenance: observed(held.provenance, origin), ..held },
        None => edge,
    };
    lemma_with_row_lookup::<String, Edge>(edges, name, written, key);
    lemma_with_row_grows::<String, Edge>(edges, name, written);
    match lookup(edges, name) {
        Some(held) => {
            lemma_observed(held.provenance, origin, origin);
        },
        None => {
            assert(written.provenance[0] == origin);
        },
    }
}

/// **A re-exported container is the same search.** A graph answers alike to
/// states of containers that differ only in how they were exported: it takes
/// both or refuses both, for the same reason.
pub proof fn law_an_export_is_no_other_model(
    g: Charted,
    parent: Seq<char>,
    action: Move,
    a: Realized,
    b: Realized,
    origin: Origin,
)
    requires
        a.state.model.semantic == b.state.model.semantic,
        a == (Realized {
            state: crate::identity::Presented { model: a.state.model, ..b.state },
            ..b
        }),
    ensures
        match (g.applied(parent, action, a, origin), g.applied(parent, action, b, origin)) {
            (Ok(x), Ok(y)) => x.edges == y.edges,
            (Err(x), Err(y)) => x == y,
            _ => false,
        },
{
}

/// **When a move is applied.** Its parent is held, its child is of the
/// graph's own model and surface, a strictly improving graph sheds bytes by
/// it, and a child held before is still priced as it was.
pub proof fn law_when_a_move_is_applied(
    g: Charted,
    parent: Seq<char>,
    action: Move,
    child: Realized,
    origin: Origin,
)
    ensures
        g.applied(parent, action, child, origin) is Ok <==> {
            &&& lookup(g.nodes, parent) is Some
            &&& child.state.model.semantic == g.model.semantic
            &&& child.state.surface == g.surface
            &&& g.policy is StrictlyImprovingPhysical ==> child.bytes < (lookup(
                g.nodes,
                parent,
            )->0).bytes
            &&& lookup(g.nodes, child.state.id) is Some ==> (lookup(
                g.nodes,
                child.state.id,
            )->0).bytes == child.bytes
        },
        g.applied(parent, action, child, origin) matches Ok(h) ==> h.policy == g.policy && h.model
            == g.model && h.surface == g.surface && h.root == g.root,
{
}

/// **A realization seen before is kept as it was first seen**, and a new one
/// joins those of its state.
pub proof fn law_a_node_keeps_its_realizations(
    g: Charted,
    parent: Seq<char>,
    action: Move,
    child: Realized,
    origin: Origin,
    name: Seq<char>,
)
    requires
        g.applied(parent, action, child, origin) is Ok,
    ensures
        ({
            let h = g.applied(parent, action, child, origin)->Ok_0;
            let then = match lookup(g.nodes, child.state.id) {
                Some(node) => lookup(node.realizations, name),
                None => None,
            };
            lookup(h.nodes, child.state.id) matches Some(node) && node.bytes == child.bytes
                && lookup(node.realizations, name) == (if then is Some {
                then
            } else if name == child.realization {
                Some(child)
            } else {
                None
            })
        }),
{
    let node = g.node_with(child);
    lemma_with_row_lookup::<String, Node>(g.nodes, child.state.id, node, child.state.id);
    match lookup(g.nodes, child.state.id) {
        Some(held) => {
            lemma_names(held.realizations, child.realization);
            lemma_with_row_lookup::<String, Realized>(
                held.realizations,
                child.realization,
                child,
                name,
            );
        },
        None => {
            lemma_names(node.realizations, name);
            lemma_row_of(node.realizations, name);
            if name == child.realization {
                assert(node.realizations[0].0 == name);
            }
        },
    }
}

/// **A graph begins as its root alone.**
pub proof fn law_a_graph_begins_at_its_root(policy: TransitionPolicy, root: Realized)
    ensures
        rooted(policy, root).policy == policy,
        rooted(policy, root).model == root.state.model,
        rooted(policy, root).surface == root.state.surface,
        rooted(policy, root).root == root.state.id,
        rooted(policy, root).edges.len() == 0,
        rooted(policy, root).nodes.len() == 1,
        rooted(policy, root).nodes[0].0 == root.state.id,
        rooted(policy, root).nodes[0].1.id == root.state.id,
        rooted(policy, root).nodes[0].1.bytes == root.bytes,
        rooted(policy, root).nodes[0].1.realizations =~= seq![(root.realization, root)],
{
}

/// **The edges at a state.** Those that arrive are the edges whose child it
/// is, those that leave the edges whose parent it is, all of them and in the
/// order they stand in.
pub proof fn law_the_edges_at_a_state(
    a: Seq<(Seq<char>, Edge)>,
    b: Seq<(Seq<char>, Edge)>,
    row: (Seq<char>, Edge),
    id: Seq<char>,
)
    ensures
        edges_to(a + b, id) == edges_to(a, id) + edges_to(b, id),
        edges_from(a + b, id) == edges_from(a, id) + edges_from(b, id),
        edges_to(seq![row], id) == (if row.1.child == id {
            seq![row.1]
        } else {
            Seq::empty()
        }),
        edges_from(seq![row], id) == (if row.1.parent == id {
            seq![row.1]
        } else {
            Seq::empty()
        }),
    decreases b.len(),
{
    let none = Seq::<(Seq<char>, Edge)>::empty();
    let one = seq![row];
    assert(one.drop_last() =~= none);
    assert(edges_to(none, id) =~= Seq::<Edge>::empty());
    assert(edges_from(none, id) =~= Seq::<Edge>::empty());
    assert(one.last() == row);
    assert(edges_to(one.drop_last(), id).push(row.1) =~= seq![row.1]);
    assert(edges_from(one.drop_last(), id).push(row.1) =~= seq![row.1]);
    if b.len() == 0 {
        assert(a + b =~= a);
        assert(b =~= none);
        assert(edges_to(a, id) + edges_to(b, id) =~= edges_to(a, id));
        assert(edges_from(a, id) + edges_from(b, id) =~= edges_from(a, id));
    } else {
        law_the_edges_at_a_state(a, b.drop_last(), row, id);
        assert((a + b).drop_last() =~= a + b.drop_last());
        assert((a + b).last() == b.last());
        assert(edges_to(a + b, id) =~= edges_to(a, id) + edges_to(b, id));
        assert(edges_from(a + b, id) =~= edges_from(a, id) + edges_from(b, id));
    }
}

/// **A way back makes a cycle.** Two edges between the same states, one each
/// way, or an edge from a state to itself, are a cycle; without edges there is
/// none.
pub proof fn law_a_way_back_is_a_cycle(edges: Seq<(Seq<char>, Edge)>, i: int, j: int)
    requires
        0 <= i < edges.len(),
        0 <= j < edges.len(),
        edges[i].1.child == edges[j].1.parent,
        edges[j].1.child == edges[i].1.parent,
    ensures
        cyclic(edges),
{
    let walk = seq![edges[i].1.parent, edges[j].1.parent, edges[i].1.parent];
    assert(edges[i].1.parent == walk[0] && edges[i].1.child == walk[1]);
    assert(edges[j].1.parent == walk[1] && edges[j].1.child == walk[2]);
    assert(step(edges, walk[0], walk[1int]));
    assert(step(edges, walk[1], walk[2int]));
    assert forall|k: int| 0 <= k < walk.len() - 1 implies step(
        edges,
        #[trigger] walk[k],
        walk[k + 1],
    ) by {
        if k == 0 {
            assert(step(edges, walk[0], walk[1int]));
        } else {
            assert(k == 1);
            assert(step(edges, walk[1], walk[2int]));
        }
    }
    assert(comes_back(edges, walk));
}

} // verus!
