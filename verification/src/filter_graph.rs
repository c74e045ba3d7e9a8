//! Typed filter graphs: nodes with media-typed pads, edges between pads, and
//! the validation that every adapter relies on before it emits a filter chain.

use vstd::prelude::*;

use crate::order::{completable, least_first, least_first_order, lemma_least_first_unique, valid_order, pred_views, preds_in_range};
use crate::keyed::{find_key, has_key, insertion_point, keys_sorted, lemma_insert_sorted, lemma_to_map, to_map, Keyed};
use crate::text::{
    char_is_ascii_alphanumeric, chars_of, is_ascii_alphanumeric, is_blank, push_str, push_zero_padded, seq_lt,
    str_equal, str_is_blank, str_less, string_of, zero_padded, all_digits, decimal, lemma_zero_padded_value,
};

verus! {

pub const FILTER_GRAPH_SCHEMA_VERSION: u32 = 1;

#[derive(Debug, Clone, Copy, PartialEq, Eq, Structural)]
pub enum MediaKind {
    Audio,
    Video,
}

pub open spec fn is_identifier_char(c: char) -> bool {
    is_ascii_alphanumeric(c) || c == '_' || c == '-'
}

/// Non-empty, and made of ASCII letters, digits, `_` and `-`.
pub open spec fn valid_identifier(s: Seq<char>) -> bool {
    &&& s.len() >= 1
    &&& forall|i: int| 0 <= i < s.len() ==> is_identifier_char(#[trigger] s[i])
}

fn check_identifier(value: &str) -> (ok: bool)
    ensures
        ok == valid_identifier(value@),
{
    let chars = chars_of(value);
    if chars.len() == 0 {
        return false;
    }
    let mut i: usize = 0;
    while i < chars.len()
        invariant
            0 <= i <= chars@.len(),
            chars@ == value@,
            forall|k: int| 0 <= k < i ==> is_identifier_char(#[trigger] chars@[k]),
        decreases chars.len() - i,
    {
        let c = chars[i];
        if !(char_is_ascii_alphanumeric(c) || c == '_' || c == '-') {
            return false;
        }
        i = i + 1;
    }
    true
}

#[derive(Debug, PartialEq, Eq)]
pub struct NodeId(String);

impl View for NodeId {
    type V = Seq<char>;

    closed spec fn view(&self) -> Seq<char> {
        self.0@
    }
}

impl NodeId {
    #[verifier::type_invariant]
    closed spec fn well_formed(self) -> bool {
        valid_identifier(self.0@)
    }

    pub fn new(value: &str) -> (result: Result<Self, GraphError>)
        ensures
            result is Ok <==> valid_identifier(value@),
            result matches Ok(id) ==> id@ == value@,
            result matches Err(e) ==> (e matches GraphError::InvalidIdentifier(text) && text@ == value@),
    {
        if !check_identifier(value) {
            return Err(GraphError::InvalidIdentifier(value.to_owned()));
        }
        NodeId::from_valid(value)
    }

    fn from_valid(value: &str) -> (result: Result<Self, GraphError>)
        requires
            valid_identifier(value@),
        ensures
            result matches Ok(id) && id@ == value@,
    {
        Ok(NodeId(value.to_owned()))
    }

    pub fn as_str(&self) -> (s: &str)
        ensures
            s@ == self@,
            valid_identifier(s@),
    {
        proof {
            use_type_invariant(self);
        }
        self.0.as_str()
    }
}

impl Clone for NodeId {
    fn clone(&self) -> (copy: Self)
        ensures
            copy == *self,
    {
        proof {
            use_type_invariant(self);
        }
        NodeId(self.0.clone())
    }
}

#[derive(Debug, PartialEq, Eq)]
pub struct PadId(String);

impl View for PadId {
    type V = Seq<char>;

    closed spec fn view(&self) -> Seq<char> {
        self.0@
    }
}

impl PadId {
    #[verifier::type_invariant]
    closed spec fn well_formed(self) -> bool {
        valid_identifier(self.0@)
    }

    pub fn new(value: &str) -> (result: Result<Self, GraphError>)
        ensures
            result is Ok <==> valid_identifier(value@),
            result matches Ok(id) ==> id@ == value@,
            result matches Err(e) ==> (e matches GraphError::InvalidIdentifier(text) && text@ == value@),
    {
        if !check_identifier(value) {
            return Err(GraphError::InvalidIdentifier(value.to_owned()));
        }
        Ok(PadId(value.to_owned()))
    }

    pub fn as_str(&self) -> (s: &str)
        ensures
            s@ == self@,
            valid_identifier(s@),
    {
        proof {
            use_type_invariant(self);
        }
        self.0.as_str()
    }
}

impl Clone for PadId {
    fn clone(&self) -> (copy: Self)
        ensures
            copy == *self,
    {
        proof {
            use_type_invariant(self);
        }
        PadId(self.0.clone())
    }
}

#[derive(Debug)]
pub struct Pad {
    pub id: PadId,
    pub media: MediaKind,
    pub required: bool,
}

impl Pad {
    /// A required pad named `id`.
    pub fn required(id: &str, media: MediaKind) -> (result: Result<Self, GraphError>)
        ensures
            result is Ok <==> valid_identifier(id@),
            result matches Ok(pad) ==> pad.id@ == id@ && pad.media == media && pad.required,
            result matches Err(e) ==> (e matches GraphError::InvalidIdentifier(text) && text@ == id@),
    {
        let id = PadId::new(id)?;
        Ok(Pad { id, media, required: true })
    }
}

impl Clone for Pad {
    fn clone(&self) -> (copy: Self)
        ensures
            copy == *self,
    {
        Pad { id: self.id.clone(), media: self.media, required: self.required }
    }
}

/// `pads[k]` repeats the id of an earlier pad.
pub open spec fn pad_repeats(pads: Seq<Pad>, k: int) -> bool {
    exists|j: int| 0 <= j < k && #[trigger] pads[j].id@ == pads[k].id@
}

/// `k` is the first pad that repeats an earlier id.
pub open spec fn first_repeat(pads: Seq<Pad>, k: int) -> bool {
    &&& 0 <= k < pads.len()
    &&& pad_repeats(pads, k)
    &&& forall|j: int| 0 <= j < k ==> !#[trigger] pad_repeats(pads, j)
}

pub open spec fn pads_unique(pads: Seq<Pad>) -> bool {
    forall|k: int| 0 <= k < pads.len() ==> !#[trigger] pad_repeats(pads, k)
}

/// The error for the first repeated pad id, if any.
pub open spec fn pads_error(pads: Seq<Pad>) -> Option<GraphError> {
    if pads_unique(pads) {
        None
    } else {
        let k = choose|k: int| first_repeat(pads, k);
        Some(GraphError::DuplicatePad(pads[k].id))
    }
}

proof fn lemma_first_repeat_unique(pads: Seq<Pad>, a: int, b: int)
    requires
        first_repeat(pads, a),
        first_repeat(pads, b),
    ensures
        a == b,
{
    if a < b {
        assert(!pad_repeats(pads, a));
    } else if b < a {
        assert(!pad_repeats(pads, b));
    }
}

fn ensure_unique_pads(pads: &[Pad]) -> (result: Result<(), GraphError>)
    ensures
        result is Ok <==> pads_unique(pads@),
        result matches Err(e) ==> pads_error(pads@) == Some(e),
{
    let mut i: usize = 0;
    while i < pads.len()
        invariant
            0 <= i <= pads@.len(),
            forall|k: int| 0 <= k < i ==> !#[trigger] pad_repeats(pads@, k),
        decreases pads.len() - i,
    {
        let mut j: usize = 0;
        while j < i
            invariant
                0 <= j <= i,
                i < pads@.len(),
                forall|k: int| 0 <= k < i ==> !#[trigger] pad_repeats(pads@, k),
                forall|a: int| 0 <= a < j ==> pads@[a].id@ != pads@[i as int].id@,
            decreases i - j,
        {
            if str_equal(pads[j].id.as_str(), pads[i].id.as_str()) {
                proof {
                    assert(pad_repeats(pads@, i as int));
                    assert(first_repeat(pads@, i as int));
                    let k = choose|k: int| first_repeat(pads@, k);
                    lemma_first_repeat_unique(pads@, k, i as int);
                }
                return Err(GraphError::DuplicatePad(pads[i].id.clone()));
            }
            j = j + 1;
        }
        i = i + 1;
    }
    Ok(())
}

#[derive(Debug)]
pub struct FilterNode {
    pub id: NodeId,
    /// An adapter-owned operation name or already escaped linear expression.
    pub operation: String,
    /// Option name and value pairs, in the order the adapter emits them.
    pub options: Vec<(String, String)>,
    pub inputs: Vec<Pad>,
    pub outputs: Vec<Pad>,
}

impl Keyed for FilterNode {
    open spec fn key(&self) -> Seq<char> {
        self.id@
    }

    fn key_str(&self) -> (k: &str) {
        self.id.as_str()
    }
}

impl FilterNode {
    /// A node with a non-blank operation, a valid id and pads whose ids do
    /// not repeat on either side.
    pub fn new(id: &str, operation: &str, inputs: Vec<Pad>, outputs: Vec<Pad>) -> (result: Result<Self, GraphError>)
        ensures
            is_blank(operation@) ==> result == Err::<FilterNode, GraphError>(GraphError::EmptyOperation),
            !is_blank(operation@) && pads_error(inputs@) is Some ==> result == Err::<FilterNode, GraphError>(
                pads_error(inputs@).unwrap(),
            ),
            !is_blank(operation@) && pads_error(inputs@) is None && pads_error(outputs@) is Some ==> result
                == Err::<FilterNode, GraphError>(pads_error(outputs@).unwrap()),
            !is_blank(operation@) && pads_error(inputs@) is None && pads_error(outputs@) is None && !valid_identifier(
                id@,
            ) ==> (result matches Err(e) && e matches GraphError::InvalidIdentifier(text) && text@ == id@),
            result is Ok <==> (!is_blank(operation@) && pads_unique(inputs@) && pads_unique(outputs@)
                && valid_identifier(id@)),
            result matches Ok(node) ==> node.id@ == id@ && node.operation@ == operation@ && node.options@.len() == 0
                && node.inputs@ == inputs@ && node.outputs@ == outputs@,
    {
        if str_is_blank(operation) {
            return Err(GraphError::EmptyOperation);
        }
        ensure_unique_pads(inputs.as_slice())?;
        ensure_unique_pads(outputs.as_slice())?;
        let id = NodeId::new(id)?;
        Ok(FilterNode { id, operation: operation.to_owned(), options: Vec::new(), inputs, outputs })
    }
}

#[derive(Debug, PartialEq, Eq)]
pub struct Endpoint {
    pub node: NodeId,
    pub pad: PadId,
}

impl Clone for Endpoint {
    fn clone(&self) -> (copy: Self)
        ensures
            copy == *self,
    {
        Endpoint { node: self.node.clone(), pad: self.pad.clone() }
    }
}

#[derive(Debug, PartialEq, Eq)]
pub struct Edge {
    pub from: Endpoint,
    pub to: Endpoint,
}

impl Clone for Edge {
    fn clone(&self) -> (copy: Self)
        ensures
            copy == *self,
    {
        Edge { from: self.from.clone(), to: self.to.clone() }
    }
}

/// The same node and pad, compared by their text.
pub open spec fn same_endpoint(a: Endpoint, b: Endpoint) -> bool {
    a.node@ == b.node@ && a.pad@ == b.pad@
}

pub open spec fn same_edge(a: Edge, b: Edge) -> bool {
    same_endpoint(a.from, b.from) && same_endpoint(a.to, b.to)
}

/// Edges ordered by source node, source pad, target node, target pad.
pub open spec fn edge_lt(a: Edge, b: Edge) -> bool {
    if a.from.node@ != b.from.node@ {
        seq_lt(a.from.node@, b.from.node@)
    } else if a.from.pad@ != b.from.pad@ {
        seq_lt(a.from.pad@, b.from.pad@)
    } else if a.to.node@ != b.to.node@ {
        seq_lt(a.to.node@, b.to.node@)
    } else {
        seq_lt(a.to.pad@, b.to.pad@)
    }
}

pub open spec fn edges_sorted(s: Seq<Edge>) -> bool {
    forall|i: int, j: int| 0 <= i < j < s.len() ==> edge_lt(#[trigger] s[i], #[trigger] s[j])
}

pub open spec fn has_edge(s: Seq<Edge>, e: Edge) -> bool {
    exists|i: int| 0 <= i < s.len() && same_edge(#[trigger] s[i], e)
}

proof fn lemma_edge_lt_same(a: Edge, b: Edge)
    requires
        same_edge(a, b),
    ensures
        !edge_lt(a, b),
{
    crate::text::lemma_seq_lt_irreflexive(a.to.pad@);
}

proof fn lemma_edge_lt_transitive(a: Edge, b: Edge, c: Edge)
    requires
        edge_lt(a, b),
        edge_lt(b, c),
    ensures
        edge_lt(a, c),
{
    crate::text::lemma_seq_lt_trichotomy(a.from.node@, c.from.node@);
    crate::text::lemma_seq_lt_trichotomy(a.from.pad@, c.from.pad@);
    crate::text::lemma_seq_lt_trichotomy(a.to.node@, c.to.node@);
    if a.from.node@ != b.from.node@ && b.from.node@ != c.from.node@ {
        crate::text::lemma_seq_lt_transitive(a.from.node@, b.from.node@, c.from.node@);
    } else if a.from.node@ == b.from.node@ && b.from.node@ == c.from.node@ {
        if a.from.pad@ != b.from.pad@ && b.from.pad@ != c.from.pad@ {
            crate::text::lemma_seq_lt_transitive(a.from.pad@, b.from.pad@, c.from.pad@);
        } else if a.from.pad@ == b.from.pad@ && b.from.pad@ == c.from.pad@ {
            if a.to.node@ != b.to.node@ && b.to.node@ != c.to.node@ {
                crate::text::lemma_seq_lt_transitive(a.to.node@, b.to.node@, c.to.node@);
            } else if a.to.node@ == b.to.node@ && b.to.node@ == c.to.node@ {
                crate::text::lemma_seq_lt_transitive(a.to.pad@, b.to.pad@, c.to.pad@);
            }
        }
    }
}

proof fn lemma_edge_lt_total(a: Edge, b: Edge)
    ensures
        edge_lt(a, b) || edge_lt(b, a) || same_edge(a, b),
{
    crate::text::lemma_seq_lt_trichotomy(a.from.node@, b.from.node@);
    crate::text::lemma_seq_lt_trichotomy(a.from.pad@, b.from.pad@);
    crate::text::lemma_seq_lt_trichotomy(a.to.node@, b.to.node@);
    crate::text::lemma_seq_lt_trichotomy(a.to.pad@, b.to.pad@);
}

fn endpoint_equal(a: &Endpoint, b: &Endpoint) -> (equal: bool)
    ensures
        equal == same_endpoint(*a, *b),
{
    str_equal(a.node.as_str(), b.node.as_str()) && str_equal(a.pad.as_str(), b.pad.as_str())
}

fn edge_equal(a: &Edge, b: &Edge) -> (equal: bool)
    ensures
        equal == same_edge(*a, *b),
{
    endpoint_equal(&a.from, &b.from) && endpoint_equal(&a.to, &b.to)
}

fn edge_less(a: &Edge, b: &Edge) -> (less: bool)
    ensures
        less == edge_lt(*a, *b),
{
    if !str_equal(a.from.node.as_str(), b.from.node.as_str()) {
        str_less(a.from.node.as_str(), b.from.node.as_str())
    } else if !str_equal(a.from.pad.as_str(), b.from.pad.as_str()) {
        str_less(a.from.pad.as_str(), b.from.pad.as_str())
    } else if !str_equal(a.to.node.as_str(), b.to.node.as_str()) {
        str_less(a.to.node.as_str(), b.to.node.as_str())
    } else {
        str_less(a.to.pad.as_str(), b.to.pad.as_str())
    }
}

/// The first pad of `pads` named `id`.
pub open spec fn find_pad(pads: Seq<Pad>, id: Seq<char>) -> Option<Pad>
    decreases pads.len(),
{
    if pads.len() == 0 {
        None
    } else if pads[0].id@ == id {
        Some(pads[0])
    } else {
        find_pad(pads.drop_first(), id)
    }
}

fn find_pad_index(pads: &Vec<Pad>, id: &PadId) -> (found: Option<usize>)
    ensures
        found matches Some(i) ==> i < pads@.len() && find_pad(pads@, id@) == Some(pads@[i as int]),
        found is None ==> find_pad(pads@, id@) is None,
{
    let mut i: usize = 0;
    assert(pads@.skip(0) =~= pads@);
    while i < pads.len()
        invariant
            0 <= i <= pads@.len(),
            find_pad(pads@, id@) == find_pad(pads@.skip(i as int), id@),
        decreases pads.len() - i,
    {
        assert(pads@.skip(i as int)[0] == pads@[i as int]);
        if str_equal(pads[i].id.as_str(), id.as_str()) {
            return Some(i);
        }
        assert(pads@.skip(i as int).drop_first() =~= pads@.skip(i + 1));
        i = i + 1;
    }
    None
}

/// Why an edge cannot stand in a graph with these nodes, if it cannot: a
/// missing node, a missing pad, or pads of different media.
pub open spec fn edge_error(nodes: Map<Seq<char>, FilterNode>, e: Edge) -> Option<GraphError> {
    if !nodes.contains_key(e.from.node@) {
        Some(GraphError::MissingNode(e.from.node))
    } else if !nodes.contains_key(e.to.node@) {
        Some(GraphError::MissingNode(e.to.node))
    } else {
        match find_pad(nodes[e.from.node@].outputs@, e.from.pad@) {
            None => Some(GraphError::MissingOutput(e.from)),
            Some(output) => match find_pad(nodes[e.to.node@].inputs@, e.to.pad@) {
                None => Some(GraphError::MissingInput(e.to)),
                Some(input) => if output.media != input.media {
                    Some(GraphError::MediaMismatch { from: output.media, to: input.media })
                } else {
                    None
                },
            },
        }
    }
}

/// Some edge of `edges` already feeds the input `to`.
pub open spec fn input_taken(edges: Seq<Edge>, to: Endpoint) -> bool {
    exists|k: int| 0 <= k < edges.len() && same_endpoint(#[trigger] edges[k].to, to)
}

pub open spec fn make_edge(from_node: NodeId, from_pad: PadId, to_node: NodeId, to_pad: PadId) -> Edge {
    Edge { from: Endpoint { node: from_node, pad: from_pad }, to: Endpoint { node: to_node, pad: to_pad } }
}

/// Why a node cannot stand in a graph, if it cannot: a blank operation or a
/// repeated pad id among its inputs, then among its outputs.
pub open spec fn node_error(node: FilterNode) -> Option<GraphError> {
    if is_blank(node.operation@) {
        Some(GraphError::EmptyOperation)
    } else if pads_error(node.inputs@) is Some {
        pads_error(node.inputs@)
    } else {
        pads_error(node.outputs@)
    }
}

/// The error of the first node from position `i` on that has one.
pub open spec fn nodes_error_from(nodes: Seq<FilterNode>, i: int) -> Option<GraphError>
    decreases nodes.len() - i,
{
    if i < 0 || i >= nodes.len() {
        None
    } else if node_error(nodes[i]) is Some {
        node_error(nodes[i])
    } else {
        nodes_error_from(nodes, i + 1)
    }
}

/// Why edge `k` cannot stand: its own [`edge_error`], or an earlier edge
/// into the same input.
pub open spec fn edge_error_at(nodes: Map<Seq<char>, FilterNode>, edges: Seq<Edge>, k: int) -> Option<GraphError> {
    if edge_error(nodes, edges[k]) is Some {
        edge_error(nodes, edges[k])
    } else if input_taken(edges.subrange(0, k), edges[k].to) {
        Some(GraphError::InputAlreadyConnected(edges[k].to))
    } else {
        None
    }
}

pub open spec fn edges_error_from(nodes: Map<Seq<char>, FilterNode>, edges: Seq<Edge>, k: int) -> Option<GraphError>
    decreases edges.len() - k,
{
    if k < 0 || k >= edges.len() {
        None
    } else if edge_error_at(nodes, edges, k) is Some {
        edge_error_at(nodes, edges, k)
    } else {
        edges_error_from(nodes, edges, k + 1)
    }
}

/// Some edge leaves the output `from`.
pub open spec fn output_used(edges: Seq<Edge>, from: Endpoint) -> bool {
    exists|k: int| 0 <= k < edges.len() && same_endpoint(#[trigger] edges[k].from, from)
}

pub open spec fn endpoint_of(node: NodeId, pad: Pad) -> Endpoint {
    Endpoint { node: node, pad: pad.id }
}

/// The first required input pad from position `k` on that no edge feeds.
pub open spec fn inputs_error_from(edges: Seq<Edge>, node: NodeId, pads: Seq<Pad>, k: int) -> Option<GraphError>
    decreases pads.len() - k,
{
    if k < 0 || k >= pads.len() {
        None
    } else if pads[k].required && !input_taken(edges, endpoint_of(node, pads[k])) {
        Some(GraphError::RequiredPadUnconnected(endpoint_of(node, pads[k])))
    } else {
        inputs_error_from(edges, node, pads, k + 1)
    }
}

/// The first required output pad from position `k` on that no edge leaves.
pub open spec fn outputs_error_from(edges: Seq<Edge>, node: NodeId, pads: Seq<Pad>, k: int) -> Option<GraphError>
    decreases pads.len() - k,
{
    if k < 0 || k >= pads.len() {
        None
    } else if pads[k].required && !output_used(edges, endpoint_of(node, pads[k])) {
        Some(GraphError::RequiredPadUnconnected(endpoint_of(node, pads[k])))
    } else {
        outputs_error_from(edges, node, pads, k + 1)
    }
}

pub open spec fn required_error(edges: Seq<Edge>, node: FilterNode) -> Option<GraphError> {
    if inputs_error_from(edges, node.id, node.inputs@, 0) is Some {
        inputs_error_from(edges, node.id, node.inputs@, 0)
    } else {
        outputs_error_from(edges, node.id, node.outputs@, 0)
    }
}

pub open spec fn required_error_from(nodes: Seq<FilterNode>, edges: Seq<Edge>, i: int) -> Option<GraphError>
    decreases nodes.len() - i,
{
    if i < 0 || i >= nodes.len() {
        None
    } else if required_error(edges, nodes[i]) is Some {
        required_error(edges, nodes[i])
    } else {
        required_error_from(nodes, edges, i + 1)
    }
}

/// The position of the node with id `k`.
pub open spec fn index_of(nodes: Seq<FilterNode>, k: Seq<char>) -> int {
    choose|i: int| 0 <= i < nodes.len() && #[trigger] nodes[i].key() == k
}

/// For node `v`, the source node of each of the first `m` edges that enter
/// it, in edge order (once per edge).
pub open spec fn preds_upto(nodes: Seq<FilterNode>, edges: Seq<Edge>, v: int, m: int) -> Seq<usize>
    decreases m,
{
    if m <= 0 {
        Seq::empty()
    } else {
        let rest = preds_upto(nodes, edges, v, m - 1);
        if edges[m - 1].to.node@ == nodes[v].id@ {
            rest.push(index_of(nodes, edges[m - 1].from.node@) as usize)
        } else {
            rest
        }
    }
}

/// The predecessor lists of the graph's nodes, by node position.
pub open spec fn graph_preds(nodes: Seq<FilterNode>, edges: Seq<Edge>) -> Seq<Seq<usize>> {
    Seq::new(nodes.len(), |v: int| preds_upto(nodes, edges, v, edges.len() as int))
}

pub struct FilterGraph {
    schema_version: u32,
    nodes: Vec<FilterNode>,
    edges: Vec<Edge>,
}

impl Default for FilterGraph {
    fn default() -> (graph: Self)
        ensures
            graph.well_formed(),
            graph.schema() == FILTER_GRAPH_SCHEMA_VERSION,
            graph.node_seq().len() == 0,
            graph.edge_seq().len() == 0,
    {
        FilterGraph { schema_version: FILTER_GRAPH_SCHEMA_VERSION, nodes: Vec::new(), edges: Vec::new() }
    }
}

impl FilterGraph {
    /// The schema version the graph claims.
    pub closed spec fn schema(&self) -> u32 {
        self.schema_version
    }

    /// The nodes in id order.
    pub closed spec fn node_seq(&self) -> Seq<FilterNode> {
        self.nodes@
    }

    /// The edges in edge order.
    pub closed spec fn edge_seq(&self) -> Seq<Edge> {
        self.edges@
    }

    pub open spec fn node_map(&self) -> Map<Seq<char>, FilterNode> {
        to_map(self.node_seq())
    }

    /// Node ids increase and so do edges, so neither repeats.
    pub closed spec fn well_formed(&self) -> bool {
        keys_sorted(self.nodes@) && edges_sorted(self.edges@)
    }

    pub proof fn lemma_node_map(&self)
        requires
            self.well_formed(),
        ensures
            keys_sorted(self.node_seq()),
            edges_sorted(self.edge_seq()),
            forall|k: Seq<char>| #[trigger] self.node_map().contains_key(k) <==> has_key(self.node_seq(), k),
            forall|i: int| 0 <= i < self.node_seq().len() ==> #[trigger] self.node_map()[self.node_seq()[i].key()] == self.node_seq()[i],
            self.node_map().len() == self.node_seq().len(),
    {
        lemma_to_map(self.nodes@);
    }

    pub fn schema_version(&self) -> (version: u32)
        ensures
            version == self.schema(),
    {
        self.schema_version
    }

    /// Claim another schema version, as a stored graph may.
    pub fn set_schema_version(&mut self, version: u32)
        requires
            old(self).well_formed(),
        ensures
            final(self).well_formed(),
            final(self).schema() == version,
            final(self).node_seq() == old(self).node_seq(),
            final(self).edge_seq() == old(self).edge_seq(),
    {
        self.schema_version = version;
    }

    pub fn nodes(&self) -> (nodes: &[FilterNode])
        ensures
            nodes@ == self.node_seq(),
    {
        self.nodes.as_slice()
    }

    pub fn edges(&self) -> (edges: &[Edge])
        ensures
            edges@ == self.edge_seq(),
    {
        self.edges.as_slice()
    }

    pub fn add_node(&mut self, node: FilterNode) -> (result: Result<(), GraphError>)
        requires
            old(self).well_formed(),
        ensures
            final(self).well_formed(),
            final(self).schema() == old(self).schema(),
            final(self).edge_seq() == old(self).edge_seq(),
            old(self).node_map().contains_key(node.id@) ==> result == Err::<(), GraphError>(
                GraphError::DuplicateNode(node.id),
            ) && final(self).node_map() == old(self).node_map(),
            !old(self).node_map().contains_key(node.id@) ==> result is Ok && final(self).node_map()
                == old(self).node_map().insert(node.id@, node),
    {
        proof {
            lemma_to_map(self.nodes@);
        }
        if find_key(&self.nodes, node.id.as_str()).is_some() {
            return Err(GraphError::DuplicateNode(node.id));
        }
        let position = insertion_point(&self.nodes, node.id.as_str());
        proof {
            lemma_insert_sorted(self.nodes@, position as int, node);
        }
        self.nodes.insert(position, node);
        Ok(())
    }

    /// Add `edge` to the edge set; `false` when an equal edge is already there.
    pub fn insert_edge(&mut self, edge: Edge) -> (inserted: bool)
        requires
            old(self).well_formed(),
        ensures
            final(self).well_formed(),
            final(self).schema() == old(self).schema(),
            final(self).node_seq() == old(self).node_seq(),
            inserted == !has_edge(old(self).edge_seq(), edge),
            !inserted ==> final(self).edge_seq() == old(self).edge_seq(),
            inserted ==> exists|p: int|
                0 <= p <= old(self).edge_seq().len() && final(self).edge_seq() == old(self).edge_seq().insert(p, edge),
            forall|e: Edge| #[trigger] has_edge(final(self).edge_seq(), e) <==> (has_edge(old(self).edge_seq(), e)
                || same_edge(e, edge)),
    {
        let ghost before = self.edges@;
        let mut i: usize = 0;
        while i < self.edges.len() && edge_less(&self.edges[i], &edge)
            invariant
                0 <= i <= self.edges@.len(),
                self.edges@ == before,
                edges_sorted(before),
                forall|j: int| 0 <= j < i ==> edge_lt(#[trigger] before[j], edge),
            decreases self.edges.len() - i,
        {
            i = i + 1;
        }
        if i < self.edges.len() && edge_equal(&self.edges[i], &edge) {
            proof {
                assert(has_edge(before, edge));
                assert forall|e: Edge| #[trigger] has_edge(before, e) <==> (has_edge(before, e) || same_edge(e, edge)) by {
                    if same_edge(e, edge) {
                        assert(same_edge(before[i as int], e));
                    }
                }
            }
            return false;
        }
        proof {
            if i < before.len() {
                lemma_edge_lt_total(edge, before[i as int]);
            }
        }
        proof {
            assert forall|j: int| i <= j < before.len() implies edge_lt(edge, #[trigger] before[j]) by {
                if j > i {
                    lemma_edge_lt_transitive(edge, before[i as int], before[j]);
                }
            }
            assert(!has_edge(before, edge)) by {
                if has_edge(before, edge) {
                    let k = choose|k: int| 0 <= k < before.len() && same_edge(#[trigger] before[k], edge);
                    if k < i {
                        assert(edge_lt(before[k], edge));
                        lemma_edge_lt_same(before[k], edge);
                    } else {
                        assert(edge_lt(edge, before[k]));
                        lemma_edge_lt_same(edge, before[k]);
                    }
                }
            }
        }
        self.edges.insert(i, edge);
        proof {
            let after = self.edges@;
            assert(after == before.insert(i as int, edge));
            assert(0 <= i <= before.len() && self.edge_seq() == old(self).edge_seq().insert(i as int, edge));
            assert forall|a: int, b: int| 0 <= a < b < after.len() implies edge_lt(#[trigger] after[a], #[trigger] after[b]) by {
                if b < i {
                } else if a < i && b == i {
                } else if a < i {
                    assert(after[b] == before[b - 1]);
                } else if a == i {
                    assert(after[b] == before[b - 1]);
                } else {
                    assert(after[a] == before[a - 1]);
                    assert(after[b] == before[b - 1]);
                }
            }
            assert forall|e: Edge| #[trigger] has_edge(after, e) <==> (has_edge(before, e) || same_edge(e, edge)) by {
                if has_edge(after, e) {
                    let k = choose|k: int| 0 <= k < after.len() && same_edge(#[trigger] after[k], e);
                    if k < i {
                        assert(before[k] == after[k]);
                    } else if k > i {
                        assert(before[k - 1] == after[k]);
                    }
                }
                if has_edge(before, e) {
                    let k = choose|k: int| 0 <= k < before.len() && same_edge(#[trigger] before[k], e);
                    if k < i {
                        assert(after[k] == before[k]);
                    } else {
                        assert(after[k + 1] == before[k]);
                    }
                }
                if same_edge(e, edge) {
                    assert(same_edge(after[i as int], e));
                }
            }
        }
        true
    }

    fn validate_edge(&self, edge: &Edge) -> (result: Result<(), GraphError>)
        requires
            self.well_formed(),
        ensures
            result is Ok <==> edge_error(self.node_map(), *edge) is None,
            result matches Err(e) ==> edge_error(self.node_map(), *edge) == Some(e),
    {
        proof {
            lemma_to_map(self.nodes@);
        }
        let ghost m = self.node_map();
        let source = match find_key(&self.nodes, edge.from.node.as_str()) {
            Some(i) => i,
            None => {
                return Err(GraphError::MissingNode(edge.from.node.clone()));
            },
        };
        let target = match find_key(&self.nodes, edge.to.node.as_str()) {
            Some(i) => i,
            None => {
                return Err(GraphError::MissingNode(edge.to.node.clone()));
            },
        };
        assert(m[self.nodes@[source as int].key()] == self.nodes@[source as int]);
        assert(m[self.nodes@[target as int].key()] == self.nodes@[target as int]);
        let output = match find_pad_index(&self.nodes[source].outputs, &edge.from.pad) {
            Some(k) => k,
            None => {
                return Err(GraphError::MissingOutput(edge.from.clone()));
            },
        };
        let input = match find_pad_index(&self.nodes[target].inputs, &edge.to.pad) {
            Some(k) => k,
            None => {
                return Err(GraphError::MissingInput(edge.to.clone()));
            },
        };
        let from_media = self.nodes[source].outputs[output].media;
        let to_media = self.nodes[target].inputs[input].media;
        if from_media != to_media {
            return Err(GraphError::MediaMismatch { from: from_media, to: to_media });
        }
        Ok(())
    }

    /// Connect an output pad to an input pad. Each input takes one edge.
    pub fn connect(&mut self, from_node: &NodeId, from_pad: &PadId, to_node: &NodeId, to_pad: &PadId) -> (result:
        Result<(), GraphError>)
        requires
            old(self).well_formed(),
        ensures
            final(self).well_formed(),
            final(self).schema() == old(self).schema(),
            final(self).node_seq() == old(self).node_seq(),
            ({
                let edge = make_edge(*from_node, *from_pad, *to_node, *to_pad);
                &&& edge_error(old(self).node_map(), edge) is Some ==> result == Err::<(), GraphError>(
                    edge_error(old(self).node_map(), edge).unwrap(),
                )
                &&& edge_error(old(self).node_map(), edge) is None && input_taken(old(self).edge_seq(), edge.to)
                    ==> result == Err::<(), GraphError>(GraphError::InputAlreadyConnected(edge.to))
                &&& result is Ok <==> (edge_error(old(self).node_map(), edge) is None && !input_taken(
                    old(self).edge_seq(),
                    edge.to,
                ))
                &&& result is Err ==> final(self).edge_seq() == old(self).edge_seq()
                &&& result is Ok ==> forall|e: Edge| #[trigger] has_edge(final(self).edge_seq(), e) <==> (has_edge(
                    old(self).edge_seq(),
                    e,
                ) || same_edge(e, edge))
            }),
    {
        let edge = Edge {
            from: Endpoint { node: from_node.clone(), pad: from_pad.clone() },
            to: Endpoint { node: to_node.clone(), pad: to_pad.clone() },
        };
        assert(edge == make_edge(*from_node, *from_pad, *to_node, *to_pad));
        match self.validate_edge(&edge) {
            Ok(()) => {},
            Err(e) => {
                return Err(e);
            },
        }
        if self.input_is_taken(&edge.to) {
            return Err(GraphError::InputAlreadyConnected(edge.to));
        }
        self.insert_edge(edge);
        Ok(())
    }

    fn input_is_taken(&self, to: &Endpoint) -> (taken: bool)
        ensures
            taken == input_taken(self.edges@, *to),
    {
        let mut i: usize = 0;
        while i < self.edges.len()
            invariant
                0 <= i <= self.edges@.len(),
                forall|k: int| 0 <= k < i ==> !same_endpoint(#[trigger] self.edges@[k].to, *to),
            decreases self.edges.len() - i,
        {
            if endpoint_equal(&self.edges[i].to, to) {
                return true;
            }
            i = i + 1;
        }
        false
    }
}

impl FilterGraph {
    /// The first reason, in the order validation checks them, that the graph
    /// is malformed before its edges are ordered: schema, nodes, edges,
    /// required pads.
    pub open spec fn validation_error(&self) -> Option<GraphError> {
        if self.schema() != FILTER_GRAPH_SCHEMA_VERSION {
            Some(GraphError::UnsupportedSchema(self.schema()))
        } else if nodes_error_from(self.node_seq(), 0) is Some {
            nodes_error_from(self.node_seq(), 0)
        } else if edges_error_from(self.node_map(), self.edge_seq(), 0) is Some {
            edges_error_from(self.node_map(), self.edge_seq(), 0)
        } else {
            required_error_from(self.node_seq(), self.edge_seq(), 0)
        }
    }

    pub open spec fn preds(&self) -> Seq<Seq<usize>> {
        graph_preds(self.node_seq(), self.edge_seq())
    }

    fn check_nodes(&self) -> (result: Result<(), GraphError>)
        ensures
            result is Ok <==> nodes_error_from(self.nodes@, 0) is None,
            result matches Err(e) ==> nodes_error_from(self.nodes@, 0) == Some(e),
    {
        let mut i: usize = 0;
        while i < self.nodes.len()
            invariant
                0 <= i <= self.nodes@.len(),
                nodes_error_from(self.nodes@, 0) == nodes_error_from(self.nodes@, i as int),
            decreases self.nodes.len() - i,
        {
            let node = &self.nodes[i];
            if str_is_blank(node.operation.as_str()) {
                return Err(GraphError::EmptyOperation);
            }
            match ensure_unique_pads(node.inputs.as_slice()) {
                Ok(()) => {},
                Err(e) => {
                    return Err(e);
                },
            }
            match ensure_unique_pads(node.outputs.as_slice()) {
                Ok(()) => {},
                Err(e) => {
                    return Err(e);
                },
            }
            i = i + 1;
        }
        Ok(())
    }

    fn check_edges(&self) -> (result: Result<(), GraphError>)
        requires
            self.well_formed(),
        ensures
            result is Ok <==> edges_error_from(self.node_map(), self.edges@, 0) is None,
            result matches Err(e) ==> edges_error_from(self.node_map(), self.edges@, 0) == Some(e),
            result is Ok ==> forall|j: int| 0 <= j < self.edges@.len() ==> edge_error(self.node_map(), #[trigger] self.edges@[j]) is None,
    {
        let ghost m = self.node_map();
        let mut k: usize = 0;
        while k < self.edges.len()
            invariant
                0 <= k <= self.edges@.len(),
                self.well_formed(),
                m == self.node_map(),
                edges_error_from(m, self.edges@, 0) == edges_error_from(m, self.edges@, k as int),
                forall|j: int| 0 <= j < k ==> edge_error(m, #[trigger] self.edges@[j]) is None,
            decreases self.edges.len() - k,
        {
            let edge = &self.edges[k];
            match self.validate_edge(edge) {
                Ok(()) => {},
                Err(e) => {
                    return Err(e);
                },
            }
            let mut j: usize = 0;
            while j < k
                invariant
                    0 <= j <= k,
                    k < self.edges@.len(),
                    *edge == self.edges@[k as int],
                    m == self.node_map(),
                    edge_error(m, *edge) is None,
                    edges_error_from(m, self.edges@, 0) == edges_error_from(m, self.edges@, k as int),
                    forall|a: int| 0 <= a < j ==> !same_endpoint(#[trigger] self.edges@[a].to, edge.to),
                decreases k - j,
            {
                if endpoint_equal(&self.edges[j].to, &edge.to) {
                    assert(input_taken(self.edges@.subrange(0, k as int), edge.to)) by {
                        assert(self.edges@.subrange(0, k as int)[j as int] == self.edges@[j as int]);
                    }
                    return Err(GraphError::InputAlreadyConnected(edge.to.clone()));
                }
                j = j + 1;
            }
            assert(!input_taken(self.edges@.subrange(0, k as int), edge.to)) by {
                if input_taken(self.edges@.subrange(0, k as int), edge.to) {
                    let a = choose|a: int| 0 <= a < k && same_endpoint(#[trigger] self.edges@.subrange(0, k as int)[a].to, edge.to);
                    assert(self.edges@.subrange(0, k as int)[a] == self.edges@[a]);
                }
            }
            k = k + 1;
        }
        Ok(())
    }

    fn topological_order(&self) -> (result: Result<Vec<usize>, GraphError>)
        requires
            self.well_formed(),
            forall|j: int| 0 <= j < self.edges@.len() ==> edge_error(self.node_map(), #[trigger] self.edges@[j]) is None,
        ensures
            result is Ok <==> completable(self.preds()),
            result is Err ==> result == Err::<Vec<usize>, GraphError>(GraphError::Cycle),
            result matches Ok(order) ==> order@.len() == self.nodes@.len() && valid_order(self.preds(), order@)
                && least_first(self.preds(), order@),
    {
        let ghost nodes = self.nodes@;
        let ghost edges = self.edges@;
        let ghost m = self.node_map();
        proof {
            lemma_to_map(nodes);
        }
        let n = self.nodes.len();
        let e = self.edges.len();
        let mut preds: Vec<Vec<usize>> = Vec::new();
        let mut v: usize = 0;
        while v < n
            invariant
                0 <= v <= n,
                n == nodes.len(),
                e == edges.len(),
                nodes == self.nodes@,
                edges == self.edges@,
                m == self.node_map(),
                keys_sorted(nodes),
                forall|k: Seq<char>| #[trigger] m.contains_key(k) <==> has_key(nodes, k),
                forall|j: int| 0 <= j < edges.len() ==> edge_error(m, #[trigger] edges[j]) is None,
                preds@.len() == v,
                forall|w: int| 0 <= w < v ==> #[trigger] preds@[w]@ == preds_upto(nodes, edges, w, e as int),
                forall|w: int, k: int| 0 <= w < v && 0 <= k < preds@[w]@.len() ==> #[trigger] preds@[w]@[k] < n,
            decreases n - v,
        {
            let mut list: Vec<usize> = Vec::new();
            let mut k: usize = 0;
            while k < e
                invariant
                    0 <= k <= e,
                    v < n,
                    n == nodes.len(),
                    e == edges.len(),
                    nodes == self.nodes@,
                    edges == self.edges@,
                    keys_sorted(nodes),
                    forall|key: Seq<char>| #[trigger] m.contains_key(key) <==> has_key(nodes, key),
                    forall|j: int| 0 <= j < edges.len() ==> edge_error(m, #[trigger] edges[j]) is None,
                    list@ == preds_upto(nodes, edges, v as int, k as int),
                    forall|a: int| 0 <= a < list@.len() ==> #[trigger] list@[a] < n,
                decreases e - k,
            {
                let edge = &self.edges[k];
                if str_equal(edge.to.node.as_str(), self.nodes[v].id.as_str()) {
                    assert(edge_error(m, edges[k as int]) is None);
                    assert(m.contains_key(edge.from.node@));
                    match find_key(&self.nodes, edge.from.node.as_str()) {
                        Some(u) => {
                            proof {
                                let i = choose|i: int| 0 <= i < nodes.len() && #[trigger] nodes[i].key() == edge.from.node@;
                                crate::keyed::lemma_sorted_unique(nodes, i, u as int);
                                assert(index_of(nodes, edge.from.node@) == u as int);
                            }
                            list.push(u);
                        },
                        None => {},
                    }
                }
                k = k + 1;
            }
            preds.push(list);
            v = v + 1;
        }
        let ghost ps = graph_preds(nodes, edges);
        assert(pred_views(preds@) =~= ps);
        assert(preds_in_range(pred_views(preds@))) by {
            assert forall|w: int, k: int| 0 <= w < pred_views(preds@).len() && 0 <= k < pred_views(preds@)[w].len() implies #[trigger] pred_views(preds@)[w][k] < pred_views(preds@).len() by {
                assert(pred_views(preds@)[w] == preds@[w]@);
                assert(preds@[w]@[k] < n);
            }
        }
        let order = least_first_order(&preds);
        if order.len() < n {
            proof {
                crate::order::lemma_stuck_is_final(ps, order@);
            }
            return Err(GraphError::Cycle);
        }
        Ok(order)
    }

    /// Check the whole graph and return the positions of its nodes in
    /// dependency order, the least ready id first.
    fn validate_order(&self) -> (result: Result<Vec<usize>, GraphError>)
        requires
            self.well_formed(),
        ensures
            self.validation_error() is Some ==> result == Err::<Vec<usize>, GraphError>(self.validation_error().unwrap()),
            self.validation_error() is None ==> (result is Ok <==> completable(self.preds())),
            self.validation_error() is None && result is Err ==> result == Err::<Vec<usize>, GraphError>(GraphError::Cycle),
            result matches Ok(order) ==> order@.len() == self.node_seq().len() && valid_order(self.preds(), order@)
                && least_first(self.preds(), order@),
    {
        if self.schema_version != FILTER_GRAPH_SCHEMA_VERSION {
            return Err(GraphError::UnsupportedSchema(self.schema_version));
        }
        match self.check_nodes() {
            Ok(()) => {},
            Err(e) => {
                return Err(e);
            },
        }
        match self.check_edges() {
            Ok(()) => {},
            Err(e) => {
                return Err(e);
            },
        }
        match self.check_required() {
            Ok(()) => {},
            Err(e) => {
                return Err(e);
            },
        }
        self.topological_order()
    }

    /// Check the whole graph and return its node ids in dependency order,
    /// the least ready id first.
    pub fn validate(&self) -> (result: Result<Vec<NodeId>, GraphError>)
        requires
            self.well_formed(),
        ensures
            self.validation_error() is Some ==> result == Err::<Vec<NodeId>, GraphError>(self.validation_error().unwrap()),
            self.validation_error() is None ==> (result is Ok <==> completable(self.preds())),
            self.validation_error() is None && result is Err ==> result == Err::<Vec<NodeId>, GraphError>(GraphError::Cycle),
            result matches Ok(ids) ==> exists|order: Seq<usize>|
                #![trigger valid_order(self.preds(), order)]
                order.len() == self.node_seq().len() && valid_order(self.preds(), order) && least_first(self.preds(), order)
                    && ids@.len() == order.len() && forall|k: int| 0 <= k < order.len() ==> #[trigger] ids@[k] == self.node_seq()[order[k] as int].id,
            result is Ok ==> forall|i: int, k: int|
                0 <= i < self.node_seq().len() && 0 <= k < self.node_seq()[i].inputs@.len()
                    && #[trigger] self.node_seq()[i].inputs@[k].required ==> exists|e: int|
                    0 <= e < self.edge_seq().len() && self.edge_seq()[e].to.node@ == self.node_seq()[i].id@
                        && self.edge_seq()[e].to.pad@ == self.node_seq()[i].inputs@[k].id@,
    {
        let order = match self.validate_order() {
            Ok(order) => order,
            Err(e) => {
                return Err(e);
            },
        };
        let ghost ps = self.preds();
        let n = order.len();
        let mut ids: Vec<NodeId> = Vec::new();
        let mut k: usize = 0;
        while k < n
            invariant
                0 <= k <= n,
                n == self.nodes@.len(),
                order@.len() == n,
                ps == self.preds(),
                ps.len() == n,
                valid_order(ps, order@),
                ids@.len() == k,
                forall|a: int| 0 <= a < k ==> #[trigger] ids@[a] == self.nodes@[order@[a] as int].id,
            decreases n - k,
        {
            assert(order@[k as int] < ps.len());
            let id = self.nodes[order[k]].id.clone();
            ids.push(id);
            k = k + 1;
        }
        assert(order@.len() == self.node_seq().len() && valid_order(self.preds(), order@) && least_first(self.preds(), order@)
            && ids@.len() == order@.len() && forall|a: int| 0 <= a < order@.len() ==> #[trigger] ids@[a] == self.node_seq()[order@[a] as int].id);
        proof {
            law_valid_graphs_connect_required_pads(*self);
        }
        Ok(ids)
    }

    fn output_is_used(&self, from: &Endpoint) -> (used: bool)
        ensures
            used == output_used(self.edges@, *from),
    {
        let mut i: usize = 0;
        while i < self.edges.len()
            invariant
                0 <= i <= self.edges@.len(),
                forall|k: int| 0 <= k < i ==> !same_endpoint(#[trigger] self.edges@[k].from, *from),
            decreases self.edges.len() - i,
        {
            if endpoint_equal(&self.edges[i].from, from) {
                return true;
            }
            i = i + 1;
        }
        false
    }

    fn check_required(&self) -> (result: Result<(), GraphError>)
        ensures
            result is Ok <==> required_error_from(self.nodes@, self.edges@, 0) is None,
            result matches Err(e) ==> required_error_from(self.nodes@, self.edges@, 0) == Some(e),
    {
        let ghost edges = self.edges@;
        let mut i: usize = 0;
        while i < self.nodes.len()
            invariant
                0 <= i <= self.nodes@.len(),
                edges == self.edges@,
                required_error_from(self.nodes@, edges, 0) == required_error_from(self.nodes@, edges, i as int),
            decreases self.nodes.len() - i,
        {
            let node = &self.nodes[i];
            let mut k: usize = 0;
            while k < node.inputs.len()
                invariant
                    0 <= k <= node.inputs@.len(),
                    edges == self.edges@,
                    i < self.nodes@.len(),
                    *node == self.nodes@[i as int],
                    required_error_from(self.nodes@, edges, 0) == required_error_from(self.nodes@, edges, i as int),
                    inputs_error_from(edges, node.id, node.inputs@, 0) == inputs_error_from(edges, node.id, node.inputs@, k as int),
                decreases node.inputs.len() - k,
            {
                let pad = &node.inputs[k];
                if pad.required {
                    let endpoint = Endpoint { node: node.id.clone(), pad: pad.id.clone() };
                    assert(endpoint == endpoint_of(node.id, *pad));
                    if !self.input_is_taken(&endpoint) {
                        return Err(GraphError::RequiredPadUnconnected(endpoint));
                    }
                }
                k = k + 1;
            }
            let mut k: usize = 0;
            while k < node.outputs.len()
                invariant
                    0 <= k <= node.outputs@.len(),
                    edges == self.edges@,
                    i < self.nodes@.len(),
                    *node == self.nodes@[i as int],
                    required_error_from(self.nodes@, edges, 0) == required_error_from(self.nodes@, edges, i as int),
                    inputs_error_from(edges, node.id, node.inputs@, 0) is None,
                    outputs_error_from(edges, node.id, node.outputs@, 0) == outputs_error_from(edges, node.id, node.outputs@, k as int),
                decreases node.outputs.len() - k,
            {
                let pad = &node.outputs[k];
                if pad.required {
                    let endpoint = Endpoint { node: node.id.clone(), pad: pad.id.clone() };
                    assert(endpoint == endpoint_of(node.id, *pad));
                    if !self.output_is_used(&endpoint) {
                        return Err(GraphError::RequiredPadUnconnected(endpoint));
                    }
                }
                k = k + 1;
            }
            i = i + 1;
        }
        Ok(())
    }
}

/// The id of the filter at `index` in a linear chain: `filter_` and the
/// index padded to four digits.
pub open spec fn filter_node_name(index: nat) -> Seq<char> {
    "filter_"@ + zero_padded(index, 4)
}

/// Filter ids are identifiers, differ from `source` and `sink`, and read
/// their index back after the `filter_` prefix.
pub proof fn lemma_filter_node_name(i: nat)
    ensures
        valid_identifier(filter_node_name(i)),
        filter_node_name(i) != "source"@,
        filter_node_name(i) != "sink"@,
        filter_node_name(i).len() > 7,
        decimal(filter_node_name(i).subrange(7, filter_node_name(i).len() as int)) == i,
{
    reveal_strlit("filter_");
    reveal_strlit("source");
    reveal_strlit("sink");
    lemma_zero_padded_value(i, 4);
    let name = filter_node_name(i);
    let digits = zero_padded(i, 4);
    assert(name.subrange(7, name.len() as int) =~= digits);
    assert(name[0] == 'f');
    assert forall|k: int| 0 <= k < name.len() implies is_identifier_char(#[trigger] name[k]) by {
        if k >= 7 {
            assert(name[k] == digits[k - 7]);
            assert(crate::text::is_ascii_digit(digits[k - 7]));
        }
    }
}

/// Distinct indices give distinct filter ids.
pub proof fn lemma_filter_node_names_distinct(i: nat, j: nat)
    requires
        i != j,
    ensures
        filter_node_name(i) != filter_node_name(j),
{
    lemma_filter_node_name(i);
    lemma_filter_node_name(j);
    if filter_node_name(i) == filter_node_name(j) {
        let a = filter_node_name(i);
        assert(a.subrange(7, a.len() as int) == filter_node_name(j).subrange(7, filter_node_name(j).len() as int));
    }
}

fn filter_node_name_text(index: usize) -> (name: String)
    ensures
        name@ == filter_node_name(index as nat),
{
    let mut out: Vec<char> = Vec::new();
    push_str(&mut out, "filter_");
    push_zero_padded(&mut out, index as u64, 4);
    string_of(out.as_slice())
}

/// The nodes a linear chain passes to FFmpeg: all but its source and sink.
pub open spec fn is_endpoint_operation(op: Seq<char>) -> bool {
    op == "source"@ || op == "sink"@
}

/// The operations of the nodes at positions `order`, in that order, leaving
/// out sources and sinks.
pub open spec fn chain_operations(nodes: Seq<FilterNode>, order: Seq<usize>) -> Seq<Seq<char>>
    decreases order.len(),
{
    if order.len() == 0 {
        Seq::empty()
    } else {
        let rest = chain_operations(nodes, order.drop_last());
        let op = nodes[order.last() as int].operation@;
        if is_endpoint_operation(op) {
            rest
        } else {
            rest.push(op)
        }
    }
}

/// `parts` joined by commas.
pub open spec fn join_commas(parts: Seq<Seq<char>>) -> Seq<char>
    decreases parts.len(),
{
    if parts.len() == 0 {
        Seq::empty()
    } else if parts.len() == 1 {
        parts[0]
    } else {
        join_commas(parts.drop_last()) + seq![','] + parts.last()
    }
}

/// A character as it stands inside a quoted DOT string.
pub open spec fn escape_dot_char(c: char) -> Seq<char> {
    if c == '\\' {
        seq!['\\', '\\']
    } else if c == '"' {
        seq!['\\', '"']
    } else {
        seq![c]
    }
}

/// Backslashes and double quotes escaped with a backslash.
pub open spec fn escape_dot_text(s: Seq<char>) -> Seq<char>
    decreases s.len(),
{
    if s.len() == 0 {
        Seq::empty()
    } else {
        escape_dot_text(s.drop_last()) + escape_dot_char(s.last())
    }
}

fn escape_dot(value: &str) -> (escaped: String)
    ensures
        escaped@ == escape_dot_text(value@),
{
    let chars = chars_of(value);
    let mut out: Vec<char> = Vec::new();
    let mut i: usize = 0;
    while i < chars.len()
        invariant
            0 <= i <= chars@.len(),
            chars@ == value@,
            out@ == escape_dot_text(value@.subrange(0, i as int)),
        decreases chars.len() - i,
    {
        let c = chars[i];
        if c == '\\' {
            out.push('\\');
            out.push('\\');
        } else if c == '"' {
            out.push('\\');
            out.push('"');
        } else {
            out.push(c);
        }
        assert(value@.subrange(0, i + 1).drop_last() =~= value@.subrange(0, i as int));
        assert(out@ =~= escape_dot_text(value@.subrange(0, i as int)) + escape_dot_char(c));
        i = i + 1;
    }
    assert(value@.subrange(0, chars@.len() as int) =~= value@);
    string_of(out.as_slice())
}

/// The DOT statement for a node: its id, labelled with its operation.
pub open spec fn dot_node_line(node: FilterNode) -> Seq<char> {
    "  \""@ + node.id@ + "\" [label=\""@ + escape_dot_text(node.operation@) + "\"];"@
}

/// The DOT statement for an edge, labelled with its two pads.
pub open spec fn dot_edge_line(edge: Edge) -> Seq<char> {
    "  \""@ + edge.from.node@ + "\" -> \""@ + edge.to.node@ + "\" [label=\""@ + edge.from.pad@ + ":"@
        + edge.to.pad@ + "\"];"@
}

/// Each node's statement, each on a line of its own.
pub open spec fn dot_node_lines(nodes: Seq<FilterNode>) -> Seq<char>
    decreases nodes.len(),
{
    if nodes.len() == 0 {
        Seq::empty()
    } else {
        dot_node_lines(nodes.drop_last()) + seq!['\n'] + dot_node_line(nodes.last())
    }
}

/// Each edge's statement, each on a line of its own.
pub open spec fn dot_edge_lines(edges: Seq<Edge>) -> Seq<char>
    decreases edges.len(),
{
    if edges.len() == 0 {
        Seq::empty()
    } else {
        dot_edge_lines(edges.drop_last()) + seq!['\n'] + dot_edge_line(edges.last())
    }
}

/// The whole DOT document: the header, nodes in id order, edges in edge
/// order, and the closing brace, one per line.
pub open spec fn dot_text(nodes: Seq<FilterNode>, edges: Seq<Edge>) -> Seq<char> {
    "digraph filter_graph {"@ + dot_node_lines(nodes) + dot_edge_lines(edges) + seq!['\n'] + "}"@
}

/// The id at position `p` of a linear chain of `n` filters: the source,
/// then the filters in order, then the sink.
pub open spec fn chain_name(n: nat, p: int) -> Seq<char> {
    if p == 0 {
        "source"@
    } else if p <= n {
        filter_node_name((p - 1) as nat)
    } else {
        "sink"@
    }
}

/// The operation at position `p` of the chain of `filters`.
pub open spec fn chain_operation(filters: Seq<String>, p: int) -> Seq<char> {
    if p == 0 {
        "source"@
    } else if p <= filters.len() {
        filters[p - 1]@
    } else {
        "sink"@
    }
}

pub open spec fn is_pad(pad: Pad, id: Seq<char>, media: MediaKind) -> bool {
    pad.id@ == id && pad.media == media && pad.required
}

/// The node at position `p` of the chain of `filters` over `media`: one
/// required `in` pad but at the source, one required `out` pad but at the
/// sink.
pub open spec fn chain_node(node: FilterNode, media: MediaKind, filters: Seq<String>, p: int) -> bool {
    let n = filters.len();
    &&& node.id@ == chain_name(n, p)
    &&& node.operation@ == chain_operation(filters, p)
    &&& if p == 0 {
        node.inputs@.len() == 0
    } else {
        node.inputs@.len() == 1 && is_pad(node.inputs@[0], "in"@, media)
    }
    &&& if p == n + 1 {
        node.outputs@.len() == 0
    } else {
        node.outputs@.len() == 1 && is_pad(node.outputs@[0], "out"@, media)
    }
}

/// The edge from position `p - 1` of the chain to position `p`.
pub open spec fn chain_edge(e: Edge, n: nat, p: int) -> bool {
    &&& e.from.node@ == chain_name(n, p - 1)
    &&& e.from.pad@ == "out"@
    &&& e.to.node@ == chain_name(n, p)
    &&& e.to.pad@ == "in"@
}

/// The nodes at chain positions `0..=upto`, and no others.
pub open spec fn chain_nodes(m: Map<Seq<char>, FilterNode>, media: MediaKind, filters: Seq<String>, upto: int) -> bool {
    &&& forall|k: Seq<char>|
        #[trigger] m.contains_key(k) <==> exists|p: int| 0 <= p <= upto && k == #[trigger] chain_name(filters.len(), p)
    &&& forall|p: int| 0 <= p <= upto ==> chain_node(m[#[trigger] chain_name(filters.len(), p)], media, filters, p)
}

/// The edges into chain positions `1..=upto`, and no others.
pub open spec fn chain_edges(edges: Seq<Edge>, n: nat, upto: int) -> bool {
    forall|e: Edge| #[trigger] has_edge(edges, e) <==> exists|p: int| 1 <= p <= upto && #[trigger] chain_edge(e, n, p)
}

proof fn lemma_fixed_ids()
    ensures
        valid_identifier("in"@),
        valid_identifier("out"@),
        valid_identifier("source"@),
        valid_identifier("sink"@),
        !is_blank("source"@),
        !is_blank("sink"@),
        "source"@ != "sink"@,
{
    reveal_strlit("in");
    reveal_strlit("out");
    reveal_strlit("source");
    reveal_strlit("sink");
    assert(!crate::text::is_unicode_whitespace("source"@[0]));
    assert(!crate::text::is_unicode_whitespace("sink"@[0]));
}

/// Chain ids are identifiers, each position its own.
pub proof fn lemma_chain_names(n: nat, p: int, q: int)
    requires
        0 <= p <= n + 1,
        0 <= q <= n + 1,
    ensures
        valid_identifier(chain_name(n, p)),
        p != q ==> chain_name(n, p) != chain_name(n, q),
{
    lemma_fixed_ids();
    if 1 <= p <= n {
        lemma_filter_node_name((p - 1) as nat);
    }
    if 1 <= q <= n {
        lemma_filter_node_name((q - 1) as nat);
    }
    if 1 <= p <= n && 1 <= q <= n && p != q {
        lemma_filter_node_names_distinct((p - 1) as nat, (q - 1) as nat);
    }
}

proof fn lemma_single_pad_unique(pads: Seq<Pad>)
    requires
        pads.len() <= 1,
    ensures
        pads_unique(pads),
        pads_error(pads) is None,
{
    assert forall|k: int| 0 <= k < pads.len() implies !#[trigger] pad_repeats(pads, k) by {
        assert(k == 0);
    }
}

proof fn lemma_find_single_pad(pads: Seq<Pad>, id: Seq<char>, media: MediaKind)
    requires
        pads.len() == 1,
        is_pad(pads[0], id, media),
    ensures
        find_pad(pads, id) == Some(pads[0]),
{
}

/// Adding the node at position `upto + 1` extends the chain's nodes.
proof fn lemma_chain_add_node(
    m: Map<Seq<char>, FilterNode>,
    media: MediaKind,
    filters: Seq<String>,
    upto: int,
    node: FilterNode,
)
    requires
        -1 <= upto <= filters.len(),
        chain_nodes(m, media, filters, upto),
        chain_node(node, media, filters, upto + 1),
    ensures
        !m.contains_key(node.id@),
        chain_nodes(m.insert(node.id@, node), media, filters, upto + 1),
{
    let n = filters.len();
    let key = node.id@;
    assert(key == chain_name(n, upto + 1));
    if m.contains_key(key) {
        let p = choose|p: int| 0 <= p <= upto && key == #[trigger] chain_name(n, p);
        lemma_chain_names(n, p, upto + 1);
    }
    let m2 = m.insert(key, node);
    assert forall|k: Seq<char>| #[trigger] m2.contains_key(k) <==> exists|p: int|
        0 <= p <= upto + 1 && k == #[trigger] chain_name(n, p) by {
        if m2.contains_key(k) && k != key {
            let p = choose|p: int| 0 <= p <= upto && k == #[trigger] chain_name(n, p);
        }
        if exists|p: int| 0 <= p <= upto + 1 && k == #[trigger] chain_name(n, p) {
            let p = choose|p: int| 0 <= p <= upto + 1 && k == #[trigger] chain_name(n, p);
            if p <= upto {
                assert(m.contains_key(k));
            }
        }
    }
    assert forall|p: int| 0 <= p <= upto + 1 implies chain_node(m2[#[trigger] chain_name(n, p)], media, filters, p) by {
        if p <= upto {
            lemma_chain_names(n, p, upto + 1);
            assert(m2[chain_name(n, p)] == m[chain_name(n, p)]);
        }
    }
}

/// Connecting position `upto` to the next extends the chain's edges.
proof fn lemma_chain_add_edge(edges: Seq<Edge>, after: Seq<Edge>, n: nat, upto: int, edge: Edge)
    requires
        0 <= upto,
        chain_edges(edges, n, upto),
        chain_edge(edge, n, upto + 1),
        forall|e: Edge| #[trigger] has_edge(after, e) <==> (has_edge(edges, e) || same_edge(e, edge)),
    ensures
        chain_edges(after, n, upto + 1),
{
    assert forall|e: Edge| has_edge(after, e) implies exists|p: int| 1 <= p <= upto + 1 && #[trigger] chain_edge(e, n, p) by {
        if has_edge(edges, e) {
            let p = choose|p: int| 1 <= p <= upto && #[trigger] chain_edge(e, n, p);
            assert(1 <= p <= upto + 1 && chain_edge(e, n, p));
        } else {
            assert(same_edge(e, edge));
            assert(chain_edge(e, n, upto + 1));
        }
    }
    assert forall|e: Edge| (exists|p: int| 1 <= p <= upto + 1 && #[trigger] chain_edge(e, n, p)) implies has_edge(after, e) by {
        let p = choose|p: int| 1 <= p <= upto + 1 && #[trigger] chain_edge(e, n, p);
        if p == upto + 1 {
            assert(same_edge(e, edge));
        } else {
            assert(1 <= p <= upto && chain_edge(e, n, p));
            assert(has_edge(edges, e));
        }
    }
}

/// Connecting chain position `upto` to `upto + 1` is allowed: both nodes and
/// pads exist with the same media, and nothing feeds the new input yet.
proof fn lemma_chain_connect_allowed(
    m: Map<Seq<char>, FilterNode>,
    edges: Seq<Edge>,
    media: MediaKind,
    filters: Seq<String>,
    upto: int,
    edge: Edge,
)
    requires
        0 <= upto <= filters.len(),
        chain_nodes(m, media, filters, upto + 1),
        chain_edges(edges, filters.len(), upto),
        chain_edge(edge, filters.len(), upto + 1),
    ensures
        edge_error(m, edge) is None,
        !input_taken(edges, edge.to),
{
    let n = filters.len();
    assert(m.contains_key(chain_name(n, upto)));
    assert(m.contains_key(chain_name(n, upto + 1)));
    let from = m[chain_name(n, upto)];
    let to = m[chain_name(n, upto + 1)];
    assert(chain_node(from, media, filters, upto));
    assert(chain_node(to, media, filters, upto + 1));
    lemma_find_single_pad(from.outputs@, "out"@, media);
    lemma_find_single_pad(to.inputs@, "in"@, media);
    if input_taken(edges, edge.to) {
        let k = choose|k: int| 0 <= k < edges.len() && same_endpoint(#[trigger] edges[k].to, edge.to);
        assert(has_edge(edges, edges[k])) by {
            assert(same_edge(edges[k], edges[k]));
        }
        let p = choose|p: int| 1 <= p <= upto && #[trigger] chain_edge(edges[k], n, p);
        lemma_chain_names(n, p, upto + 1);
    }
}

/// The whole chain of `filters` over `media`: its nodes and edges.
pub open spec fn linear_chain(m: Map<Seq<char>, FilterNode>, edges: Seq<Edge>, media: MediaKind, filters: Seq<String>) -> bool {
    &&& chain_nodes(m, media, filters, filters.len() + 1 as int)
    &&& chain_edges(edges, filters.len(), filters.len() + 1 as int)
}

pub open spec fn filters_nonblank(filters: Seq<String>) -> bool {
    forall|j: int| 0 <= j < filters.len() ==> !is_blank(#[trigger] filters[j]@)
}

/// Every key of a chain's node map is the id of a chain position.
proof fn lemma_chain_position(m: Map<Seq<char>, FilterNode>, media: MediaKind, filters: Seq<String>, k: Seq<char>) -> (p: int)
    requires
        chain_nodes(m, media, filters, filters.len() + 1 as int),
        m.contains_key(k),
    ensures
        0 <= p <= filters.len() + 1,
        k == chain_name(filters.len(), p),
        chain_node(m[k], media, filters, p),
{
    choose|p: int| 0 <= p <= filters.len() + 1 && k == #[trigger] chain_name(filters.len(), p)
}

proof fn lemma_chain_node_ok(node: FilterNode, media: MediaKind, filters: Seq<String>, p: int)
    requires
        0 <= p <= filters.len() + 1,
        chain_node(node, media, filters, p),
        filters_nonblank(filters),
    ensures
        node_error(node) is None,
{
    lemma_fixed_ids();
    lemma_single_pad_unique(node.inputs@);
    lemma_single_pad_unique(node.outputs@);
    if 1 <= p <= filters.len() {
        assert(!is_blank(filters[p - 1]@));
    }
}

proof fn lemma_nodes_ok_from(nodes: Seq<FilterNode>, i: int)
    requires
        0 <= i <= nodes.len(),
        forall|j: int| 0 <= j < nodes.len() ==> node_error(#[trigger] nodes[j]) is None,
    ensures
        nodes_error_from(nodes, i) is None,
    decreases nodes.len() - i,
{
    if i < nodes.len() {
        lemma_nodes_ok_from(nodes, i + 1);
    }
}

/// Every edge of the chain's graph is a chain edge.
proof fn lemma_chain_edge_position(edges: Seq<Edge>, n: nat, k: int) -> (p: int)
    requires
        chain_edges(edges, n, n + 1 as int),
        0 <= k < edges.len(),
    ensures
        1 <= p <= n + 1,
        chain_edge(edges[k], n, p),
{
    assert(same_edge(edges[k], edges[k]));
    assert(has_edge(edges, edges[k]));
    choose|p: int| 1 <= p <= n + 1 && #[trigger] chain_edge(edges[k], n, p)
}

proof fn lemma_chain_edge_ok(m: Map<Seq<char>, FilterNode>, media: MediaKind, filters: Seq<String>, e: Edge, p: int)
    requires
        chain_nodes(m, media, filters, filters.len() + 1 as int),
        1 <= p <= filters.len() + 1,
        chain_edge(e, filters.len(), p),
    ensures
        edge_error(m, e) is None,
{
    let n = filters.len();
    assert(m.contains_key(chain_name(n, p - 1)));
    assert(m.contains_key(chain_name(n, p)));
    let from = m[chain_name(n, p - 1)];
    let to = m[chain_name(n, p)];
    assert(chain_node(from, media, filters, p - 1));
    assert(chain_node(to, media, filters, p));
    lemma_find_single_pad(from.outputs@, "out"@, media);
    lemma_find_single_pad(to.inputs@, "in"@, media);
}

/// In a chain no two edges enter the same node.
proof fn lemma_chain_single_entry(edges: Seq<Edge>, n: nat, a: int, b: int)
    requires
        chain_edges(edges, n, n + 1 as int),
        edges_sorted(edges),
        0 <= a < b < edges.len(),
    ensures
        edges[a].to.node@ != edges[b].to.node@,
{
    let pa = lemma_chain_edge_position(edges, n, a);
    let pb = lemma_chain_edge_position(edges, n, b);
    lemma_chain_names(n, pa, pb);
    if edges[a].to.node@ == edges[b].to.node@ {
        assert(same_edge(edges[a], edges[b]));
        assert(edge_lt(edges[a], edges[b]));
        lemma_edge_lt_same(edges[a], edges[b]);
    }
}

proof fn lemma_chain_edges_ok_from(
    m: Map<Seq<char>, FilterNode>,
    edges: Seq<Edge>,
    media: MediaKind,
    filters: Seq<String>,
    k: int,
)
    requires
        linear_chain(m, edges, media, filters),
        edges_sorted(edges),
        0 <= k <= edges.len(),
    ensures
        edges_error_from(m, edges, k) is None,
    decreases edges.len() - k,
{
    if k < edges.len() {
        let n = filters.len();
        let p = lemma_chain_edge_position(edges, n, k);
        lemma_chain_edge_ok(m, media, filters, edges[k], p);
        if input_taken(edges.subrange(0, k), edges[k].to) {
            let j = choose|j: int| 0 <= j < k && same_endpoint(#[trigger] edges.subrange(0, k)[j].to, edges[k].to);
            assert(edges.subrange(0, k)[j] == edges[j]);
            lemma_chain_single_entry(edges, n, j, k);
        }
        lemma_chain_edges_ok_from(m, edges, media, filters, k + 1);
    }
}

/// Every required pad of a chain node is connected.
proof fn lemma_chain_required_ok(
    m: Map<Seq<char>, FilterNode>,
    edges: Seq<Edge>,
    media: MediaKind,
    filters: Seq<String>,
    p: int,
)
    requires
        linear_chain(m, edges, media, filters),
        0 <= p <= filters.len() + 1,
    ensures
        required_error(edges, m[chain_name(filters.len(), p)]) is None,
{
    let n = filters.len();
    let node = m[chain_name(n, p)];
    assert(chain_node(node, media, filters, p));
    if p >= 1 {
        let prev = m[chain_name(n, p - 1)];
        assert(chain_node(prev, media, filters, p - 1));
        let e = Edge {
            from: Endpoint { node: prev.id, pad: prev.outputs@[0].id },
            to: Endpoint { node: node.id, pad: node.inputs@[0].id },
        };
        assert(chain_edge(e, n, p));
        assert(has_edge(edges, e));
        let k = choose|k: int| 0 <= k < edges.len() && same_edge(#[trigger] edges[k], e);
        assert(same_endpoint(edges[k].to, endpoint_of(node.id, node.inputs@[0])));
        assert(input_taken(edges, endpoint_of(node.id, node.inputs@[0])));
        assert(inputs_error_from(edges, node.id, node.inputs@, 1) is None);
    }
    assert(inputs_error_from(edges, node.id, node.inputs@, 0) is None);
    if p <= n {
        let next = m[chain_name(n, p + 1)];
        assert(chain_node(next, media, filters, p + 1));
        let e = Edge {
            from: Endpoint { node: node.id, pad: node.outputs@[0].id },
            to: Endpoint { node: next.id, pad: next.inputs@[0].id },
        };
        assert(chain_edge(e, n, p + 1));
        assert(has_edge(edges, e));
        let k = choose|k: int| 0 <= k < edges.len() && same_edge(#[trigger] edges[k], e);
        assert(same_endpoint(edges[k].from, endpoint_of(node.id, node.outputs@[0])));
        assert(output_used(edges, endpoint_of(node.id, node.outputs@[0])));
        assert(outputs_error_from(edges, node.id, node.outputs@, 1) is None);
    }
    assert(outputs_error_from(edges, node.id, node.outputs@, 0) is None);
}

proof fn lemma_required_ok_from(nodes: Seq<FilterNode>, edges: Seq<Edge>, i: int)
    requires
        0 <= i <= nodes.len(),
        forall|j: int| 0 <= j < nodes.len() ==> required_error(edges, #[trigger] nodes[j]) is None,
    ensures
        required_error_from(nodes, edges, i) is None,
    decreases nodes.len() - i,
{
    if i < nodes.len() {
        lemma_required_ok_from(nodes, edges, i + 1);
    }
}

impl FilterGraph {
    /// A linear chain of non-blank filters passes every check that comes
    /// before ordering.
    proof fn lemma_chain_passes_checks(&self, media: MediaKind, filters: Seq<String>)
        requires
            self.well_formed(),
            self.schema() == FILTER_GRAPH_SCHEMA_VERSION,
            linear_chain(self.node_map(), self.edge_seq(), media, filters),
            filters_nonblank(filters),
        ensures
            self.validation_error() is None,
    {
        self.lemma_node_map();
        let ns = self.node_seq();
        let m = self.node_map();
        let edges = self.edge_seq();
        assert forall|j: int| 0 <= j < ns.len() implies node_error(#[trigger] ns[j]) is None && required_error(edges, ns[j]) is None by {
            let k = ns[j].key();
            assert(m[k] == ns[j]);
            assert(has_key(ns, k));
            let p = lemma_chain_position(m, media, filters, k);
            lemma_chain_node_ok(m[k], media, filters, p);
            lemma_chain_required_ok(m, edges, media, filters, p);
        }
        lemma_nodes_ok_from(ns, 0);
        lemma_chain_edges_ok_from(m, edges, media, filters, 0);
        lemma_required_ok_from(ns, edges, 0);
    }
}

/// Where chain position `p` stands among the graph's nodes.
#[verifier::opaque]
pub open spec fn chain_pos(nodes: Seq<FilterNode>, n: nat, p: int) -> int {
    index_of(nodes, chain_name(n, p))
}

/// The chain positions in chain order, as node positions.
pub open spec fn chain_order(nodes: Seq<FilterNode>, n: nat) -> Seq<usize> {
    Seq::new(n + 2, |p: int| chain_pos(nodes, n, p) as usize)
}

/// The chain position whose id is `k`.
#[verifier::opaque]
pub open spec fn chain_index(n: nat, k: Seq<char>) -> int {
    choose|p: int| 0 <= p <= n + 1 && k == #[trigger] chain_name(n, p)
}

/// The predecessor list of a node that exactly one edge, or none, enters.
proof fn lemma_preds_upto(nodes: Seq<FilterNode>, edges: Seq<Edge>, v: int, m: int, target: int)
    requires
        0 <= m <= edges.len(),
        forall|j: int| 0 <= j < edges.len() ==> ((#[trigger] edges[j]).to.node@ == nodes[v].id@ <==> j == target),
    ensures
        preds_upto(nodes, edges, v, m) == (if 0 <= target < m {
            seq![index_of(nodes, edges[target].from.node@) as usize]
        } else {
            Seq::<usize>::empty()
        }),
    decreases m,
{
    if m > 0 {
        lemma_preds_upto(nodes, edges, v, m - 1, target);
        if target == m - 1 {
            assert(Seq::<usize>::empty().push(index_of(nodes, edges[target].from.node@) as usize) =~= seq![
                index_of(nodes, edges[target].from.node@) as usize,
            ]);
        }
    }
}

/// The shape of a linear chain's node positions: `n + 2` of them, one per
/// chain position, each preceded by the one before it.
pub open spec fn chain_layout(nodes: Seq<FilterNode>, preds: Seq<Seq<usize>>, n: nat) -> bool {
    &&& nodes.len() == n + 2
    &&& preds.len() == nodes.len()
    &&& forall|p: int|
        0 <= p <= n + 1 ==> 0 <= #[trigger] chain_pos(nodes, n, p) < nodes.len() && preds[chain_pos(nodes, n, p)] == (if p == 0 {
            Seq::<usize>::empty()
        } else {
            seq![chain_pos(nodes, n, p - 1) as usize]
        })
    &&& forall|v: int|
        0 <= v < nodes.len() ==> 0 <= #[trigger] chain_index(n, nodes[v].key()) <= n + 1 && chain_pos(
            nodes,
            n,
            chain_index(n, nodes[v].key()),
        ) == v
    &&& forall|p: int, q: int|
        0 <= p <= n + 1 && 0 <= q <= n + 1 && p != q ==> #[trigger] chain_pos(nodes, n, p) != #[trigger] chain_pos(nodes, n, q)
}

impl FilterGraph {
    /// The nodes of a linear chain stand at distinct positions, and the
    /// predecessors of each are the chain position before it.
    proof fn lemma_chain_layout(&self, media: MediaKind, filters: Seq<String>)
        requires
            self.well_formed(),
            linear_chain(self.node_map(), self.edge_seq(), media, filters),
        ensures
            chain_layout(self.node_seq(), self.preds(), filters.len()),
            self.node_seq().len() <= usize::MAX,
            forall|p: int|
                0 <= p <= filters.len() + 1 ==> self.node_seq()[#[trigger] chain_pos(self.node_seq(), filters.len(), p)]
                    == self.node_map()[chain_name(filters.len(), p)],
    {
        reveal(chain_pos);
        reveal(chain_index);
        self.lemma_node_map();
        let ns = self.node_seq();
        let m = self.node_map();
        let edges = self.edge_seq();
        let n = filters.len();
        assert(ns.len() == self.nodes.len());
        assert forall|p: int| 0 <= p <= n + 1 implies 0 <= #[trigger] chain_pos(ns, n, p) < ns.len() && ns[chain_pos(ns, n, p)].key()
            == chain_name(n, p) && ns[chain_pos(ns, n, p)] == m[chain_name(n, p)] by {
            assert(m.contains_key(chain_name(n, p)));
            assert(has_key(ns, chain_name(n, p)));
            let c = chain_pos(ns, n, p);
            assert(m[ns[c].key()] == ns[c]);
        }
        assert forall|p: int, q: int| 0 <= p <= n + 1 && 0 <= q <= n + 1 && p != q implies #[trigger] chain_pos(ns, n, p)
            != #[trigger] chain_pos(ns, n, q) by {
            lemma_chain_names(n, p, q);
        }
        assert forall|v: int| 0 <= v < ns.len() implies 0 <= #[trigger] chain_index(n, ns[v].key()) <= n + 1 && chain_pos(
            ns,
            n,
            chain_index(n, ns[v].key()),
        ) == v by {
            let k = ns[v].key();
            assert(has_key(ns, k));
            assert(m.contains_key(k));
            let p = chain_index(n, k);
            let c = chain_pos(ns, n, p);
            assert(ns[c].key() == k);
            crate::keyed::lemma_sorted_unique(ns, c, v);
        }
        // Exactly the chain positions: n + 2 of them.
        let order = chain_order(ns, n);
        assert forall|a: int, b: int| 0 <= a < b < order.len() implies #[trigger] order[a] != #[trigger] order[b] by {
            assert(chain_pos(ns, n, a) != chain_pos(ns, n, b));
        }
        crate::order::lemma_distinct_count(order, ns.len() as int);
        let back = Seq::new(ns.len(), |v: int| chain_index(n, ns[v].key()) as usize);
        assert forall|a: int, b: int| 0 <= a < b < back.len() implies #[trigger] back[a] != #[trigger] back[b] by {
            assert(chain_pos(ns, n, chain_index(n, ns[a].key())) == a);
            assert(chain_pos(ns, n, chain_index(n, ns[b].key())) == b);
        }
        assert forall|k: int| 0 <= k < back.len() implies #[trigger] back[k] < n + 2 by {
            assert(0 <= chain_index(n, ns[k].key()) <= n + 1);
        }
        crate::order::lemma_distinct_count(back, n + 2 as int);
        // Predecessors.
        assert forall|p: int| 0 <= p <= n + 1 implies self.preds()[#[trigger] chain_pos(ns, n, p)] == (if p == 0 {
            Seq::<usize>::empty()
        } else {
            seq![chain_pos(ns, n, p - 1) as usize]
        }) by {
            let v = chain_pos(ns, n, p);
            assert(ns[v].id@ == chain_name(n, p));
            if p == 0 {
                assert forall|j: int| 0 <= j < edges.len() implies ((#[trigger] edges[j]).to.node@ == ns[v].id@ <==> j == -1) by {
                    let q = lemma_chain_edge_position(edges, n, j);
                    lemma_chain_names(n, q, 0);
                }
                lemma_preds_upto(ns, edges, v, edges.len() as int, -1);
            } else {
                let e = Edge {
                    from: Endpoint { node: m[chain_name(n, p - 1)].id, pad: m[chain_name(n, p - 1)].outputs@[0].id },
                    to: Endpoint { node: m[chain_name(n, p)].id, pad: m[chain_name(n, p)].inputs@[0].id },
                };
                assert(chain_node(m[chain_name(n, p - 1)], media, filters, p - 1));
                assert(chain_node(m[chain_name(n, p)], media, filters, p));
                assert(chain_edge(e, n, p));
                assert(has_edge(edges, e));
                let t = choose|t: int| 0 <= t < edges.len() && same_edge(#[trigger] edges[t], e);
                assert forall|j: int| 0 <= j < edges.len() implies ((#[trigger] edges[j]).to.node@ == ns[v].id@ <==> j == t) by {
                    if j != t && edges[j].to.node@ == ns[v].id@ {
                        if j < t {
                            lemma_chain_single_entry(edges, n, j, t);
                        } else {
                            lemma_chain_single_entry(edges, n, t, j);
                        }
                    }
                }
                lemma_preds_upto(ns, edges, v, edges.len() as int, t);
                assert(edges[t].from.node@ == chain_name(n, p - 1));
            }
        }
    }
}

/// Any order that places every node of a linear chain agrees with the
/// chain on its first `k` places.
#[verifier::rlimit(30)]
proof fn lemma_chain_prefix(nodes: Seq<FilterNode>, preds: Seq<Seq<usize>>, n: nat, o: Seq<usize>, k: int)
    requires
        chain_layout(nodes, preds, n),
        nodes.len() <= usize::MAX,
        valid_order(preds, o),
        o.len() == nodes.len(),
        0 <= k <= o.len(),
    ensures
        forall|j: int| 0 <= j < k ==> #[trigger] o[j] == chain_pos(nodes, n, j) as usize,
    decreases k,
{
    if k > 0 {
        lemma_chain_prefix(nodes, preds, n, o, k - 1);
        let v = o[k - 1] as int;
        assert(v < preds.len());
        let q = chain_index(n, nodes[v].key());
        assert(0 <= q <= n + 1);
        assert(chain_pos(nodes, n, q) == v);
        if q < k - 1 {
            assert(o[q] == chain_pos(nodes, n, q) as usize);
            assert(o[q] == o[k - 1]);
        } else if q > k - 1 {
            assert(preds[v] == seq![chain_pos(nodes, n, q - 1) as usize]);
            assert(crate::order::ready(preds, o.subrange(0, k - 1), o[k - 1] as int));
            assert(o.subrange(0, k - 1).contains(preds[v][0]));
            let j = choose|j: int| 0 <= j < k - 1 && #[trigger] o.subrange(0, k - 1)[j] == preds[v][0];
            assert(o[j] == chain_pos(nodes, n, j) as usize);
            assert(0 <= chain_pos(nodes, n, j) < nodes.len());
            assert(0 <= chain_pos(nodes, n, q - 1) < nodes.len());
            assert(chain_pos(nodes, n, j) == chain_pos(nodes, n, q - 1));
        }
    }
}

/// A linear chain has exactly one order that places every node: the
/// chain's own.
proof fn lemma_chain_order(nodes: Seq<FilterNode>, preds: Seq<Seq<usize>>, n: nat)
    requires
        chain_layout(nodes, preds, n),
        nodes.len() <= usize::MAX,
    ensures
        completable(preds),
        forall|o: Seq<usize>| valid_order(preds, o) && o.len() == nodes.len() ==> o == chain_order(nodes, n),
{
    let order = chain_order(nodes, n);
    assert forall|a: int, b: int| 0 <= a < b < order.len() implies #[trigger] order[a] != #[trigger] order[b] by {
        assert(chain_pos(nodes, n, a) != chain_pos(nodes, n, b));
    }
    assert forall|k: int| 0 <= k < order.len() implies #[trigger] order[k] < preds.len() by {
        assert(0 <= chain_pos(nodes, n, k) < nodes.len());
    }
    assert forall|k: int| 0 <= k < order.len() implies crate::order::ready(preds, order.subrange(0, k), #[trigger] order[k] as int) by {
        let v = chain_pos(nodes, n, k);
        assert(0 <= v < nodes.len());
        assert(order[k] as int == v);
        if k > 0 {
            assert(preds[v] == seq![chain_pos(nodes, n, k - 1) as usize]);
            assert(order.subrange(0, k)[k - 1] == chain_pos(nodes, n, k - 1) as usize);
            assert(order.subrange(0, k).contains(preds[v][0]));
        } else {
            assert(preds[v].len() == 0);
        }
    }
    assert(valid_order(preds, order));
    assert(order.len() == preds.len());
    assert forall|o: Seq<usize>| valid_order(preds, o) && o.len() == nodes.len() implies o == order by {
        lemma_chain_prefix(nodes, preds, n, o, o.len() as int);
        assert(o =~= order);
    }
}

/// The operations a chain's own order passes to FFmpeg, place by place.
proof fn lemma_chain_operations_prefix(nodes: Seq<FilterNode>, preds: Seq<Seq<usize>>, filters: Seq<String>, k: int)
    requires
        chain_layout(nodes, preds, filters.len()),
        nodes.len() <= usize::MAX,
        forall|p: int|
            0 <= p <= filters.len() + 1 ==> nodes[#[trigger] chain_pos(nodes, filters.len(), p)].operation@ == chain_operation(
                filters,
                p,
            ),
        forall|j: int| 0 <= j < filters.len() ==> !is_endpoint_operation(#[trigger] filters[j]@),
        0 <= k <= filters.len() + 2,
    ensures
        chain_operations(nodes, chain_order(nodes, filters.len()).subrange(0, k)) == filters.map_values(
            |f: String| f@,
        ).subrange(0, if k <= 1 { 0 } else if k <= filters.len() + 1 { k - 1 } else { filters.len() as int }),
    decreases k,
{
    let n = filters.len();
    let order = chain_order(nodes, n);
    let views = filters.map_values(|f: String| f@);
    if k > 0 {
        lemma_chain_operations_prefix(nodes, preds, filters, k - 1);
        let s = order.subrange(0, k);
        assert(s.drop_last() =~= order.subrange(0, k - 1));
        let c = chain_pos(nodes, n, k - 1);
        assert(0 <= c < nodes.len());
        assert(s.last() as int == c);
        assert(nodes[c].operation@ == chain_operation(filters, k - 1));
        reveal_strlit("source");
        reveal_strlit("sink");
        if k == 1 {
            assert(is_endpoint_operation(chain_operation(filters, 0)));
        } else if k <= n + 1 {
            assert(chain_operation(filters, k - 1) == views[k - 2]);
            assert(!is_endpoint_operation(filters[k - 2]@));
            assert(views.subrange(0, k - 2).push(views[k - 2]) =~= views.subrange(0, k - 1));
        } else {
            assert(is_endpoint_operation(chain_operation(filters, n + 1 as int)));
        }
    }
}

/// The FFmpeg chain of a linear graph gives back its filters joined by
/// commas: the graph has one dependency order, and it visits the filters
/// in turn. Filters named `source` or `sink` are left out of a chain, so
/// they are excluded here.
pub proof fn law_linear_chain_round_trip(
    graph: FilterGraph,
    media: MediaKind,
    filters: Seq<String>,
    order: Seq<usize>,
)
    requires
        graph.well_formed(),
        linear_chain(graph.node_map(), graph.edge_seq(), media, filters),
        valid_order(graph.preds(), order),
        order.len() == graph.node_seq().len(),
        forall|j: int| 0 <= j < filters.len() ==> !is_endpoint_operation(#[trigger] filters[j]@),
    ensures
        join_commas(chain_operations(graph.node_seq(), order)) == join_commas(filters.map_values(|f: String| f@)),
{
    let n = filters.len();
    let ns = graph.node_seq();
    graph.lemma_chain_layout(media, filters);
    lemma_chain_order(ns, graph.preds(), n);
    assert(order == chain_order(ns, n));
    assert forall|p: int| 0 <= p <= n + 1 implies ns[#[trigger] chain_pos(ns, n, p)].operation@ == chain_operation(filters, p) by {
        assert(graph.node_map().contains_key(chain_name(n, p)));
        assert(chain_node(graph.node_map()[chain_name(n, p)], media, filters, p));
    }
    lemma_chain_operations_prefix(ns, graph.preds(), filters, n + 2 as int);
    assert(order.subrange(0, n + 2 as int) =~= order);
    assert(filters.map_values(|f: String| f@).subrange(0, n as int) =~= filters.map_values(|f: String| f@));
}

impl FilterGraph {
    /// A chain of one media kind: a source, one node per filter in order, and
    /// a sink, each connected to the next, validated.
    pub fn linear(media: MediaKind, filters: &[String]) -> (result: Result<Self, GraphError>)
        ensures
            (exists|i: int| 0 <= i < filters@.len() && is_blank(#[trigger] filters@[i]@)) ==> result
                == Err::<FilterGraph, GraphError>(GraphError::EmptyOperation),
            filters_nonblank(filters@) ==> result is Ok,
            result matches Ok(graph) ==> graph.well_formed() && graph.schema() == FILTER_GRAPH_SCHEMA_VERSION
                && graph.validation_error() is None && completable(graph.preds()) && linear_chain(
                graph.node_map(),
                graph.edge_seq(),
                media,
                filters@,
            ),
    {
        let ghost n = filters@.len();
        let mut i: usize = 0;
        while i < filters.len()
            invariant
                0 <= i <= filters@.len(),
                forall|j: int| 0 <= j < i ==> !is_blank(#[trigger] filters@[j]@),
            decreases filters.len() - i,
        {
            if str_is_blank(filters[i].as_str()) {
                return Err(GraphError::EmptyOperation);
            }
            i = i + 1;
        }
        proof {
            lemma_fixed_ids();
            lemma_single_pad_unique(Seq::<Pad>::empty());
        }
        let mut graph = Self::default();
        let source_out = Pad::required("out", media)?;
        let source_outputs = vec![source_out];
        proof {
            lemma_single_pad_unique(source_outputs@);
        }
        let source = FilterNode::new("source", "source", Vec::new(), source_outputs)?;
        proof {
            assert(chain_node(source, media, filters@, 0));
            assert(chain_nodes(graph.node_map(), media, filters@, -1));
            lemma_chain_add_node(graph.node_map(), media, filters@, -1, source);
        }
        graph.add_node(source)?;
        let mut previous = NodeId::new("source")?;
        let mut index: usize = 0;
        while index < filters.len()
            invariant
                0 <= index <= filters@.len(),
                n == filters@.len(),
                forall|j: int| 0 <= j < filters@.len() ==> !is_blank(#[trigger] filters@[j]@),
                graph.well_formed(),
                graph.schema() == FILTER_GRAPH_SCHEMA_VERSION,
                chain_nodes(graph.node_map(), media, filters@, index as int),
                chain_edges(graph.edge_seq(), n, index as int),
                previous@ == chain_name(n, index as int),
            decreases filters.len() - index,
        {
            let name = filter_node_name_text(index);
            proof {
                lemma_fixed_ids();
                lemma_chain_names(n, index + 1, 0);
                assert(name@ == chain_name(n, index + 1));
            }
            let id = NodeId::new(name.as_str())?;
            let input = Pad::required("in", media)?;
            let output = Pad::required("out", media)?;
            let inputs = vec![input];
            let outputs = vec![output];
            proof {
                lemma_single_pad_unique(inputs@);
                lemma_single_pad_unique(outputs@);
                assert(!is_blank(filters@[index as int]@));
            }
            let node = FilterNode::new(id.as_str(), filters[index].as_str(), inputs, outputs)?;
            proof {
                assert(chain_node(node, media, filters@, index + 1));
                lemma_chain_add_node(graph.node_map(), media, filters@, index as int, node);
            }
            graph.add_node(node)?;
            let out_pad = PadId::new("out")?;
            let in_pad = PadId::new("in")?;
            proof {
                let edge = make_edge(previous, out_pad, id, in_pad);
                assert(chain_edge(edge, n, index + 1));
                lemma_chain_connect_allowed(graph.node_map(), graph.edge_seq(), media, filters@, index as int, edge);
            }
            let ghost edges_before = graph.edge_seq();
            graph.connect(&previous, &out_pad, &id, &in_pad)?;
            proof {
                lemma_chain_add_edge(edges_before, graph.edge_seq(), n, index as int, make_edge(previous, out_pad, id, in_pad));
            }
            previous = id;
            index = index + 1;
        }
        let sink = NodeId::new("sink")?;
        let sink_input = Pad::required("in", media)?;
        let sink_inputs = vec![sink_input];
        proof {
            lemma_single_pad_unique(sink_inputs@);
        }
        let sink_node = FilterNode::new(sink.as_str(), "sink", sink_inputs, Vec::new())?;
        proof {
            assert(chain_node(sink_node, media, filters@, n + 1 as int));
            lemma_chain_add_node(graph.node_map(), media, filters@, n as int, sink_node);
        }
        graph.add_node(sink_node)?;
        let out_pad = PadId::new("out")?;
        let in_pad = PadId::new("in")?;
        proof {
            let edge = make_edge(previous, out_pad, sink, in_pad);
            assert(chain_edge(edge, n, n + 1 as int));
            lemma_chain_connect_allowed(graph.node_map(), graph.edge_seq(), media, filters@, n as int, edge);
        }
        let ghost edges_before = graph.edge_seq();
        graph.connect(&previous, &out_pad, &sink, &in_pad)?;
        proof {
            lemma_chain_add_edge(edges_before, graph.edge_seq(), n, n as int, make_edge(previous, out_pad, sink, in_pad));
            graph.lemma_chain_passes_checks(media, filters@);
            graph.lemma_chain_layout(media, filters@);
            lemma_chain_order(graph.node_seq(), graph.preds(), n);
        }
        graph.validate()?;
        Ok(graph)
    }

    /// The operations of the validated graph in dependency order, without
    /// its sources and sinks, joined by commas.
    pub fn ffmpeg_linear_chain(&self) -> (result: Result<String, GraphError>)
        requires
            self.well_formed(),
        ensures
            self.validation_error() is Some ==> result == Err::<String, GraphError>(self.validation_error().unwrap()),
            self.validation_error() is None ==> (result is Ok <==> completable(self.preds())),
            self.validation_error() is None && result is Err ==> result == Err::<String, GraphError>(GraphError::Cycle),
            result matches Ok(text) ==> exists|order: Seq<usize>|
                #![trigger valid_order(self.preds(), order)]
                order.len() == self.node_seq().len() && valid_order(self.preds(), order) && least_first(self.preds(), order)
                    && text@ == join_commas(chain_operations(self.node_seq(), order)),
    {
        let order = match self.validate_order() {
            Ok(order) => order,
            Err(e) => {
                return Err(e);
            },
        };
        let ghost ps = self.preds();
        let mut out: Vec<char> = Vec::new();
        let mut any = false;
        let mut k: usize = 0;
        while k < order.len()
            invariant
                0 <= k <= order@.len(),
                any == (chain_operations(self.nodes@, order@.subrange(0, k as int)).len() > 0),
                order@.len() == self.nodes@.len(),
                ps == self.preds(),
                ps.len() == self.nodes@.len(),
                valid_order(ps, order@),
                out@ == join_commas(chain_operations(self.nodes@, order@.subrange(0, k as int))),
            decreases order.len() - k,
        {
            let ghost before = chain_operations(self.nodes@, order@.subrange(0, k as int));
            assert(order@.subrange(0, k + 1).drop_last() =~= order@.subrange(0, k as int));
            assert(order@[k as int] < ps.len());
            let op = self.nodes[order[k]].operation.as_str();
            if !str_equal(op, "source") && !str_equal(op, "sink") {
                if any {
                    out.push(',');
                }
                push_str(&mut out, op);
                any = true;
                proof {
                    let after = before.push(op@);
                    assert(after.drop_last() =~= before);
                    if before.len() == 0 {
                        assert(out@ =~= join_commas(after));
                    } else {
                        assert(out@ =~= join_commas(after));
                    }
                }
            }
            k = k + 1;
        }
        assert(order@.subrange(0, order@.len() as int) =~= order@);
        Ok(string_of(out.as_slice()))
    }

    /// The validated graph as a DOT document.
    pub fn to_dot(&self) -> (result: Result<String, GraphError>)
        requires
            self.well_formed(),
        ensures
            self.validation_error() is Some ==> result == Err::<String, GraphError>(self.validation_error().unwrap()),
            self.validation_error() is None ==> (result is Ok <==> completable(self.preds())),
            self.validation_error() is None && result is Err ==> result == Err::<String, GraphError>(GraphError::Cycle),
            result matches Ok(text) ==> text@ == dot_text(self.node_seq(), self.edge_seq()),
    {
        match self.validate_order() {
            Ok(_) => {},
            Err(e) => {
                return Err(e);
            },
        }
        let mut out: Vec<char> = Vec::new();
        push_str(&mut out, "digraph filter_graph {");
        let ghost header = out@;
        let mut i: usize = 0;
        while i < self.nodes.len()
            invariant
                0 <= i <= self.nodes@.len(),
                out@ == header + dot_node_lines(self.nodes@.subrange(0, i as int)),
            decreases self.nodes.len() - i,
        {
            let node = &self.nodes[i];
            out.push('\n');
            push_str(&mut out, "  \"");
            push_str(&mut out, node.id.as_str());
            push_str(&mut out, "\" [label=\"");
            let escaped = escape_dot(node.operation.as_str());
            push_str(&mut out, escaped.as_str());
            push_str(&mut out, "\"];");
            assert(self.nodes@.subrange(0, i + 1).drop_last() =~= self.nodes@.subrange(0, i as int));
            assert(out@ =~= header + dot_node_lines(self.nodes@.subrange(0, i + 1)));
            i = i + 1;
        }
        assert(self.nodes@.subrange(0, self.nodes@.len() as int) =~= self.nodes@);
        let ghost with_nodes = out@;
        let mut k: usize = 0;
        while k < self.edges.len()
            invariant
                0 <= k <= self.edges@.len(),
                out@ == with_nodes + dot_edge_lines(self.edges@.subrange(0, k as int)),
            decreases self.edges.len() - k,
        {
            let edge = &self.edges[k];
            out.push('\n');
            push_str(&mut out, "  \"");
            push_str(&mut out, edge.from.node.as_str());
            push_str(&mut out, "\" -> \"");
            push_str(&mut out, edge.to.node.as_str());
            push_str(&mut out, "\" [label=\"");
            push_str(&mut out, edge.from.pad.as_str());
            push_str(&mut out, ":");
            push_str(&mut out, edge.to.pad.as_str());
            push_str(&mut out, "\"];");
            assert(self.edges@.subrange(0, k + 1).drop_last() =~= self.edges@.subrange(0, k as int));
            assert(out@ =~= with_nodes + dot_edge_lines(self.edges@.subrange(0, k + 1)));
            k = k + 1;
        }
        assert(self.edges@.subrange(0, self.edges@.len() as int) =~= self.edges@);
        out.push('\n');
        push_str(&mut out, "}");
        assert(out@ =~= dot_text(self.nodes@, self.edges@));
        Ok(string_of(out.as_slice()))
    }
}

#[derive(Debug, PartialEq, Eq)]
pub enum GraphError {
    InvalidIdentifier(String),
    EmptyOperation,
    DuplicateNode(NodeId),
    NodeKeyMismatch(NodeId),
    DuplicatePad(PadId),
    MissingNode(NodeId),
    MissingInput(Endpoint),
    MissingOutput(Endpoint),
    InputAlreadyConnected(Endpoint),
    RequiredPadUnconnected(Endpoint),
    MediaMismatch { from: MediaKind, to: MediaKind },
    UnsupportedSchema(u32),
    Cycle,
}

/// `ids` are the node ids along `order`, a complete least-first order: what
/// `validate` returns.
pub open spec fn ids_along(graph: FilterGraph, ids: Seq<NodeId>, order: Seq<usize>) -> bool {
    &&& order.len() == graph.node_seq().len()
    &&& valid_order(graph.preds(), order)
    &&& least_first(graph.preds(), order)
    &&& ids.len() == order.len()
    &&& forall|k: int| 0 <= k < order.len() ==> #[trigger] ids[k] == graph.node_seq()[order[k] as int].id
}

/// `text` is the comma-joined chain of operations along `order`, a complete
/// least-first order: what `ffmpeg_linear_chain` returns.
pub open spec fn chain_along(graph: FilterGraph, text: Seq<char>, order: Seq<usize>) -> bool {
    &&& order.len() == graph.node_seq().len()
    &&& valid_order(graph.preds(), order)
    &&& least_first(graph.preds(), order)
    &&& text == join_commas(chain_operations(graph.node_seq(), order))
}

/// The FFmpeg chain follows the order `validate` gives: both come from the
/// one complete least-first order, so the chain is the operations of the
/// validated order, sources and sinks left out, joined by commas.
pub proof fn law_linear_chain_follows_validated_order(
    graph: FilterGraph,
    ids: Seq<NodeId>,
    validated: Seq<usize>,
    text: Seq<char>,
    chained: Seq<usize>,
)
    requires
        ids_along(graph, ids, validated),
        chain_along(graph, text, chained),
    ensures
        validated == chained,
        text == join_commas(chain_operations(graph.node_seq(), validated)),
{
    lemma_least_first_unique(graph.preds(), validated, chained, validated.len() as int);
    assert(validated.subrange(0, validated.len() as int) =~= validated);
    assert(chained.subrange(0, chained.len() as int) =~= chained);
}

proof fn lemma_required_error_from_none(nodes: Seq<FilterNode>, edges: Seq<Edge>, i: int, j: int)
    requires
        required_error_from(nodes, edges, i) is None,
        0 <= i <= j < nodes.len(),
    ensures
        required_error(edges, nodes[j]) is None,
    decreases j - i,
{
    if i < j {
        lemma_required_error_from_none(nodes, edges, i + 1, j);
    }
}

proof fn lemma_inputs_error_from_none(edges: Seq<Edge>, node: NodeId, pads: Seq<Pad>, k: int, m: int)
    requires
        inputs_error_from(edges, node, pads, k) is None,
        0 <= k <= m < pads.len(),
    ensures
        pads[m].required ==> exists|e: int|
            0 <= e < edges.len() && edges[e].to.node@ == node@ && edges[e].to.pad@ == #[trigger] pads[m].id@,
    decreases m - k,
{
    if k < m {
        lemma_inputs_error_from_none(edges, node, pads, k + 1, m);
    } else if pads[m].required {
        assert(input_taken(edges, endpoint_of(node, pads[m])));
        let e = choose|e: int| 0 <= e < edges.len() && same_endpoint(#[trigger] edges[e].to, endpoint_of(node, pads[m]));
        assert(edges[e].to.node@ == node@ && edges[e].to.pad@ == pads[m].id@);
    }
}

proof fn lemma_outputs_error_from_none(edges: Seq<Edge>, node: NodeId, pads: Seq<Pad>, k: int, m: int)
    requires
        outputs_error_from(edges, node, pads, k) is None,
        0 <= k <= m < pads.len(),
    ensures
        pads[m].required ==> exists|e: int|
            0 <= e < edges.len() && edges[e].from.node@ == node@ && edges[e].from.pad@ == #[trigger] pads[m].id@,
    decreases m - k,
{
    if k < m {
        lemma_outputs_error_from_none(edges, node, pads, k + 1, m);
    } else if pads[m].required {
        assert(output_used(edges, endpoint_of(node, pads[m])));
        let e = choose|e: int| 0 <= e < edges.len() && same_endpoint(#[trigger] edges[e].from, endpoint_of(node, pads[m]));
        assert(edges[e].from.node@ == node@ && edges[e].from.pad@ == pads[m].id@);
    }
}

/// A graph that passes validation connects every required pad: each
/// required input pad is the target of some edge, and each required output
/// pad the source of some edge. (So `validate`, which returns `Ok` only when
/// nothing is wrong, refuses a graph with a required pad left open.)
pub proof fn law_valid_graphs_connect_required_pads(graph: FilterGraph)
    requires
        graph.validation_error() is None,
    ensures
        forall|i: int, k: int|
            0 <= i < graph.node_seq().len() && 0 <= k < graph.node_seq()[i].inputs@.len()
                && #[trigger] graph.node_seq()[i].inputs@[k].required ==> exists|e: int|
                0 <= e < graph.edge_seq().len() && graph.edge_seq()[e].to.node@ == graph.node_seq()[i].id@
                    && graph.edge_seq()[e].to.pad@ == graph.node_seq()[i].inputs@[k].id@,
        forall|i: int, k: int|
            0 <= i < graph.node_seq().len() && 0 <= k < graph.node_seq()[i].outputs@.len()
                && #[trigger] graph.node_seq()[i].outputs@[k].required ==> exists|e: int|
                0 <= e < graph.edge_seq().len() && graph.edge_seq()[e].from.node@ == graph.node_seq()[i].id@
                    && graph.edge_seq()[e].from.pad@ == graph.node_seq()[i].outputs@[k].id@,
{
    let nodes = graph.node_seq();
    let edges = graph.edge_seq();
    assert(required_error_from(nodes, edges, 0) is None);
    assert forall|i: int, k: int|
        0 <= i < nodes.len() && 0 <= k < nodes[i].inputs@.len() && #[trigger] nodes[i].inputs@[k].required implies exists|e: int|
        0 <= e < edges.len() && edges[e].to.node@ == nodes[i].id@ && edges[e].to.pad@ == nodes[i].inputs@[k].id@ by {
        lemma_required_error_from_none(nodes, edges, 0, i);
        lemma_inputs_error_from_none(edges, nodes[i].id, nodes[i].inputs@, 0, k);
    }
    assert forall|i: int, k: int|
        0 <= i < nodes.len() && 0 <= k < nodes[i].outputs@.len() && #[trigger] nodes[i].outputs@[k].required implies exists|e: int|
        0 <= e < edges.len() && edges[e].from.node@ == nodes[i].id@ && edges[e].from.pad@ == nodes[i].outputs@[k].id@ by {
        lemma_required_error_from_none(nodes, edges, 0, i);
        lemma_outputs_error_from_none(edges, nodes[i].id, nodes[i].outputs@, 0, k);
    }
}

} // verus!
