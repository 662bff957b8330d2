//! The call graph: the functions of a code base as nodes, with an edge for
//! each call, and what can be read off it.

use crate::call_stack::{node_views, CallStackNode, NodeView};
use crate::json::{
    document_model, pretty_json_text, row_model, rows_model, to_pretty_text, JsonDocument, JsonRow,
};
use crate::string_map::{
    lemma_paired_insert, lemma_paired_update, paired, slot, StringMap,
};
use crate::text::{
    after_last, ascending, last_segment, replace_char, replaced, same_text, texts,
};
use vstd::prelude::*;

verus! {

/// The edges from `key` to each of `children`, in their order.
pub open spec fn edges_from(key: Seq<char>, children: Seq<Seq<char>>) -> Seq<
    (Seq<char>, Seq<char>),
> {
    Seq::new(children.len(), |i: int| (key, children[i]))
}

/// The edges of the first `upto` nodes: for each node, in order, the edges
/// from its key to its children.
pub open spec fn flatten(keys: Seq<Seq<char>>, nodes: Seq<NodeView>, upto: nat) -> Seq<
    (Seq<char>, Seq<char>),
>
    decreases upto,
{
    if upto == 0 || upto > keys.len() || upto > nodes.len() {
        Seq::empty()
    } else {
        flatten(keys, nodes, (upto - 1) as nat) + edges_from(
            keys[upto - 1],
            nodes[upto - 1].children,
        )
    }
}

/// The number of children of the first `upto` nodes, taken together.
pub open spec fn child_count(nodes: Seq<NodeView>, upto: nat) -> nat
    decreases upto,
{
    if upto == 0 || upto > nodes.len() {
        0
    } else {
        child_count(nodes, (upto - 1) as nat) + nodes[upto - 1].children.len()
    }
}

/// Flattening gives as many edges as the nodes have children.
pub proof fn lemma_flatten_len(keys: Seq<Seq<char>>, nodes: Seq<NodeView>, upto: nat)
    requires
        keys.len() == nodes.len(),
    ensures
        flatten(keys, nodes, upto).len() == child_count(nodes, upto),
    decreases upto,
{
    if upto == 0 || upto > nodes.len() {
    } else {
        lemma_flatten_len(keys, nodes, (upto - 1) as nat);
    }
}

/// The texts of a sequence of edges.
pub open spec fn edge_views(edges: Seq<(String, String)>) -> Seq<(Seq<char>, Seq<char>)> {
    Seq::new(edges.len(), |i: int| (edges[i].0@, edges[i].1@))
}

/// A directed graph of functions. Its nodes stand under their keys, in the
/// order of keys; its edges go from the key of a caller to the key of what
/// it calls, which need not be the key of a node.
#[derive(Debug)]
pub struct CallGraph {
    nodes: StringMap<CallStackNode>,
    edges: Vec<(String, String)>,
}

impl CallGraph {
    /// The keys of the nodes, ascending.
    pub closed spec fn keys(&self) -> Seq<Seq<char>> {
        self.nodes.keys()
    }

    /// The nodes, each at the index of its key.
    pub closed spec fn nodes(&self) -> Seq<NodeView> {
        node_views(self.nodes.values())
    }

    /// The edges, in the order in which they were added.
    pub closed spec fn edges(&self) -> Seq<(Seq<char>, Seq<char>)> {
        edge_views(self.edges@)
    }

    /// The keys ascend.
    pub closed spec fn wf(&self) -> bool {
        self.nodes.wf()
    }

    /// The nodes as a map from keys.
    pub open spec fn node_map(&self) -> Map<Seq<char>, NodeView> {
        paired(self.keys(), self.nodes())
    }

    /// There are as many nodes as keys, and in a well-formed graph the keys
    /// ascend.
    pub proof fn lemma_shape(&self)
        ensures
            self.keys().len() == self.nodes().len(),
            self.wf() ==> ascending(self.keys()),
    {
        self.nodes.lemma_shape();
    }

    /// A graph without nodes and edges.
    pub fn new() -> (graph: CallGraph)
        ensures
            graph.keys() == Seq::<Seq<char>>::empty(),
            graph.nodes() == Seq::<NodeView>::empty(),
            graph.edges() == Seq::<(Seq<char>, Seq<char>)>::empty(),
            graph.wf(),
    {
        let graph = CallGraph { nodes: StringMap::new(), edges: Vec::new() };
        assert(graph.nodes() =~= Seq::<NodeView>::empty());
        assert(graph.edges() =~= Seq::<(Seq<char>, Seq<char>)>::empty());
        graph
    }

    /// Puts `node` under `node_key`, in place of a node that was there.
    pub fn add_node(&mut self, node_key: String, node: CallStackNode)
        ensures
            final(self).node_map() == old(self).node_map().insert(node_key@, node@),
            final(self).edges() == old(self).edges(),
            old(self).wf(),
            final(self).wf(),
            old(self).keys().contains(node_key@) ==> {
                &&& final(self).keys() == old(self).keys()
                &&& final(self).nodes() == old(self).nodes().update(
                    slot(old(self).keys(), node_key@),
                    node@,
                )
            },
            !old(self).keys().contains(node_key@) ==> {
                &&& final(self).keys() == old(self).keys().insert(
                    slot(old(self).keys(), node_key@),
                    node_key@,
                )
                &&& final(self).nodes() == old(self).nodes().insert(
                    slot(old(self).keys(), node_key@),
                    node@,
                )
            },
    {
        let ghost keys = self.keys();
        let ghost nodes = self.nodes();
        let ghost s = slot(keys, node_key@);
        let ghost view = node@;
        let ghost key = node_key@;
        let ghost before = self.nodes;
        self.nodes.insert(node_key, node);
        proof {
            before.lemma_shape();
            self.nodes.lemma_shape();
            crate::string_map::lemma_slot(keys, key);
            if keys.contains(key) {
                assert(self.nodes() =~= nodes.update(s, view));
                lemma_paired_update(keys, nodes, s, view);
            } else {
                assert(self.nodes() =~= nodes.insert(s, view));
                lemma_paired_insert(keys, nodes, key, view);
            }
        }
    }

    /// Adds an edge from `from` to `to` behind the edges that are there.
    pub fn add_edge(&mut self, from: String, to: String)
        ensures
            final(self).edges() == old(self).edges().push((from@, to@)),
            final(self).keys() == old(self).keys(),
            final(self).nodes() == old(self).nodes(),
            final(self).wf() == old(self).wf(),
    {
        let ghost before = self.edges();
        let ghost edge = (from@, to@);
        self.edges.push((from, to));
        assert(self.edges() =~= before.push(edge));
    }

    /// A copy of the keys of the nodes, ascending.
    pub fn node_keys(&self) -> (keys: Vec<String>)
        ensures
            texts(keys@) == self.keys(),
    {
        self.nodes.key_list()
    }

    /// The node under `node_key`.
    pub fn get_node(&self, node_key: &str) -> (r: Option<&CallStackNode>)
        ensures
            r is Some == self.node_map().contains_key(node_key@),
            r matches Some(node) ==> node@ == self.node_map()[node_key@],
    {
        proof {
            self.nodes.lemma_shape();
            if self.keys().contains(node_key@) {
                let i = self.keys().index_of(node_key@);
                assert(self.nodes()[i] == self.nodes.values()[i]@);
            }
        }
        self.nodes.get(node_key)
    }

    /// A copy of the edges, in the order in which they were added.
    pub fn edge_list(&self) -> (edges: Vec<(String, String)>)
        ensures
            edge_views(edges@) == self.edges(),
    {
        let mut edges: Vec<(String, String)> = Vec::new();
        let mut i: usize = 0;
        while i < self.edges.len()
            invariant
                i <= self.edges@.len(),
                edges@.len() == i,
                forall|k: int|
                    0 <= k < i ==> (#[trigger] edges@[k]).0@ == self.edges@[k].0@ && edges@[k].1@
                        == self.edges@[k].1@,
            decreases self.edges.len() - i,
        {
            edges.push((self.edges[i].0.clone(), self.edges[i].1.clone()));
            i += 1;
        }
        assert(edge_views(edges@) =~= self.edges());
        edges
    }

    /// The number of nodes.
    pub fn node_count(&self) -> (n: usize)
        ensures
            n == self.keys().len(),
    {
        self.nodes.len()
    }

    /// The number of edges.
    pub fn edge_count(&self) -> (n: usize)
        ensures
            n == self.edges().len(),
    {
        self.edges.len()
    }

    /// The graph in the DOT language of Graphviz: nodes in the order of
    /// their keys, then edges in the order in which they were added.
    pub fn to_graphviz(&self) -> (out: String)
        ensures
            out@ == dot_text(self.keys(), self.nodes(), self.edges()),
    {
        proof {
            self.nodes.lemma_shape();
        }
        let mut out = String::from_str("digraph CallGraph {\n");
        out.append("  rankdir=LR;\n");
        out.append("  node [shape=box];\n");
        let ghost head = out@;
        let n = self.nodes.len();
        let mut i: usize = 0;
        assert(out@ =~= head + dot_nodes(self.keys(), self.nodes(), 0));
        while i < n
            invariant
                i <= n,
                n == self.keys().len(),
                n == self.nodes().len(),
                out@ == head + dot_nodes(self.keys(), self.nodes(), i as nat),
            decreases n - i,
        {
            let key = self.nodes.key_at(i);
            let node = self.nodes.value_at(i);
            assert(self.nodes()[i as int] == node@);
            let line = dot_node(key.as_str(), node);
            out.append(line.as_str());
            assert(out@ =~= head + dot_nodes(self.keys(), self.nodes(), (i + 1) as nat));
            i += 1;
        }
        let ghost body = out@;
        let m = self.edges.len();
        let mut j: usize = 0;
        assert(out@ =~= body + dot_edges(self.edges(), 0));
        while j < m
            invariant
                j <= m,
                m == self.edges().len(),
                m == self.edges@.len(),
                out@ == body + dot_edges(self.edges(), j as nat),
            decreases m - j,
        {
            let line = dot_edge(self.edges[j].0.as_str(), self.edges[j].1.as_str());
            assert(self.edges()[j as int] == (self.edges@[j as int].0@, self.edges@[j as int].1@));
            out.append(line.as_str());
            assert(out@ =~= body + dot_edges(self.edges(), (j + 1) as nat));
            j += 1;
        }
        out.append("}");
        assert(out@ =~= dot_text(self.keys(), self.nodes(), self.edges()));
        out
    }

    /// The graph as a Mermaid diagram: nodes in the order of their keys,
    /// then edges in the order in which they were added, every space in a
    /// key or a label turned into an underscore.
    pub fn to_mermaid(&self) -> (out: String)
        ensures
            out@ == mermaid_text(self.keys(), self.nodes(), self.edges()),
    {
        proof {
            self.nodes.lemma_shape();
        }
        let mut out = String::from_str("graph TD;\n");
        let ghost head = out@;
        let n = self.nodes.len();
        let mut i: usize = 0;
        assert(out@ =~= head + mermaid_nodes(self.keys(), self.nodes(), 0));
        while i < n
            invariant
                i <= n,
                n == self.keys().len(),
                n == self.nodes().len(),
                out@ == head + mermaid_nodes(self.keys(), self.nodes(), i as nat),
            decreases n - i,
        {
            let key = self.nodes.key_at(i);
            let node = self.nodes.value_at(i);
            assert(self.nodes()[i as int] == node@);
            let line = mermaid_node(key.as_str(), node);
            out.append(line.as_str());
            assert(out@ =~= head + mermaid_nodes(self.keys(), self.nodes(), (i + 1) as nat));
            i += 1;
        }
        let ghost body = out@;
        let m = self.edges.len();
        let mut j: usize = 0;
        assert(out@ =~= body + mermaid_edges(self.edges(), 0));
        while j < m
            invariant
                j <= m,
                m == self.edges().len(),
                m == self.edges@.len(),
                out@ == body + mermaid_edges(self.edges(), j as nat),
            decreases m - j,
        {
            let line = mermaid_edge(self.edges[j].0.as_str(), self.edges[j].1.as_str());
            assert(self.edges()[j as int] == (self.edges@[j as int].0@, self.edges@[j as int].1@));
            out.append(line.as_str());
            assert(out@ =~= body + mermaid_edges(self.edges(), (j + 1) as nat));
            j += 1;
        }
        assert(out@ =~= mermaid_text(self.keys(), self.nodes(), self.edges()));
        out
    }

    /// The keys of the nodes that no edge leads to, in the order of keys:
    /// the functions that nothing in the code base calls.
    pub fn get_entry_points(&self) -> (entries: Vec<String>)
        ensures
            texts(entries@) == entry_keys(
                self.keys(),
                self.nodes(),
                self.edges(),
                EntryPolicy::Uncalled,
                self.keys().len(),
            ),
            forall|key: Seq<char>|
                texts(entries@).contains(key) <==> self.keys().contains(key) && !is_target(
                    self.edges(),
                    key,
                ),
            self.wf(),
    {
        let entries = self.entry_points_with(EntryPolicy::Uncalled);
        proof {
            use_type_invariant(&self.nodes);
            self.nodes.lemma_shape();
            lemma_entry_keys(
                self.keys(),
                self.nodes(),
                self.edges(),
                EntryPolicy::Uncalled,
                self.keys().len(),
            );
            assert(self.keys().take(self.keys().len() as int) =~= self.keys());
        }
        entries
    }

    /// The keys of the entry points under `policy`, in the order of keys.
    pub fn entry_points_with(&self, policy: EntryPolicy) -> (entries: Vec<String>)
        ensures
            texts(entries@) == entry_keys(
                self.keys(),
                self.nodes(),
                self.edges(),
                policy,
                self.keys().len(),
            ),
            self.wf(),
    {
        proof {
            use_type_invariant(&self.nodes);
            self.nodes.lemma_shape();
        }
        let mut targets: StringMap<()> = StringMap::new();
        let m = self.edges.len();
        let mut j: usize = 0;
        assert(targets@.dom() =~= targets_upto(self.edges(), 0));
        while j < m
            invariant
                j <= m,
                m == self.edges().len(),
                m == self.edges@.len(),
                targets@.dom() == targets_upto(self.edges(), j as nat),
            decreases m - j,
        {
            assert(self.edges()[j as int].1 == self.edges@[j as int].1@);
            targets.insert(self.edges[j].1.clone(), ());
            assert(targets@.dom() =~= targets_upto(self.edges(), (j + 1) as nat));
            j += 1;
        }
        proof {
            assert forall|key: Seq<char>| targets@.contains_key(key) == is_target(
                self.edges(),
                key,
            ) by {
                lemma_targets(self.edges(), m as nat, key);
                assert(self.edges().take(m as int) =~= self.edges());
            }
        }
        let mut entries: Vec<String> = Vec::new();
        let n = self.nodes.len();
        let mut i: usize = 0;
        assert(texts(entries@) =~= entry_keys(self.keys(), self.nodes(), self.edges(), policy, 0));
        while i < n
            invariant
                i <= n,
                n == self.keys().len(),
                n == self.nodes().len(),
                forall|key: Seq<char>|
                    targets@.contains_key(key) == is_target(self.edges(), key),
                texts(entries@) == entry_keys(
                    self.keys(),
                    self.nodes(),
                    self.edges(),
                    policy,
                    i as nat,
                ),
            decreases n - i,
        {
            let key = self.nodes.key_at(i);
            let node = self.nodes.value_at(i);
            assert(self.nodes()[i as int] == node@);
            let entry = !targets.contains_key(key.as_str()) || (policy == EntryPolicy::UncalledOrMain
                && same_text(node.function_name.as_str(), "main"));
            let ghost before = texts(entries@);
            if entry {
                entries.push(key.clone());
                assert(texts(entries@) =~= before.push(key@));
            }
            i += 1;
        }
        entries
    }

    /// The graph as a JSON document: under `nodes` one object for each
    /// node, with its key as `id` and its label as `label`, in the order of
    /// keys; under `edges` one object for each edge, with its ends as
    /// `from` and `to`, in the order in which the edges were added.
    pub fn flowchart_document(&self) -> (document: JsonDocument)
        ensures
            document_model(document@) == flowchart_model(
                self.keys(),
                self.nodes(),
                self.edges(),
            ),
    {
        proof {
            self.nodes.lemma_shape();
        }
        let mut nodes: Vec<JsonRow> = Vec::new();
        let n = self.nodes.len();
        let mut i: usize = 0;
        while i < n
            invariant
                i <= n,
                n == self.keys().len(),
                n == self.nodes().len(),
                nodes@.len() == i,
                forall|k: int|
                    0 <= k < i ==> row_model(#[trigger] nodes@[k]) == flow_node_model(
                        self.keys()[k],
                        self.nodes()[k],
                    ),
            decreases n - i,
        {
            let key = self.nodes.key_at(i);
            let node = self.nodes.value_at(i);
            assert(self.nodes()[i as int] == node@);
            nodes.push(pair_row("id", key.clone(), "label", label_of(node)));
            i += 1;
        }
        let mut edges: Vec<JsonRow> = Vec::new();
        let m = self.edges.len();
        let mut j: usize = 0;
        while j < m
            invariant
                j <= m,
                m == self.edges().len(),
                m == self.edges@.len(),
                edges@.len() == j,
                forall|k: int|
                    0 <= k < j ==> row_model(#[trigger] edges@[k]) == flow_edge_model(
                        self.edges()[k],
                    ),
            decreases m - j,
        {
            assert(self.edges()[j as int] == (self.edges@[j as int].0@, self.edges@[j as int].1@));
            edges.push(pair_row("from", self.edges[j].0.clone(), "to", self.edges[j].1.clone()));
            j += 1;
        }
        assert(rows_model(nodes@) =~= flow_nodes(self.keys(), self.nodes()));
        assert(rows_model(edges@) =~= flow_edges(self.edges()));
        let mut document: JsonDocument = Vec::new();
        document.push((String::from_str("nodes"), nodes));
        document.push((String::from_str("edges"), edges));
        assert(document_model(document@) =~= flowchart_model(
            self.keys(),
            self.nodes(),
            self.edges(),
        ));
        document
    }

    /// The graph as pretty-printed JSON text: what serde_json prints for
    /// the document of `flowchart_document`.
    pub fn to_json_flowchart(&self) -> (out: String)
        ensures
            out@ == pretty_json_text(flowchart_model(self.keys(), self.nodes(), self.edges())),
    {
        let document = self.flowchart_document();
        to_pretty_text(&document)
    }
}

/// The JSON object with two members that hold texts.
pub open spec fn pair_model(
    first_key: Seq<char>,
    first: Seq<char>,
    second_key: Seq<char>,
    second: Seq<char>,
) -> Seq<(Seq<char>, Seq<char>)> {
    seq![(first_key, first), (second_key, second)]
}

/// The JSON object of a node.
pub open spec fn flow_node_model(key: Seq<char>, node: NodeView) -> Seq<(Seq<char>, Seq<char>)> {
    pair_model("id"@, key, "label"@, node_label(node))
}

/// The JSON object of an edge.
pub open spec fn flow_edge_model(edge: (Seq<char>, Seq<char>)) -> Seq<(Seq<char>, Seq<char>)> {
    pair_model("from"@, edge.0, "to"@, edge.1)
}

/// The JSON objects of the nodes, in the order of keys.
pub open spec fn flow_nodes(keys: Seq<Seq<char>>, nodes: Seq<NodeView>) -> Seq<
    Seq<(Seq<char>, Seq<char>)>,
> {
    Seq::new(keys.len(), |i: int| flow_node_model(keys[i], nodes[i]))
}

/// The JSON objects of the edges, in their order.
pub open spec fn flow_edges(edges: Seq<(Seq<char>, Seq<char>)>) -> Seq<
    Seq<(Seq<char>, Seq<char>)>,
> {
    Seq::new(edges.len(), |i: int| flow_edge_model(edges[i]))
}

/// A graph as a JSON document.
pub open spec fn flowchart_model(
    keys: Seq<Seq<char>>,
    nodes: Seq<NodeView>,
    edges: Seq<(Seq<char>, Seq<char>)>,
) -> Seq<(Seq<char>, Seq<Seq<(Seq<char>, Seq<char>)>>)> {
    seq![("nodes"@, flow_nodes(keys, nodes)), ("edges"@, flow_edges(edges))]
}

/// The JSON object with two members that hold texts.
fn pair_row(first_key: &str, first: String, second_key: &str, second: String) -> (row: JsonRow)
    ensures
        row_model(row) == pair_model(first_key@, first@, second_key@, second@),
{
    let mut row: JsonRow = Vec::new();
    row.push((first_key.to_owned(), first));
    row.push((second_key.to_owned(), second));
    assert(row_model(row) =~= pair_model(first_key@, first@, second_key@, second@));
    row
}

/// Which nodes count as entry points.
#[derive(Debug, Clone, Copy, PartialEq, Eq, Structural)]
pub enum EntryPolicy {
    /// The nodes that no edge leads to.
    Uncalled,
    /// The nodes that no edge leads to, and every node whose function is
    /// named `main`, called or not.
    UncalledOrMain,
}

/// Whether an edge leads to `key`.
pub open spec fn is_target(edges: Seq<(Seq<char>, Seq<char>)>, key: Seq<char>) -> bool {
    exists|i: int| 0 <= i < edges.len() && (#[trigger] edges[i]).1 == key
}

/// The keys that the first `upto` edges lead to.
pub open spec fn targets_upto(edges: Seq<(Seq<char>, Seq<char>)>, upto: nat) -> Set<Seq<char>>
    decreases upto,
{
    if upto == 0 || upto > edges.len() {
        Set::empty()
    } else {
        targets_upto(edges, (upto - 1) as nat).insert(edges[upto - 1].1)
    }
}

/// `targets_upto` holds the keys that one of the first `upto` edges leads
/// to.
pub proof fn lemma_targets(edges: Seq<(Seq<char>, Seq<char>)>, upto: nat, key: Seq<char>)
    requires
        upto <= edges.len(),
    ensures
        targets_upto(edges, upto).contains(key) == is_target(edges.take(upto as int), key),
    decreases upto,
{
    let front = edges.take(upto as int);
    if upto > 0 {
        lemma_targets(edges, (upto - 1) as nat, key);
        let less = edges.take(upto - 1);
        if is_target(less, key) {
            let w = choose|i: int| 0 <= i < less.len() && (#[trigger] less[i]).1 == key;
            assert(front[w].1 == key);
        }
        if edges[upto - 1].1 == key {
            assert(front[upto - 1].1 == key);
        }
        if is_target(front, key) {
            let w = choose|i: int| 0 <= i < front.len() && (#[trigger] front[i]).1 == key;
            if w < upto - 1 {
                assert(less[w].1 == key);
            }
        }
    }
}

/// Whether the node `node` under `key` is an entry point.
pub open spec fn is_entry(
    key: Seq<char>,
    node: NodeView,
    edges: Seq<(Seq<char>, Seq<char>)>,
    policy: EntryPolicy,
) -> bool {
    !is_target(edges, key) || (policy == EntryPolicy::UncalledOrMain && node.function_name
        == "main"@)
}

/// The keys of the entry points among the first `upto` nodes, in order.
pub open spec fn entry_keys(
    keys: Seq<Seq<char>>,
    nodes: Seq<NodeView>,
    edges: Seq<(Seq<char>, Seq<char>)>,
    policy: EntryPolicy,
    upto: nat,
) -> Seq<Seq<char>>
    decreases upto,
{
    if upto == 0 || upto > keys.len() || upto > nodes.len() {
        Seq::empty()
    } else {
        let less = entry_keys(keys, nodes, edges, policy, (upto - 1) as nat);
        if is_entry(keys[upto - 1], nodes[upto - 1], edges, policy) {
            less.push(keys[upto - 1])
        } else {
            less
        }
    }
}

/// A key is among the entry points exactly if it is the key of a node that
/// is an entry point. Where only uncalled nodes count, that is: exactly if
/// it is the key of a node and no edge leads to it.
pub proof fn lemma_entry_keys(
    keys: Seq<Seq<char>>,
    nodes: Seq<NodeView>,
    edges: Seq<(Seq<char>, Seq<char>)>,
    policy: EntryPolicy,
    upto: nat,
)
    requires
        upto <= keys.len(),
        keys.len() == nodes.len(),
    ensures
        forall|key: Seq<char>|
            entry_keys(keys, nodes, edges, policy, upto).contains(key) <==> exists|i: int|
                0 <= i < upto && #[trigger] keys[i] == key && is_entry(
                    keys[i],
                    nodes[i],
                    edges,
                    policy,
                ),
        policy == EntryPolicy::Uncalled ==> forall|key: Seq<char>|
            entry_keys(keys, nodes, edges, policy, upto).contains(key) <==> keys.take(
                upto as int,
            ).contains(key) && !is_target(edges, key),
    decreases upto,
{
    let all = entry_keys(keys, nodes, edges, policy, upto);
    if upto > 0 {
        let less = entry_keys(keys, nodes, edges, policy, (upto - 1) as nat);
        lemma_entry_keys(keys, nodes, edges, policy, (upto - 1) as nat);
        let last = keys[upto - 1];
        let counts = is_entry(last, nodes[upto - 1], edges, policy);
        assert forall|key: Seq<char>| all.contains(key) <==> exists|i: int|
            0 <= i < upto && #[trigger] keys[i] == key && is_entry(
                keys[i],
                nodes[i],
                edges,
                policy,
            ) by {
            if all.contains(key) {
                let w = choose|w: int| 0 <= w < all.len() && all[w] == key;
                if counts && w == all.len() - 1 {
                    assert(keys[upto - 1] == key);
                } else {
                    assert(less[w] == key);
                    assert(less.contains(key));
                }
            }
            if exists|i: int|
                0 <= i < upto && #[trigger] keys[i] == key && is_entry(
                    keys[i],
                    nodes[i],
                    edges,
                    policy,
                ) {
                let i = choose|i: int|
                    0 <= i < upto && #[trigger] keys[i] == key && is_entry(
                        keys[i],
                        nodes[i],
                        edges,
                        policy,
                    );
                if i == upto - 1 {
                    assert(all[all.len() - 1] == key);
                } else {
                    assert(less.contains(key));
                    let w = choose|w: int| 0 <= w < less.len() && less[w] == key;
                    assert(all[w] == key);
                }
            }
        }
    }
    if policy == EntryPolicy::Uncalled {
        let front = keys.take(upto as int);
        assert forall|key: Seq<char>| all.contains(key) <==> front.contains(key) && !is_target(
            edges,
            key,
        ) by {
            if all.contains(key) {
                let i = choose|i: int|
                    0 <= i < upto && #[trigger] keys[i] == key && is_entry(
                        keys[i],
                        nodes[i],
                        edges,
                        policy,
                    );
                assert(front[i] == key);
            }
            if front.contains(key) && !is_target(edges, key) {
                let w = choose|w: int| 0 <= w < front.len() && front[w] == key;
                assert(keys[w] == key);
            }
        }
    }
}

/// The last segment of a path: what follows its last `/`.
pub open spec fn file_name(path: Seq<char>) -> Seq<char> {
    after_last(path, '/')
}

/// The label of a node: the name of its file, then its class if it has one,
/// then its function, with `::` between them.
pub open spec fn node_label(node: NodeView) -> Seq<char> {
    match node.class_name {
        Some(class) => file_name(node.file_path) + "::"@ + class + "::"@ + node.function_name,
        None => file_name(node.file_path) + "::"@ + node.function_name,
    }
}

/// The line of a node in DOT.
pub open spec fn dot_node_line(key: Seq<char>, node: NodeView) -> Seq<char> {
    "  \""@ + key + "\" [label=\""@ + node_label(node) + "\"];\n"@
}

/// The line of an edge in DOT.
pub open spec fn dot_edge_line(edge: (Seq<char>, Seq<char>)) -> Seq<char> {
    "  \""@ + edge.0 + "\" -> \""@ + edge.1 + "\";\n"@
}

/// The lines of the first `upto` nodes in DOT.
pub open spec fn dot_nodes(keys: Seq<Seq<char>>, nodes: Seq<NodeView>, upto: nat) -> Seq<char>
    decreases upto,
{
    if upto == 0 || upto > keys.len() || upto > nodes.len() {
        Seq::empty()
    } else {
        dot_nodes(keys, nodes, (upto - 1) as nat) + dot_node_line(keys[upto - 1], nodes[upto - 1])
    }
}

/// The lines of the first `upto` edges in DOT.
pub open spec fn dot_edges(edges: Seq<(Seq<char>, Seq<char>)>, upto: nat) -> Seq<char>
    decreases upto,
{
    if upto == 0 || upto > edges.len() {
        Seq::empty()
    } else {
        dot_edges(edges, (upto - 1) as nat) + dot_edge_line(edges[upto - 1])
    }
}

/// A graph in DOT.
pub open spec fn dot_text(
    keys: Seq<Seq<char>>,
    nodes: Seq<NodeView>,
    edges: Seq<(Seq<char>, Seq<char>)>,
) -> Seq<char> {
    "digraph CallGraph {\n"@ + "  rankdir=LR;\n"@ + "  node [shape=box];\n"@ + dot_nodes(
        keys,
        nodes,
        keys.len(),
    ) + dot_edges(edges, edges.len()) + "}"@
}

/// A text fit for Mermaid: every space turned into an underscore.
pub open spec fn sanitized(text: Seq<char>) -> Seq<char> {
    replaced(text, ' ', '_')
}

/// Whether two texts are the same but for places where one has a space
/// and the other an underscore.
pub open spec fn same_but_underscores(a: Seq<char>, b: Seq<char>) -> bool {
    &&& a.len() == b.len()
    &&& forall|i: int|
        0 <= i < a.len() ==> #[trigger] a[i] == b[i] || (a[i] == ' ' && b[i] == '_') || (a[i] == '_'
            && b[i] == ' ')
}

/// Two texts come out of sanitizing as the same text exactly if they are
/// the same but for spaces against underscores.
pub proof fn lemma_sanitized_equal(a: Seq<char>, b: Seq<char>)
    ensures
        sanitized(a) == sanitized(b) <==> same_but_underscores(a, b),
{
    if sanitized(a) == sanitized(b) {
        assert(a.len() == sanitized(a).len());
        assert(b.len() == sanitized(b).len());
        assert forall|i: int| 0 <= i < a.len() implies #[trigger] a[i] == b[i] || (a[i] == ' '
            && b[i] == '_') || (a[i] == '_' && b[i] == ' ') by {
            assert(sanitized(a)[i] == sanitized(b)[i]);
        }
    }
    if same_but_underscores(a, b) {
        assert(sanitized(a) =~= sanitized(b));
    }
}

/// Sanitizing keeps different keys apart, as long as no place sets a space
/// in one against an underscore in the other. Keys without underscores are
/// always kept apart.
pub proof fn lemma_sanitized_distinct(a: Seq<char>, b: Seq<char>)
    requires
        a != b,
        a.len() == b.len() ==> forall|i: int|
            0 <= i < a.len() ==> !(#[trigger] a[i] == ' ' && b[i] == '_') && !(a[i] == '_' && b[i]
                == ' '),
    ensures
        sanitized(a) != sanitized(b),
{
    lemma_sanitized_equal(a, b);
    if same_but_underscores(a, b) {
        assert(a =~= b);
    }
}

/// The line of a node in Mermaid.
pub open spec fn mermaid_node_line(key: Seq<char>, node: NodeView) -> Seq<char> {
    "  "@ + sanitized(key) + "[\""@ + sanitized(node_label(node)) + "\"];\n"@
}

/// The line of an edge in Mermaid.
pub open spec fn mermaid_edge_line(edge: (Seq<char>, Seq<char>)) -> Seq<char> {
    "  "@ + sanitized(edge.0) + " --> "@ + sanitized(edge.1) + ";\n"@
}

/// The lines of the first `upto` nodes in Mermaid.
pub open spec fn mermaid_nodes(keys: Seq<Seq<char>>, nodes: Seq<NodeView>, upto: nat) -> Seq<char>
    decreases upto,
{
    if upto == 0 || upto > keys.len() || upto > nodes.len() {
        Seq::empty()
    } else {
        mermaid_nodes(keys, nodes, (upto - 1) as nat) + mermaid_node_line(
            keys[upto - 1],
            nodes[upto - 1],
        )
    }
}

/// The lines of the first `upto` edges in Mermaid.
pub open spec fn mermaid_edges(edges: Seq<(Seq<char>, Seq<char>)>, upto: nat) -> Seq<char>
    decreases upto,
{
    if upto == 0 || upto > edges.len() {
        Seq::empty()
    } else {
        mermaid_edges(edges, (upto - 1) as nat) + mermaid_edge_line(edges[upto - 1])
    }
}

/// A graph as a Mermaid diagram.
pub open spec fn mermaid_text(
    keys: Seq<Seq<char>>,
    nodes: Seq<NodeView>,
    edges: Seq<(Seq<char>, Seq<char>)>,
) -> Seq<char> {
    "graph TD;\n"@ + mermaid_nodes(keys, nodes, keys.len()) + mermaid_edges(edges, edges.len())
}

/// The label of a node.
pub fn label_of(node: &CallStackNode) -> (label: String)
    ensures
        label@ == node_label(node@),
{
    let mut label = String::from_str(last_segment(node.file_path.as_str(), '/'));
    label.append("::");
    match &node.class_name {
        Some(class) => {
            label.append(class.as_str());
            label.append("::");
        },
        None => {},
    }
    label.append(node.function_name.as_str());
    assert(label@ =~= node_label(node@));
    label
}

/// The line of a node in DOT.
fn dot_node(key: &str, node: &CallStackNode) -> (line: String)
    ensures
        line@ == dot_node_line(key@, node@),
{
    let label = label_of(node);
    let mut line = String::from_str("  \"");
    line.append(key);
    line.append("\" [label=\"");
    line.append(label.as_str());
    line.append("\"];\n");
    line
}

/// The line of an edge in DOT.
fn dot_edge(from: &str, to: &str) -> (line: String)
    ensures
        line@ == dot_edge_line((from@, to@)),
{
    let mut line = String::from_str("  \"");
    line.append(from);
    line.append("\" -> \"");
    line.append(to);
    line.append("\";\n");
    line
}

/// A copy of `text` with every space turned into an underscore.
pub fn sanitize(text: &str) -> (r: String)
    ensures
        r@ == sanitized(text@),
{
    replace_char(text, ' ', '_')
}

/// The line of a node in Mermaid.
fn mermaid_node(key: &str, node: &CallStackNode) -> (line: String)
    ensures
        line@ == mermaid_node_line(key@, node@),
{
    let label = label_of(node);
    let mut line = String::from_str("  ");
    line.append(sanitize(key).as_str());
    line.append("[\"");
    line.append(sanitize(label.as_str()).as_str());
    line.append("\"];\n");
    line
}

/// The line of an edge in Mermaid.
fn mermaid_edge(from: &str, to: &str) -> (line: String)
    ensures
        line@ == mermaid_edge_line((from@, to@)),
{
    let mut line = String::from_str("  ");
    line.append(sanitize(from).as_str());
    line.append(" --> ");
    line.append(sanitize(to).as_str());
    line.append(";\n");
    line
}

} // verus!
