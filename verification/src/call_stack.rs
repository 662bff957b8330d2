//! The call stack: every function that was indexed, under its key, with the
//! keys of the functions that it calls.

use crate::call_graph::{child_count, flatten, lemma_flatten_len, CallGraph};
use crate::string_map::{
    lemma_paired_insert, lemma_paired_update, lemma_slot_is, paired, slot, StringMap,
};
use crate::text::{
    ascending, copy_opt_text, copy_texts, lemma_text_lt_irreflexive, opt_text, text_lt, texts,
};
use vstd::prelude::*;

verus! {

/// One function that was indexed.
#[derive(Debug, Clone)]
pub struct CallStackNode {
    /// The path of the file that holds the function.
    pub file_path: String,
    /// The name of the class that encloses the function, if one does.
    pub class_name: Option<String>,
    /// The name of the function.
    pub function_name: String,
    /// The keys of the functions that this one calls, in the order in which
    /// they were added.
    pub children: Vec<String>,
}

/// A node as plain text values.
pub struct NodeView {
    pub file_path: Seq<char>,
    pub class_name: Option<Seq<char>>,
    pub function_name: Seq<char>,
    pub children: Seq<Seq<char>>,
}

impl View for CallStackNode {
    type V = NodeView;

    open spec fn view(&self) -> NodeView {
        NodeView {
            file_path: self.file_path@,
            class_name: opt_text(self.class_name),
            function_name: self.function_name@,
            children: texts(self.children@),
        }
    }
}

/// The views of a sequence of nodes.
pub open spec fn node_views(nodes: Seq<CallStackNode>) -> Seq<NodeView> {
    Seq::new(nodes.len(), |i: int| nodes[i]@)
}

/// `node` with one more child.
pub open spec fn with_child(node: NodeView, child: Seq<char>) -> NodeView {
    NodeView { children: node.children.push(child), ..node }
}

/// A key that is above all of an ascending sequence has its slot at the
/// end, and is not among them.
pub proof fn lemma_slot_at_end(keys: Seq<Seq<char>>, key: Seq<char>)
    requires
        forall|j: int| 0 <= j < keys.len() ==> text_lt(#[trigger] keys[j], key),
    ensures
        slot(keys, key) == keys.len(),
        !keys.contains(key),
{
    lemma_slot_is(keys, key, keys.len() as int);
    lemma_text_lt_irreflexive(key);
}

impl CallStackNode {
    /// A copy of the node.
    pub fn duplicate(&self) -> (copy: CallStackNode)
        ensures
            copy@ == self@,
    {
        CallStackNode {
            file_path: self.file_path.clone(),
            class_name: copy_opt_text(&self.class_name),
            function_name: self.function_name.clone(),
            children: copy_texts(&self.children),
        }
    }
}

/// The functions of a code base, each under its key, in the order of keys.
#[derive(Debug)]
pub struct CallStack {
    nodes: StringMap<CallStackNode>,
}

impl CallStack {
    /// The keys, ascending.
    pub closed spec fn keys(&self) -> Seq<Seq<char>> {
        self.nodes.keys()
    }

    /// The nodes, each at the index of its key.
    pub closed spec fn nodes(&self) -> Seq<NodeView> {
        node_views(self.nodes.values())
    }

    /// The keys ascend.
    pub closed spec fn wf(&self) -> bool {
        self.nodes.wf()
    }

    /// The call stack as a map from keys to nodes.
    pub open spec fn view(&self) -> Map<Seq<char>, NodeView> {
        paired(self.keys(), self.nodes())
    }

    /// There are as many nodes as keys, and in a well-formed call stack the
    /// keys ascend.
    pub proof fn lemma_shape(&self)
        ensures
            self.keys().len() == self.nodes().len(),
            self.wf() ==> ascending(self.keys()),
    {
        self.nodes.lemma_shape();
    }

    /// A call stack without nodes.
    pub fn new() -> (stack: CallStack)
        ensures
            stack.keys() == Seq::<Seq<char>>::empty(),
            stack.nodes() == Seq::<NodeView>::empty(),
            stack@ == Map::<Seq<char>, NodeView>::empty(),
            stack.wf(),
    {
        let stack = CallStack { nodes: StringMap::new() };
        assert(stack.nodes() =~= Seq::<NodeView>::empty());
        assert(stack@ =~= Map::<Seq<char>, NodeView>::empty());
        stack
    }

    /// The number of nodes.
    pub fn len(&self) -> (n: usize)
        ensures
            n == self.keys().len(),
    {
        self.nodes.len()
    }

    /// A copy of the keys, ascending.
    pub fn node_keys(&self) -> (keys: Vec<String>)
        ensures
            texts(keys@) == self.keys(),
    {
        self.nodes.key_list()
    }

    /// Puts `node` under `node_key`, in place of a node that was there.
    pub fn add_node(&mut self, node_key: String, node: CallStackNode)
        ensures
            final(self)@ == old(self)@.insert(node_key@, node@),
            old(self).wf(),
            final(self).wf(),
            old(self).keys().contains(node_key@) ==> {
                &&& final(self).keys() == old(self).keys()
                &&& final(self).nodes() == old(self).nodes().update(
                    slot(old(self).keys(), node_key@),
                    node@,
                )
            },
            !old(self).keys().contains(node_key@) ==> {
                &&& final(self).keys() == old(self).keys().insert(
                    slot(old(self).keys(), node_key@),
                    node_key@,
                )
                &&& final(self).nodes() == old(self).nodes().insert(
                    slot(old(self).keys(), node_key@),
                    node@,
                )
            },
    {
        let ghost keys = self.keys();
        let ghost nodes = self.nodes();
        let ghost s = slot(keys, node_key@);
        let ghost view = node@;
        let ghost key = node_key@;
        let ghost before = self.nodes;
        self.nodes.insert(node_key, node);
        proof {
            before.lemma_shape();
            self.nodes.lemma_shape();
            crate::string_map::lemma_slot(keys, key);
            if keys.contains(key) {
                assert(self.nodes() =~= nodes.update(s, view));
                lemma_paired_update(keys, nodes, s, view);
            } else {
                assert(self.nodes() =~= nodes.insert(s, view));
                lemma_paired_insert(keys, nodes, key, view);
            }
        }
    }

    /// The node under `node_key`.
    pub fn get_node(&self, node_key: &str) -> (r: Option<&CallStackNode>)
        ensures
            r is Some == self@.contains_key(node_key@),
            r matches Some(node) ==> node@ == self@[node_key@],
    {
        proof {
            self.nodes.lemma_shape();
            if self.keys().contains(node_key@) {
                let i = self.keys().index_of(node_key@);
                assert(self.nodes()[i] == self.nodes.values()[i]@);
            }
        }
        self.nodes.get(node_key)
    }

    /// Adds `child_key` to the children of the node under `parent_key`.
    /// Where there is no such node nothing changes.
    pub fn add_child(&mut self, parent_key: &str, child_key: &str)
        ensures
            old(self).wf(),
            final(self).wf(),
            final(self).keys() == old(self).keys(),
            old(self)@.contains_key(parent_key@) ==> {
                &&& final(self)@ == old(self)@.insert(
                    parent_key@,
                    with_child(old(self)@[parent_key@], child_key@),
                )
                &&& final(self).nodes() == old(self).nodes().update(
                    slot(old(self).keys(), parent_key@),
                    with_child(old(self)@[parent_key@], child_key@),
                )
            },
            !old(self)@.contains_key(parent_key@) ==> {
                &&& final(self)@ == old(self)@
                &&& final(self).nodes() == old(self).nodes()
            },
    {
        let ghost keys = self.keys();
        let ghost nodes = self.nodes();
        let (i, found) = self.nodes.position(parent_key);
        proof {
            self.nodes.lemma_shape();
            if found {
                crate::string_map::lemma_index_of(keys, i as int);
            }
        }
        if found {
            let placeholder = CallStackNode {
                file_path: String::new(),
                class_name: None,
                function_name: String::new(),
                children: Vec::new(),
            };
            let mut node = self.nodes.replace_value(i, placeholder);
            let ghost before = node@;
            assert(before == nodes[i as int]);
            let ghost was = texts(node.children@);
            node.children.push(child_key.to_owned());
            assert(texts(node.children@) =~= was.push(child_key@));
            let ghost after = node@;
            let _ = self.nodes.replace_value(i, node);
            proof {
                assert(after == with_child(before, child_key@));
                assert(self.nodes() =~= nodes.update(i as int, after));
                lemma_paired_update(keys, nodes, i as int, after);
                crate::string_map::lemma_index_of(keys, i as int);
            }
        }
    }

    /// The call graph of the call stack: the same nodes under the same
    /// keys, and one edge for each child of each node, from the key of the
    /// node to the child; the edges of a node together, nodes in the order
    /// of their keys, children in their own order.
    pub fn to_call_graph(&self) -> (graph: CallGraph)
        ensures
            self.wf(),
            graph.wf(),
            graph.keys() == self.keys(),
            graph.nodes() == self.nodes(),
            graph.node_map() == self@,
            graph.edges() == flatten(self.keys(), self.nodes(), self.keys().len()),
            graph.edges().len() == child_count(self.nodes(), self.nodes().len()),
    {
        let mut graph = CallGraph::new();
        let n = self.nodes.len();
        proof {
            use_type_invariant(&self.nodes);
            self.nodes.lemma_shape();
        }
        let ghost keys = self.keys();
        let ghost nodes = self.nodes();
        let mut i: usize = 0;
        while i < n
            invariant
                i <= n,
                n == keys.len(),
                n == nodes.len(),
                keys == self.keys(),
                nodes == self.nodes(),
                ascending(keys),
                graph.wf(),
                graph.keys() == keys.take(i as int),
                graph.nodes() == nodes.take(i as int),
                graph.edges() == Seq::<(Seq<char>, Seq<char>)>::empty(),
            decreases n - i,
        {
            let key = self.nodes.key_at(i);
            let node = self.nodes.value_at(i);
            proof {
                let have = keys.take(i as int);
                assert forall|j: int| 0 <= j < have.len() implies text_lt(
                    #[trigger] have[j],
                    key@,
                ) by {
                    assert(have[j] == keys[j]);
                }
                lemma_slot_at_end(have, key@);
            }
            graph.add_node(key.clone(), node.duplicate());
            assert(graph.keys() =~= keys.take(i + 1));
            assert(graph.nodes() =~= nodes.take(i + 1));
            i += 1;
        }
        assert(keys.take(n as int) =~= keys);
        assert(nodes.take(n as int) =~= nodes);
        let mut i: usize = 0;
        while i < n
            invariant
                i <= n,
                n == keys.len(),
                n == nodes.len(),
                keys == self.keys(),
                nodes == self.nodes(),
                graph.wf(),
                graph.keys() == keys,
                graph.nodes() == nodes,
                graph.edges() == flatten(keys, nodes, i as nat),
            decreases n - i,
        {
            let key = self.nodes.key_at(i);
            let node = self.nodes.value_at(i);
            let ghost start = graph.edges();
            let mut j: usize = 0;
            while j < node.children.len()
                invariant
                    j <= node.children@.len(),
                    i < n,
                    n == keys.len(),
                    n == nodes.len(),
                    key@ == keys[i as int],
                    node@ == nodes[i as int],
                    graph.wf(),
                    graph.keys() == keys,
                    graph.nodes() == nodes,
                    graph.edges() == start + crate::call_graph::edges_from(
                        key@,
                        texts(node.children@).take(j as int),
                    ),
                decreases node.children.len() - j,
            {
                graph.add_edge(key.clone(), node.children[j].clone());
                assert(graph.edges() =~= start + crate::call_graph::edges_from(
                    key@,
                    texts(node.children@).take(j + 1),
                ));
                j += 1;
            }
            assert(texts(node.children@).take(j as int) =~= texts(node.children@));
            i += 1;
        }
        proof {
            lemma_flatten_len(keys, nodes, n as nat);
        }
        graph
    }
}

} // verus!
