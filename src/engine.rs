//! A stateful front-end facade: holds a variable map and renders plain
//! nodes in labeled style.
use vstd::prelude::*;
use crate::model::{ContextNode, EngineNode, NodeKind, OutputStyle, Variable};
use crate::render::{render_with_trace, rendered_text};
use crate::vars::{bindings_map, VarMap};

verus! {

/// The map that a list of variables denotes; a later name wins.
pub open spec fn variables_map(vs: Seq<Variable>) -> Map<Seq<char>, Seq<char>> {
    bindings_map(vs.map_values(|v: Variable| (v.name@, v.value@)))
}

/// A plain node as the renderer sees it: a text node.
pub open spec fn as_text_node(n: ContextNode) -> EngineNode {
    EngineNode { id: n.id, label: n.label, kind: NodeKind::Text, content: n.content }
}

pub struct ContextEngine {
    variables: VarMap,
}

impl View for ContextEngine {
    type V = Map<Seq<char>, Seq<char>>;

    closed spec fn view(&self) -> Map<Seq<char>, Seq<char>> {
        self.variables@
    }
}

impl Default for ContextEngine {
    fn default() -> (r: ContextEngine)
        ensures
            r@ == Map::<Seq<char>, Seq<char>>::empty(),
    {
        ContextEngine::new()
    }
}

impl ContextEngine {
    /// An engine with no variables.
    pub fn new() -> (r: ContextEngine)
        ensures
            r@ == Map::<Seq<char>, Seq<char>>::empty(),
    {
        ContextEngine { variables: VarMap::new() }
    }

    /// Replaces every variable by those of `variables`; a later name wins.
    pub fn set_variables(&mut self, variables: Vec<Variable>)
        ensures
            final(self)@ == variables_map(variables@),
    {
        self.variables.clear();
        let ghost vs = variables@;
        let mut k: usize = 0;
        assert(vs.map_values(|v: Variable| (v.name@, v.value@)).subrange(0, 0) =~= seq![]);
        assert(self.variables@ =~= bindings_map(seq![]));
        while k < variables.len()
            invariant
                vs == variables@,
                k <= vs.len(),
                self.variables@ == bindings_map(
                    vs.map_values(|v: Variable| (v.name@, v.value@)).subrange(0, k as int),
                ),
            decreases vs.len() - k,
        {
            let v = &variables[k];
            let ghost pre = vs.map_values(|v: Variable| (v.name@, v.value@)).subrange(0, k as int);
            let ghost post = vs.map_values(|v: Variable| (v.name@, v.value@)).subrange(
                0,
                k + 1,
            );
            self.variables.insert(v.name.clone(), v.value.clone());
            assert(post.drop_last() =~= pre);
            assert(self.variables@ =~= bindings_map(post));
            k = k + 1;
        }
        assert(vs.map_values(|v: Variable| (v.name@, v.value@)).subrange(0, vs.len() as int)
            =~= vs.map_values(|v: Variable| (v.name@, v.value@)));
    }

    /// Renders `nodes` as text nodes in labeled style over the engine's
    /// variables and returns the text.
    pub fn process_context(&self, nodes: Vec<ContextNode>) -> (r: String)
        ensures
            r@ == rendered_text(
                nodes@.map_values(|n: ContextNode| as_text_node(n)),
                self@,
                OutputStyle::Labeled,
            ),
    {
        let mut engine_nodes: Vec<EngineNode> = Vec::new();
        let mut k: usize = 0;
        while k < nodes.len()
            invariant
                k <= nodes@.len(),
                engine_nodes@ == nodes@.map_values(|n: ContextNode| as_text_node(n)).subrange(
                    0,
                    k as int,
                ),
            decreases nodes@.len() - k,
        {
            let n = &nodes[k];
            engine_nodes.push(
                EngineNode {
                    id: n.id.clone(),
                    label: n.label.clone(),
                    kind: NodeKind::Text,
                    content: n.content.clone(),
                },
            );
            assert(engine_nodes@ =~= nodes@.map_values(|n: ContextNode| as_text_node(n)).subrange(
                0,
                k + 1,
            ));
            k = k + 1;
        }
        assert(engine_nodes@ =~= nodes@.map_values(|n: ContextNode| as_text_node(n)));
        let trace = render_with_trace(&engine_nodes, &self.variables, OutputStyle::Labeled, "wasm", "");
        trace.text
    }
}

} // verus!
