//! The SMT-LIB2 backend: an append-only expression graph, its rendering as
//! SMT-LIB2 commands, and the reading of a solver's answers.

use crate::backends::backend::is_function;
use crate::backends::backend::Logic;
use crate::backends::backend::Render;
use crate::backends::backend::SMTNode;
use crate::backends::graph::edges_at;
use crate::backends::graph::edges_upto;
use crate::backends::graph::graph_add_edge;
use crate::backends::graph::graph_add_node;
use crate::backends::graph::graph_edge_count;
use crate::backends::graph::graph_edges;
use crate::backends::graph::graph_edges_directed;
use crate::backends::graph::graph_new;
use crate::backends::graph::graph_node_count;
use crate::backends::graph::lemma_edges_upto_agree;
use crate::backends::graph::lemma_incoming;
use crate::backends::graph::lemma_outgoing;
use crate::backends::graph::lemma_sorted_row;
use crate::backends::graph::row_edges;
use crate::backends::graph::sort_by_position;
use crate::backends::graph::touches;
use crate::backends::graph::Edge;
use crate::backends::graph::EdgeDirection;
use crate::backends::graph::EdgeGraph;
use crate::backends::text::decimal;
use crate::backends::text::decimal_string;
use crate::backends::text::lemma_decimal_injective;
use crate::backends::text::same_text;
use std::collections::HashMap;
use vstd::prelude::*;
use vstd::string::StringExecFns;

verus! {

/// What an edge of the expression graph carries.
#[derive(Clone, Copy, Debug)]
pub enum EdgeData {
    /// The position of the edge's target among the operands of its source.
    EdgeOrder(usize),
}

impl EdgeData {
    /// The operand position that the edge carries.
    pub open spec fn position(self) -> usize {
        match self {
            EdgeData::EdgeOrder(i) => i,
        }
    }

    /// The operand position that the edge carries.
    pub fn order(&self) -> (i: usize)
        ensures
            i == self.position(),
    {
        match self {
            EdgeData::EdgeOrder(i) => *i,
        }
    }
}

/// A registered variable: its name, the handle of its node and its sort.
pub struct Binding<S> {
    pub name: Seq<char>,
    pub node: usize,
    pub sort: S,
}

/// The last entry of `registry` that is called `name`, if there is one.
pub open spec fn find<S>(registry: Seq<Binding<S>>, name: Seq<char>) -> Option<int>
    decreases registry.len(),
{
    if registry.len() == 0 {
        None
    } else if registry.last().name == name {
        Some(registry.len() - 1)
    } else {
        find(registry.drop_last(), name)
    }
}

/// `registry` with `entry` registered: it takes the place of the entry of
/// the same name, or comes last where there is none.
pub open spec fn bind<S>(registry: Seq<Binding<S>>, entry: Binding<S>) -> Seq<Binding<S>> {
    match find(registry, entry.name) {
        Some(i) => registry.update(i, entry),
        None => registry.push(entry),
    }
}

/// No two entries of `registry` have the same name.
pub open spec fn distinct_names<S>(registry: Seq<Binding<S>>) -> bool {
    forall|i: int, j: int|
        0 <= i < j < registry.len() ==> (#[trigger] registry[i]).name != (
        #[trigger] registry[j]).name
}

/// The name that the `n`-th anonymous variable of a session gets.
pub open spec fn default_name(n: nat) -> Seq<char> {
    "X_"@ + decimal(n)
}

/// The mathematical content of an expression store.
pub struct Problem<L: Logic> {
    /// The logic that the session was opened with.
    pub logic: Option<L>,
    /// The nodes, each at the index that is its handle.
    pub nodes: Seq<L::Fns>,
    /// For each node the handles of its operands, in operand order.
    pub operands: Seq<Seq<usize>>,
    /// How many anonymous variables were named so far.
    pub counter: nat,
    /// The registered variables, by the order in which their names first
    /// came.
    pub registry: Seq<Binding<L::Sorts>>,
    /// For each variable node the name it was created with.
    pub names: Map<usize, Seq<char>>,
}

impl<L: Logic> Problem<L> {
    /// The store of a fresh session.
    pub open spec fn empty(logic: Option<L>) -> Self {
        Problem {
            logic,
            nodes: Seq::empty(),
            operands: Seq::empty(),
            counter: 0,
            registry: Seq::empty(),
            names: Map::empty(),
        }
    }

    /// Every node has its list of operands, each operand is an older node,
    /// and every registered name is that of a node, once.
    pub open spec fn valid(self) -> bool {
        &&& self.operands.len() == self.nodes.len()
        &&& forall|n: int, i: int|
            0 <= n < self.operands.len() && 0 <= i < self.operands[n].len()
                ==> #[trigger] self.operands[n][i] < n
        &&& forall|i: int|
            0 <= i < self.registry.len() ==> (#[trigger] self.registry[i]).node < self.nodes.len()
        &&& distinct_names(self.registry)
        &&& forall|h: usize| self.names.contains_key(h) ==> h < self.nodes.len()
        &&& self.counter <= self.nodes.len()
    }

    /// The number of operand edges.
    pub open spec fn edge_count(self) -> nat {
        edges_upto(self.operands, self.operands.len(), 0).len()
    }

    /// The handle registered under `name`.
    pub open spec fn handle_of(self, name: Seq<char>) -> Option<usize> {
        match find(self.registry, name) {
            Some(i) => Some(self.registry[i].node),
            None => None,
        }
    }

    /// The store with `node` added as a leaf.
    pub open spec fn with_node(self, node: L::Fns) -> Self {
        Problem {
            nodes: self.nodes.push(node),
            operands: self.operands.push(Seq::empty()),
            ..self
        }
    }

    /// The store with `node` added and `ops` as its operands.
    pub open spec fn with_application(self, node: L::Fns, ops: Seq<usize>) -> Self {
        Problem { nodes: self.nodes.push(node), operands: self.operands.push(ops), ..self }
    }

    /// The name that a new variable gets: the one asked for, or the next
    /// default name.
    pub open spec fn var_label(self, asked: Option<Seq<char>>) -> Seq<char> {
        match asked {
            Some(name) => name,
            None => default_name(self.counter + 1),
        }
    }

    /// The store with `node` added as the variable that `asked` and `sort`
    /// describe, and registered under its name.
    pub open spec fn with_var(self, asked: Option<Seq<char>>, sort: L::Sorts, node: L::Fns) -> Self {
        let handle = self.nodes.len() as usize;
        let name = self.var_label(asked);
        Problem {
            logic: self.logic,
            nodes: self.nodes.push(node),
            operands: self.operands.push(Seq::empty()),
            counter: if asked is None {
                self.counter + 1
            } else {
                self.counter
            },
            registry: bind(self.registry, Binding { name, node: handle, sort }),
            names: self.names.insert(handle, name),
        }
    }

    /// The text of the first `k` operands of node `h`, each behind a space.
    pub open spec fn operand_text(self, h: int, k: nat) -> Seq<char>
        decreases h, 0int, k,
    {
        if 0 <= h < self.operands.len() && 0 < k <= self.operands[h].len() {
            let child = self.operands[h][k - 1];
            self.operand_text(h, (k - 1) as nat) + " "@ + if child < h {
                self.expansion(child as int)
            } else {
                Seq::empty()
            }
        } else {
            Seq::empty()
        }
    }

    /// Node `h` in prefix notation: a function node stands in parentheses
    /// with its operands behind it, in operand order; any other node is its
    /// rendering alone.
    pub open spec fn expansion(self, h: int) -> Seq<char>
        decreases h, 1int, 0nat,
    {
        if 0 <= h < self.nodes.len() && h < self.operands.len() {
            if is_function(self.nodes[h]) {
                "("@ + self.nodes[h].rendering() + self.operand_text(h, self.operands[h].len())
                    + ")"@
            } else {
                self.nodes[h].rendering()
            }
        } else {
            Seq::empty()
        }
    }

    /// Node `h` is the operand of no node.
    pub open spec fn root(self, h: int) -> bool {
        forall|n: int, i: int|
            0 <= n < self.operands.len() && 0 <= i < self.operands[n].len()
                ==> #[trigger] self.operands[n][i] != h
    }

    /// The declaration of `entry`, where its node is a variable.
    pub open spec fn declaration(self, entry: Binding<L::Sorts>) -> Seq<char> {
        if entry.node < self.nodes.len() && self.nodes[entry.node as int].var() {
            "(declare-fun "@ + entry.name + " () "@ + entry.sort.rendering() + ")\n"@
        } else {
            Seq::empty()
        }
    }

    /// The declarations of the first `k` registered variables.
    pub open spec fn declarations(self, k: nat) -> Seq<char>
        decreases k,
    {
        if 0 < k <= self.registry.len() {
            self.declarations((k - 1) as nat) + self.declaration(self.registry[k - 1])
        } else {
            Seq::empty()
        }
    }

    /// Node `h` is asserted: a boolean function node that is a root.
    pub open spec fn asserted(self, h: int) -> bool {
        &&& 0 <= h < self.nodes.len()
        &&& self.root(h)
        &&& is_function(self.nodes[h])
        &&& self.nodes[h].boolean()
    }

    /// The assertion of node `h`, where it is asserted.
    pub open spec fn assertion(self, h: int) -> Seq<char> {
        if self.asserted(h) {
            "(assert "@ + self.expansion(h) + ")\n"@
        } else {
            Seq::empty()
        }
    }

    /// The assertions among the first `k` nodes, by ascending handle.
    pub open spec fn assertions(self, k: nat) -> Seq<char>
        decreases k,
    {
        if 0 < k <= self.nodes.len() {
            self.assertions((k - 1) as nat) + self.assertion(k - 1)
        } else {
            Seq::empty()
        }
    }

    /// The whole problem as SMT-LIB2 text: one declaration for each
    /// registered variable, then one assertion for each asserted node.
    pub open spec fn script(self) -> Seq<char> {
        self.declarations(self.registry.len()) + self.assertions(self.nodes.len())
    }

    /// The command that selects the logic, if one was configured.
    pub open spec fn logic_command(self) -> Option<Seq<char>> {
        match self.logic {
            Some(logic) => Some("(set-logic "@ + logic.rendering() + ")\n"@),
            None => None,
        }
    }
}

/// A registry entry as the store keeps it.
pub struct VarEntry<S> {
    name: String,
    node: usize,
    sort: S,
}

impl<S> VarEntry<S> {
    /// The entry as a mathematical value.
    pub closed spec fn binding(self) -> Binding<S> {
        Binding { name: self.name@, node: self.node, sort: self.sort }
    }
}

/// An expression store for one solving session: an append-only graph of
/// nodes with ordered operands, and the registry of its variables.
pub struct SMTLib2<L: Logic> {
    logic: Option<L>,
    nodes: Vec<L::Fns>,
    gr: EdgeGraph,
    operands: Ghost<Seq<Seq<usize>>>,
    var_index: usize,
    var_map: Vec<VarEntry<L::Sorts>>,
    idx_map: HashMap<usize, String>,
}

impl<L: Logic> View for SMTLib2<L> {
    type V = Problem<L>;

    closed spec fn view(&self) -> Problem<L> {
        Problem {
            logic: self.logic,
            nodes: self.nodes@,
            operands: self.operands@,
            counter: self.var_index as nat,
            registry: self.var_map@.map_values(|e: VarEntry<L::Sorts>| e.binding()),
            names: self.idx_map@.map_values(|s: String| s@),
        }
    }
}

impl<L: Logic> SMTLib2<L> {
    /// The graph holds exactly the nodes and the operand edges of the view.
    pub closed spec fn consistent(&self) -> bool {
        &&& graph_node_count(self.gr) == self.nodes@.len()
        &&& graph_edges(self.gr) == edges_upto(self.operands@, self.operands@.len(), 0)
        &&& self.nodes@.len() <= u32::MAX
        &&& graph_edges(self.gr).len() <= u32::MAX
    }

    /// The invariant of the store.
    pub open spec fn well_formed(&self) -> bool {
        self@.valid() && self.consistent()
    }

    /// An empty store for a session in `logic`.
    pub fn new(logic: Option<L>) -> (solver: SMTLib2<L>)
        ensures
            solver.well_formed(),
            solver@ == Problem::<L>::empty(logic),
    {
        broadcast use vstd::std_specs::hash::group_hash_axioms;

        let solver = SMTLib2 {
            logic: logic,
            gr: graph_new(),
            nodes: Vec::new(),
            operands: Ghost(Seq::empty()),
            var_index: 0,
            var_map: Vec::new(),
            idx_map: HashMap::new(),
        };
        assert(solver@.registry =~= Seq::empty());
        assert(solver@.names =~= Map::empty());
        solver
    }

    /// The number of nodes.
    pub fn node_count(&self) -> (count: usize)
        ensures
            count == self@.nodes.len(),
    {
        self.nodes.len()
    }

    /// The number of operand edges.
    pub fn edge_count(&self) -> (count: usize)
        requires
            self.well_formed(),
        ensures
            count == self@.edge_count(),
    {
        graph_edge_count(&self.gr)
    }

    /// Adds `cval` as a leaf and hands out its handle.
    pub fn new_const(&mut self, cval: L::Fns) -> (idx: usize)
        requires
            old(self).well_formed(),
            old(self)@.nodes.len() < u32::MAX,
        ensures
            final(self).well_formed(),
            idx == old(self)@.nodes.len(),
            final(self)@ == old(self)@.with_node(cval),
    {
        let ghost before = self.operands@;
        self.nodes.push(cval);
        let idx: usize = graph_add_node(&mut self.gr);
        self.operands = Ghost(before.push(Seq::empty()));
        proof {
            lemma_edges_upto_agree(before, self.operands@, before.len(), 0);
        }
        idx
    }

    /// Adds the function node `value` with the operands `ops`, in that
    /// order, and hands out its handle, which may in turn be the operand of
    /// a larger expression.
    pub fn add_assert(&mut self, value: L::Fns, ops: &[usize]) -> (idx: usize)
        requires
            old(self).well_formed(),
            old(self)@.nodes.len() < u32::MAX,
            old(self)@.edge_count() + ops@.len() <= u32::MAX,
            forall|i: int| 0 <= i < ops@.len() ==> #[trigger] ops@[i] < old(self)@.nodes.len(),
        ensures
            final(self).well_formed(),
            idx == old(self)@.nodes.len(),
            final(self)@ == old(self)@.with_application(value, ops@),
    {
        let ghost before = self.operands@;
        let ghost after = before.push(ops@);
        self.nodes.push(value);
        let idx: usize = graph_add_node(&mut self.gr);
        self.operands = Ghost(after);
        proof {
            lemma_edges_upto_agree(before, after, before.len(), 0);
        }
        let mut i: usize = 0;
        while i < ops.len()
            invariant
                i <= ops@.len(),
                idx == before.len(),
                after == before.push(ops@),
                idx < graph_node_count(self.gr),
                graph_node_count(self.gr) == old(self)@.nodes.len() + 1,
                graph_edges(self.gr) == edges_upto(after, idx as nat, i as nat),
                edges_upto(after, idx as nat, 0).len() + ops@.len() <= u32::MAX,
                graph_edges(self.gr).len() == edges_upto(after, idx as nat, 0).len() + i,
                forall|j: int| 0 <= j < ops@.len() ==> #[trigger] ops@[j] < idx,
                self.nodes@ == old(self).nodes@.push(value),
                self.operands@ == after,
                self.logic == old(self).logic,
                self.var_index == old(self).var_index,
                self.var_map == old(self).var_map,
                self.idx_map == old(self).idx_map,
            decreases ops@.len() - i,
        {
            graph_add_edge(&mut self.gr, idx, ops[i], EdgeData::EdgeOrder(i));
            i = i + 1;
        }
        idx
    }

    /// The position in the registry of the entry called `name`.
    fn find_entry(&self, name: &str) -> (at: Option<usize>)
        ensures
            self@.registry.len() == self.var_map@.len(),
            match at {
                Some(i) => find(self@.registry, name@) == Some(i as int) && i < self.var_map@.len()
                    && self.var_map@[i as int].binding() == self@.registry[i as int],
                None => find(self@.registry, name@) is None,
            },
    {
        let ghost registry = self@.registry;
        let mut i: usize = self.var_map.len();
        assert(registry.take(i as int) =~= registry);
        while i > 0
            invariant
                i <= self.var_map@.len(),
                registry == self@.registry,
                registry.len() == self.var_map@.len(),
                find(registry, name@) == find(registry.take(i as int), name@),
            decreases i,
        {
            i = i - 1;
            assert(registry.take(i + 1).drop_last() =~= registry.take(i as int));
            assert(registry.take(i + 1).last() == self.var_map@[i as int].binding());
            if same_text(self.var_map[i].name.as_str(), name) {
                return Some(i);
            }
        }
        None
    }

    /// The handle of the variable registered under `name`.
    pub fn lookup(&self, name: &str) -> (handle: Option<usize>)
        ensures
            handle == self@.handle_of(name@),
    {
        match self.find_entry(name) {
            Some(i) => Some(self.var_map[i].node),
            None => None,
        }
    }

    /// The name that the variable node `idx` was created with.
    pub fn var_name(&self, idx: usize) -> (name: Option<String>)
        ensures
            match name {
                Some(text) => self@.names.contains_key(idx) && self@.names[idx] == text@,
                None => !self@.names.contains_key(idx),
            },
    {
        broadcast use vstd::std_specs::hash::group_hash_axioms;

        match self.idx_map.get(&idx) {
            Some(text) => Some(text.clone()),
            None => None,
        }
    }

    /// Adds a variable of sort `sort` and hands out its handle. It is called
    /// `var_name` where one is given, and else gets the next default name
    /// `X_1`, `X_2`, and so on. The variable is registered under its name; a
    /// name that is registered already is bound to the new variable.
    pub fn new_var(&mut self, var_name: Option<&str>, sort: L::Sorts) -> (idx: usize)
        requires
            old(self).well_formed(),
            old(self)@.nodes.len() < u32::MAX,
        ensures
            final(self).well_formed(),
            idx == old(self)@.nodes.len(),
            L::is_free_var(
                final(self)@.nodes[idx as int],
                old(self)@.var_label(
                    match var_name {
                        Some(name) => Some(name@),
                        None => None,
                    },
                ),
                sort,
            ),
            final(self)@ == old(self)@.with_var(
                match var_name {
                    Some(name) => Some(name@),
                    None => None,
                },
                sort,
                final(self)@.nodes[idx as int],
            ),
    {
        broadcast use vstd::std_specs::hash::group_hash_axioms;

        let ghost before = self.operands@;
        let ghost registry = self@.registry;
        let ghost names = self@.names;
        let name: String = match var_name {
            Some(text) => String::from_str(text),
            None => {
                self.var_index = self.var_index + 1;
                let mut text: String = String::from_str("X_");
                text.append(decimal_string(self.var_index).as_str());
                text
            },
        };
        let node: L::Fns = L::free_var(name.as_str(), &sort);
        self.nodes.push(node);
        let idx: usize = graph_add_node(&mut self.gr);
        self.operands = Ghost(before.push(Seq::empty()));
        proof {
            lemma_edges_upto_agree(before, self.operands@, before.len(), 0);
        }
        let entry = VarEntry { name: name.clone(), node: idx, sort: sort };
        let ghost bound = entry.binding();
        match self.find_entry(name.as_str()) {
            Some(at) => {
                self.var_map.set(at, entry);
                assert(self@.registry =~= registry.update(at as int, bound));
                proof {
                    lemma_find_some(registry, bound.name);
                }
            },
            None => {
                self.var_map.push(entry);
                assert(self@.registry =~= registry.push(bound));
                proof {
                    lemma_find_none(registry, bound.name);
                }
            },
        }
        self.idx_map.insert(idx, name);
        assert(self@.names =~= names.insert(idx, bound.name));
        idx
    }

    /// The handles of the operands of node `ni`, in operand order, whatever
    /// the order in which the graph hands out its edges.
    pub fn operands(&self, ni: usize) -> (handles: Vec<usize>)
        requires
            self.well_formed(),
            ni < self@.nodes.len(),
        ensures
            handles@ == self@.operands[ni as int],
    {
        let found: Vec<Edge> = graph_edges_directed(&self.gr, ni, EdgeDirection::Outgoing);
        let sorted: Vec<Edge> = sort_by_position(&found);
        let ghost row = self@.operands[ni as int];
        proof {
            let all = graph_edges(self.gr);
            lemma_outgoing(self.operands@, self.operands@.len(), 0, ni);
            assert(edges_at(self.gr, ni, EdgeDirection::Outgoing) == row_edges(
                ni as int,
                row,
                row.len(),
            ));
            all.lemma_filter_len(|e: Edge| touches(e, ni, EdgeDirection::Outgoing));
            lemma_sorted_row(sorted@, ni as int, row);
        }
        let mut handles: Vec<usize> = Vec::new();
        let mut k: usize = 0;
        while k < sorted.len()
            invariant
                k <= sorted@.len(),
                sorted@ == row_edges(ni as int, row, row.len()),
                handles@ == row.take(k as int),
            decreases sorted@.len() - k,
        {
            handles.push(sorted[k].1);
            assert(row.take(k + 1) =~= row.take(k as int).push(row[k as int]));
            k = k + 1;
        }
        assert(row.take(k as int) =~= row);
        handles
    }

    /// Writes node `ni` in prefix notation, fully parenthesized: a function
    /// node as `(name operand operand ...)`, its operands in operand order
    /// and each written the same way; any other node as its rendering.
    pub fn expand_assertion(&self, ni: usize) -> (text: String)
        requires
            self.well_formed(),
            ni < self@.nodes.len(),
        ensures
            text@ == self@.expansion(ni as int),
        decreases ni,
    {
        let name: String = self.nodes[ni].render();
        if !self.nodes[ni].is_fn() {
            return name;
        }
        let children: Vec<usize> = self.operands(ni);
        let mut text: String = String::from_str("(");
        text.append(name.as_str());
        let mut k: usize = 0;
        while k < children.len()
            invariant
                self.well_formed(),
                ni < self@.nodes.len(),
                k <= children@.len(),
                children@ == self@.operands[ni as int],
                text@ == "("@ + name@ + self@.operand_text(ni as int, k as nat),
            decreases children@.len() - k,
        {
            let child: usize = children[k];
            let sub: String = self.expand_assertion(child);
            text.append(" ");
            text.append(sub.as_str());
            assert(text@ =~= "("@ + name@ + self@.operand_text(ni as int, (k + 1) as nat));
            k = k + 1;
        }
        text.append(")");
        text
    }

    /// Whether node `h` is the operand of no node.
    pub fn is_root(&self, h: usize) -> (root: bool)
        requires
            self.well_formed(),
            h < self@.nodes.len(),
        ensures
            root == self@.root(h as int),
    {
        let incoming: Vec<Edge> = graph_edges_directed(&self.gr, h, EdgeDirection::Incoming);
        proof {
            broadcast use vstd::seq_lib::group_to_multiset_ensures;

            lemma_incoming(self.operands@, self.operands@.len(), 0, h);
            assert(incoming@.to_multiset().len() == incoming@.len());
            assert(edges_at(self.gr, h, EdgeDirection::Incoming).to_multiset().len() == edges_at(
                self.gr,
                h,
                EdgeDirection::Incoming,
            ).len());
        }
        incoming.len() == 0
    }

    /// Writes the problem as SMT-LIB2 text: a `declare-fun` line for each
    /// registered variable, in the order of the registry, then an `assert`
    /// line for each boolean function node that is a root, by ascending
    /// handle.
    pub fn generate_asserts(&self) -> (text: String)
        requires
            self.well_formed(),
        ensures
            text@ == self@.script(),
    {
        let mut text: String = String::new();
        let mut k: usize = 0;
        while k < self.var_map.len()
            invariant
                self.well_formed(),
                k <= self.var_map@.len(),
                self.var_map@.len() == self@.registry.len(),
                text@ == self@.declarations(k as nat),
            decreases self.var_map@.len() - k,
        {
            let entry: &VarEntry<L::Sorts> = &self.var_map[k];
            assert(self@.registry[k as int] == entry.binding());
            if self.nodes[entry.node].is_var() {
                let sort: String = entry.sort.render();
                text.append("(declare-fun ");
                text.append(entry.name.as_str());
                text.append(" () ");
                text.append(sort.as_str());
                text.append(")\n");
            }
            assert(text@ =~= self@.declarations((k + 1) as nat));
            k = k + 1;
        }
        let mut h: usize = 0;
        while h < self.nodes.len()
            invariant
                self.well_formed(),
                h <= self.nodes@.len(),
                self.nodes@.len() == self@.nodes.len(),
                text@ == self@.declarations(self@.registry.len()) + self@.assertions(h as nat),
            decreases self.nodes@.len() - h,
        {
            if self.is_root(h) && self.nodes[h].is_fn() && self.nodes[h].is_bool() {
                let body: String = self.expand_assertion(h);
                text.append("(assert ");
                text.append(body.as_str());
                text.append(")\n");
            }
            assert(text@ =~= self@.declarations(self@.registry.len()) + self@.assertions(
                (h + 1) as nat,
            ));
            h = h + 1;
        }
        text
    }

    /// The `set-logic` command of the session; none where no logic was
    /// configured.
    pub fn set_logic(&self) -> (command: Option<String>)
        ensures
            match command {
                Some(text) => self@.logic_command() == Some(text@),
                None => self@.logic_command() is None,
            },
    {
        match &self.logic {
            Some(logic) => {
                let name: String = logic.render();
                let mut text: String = String::from_str("(set-logic ");
                text.append(name.as_str());
                text.append(")\n");
                Some(text)
            },
            None => None,
        }
    }
}

/// What `find` finds is an entry of that name.
pub proof fn lemma_find_some<S>(registry: Seq<Binding<S>>, name: Seq<char>)
    requires
        find(registry, name) is Some,
    ensures
        0 <= find(registry, name)->0 < registry.len(),
        registry[find(registry, name)->0].name == name,
    decreases registry.len(),
{
    if registry.len() > 0 && registry.last().name != name {
        lemma_find_some(registry.drop_last(), name);
    }
}

/// Where `find` comes back empty-handed, no entry has that name.
pub proof fn lemma_find_none<S>(registry: Seq<Binding<S>>, name: Seq<char>)
    requires
        find(registry, name) is None,
    ensures
        forall|i: int| 0 <= i < registry.len() ==> (#[trigger] registry[i]).name != name,
    decreases registry.len(),
{
    if registry.len() > 0 {
        lemma_find_none(registry.drop_last(), name);
        assert forall|i: int| 0 <= i < registry.len() implies (#[trigger] registry[i]).name
            != name by {
            if i < registry.len() - 1 {
                assert(registry.drop_last()[i] == registry[i]);
            }
        }
    }
}

impl<L: Logic> Problem<L> {
    /// `later` has all the nodes of `self`, with the same operands, and
    /// maybe more behind them.
    pub open spec fn extended_by(self, later: Problem<L>) -> bool {
        &&& self.nodes.len() <= later.nodes.len()
        &&& self.operands.len() <= later.operands.len()
        &&& forall|h: int| 0 <= h < self.nodes.len() ==> self.nodes[h] == later.nodes[h]
        &&& forall|h: int| 0 <= h < self.operands.len() ==> self.operands[h] == later.operands[h]
    }

    /// The operands `ops`, each expanded and behind a space, up to the
    /// `k`-th.
    pub open spec fn spaced(self, ops: Seq<usize>, k: nat) -> Seq<char>
        decreases k,
    {
        if 0 < k <= ops.len() {
            self.spaced(ops, (k - 1) as nat) + " "@ + self.expansion(ops[k - 1] as int)
        } else {
            Seq::empty()
        }
    }

    /// The store after one anonymous variable for each of `sorts`, the
    /// `i`-th of them with the node `nodes[i]`.
    pub open spec fn with_anonymous(self, sorts: Seq<L::Sorts>, nodes: Seq<L::Fns>) -> Problem<L>
        decreases sorts.len(),
    {
        if sorts.len() == 0 || nodes.len() != sorts.len() {
            self
        } else {
            self.with_anonymous(sorts.drop_last(), nodes.drop_last()).with_var(
                None,
                sorts.last(),
                nodes.last(),
            )
        }
    }
}

/// Adding nodes changes the text of no node that was there before.
pub proof fn lemma_expansion_kept<L: Logic>(before: Problem<L>, after: Problem<L>, h: int)
    requires
        before.valid(),
        before.extended_by(after),
        0 <= h < before.nodes.len(),
    ensures
        after.expansion(h) == before.expansion(h),
    decreases h, 1int, 0nat,
{
    lemma_operand_text_kept(before, after, h, before.operands[h].len());
}

/// Adding nodes changes the operand text of no node that was there before.
pub proof fn lemma_operand_text_kept<L: Logic>(
    before: Problem<L>,
    after: Problem<L>,
    h: int,
    k: nat,
)
    requires
        before.valid(),
        before.extended_by(after),
        0 <= h < before.nodes.len(),
        k <= before.operands[h].len(),
    ensures
        after.operand_text(h, k) == before.operand_text(h, k),
    decreases h, 0int, k,
{
    if k > 0 {
        lemma_operand_text_kept(before, after, h, (k - 1) as nat);
        let child = before.operands[h][k - 1];
        lemma_expansion_kept(before, after, child as int);
    }
}

/// A function node reads `(name operand operand ...)`: behind its name its
/// operands follow in the order in which they were given, each written as
/// it was before the node was added.
pub proof fn law_application_text<L: Logic>(before: Problem<L>, node: L::Fns, ops: Seq<usize>)
    requires
        before.valid(),
        is_function(node),
        forall|i: int| 0 <= i < ops.len() ==> #[trigger] ops[i] < before.nodes.len(),
    ensures
        before.with_application(node, ops).expansion(before.nodes.len() as int) == "("@
            + node.rendering() + before.spaced(ops, ops.len()) + ")"@,
{
    lemma_operand_text_spaced(before, node, ops, ops.len());
}

/// The operand text of a new node is the text of its operands as they
/// were.
pub proof fn lemma_operand_text_spaced<L: Logic>(
    before: Problem<L>,
    node: L::Fns,
    ops: Seq<usize>,
    k: nat,
)
    requires
        before.valid(),
        k <= ops.len(),
        forall|i: int| 0 <= i < ops.len() ==> #[trigger] ops[i] < before.nodes.len(),
    ensures
        before.with_application(node, ops).operand_text(before.nodes.len() as int, k)
            == before.spaced(ops, k),
    decreases k,
{
    if k > 0 {
        let after = before.with_application(node, ops);
        lemma_operand_text_spaced(before, node, ops, (k - 1) as nat);
        lemma_expansion_kept(before, after, ops[k - 1] as int);
    }
}

/// Anonymous variables are named `X_1`, `X_2`, and so on: in a fresh store
/// the `i`-th of them, counted from zero, gets the handle `i` and the name
/// `X_` followed by `i + 1` in decimal, and is the `i`-th entry of the
/// registry.
pub proof fn law_default_names<L: Logic>(
    logic: Option<L>,
    sorts: Seq<L::Sorts>,
    nodes: Seq<L::Fns>,
    i: int,
)
    requires
        sorts.len() == nodes.len(),
        sorts.len() <= usize::MAX,
        0 <= i < sorts.len(),
    ensures
        ({
            let store = Problem::empty(logic).with_anonymous(sorts, nodes);
            &&& store.counter == sorts.len()
            &&& store.nodes == nodes
            &&& store.names.contains_key(i as usize)
            &&& store.names[i as usize] == default_name((i + 1) as nat)
            &&& store.registry.len() == sorts.len()
            &&& store.registry[i] == Binding {
                name: default_name((i + 1) as nat),
                node: i as usize,
                sort: sorts[i],
            }
        }),
    decreases sorts.len(),
{
    let n = sorts.len();
    let earlier = Problem::empty(logic).with_anonymous(sorts.drop_last(), nodes.drop_last());
    let store = Problem::empty(logic).with_anonymous(sorts, nodes);
    assert(store == earlier.with_var(None, sorts.last(), nodes.last()));
    if n == 1 {
        assert(earlier == Problem::<L>::empty(logic));
        assert(store.nodes =~= nodes);
    } else {
        law_default_names(logic, sorts.drop_last(), nodes.drop_last(), 0);
        assert(store.nodes =~= nodes);
        assert forall|j: int| 0 <= j < earlier.registry.len() implies (
        #[trigger] earlier.registry[j]).name != default_name(n) by {
            law_default_names(logic, sorts.drop_last(), nodes.drop_last(), j);
            if default_name((j + 1) as nat) == default_name(n) {
                lemma_default_name_injective((j + 1) as nat, n);
            }
        }
        lemma_find_absent(earlier.registry, default_name(n));
        if i < n - 1 {
            law_default_names(logic, sorts.drop_last(), nodes.drop_last(), i);
        }
    }
}

/// `find` goes by the names alone.
pub proof fn lemma_find_by_names<S>(a: Seq<Binding<S>>, b: Seq<Binding<S>>, name: Seq<char>)
    requires
        a.len() == b.len(),
        forall|i: int| 0 <= i < a.len() ==> (#[trigger] a[i]).name == b[i].name,
    ensures
        find(a, name) == find(b, name),
    decreases a.len(),
{
    if a.len() > 0 {
        assert(a.last().name == b.last().name);
        assert forall|i: int| 0 <= i < a.drop_last().len() implies (#[trigger] a.drop_last()[i]).name
            == b.drop_last()[i].name by {
            assert(a.drop_last()[i] == a[i]);
        }
        lemma_find_by_names(a.drop_last(), b.drop_last(), name);
    }
}

/// After `entry` is registered its name leads to it, and every other name
/// leads where it led before.
pub proof fn lemma_find_bind<S>(registry: Seq<Binding<S>>, entry: Binding<S>, other: Seq<char>)
    ensures
        find(bind(registry, entry), entry.name) is Some,
        bind(registry, entry)[find(bind(registry, entry), entry.name)->0] == entry,
        other != entry.name ==> find(bind(registry, entry), other) == find(registry, other),
        other != entry.name && find(registry, other) is Some ==> bind(registry, entry)[find(
            registry,
            other,
        )->0] == registry[find(registry, other)->0],
{
    let after = bind(registry, entry);
    match find(registry, entry.name) {
        Some(i) => {
            lemma_find_some(registry, entry.name);
            lemma_find_by_names(registry, after, entry.name);
            lemma_find_by_names(registry, after, other);
            if find(registry, other) is Some {
                lemma_find_some(registry, other);
            }
        },
        None => {
            assert(after.drop_last() =~= registry);
            if find(registry, other) is Some {
                lemma_find_some(registry, other);
            }
        },
    }
}

/// What a new variable leaves behind, in any store. It is registered under
/// its name, the name leading to its handle and its sort and the handle
/// leading back to the name; every other name is bound as before. An
/// anonymous variable takes the name `X_n`, where `n` is one more than the
/// number of anonymous variables before it, so the numbers start at one and
/// run on without a gap and without a repeat; a variable with a name of its
/// own takes no number.
pub proof fn law_var_registered<L: Logic>(
    before: Problem<L>,
    asked: Option<Seq<char>>,
    sort: L::Sorts,
    node: L::Fns,
    other: Seq<char>,
)
    requires
        before.nodes.len() <= usize::MAX,
    ensures
        ({
            let after = before.with_var(asked, sort, node);
            let name = before.var_label(asked);
            let handle = before.nodes.len() as usize;
            &&& asked is None ==> name == default_name(before.counter + 1) && after.counter
                == before.counter + 1
            &&& asked matches Some(given) ==> name == given && after.counter == before.counter
            &&& after.handle_of(name) == Some(handle)
            &&& after.registry[find(after.registry, name)->0] == Binding { name, node: handle, sort }
            &&& after.names.contains_key(handle)
            &&& after.names[handle] == name
            &&& other != name ==> after.handle_of(other) == before.handle_of(other)
            &&& forall|h: usize|
                h != handle ==> after.names.contains_key(h) == before.names.contains_key(h)
                    && after.names[h] == before.names[h]
        }),
{
    let name = before.var_label(asked);
    let handle = before.nodes.len() as usize;
    lemma_find_bind(before.registry, Binding { name, node: handle, sort }, other);
}

/// The `k`-th anonymous variable of a fresh store, counted from one, is
/// found under the name `X_k`: that name resolves to its handle `k - 1`,
/// the registry holds its sort under that name, and its handle leads back
/// to the name. The names `X_1` to `X_n` are all different, so none of them
/// is bound twice.
pub proof fn law_default_names_resolve<L: Logic>(
    logic: Option<L>,
    sorts: Seq<L::Sorts>,
    nodes: Seq<L::Fns>,
    k: int,
)
    requires
        sorts.len() == nodes.len(),
        sorts.len() <= usize::MAX,
        1 <= k <= sorts.len(),
    ensures
        ({
            let store = Problem::empty(logic).with_anonymous(sorts, nodes);
            let name = default_name(k as nat);
            &&& distinct_names(store.registry)
            &&& find(store.registry, name) == Some(k - 1)
            &&& store.handle_of(name) == Some((k - 1) as usize)
            &&& store.registry[k - 1].sort == sorts[k - 1]
            &&& store.names.contains_key((k - 1) as usize)
            &&& store.names[(k - 1) as usize] == name
        }),
{
    let store = Problem::empty(logic).with_anonymous(sorts, nodes);
    law_default_names(logic, sorts, nodes, k - 1);
    assert forall|i: int, j: int| 0 <= i < j < store.registry.len() implies (
    #[trigger] store.registry[i]).name != (#[trigger] store.registry[j]).name by {
        law_default_names(logic, sorts, nodes, i);
        law_default_names(logic, sorts, nodes, j);
        if default_name((i + 1) as nat) == default_name((j + 1) as nat) {
            lemma_default_name_injective((i + 1) as nat, (j + 1) as nat);
        }
    }
    lemma_find_unique(store.registry, k - 1);
}

/// Among distinct names, `find` finds each entry under its own name.
pub proof fn lemma_find_unique<S>(registry: Seq<Binding<S>>, i: int)
    requires
        distinct_names(registry),
        0 <= i < registry.len(),
    ensures
        find(registry, registry[i].name) == Some(i),
    decreases registry.len(),
{
    if i < registry.len() - 1 {
        let rest = registry.drop_last();
        assert forall|a: int, b: int| 0 <= a < b < rest.len() implies (#[trigger] rest[a]).name
            != (#[trigger] rest[b]).name by {
            assert(rest[a] == registry[a] && rest[b] == registry[b]);
        }
        assert(rest[i] == registry[i]);
        lemma_find_unique(rest, i);
    }
}

/// Two default names are the same only for the same number.
pub proof fn lemma_default_name_injective(a: nat, b: nat)
    requires
        default_name(a) == default_name(b),
    ensures
        a == b,
{
    let head = "X_"@;
    assert(decimal(a) =~= default_name(a).subrange(head.len() as int, default_name(a).len() as int));
    assert(decimal(b) =~= default_name(b).subrange(head.len() as int, default_name(b).len() as int));
    lemma_decimal_injective(a, b);
}

/// Where no entry has the name, `find` comes back empty-handed.
pub proof fn lemma_find_absent<S>(registry: Seq<Binding<S>>, name: Seq<char>)
    requires
        forall|i: int| 0 <= i < registry.len() ==> (#[trigger] registry[i]).name != name,
    ensures
        find(registry, name) is None,
    decreases registry.len(),
{
    if registry.len() > 0 {
        assert forall|i: int| 0 <= i < registry.drop_last().len() implies (
        #[trigger] registry.drop_last()[i]).name != name by {
            assert(registry.drop_last()[i] == registry[i]);
        }
        lemma_find_absent(registry.drop_last(), name);
    }
}

/// `text` is empty, or opens with a parenthesis and one of the two letters
/// behind it.
pub open spec fn opens_with(text: Seq<char>, a: char, b: char) -> bool {
    text.len() == 0 || (text.len() >= 2 && text[0] == '(' && (text[1] == a || text[1] == b))
}

/// The declarations are empty or open with `(d`.
pub proof fn lemma_declarations_opening<L: Logic>(problem: Problem<L>, k: nat)
    ensures
        opens_with(problem.declarations(k), 'd', 'd'),
    decreases k,
{
    reveal_strlit("(declare-fun ");
    if 0 < k <= problem.registry.len() {
        lemma_declarations_opening(problem, (k - 1) as nat);
    }
}

/// The assertions are empty or open with `(a`.
pub proof fn lemma_assertions_opening<L: Logic>(problem: Problem<L>, k: nat)
    ensures
        opens_with(problem.assertions(k), 'a', 'a'),
    decreases k,
{
    reveal_strlit("(assert ");
    if 0 < k <= problem.nodes.len() {
        lemma_assertions_opening(problem, (k - 1) as nat);
    }
}

/// The script is empty or opens with a declaration or an assertion.
pub proof fn lemma_script_opening<L: Logic>(problem: Problem<L>)
    ensures
        opens_with(problem.script(), 'd', 'a'),
{
    lemma_declarations_opening(problem, problem.registry.len());
    lemma_assertions_opening(problem, problem.nodes.len());
}

} // verus!
