//! The dependency graph over variable names: one node per name, with edges
//! from each template-holding top-level key to every free variable it reads,
//! and the topological evaluation order over those nodes.

use vstd::prelude::*;
use crate::extract::{tree_vars, variables, views_of};
use crate::text::str_eq;
use crate::value::{view_entries, view_val, JsonV, JsonVal};
use crate::ResolveError;

verus! {

/// One graph node: a variable name and the names it depends on.
pub struct GraphNode {
    name: String,
    deps: Vec<String>,
}

/// The nodes of the dependency graph, in first-discovery order.
pub struct VarNodes {
    nodes: Vec<GraphNode>,
}

/// The completed graph: its nodes and the name-to-raw-value side table of
/// every top-level key.
pub struct Graph {
    nodes: Vec<GraphNode>,
    globals: Vec<(String, JsonVal)>,
}

/// The names of a node sequence, in order.
pub closed spec fn names_of(nodes: Seq<GraphNode>) -> Seq<Seq<char>> {
    nodes.map_values(|n: GraphNode| n.name@)
}

/// The dependency names of one node.
pub closed spec fn deps_of(n: GraphNode) -> Seq<Seq<char>> {
    views_of(n.deps@)
}

/// Whether a node sequence holds an edge from `a` to `b`.
pub closed spec fn edge_in(nodes: Seq<GraphNode>, a: Seq<char>, b: Seq<char>) -> bool {
    exists|i: int|
        0 <= i < nodes.len() && (#[trigger] nodes[i]).name@ == a && deps_of(nodes[i]).contains(b)
}

/// A well-formed node sequence: distinct names, and every dependency has a
/// node of its own.
pub closed spec fn nodes_wf(nodes: Seq<GraphNode>) -> bool {
    &&& forall|i: int, j: int|
        0 <= i < j < nodes.len() ==> (#[trigger] nodes[i]).name@ != (#[trigger] nodes[j]).name@
    &&& forall|i: int, d: Seq<char>|
        0 <= i < nodes.len() && #[trigger] deps_of(nodes[i]).contains(d) ==> names_of(
            nodes,
        ).contains(d)
}

/// The first value bound to a name in a key-value table.
pub open spec fn lookup(table: Seq<(Seq<char>, JsonV)>, name: Seq<char>) -> Option<JsonV>
    decreases table.len(),
{
    if table.len() == 0 {
        None
    } else if table[0].0 == name {
        Some(table[0].1)
    } else {
        lookup(table.drop_first(), name)
    }
}

/// The top-level entries of a document: none unless it is an object.
pub open spec fn doc_entries(v: JsonV) -> Seq<(Seq<char>, JsonV)> {
    match v {
        JsonV::Obj(entries) => entries,
        _ => Seq::empty(),
    }
}

/// The free variables a top-level key owns edges to: those of its value,
/// where the value is a string or an array.
pub open spec fn owner_vars(val: JsonV) -> Set<Seq<char>> {
    match val {
        JsonV::Str(_) => tree_vars(val),
        JsonV::Arr(_) => tree_vars(val),
        _ => Set::empty(),
    }
}

/// Whether the document declares a dependency edge from key `a` to name `b`.
pub open spec fn doc_edge(v: JsonV, a: Seq<char>, b: Seq<char>) -> bool {
    exists|k: int|
        0 <= k < doc_entries(v).len() && (#[trigger] doc_entries(v)[k]).0 == a && owner_vars(
            doc_entries(v)[k].1,
        ).contains(b)
}

/// Whether a name gets a node of its own: any free variable read by a
/// template anywhere in the document, and any key owning an edge.
pub open spec fn doc_participant(v: JsonV, x: Seq<char>) -> bool {
    tree_vars(v).contains(x) || (exists|b: Seq<char>| doc_edge(v, x, b))
}

/// The node baseline of the builder: the initial names plus every free
/// variable found anywhere in the document.
spec fn base_has(init: VarNodes, v: JsonV, x: Seq<char>) -> bool {
    init.names().contains(x) || tree_vars(v).contains(x)
}

impl VarNodes {
    /// The node names, in first-discovery order.
    pub closed spec fn names(self) -> Seq<Seq<char>> {
        names_of(self.nodes@)
    }

    /// Whether the nodes hold an edge from `a` to `b`.
    pub closed spec fn has_edge(self, a: Seq<char>, b: Seq<char>) -> bool {
        edge_in(self.nodes@, a, b)
    }

    /// Distinct names, dependencies closed.
    pub closed spec fn wf(self) -> bool {
        nodes_wf(self.nodes@)
    }

    /// An empty node set.
    pub fn new() -> (r: VarNodes)
        ensures
            r.names() == Seq::<Seq<char>>::empty(),
            forall|a: Seq<char>, b: Seq<char>| !r.has_edge(a, b),
            r.wf(),
    {
        let r = VarNodes { nodes: Vec::new() };
        proof {
            assert(r.names() =~= Seq::<Seq<char>>::empty());
        }
        r
    }
}

impl Default for VarNodes {
    /// An empty node set.
    fn default() -> (r: VarNodes)
        ensures
            r.names() == Seq::<Seq<char>>::empty(),
            forall|a: Seq<char>, b: Seq<char>| !r.has_edge(a, b),
            r.wf(),
    {
        VarNodes::new()
    }
}

/// The index of the node with the given name, if any.
fn find_node(nodes: &Vec<GraphNode>, name: &str) -> (r: Option<usize>)
    ensures
        r matches Some(i) ==> i < nodes@.len() && nodes@[i as int].name@ == name@,
        r is None ==> !names_of(nodes@).contains(name@),
{
    let mut i: usize = 0;
    while i < nodes.len()
        invariant
            i <= nodes@.len(),
            forall|k: int| 0 <= k < i ==> (#[trigger] nodes@[k]).name@ != name@,
        decreases nodes@.len() - i,
    {
        if str_eq(nodes[i].name.as_str(), name) {
            return Some(i);
        }
        i = i + 1;
    }
    proof {
        assert forall|k: int| 0 <= k < names_of(nodes@).len() implies names_of(nodes@)[k]
            != name@ by {
            assert(names_of(nodes@)[k] == nodes@[k].name@);
        }
    }
    None
}

impl VarNodes {
    /// Ensures a node with this name exists, leaving every edge as it was.
    fn get_or_create(&mut self, name: &String) -> (idx: usize)
        requires
            old(self).wf(),
        ensures
            final(self).wf(),
            idx < final(self).nodes@.len(),
            final(self).nodes@[idx as int].name@ == name@,
            old(self).names().contains(name@) ==> final(self).nodes@ == old(self).nodes@,
            !old(self).names().contains(name@) ==> final(self).nodes@.len() == old(
                self,
            ).nodes@.len() + 1 && idx == old(self).nodes@.len() && deps_of(
                final(self).nodes@[idx as int],
            ).len() == 0,
            forall|k: int| 0 <= k < old(self).nodes@.len() ==> final(self).nodes@[k] == old(
                self,
            ).nodes@[k],
            forall|a: Seq<char>, b: Seq<char>| final(self).has_edge(a, b) <==> old(self).has_edge(
                a,
                b,
            ),
            forall|x: Seq<char>| final(self).names().contains(x) <==> old(self).names().contains(x)
                || x == name@,
    {
        match find_node(&self.nodes, name.as_str()) {
            Some(i) => {
                proof {
                    assert(names_of(self.nodes@)[i as int] == self.nodes@[i as int].name@);
                    assert(self.names().contains(name@));
                    assert forall|x: Seq<char>|
                        final(self).names().contains(x) <==> old(self).names().contains(x) || x
                            == name@ by {}
                }
                i
            },
            None => {
                let ghost old_nodes = self.nodes@;
                let node = GraphNode { name: name.clone(), deps: Vec::new() };
                self.nodes.push(node);
                let idx = self.nodes.len() - 1;
                proof {
                    let nodes = self.nodes@;
                    assert(nodes[idx as int].name@ == name@);
                    assert(deps_of(nodes[idx as int]) =~= Seq::<Seq<char>>::empty());
                    assert forall|k: int| 0 <= k < names_of(nodes).len() implies names_of(nodes)[k]
                        == (if k < old_nodes.len() {
                        names_of(old_nodes)[k]
                    } else {
                        name@
                    }) by {
                        assert(names_of(nodes)[k] == nodes[k].name@);
                        if k < old_nodes.len() {
                            assert(names_of(old_nodes)[k] == old_nodes[k].name@);
                        }
                    }
                    assert(final(self).wf()) by {
                        assert forall|i: int, j: int| 0 <= i < j < nodes.len() implies (
                        #[trigger] nodes[i]).name@ != (#[trigger] nodes[j]).name@ by {
                            if j == idx as int {
                                assert(names_of(old_nodes)[i] == old_nodes[i].name@);
                            }
                        }
                        assert forall|i: int, d: Seq<char>|
                            0 <= i < nodes.len() && #[trigger] deps_of(nodes[i]).contains(d)
                                implies names_of(nodes).contains(d) by {
                            if i < old_nodes.len() {
                                assert(names_of(old_nodes).contains(d));
                                let j = choose|j: int|
                                    0 <= j < old_nodes.len() && names_of(old_nodes)[j] == d;
                                assert(names_of(nodes)[j] == d);
                            }
                        }
                    }
                    assert forall|a: Seq<char>, b: Seq<char>|
                        final(self).has_edge(a, b) <==> old(self).has_edge(a, b) by {
                        if edge_in(nodes, a, b) {
                            let i = choose|i: int|
                                0 <= i < nodes.len() && (#[trigger] nodes[i]).name@ == a && deps_of(
                                    nodes[i],
                                ).contains(b);
                            if i < old_nodes.len() {
                                assert(edge_in(old_nodes, a, b));
                            }
                        }
                        if edge_in(old_nodes, a, b) {
                            let i = choose|i: int|
                                0 <= i < old_nodes.len() && (#[trigger] old_nodes[i]).name@ == a
                                    && deps_of(old_nodes[i]).contains(b);
                            assert(nodes[i].name@ == a && deps_of(nodes[i]).contains(b));
                        }
                    }
                    assert forall|x: Seq<char>|
                        final(self).names().contains(x) <==> old(self).names().contains(x) || x
                            == name@ by {
                        if names_of(nodes).contains(x) {
                            let k = choose|k: int|
                                0 <= k < nodes.len() && names_of(nodes)[k] == x;
                            if k < old_nodes.len() {
                                assert(names_of(old_nodes)[k] == x);
                            }
                        }
                        if names_of(old_nodes).contains(x) {
                            let k = choose|k: int|
                                0 <= k < old_nodes.len() && names_of(old_nodes)[k] == x;
                            assert(names_of(nodes)[k] == x);
                        }
                        if x == name@ {
                            assert(names_of(nodes)[idx as int] == x);
                        }
                    }
                }
                idx
            },
        }
    }
}

/// Whether the first entries of a table declare an edge from `a` to `b`.
pub open spec fn edge_upto(es: Seq<(Seq<char>, JsonV)>, a: Seq<char>, b: Seq<char>) -> bool {
    exists|k: int|
        0 <= k < es.len() && (#[trigger] es[k]).0 == a && owner_vars(es[k].1).contains(b)
}

/// Whether a name takes part in any edge of the first entries of a table.
pub open spec fn node_upto(es: Seq<(Seq<char>, JsonV)>, x: Seq<char>) -> bool {
    (exists|b: Seq<char>| edge_upto(es, x, b)) || (exists|a: Seq<char>| edge_upto(es, a, x))
}

impl VarNodes {
    /// Adds an edge from `source` to every target, creating the source's
    /// node where it is missing.
    fn add_deps(&mut self, source: &String, targets: Vec<String>)
        requires
            old(self).wf(),
            forall|t: Seq<char>| views_of(targets@).contains(t) ==> old(self).names().contains(t),
        ensures
            final(self).wf(),
            forall|x: Seq<char>| final(self).names().contains(x) <==> old(self).names().contains(x)
                || x == source@,
            forall|a: Seq<char>, b: Seq<char>|
                final(self).has_edge(a, b) <==> old(self).has_edge(a, b) || (a == source@
                    && views_of(targets@).contains(b)),
    {
        let idx = self.get_or_create(source);
        let ghost mid = self.nodes@;
        let mut targets = targets;
        let ghost tviews = views_of(targets@);
        let mut node = self.nodes.remove(idx);
        let ghost old_deps = node.deps@;
        node.deps.append(&mut targets);
        proof {
            crate::extract::lemma_views_concat(old_deps, targets@);
        }
        let ghost node_after = node;
        self.nodes.insert(idx, node);
        proof {
            let nodes = self.nodes@;
            assert(nodes =~= mid.update(idx as int, node_after));
            assert(deps_of(node_after) == views_of(old_deps) + tviews);
            assert(node_after.name@ == source@);
            // names are unchanged from the middle state
            assert forall|k: int| 0 <= k < nodes.len() implies names_of(nodes)[k] == names_of(
                mid,
            )[k] by {
                assert(names_of(nodes)[k] == nodes[k].name@);
                assert(names_of(mid)[k] == mid[k].name@);
            }
            assert(names_of(nodes) =~= names_of(mid));
            assert(final(self).wf()) by {
                assert forall|i: int, d: Seq<char>|
                    0 <= i < nodes.len() && #[trigger] deps_of(nodes[i]).contains(d) implies
                    names_of(nodes).contains(d) by {
                    if i == idx as int {
                        let p = choose|p: int|
                            0 <= p < deps_of(node_after).len() && deps_of(node_after)[p] == d;
                        if p < old_deps.len() {
                            assert(deps_of(mid[idx as int]).contains(d));
                        } else {
                            assert(tviews.contains(d));
                        }
                    } else {
                        assert(deps_of(mid[i]).contains(d));
                    }
                }
            }
            assert forall|a: Seq<char>, b: Seq<char>|
                final(self).has_edge(a, b) <==> old(self).has_edge(a, b) || (a == source@
                    && tviews.contains(b)) by {
                if edge_in(nodes, a, b) {
                    let i = choose|i: int|
                        0 <= i < nodes.len() && (#[trigger] nodes[i]).name@ == a && deps_of(
                            nodes[i],
                        ).contains(b);
                    if i == idx as int {
                        let p = choose|p: int|
                            0 <= p < deps_of(node_after).len() && deps_of(node_after)[p] == b;
                        if p < old_deps.len() {
                            assert(deps_of(mid[idx as int]).contains(b));
                            assert(edge_in(mid, a, b));
                        } else {
                            assert(tviews.contains(b));
                        }
                    } else {
                        assert(edge_in(mid, a, b));
                    }
                }
                if edge_in(mid, a, b) {
                    let i = choose|i: int|
                        0 <= i < mid.len() && (#[trigger] mid[i]).name@ == a && deps_of(
                            mid[i],
                        ).contains(b);
                    if i == idx as int {
                        let p = choose|p: int|
                            0 <= p < deps_of(mid[i]).len() && deps_of(mid[i])[p] == b;
                        assert(deps_of(node_after)[p] == b);
                        assert(edge_in(nodes, a, b));
                    } else {
                        assert(nodes[i] == mid[i]);
                        assert(nodes[i].name@ == a && deps_of(nodes[i]).contains(b));
                        assert(edge_in(nodes, a, b));
                    }
                }
                if a == source@ && tviews.contains(b) {
                    let p = choose|p: int| 0 <= p < tviews.len() && tviews[p] == b;
                    assert(deps_of(node_after)[old_deps.len() + p] == b);
                    assert(edge_in(nodes, a, b));
                }
            }
        }
    }
}

impl Graph {
    /// The node names, in first-discovery order.
    pub closed spec fn names(self) -> Seq<Seq<char>> {
        names_of(self.nodes@)
    }

    /// Whether the graph holds an edge from `a` to `b`.
    pub closed spec fn has_edge(self, a: Seq<char>, b: Seq<char>) -> bool {
        edge_in(self.nodes@, a, b)
    }

    /// Distinct names, dependencies closed.
    pub closed spec fn wf(self) -> bool {
        nodes_wf(self.nodes@)
    }

    /// The name-to-raw-value side table.
    pub closed spec fn table(self) -> Seq<(Seq<char>, JsonV)> {
        view_entries(self.globals@)
    }

    /// Whether a name is bound in the side table.
    pub fn has_global(&self, name: &str) -> (r: bool)
        ensures
            r == (lookup(self.table(), name@) is Some),
    {
        self.global(name).is_some()
    }

    /// The raw value of a top-level key.
    pub fn global(&self, name: &str) -> (r: Option<&JsonVal>)
        ensures
            r is Some <==> lookup(self.table(), name@) is Some,
            r matches Some(v) ==> lookup(self.table(), name@) == Some(v@),
    {
        let ghost table = self.table();
        let mut i: usize = 0;
        proof {
            crate::value::lemma_view_entries(self.globals@);
            assert(table.skip(0) =~= table);
        }
        while i < self.globals.len()
            invariant
                i <= self.globals@.len(),
                table == view_entries(self.globals@),
                table.len() == self.globals@.len(),
                forall|k: int| 0 <= k < self.globals@.len() ==> #[trigger] table[k] == (
                    self.globals@[k].0@,
                    view_val(self.globals@[k].1),
                ),
                forall|k: int| 0 <= k < i ==> (#[trigger] table[k]).0 != name@,
                lookup(table, name@) == lookup(table.skip(i as int), name@),
            decreases self.globals@.len() - i,
        {
            if str_eq(self.globals[i].0.as_str(), name) {
                proof {
                    assert(table.skip(i as int)[0] == table[i as int]);
                }
                return Some(&self.globals[i].1);
            }
            proof {
                assert(table.skip(i as int)[0] == table[i as int]);
                assert(table.skip(i as int).drop_first() =~= table.skip(i + 1));
            }
            i = i + 1;
        }
        proof {
            assert(table.skip(i as int).len() == 0);
        }
        None
    }
}

impl VarNodes {
    /// Builds the dependency graph of a document: an edge from every
    /// template-holding top-level key to each free variable it reads, a node
    /// for every name on either end of an edge, and the side table of every
    /// top-level key's raw value. Fails with the full list of invalid
    /// template texts if any string anywhere in the document carries a
    /// template marker but does not parse.
    pub fn graph(self, value: &JsonVal) -> (r: Result<Graph, ResolveError>)
        requires
            self.wf(),
        ensures
            r matches Ok(g) ==> {
                &&& g.wf()
                &&& g.table() == doc_entries(value@)
                &&& forall|a: Seq<char>, b: Seq<char>|
                    g.has_edge(a, b) <==> self.has_edge(a, b) || doc_edge(value@, a, b)
                &&& forall|x: Seq<char>|
                    g.names().contains(x) <==> self.names().contains(x) || doc_participant(
                        value@,
                        x,
                    )
            },
            r is Err <==> crate::extract::tree_invalids(value@).len() > 0,
            r matches Err(e) ==> e matches ResolveError::InvalidTemplates(ts) && views_of(ts@)
                == crate::extract::tree_invalids(value@),
    {
        let mut slf = self;
        let ghost init = slf;
        let (doc_vars, invalid) = variables(value);
        if invalid.len() > 0 {
            return Err(ResolveError::InvalidTemplates(invalid));
        }
        // every free variable found anywhere in the document gets a node
        let mut j: usize = 0;
        while j < doc_vars.len()
            invariant
                j <= doc_vars@.len(),
                slf.wf(),
                views_of(doc_vars@).to_set() == tree_vars(value@),
                forall|a: Seq<char>, b: Seq<char>|
                    slf.has_edge(a, b) <==> init.has_edge(a, b),
                forall|x: Seq<char>|
                    slf.names().contains(x) <==> init.names().contains(x) || views_of(
                        doc_vars@.take(j as int),
                    ).contains(x),
            decreases doc_vars@.len() - j,
        {
            slf.get_or_create(&doc_vars[j]);
            proof {
                assert forall|x: Seq<char>|
                    views_of(doc_vars@.take(j + 1)).contains(x) <==> views_of(
                        doc_vars@.take(j as int),
                    ).contains(x) || x == doc_vars@[j as int]@ by {
                    if views_of(doc_vars@.take(j + 1)).contains(x) {
                        let p = choose|p: int|
                            0 <= p < j + 1 && #[trigger] views_of(doc_vars@.take(j + 1))[p] == x;
                        if p < j {
                            assert(views_of(doc_vars@.take(j as int))[p] == x);
                        }
                    }
                    if views_of(doc_vars@.take(j as int)).contains(x) {
                        let p = choose|p: int|
                            0 <= p < j && #[trigger] views_of(doc_vars@.take(j as int))[p] == x;
                        assert(views_of(doc_vars@.take(j + 1))[p] == x);
                    }
                    if x == doc_vars@[j as int]@ {
                        assert(views_of(doc_vars@.take(j + 1))[j as int] == x);
                    }
                }
            }
            j = j + 1;
        }
        proof {
            assert(doc_vars@.take(doc_vars@.len() as int) =~= doc_vars@);
            assert forall|x: Seq<char>|
                slf.names().contains(x) <==> base_has(init, value@, x) by {
                assert(views_of(doc_vars@).contains(x) <==> views_of(doc_vars@).to_set().contains(
                    x,
                ));
            }
        }
        let ghost based = slf;
        let mut globals: Vec<(String, JsonVal)> = Vec::new();
        match value {
            JsonVal::Obj(entries) => {
                let ghost ventries = view_entries(entries@);
                let mut i: usize = 0;
                proof {
                    crate::value::lemma_view_entries(entries@);
                    assert(view_val(*value) == JsonV::Obj(ventries));
                    assert(view_entries(globals@) =~= ventries.take(0));
                }
                while i < entries.len()
                    invariant
                        i <= entries@.len(),
                        slf.wf(),
                        ventries == doc_entries(value@),
                        ventries.len() == entries@.len(),
                        forall|k: int| 0 <= k < entries@.len() ==> #[trigger] ventries[k] == (
                            entries@[k].0@,
                            view_val(entries@[k].1),
                        ),
                        view_entries(globals@) == ventries.take(i as int),
                        forall|a: Seq<char>, b: Seq<char>|
                            slf.has_edge(a, b) <==> init.has_edge(a, b) || edge_upto(
                                ventries.take(i as int),
                                a,
                                b,
                            ),
                        forall|x: Seq<char>|
                            slf.names().contains(x) <==> base_has(init, value@, x) || node_upto(
                                ventries.take(i as int),
                                x,
                            ),
                    decreases entries@.len() - i,
                {
                    let ghost pre = ventries.take(i as int);
                    let ghost post = ventries.take(i + 1);
                    let k = entries[i].0.clone();
                    let v = &entries[i].1;
                    let ghost old_globals = globals@;
                    let cloned = v.deep_clone();
                    globals.push((k.clone(), cloned));
                    proof {
                        crate::value::lemma_view_entries(old_globals);
                        crate::value::lemma_view_entries(globals@);
                        assert forall|q: int| 0 <= q < globals@.len() implies view_entries(
                            globals@,
                        )[q] == post[q] by {
                            assert(view_entries(globals@)[q] == (
                                globals@[q].0@,
                                view_val(globals@[q].1),
                            ));
                            if q < old_globals.len() {
                                assert(globals@[q] == old_globals[q]);
                                assert(view_entries(old_globals)[q] == (
                                    old_globals[q].0@,
                                    view_val(old_globals[q].1),
                                ));
                                assert(view_entries(old_globals)[q] == pre[q]);
                                assert(post[q] == pre[q]);
                            } else {
                                assert(post[q] == ventries[i as int]);
                                assert(view_val(globals@[q].1) == view_val(entries@[i as int].1));
                            }
                        }
                        assert(view_entries(globals@) =~= post);
                        lemma_edge_upto_step(ventries, i as int);
                    }
                    let eligible = match v {
                        JsonVal::Str(_) => true,
                        JsonVal::Arr(_) => true,
                        _ => false,
                    };
                    if eligible {
                        let (vars, _inv) = variables(v);
                        proof {
                            assert(views_of(vars@).to_set() == owner_vars(ventries[i as int].1));
                        }
                        if vars.len() > 0 {
                            let ghost before_vars = slf;
                            let mut j: usize = 0;
                            while j < vars.len()
                                invariant
                                    j <= vars@.len(),
                                    slf.wf(),
                                    forall|a: Seq<char>, b: Seq<char>|
                                        slf.has_edge(a, b) <==> before_vars.has_edge(a, b),
                                    forall|x: Seq<char>|
                                        slf.names().contains(x) <==> before_vars.names().contains(
                                            x,
                                        ) || views_of(vars@.take(j as int)).contains(x),
                                decreases vars@.len() - j,
                            {
                                slf.get_or_create(&vars[j]);
                                proof {
                                    assert forall|x: Seq<char>|
                                        views_of(vars@.take(j + 1)).contains(x) <==> views_of(
                                            vars@.take(j as int),
                                        ).contains(x) || x == vars@[j as int]@ by {
                                        if views_of(vars@.take(j + 1)).contains(x) {
                                            let p = choose|p: int|
                                                0 <= p < j + 1 && #[trigger] views_of(
                                                    vars@.take(j + 1),
                                                )[p] == x;
                                            if p < j {
                                                assert(views_of(vars@.take(j as int))[p] == x);
                                            }
                                        }
                                        if views_of(vars@.take(j as int)).contains(x) {
                                            let p = choose|p: int|
                                                0 <= p < j && #[trigger] views_of(
                                                    vars@.take(j as int),
                                                )[p] == x;
                                            assert(views_of(vars@.take(j + 1))[p] == x);
                                        }
                                        if x == vars@[j as int]@ {
                                            assert(views_of(vars@.take(j + 1))[j as int] == x);
                                        }
                                    }
                                }
                                j = j + 1;
                            }
                            proof {
                                assert(vars@.take(vars@.len() as int) =~= vars@);
                                assert forall|t: Seq<char>|
                                    views_of(vars@).contains(t) implies slf.names().contains(
                                    t,
                                ) by {}
                            }
                            let ghost tviews = views_of(vars@);
                            slf.add_deps(&k, vars);
                            proof {
                                assert(tviews.to_set() == owner_vars(ventries[i as int].1));
                                assert(owner_vars(ventries[i as int].1) != Set::<Seq<char>>::empty())
                                    by {
                                    assert(tviews.to_set().contains(tviews[0]));
                                }
                                assert forall|a: Seq<char>, b: Seq<char>|
                                    slf.has_edge(a, b) <==> init.has_edge(a, b) || edge_upto(
                                        post,
                                        a,
                                        b,
                                    ) by {
                                    assert(tviews.contains(b) <==> tviews.to_set().contains(b));
                                }
                                assert forall|x: Seq<char>|
                                    slf.names().contains(x) <==> base_has(init, value@, x)
                                        || node_upto(post, x) by {
                                    assert(tviews.contains(x) <==> tviews.to_set().contains(x));
                                    if x == ventries[i as int].0 {
                                        assert(tviews.to_set().contains(tviews[0]));
                                        assert(owner_vars(ventries[i as int].1).contains(
                                            tviews[0],
                                        ));
                                        assert(post[i as int] == ventries[i as int]);
                                        assert(edge_upto(post, x, tviews[0]));
                                        assert(node_upto(post, x));
                                    }
                                    if tviews.to_set().contains(x) {
                                        assert(owner_vars(ventries[i as int].1).contains(x));
                                        assert(post[i as int] == ventries[i as int]);
                                        assert(edge_upto(post, ventries[i as int].0, x));
                                        assert(node_upto(post, x));
                                    }
                                    if node_upto(pre, x) {
                                        if exists|b: Seq<char>| #[trigger] edge_upto(pre, x, b) {
                                            let b = choose|b: Seq<char>| #[trigger] edge_upto(
                                                pre,
                                                x,
                                                b,
                                            );
                                            assert(edge_upto(post, x, b));
                                        } else {
                                            let a = choose|a: Seq<char>| #[trigger] edge_upto(
                                                pre,
                                                a,
                                                x,
                                            );
                                            assert(edge_upto(post, a, x));
                                        }
                                        assert(node_upto(post, x));
                                    }
                                    if node_upto(post, x) && !node_upto(pre, x) {
                                        if exists|b: Seq<char>| #[trigger] edge_upto(post, x, b) {
                                            let b = choose|b: Seq<char>| #[trigger] edge_upto(
                                                post,
                                                x,
                                                b,
                                            );
                                            assert(!edge_upto(pre, x, b));
                                            assert(x == ventries[i as int].0);
                                        } else {
                                            let a = choose|a: Seq<char>| #[trigger] edge_upto(
                                                post,
                                                a,
                                                x,
                                            );
                                            assert(!edge_upto(pre, a, x));
                                            assert(owner_vars(ventries[i as int].1).contains(x));
                                        }
                                    }
                                }
                            }
                        } else {
                            proof {
                                assert(owner_vars(ventries[i as int].1) =~= Set::<
                                    Seq<char>,
                                >::empty()) by {
                                    assert(views_of(vars@).to_set() =~= Set::<Seq<char>>::empty());
                                }
                                lemma_no_vars_no_step(ventries, i as int);
                            }
                        }
                    } else {
                        proof {
                            assert(owner_vars(ventries[i as int].1) =~= Set::<Seq<char>>::empty());
                            lemma_no_vars_no_step(ventries, i as int);
                        }
                    }
                    i = i + 1;
                }
                proof {
                    assert(ventries.take(entries@.len() as int) =~= ventries);
                }
            },
            _ => {
                proof {
                    assert(doc_entries(value@) =~= Seq::<(Seq<char>, JsonV)>::empty());
                    assert(view_entries(globals@) =~= Seq::<(Seq<char>, JsonV)>::empty());
                    assert forall|a: Seq<char>, b: Seq<char>| !doc_edge(value@, a, b) by {}
                }
            },
        }
        let g = Graph { nodes: slf.nodes, globals };
        proof {
            assert(g.wf() == slf.wf());
            assert forall|a: Seq<char>, b: Seq<char>|
                g.has_edge(a, b) <==> slf.has_edge(a, b) by {}
            assert forall|x: Seq<char>| g.names().contains(x) <==> slf.names().contains(x) by {}
            assert forall|a: Seq<char>, b: Seq<char>|
                doc_edge(value@, a, b) <==> edge_upto(doc_entries(value@), a, b) by {}
            // the document baseline plus the processed edges covers exactly
            // the participants: an edge target is itself a document variable
            assert forall|x: Seq<char>|
                g.names().contains(x) <==> init.names().contains(x) || doc_participant(
                    value@,
                    x,
                ) by {
                let es = doc_entries(value@);
                if node_upto(es, x) && (exists|b: Seq<char>| #[trigger] edge_upto(es, x, b)) {
                    let b = choose|b: Seq<char>| #[trigger] edge_upto(es, x, b);
                    assert(doc_edge(value@, x, b));
                }
                if node_upto(es, x) && !(exists|b: Seq<char>| #[trigger] edge_upto(es, x, b)) {
                    let a = choose|a: Seq<char>| #[trigger] edge_upto(es, a, x);
                    let k = choose|k: int|
                        0 <= k < es.len() && (#[trigger] es[k]).0 == a && owner_vars(
                            es[k].1,
                        ).contains(x);
                    crate::extract::lemma_tree_vars_entry(es, k);
                    assert(tree_vars(value@) == crate::extract::tree_vars_entries(es));
                    assert(tree_vars(value@).contains(x));
                }
                if doc_participant(value@, x) && !tree_vars(value@).contains(x) {
                    let b = choose|b: Seq<char>| #[trigger] doc_edge(value@, x, b);
                    assert(edge_upto(es, x, b));
                    assert(node_upto(es, x));
                }
            }
        }
        Ok(g)
    }
}

/// A valid evaluation order over a graph: exactly the node names, each one
/// placed after all of its dependencies.
pub open spec fn valid_order(g: Graph, ord: Seq<Seq<char>>) -> bool {
    &&& ord.no_duplicates()
    &&& forall|x: Seq<char>| ord.contains(x) <==> g.names().contains(x)
    &&& forall|p: int, q: int|
        0 <= p < ord.len() && 0 <= q < ord.len() && g.has_edge(ord[p], ord[q]) ==> q < p
}

/// A witness that the graph is cyclic: a nonempty set of names, each of
/// which depends on another member of the set.
pub open spec fn stuck_set(g: Graph, s: Set<Seq<char>>) -> bool {
    &&& s.finite()
    &&& s.len() > 0
    &&& forall|x: Seq<char>| s.contains(x) ==> g.names().contains(x)
    &&& forall|x: Seq<char>|
        #[trigger] s.contains(x) ==> exists|d: Seq<char>| s.contains(d) && g.has_edge(x, d)
}

/// Whether the graph has a dependency cycle.
pub open spec fn has_cycle(g: Graph) -> bool {
    exists|s: Set<Seq<char>>| stuck_set(g, s)
}

/// How many entries of a boolean sequence are set.
pub closed spec fn count_true(s: Seq<bool>) -> nat
    decreases s,
{
    if s.len() == 0 {
        0
    } else {
        count_true(s.drop_last()) + if s.last() {
            1nat
        } else {
            0nat
        }
    }
}

/// The count of set entries never exceeds the length, and reaches it only
/// with every entry set.
proof fn lemma_count_true_bound(s: Seq<bool>)
    ensures
        count_true(s) <= s.len(),
        count_true(s) == s.len() <==> (forall|k: int| 0 <= k < s.len() ==> s[k]),
    decreases s,
{
    if s.len() > 0 {
        lemma_count_true_bound(s.drop_last());
        assert(forall|k: int| 0 <= k < s.len() - 1 ==> s.drop_last()[k] == s[k]);
        if count_true(s) == s.len() {
            assert forall|k: int| 0 <= k < s.len() implies s[k] by {
                if k < s.len() - 1 {
                    assert(s.drop_last()[k]);
                }
            }
        }
        if forall|k: int| 0 <= k < s.len() ==> s[k] {
            assert forall|k: int| 0 <= k < s.drop_last().len() implies s.drop_last()[k] by {
                assert(s[k]);
            }
        }
    }
}

/// Setting a clear entry raises the count by one.
proof fn lemma_count_true_update(s: Seq<bool>, i: int)
    requires
        0 <= i < s.len(),
        !s[i],
    ensures
        count_true(s.update(i, true)) == count_true(s) + 1,
    decreases s,
{
    let t = s.update(i, true);
    if i == s.len() - 1 {
        assert(t.drop_last() =~= s.drop_last());
    } else {
        assert(t.drop_last() =~= s.drop_last().update(i, true));
        lemma_count_true_update(s.drop_last(), i);
    }
}

impl Graph {
    /// Whether the named dependency is carried by some emitted node.
    closed spec fn emitted_name(self, em: Seq<bool>, d: Seq<char>) -> bool {
        exists|j: int|
            0 <= j < self.nodes@.len() && em[j] && (#[trigger] self.nodes@[j]).name@ == d
    }

    /// Whether every dependency of node `i` is emitted.
    closed spec fn spec_ready(self, em: Seq<bool>, i: int) -> bool {
        forall|d: Seq<char>| deps_of(self.nodes@[i]).contains(d) ==> self.emitted_name(em, d)
    }

    /// Whether every dependency of node `i` is already emitted.
    fn is_ready(&self, emitted: &Vec<bool>, i: usize) -> (r: bool)
        requires
            self.wf(),
            emitted@.len() == self.nodes@.len(),
            i < self.nodes@.len(),
        ensures
            r == self.spec_ready(emitted@, i as int),
    {
        let deps = &self.nodes[i].deps;
        let mut j: usize = 0;
        while j < deps.len()
            invariant
                self.wf(),
                emitted@.len() == self.nodes@.len(),
                i < self.nodes@.len(),
                j <= deps@.len(),
                deps == self.nodes@[i as int].deps,
                forall|k: int| 0 <= k < j ==> self.emitted_name(emitted@, deps_of(
                    self.nodes@[i as int],
                )[k]),
            decreases deps@.len() - j,
        {
            proof {
                assert(deps_of(self.nodes@[i as int])[j as int] == deps@[j as int]@);
            }
            match find_node(&self.nodes, deps[j].as_str()) {
                None => {
                    proof {
                        // a well-formed graph has a node for every dependency
                        assert(deps_of(self.nodes@[i as int]).contains(
                            deps_of(self.nodes@[i as int])[j as int],
                        ));
                        let k = choose|k: int|
                            0 <= k < self.nodes@.len() && names_of(self.nodes@)[k] == deps@[
                                j as int
                            ]@;
                        assert(names_of(self.nodes@)[k] == self.nodes@[k].name@);
                    }
                    return false;
                },
                Some(nd) => {
                    if !emitted[nd] {
                        proof {
                            // names are distinct, so node `nd` is the only
                            // carrier of this dependency name
                            assert(!self.emitted_name(emitted@, deps@[j as int]@)) by {
                                if self.emitted_name(emitted@, deps@[j as int]@) {
                                    let j2 = choose|j2: int|
                                        0 <= j2 < self.nodes@.len() && emitted@[j2] && (
                                        #[trigger] self.nodes@[j2]).name@ == deps@[j as int]@;
                                    assert(j2 == nd as int);
                                }
                            }
                            assert(deps_of(self.nodes@[i as int]).contains(deps@[j as int]@));
                        }
                        return false;
                    }
                },
            }
            j = j + 1;
        }
        proof {
            assert forall|d: Seq<char>|
                deps_of(self.nodes@[i as int]).contains(d) implies self.emitted_name(
                emitted@,
                d,
            ) by {
                let k = choose|k: int|
                    0 <= k < deps_of(self.nodes@[i as int]).len() && deps_of(
                        self.nodes@[i as int],
                    )[k] == d;
            }
        }
        true
    }

    /// The first node that is not yet emitted but has all its dependencies
    /// emitted.
    fn find_ready(&self, emitted: &Vec<bool>) -> (r: Option<usize>)
        requires
            self.wf(),
            emitted@.len() == self.nodes@.len(),
        ensures
            r matches Some(i) ==> i < self.nodes@.len() && !emitted@[i as int] && self.spec_ready(
                emitted@,
                i as int,
            ),
            r is None ==> forall|k: int|
                0 <= k < self.nodes@.len() && !emitted@[k] ==> !self.spec_ready(emitted@, k),
    {
        let mut i: usize = 0;
        while i < self.nodes.len()
            invariant
                self.wf(),
                emitted@.len() == self.nodes@.len(),
                i <= self.nodes@.len(),
                forall|k: int| 0 <= k < i && !emitted@[k] ==> !self.spec_ready(emitted@, k),
            decreases self.nodes@.len() - i,
        {
            if !emitted[i] && self.is_ready(emitted, i) {
                return Some(i);
            }
            i = i + 1;
        }
        None
    }

    /// A total order over the node names placing every dependency strictly
    /// before its dependents, stable by first-discovery order. Fails exactly
    /// where the graph admits no such order.
    #[verifier::rlimit(60)]
    pub fn topo_order(&self) -> (r: Result<Vec<String>, ResolveError>)
        requires
            self.wf(),
        ensures
            r matches Ok(ord) ==> valid_order(*self, views_of(ord@)),
            r is Err <==> has_cycle(*self),
            r matches Err(e) ==> e is CycleError,
    {
        let n = self.nodes.len();
        let mut emitted: Vec<bool> = Vec::new();
        let mut f: usize = 0;
        while f < n
            invariant
                f <= n,
                emitted@.len() == f,
                forall|k: int| 0 <= k < f ==> !emitted@[k],
            decreases n - f,
        {
            emitted.push(false);
            f = f + 1;
        }
        let mut order: Vec<String> = Vec::new();
        let mut done = false;
        proof {
            lemma_count_all_false(emitted@);
        }
        while !done
            invariant
                self.wf(),
                n == self.nodes@.len(),
                emitted@.len() == n,
                order@.len() == count_true(emitted@),
                order@.len() <= n,
                views_of(order@).no_duplicates(),
                forall|k: int|
                    0 <= k < n ==> (#[trigger] emitted@[k] <==> views_of(order@).contains(
                        names_of(self.nodes@)[k],
                    )),
                forall|p: int|
                    0 <= p < order@.len() ==> names_of(self.nodes@).contains(
                        #[trigger] views_of(order@)[p],
                    ),
                forall|p: int, d: Seq<char>|
                    0 <= p < order@.len() && #[trigger] self.has_edge(views_of(order@)[p], d)
                        ==> exists|q: int| 0 <= q < p && views_of(order@)[q] == d,
                done ==> forall|k: int|
                    0 <= k < n && !emitted@[k] ==> !self.spec_ready(emitted@, k),
            decreases n - order@.len() + (if done {
                0int
            } else {
                1int
            }),
        {
            match self.find_ready(&emitted) {
                Some(i) => {
                    let ghost old_emitted = emitted@;
                    let ghost old_order = order@;
                    let name = self.nodes[i].name.clone();
                    order.push(name);
                    emitted.set(i, true);
                    proof {
                        lemma_emit_step(*self, old_emitted, old_order, order@, emitted@, i as int);
                    }
                },
                None => {
                    done = true;
                },
            }
        }
        if order.len() == n {
            proof {
                lemma_topo_complete(*self, emitted@, order@);
            }
            Ok(order)
        } else {
            proof {
                lemma_topo_stuck(*self, emitted@, order@);
            }
            Err(ResolveError::CycleError)
        }
    }
}

/// Emitting a ready node keeps the order's bookkeeping intact: the order
/// still lists exactly the emitted names, without duplicates, and every
/// name's dependencies stay strictly before it.
#[verifier::spinoff_prover]
proof fn lemma_emit_step(
    g: Graph,
    old_emitted: Seq<bool>,
    old_order: Seq<String>,
    order: Seq<String>,
    emitted: Seq<bool>,
    i: int,
)
    requires
        g.wf(),
        old_emitted.len() == g.nodes@.len(),
        0 <= i < g.nodes@.len(),
        !old_emitted[i],
        g.spec_ready(old_emitted, i),
        order.len() == old_order.len() + 1,
        forall|p: int| 0 <= p < old_order.len() ==> order[p] == old_order[p],
        order.last()@ == g.nodes@[i].name@,
        emitted == old_emitted.update(i, true),
        old_order.len() == count_true(old_emitted),
        views_of(old_order).no_duplicates(),
        forall|k: int|
            0 <= k < g.nodes@.len() ==> (#[trigger] old_emitted[k] <==> views_of(
                old_order,
            ).contains(names_of(g.nodes@)[k])),
        forall|p: int|
            0 <= p < old_order.len() ==> names_of(g.nodes@).contains(
                #[trigger] views_of(old_order)[p],
            ),
        forall|p: int, d: Seq<char>|
            0 <= p < old_order.len() && #[trigger] g.has_edge(views_of(old_order)[p], d)
                ==> exists|q: int| 0 <= q < p && views_of(old_order)[q] == d,
    ensures
        order.len() == count_true(emitted),
        order.len() <= g.nodes@.len(),
        views_of(order).no_duplicates(),
        forall|k: int|
            0 <= k < g.nodes@.len() ==> (#[trigger] emitted[k] <==> views_of(order).contains(
                names_of(g.nodes@)[k],
            )),
        forall|p: int|
            0 <= p < order.len() ==> names_of(g.nodes@).contains(#[trigger] views_of(order)[p]),
        forall|p: int, d: Seq<char>|
            0 <= p < order.len() && #[trigger] g.has_edge(views_of(order)[p], d) ==> exists|q: int|
                0 <= q < p && views_of(order)[q] == d,
{
    lemma_count_true_update(old_emitted, i);
    lemma_count_true_bound(emitted);
    let ov = views_of(order);
    let oov = views_of(old_order);
    let nm = g.nodes@[i].name@;
    assert(names_of(g.nodes@)[i] == nm);
    assert forall|p: int| 0 <= p < ov.len() implies ov[p] == (if p < oov.len() {
        oov[p]
    } else {
        nm
    }) by {}
    // the emitted node's name was not yet in the order
    assert(!oov.contains(nm));
    assert forall|x: Seq<char>| ov.contains(x) implies oov.contains(x) || x == nm by {
        let p = choose|p: int| 0 <= p < ov.len() && ov[p] == x;
        if p < oov.len() {
            assert(oov[p] == x);
        }
    }
    assert(ov.no_duplicates());
    assert forall|k: int|
        0 <= k < g.nodes@.len() implies (#[trigger] emitted[k] <==> ov.contains(
        names_of(g.nodes@)[k],
    )) by {
        if k == i {
            assert(ov[oov.len() as int] == nm);
        } else {
            if oov.contains(names_of(g.nodes@)[k]) {
                let p = choose|p: int| 0 <= p < oov.len() && oov[p] == names_of(g.nodes@)[k];
                assert(ov[p] == names_of(g.nodes@)[k]);
            }
            if emitted[k] {
                assert(old_emitted[k]);
            }
            if ov.contains(names_of(g.nodes@)[k]) && !oov.contains(names_of(g.nodes@)[k]) {
                // only the new entry is new, and names are distinct
                assert(names_of(g.nodes@)[k] == nm);
                assert(names_of(g.nodes@)[k] == g.nodes@[k].name@);
            }
        }
    }
    // every dependency of the new entry is already placed
    assert forall|p: int, d: Seq<char>|
        0 <= p < ov.len() && #[trigger] g.has_edge(ov[p], d) implies exists|q: int|
            0 <= q < p && ov[q] == d by {
        if p < oov.len() {
            let q = choose|q: int| 0 <= q < p && oov[q] == d;
            assert(ov[q] == d);
        } else {
            // edges from the new name come from node i alone, because names
            // are distinct
            let w = choose|w: int|
                0 <= w < g.nodes@.len() && (#[trigger] g.nodes@[w]).name@ == nm && deps_of(
                    g.nodes@[w],
                ).contains(d);
            assert(w == i) by {
                if w != i {
                    assert(names_of(g.nodes@)[w] == g.nodes@[w].name@);
                }
            }
            assert(g.emitted_name(old_emitted, d));
            let j = choose|j: int|
                0 <= j < g.nodes@.len() && old_emitted[j] && (#[trigger] g.nodes@[j]).name@ == d;
            assert(oov.contains(names_of(g.nodes@)[j]));
            let q = choose|q: int| 0 <= q < oov.len() && oov[q] == names_of(g.nodes@)[j];
            assert(ov[q] == d);
        }
    }
}

/// When every node is emitted, the order is a valid evaluation order and
/// the graph has no cycle.
#[verifier::spinoff_prover]
proof fn lemma_topo_complete(g: Graph, emitted: Seq<bool>, order: Seq<String>)
    requires
        g.wf(),
        emitted.len() == g.nodes@.len(),
        order.len() == count_true(emitted),
        order.len() == g.nodes@.len(),
        views_of(order).no_duplicates(),
        forall|k: int|
            0 <= k < g.nodes@.len() ==> (#[trigger] emitted[k] <==> views_of(order).contains(
                names_of(g.nodes@)[k],
            )),
        forall|p: int|
            0 <= p < order.len() ==> names_of(g.nodes@).contains(#[trigger] views_of(order)[p]),
        forall|p: int, d: Seq<char>|
            0 <= p < order.len() && #[trigger] g.has_edge(views_of(order)[p], d) ==> exists|q: int|
                0 <= q < p && views_of(order)[q] == d,
    ensures
        valid_order(g, views_of(order)),
        !has_cycle(g),
{
    lemma_count_true_bound(emitted);
    let ov = views_of(order);
    assert forall|x: Seq<char>| g.names().contains(x) implies ov.contains(x) by {
        let k = choose|k: int|
            0 <= k < names_of(g.nodes@).len() && names_of(g.nodes@)[k] == x;
        assert(emitted[k]);
    }
    assert forall|p: int, q: int|
        0 <= p < ov.len() && 0 <= q < ov.len() && g.has_edge(ov[p], ov[q]) implies q < p by {
        let q2 = choose|q2: int| 0 <= q2 < p && ov[q2] == ov[q];
        assert(ov.no_duplicates());
    }
    assert(valid_order(g, ov));
    if has_cycle(g) {
        let s = choose|s: Set<Seq<char>>| stuck_set(g, s);
        lemma_stuck_no_valid_order(g, s, ov);
    }
}

/// When no unemitted node is ready and some node is unemitted, the unemitted
/// names form a stuck set: the graph is cyclic.
#[verifier::spinoff_prover]
proof fn lemma_topo_stuck(g: Graph, emitted: Seq<bool>, order: Seq<String>)
    requires
        g.wf(),
        emitted.len() == g.nodes@.len(),
        order.len() == count_true(emitted),
        order.len() < g.nodes@.len(),
        forall|k: int|
            0 <= k < g.nodes@.len() ==> (#[trigger] emitted[k] <==> views_of(order).contains(
                names_of(g.nodes@)[k],
            )),
        forall|k: int|
            0 <= k < g.nodes@.len() && !emitted[k] ==> !g.spec_ready(emitted, k),
    ensures
        has_cycle(g),
{
    lemma_count_true_bound(emitted);
    let s = Set::new(
        |x: Seq<char>| names_of(g.nodes@).contains(x) && !views_of(order).contains(x),
    );
    assert(s.subset_of(names_of(g.nodes@).to_set()));
    vstd::seq_lib::seq_to_set_is_finite(names_of(g.nodes@));
    vstd::set_lib::lemma_len_subset(s, names_of(g.nodes@).to_set());
    // some node is not emitted, so the set is not empty
    let k0 = choose|k0: int| 0 <= k0 < g.nodes@.len() && !emitted[k0];
    assert(names_of(g.nodes@)[k0] == g.nodes@[k0].name@);
    assert(s.contains(names_of(g.nodes@)[k0]));
    if s.len() == 0 {
        s.lemma_len0_is_empty();
    }
    assert forall|x: Seq<char>| #[trigger] s.contains(x) implies exists|d: Seq<char>|
        s.contains(d) && g.has_edge(x, d) by {
        let k = choose|k: int| 0 <= k < g.nodes@.len() && names_of(g.nodes@)[k] == x;
        assert(names_of(g.nodes@)[k] == g.nodes@[k].name@);
        assert(!emitted[k]);
        assert(!g.spec_ready(emitted, k));
        let d = choose|d: Seq<char>|
            deps_of(g.nodes@[k]).contains(d) && !g.emitted_name(emitted, d);
        assert(names_of(g.nodes@).contains(d));
        let j = choose|j: int| 0 <= j < g.nodes@.len() && names_of(g.nodes@)[j] == d;
        assert(names_of(g.nodes@)[j] == g.nodes@[j].name@);
        assert(!emitted[j]);
        assert(s.contains(d));
        assert(g.has_edge(x, d));
    }
    assert(stuck_set(g, s));
}

/// A sequence of cleared flags has no set entries.
proof fn lemma_count_all_false(s: Seq<bool>)
    requires
        forall|k: int| 0 <= k < s.len() ==> !s[k],
    ensures
        count_true(s) == 0,
    decreases s,
{
    if s.len() > 0 {
        lemma_count_all_false(s.drop_last());
    }
}

/// No valid order exists for a graph with a stuck set: the set's earliest
/// member in the order would need one of its dependencies, also a member,
/// even earlier.
pub proof fn lemma_stuck_no_valid_order(g: Graph, s: Set<Seq<char>>, ord: Seq<Seq<char>>)
    requires
        stuck_set(g, s),
    ensures
        !valid_order(g, ord),
{
    if valid_order(g, ord) {
        let x0 = s.choose();
        assert(s.contains(x0)) by {
            if s.len() > 0 && !s.contains(s.choose()) {
                s.lemma_len0_is_empty();
            }
        }
        assert(ord.contains(x0));
        let w = choose|w: int| 0 <= w < ord.len() && ord[w] == x0;
        let p = lemma_first_in_set(ord, s, 0);
        let d = choose|d: Seq<char>| s.contains(d) && g.has_edge(ord[p], d);
        assert(ord.contains(d));
        let q = choose|q: int| 0 <= q < ord.len() && ord[q] == d;
        assert(g.has_edge(ord[p], ord[q]));
        assert(q < p);
        assert(!s.contains(ord[q]));
        assert(false);
    }
}

/// The earliest position in the order that carries a member of the set.
proof fn lemma_first_in_set(ord: Seq<Seq<char>>, s: Set<Seq<char>>, i: int) -> (p: int)
    requires
        0 <= i <= ord.len(),
        exists|q: int| i <= q < ord.len() && s.contains(#[trigger] ord[q]),
    ensures
        i <= p < ord.len(),
        s.contains(ord[p]),
        forall|q: int| 0 <= q < p && q >= i ==> !s.contains(#[trigger] ord[q]),
    decreases ord.len() - i,
{
    if s.contains(ord[i]) {
        i
    } else {
        lemma_first_in_set(ord, s, i + 1)
    }
}

/// Whether `b` is reachable from `a` along at most `k` dependency edges.
pub open spec fn reaches_in(g: Graph, a: Seq<char>, b: Seq<char>, k: nat) -> bool
    decreases k,
{
    if k == 0 {
        false
    } else {
        g.has_edge(a, b) || exists|m: Seq<char>|
            #[trigger] g.has_edge(a, m) && reaches_in(g, m, b, (k - 1) as nat)
    }
}

/// Whether `b` is a transitive dependency of `a`.
pub open spec fn reaches(g: Graph, a: Seq<char>, b: Seq<char>) -> bool {
    exists|k: nat| reaches_in(g, a, b, k)
}

/// The position of a name in an order.
pub open spec fn position(ord: Seq<Seq<char>>, x: Seq<char>) -> int {
    choose|i: int| 0 <= i < ord.len() && ord[i] == x
}

/// Both endpoints of an edge are node names.
proof fn lemma_edge_endpoints(g: Graph, a: Seq<char>, b: Seq<char>)
    requires
        g.wf(),
        g.has_edge(a, b),
    ensures
        g.names().contains(a),
        g.names().contains(b),
{
    let i = choose|i: int|
        0 <= i < g.nodes@.len() && (#[trigger] g.nodes@[i]).name@ == a && deps_of(
            g.nodes@[i],
        ).contains(b);
    assert(names_of(g.nodes@)[i] == g.nodes@[i].name@);
}

/// In any valid evaluation order, every transitive dependency stands
/// strictly before each of its dependents.
pub proof fn lemma_order_transitive_deps(g: Graph, ord: Seq<Seq<char>>, a: Seq<char>, b: Seq<char>)
    requires
        g.wf(),
        valid_order(g, ord),
        reaches(g, a, b),
    ensures
        ord.contains(a),
        ord.contains(b),
        position(ord, b) < position(ord, a),
{
    let k = choose|k: nat| reaches_in(g, a, b, k);
    lemma_order_reaches_in(g, ord, a, b, k);
}

/// The inductive step of `lemma_order_transitive_deps`, over the length of
/// the dependency path.
proof fn lemma_order_reaches_in(g: Graph, ord: Seq<Seq<char>>, a: Seq<char>, b: Seq<char>, k: nat)
    requires
        g.wf(),
        valid_order(g, ord),
        reaches_in(g, a, b, k),
    ensures
        ord.contains(a),
        ord.contains(b),
        position(ord, b) < position(ord, a),
    decreases k,
{
    if g.has_edge(a, b) {
        lemma_edge_endpoints(g, a, b);
        assert(ord.contains(a));
        assert(ord.contains(b));
        let pa = position(ord, a);
        let pb = position(ord, b);
        assert(0 <= pa < ord.len() && ord[pa] == a) by {
            let i = choose|i: int| 0 <= i < ord.len() && ord[i] == a;
        }
        assert(0 <= pb < ord.len() && ord[pb] == b) by {
            let i = choose|i: int| 0 <= i < ord.len() && ord[i] == b;
        }
        assert(g.has_edge(ord[pa], ord[pb]));
    } else {
        let m = choose|m: Seq<char>|
            #[trigger] g.has_edge(a, m) && reaches_in(g, m, b, (k - 1) as nat);
        lemma_order_reaches_in(g, ord, m, b, (k - 1) as nat);
        lemma_edge_endpoints(g, a, m);
        assert(ord.contains(a));
        let pa = position(ord, a);
        let pm = position(ord, m);
        assert(0 <= pa < ord.len() && ord[pa] == a) by {
            let i = choose|i: int| 0 <= i < ord.len() && ord[i] == a;
        }
        assert(0 <= pm < ord.len() && ord[pm] == m) by {
            let i = choose|i: int| 0 <= i < ord.len() && ord[i] == m;
        }
        assert(g.has_edge(ord[pa], ord[pm]));
    }
}

/// Extending the processed entries by one whose key owns some variables adds
/// exactly the edges from that key to those variables.
proof fn lemma_edge_upto_step(es: Seq<(Seq<char>, JsonV)>, i: int)
    requires
        0 <= i < es.len(),
    ensures
        forall|a: Seq<char>, b: Seq<char>|
            edge_upto(es.take(i + 1), a, b) <==> edge_upto(es.take(i), a, b) || (a == es[i].0
                && owner_vars(es[i].1).contains(b)),
{
    assert forall|a: Seq<char>, b: Seq<char>|
        edge_upto(es.take(i + 1), a, b) <==> edge_upto(es.take(i), a, b) || (a == es[i].0
            && owner_vars(es[i].1).contains(b)) by {
        if edge_upto(es.take(i + 1), a, b) {
            let k = choose|k: int|
                0 <= k < es.take(i + 1).len() && (#[trigger] es.take(i + 1)[k]).0 == a
                    && owner_vars(es.take(i + 1)[k].1).contains(b);
            if k < i {
                assert(es.take(i)[k] == es.take(i + 1)[k]);
                assert(edge_upto(es.take(i), a, b));
            } else {
                assert(es.take(i + 1)[k] == es[i]);
            }
        }
        if edge_upto(es.take(i), a, b) {
            let k = choose|k: int|
                0 <= k < es.take(i).len() && (#[trigger] es.take(i)[k]).0 == a && owner_vars(
                    es.take(i)[k].1,
                ).contains(b);
            assert(es.take(i + 1)[k] == es.take(i)[k]);
            assert(edge_upto(es.take(i + 1), a, b));
        }
        if a == es[i].0 && owner_vars(es[i].1).contains(b) {
            assert(es.take(i + 1)[i] == es[i]);
            assert(edge_upto(es.take(i + 1), a, b));
        }
    }
}

/// An entry whose key owns no variables adds no edges and no nodes.
proof fn lemma_no_vars_no_step(es: Seq<(Seq<char>, JsonV)>, i: int)
    requires
        0 <= i < es.len(),
        owner_vars(es[i].1) == Set::<Seq<char>>::empty(),
    ensures
        forall|a: Seq<char>, b: Seq<char>|
            edge_upto(es.take(i + 1), a, b) <==> edge_upto(es.take(i), a, b),
        forall|x: Seq<char>| node_upto(es.take(i + 1), x) <==> node_upto(es.take(i), x),
{
    lemma_edge_upto_step(es, i);
    assert forall|x: Seq<char>|
        node_upto(es.take(i + 1), x) <==> node_upto(es.take(i), x) by {
        if node_upto(es.take(i + 1), x) {
            if exists|b: Seq<char>| #[trigger] edge_upto(es.take(i + 1), x, b) {
                let b = choose|b: Seq<char>| #[trigger] edge_upto(es.take(i + 1), x, b);
                assert(edge_upto(es.take(i), x, b));
            } else {
                let a = choose|a: Seq<char>| #[trigger] edge_upto(es.take(i + 1), a, x);
                assert(edge_upto(es.take(i), a, x));
            }
        }
        if node_upto(es.take(i), x) {
            if exists|b: Seq<char>| #[trigger] edge_upto(es.take(i), x, b) {
                let b = choose|b: Seq<char>| #[trigger] edge_upto(es.take(i), x, b);
                assert(edge_upto(es.take(i + 1), x, b));
            } else {
                let a = choose|a: Seq<char>| #[trigger] edge_upto(es.take(i), a, x);
                assert(edge_upto(es.take(i + 1), a, x));
            }
        }
    }
}

} // verus!
