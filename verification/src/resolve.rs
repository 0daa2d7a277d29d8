//! The resolver pipeline: graph building, topological evaluation, and the
//! final substitution pass, in one call.

use vstd::prelude::*;
use crate::engine::{env_globals, new_env, no_globals, render_of, render_str};
use crate::eval::{bind_globals, eval_upto};
use crate::extract::{tree_invalids, views_of};
use crate::graph::{
    doc_edge, doc_entries, doc_participant, has_cycle, stuck_set, Graph, VarNodes,
};
use crate::subst::{fail_count, subst_val, substitute};
use crate::value::JsonV;
use crate::{JsonVal, ResolveError};

verus! {

/// A witness that the document's dependencies are cyclic: a nonempty set of
/// names, each of which depends on another member of the set.
pub open spec fn doc_stuck(v: JsonV, s: Set<Seq<char>>) -> bool {
    &&& s.finite()
    &&& s.len() > 0
    &&& forall|x: Seq<char>|
        #[trigger] s.contains(x) ==> exists|d: Seq<char>| s.contains(d) && doc_edge(v, x, d)
}

/// Whether the document's dependency graph has a cycle.
pub open spec fn doc_has_cycle(v: JsonV) -> bool {
    exists|s: Set<Seq<char>>| doc_stuck(v, s)
}

/// A valid evaluation order for a document: exactly the document's variable
/// names and edge-owning keys, each one after all of its dependencies.
pub open spec fn doc_valid_order(v: JsonV, ord: Seq<Seq<char>>) -> bool {
    &&& ord.no_duplicates()
    &&& forall|x: Seq<char>| ord.contains(x) <==> doc_participant(v, x)
    &&& forall|p: int, q: int|
        0 <= p < ord.len() && 0 <= q < ord.len() && doc_edge(v, ord[p], ord[q]) ==> q < p
}

/// A graph whose edges and nodes are exactly the document's is cyclic
/// exactly when the document is.
proof fn lemma_cycle_bridge(g: Graph, v: JsonV)
    requires
        forall|a: Seq<char>, b: Seq<char>| #[trigger] g.has_edge(a, b) <==> doc_edge(v, a, b),
        forall|x: Seq<char>| #[trigger] g.names().contains(x) <==> doc_participant(v, x),
    ensures
        has_cycle(g) <==> doc_has_cycle(v),
{
    if has_cycle(g) {
        let s = choose|s: Set<Seq<char>>| stuck_set(g, s);
        assert forall|x: Seq<char>| #[trigger] s.contains(x) implies exists|d: Seq<char>|
            s.contains(d) && doc_edge(v, x, d) by {
            let d = choose|d: Seq<char>| s.contains(d) && g.has_edge(x, d);
            assert(doc_edge(v, x, d));
        }
        assert(doc_stuck(v, s));
    }
    if doc_has_cycle(v) {
        let s = choose|s: Set<Seq<char>>| doc_stuck(v, s);
        assert forall|x: Seq<char>| #[trigger] s.contains(x) implies g.names().contains(x)
            && exists|d: Seq<char>| s.contains(d) && g.has_edge(x, d) by {
            let d = choose|d: Seq<char>| s.contains(d) && doc_edge(v, x, d);
            assert(g.has_edge(x, d));
            assert(doc_participant(v, x));
        }
        assert(stuck_set(g, s));
    }
}

/// Renders any leaves of the document that are templates, resolving
/// references between top-level keys in dependency order. Fails with every
/// invalid template before rendering anything, fails fatally on a dependency
/// cycle, and otherwise replaces every template leaf that renders, reporting
/// one error per leaf that does not.
pub fn render(value: &mut JsonVal) -> (r: Result<(), ResolveError>)
    ensures
        tree_invalids(old(value)@).len() > 0 ==> (r matches Err(
            ResolveError::InvalidTemplates(ts),
        ) && views_of(ts@) == tree_invalids(old(value)@) && final(value)@ == old(value)@),
        tree_invalids(old(value)@).len() == 0 ==> ((r matches Err(ResolveError::CycleError))
            <==> doc_has_cycle(old(value)@)),
        r matches Err(ResolveError::CycleError) ==> final(value)@ == old(value)@,
        tree_invalids(old(value)@).len() == 0 && !doc_has_cycle(old(value)@) ==> exists|
            ord: Seq<Seq<char>>,
        |
            {
                let m = eval_upto(doc_entries(old(value)@), ord, ord.len() as int);
                &&& #[trigger] doc_valid_order(old(value)@, ord)
                &&& final(value)@ == subst_val(m, old(value)@)
                &&& (r is Ok <==> fail_count(m, old(value)@) == 0)
                &&& (fail_count(m, old(value)@) > 0 ==> (r matches Err(
                    ResolveError::RenderErrors(msgs),
                ) && msgs@.len() == fail_count(m, old(value)@)))
            },
{
    let var_nodes = VarNodes::new();
    let g = match var_nodes.graph(value) {
        Err(e) => {
            return Err(e);
        },
        Ok(g) => g,
    };
    proof {
        assert forall|a: Seq<char>, b: Seq<char>| #[trigger] g.has_edge(a, b) <==> doc_edge(
            old(value)@,
            a,
            b,
        ) by {}
        assert forall|x: Seq<char>| #[trigger] g.names().contains(x) <==> doc_participant(
            old(value)@,
            x,
        ) by {}
        lemma_cycle_bridge(g, old(value)@);
    }
    let order = match g.topo_order() {
        Err(e) => {
            proof {
                assert(e is CycleError);
            }
            return Err(ResolveError::CycleError);
        },
        Ok(o) => o,
    };
    let env = bind_globals(&g, &order);
    let mut errors: Vec<String> = Vec::new();
    let out = substitute(&env, value, &mut errors);
    *value = out;
    let ghost ord = views_of(order@);
    proof {
        assert(doc_valid_order(old(value)@, ord)) by {
            assert forall|x: Seq<char>| ord.contains(x) <==> doc_participant(old(value)@, x) by {
                assert(ord.contains(x) <==> g.names().contains(x));
            }
            assert forall|p: int, q: int|
                0 <= p < ord.len() && 0 <= q < ord.len() && doc_edge(
                    old(value)@,
                    ord[p],
                    ord[q],
                ) implies q < p by {
                assert(g.has_edge(ord[p], ord[q]));
            }
        }
        assert(env_globals(env) == eval_upto(doc_entries(old(value)@), ord, ord.len() as int));
    }
    if errors.len() > 0 {
        let r = Err(ResolveError::RenderErrors(errors));
        proof {
            let m = eval_upto(doc_entries(old(value)@), ord, ord.len() as int);
            assert(doc_valid_order(old(value)@, ord) && final(value)@ == subst_val(
                m,
                old(value)@,
            ));
        }
        r
    } else {
        proof {
            let m = eval_upto(doc_entries(old(value)@), ord, ord.len() as int);
            assert(doc_valid_order(old(value)@, ord) && final(value)@ == subst_val(
                m,
                old(value)@,
            ));
        }
        Ok(())
    }
}

/// Renders one template string with no globals bound, through the library's
/// environment and filters.
pub fn render_template(tmpl: &str) -> (r: Result<String, String>)
    ensures
        r is Ok <==> render_of(no_globals(), tmpl@) is Some,
        r matches Ok(s) ==> Some(s@) == render_of(no_globals(), tmpl@),
{
    let env = new_env();
    render_str(&env, tmpl)
}

} // verus!
