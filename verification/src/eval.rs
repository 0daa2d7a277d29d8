//! The topological evaluator: walks the evaluation order, renders each
//! declared key's raw value against the globals bound so far, and binds the
//! result as a new global.

use vstd::prelude::*;
use crate::engine::{
    add_global_list, add_global_str, env_globals, env_ready, mj_bool, mj_null, mj_num, mj_string,
    mj_val, new_env, num_of, render_of, render_str, TemplateEnv,
};
use crate::extract::views_of;
use crate::graph::{lookup, Graph};
use crate::value::{
    lemma_size_entries_element, lemma_size_vals_element, lemma_view_entries, lemma_view_vals,
    size_val, view_entries, view_val, view_vals, JsonV, JsonVal,
};

verus! {

/// Whether a document value can be carried into the engine as it is: every
/// number in it must parse.
pub open spec fn convertible(v: JsonV) -> bool
    decreases v,
{
    match v {
        JsonV::Num(t) => num_of(t),
        JsonV::Arr(items) => convertible_seq(items),
        JsonV::Obj(entries) => convertible_entries(entries),
        _ => true,
    }
}

pub open spec fn convertible_seq(items: Seq<JsonV>) -> bool
    decreases items,
{
    if items.len() == 0 {
        true
    } else {
        convertible(items[0]) && convertible_seq(items.drop_first())
    }
}

pub open spec fn convertible_entries(entries: Seq<(Seq<char>, JsonV)>) -> bool
    decreases entries,
{
    if entries.len() == 0 {
        true
    } else {
        convertible(entries[0].1) && convertible_entries(entries.drop_first())
    }
}

/// What one array element contributes to a bound array global: a string is
/// rendered and dropped on failure; anything else passes through untouched,
/// or is dropped where it cannot be carried into the engine.
pub open spec fn item_out(m: Map<Seq<char>, JsonV>, e: JsonV) -> Seq<JsonV> {
    match e {
        JsonV::Str(s) => match render_of(m, s) {
            Some(t) => seq![JsonV::Str(t)],
            None => Seq::empty(),
        },
        _ => if convertible(e) {
            seq![e]
        } else {
            Seq::empty()
        },
    }
}

/// The elements of a bound array global, rendered against the globals `m`.
pub open spec fn eval_items(m: Map<Seq<char>, JsonV>, items: Seq<JsonV>) -> Seq<JsonV>
    decreases items,
{
    if items.len() == 0 {
        Seq::empty()
    } else {
        item_out(m, items[0]) + eval_items(m, items.drop_first())
    }
}

/// How evaluating one name changes the globals: a declared string renders
/// and binds on success; a declared array binds its rendered elements; any
/// other raw value, or a name never declared, binds nothing.
pub open spec fn eval_step(
    m: Map<Seq<char>, JsonV>,
    raw: Option<JsonV>,
    name: Seq<char>,
) -> Map<Seq<char>, JsonV> {
    match raw {
        Some(JsonV::Str(s)) => match render_of(m, s) {
            Some(t) => m.insert(name, JsonV::Str(t)),
            None => m,
        },
        Some(JsonV::Arr(items)) => m.insert(name, JsonV::Arr(eval_items(m, items))),
        _ => m,
    }
}

/// The globals bound after evaluating the first `i` names of the order.
pub open spec fn eval_upto(
    table: Seq<(Seq<char>, JsonV)>,
    order: Seq<Seq<char>>,
    i: int,
) -> Map<Seq<char>, JsonV>
    decreases i,
{
    if i <= 0 {
        Map::empty()
    } else {
        eval_step(eval_upto(table, order, i - 1), lookup(table, order[i - 1]), order[i - 1])
    }
}

/// The globals bound after `i` steps name only the first `i` names of the
/// order.
pub proof fn lemma_eval_dom(table: Seq<(Seq<char>, JsonV)>, order: Seq<Seq<char>>, i: int)
    requires
        0 <= i <= order.len(),
    ensures
        forall|x: Seq<char>|
            #[trigger] eval_upto(table, order, i).dom().contains(x) ==> exists|k: int|
                0 <= k < i && order[k] == x,
    decreases i,
{
    if i > 0 {
        lemma_eval_dom(table, order, i - 1);
        let prev = eval_upto(table, order, i - 1);
        let cur = eval_upto(table, order, i);
        assert forall|x: Seq<char>| #[trigger] cur.dom().contains(x) implies exists|k: int|
            0 <= k < i && order[k] == x by {
            if prev.dom().contains(x) {
                let k = choose|k: int| 0 <= k < i - 1 && order[k] == x;
                assert(0 <= k < i && order[k] == x);
            } else {
                assert(x == order[i - 1]);
            }
        }
    }
}

/// A name, once bound, keeps its value through every later evaluation step:
/// a variable's resolved value is set at most once.
pub proof fn lemma_eval_binds_once(
    table: Seq<(Seq<char>, JsonV)>,
    order: Seq<Seq<char>>,
    i: int,
    j: int,
)
    requires
        order.no_duplicates(),
        0 <= i <= j <= order.len(),
    ensures
        forall|x: Seq<char>|
            #[trigger] eval_upto(table, order, i).dom().contains(x) ==> eval_upto(
                table,
                order,
                j,
            ).dom().contains(x) && eval_upto(table, order, j)[x] == eval_upto(table, order, i)[x],
    decreases j,
{
    if j > i {
        lemma_eval_binds_once(table, order, i, j - 1);
        lemma_eval_dom(table, order, i);
        let mi = eval_upto(table, order, i);
        let prev = eval_upto(table, order, j - 1);
        let cur = eval_upto(table, order, j);
        assert forall|x: Seq<char>| #[trigger] mi.dom().contains(x) implies cur.dom().contains(x)
            && cur[x] == mi[x] by {
            // the step binds at most the order's next name, which no earlier
            // position carries
            let k = choose|k: int| 0 <= k < i && order[k] == x;
            assert(x != order[j - 1]);
        }
    }
}

/// Walking one more element extends the array's contribution by that
/// element's.
proof fn lemma_eval_items_step(m: Map<Seq<char>, JsonV>, items: Seq<JsonV>, i: int)
    requires
        0 <= i < items.len(),
    ensures
        eval_items(m, items.take(i + 1)) == eval_items(m, items.take(i)) + item_out(m, items[i]),
    decreases i,
{
    let pre = items.take(i);
    let post = items.take(i + 1);
    if i == 0 {
        assert(post[0] == items[0]);
        assert(post.drop_first() =~= Seq::<JsonV>::empty());
        assert(pre =~= Seq::<JsonV>::empty());
        assert(eval_items(m, Seq::<JsonV>::empty()) == Seq::<JsonV>::empty());
        assert(eval_items(m, post) == item_out(m, post[0]) + eval_items(m, post.drop_first()));
        assert(eval_items(m, post) =~= eval_items(m, pre) + item_out(m, items[0]));
    } else {
        assert(pre[0] == items[0]);
        assert(post[0] == items[0]);
        assert(pre.drop_first() =~= items.drop_first().take(i - 1));
        assert(post.drop_first() =~= items.drop_first().take(i));
        lemma_eval_items_step(m, items.drop_first(), i - 1);
        assert(items.drop_first()[i - 1] == items[i]);
        assert(eval_items(m, post) =~= eval_items(m, pre) + item_out(m, items[i]));
    }
}

/// The sequence-wise reading of `convertible_seq`.
proof fn lemma_convertible_seq_index(items: Seq<JsonV>)
    ensures
        convertible_seq(items) <==> (forall|k: int|
            0 <= k < items.len() ==> convertible(#[trigger] items[k])),
    decreases items,
{
    if items.len() > 0 {
        lemma_convertible_seq_index(items.drop_first());
        assert forall|k: int| 0 <= k < items.drop_first().len() implies items.drop_first()[k]
            == items[k + 1] by {}
        if convertible(items[0]) && (forall|k: int|
            0 <= k < items.drop_first().len() ==> convertible(#[trigger] items.drop_first()[k])) {
            assert forall|k: int| 0 <= k < items.len() implies convertible(#[trigger] items[k]) by {
                if k > 0 {
                    assert(convertible(items.drop_first()[k - 1]));
                }
            }
        }
        if forall|k: int| 0 <= k < items.len() ==> convertible(#[trigger] items[k]) {
            assert forall|k: int| 0 <= k < items.drop_first().len() implies convertible(
                #[trigger] items.drop_first()[k],
            ) by {
                assert(items.drop_first()[k] == items[k + 1]);
            }
        }
    }
}

/// The entry-wise reading of `convertible_entries`.
proof fn lemma_convertible_entries_index(entries: Seq<(Seq<char>, JsonV)>)
    ensures
        convertible_entries(entries) <==> (forall|k: int|
            0 <= k < entries.len() ==> convertible((#[trigger] entries[k]).1)),
    decreases entries,
{
    if entries.len() > 0 {
        lemma_convertible_entries_index(entries.drop_first());
        if convertible(entries[0].1) && (forall|k: int|
            0 <= k < entries.drop_first().len() ==> convertible(
                (#[trigger] entries.drop_first()[k]).1,
            )) {
            assert forall|k: int| 0 <= k < entries.len() implies convertible(
                (#[trigger] entries[k]).1,
            ) by {
                if k > 0 {
                    assert(convertible(entries.drop_first()[k - 1].1));
                }
            }
        }
        if forall|k: int| 0 <= k < entries.len() ==> convertible((#[trigger] entries[k]).1) {
            assert forall|k: int| 0 <= k < entries.drop_first().len() implies convertible(
                (#[trigger] entries.drop_first()[k]).1,
            ) by {
                assert(entries.drop_first()[k] == entries[k + 1]);
            }
        }
    }
}

/// Carries a document value into the engine, where every number in it
/// parses.
pub fn to_mj(v: &JsonVal) -> (r: Option<minijinja::Value>)
    ensures
        r is Some <==> convertible(v@),
        r matches Some(mv) ==> mj_val(mv) == v@,
    decreases size_val(v@),
{
    match v {
        JsonVal::Null => Some(mj_null()),
        JsonVal::Bool(b) => Some(mj_bool(*b)),
        JsonVal::Str(s) => Some(mj_string(s.clone())),
        JsonVal::Num(t) => mj_num(t),
        JsonVal::Arr(items) => {
            let mut vals: Vec<minijinja::Value> = Vec::new();
            let ghost orig = items@;
            let ghost vorig = view_vals(items@);
            let mut i: usize = 0;
            proof {
                lemma_view_vals(orig);
            }
            while i < items.len()
                invariant
                    i <= items.len(),
                    items@ == orig,
                    vorig == view_vals(orig),
                    view_val(*v) == JsonV::Arr(vorig),
                    vorig.len() == orig.len(),
                    forall|k: int| 0 <= k < orig.len() ==> vorig[k] == view_val(#[trigger] orig[k]),
                    vals@.len() == i,
                    forall|k: int| 0 <= k < i ==> mj_val(#[trigger] vals@[k]) == vorig[k],
                    forall|k: int| 0 <= k < i ==> convertible(#[trigger] vorig[k]),
                decreases items.len() - i,
            {
                proof {
                    lemma_size_vals_element(vorig, i as int);
                }
                match to_mj(&items[i]) {
                    Some(mv) => {
                        vals.push(mv);
                    },
                    None => {
                        proof {
                            lemma_convertible_seq_index(vorig);
                        }
                        return None;
                    },
                }
                i = i + 1;
            }
            let r = crate::engine::mj_list(vals);
            proof {
                lemma_convertible_seq_index(vorig);
                assert(mj_val(r) == JsonV::Arr(vorig)) by {
                    assert(mj_val(r) matches JsonV::Arr(got) && got =~= vorig);
                }
            }
            Some(r)
        },
        JsonVal::Obj(entries) => {
            let mut vals: Vec<(String, minijinja::Value)> = Vec::new();
            let ghost orig = entries@;
            let ghost vorig = view_entries(entries@);
            let mut i: usize = 0;
            proof {
                lemma_view_entries(orig);
            }
            while i < entries.len()
                invariant
                    i <= entries.len(),
                    entries@ == orig,
                    vorig == view_entries(orig),
                    view_val(*v) == JsonV::Obj(vorig),
                    vorig.len() == orig.len(),
                    forall|k: int| 0 <= k < orig.len() ==> vorig[k] == ((#[trigger] orig[k]).0@,
                    view_val(orig[k].1)),
                    vals@.len() == i,
                    forall|k: int| 0 <= k < i ==> ((#[trigger] vals@[k]).0@, mj_val(vals@[k].1))
                        == vorig[k],
                    forall|k: int| 0 <= k < i ==> convertible((#[trigger] vorig[k]).1),
                decreases entries.len() - i,
            {
                proof {
                    lemma_size_entries_element(vorig, i as int);
                }
                match to_mj(&entries[i].1) {
                    Some(mv) => {
                        vals.push((entries[i].0.clone(), mv));
                    },
                    None => {
                        proof {
                            lemma_convertible_entries_index(vorig);
                        }
                        return None;
                    },
                }
                i = i + 1;
            }
            let r = crate::engine::mj_object(vals);
            proof {
                lemma_convertible_entries_index(vorig);
                assert(mj_val(r) == JsonV::Obj(vorig)) by {
                    assert(mj_val(r) matches JsonV::Obj(got) && got =~= vorig);
                }
            }
            Some(r)
        },
    }
}

/// Binds the globals in evaluation order: each declared name's raw string or
/// array is rendered against the globals bound so far and bound under that
/// name; failures and undeclared names bind nothing.
pub fn bind_globals(g: &Graph, order: &Vec<String>) -> (env: TemplateEnv)
    ensures
        env_ready(env),
        env_globals(env) == eval_upto(g.table(), views_of(order@), order@.len() as int),
{
    let mut env = new_env();
    let ghost ov = views_of(order@);
    let mut i: usize = 0;
    while i < order.len()
        invariant
            i <= order@.len(),
            ov == views_of(order@),
            env_ready(env),
            env_globals(env) == eval_upto(g.table(), ov, i as int),
        decreases order@.len() - i,
    {
        let ghost m = env_globals(env);
        let name = &order[i];
        match g.global(name.as_str()) {
            None => {},
            Some(raw) => {
                match raw {
                    JsonVal::Str(s) => {
                        match render_str(&env, s.as_str()) {
                            Ok(t) => {
                                add_global_str(&mut env, name, t);
                            },
                            Err(_) => {},
                        }
                    },
                    JsonVal::Arr(items) => {
                        let ghost vitems = view_vals(items@);
                        let mut vals: Vec<minijinja::Value> = Vec::new();
                        let mut j: usize = 0;
                        proof {
                            lemma_view_vals(items@);
                            assert(eval_items(m, vitems.take(0)) =~= Seq::<JsonV>::empty());
                            assert(vals@.map_values(|mv: minijinja::Value| mj_val(mv)) =~= Seq::<
                                JsonV,
                            >::empty());
                        }
                        while j < items.len()
                            invariant
                                j <= items@.len(),
                                vitems == view_vals(items@),
                                vitems.len() == items@.len(),
                                forall|k: int| 0 <= k < items@.len() ==> vitems[k] == view_val(
                                    #[trigger] items@[k],
                                ),
                                env_ready(env),
                                env_globals(env) == m,
                                vals@.map_values(|mv: minijinja::Value| mj_val(mv)) == eval_items(
                                    m,
                                    vitems.take(j as int),
                                ),
                            decreases items@.len() - j,
                        {
                            let ghost old_vals = vals@;
                            let e = &items[j];
                            match e {
                                JsonVal::Str(s) => {
                                    match render_str(&env, s.as_str()) {
                                        Ok(t) => {
                                            vals.push(mj_string(t));
                                        },
                                        Err(_) => {},
                                    }
                                },
                                _ => {
                                    match to_mj(e) {
                                        Some(mv) => {
                                            vals.push(mv);
                                        },
                                        None => {},
                                    }
                                },
                            }
                            proof {
                                lemma_eval_items_step(m, vitems, j as int);
                                let f = |mv: minijinja::Value| mj_val(mv);
                                assert(vals@.map_values(f) =~= eval_items(
                                    m,
                                    vitems.take(j + 1),
                                )) by {
                                    assert forall|k: int| 0 <= k < vals@.len() implies vals@.map_values(
                                        f,
                                    )[k] == (old_vals.map_values(f) + item_out(
                                        m,
                                        vitems[j as int],
                                    ))[k] by {
                                        if k < old_vals.len() {
                                            assert(vals@[k] == old_vals[k]);
                                        }
                                    }
                                }
                            }
                            j = j + 1;
                        }
                        proof {
                            assert(vitems.take(items@.len() as int) =~= vitems);
                        }
                        add_global_list(&mut env, name, vals);
                    },
                    _ => {},
                }
            },
        }
        proof {
            assert(env_globals(env) == eval_upto(g.table(), ov, i + 1)) by {
                assert(ov[i as int] == order@[i as int]@);
            }
        }
        i = i + 1;
    }
    proof {
        assert(ov.len() == order@.len());
    }
    env
}

} // verus!
