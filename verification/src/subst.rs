//! The substitution pass: a full depth-first walk that renders every string
//! leaf carrying a template marker against the resolved globals, collecting
//! every failure.

use vstd::prelude::*;
use crate::engine::{env_globals, env_ready, render_of, render_str, TemplateEnv};
use crate::text::has_marker;
use crate::value::{
    lemma_size_entries_element, lemma_size_vals_element, lemma_view_entries, lemma_view_vals,
    size_val, view_entries, view_val, view_vals, JsonV, JsonVal,
};

verus! {

/// The document after substitution: every string leaf with a template marker
/// is replaced by its rendered text where rendering succeeds, and kept as it
/// is where it fails; every other node keeps its shape.
pub open spec fn subst_val(m: Map<Seq<char>, JsonV>, v: JsonV) -> JsonV
    decreases v,
{
    match v {
        JsonV::Str(s) => if has_marker(s) {
            match render_of(m, s) {
                Some(t) => JsonV::Str(t),
                None => JsonV::Str(s),
            }
        } else {
            JsonV::Str(s)
        },
        JsonV::Arr(items) => JsonV::Arr(subst_seq(m, items)),
        JsonV::Obj(entries) => JsonV::Obj(subst_entries(m, entries)),
        _ => v,
    }
}

pub open spec fn subst_seq(m: Map<Seq<char>, JsonV>, items: Seq<JsonV>) -> Seq<JsonV>
    decreases items,
{
    if items.len() == 0 {
        Seq::empty()
    } else {
        seq![subst_val(m, items[0])] + subst_seq(m, items.drop_first())
    }
}

pub open spec fn subst_entries(
    m: Map<Seq<char>, JsonV>,
    entries: Seq<(Seq<char>, JsonV)>,
) -> Seq<(Seq<char>, JsonV)>
    decreases entries,
{
    if entries.len() == 0 {
        Seq::empty()
    } else {
        seq![(entries[0].0, subst_val(m, entries[0].1))] + subst_entries(m, entries.drop_first())
    }
}

/// How many string leaves with a template marker fail to render.
pub open spec fn fail_count(m: Map<Seq<char>, JsonV>, v: JsonV) -> nat
    decreases v,
{
    match v {
        JsonV::Str(s) => if has_marker(s) && render_of(m, s) is None {
            1
        } else {
            0
        },
        JsonV::Arr(items) => fail_count_seq(m, items),
        JsonV::Obj(entries) => fail_count_entries(m, entries),
        _ => 0,
    }
}

pub open spec fn fail_count_seq(m: Map<Seq<char>, JsonV>, items: Seq<JsonV>) -> nat
    decreases items,
{
    if items.len() == 0 {
        0
    } else {
        fail_count(m, items[0]) + fail_count_seq(m, items.drop_first())
    }
}

pub open spec fn fail_count_entries(
    m: Map<Seq<char>, JsonV>,
    entries: Seq<(Seq<char>, JsonV)>,
) -> nat
    decreases entries,
{
    if entries.len() == 0 {
        0
    } else {
        fail_count(m, entries[0].1) + fail_count_entries(m, entries.drop_first())
    }
}

/// Walking one more element extends the substituted prefix and the failure
/// count by that element's.
proof fn lemma_subst_seq_step(m: Map<Seq<char>, JsonV>, items: Seq<JsonV>, i: int)
    requires
        0 <= i < items.len(),
    ensures
        subst_seq(m, items.take(i + 1)) == subst_seq(m, items.take(i)) + seq![
            subst_val(m, items[i]),
        ],
        fail_count_seq(m, items.take(i + 1)) == fail_count_seq(m, items.take(i)) + fail_count(
            m,
            items[i],
        ),
    decreases i,
{
    let pre = items.take(i);
    let post = items.take(i + 1);
    if i == 0 {
        assert(post[0] == items[0]);
        assert(post.drop_first() =~= Seq::<JsonV>::empty());
        assert(pre =~= Seq::<JsonV>::empty());
        assert(subst_seq(m, Seq::<JsonV>::empty()) == Seq::<JsonV>::empty());
        assert(fail_count_seq(m, Seq::<JsonV>::empty()) == 0);
        assert(subst_seq(m, post) =~= subst_seq(m, pre) + seq![subst_val(m, items[0])]);
        assert(fail_count_seq(m, post) == fail_count_seq(m, pre) + fail_count(m, items[0]));
    } else {
        assert(pre[0] == items[0]);
        assert(post[0] == items[0]);
        assert(pre.drop_first() =~= items.drop_first().take(i - 1));
        assert(post.drop_first() =~= items.drop_first().take(i));
        lemma_subst_seq_step(m, items.drop_first(), i - 1);
        assert(items.drop_first()[i - 1] == items[i]);
        assert(subst_seq(m, post) =~= subst_seq(m, pre) + seq![subst_val(m, items[i])]);
        assert(fail_count_seq(m, post) == fail_count_seq(m, pre) + fail_count(m, items[i]));
    }
}

/// The entry-sequence counterpart of `lemma_subst_seq_step`.
proof fn lemma_subst_entries_step(m: Map<Seq<char>, JsonV>, entries: Seq<(Seq<char>, JsonV)>, i: int)
    requires
        0 <= i < entries.len(),
    ensures
        subst_entries(m, entries.take(i + 1)) == subst_entries(m, entries.take(i)) + seq![
            (entries[i].0, subst_val(m, entries[i].1)),
        ],
        fail_count_entries(m, entries.take(i + 1)) == fail_count_entries(m, entries.take(i))
            + fail_count(m, entries[i].1),
    decreases i,
{
    let pre = entries.take(i);
    let post = entries.take(i + 1);
    if i == 0 {
        assert(post[0] == entries[0]);
        assert(post.drop_first() =~= Seq::<(Seq<char>, JsonV)>::empty());
        assert(pre =~= Seq::<(Seq<char>, JsonV)>::empty());
        assert(subst_entries(m, Seq::<(Seq<char>, JsonV)>::empty()) == Seq::<
            (Seq<char>, JsonV),
        >::empty());
        assert(fail_count_entries(m, Seq::<(Seq<char>, JsonV)>::empty()) == 0);
        assert(subst_entries(m, post) =~= subst_entries(m, pre) + seq![
            (entries[0].0, subst_val(m, entries[0].1)),
        ]);
        assert(fail_count_entries(m, post) == fail_count_entries(m, pre) + fail_count(
            m,
            entries[0].1,
        ));
    } else {
        assert(pre[0] == entries[0]);
        assert(post[0] == entries[0]);
        assert(pre.drop_first() =~= entries.drop_first().take(i - 1));
        assert(post.drop_first() =~= entries.drop_first().take(i));
        lemma_subst_entries_step(m, entries.drop_first(), i - 1);
        assert(entries.drop_first()[i - 1] == entries[i]);
        assert(subst_entries(m, post) =~= subst_entries(m, pre) + seq![
            (entries[i].0, subst_val(m, entries[i].1)),
        ]);
        assert(fail_count_entries(m, post) == fail_count_entries(m, pre) + fail_count(
            m,
            entries[i].1,
        ));
    }
}

/// Rebuilds a subtree with every marker-carrying string leaf rendered, and
/// collects one error text per failing leaf.
pub fn substitute(env: &TemplateEnv, value: &JsonVal, errors: &mut Vec<String>) -> (r: JsonVal)
    requires
        env_ready(*env),
    ensures
        r@ == subst_val(env_globals(*env), value@),
        final(errors)@.len() == old(errors)@.len() + fail_count(env_globals(*env), value@),
    decreases size_val(value@),
{
    let ghost m = env_globals(*env);
    match value {
        JsonVal::Null => JsonVal::Null,
        JsonVal::Bool(b) => JsonVal::Bool(*b),
        JsonVal::Num(t) => JsonVal::Num(t.clone()),
        JsonVal::Str(s) => {
            if crate::text::contains_marker(s.as_str()) {
                match render_str(env, s.as_str()) {
                    Ok(t) => JsonVal::Str(t),
                    Err(e) => {
                        errors.push(e);
                        JsonVal::Str(s.clone())
                    },
                }
            } else {
                JsonVal::Str(s.clone())
            }
        },
        JsonVal::Arr(items) => {
            let mut out: Vec<JsonVal> = Vec::new();
            let ghost orig = items@;
            let ghost vorig = view_vals(items@);
            let ghost errs0 = errors@;
            let mut i: usize = 0;
            proof {
                lemma_view_vals(orig);
                assert(subst_seq(m, vorig.take(0)) =~= Seq::<JsonV>::empty());
            }
            while i < items.len()
                invariant
                    i <= items.len(),
                    items@ == orig,
                    vorig == view_vals(orig),
                    view_val(*value) == JsonV::Arr(vorig),
                    vorig.len() == orig.len(),
                    forall|k: int| 0 <= k < orig.len() ==> vorig[k] == view_val(#[trigger] orig[k]),
                    env_ready(*env),
                    m == env_globals(*env),
                    out@.len() == i,
                    view_vals(out@) == subst_seq(m, vorig.take(i as int)),
                    errors@.len() == errs0.len() + fail_count_seq(m, vorig.take(i as int)),
                decreases items.len() - i,
            {
                proof {
                    lemma_size_vals_element(vorig, i as int);
                }
                let ghost old_out = out@;
                let c = substitute(env, &items[i], errors);
                out.push(c);
                proof {
                    lemma_subst_seq_step(m, vorig, i as int);
                    lemma_view_vals(old_out);
                    lemma_view_vals(out@);
                    assert forall|q: int| 0 <= q < out@.len() implies view_vals(out@)[q]
                        == subst_seq(m, vorig.take(i + 1))[q] by {
                        assert(view_vals(out@)[q] == view_val(out@[q]));
                        if q < old_out.len() {
                            assert(out@[q] == old_out[q]);
                            assert(view_vals(old_out)[q] == view_val(old_out[q]));
                        } else {
                            assert(out@[q] == c);
                        }
                    }
                    assert(view_vals(out@) =~= subst_seq(m, vorig.take(i + 1)));
                }
                i = i + 1;
            }
            proof {
                assert(vorig.take(orig.len() as int) =~= vorig);
            }
            JsonVal::Arr(out)
        },
        JsonVal::Obj(entries) => {
            let mut out: Vec<(String, JsonVal)> = Vec::new();
            let ghost orig = entries@;
            let ghost vorig = view_entries(entries@);
            let ghost errs0 = errors@;
            let mut i: usize = 0;
            proof {
                lemma_view_entries(orig);
                assert(subst_entries(m, vorig.take(0)) =~= Seq::<(Seq<char>, JsonV)>::empty());
            }
            while i < entries.len()
                invariant
                    i <= entries.len(),
                    entries@ == orig,
                    vorig == view_entries(orig),
                    view_val(*value) == JsonV::Obj(vorig),
                    vorig.len() == orig.len(),
                    forall|k: int| 0 <= k < orig.len() ==> vorig[k] == ((#[trigger] orig[k]).0@,
                    view_val(orig[k].1)),
                    env_ready(*env),
                    m == env_globals(*env),
                    out@.len() == i,
                    view_entries(out@) == subst_entries(m, vorig.take(i as int)),
                    errors@.len() == errs0.len() + fail_count_entries(m, vorig.take(i as int)),
                decreases entries.len() - i,
            {
                proof {
                    lemma_size_entries_element(vorig, i as int);
                }
                let ghost old_out = out@;
                let key = entries[i].0.clone();
                let c = substitute(env, &entries[i].1, errors);
                out.push((key, c));
                proof {
                    lemma_subst_entries_step(m, vorig, i as int);
                    lemma_view_entries(old_out);
                    lemma_view_entries(out@);
                    assert forall|q: int| 0 <= q < out@.len() implies view_entries(out@)[q]
                        == subst_entries(m, vorig.take(i + 1))[q] by {
                        assert(view_entries(out@)[q] == (out@[q].0@, view_val(out@[q].1)));
                        if q < old_out.len() {
                            assert(out@[q] == old_out[q]);
                            assert(view_entries(old_out)[q] == (
                                old_out[q].0@,
                                view_val(old_out[q].1),
                            ));
                        } else {
                            assert(out@[q].0@ == orig[i as int].0@ && out@[q].1 == c);
                        }
                    }
                    assert(view_entries(out@) =~= subst_entries(m, vorig.take(i + 1)));
                }
                i = i + 1;
            }
            proof {
                assert(vorig.take(orig.len() as int) =~= vorig);
            }
            JsonVal::Obj(out)
        },
    }
}

/// Whether no string leaf of a document carries a template marker.
pub open spec fn no_markers(v: JsonV) -> bool
    decreases v,
{
    match v {
        JsonV::Str(s) => !has_marker(s),
        JsonV::Arr(items) => no_markers_seq(items),
        JsonV::Obj(entries) => no_markers_entries(entries),
        _ => true,
    }
}

pub open spec fn no_markers_seq(items: Seq<JsonV>) -> bool
    decreases items,
{
    if items.len() == 0 {
        true
    } else {
        no_markers(items[0]) && no_markers_seq(items.drop_first())
    }
}

pub open spec fn no_markers_entries(entries: Seq<(Seq<char>, JsonV)>) -> bool
    decreases entries,
{
    if entries.len() == 0 {
        true
    } else {
        no_markers(entries[0].1) && no_markers_entries(entries.drop_first())
    }
}

/// Substitution is idempotent: on a document with no remaining template
/// markers it changes nothing and records no failure, whatever the globals.
pub proof fn lemma_subst_idempotent(m: Map<Seq<char>, JsonV>, v: JsonV)
    requires
        no_markers(v),
    ensures
        subst_val(m, v) == v,
        fail_count(m, v) == 0,
    decreases v,
{
    match v {
        JsonV::Arr(items) => {
            lemma_subst_idempotent_seq(m, items);
        },
        JsonV::Obj(entries) => {
            lemma_subst_idempotent_entries(m, entries);
        },
        _ => {},
    }
}

proof fn lemma_subst_idempotent_seq(m: Map<Seq<char>, JsonV>, items: Seq<JsonV>)
    requires
        no_markers_seq(items),
    ensures
        subst_seq(m, items) == items,
        fail_count_seq(m, items) == 0,
    decreases items,
{
    if items.len() > 0 {
        lemma_subst_idempotent(m, items[0]);
        lemma_subst_idempotent_seq(m, items.drop_first());
        assert(subst_seq(m, items) =~= items);
    } else {
        assert(subst_seq(m, items) =~= items);
    }
}

proof fn lemma_subst_idempotent_entries(m: Map<Seq<char>, JsonV>, entries: Seq<(Seq<char>, JsonV)>)
    requires
        no_markers_entries(entries),
    ensures
        subst_entries(m, entries) == entries,
        fail_count_entries(m, entries) == 0,
    decreases entries,
{
    if entries.len() > 0 {
        lemma_subst_idempotent(m, entries[0].1);
        lemma_subst_idempotent_entries(m, entries.drop_first());
        assert(subst_entries(m, entries) =~= entries);
    } else {
        assert(subst_entries(m, entries) =~= entries);
    }
}

} // verus!
