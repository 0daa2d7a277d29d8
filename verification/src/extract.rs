//! Free-variable discovery: for any document subtree, which variable names
//! its templates read, and which of its strings are invalid templates.

use vstd::prelude::*;
use crate::engine::{template_vars, tmpl_vars_of};
use crate::text::{contains_marker, has_marker};
use crate::value::{
    lemma_size_entries_element, lemma_size_vals_element, lemma_view_entries, lemma_view_vals,
    size_val, view_entries, view_val, view_vals, JsonV, JsonVal,
};

verus! {

/// The free variables of one string leaf: none without a template marker,
/// none for an invalid template, else what the template reads.
pub open spec fn leaf_vars(s: Seq<char>) -> Set<Seq<char>> {
    if has_marker(s) {
        match tmpl_vars_of(s) {
            Some(vs) => vs,
            None => Set::empty(),
        }
    } else {
        Set::empty()
    }
}

/// Whether a string leaf carries a template marker but fails to parse.
pub open spec fn leaf_invalid(s: Seq<char>) -> bool {
    has_marker(s) && tmpl_vars_of(s) is None
}

/// Every free variable name read by any template in a subtree.
pub open spec fn tree_vars(v: JsonV) -> Set<Seq<char>>
    decreases v,
{
    match v {
        JsonV::Str(s) => leaf_vars(s),
        JsonV::Arr(items) => tree_vars_seq(items),
        JsonV::Obj(entries) => tree_vars_entries(entries),
        _ => Set::empty(),
    }
}

pub open spec fn tree_vars_seq(items: Seq<JsonV>) -> Set<Seq<char>>
    decreases items,
{
    if items.len() == 0 {
        Set::empty()
    } else {
        tree_vars(items[0]).union(tree_vars_seq(items.drop_first()))
    }
}

pub open spec fn tree_vars_entries(entries: Seq<(Seq<char>, JsonV)>) -> Set<Seq<char>>
    decreases entries,
{
    if entries.len() == 0 {
        Set::empty()
    } else {
        tree_vars(entries[0].1).union(tree_vars_entries(entries.drop_first()))
    }
}

/// The invalid template texts of a subtree, in depth-first order.
pub open spec fn tree_invalids(v: JsonV) -> Seq<Seq<char>>
    decreases v,
{
    match v {
        JsonV::Str(s) => if leaf_invalid(s) {
            seq![s]
        } else {
            Seq::empty()
        },
        JsonV::Arr(items) => tree_invalids_seq(items),
        JsonV::Obj(entries) => tree_invalids_entries(entries),
        _ => Seq::empty(),
    }
}

pub open spec fn tree_invalids_seq(items: Seq<JsonV>) -> Seq<Seq<char>>
    decreases items,
{
    if items.len() == 0 {
        Seq::empty()
    } else {
        tree_invalids(items[0]) + tree_invalids_seq(items.drop_first())
    }
}

pub open spec fn tree_invalids_entries(entries: Seq<(Seq<char>, JsonV)>) -> Seq<Seq<char>>
    decreases entries,
{
    if entries.len() == 0 {
        Seq::empty()
    } else {
        tree_invalids(entries[0].1) + tree_invalids_entries(entries.drop_first())
    }
}

/// The views of a vector of strings.
pub open spec fn views_of(v: Seq<String>) -> Seq<Seq<char>> {
    v.map_values(|s: String| s@)
}

/// Views distribute over concatenation.
pub proof fn lemma_views_concat(a: Seq<String>, b: Seq<String>)
    ensures
        views_of(a + b) == views_of(a) + views_of(b),
{
    assert forall|i: int| 0 <= i < (a + b).len() implies views_of(a + b)[i] == (views_of(a)
        + views_of(b))[i] by {
        if i < a.len() {
            assert((a + b)[i] == a[i]);
        } else {
            assert((a + b)[i] == b[i - a.len()]);
        }
    }
    assert(views_of(a + b) =~= views_of(a) + views_of(b));
}

/// Walking one more array element extends the subtree's variables and
/// invalid templates by that element's.
proof fn lemma_tree_seq_step(items: Seq<JsonV>, i: int)
    requires
        0 <= i < items.len(),
    ensures
        tree_vars_seq(items.take(i + 1)) == tree_vars_seq(items.take(i)).union(tree_vars(items[i])),
        tree_invalids_seq(items.take(i + 1)) == tree_invalids_seq(items.take(i)) + tree_invalids(
            items[i],
        ),
    decreases i,
{
    let pre = items.take(i);
    let post = items.take(i + 1);
    if i == 0 {
        assert(post[0] == items[0]);
        assert(post.drop_first() =~= Seq::<JsonV>::empty());
        assert(pre =~= Seq::<JsonV>::empty());
        assert(tree_vars_seq(Seq::<JsonV>::empty()) == Set::<Seq<char>>::empty());
        assert(tree_invalids_seq(Seq::<JsonV>::empty()) == Seq::<Seq<char>>::empty());
        assert(tree_vars_seq(post) == tree_vars(post[0]).union(tree_vars_seq(post.drop_first())));
        assert(tree_invalids_seq(post) == tree_invalids(post[0]) + tree_invalids_seq(
            post.drop_first(),
        ));
        assert(tree_vars_seq(post) =~= tree_vars_seq(pre).union(tree_vars(items[0])));
        assert(tree_invalids_seq(post) =~= tree_invalids(items[0]));
    } else {
        assert(pre[0] == items[0]);
        assert(post[0] == items[0]);
        assert(pre.drop_first() =~= items.drop_first().take(i - 1));
        assert(post.drop_first() =~= items.drop_first().take(i));
        lemma_tree_seq_step(items.drop_first(), i - 1);
        assert(items.drop_first()[i - 1] == items[i]);
        assert(tree_vars_seq(post) =~= tree_vars_seq(pre).union(tree_vars(items[i])));
        assert(tree_invalids_seq(post) =~= tree_invalids_seq(pre) + tree_invalids(items[i]));
    }
}

/// The entry-sequence counterpart of `lemma_tree_seq_step`.
proof fn lemma_tree_entries_step(entries: Seq<(Seq<char>, JsonV)>, i: int)
    requires
        0 <= i < entries.len(),
    ensures
        tree_vars_entries(entries.take(i + 1)) == tree_vars_entries(entries.take(i)).union(
            tree_vars(entries[i].1),
        ),
        tree_invalids_entries(entries.take(i + 1)) == tree_invalids_entries(entries.take(i))
            + tree_invalids(entries[i].1),
    decreases i,
{
    let pre = entries.take(i);
    let post = entries.take(i + 1);
    if i == 0 {
        assert(post[0] == entries[0]);
        assert(post.drop_first() =~= Seq::<(Seq<char>, JsonV)>::empty());
        assert(pre =~= Seq::<(Seq<char>, JsonV)>::empty());
        assert(tree_vars_entries(Seq::<(Seq<char>, JsonV)>::empty()) == Set::<Seq<char>>::empty());
        assert(tree_invalids_entries(Seq::<(Seq<char>, JsonV)>::empty()) == Seq::<
            Seq<char>,
        >::empty());
        assert(tree_vars_entries(post) == tree_vars(post[0].1).union(
            tree_vars_entries(post.drop_first()),
        ));
        assert(tree_invalids_entries(post) == tree_invalids(post[0].1) + tree_invalids_entries(
            post.drop_first(),
        ));
        assert(tree_vars_entries(post) =~= tree_vars_entries(pre).union(tree_vars(entries[0].1)));
        assert(tree_invalids_entries(post) =~= tree_invalids(entries[0].1));
    } else {
        assert(pre[0] == entries[0]);
        assert(post[0] == entries[0]);
        assert(pre.drop_first() =~= entries.drop_first().take(i - 1));
        assert(post.drop_first() =~= entries.drop_first().take(i));
        lemma_tree_entries_step(entries.drop_first(), i - 1);
        assert(entries.drop_first()[i - 1] == entries[i]);
        assert(tree_vars_entries(post) =~= tree_vars_entries(pre).union(tree_vars(entries[i].1)));
        assert(tree_invalids_entries(post) =~= tree_invalids_entries(pre) + tree_invalids(
            entries[i].1,
        ));
    }
}

/// An entry's variables are among the whole entry sequence's.
pub proof fn lemma_tree_vars_entry(es: Seq<(Seq<char>, JsonV)>, i: int)
    requires
        0 <= i < es.len(),
    ensures
        tree_vars(es[i].1).subset_of(tree_vars_entries(es)),
    decreases i,
{
    if i == 0 {
    } else {
        lemma_tree_vars_entry(es.drop_first(), i - 1);
        assert(es.drop_first()[i - 1] == es[i]);
    }
}

/// Returns the free variable names read by any template in the subtree (as
/// an unordered list covering exactly that set) and the subtree's invalid
/// template texts in depth-first order.
pub fn variables(value: &JsonVal) -> (r: (Vec<String>, Vec<String>))
    ensures
        views_of(r.0@).to_set() == tree_vars(value@),
        views_of(r.1@) == tree_invalids(value@),
    decreases size_val(value@),
{
    match value {
        JsonVal::Str(s) => {
            let mut vars: Vec<String> = Vec::new();
            let mut invalid: Vec<String> = Vec::new();
            if contains_marker(s.as_str()) {
                match template_vars(s.as_str()) {
                    Some(vs) => {
                        vars = vs;
                        proof {
                            assert(views_of(vars@).to_set() =~= leaf_vars(s@));
                        }
                    },
                    None => {
                        invalid.push(s.clone());
                        proof {
                            assert(views_of(invalid@) =~= seq![s@]);
                            assert(views_of(vars@).to_set() =~= Set::empty());
                        }
                    },
                }
            } else {
                proof {
                    assert(views_of(vars@).to_set() =~= Set::empty());
                    assert(views_of(invalid@) =~= Seq::<Seq<char>>::empty());
                }
            }
            proof {
                if !(has_marker(s@) && tmpl_vars_of(s@) is None) {
                    assert(views_of(invalid@) =~= Seq::<Seq<char>>::empty());
                }
                if !has_marker(s@) || tmpl_vars_of(s@) is None {
                    assert(views_of(vars@).to_set() =~= leaf_vars(s@));
                }
            }
            (vars, invalid)
        },
        JsonVal::Arr(items) => {
            let mut vars: Vec<String> = Vec::new();
            let mut invalid: Vec<String> = Vec::new();
            let ghost orig = items@;
            let ghost vorig = view_vals(items@);
            let mut i: usize = 0;
            proof {
                lemma_view_vals(orig);
                assert(views_of(vars@).to_set() =~= tree_vars_seq(vorig.take(0)));
                assert(views_of(invalid@) =~= tree_invalids_seq(vorig.take(0)));
            }
            while i < items.len()
                invariant
                    i <= items.len(),
                    items@ == orig,
                    vorig == view_vals(orig),
                    view_val(*value) == JsonV::Arr(vorig),
                    vorig.len() == orig.len(),
                    forall|k: int| 0 <= k < orig.len() ==> vorig[k] == view_val(#[trigger] orig[k]),
                    views_of(vars@).to_set() == tree_vars_seq(vorig.take(i as int)),
                    views_of(invalid@) == tree_invalids_seq(vorig.take(i as int)),
                decreases items.len() - i,
            {
                proof {
                    lemma_size_vals_element(vorig, i as int);
                }
                let (mut cv, mut ci) = variables(&items[i]);
                let ghost old_vars = vars@;
                let ghost old_invalid = invalid@;
                let ghost cvv = cv@;
                let ghost civ = ci@;
                vars.append(&mut cv);
                invalid.append(&mut ci);
                proof {
                    lemma_tree_seq_step(vorig, i as int);
                    lemma_views_concat(old_vars, cvv);
                    lemma_views_concat(old_invalid, civ);
                    lemma_concat_to_set(old_vars, cvv);
                    assert(views_of(vars@).to_set() =~= tree_vars_seq(vorig.take(i + 1)));
                }
                i = i + 1;
            }
            proof {
                assert(vorig.take(orig.len() as int) =~= vorig);
            }
            (vars, invalid)
        },
        JsonVal::Obj(entries) => {
            let mut vars: Vec<String> = Vec::new();
            let mut invalid: Vec<String> = Vec::new();
            let ghost orig = entries@;
            let ghost vorig = view_entries(entries@);
            let mut i: usize = 0;
            proof {
                lemma_view_entries(orig);
                assert(views_of(vars@).to_set() =~= tree_vars_entries(vorig.take(0)));
                assert(views_of(invalid@) =~= tree_invalids_entries(vorig.take(0)));
            }
            while i < entries.len()
                invariant
                    i <= entries.len(),
                    entries@ == orig,
                    vorig == view_entries(orig),
                    view_val(*value) == JsonV::Obj(vorig),
                    vorig.len() == orig.len(),
                    forall|k: int| 0 <= k < orig.len() ==> vorig[k] == ((#[trigger] orig[k]).0@,
                    view_val(orig[k].1)),
                    views_of(vars@).to_set() == tree_vars_entries(vorig.take(i as int)),
                    views_of(invalid@) == tree_invalids_entries(vorig.take(i as int)),
                decreases entries.len() - i,
            {
                proof {
                    lemma_size_entries_element(vorig, i as int);
                }
                let (mut cv, mut ci) = variables(&entries[i].1);
                let ghost old_vars = vars@;
                let ghost old_invalid = invalid@;
                let ghost cvv = cv@;
                let ghost civ = ci@;
                vars.append(&mut cv);
                invalid.append(&mut ci);
                proof {
                    lemma_tree_entries_step(vorig, i as int);
                    lemma_views_concat(old_vars, cvv);
                    lemma_views_concat(old_invalid, civ);
                    lemma_concat_to_set(old_vars, cvv);
                    assert(views_of(vars@).to_set() =~= tree_vars_entries(vorig.take(i + 1)));
                }
                i = i + 1;
            }
            proof {
                assert(vorig.take(orig.len() as int) =~= vorig);
            }
            (vars, invalid)
        },
        _ => {
            let vars: Vec<String> = Vec::new();
            let invalid: Vec<String> = Vec::new();
            proof {
                assert(views_of(vars@).to_set() =~= Set::empty());
                assert(views_of(invalid@) =~= Seq::<Seq<char>>::empty());
            }
            (vars, invalid)
        },
    }
}

/// The set of a concatenation's views is the union of the parts' sets.
proof fn lemma_concat_to_set(a: Seq<String>, b: Seq<String>)
    ensures
        views_of(a + b).to_set() == views_of(a).to_set().union(views_of(b).to_set()),
{
    let lhs = views_of(a + b).to_set();
    let rhs = views_of(a).to_set().union(views_of(b).to_set());
    assert forall|x: Seq<char>| lhs.contains(x) implies rhs.contains(x) by {
        let i = choose|i: int| 0 <= i < views_of(a + b).len() && views_of(a + b)[i] == x;
        if i < a.len() {
            assert(views_of(a)[i] == x);
        } else {
            assert(views_of(b)[i - a.len()] == x);
        }
    }
    assert forall|x: Seq<char>| rhs.contains(x) implies lhs.contains(x) by {
        if views_of(a).to_set().contains(x) {
            let i = choose|i: int| 0 <= i < views_of(a).len() && views_of(a)[i] == x;
            assert(views_of(a + b)[i] == x);
        } else {
            let i = choose|i: int| 0 <= i < views_of(b).len() && views_of(b)[i] == x;
            assert(views_of(a + b)[a.len() + i] == x);
        }
    }
    assert(lhs =~= rhs);
}

} // verus!
