//! The document model: a tree of scalar, array and object nodes.
//!
//! Numbers are carried as their literal text so that the tree itself stays
//! free of machine-width concerns; the resolver never does arithmetic on
//! document numbers, it only reads and rewrites string leaves.

use vstd::prelude::*;

verus! {

/// One node of a configuration document.
#[derive(Debug, PartialEq, Eq)]
pub enum JsonVal {
    Null,
    Bool(bool),
    /// A number, kept as its literal text form.
    Num(String),
    Str(String),
    Arr(Vec<JsonVal>),
    Obj(Vec<(String, JsonVal)>),
}

/// The mathematical shape of a document node.
pub enum JsonV {
    Null,
    Bool(bool),
    Num(Seq<char>),
    Str(Seq<char>),
    Arr(Seq<JsonV>),
    Obj(Seq<(Seq<char>, JsonV)>),
}

pub open spec fn view_val(v: JsonVal) -> JsonV
    decreases v,
{
    match v {
        JsonVal::Null => JsonV::Null,
        JsonVal::Bool(b) => JsonV::Bool(b),
        JsonVal::Num(t) => JsonV::Num(t@),
        JsonVal::Str(s) => JsonV::Str(s@),
        JsonVal::Arr(items) => JsonV::Arr(view_vals(items@)),
        JsonVal::Obj(entries) => JsonV::Obj(view_entries(entries@)),
    }
}

pub open spec fn view_vals(items: Seq<JsonVal>) -> Seq<JsonV>
    decreases items,
{
    if items.len() == 0 {
        Seq::empty()
    } else {
        seq![view_val(items[0])] + view_vals(items.drop_first())
    }
}

pub open spec fn view_entries(entries: Seq<(String, JsonVal)>) -> Seq<(Seq<char>, JsonV)>
    decreases entries,
{
    if entries.len() == 0 {
        Seq::empty()
    } else {
        seq![(entries[0].0@, view_val(entries[0].1))] + view_entries(entries.drop_first())
    }
}

impl View for JsonVal {
    type V = JsonV;

    open spec fn view(&self) -> JsonV {
        view_val(*self)
    }
}

/// A size measure for structural recursion over documents.
pub open spec fn size_val(v: JsonV) -> nat
    decreases v,
{
    match v {
        JsonV::Arr(items) => 1 + size_vals(items),
        JsonV::Obj(entries) => 1 + size_entries(entries),
        _ => 1,
    }
}

pub open spec fn size_vals(items: Seq<JsonV>) -> nat
    decreases items,
{
    if items.len() == 0 {
        0
    } else {
        size_val(items[0]) + size_vals(items.drop_first())
    }
}

pub open spec fn size_entries(entries: Seq<(Seq<char>, JsonV)>) -> nat
    decreases entries,
{
    if entries.len() == 0 {
        0
    } else {
        size_val(entries[0].1) + size_entries(entries.drop_first())
    }
}

/// Every element of a sequence weighs no more than the whole sequence.
pub proof fn lemma_size_vals_element(items: Seq<JsonV>, i: int)
    requires
        0 <= i < items.len(),
    ensures
        size_val(items[i]) <= size_vals(items),
    decreases items,
{
    if i > 0 {
        lemma_size_vals_element(items.drop_first(), i - 1);
        assert(items.drop_first()[i - 1] == items[i]);
    }
}

/// Every entry's value weighs no more than the whole entry sequence.
pub proof fn lemma_size_entries_element(entries: Seq<(Seq<char>, JsonV)>, i: int)
    requires
        0 <= i < entries.len(),
    ensures
        size_val(entries[i].1) <= size_entries(entries),
    decreases entries,
{
    if i > 0 {
        lemma_size_entries_element(entries.drop_first(), i - 1);
        assert(entries.drop_first()[i - 1] == entries[i]);
    }
}

/// The element-wise reading of `view_vals`.
pub proof fn lemma_view_vals(items: Seq<JsonVal>)
    ensures
        view_vals(items).len() == items.len(),
        forall|i: int| 0 <= i < items.len() ==> view_vals(items)[i] == view_val(#[trigger] items[i]),
    decreases items,
{
    if items.len() > 0 {
        lemma_view_vals(items.drop_first());
        assert forall|i: int| 0 <= i < items.len() implies view_vals(items)[i] == view_val(
            #[trigger] items[i],
        ) by {
            if i > 0 {
                assert(items.drop_first()[i - 1] == items[i]);
            }
        }
    }
}

/// The element-wise reading of `view_entries`.
pub proof fn lemma_view_entries(entries: Seq<(String, JsonVal)>)
    ensures
        view_entries(entries).len() == entries.len(),
        forall|i: int| 0 <= i < entries.len() ==> view_entries(entries)[i]
            == ((#[trigger] entries[i]).0@, view_val(entries[i].1)),
    decreases entries,
{
    if entries.len() > 0 {
        lemma_view_entries(entries.drop_first());
        assert forall|i: int| 0 <= i < entries.len() implies view_entries(entries)[i] == ((
        #[trigger] entries[i]).0@, view_val(entries[i].1)) by {
            if i > 0 {
                assert(entries.drop_first()[i - 1] == entries[i]);
            }
        }
    }
}

impl JsonVal {
    /// A structurally equal copy of this node.
    pub fn deep_clone(&self) -> (r: JsonVal)
        ensures
            r@ == self@,
        decreases size_val(self@),
    {
        match self {
            JsonVal::Null => JsonVal::Null,
            JsonVal::Bool(b) => JsonVal::Bool(*b),
            JsonVal::Num(t) => JsonVal::Num(t.clone()),
            JsonVal::Str(s) => JsonVal::Str(s.clone()),
            JsonVal::Arr(items) => {
                let mut out: Vec<JsonVal> = Vec::new();
                let ghost orig = items@;
                let mut i: usize = 0;
                proof {
                    lemma_view_vals(orig);
                }
                while i < items.len()
                    invariant
                        i <= items.len(),
                        items@ == orig,
                        view_val(*self) == JsonV::Arr(view_vals(orig)),
                        out@.len() == i,
                        forall|k: int| 0 <= k < i ==> view_val(#[trigger] out@[k]) == view_val(
                            orig[k],
                        ),
                        view_vals(orig).len() == orig.len(),
                        forall|k: int| 0 <= k < orig.len() ==> view_vals(orig)[k] == view_val(
                            #[trigger] orig[k],
                        ),
                    decreases items.len() - i,
                {
                    proof {
                        lemma_size_vals_element(view_vals(orig), i as int);
                    }
                    let c = items[i].deep_clone();
                    out.push(c);
                    i = i + 1;
                }
                proof {
                    lemma_view_vals(out@);
                    assert forall|k: int| 0 <= k < orig.len() implies view_vals(out@)[k]
                        == view_vals(orig)[k] by {
                        assert(view_val(out@[k]) == view_val(orig[k]));
                    }
                    assert(view_vals(out@) =~= view_vals(orig));
                }
                JsonVal::Arr(out)
            },
            JsonVal::Obj(entries) => {
                let mut out: Vec<(String, JsonVal)> = Vec::new();
                let ghost orig = entries@;
                let mut i: usize = 0;
                proof {
                    lemma_view_entries(orig);
                }
                while i < entries.len()
                    invariant
                        i <= entries.len(),
                        entries@ == orig,
                        view_val(*self) == JsonV::Obj(view_entries(orig)),
                        out@.len() == i,
                        forall|k: int| 0 <= k < i ==> (#[trigger] out@[k]).0@ == orig[k].0@
                            && view_val(out@[k].1) == view_val(orig[k].1),
                        view_entries(orig).len() == orig.len(),
                        forall|k: int| 0 <= k < orig.len() ==> view_entries(orig)[k] == ((
                        #[trigger] orig[k]).0@, view_val(orig[k].1)),
                    decreases entries.len() - i,
                {
                    proof {
                        lemma_size_entries_element(view_entries(orig), i as int);
                    }
                    let key = entries[i].0.clone();
                    let c = entries[i].1.deep_clone();
                    out.push((key, c));
                    i = i + 1;
                }
                proof {
                    lemma_view_entries(out@);
                    assert forall|k: int| 0 <= k < orig.len() implies view_entries(out@)[k]
                        == view_entries(orig)[k] by {
                        assert(out@[k].0@ == orig[k].0@ && view_val(out@[k].1) == view_val(
                            orig[k].1,
                        ));
                    }
                    assert(view_entries(out@) =~= view_entries(orig));
                }
                JsonVal::Obj(out)
            },
        }
    }

}

} // verus!
