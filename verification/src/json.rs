//! The structured values carried by an object header: null, booleans,
//! numbers (kept as their literal text, so nothing is lost and no binary
//! float is ever involved), strings, arrays and mappings. Mappings keep
//! their entries in insertion order.

use vstd::prelude::*;

use crate::num::is_number_text;

verus! {

broadcast use vstd::std_specs::vec::group_vec_axioms;

/// A structured header value.
#[derive(Debug)]
pub enum JsonValue {
    Null,
    Bool(bool),
    Num(String),
    Str(String),
    Arr(Vec<JsonValue>),
    Obj(Vec<(String, JsonValue)>),
}

/// The mathematical shape of a structured header value.
pub enum JsonView {
    Null,
    Bool(bool),
    Num(Seq<char>),
    Str(Seq<char>),
    Arr(Seq<JsonView>),
    Obj(Seq<(Seq<char>, JsonView)>),
}

impl JsonValue {
    pub open spec fn shape(self) -> JsonView
        decreases self, 1int,
    {
        match self {
            JsonValue::Null => JsonView::Null,
            JsonValue::Bool(b) => JsonView::Bool(b),
            JsonValue::Num(t) => JsonView::Num(t@),
            JsonValue::Str(t) => JsonView::Str(t@),
            JsonValue::Arr(items) => {
                proof {
                    assert(decreases_to!(self => items));
                    assert(decreases_to!(items => items@));
                }
                JsonView::Arr(elem_shapes(items@))
            },
            JsonValue::Obj(mems) => {
                proof {
                    assert(decreases_to!(self => mems));
                    assert(decreases_to!(mems => mems@));
                }
                JsonView::Obj(member_shapes(mems@))
            },
        }
    }
}

/// The shapes of a sequence of values, in order.
pub open spec fn elem_shapes(items: Seq<JsonValue>) -> Seq<JsonView>
    decreases items, 0int,
{
    if items.len() == 0 {
        Seq::<JsonView>::empty()
    } else {
        proof {
            assert(decreases_to!(items => items[0]));
        }
        seq![items[0].shape()] + elem_shapes(items.drop_first())
    }
}

/// The shapes of a sequence of keyed members, in order.
pub open spec fn member_shapes(mems: Seq<(String, JsonValue)>) -> Seq<(Seq<char>, JsonView)>
    decreases mems, 0int,
{
    if mems.len() == 0 {
        Seq::<(Seq<char>, JsonView)>::empty()
    } else {
        proof {
            assert(decreases_to!(mems => mems[0]));
            assert(decreases_to!(mems[0] => mems[0].1));
        }
        seq![(mems[0].0@, mems[0].1.shape())] + member_shapes(mems.drop_first())
    }
}

pub proof fn lemma_elem_shapes(items: Seq<JsonValue>)
    ensures
        elem_shapes(items).len() == items.len(),
        forall|i: int| 0 <= i < items.len() ==> elem_shapes(items)[i] == items[i].shape(),
    decreases items.len(),
{
    if items.len() > 0 {
        lemma_elem_shapes(items.drop_first());
    }
}

pub proof fn lemma_member_shapes(mems: Seq<(String, JsonValue)>)
    ensures
        member_shapes(mems).len() == mems.len(),
        forall|i: int|
            0 <= i < mems.len() ==> member_shapes(mems)[i] == (mems[i].0@, mems[i].1.shape()),
    decreases mems.len(),
{
    if mems.len() > 0 {
        lemma_member_shapes(mems.drop_first());
    }
}

impl View for JsonValue {
    type V = JsonView;

    open spec fn view(&self) -> JsonView {
        self.shape()
    }
}

/// A well-formed value: every number it holds, however deeply, is one whole
/// number token.
pub open spec fn wf_json(v: JsonView) -> bool
    decreases v, 1int,
{
    match v {
        JsonView::Null => true,
        JsonView::Bool(_) => true,
        JsonView::Num(t) => is_number_text(t),
        JsonView::Str(_) => true,
        JsonView::Arr(elems) => wf_elems(elems),
        JsonView::Obj(mems) => wf_members(mems),
    }
}

pub open spec fn wf_elems(elems: Seq<JsonView>) -> bool
    decreases elems, 0int,
{
    if elems.len() == 0 {
        true
    } else {
        proof {
            assert(decreases_to!(elems => elems[0]));
        }
        wf_json(elems[0]) && wf_elems(elems.drop_first())
    }
}

pub open spec fn wf_members(mems: Seq<(Seq<char>, JsonView)>) -> bool
    decreases mems, 0int,
{
    if mems.len() == 0 {
        true
    } else {
        proof {
            assert(decreases_to!(mems => mems[0]));
            assert(decreases_to!(mems[0] => mems[0].1));
        }
        wf_json(mems[0].1) && wf_members(mems.drop_first())
    }
}

pub proof fn lemma_wf_elems(elems: Seq<JsonView>)
    ensures
        wf_elems(elems) <==> forall|i: int| 0 <= i < elems.len() ==> wf_json(#[trigger] elems[i]),
    decreases elems.len(),
{
    if elems.len() > 0 {
        lemma_wf_elems(elems.drop_first());
        assert(forall|i: int| 1 <= i < elems.len() ==> elems.drop_first()[i - 1] == elems[i]);
    }
}

pub proof fn lemma_wf_members(mems: Seq<(Seq<char>, JsonView)>)
    ensures
        wf_members(mems) <==> forall|i: int|
            0 <= i < mems.len() ==> wf_json(#[trigger] mems[i].1),
    decreases mems.len(),
{
    if mems.len() > 0 {
        lemma_wf_members(mems.drop_first());
        assert(forall|i: int| 1 <= i < mems.len() ==> mems.drop_first()[i - 1] == mems[i]);
    }
}

impl JsonValue {
    /// A structurally equal copy of the value.
    #[verifier::loop_isolation(false)]
    pub fn deep_copy(&self) -> (r: JsonValue)
        ensures
            r@ == self@,
        decreases self,
    {
        match self {
            JsonValue::Null => JsonValue::Null,
            JsonValue::Bool(b) => JsonValue::Bool(*b),
            JsonValue::Num(t) => JsonValue::Num(t.clone()),
            JsonValue::Str(t) => JsonValue::Str(t.clone()),
            JsonValue::Arr(items) => {
                let mut out: Vec<JsonValue> = Vec::new();
                let mut i: usize = 0;
                proof {
                    lemma_elem_shapes(items@);
                    lemma_elem_shapes(out@);
                }
                while i < items.len()
                    invariant
                        i <= items@.len(),
                        out@.len() == i,
                        forall|j: int| 0 <= j < i ==> out@[j].shape() == items@[j].shape(),
                    decreases items@.len() - i,
                {
                    proof {
                        assert(decreases_to!(items => items@));
                        assert(decreases_to!(items@ => items@[i as int]));
                    }
                    let c = items[i].deep_copy();
                    out.push(c);
                    i += 1;
                }
                proof {
                    lemma_elem_shapes(items@);
                    lemma_elem_shapes(out@);
                    assert(elem_shapes(out@) =~= elem_shapes(items@));
                }
                JsonValue::Arr(out)
            },
            JsonValue::Obj(mems) => {
                let mut out: Vec<(String, JsonValue)> = Vec::new();
                let mut i: usize = 0;
                while i < mems.len()
                    invariant
                        i <= mems@.len(),
                        out@.len() == i,
                        forall|j: int|
                            0 <= j < i ==> (#[trigger] out@[j]).0@ == mems@[j].0@ && out@[j].1.shape()
                                == mems@[j].1.shape(),
                    decreases mems@.len() - i,
                {
                    proof {
                        assert(decreases_to!(mems => mems@));
                        assert(decreases_to!(mems@ => mems@[i as int]));
                        assert(decreases_to!(mems@[i as int] => mems@[i as int].1));
                    }
                    let k = mems[i].0.clone();
                    let v = mems[i].1.deep_copy();
                    out.push((k, v));
                    i += 1;
                }
                proof {
                    lemma_member_shapes(mems@);
                    lemma_member_shapes(out@);
                    assert(member_shapes(out@) =~= member_shapes(mems@));
                }
                JsonValue::Obj(out)
            },
        }
    }
}

} // verus!
