//! The generic value tree that the codec reads and produces.
use vstd::prelude::*;

verus! {

broadcast use vstd::std_specs::vec::group_vec_axioms, vstd::seq::group_seq_axioms;

/// A generic tagged value tree: the intermediate representation on both
/// sides of the codec.
///
/// Numbers keep the integer/non-integer distinction: `Int` holds a machine
/// integer, while `Num` carries the decimal text of any other number (a
/// fractional or out-of-range literal) verbatim. `Object` is an ordered
/// mapping with unique string keys; `Array` is an ordered sequence.
#[derive(Debug, PartialEq)]
pub enum Value {
    Null,
    Bool(bool),
    Int(i64),
    Num(String),
    Str(String),
    Object(Vec<(String, Value)>),
    Array(Vec<Value>),
}

/// The mathematical model of a [`Value`]: the same tree over `Seq<char>`
/// and unbounded integers. Contracts speak of this type.
pub enum ValueView {
    Null,
    Bool(bool),
    Int(int),
    Num(Seq<char>),
    Str(Seq<char>),
    Object(Seq<(Seq<char>, ValueView)>),
    Array(Seq<ValueView>),
}

impl View for Value {
    type V = ValueView;

    open spec fn view(&self) -> ValueView
        decreases self,
    {
        match self {
            Value::Null => ValueView::Null,
            Value::Bool(b) => ValueView::Bool(*b),
            Value::Int(n) => ValueView::Int(*n as int),
            Value::Num(s) => ValueView::Num(s@),
            Value::Str(s) => ValueView::Str(s@),
            Value::Object(es) => ValueView::Object(view_entries(es@)),
            Value::Array(xs) => ValueView::Array(view_items(xs@)),
        }
    }
}

/// The view of an object's entry list, key by key.
pub open spec fn view_entries(es: Seq<(String, Value)>) -> Seq<(Seq<char>, ValueView)>
    decreases es,
{
    if es.len() == 0 {
        Seq::empty()
    } else {
        seq![(es[0].0@, es[0].1@)] + view_entries(es.drop_first())
    }
}

/// The view of an array's element list, element by element.
pub open spec fn view_items(xs: Seq<Value>) -> Seq<ValueView>
    decreases xs,
{
    if xs.len() == 0 {
        Seq::empty()
    } else {
        seq![xs[0]@] + view_items(xs.drop_first())
    }
}

/// `view_entries` maps each entry to its view, position by position.
pub proof fn lemma_view_entries(es: Seq<(String, Value)>)
    ensures
        view_entries(es).len() == es.len(),
        forall|i: int|
            0 <= i < es.len() ==> #[trigger] view_entries(es)[i] == (es[i].0@, es[i].1@),
    decreases es.len(),
{
    if es.len() > 0 {
        lemma_view_entries(es.drop_first());
        assert(view_entries(es) =~= seq![(es[0].0@, es[0].1@)] + view_entries(es.drop_first()));
        assert forall|i: int| 0 <= i < es.len() implies #[trigger] view_entries(es)[i] == (
        es[i].0@,
        es[i].1@,
        ) by {
            if i > 0 {
                assert(es.drop_first()[i - 1] == es[i]);
            }
        }
    }
}

/// `view_items` maps each element to its view, position by position.
pub proof fn lemma_view_items(xs: Seq<Value>)
    ensures
        view_items(xs).len() == xs.len(),
        forall|i: int| 0 <= i < xs.len() ==> #[trigger] view_items(xs)[i] == xs[i]@,
    decreases xs.len(),
{
    if xs.len() > 0 {
        lemma_view_items(xs.drop_first());
        assert(view_items(xs) =~= seq![xs[0]@] + view_items(xs.drop_first()));
        assert forall|i: int| 0 <= i < xs.len() implies #[trigger] view_items(xs)[i] == xs[i]@ by {
            if i > 0 {
                assert(xs.drop_first()[i - 1] == xs[i]);
            }
        }
    }
}

} // verus!
