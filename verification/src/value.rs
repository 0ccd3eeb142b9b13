//! The bencode value model: a tagged union over integers, raw byte strings,
//! lists, and dictionaries with byte-string keys.

use vstd::prelude::*;

verus! {

/// Mathematical model of a bencode term. Dictionaries are modelled as a
/// sequence of key/value pairs in the order they occur, so that decoding can
/// be stated order-preservingly; well-formedness (`wf`) requires the keys of
/// each dictionary to be distinct.
pub enum SpecValue {
    Int(i64),
    Bytes(Seq<u8>),
    List(Seq<SpecValue>),
    Dict(Seq<(Seq<u8>, SpecValue)>),
}

/// A decoded bencode term. A `Dictionary` keeps its entries in decode order;
/// the canonical encoder, not this type, is responsible for key ordering.
#[derive(Debug, PartialEq, Eq)]
pub enum Value {
    Integer(i64),
    ByteString(Vec<u8>),
    List(Vec<Value>),
    Dictionary(Vec<(Vec<u8>, Value)>),
}

impl View for Value {
    type V = SpecValue;

    open spec fn view(&self) -> SpecValue
        decreases self,
    {
        match self {
            Value::Integer(i) => SpecValue::Int(*i),
            Value::ByteString(b) => SpecValue::Bytes(b@),
            Value::List(es) => SpecValue::List(view_elems(es@)),
            Value::Dictionary(es) => SpecValue::Dict(view_entries(es@)),
        }
    }
}

/// The views of a sequence of list elements, element by element.
pub open spec fn view_elems(es: Seq<Value>) -> Seq<SpecValue>
    decreases es,
{
    if es.len() == 0 {
        Seq::empty()
    } else {
        view_elems(es.drop_last()).push(es.last().view())
    }
}

/// The views of a sequence of dictionary entries, entry by entry.
pub open spec fn view_entries(es: Seq<(Vec<u8>, Value)>) -> Seq<(Seq<u8>, SpecValue)>
    decreases es,
{
    if es.len() == 0 {
        Seq::empty()
    } else {
        view_entries(es.drop_last()).push((es.last().0@, es.last().1.view()))
    }
}

/// `view_elems` is the pointwise view of its argument.
pub proof fn lemma_view_elems(es: Seq<Value>)
    ensures
        view_elems(es).len() == es.len(),
        forall|i: int| 0 <= i < es.len() ==> view_elems(es)[i] == #[trigger] es[i]@,
    decreases es,
{
    if es.len() == 0 {
        assert(view_elems(es) =~= Seq::empty());
    } else {
        lemma_view_elems(es.drop_last());
        assert(view_elems(es) == view_elems(es.drop_last()).push(es.last()@));
        assert forall|i: int| 0 <= i < es.len() implies view_elems(es)[i] == #[trigger] es[i]@ by {
            if i < es.len() - 1 {
                assert(es.drop_last()[i] == es[i]);
            }
        }
    }
}

/// `view_entries` is the pointwise view of its argument.
pub proof fn lemma_view_entries(es: Seq<(Vec<u8>, Value)>)
    ensures
        view_entries(es).len() == es.len(),
        forall|i: int|
            0 <= i < es.len() ==> view_entries(es)[i] == ((#[trigger] es[i]).0@, es[i].1@),
    decreases es,
{
    if es.len() == 0 {
        assert(view_entries(es) =~= Seq::empty());
    } else {
        lemma_view_entries(es.drop_last());
        assert(view_entries(es) == view_entries(es.drop_last()).push(
            (es.last().0@, es.last().1@),
        ));
        assert forall|i: int|
            0 <= i < es.len() implies view_entries(es)[i] == ((#[trigger] es[i]).0@, es[i].1@) by {
            if i < es.len() - 1 {
                assert(es.drop_last()[i] == es[i]);
            }
        }
    }
}

/// The keys of a dictionary's entry sequence are pairwise distinct.
pub open spec fn distinct_keys(es: Seq<(Seq<u8>, SpecValue)>) -> bool {
    forall|i: int, j: int| 0 <= i < j < es.len() ==> es[i].0 != es[j].0
}

/// Well-formedness of a value: every dictionary anywhere in the tree has
/// distinct keys. This is the invariant the decoder establishes (it rejects
/// duplicate keys) and the invariant under which encoding round-trips.
pub open spec fn wf(v: SpecValue) -> bool
    decreases v,
{
    match v {
        SpecValue::Int(_) => true,
        SpecValue::Bytes(_) => true,
        SpecValue::List(es) => forall|i: int| 0 <= i < es.len() ==> wf(#[trigger] es[i]),
        SpecValue::Dict(es) => distinct_keys(es) && forall|i: int|
            0 <= i < es.len() ==> wf(#[trigger] es[i].1),
    }
}

} // verus!
