//! The value model shared by encoder and decoder: a tagged union of null,
//! booleans, numbers, strings, ordered arrays and ordered key-value maps,
//! together with its mathematical model and well-formedness invariant.

use vstd::prelude::*;

verus! {

broadcast use
    vstd::std_specs::vec::axiom_vec_decreases_to_view,
    vstd::seq::axiom_seq_index_decreases;

/// A fractional number in decimal notation: `whole.frac`, negated when `neg`
/// holds. Well-formed decimals keep `frac` non-empty with digits `0..=9` and
/// no trailing zero digit, so every decimal denotes a non-integral value and
/// has exactly one rendering.
#[derive(Debug, Clone)]
pub struct Decimal {
    pub neg: bool,
    pub whole: u64,
    pub frac: Vec<u8>,
}

/// A structured value: the input of the encoder and the output of the
/// decoder. Arrays are ordered; objects are ordered key-value maps whose
/// keys are unique.
#[derive(Debug)]
pub enum Value {
    Null,
    Bool(bool),
    Int(i64),
    Dec(Decimal),
    Str(String),
    Arr(Vec<Value>),
    Obj(Vec<(String, Value)>),
}

/// The mathematical model of a `Value`.
#[verifier::ext_equal]
pub enum SpecValue {
    Null,
    Bool(bool),
    Int(int),
    Dec { neg: bool, whole: nat, frac: Seq<u8> },
    Str(Seq<char>),
    Arr(Seq<SpecValue>),
    Obj(Seq<(Seq<char>, SpecValue)>),
}

impl Decimal {
    pub open spec fn view(&self) -> SpecValue {
        SpecValue::Dec { neg: self.neg, whole: self.whole as nat, frac: self.frac@ }
    }
}

/// The models of a sequence of values, element by element.
pub open spec fn view_items(items: Seq<Value>) -> Seq<SpecValue>
    decreases items,
{
    if items.len() == 0 {
        Seq::empty()
    } else {
        view_items(items.drop_last()).push(items.last().view())
    }
}

/// The models of a sequence of key-value entries, element by element.
pub open spec fn view_entries(entries: Seq<(String, Value)>) -> Seq<(Seq<char>, SpecValue)>
    decreases entries,
{
    if entries.len() == 0 {
        Seq::empty()
    } else {
        view_entries(entries.drop_last()).push((entries.last().0@, entries.last().1.view()))
    }
}

impl Value {
    pub open spec fn view(&self) -> SpecValue
        decreases self,
    {
        match self {
            Value::Null => SpecValue::Null,
            Value::Bool(b) => SpecValue::Bool(*b),
            Value::Int(n) => SpecValue::Int(*n as int),
            Value::Dec(d) => d.view(),
            Value::Str(s) => SpecValue::Str(s@),
            Value::Arr(items) => SpecValue::Arr(view_items(items@)),
            Value::Obj(entries) => SpecValue::Obj(view_entries(entries@)),
        }
    }
}

/// `view_items` maps each element to its model.
pub proof fn lemma_view_items(items: Seq<Value>)
    ensures
        view_items(items).len() == items.len(),
        forall|i: int| 0 <= i < items.len() ==> view_items(items)[i] == #[trigger] items[i]@,
    decreases items,
{
    if items.len() > 0 {
        lemma_view_items(items.drop_last());
        assert forall|i: int| 0 <= i < items.len() implies view_items(items)[i] == #[trigger] items[i]@ by {
            if i < items.len() - 1 {
                assert(items.drop_last()[i] == items[i]);
            } else {
                assert(items[i] == items.last());
            }
        }
    }
}

/// `view_entries` maps each entry to its key's characters and its value's model.
pub proof fn lemma_view_entries(entries: Seq<(String, Value)>)
    ensures
        view_entries(entries).len() == entries.len(),
        forall|i: int|
            0 <= i < entries.len() ==> view_entries(entries)[i] == (
            (#[trigger] entries[i]).0@,
            entries[i].1@,
            ),
    decreases entries,
{
    if entries.len() > 0 {
        lemma_view_entries(entries.drop_last());
        assert forall|i: int|
            0 <= i < entries.len() implies view_entries(entries)[i] == (
            (#[trigger] entries[i]).0@,
            entries[i].1@,
        ) by {
            if i < entries.len() - 1 {
                assert(entries.drop_last()[i] == entries[i]);
            } else {
                assert(entries[i] == entries.last());
            }
        }
    }
}

/// Digits of a well-formed fractional part: non-empty, each in `0..=9`,
/// and not ending in `0`.
pub open spec fn frac_wf(frac: Seq<u8>) -> bool {
    &&& frac.len() > 0
    &&& forall|i: int| 0 <= i < frac.len() ==> frac[i] <= 9
    &&& frac.last() != 0
}

/// Every element of a sequence of model values is well-formed.
pub open spec fn items_wf(items: Seq<SpecValue>) -> bool
    decreases items, 0int,
{
    if items.len() == 0 {
        true
    } else {
        items_wf(items.drop_last()) && spec_value_wf(items.last())
    }
}

/// Every value of a sequence of model entries is well-formed.
pub open spec fn entries_wf(entries: Seq<(Seq<char>, SpecValue)>) -> bool
    decreases entries, 0int,
{
    if entries.len() == 0 {
        true
    } else {
        entries_wf(entries.drop_last()) && spec_value_wf(entries.last().1)
    }
}

/// No two entries share a key.
pub open spec fn keys_distinct(entries: Seq<(Seq<char>, SpecValue)>) -> bool {
    forall|i: int, j: int|
        0 <= i < j < entries.len() ==> (#[trigger] entries[i].0) != (#[trigger] entries[j].0)
}

/// Well-formedness of a model value: decimals are canonical and every
/// object's keys are pairwise distinct.
pub open spec fn spec_value_wf(v: SpecValue) -> bool
    decreases v, 1int,
{
    match v {
        SpecValue::Null => true,
        SpecValue::Bool(_) => true,
        SpecValue::Int(n) => i64::MIN <= n <= i64::MAX,
        SpecValue::Dec { neg, whole, frac } => whole <= u64::MAX && frac_wf(frac),
        SpecValue::Str(_) => true,
        SpecValue::Arr(items) => items_wf(items),
        SpecValue::Obj(entries) => keys_distinct(entries) && entries_wf(entries),
    }
}

/// A well-formed object's entries hold well-formed values.
pub proof fn lemma_wf_obj(es: Seq<(Seq<char>, SpecValue)>, i: int)
    requires
        entries_wf(es),
        0 <= i < es.len(),
    ensures
        spec_value_wf(es[i].1),
    decreases es,
{
    if i < es.len() - 1 {
        assert(es.drop_last()[i] == es[i]);
        lemma_wf_obj(es.drop_last(), i);
    }
}

/// A well-formed array's elements are well-formed.
pub proof fn lemma_wf_arr(items: Seq<SpecValue>, i: int)
    requires
        items_wf(items),
        0 <= i < items.len(),
    ensures
        spec_value_wf(items[i]),
    decreases items,
{
    if i < items.len() - 1 {
        assert(items.drop_last()[i] == items[i]);
        lemma_wf_arr(items.drop_last(), i);
    }
}

/// A well-formed head and tail make a well-formed item sequence.
pub proof fn lemma_items_wf_cons(h: SpecValue, t: Seq<SpecValue>)
    requires
        spec_value_wf(h),
        items_wf(t),
    ensures
        items_wf(seq![h] + t),
    decreases t,
{
    if t.len() == 0 {
        assert(items_wf(Seq::<SpecValue>::empty()));
        assert((seq![h] + t).drop_last() =~= Seq::<SpecValue>::empty());
        assert((seq![h] + t).last() == h);
    } else {
        lemma_items_wf_cons(h, t.drop_last());
        assert((seq![h] + t).drop_last() =~= seq![h] + t.drop_last());
        assert((seq![h] + t).last() == t.last());
    }
}

/// Well-formedness of a sequence of entries, value by value.
pub proof fn lemma_entries_wf_intro(entries: Seq<(Seq<char>, SpecValue)>)
    requires
        forall|i: int| 0 <= i < entries.len() ==> spec_value_wf((#[trigger] entries[i]).1),
    ensures
        entries_wf(entries),
    decreases entries,
{
    if entries.len() > 0 {
        assert(forall|i: int|
            0 <= i < entries.len() - 1 ==> #[trigger] entries.drop_last()[i] == entries[i]);
        lemma_entries_wf_intro(entries.drop_last());
    }
}

/// A scalar is a value with no children: everything but arrays and objects.
pub open spec fn spec_is_scalar(v: SpecValue) -> bool {
    match v {
        SpecValue::Arr(_) => false,
        SpecValue::Obj(_) => false,
        _ => true,
    }
}

impl Value {
    /// Whether this value is a scalar (not an array or object).
    pub fn is_scalar(&self) -> (r: bool)
        ensures
            r == spec_is_scalar(self@),
    {
        match self {
            Value::Arr(_) => false,
            Value::Obj(_) => false,
            _ => true,
        }
    }
}

/// Element-wise well-formedness out of `entries_wf`.
pub proof fn lemma_entries_wf_elem(es: Seq<(Seq<char>, SpecValue)>)
    requires
        entries_wf(es),
    ensures
        forall|i: int| 0 <= i < es.len() ==> spec_value_wf((#[trigger] es[i]).1),
    decreases es,
{
    if es.len() > 0 {
        lemma_entries_wf_elem(es.drop_last());
        assert forall|i: int| 0 <= i < es.len() implies spec_value_wf((#[trigger] es[i]).1) by {
            if i < es.len() - 1 {
                assert(es.drop_last()[i] == es[i]);
            } else {
                assert(es[i] == es.last());
            }
        }
    }
}

/// `entries_wf` out of element-wise well-formedness.
pub proof fn lemma_entries_wf_from(es: Seq<(Seq<char>, SpecValue)>)
    requires
        forall|i: int| 0 <= i < es.len() ==> spec_value_wf((#[trigger] es[i]).1),
    ensures
        entries_wf(es),
    decreases es,
{
    if es.len() > 0 {
        assert(forall|i: int| 0 <= i < es.len() - 1 ==> #[trigger] es.drop_last()[i] == es[i]);
        lemma_entries_wf_from(es.drop_last());
    }
}

} // verus!
