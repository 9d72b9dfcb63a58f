//! The untyped document model shared by descriptors and the sourcemap.
use vstd::prelude::*;

verus! {

/// An untyped document value: what a descriptor file or the sourcemap holds
/// once its text has been parsed, or before it is rendered.
///
/// Floating-point scalars are carried as their IEEE 754 bit patterns.
#[derive(Debug, PartialEq, Eq)]
pub enum Value {
    Null,
    Bool(bool),
    Integer(i128),
    /// A single-precision scalar, by its bits.
    Single(u32),
    /// A double-precision scalar, by its bits.
    Double(u64),
    Text(String),
    Sequence(Vec<Value>),
    /// Key-value pairs in document order.
    Mapping(Vec<(Value, Value)>),
    /// A value under a type tag.
    Tagged(String, Box<Value>),
}

/// The mathematical model of a [`Value`].
pub enum ValueView {
    Null,
    Bool(bool),
    Integer(int),
    Single(u32),
    Double(u64),
    Text(Seq<char>),
    Sequence(Seq<ValueView>),
    Mapping(Seq<(ValueView, ValueView)>),
    Tagged(Seq<char>, Box<ValueView>),
}

/// The models of a sequence of values.
pub open spec fn values_view(items: Seq<Value>) -> Seq<ValueView> {
    Seq::new(items.len(), |i: int| items[i]@)
}

/// The models of a sequence of key-value pairs.
pub open spec fn pairs_view(entries: Seq<(Value, Value)>) -> Seq<(ValueView, ValueView)> {
    Seq::new(entries.len(), |i: int| (entries[i].0@, entries[i].1@))
}

impl Value {
    pub open spec fn model(self) -> ValueView
        decreases self,
    {
        match self {
            Value::Null => ValueView::Null,
            Value::Bool(b) => ValueView::Bool(b),
            Value::Integer(n) => ValueView::Integer(n as int),
            Value::Single(bits) => ValueView::Single(bits),
            Value::Double(bits) => ValueView::Double(bits),
            Value::Text(s) => ValueView::Text(s@),
            Value::Sequence(items) => ValueView::Sequence(
                Seq::new(
                    items@.len(),
                    |i: int|
                        if 0 <= i < items@.len() {
                            items@[i].model()
                        } else {
                            ValueView::Null
                        },
                ),
            ),
            Value::Mapping(entries) => ValueView::Mapping(
                Seq::new(
                    entries@.len(),
                    |i: int|
                        if 0 <= i < entries@.len() {
                            (entries@[i].0.model(), entries@[i].1.model())
                        } else {
                            (ValueView::Null, ValueView::Null)
                        },
                ),
            ),
            Value::Tagged(tag, inner) => ValueView::Tagged(tag@, Box::new((*inner).model())),
        }
    }

    /// The model of a sequence value is the sequence of its items' models.
    pub proof fn lemma_sequence_view(items: Vec<Value>)
        ensures
            Value::Sequence(items)@ == ValueView::Sequence(values_view(items@)),
    {
        assert(Value::Sequence(items).model()->Sequence_0 =~= values_view(items@));
    }

    /// The model of a mapping value is the sequence of its pairs' models.
    pub proof fn lemma_mapping_view(entries: Vec<(Value, Value)>)
        ensures
            Value::Mapping(entries)@ == ValueView::Mapping(pairs_view(entries@)),
    {
        assert(Value::Mapping(entries).model()->Mapping_0 =~= pairs_view(entries@));
    }

    /// A text value holding a copy of `s`.
    pub fn text(s: &str) -> (r: Value)
        ensures
            r@ == ValueView::Text(s@),
    {
        Value::Text(String::from_str(s))
    }

    /// `value` under the type tag `tag`.
    pub fn tagged(tag: &str, value: Value) -> (r: Value)
        ensures
            r@ == ValueView::Tagged(tag@, Box::new(value@)),
    {
        Value::Tagged(String::from_str(tag), Box::new(value))
    }

    /// The mapping that holds `entries` in their order.
    pub fn mapping(entries: Vec<(Value, Value)>) -> (r: Value)
        ensures
            r@ == ValueView::Mapping(pairs_view(entries@)),
    {
        proof {
            Value::lemma_mapping_view(entries);
        }
        Value::Mapping(entries)
    }

    /// The sequence that holds `items` in their order.
    pub fn sequence(items: Vec<Value>) -> (r: Value)
        ensures
            r@ == ValueView::Sequence(values_view(items@)),
    {
        proof {
            Value::lemma_sequence_view(items);
        }
        Value::Sequence(items)
    }

    /// A copy of the value.
    pub fn duplicate(&self) -> (r: Value)
        ensures
            r@ == self@,
        decreases self,
    {
        match self {
            Value::Null => Value::Null,
            Value::Bool(b) => Value::Bool(*b),
            Value::Integer(n) => Value::Integer(*n),
            Value::Single(bits) => Value::Single(*bits),
            Value::Double(bits) => Value::Double(*bits),
            Value::Text(s) => Value::Text(s.clone()),
            Value::Sequence(items) => {
                let mut copies: Vec<Value> = Vec::new();
                let mut i: usize = 0;
                while i < items.len()
                    invariant
                        i <= items.len(),
                        *self == Value::Sequence(*items),
                        copies.len() == i,
                        forall|j: int| 0 <= j < i ==> copies@[j]@ == items@[j]@,
                    decreases items.len() - i,
                {
                    assert(items@ == self->Sequence_0@);
                    copies.push(items[i].duplicate());
                    i += 1;
                }
                proof {
                    Value::lemma_sequence_view(*items);
                    assert(values_view(copies@) =~= values_view(items@));
                }
                Value::sequence(copies)
            },
            Value::Mapping(entries) => {
                let mut copies: Vec<(Value, Value)> = Vec::new();
                let mut i: usize = 0;
                while i < entries.len()
                    invariant
                        i <= entries.len(),
                        *self == Value::Mapping(*entries),
                        copies.len() == i,
                        forall|j: int|
                            0 <= j < i ==> copies@[j].0@ == entries@[j].0@ && copies@[j].1@
                                == entries@[j].1@,
                    decreases entries.len() - i,
                {
                    assert(entries@ == self->Mapping_0@);
                    let key = entries[i].0.duplicate();
                    let value = entries[i].1.duplicate();
                    copies.push((key, value));
                    i += 1;
                }
                proof {
                    Value::lemma_mapping_view(*entries);
                    assert(pairs_view(copies@) =~= pairs_view(entries@));
                }
                Value::mapping(copies)
            },
            Value::Tagged(tag, inner) => {
                assert(**inner == *self->Tagged_1);
                Value::Tagged(tag.clone(), Box::new((**inner).duplicate()))
            },
        }
    }
}

impl View for Value {
    type V = ValueView;

    open spec fn view(&self) -> ValueView {
        self.model()
    }
}

} // verus!
