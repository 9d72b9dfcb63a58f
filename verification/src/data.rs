//! Typed property values and their encoding into documents.
use vstd::prelude::*;
use crate::keyed::{has_distinct_keys, keyed_view, Keyed};
use crate::single::{truncate_single, truncated};
use crate::text::{
    key_before, key_precedes, lemma_key_order_irreflexive, lemma_key_order_total,
    lemma_key_order_transitive, lemma_key_order_weakly_transitive,
};
use crate::value::{pairs_view, values_view, Value, ValueView};

verus! {

/// A typed property or attribute value.
///
/// Floating-point components are carried as IEEE 754 bit patterns: 64 bits
/// for `Double`, `Vector3` and `Vector2`, 32 bits for `Float`, `UDim` and
/// `UDim2`.
#[derive(Debug, PartialEq, Eq)]
pub enum DataType {
    String(String),
    Double(u64),
    Float(u32),
    Integer(i32),
    Integer64(i64),
    Boolean(bool),
    EnumItem(String),
    Instance,
    CFrame(String),
    Vector3([u64; 3]),
    Vector2([u64; 2]),
    Nil,
    Color3([u8; 3]),
    BrickColor(String),
    ColorSequence(String),
    /// Scale, then offset.
    UDim([u32; 2]),
    /// The X pair, then the Y pair.
    UDim2([[u32; 2]; 2]),
    Font { style: String, family: String, weight: String },
    Rect(String),
}

/// The mathematical model of a [`DataType`].
pub enum DataTypeView {
    String(Seq<char>),
    Double(u64),
    Float(u32),
    Integer(i32),
    Integer64(i64),
    Boolean(bool),
    EnumItem(Seq<char>),
    Instance,
    CFrame(Seq<char>),
    Vector3([u64; 3]),
    Vector2([u64; 2]),
    Nil,
    Color3([u8; 3]),
    BrickColor(Seq<char>),
    ColorSequence(Seq<char>),
    UDim([u32; 2]),
    UDim2([[u32; 2]; 2]),
    Font { style: Seq<char>, family: Seq<char>, weight: Seq<char> },
    Rect(Seq<char>),
}

impl View for DataType {
    type V = DataTypeView;

    open spec fn view(&self) -> DataTypeView {
        match *self {
            DataType::String(s) => DataTypeView::String(s@),
            DataType::Double(bits) => DataTypeView::Double(bits),
            DataType::Float(bits) => DataTypeView::Float(bits),
            DataType::Integer(n) => DataTypeView::Integer(n),
            DataType::Integer64(n) => DataTypeView::Integer64(n),
            DataType::Boolean(b) => DataTypeView::Boolean(b),
            DataType::EnumItem(s) => DataTypeView::EnumItem(s@),
            DataType::Instance => DataTypeView::Instance,
            DataType::CFrame(s) => DataTypeView::CFrame(s@),
            DataType::Vector3(v) => DataTypeView::Vector3(v),
            DataType::Vector2(v) => DataTypeView::Vector2(v),
            DataType::Nil => DataTypeView::Nil,
            DataType::Color3(c) => DataTypeView::Color3(c),
            DataType::BrickColor(s) => DataTypeView::BrickColor(s@),
            DataType::ColorSequence(s) => DataTypeView::ColorSequence(s@),
            DataType::UDim(u) => DataTypeView::UDim(u),
            DataType::UDim2(u) => DataTypeView::UDim2(u),
            DataType::Font { style, family, weight } => DataTypeView::Font {
                style: style@,
                family: family@,
                weight: weight@,
            },
            DataType::Rect(s) => DataTypeView::Rect(s@),
        }
    }
}

/// A mapping entry whose key is the text `name`.
pub open spec fn field(name: Seq<char>, value: ValueView) -> (ValueView, ValueView) {
    (ValueView::Text(name), value)
}

/// The tagged mapping that a composite kind is written as.
pub open spec fn tagged_mapping(tag: Seq<char>, fields: Seq<(ValueView, ValueView)>) -> ValueView {
    ValueView::Tagged(tag, Box::new(ValueView::Mapping(fields)))
}

/// The mapping of one scale and offset pair: the scale as it is, the offset
/// truncated to an integer.
pub open spec fn udim_mapping(udim: [u32; 2]) -> ValueView {
    ValueView::Mapping(
        seq![
            field("scale"@, ValueView::Single(udim[0])),
            field("offset"@, ValueView::Integer(truncated(udim[1]))),
        ],
    )
}

/// What a typed value is written as, or `None` for the kinds that are not
/// written at all.
pub open spec fn encoded(value: DataTypeView) -> Option<ValueView> {
    match value {
        DataTypeView::String(s) => Some(ValueView::Text(s)),
        DataTypeView::EnumItem(s) => Some(ValueView::Text(s)),
        DataTypeView::CFrame(s) => Some(ValueView::Text(s)),
        DataTypeView::BrickColor(s) => Some(ValueView::Text(s)),
        DataTypeView::ColorSequence(s) => Some(ValueView::Text(s)),
        DataTypeView::Rect(s) => Some(ValueView::Text(s)),
        DataTypeView::Double(bits) => Some(ValueView::Double(bits)),
        DataTypeView::Float(bits) => Some(ValueView::Single(bits)),
        DataTypeView::Integer(n) => Some(ValueView::Integer(n as int)),
        DataTypeView::Integer64(n) => Some(ValueView::Integer(n as int)),
        DataTypeView::Boolean(b) => Some(ValueView::Bool(b)),
        DataTypeView::Vector3(v) => Some(
            tagged_mapping(
                "Vector3"@,
                seq![
                    field("x"@, ValueView::Double(v[0])),
                    field("y"@, ValueView::Double(v[1])),
                    field("z"@, ValueView::Double(v[2])),
                ],
            ),
        ),
        DataTypeView::Vector2(v) => Some(
            tagged_mapping(
                "Vector2"@,
                seq![field("x"@, ValueView::Double(v[0])), field("y"@, ValueView::Double(v[1]))],
            ),
        ),
        DataTypeView::Color3(c) => Some(
            tagged_mapping(
                "Color3"@,
                seq![
                    field("red"@, ValueView::Integer(c[0] as int)),
                    field("green"@, ValueView::Integer(c[1] as int)),
                    field("blue"@, ValueView::Integer(c[2] as int)),
                ],
            ),
        ),
        DataTypeView::UDim(u) => Some(ValueView::Tagged("UDim"@, Box::new(udim_mapping(u)))),
        DataTypeView::UDim2(u) => Some(
            ValueView::Tagged(
                "UDim2"@,
                Box::new(ValueView::Sequence(seq![udim_mapping(u[0]), udim_mapping(u[1])])),
            ),
        ),
        DataTypeView::Font { style, family, weight } => Some(
            tagged_mapping(
                "Font"@,
                seq![
                    field("style"@, ValueView::Text(style)),
                    field("family"@, ValueView::Text(family)),
                    field("weight"@, ValueView::Text(weight)),
                ],
            ),
        ),
        DataTypeView::Nil => None,
        DataTypeView::Instance => None,
    }
}

/// The model of an optional value.
pub open spec fn optional_view(value: Option<Value>) -> Option<ValueView> {
    match value {
        Some(v) => Some(v@),
        None => None,
    }
}

/// A mapping entry keyed by a copy of `name`.
pub fn entry(name: &str, value: Value) -> (r: (Value, Value))
    ensures
        (r.0@, r.1@) == field(name@, value@),
{
    (Value::text(name), value)
}

/// The mapping `entries` under the type tag `tag`.
fn tag_value(tag: &str, entries: Vec<(Value, Value)>) -> (r: Value)
    ensures
        r@ == tagged_mapping(tag@, pairs_view(entries@)),
{
    Value::tagged(tag, Value::mapping(entries))
}

/// The mapping of one scale and offset pair.
fn udim_to_mapping(udim: &[u32; 2]) -> (r: Value)
    ensures
        r@ == udim_mapping(*udim),
{
    let entries = vec![
        entry("scale", Value::Single(udim[0])),
        entry("offset", Value::Integer(truncate_single(udim[1]) as i128)),
    ];
    let r = Value::mapping(entries);
    assert(pairs_view(entries@) =~= udim_mapping(*udim)->Mapping_0);
    r
}

/// Encodes one typed value. Scalar kinds become bare scalars, composite
/// kinds tagged mappings with their fields in a fixed order; `Nil` and
/// `Instance` are not written.
pub fn encode_value(value: &DataType) -> (r: Option<Value>)
    ensures
        optional_view(r) == encoded(value@),
{
    match value {
        DataType::String(s) => Some(Value::text(s.as_str())),
        DataType::EnumItem(s) => Some(Value::text(s.as_str())),
        DataType::CFrame(s) => Some(Value::text(s.as_str())),
        DataType::BrickColor(s) => Some(Value::text(s.as_str())),
        DataType::ColorSequence(s) => Some(Value::text(s.as_str())),
        DataType::Rect(s) => Some(Value::text(s.as_str())),
        DataType::Double(bits) => Some(Value::Double(*bits)),
        DataType::Float(bits) => Some(Value::Single(*bits)),
        DataType::Integer(n) => Some(Value::Integer(*n as i128)),
        DataType::Integer64(n) => Some(Value::Integer(*n as i128)),
        DataType::Boolean(b) => Some(Value::Bool(*b)),
        DataType::Vector3(v) => {
            let entries = vec![
                entry("x", Value::Double(v[0])),
                entry("y", Value::Double(v[1])),
                entry("z", Value::Double(v[2])),
            ];
            let r = tag_value("Vector3", entries);
            assert(pairs_view(entries@) =~= seq![
                field("x"@, ValueView::Double(v[0])),
                field("y"@, ValueView::Double(v[1])),
                field("z"@, ValueView::Double(v[2])),
            ]);
            Some(r)
        },
        DataType::Vector2(v) => {
            let entries = vec![entry("x", Value::Double(v[0])), entry("y", Value::Double(v[1]))];
            let r = tag_value("Vector2", entries);
            assert(pairs_view(entries@) =~= seq![
                field("x"@, ValueView::Double(v[0])),
                field("y"@, ValueView::Double(v[1])),
            ]);
            Some(r)
        },
        DataType::Color3(c) => {
            let entries = vec![
                entry("red", Value::Integer(c[0] as i128)),
                entry("green", Value::Integer(c[1] as i128)),
                entry("blue", Value::Integer(c[2] as i128)),
            ];
            let r = tag_value("Color3", entries);
            assert(pairs_view(entries@) =~= seq![
                field("red"@, ValueView::Integer(c[0] as int)),
                field("green"@, ValueView::Integer(c[1] as int)),
                field("blue"@, ValueView::Integer(c[2] as int)),
            ]);
            Some(r)
        },
        DataType::UDim(u) => Some(Value::tagged("UDim", udim_to_mapping(u))),
        DataType::UDim2(u) => {
            let items = vec![udim_to_mapping(&u[0]), udim_to_mapping(&u[1])];
            let r = Value::tagged("UDim2", Value::sequence(items));
            assert(values_view(items@) =~= seq![udim_mapping(u[0]), udim_mapping(u[1])]);
            Some(r)
        },
        DataType::Font { style, family, weight } => {
            let entries = vec![
                entry("style", Value::text(style.as_str())),
                entry("family", Value::text(family.as_str())),
                entry("weight", Value::text(weight.as_str())),
            ];
            let r = tag_value("Font", entries);
            assert(pairs_view(entries@) =~= seq![
                field("style"@, ValueView::Text(style@)),
                field("family"@, ValueView::Text(family@)),
                field("weight"@, ValueView::Text(weight@)),
            ]);
            Some(r)
        },
        DataType::Nil => None,
        DataType::Instance => None,
    }
}

/// The models of a list of named typed values.
pub open spec fn entries_view(entries: Seq<(String, DataType)>) -> Seq<(Seq<char>, DataTypeView)> {
    keyed_view(entries)
}

/// The model of an optional list of named typed values.
pub open spec fn optional_entries_view(entries: Option<Keyed<DataType>>) -> Option<
    Seq<(Seq<char>, DataTypeView)>,
> {
    match entries {
        Some(list) => Some(list@),
        None => None,
    }
}

/// The entries that are written, each with its encoding, in their order.
pub open spec fn encoded_entries(entries: Seq<(Seq<char>, DataTypeView)>) -> Seq<
    (Seq<char>, ValueView),
>
    decreases entries.len(),
{
    if entries.len() == 0 {
        Seq::empty()
    } else {
        let rest = encoded_entries(entries.drop_last());
        match encoded(entries.last().1) {
            Some(value) => rest.push((entries.last().0, value)),
            None => rest,
        }
    }
}

/// Where an entry with key `key` goes into `sorted`: behind every entry
/// whose key does not come after `key`.
pub open spec fn insertion_point(sorted: Seq<(Seq<char>, ValueView)>, key: Seq<char>) -> int
    decreases sorted.len(),
{
    if sorted.len() > 0 && key_precedes(key, sorted.last().0) {
        insertion_point(sorted.drop_last(), key)
    } else {
        sorted.len() as int
    }
}

/// The entries ordered by key; entries with equal keys keep their order.
pub open spec fn sorted_by_key(entries: Seq<(Seq<char>, ValueView)>) -> Seq<(Seq<char>, ValueView)>
    decreases entries.len(),
{
    if entries.len() == 0 {
        Seq::empty()
    } else {
        let sorted = sorted_by_key(entries.drop_last());
        sorted.insert(insertion_point(sorted, entries.last().0), entries.last())
    }
}

/// The mapping entries that keyed values are written as.
pub open spec fn keyed(entries: Seq<(Seq<char>, ValueView)>) -> Seq<(ValueView, ValueView)> {
    Seq::new(entries.len(), |i: int| field(entries[i].0, entries[i].1))
}

/// What a list of named typed values is written as: a mapping of the
/// entries that are written, ordered by key.
pub open spec fn serialized(entries: Seq<(Seq<char>, DataTypeView)>) -> ValueView {
    ValueView::Mapping(keyed(sorted_by_key(encoded_entries(entries))))
}

/// What an optional list of named typed values is written as.
pub open spec fn serialized_optional(entries: Option<Seq<(Seq<char>, DataTypeView)>>) -> ValueView {
    match entries {
        Some(list) => serialized(list),
        None => ValueView::Null,
    }
}

/// Whether `other` is a text that `key` comes strictly before.
fn precedes_key_of(key: &str, other: &Value) -> (r: bool)
    ensures
        r == (other@ matches ValueView::Text(s) && key_precedes(key@, s)),
{
    match other {
        Value::Text(s) => key_before(key, s.as_str()),
        _ => false,
    }
}

/// Puts the entry `key`, `value` into `sorted` at its place by key.
fn insert_by_key(sorted: &mut Vec<(Value, Value)>, key: &str, value: Value, Ghost(model): Ghost<
    Seq<(Seq<char>, ValueView)>,
>)
    requires
        pairs_view(old(sorted)@) == keyed(model),
    ensures
        pairs_view(final(sorted)@) == keyed(
            model.insert(insertion_point(model, key@), (key@, value@)),
        ),
{
    let mut at: usize = sorted.len();
    assert(pairs_view(sorted@).len() == sorted@.len());
    assert(keyed(model).len() == model.len());
    assert(model.take(at as int) =~= model);
    while at > 0 && precedes_key_of(key, &sorted[at - 1].0)
        invariant
            at <= sorted.len(),
            sorted.len() == model.len(),
            pairs_view(sorted@) == keyed(model),
            insertion_point(model, key@) == insertion_point(model.take(at as int), key@),
        decreases at,
    {
        proof {
            let prefix = model.take(at as int);
            assert(pairs_view(sorted@)[at - 1] == keyed(model)[at - 1]);
            assert(prefix.last() == model[at - 1]);
            assert(prefix.drop_last() =~= model.take(at - 1));
        }
        at -= 1;
    }
    proof {
        let prefix = model.take(at as int);
        if at > 0 {
            assert(pairs_view(sorted@)[at - 1] == keyed(model)[at - 1]);
            assert(prefix.last() == model[at - 1]);
        }
        assert(insertion_point(model, key@) == at);
    }
    let ghost before = sorted@;
    sorted.insert(at, entry(key, value));
    proof {
        let after = model.insert(at as int, (key@, value@));
        assert(pairs_view(sorted@) =~= keyed(after)) by {
            assert forall|i: int| 0 <= i < sorted@.len() implies pairs_view(sorted@)[i] == keyed(
                after,
            )[i] by {
                if i < at {
                    assert(pairs_view(before)[i] == keyed(model)[i]);
                } else if i > at {
                    assert(pairs_view(before)[i - 1] == keyed(model)[i - 1]);
                }
            }
        }
    }
}

/// Writes named typed values as a mapping, or as null where there are none
/// to write. Entries are ordered by key, whatever order they came in, and
/// those of the kinds that are not written are left out. No key is written
/// twice.
pub fn serialize_data_types(data_types: &Option<Keyed<DataType>>) -> (r: Value)
    ensures
        r@ == serialized_optional(optional_entries_view(*data_types)),
        data_types matches Some(list) ==> has_distinct_keys(
            sorted_by_key(encoded_entries(list@)),
        ),
{
    match data_types {
        Some(list) => {
            let entries = list.entries();
            let ghost model = entries_view(entries@);
            let mut sorted: Vec<(Value, Value)> = Vec::new();
            let mut i: usize = 0;
            assert(model.take(0) =~= Seq::empty());
            assert(pairs_view(sorted@) =~= keyed(sorted_by_key(encoded_entries(model.take(0)))));
            while i < entries.len()
                invariant
                    i <= entries.len(),
                    model == entries_view(entries@),
                    pairs_view(sorted@) == keyed(
                        sorted_by_key(encoded_entries(model.take(i as int))),
                    ),
                decreases entries.len() - i,
            {
                proof {
                    let next = model.take(i + 1);
                    assert(next.drop_last() =~= model.take(i as int));
                    assert(next.last() == (entries@[i as int].0@, entries@[i as int].1@));
                }
                match encode_value(&entries[i].1) {
                    Some(value) => {
                        let ghost rest = encoded_entries(model.take(i as int));
                        proof {
                            assert(rest.push((entries@[i as int].0@, value@)).drop_last() =~= rest);
                        }
                        insert_by_key(
                            &mut sorted,
                            entries[i].0.as_str(),
                            value,
                            Ghost(sorted_by_key(rest)),
                        );
                    },
                    None => {},
                }
                i += 1;
            }
            assert(model.take(i as int) =~= model);
            proof {
                lemma_encoded_keys_distinct(model);
                lemma_sorted_by_key_keeps_keys_distinct(encoded_entries(model));
            }
            Value::mapping(sorted)
        },
        None => Value::Null,
    }
}

/// No entry comes before an earlier one in the order of keys.
pub open spec fn is_sorted_by_key(entries: Seq<(Seq<char>, ValueView)>) -> bool {
    forall|i: int, j: int|
        #![trigger entries[i], entries[j]]
        0 <= i < j < entries.len() ==> !key_precedes(entries[j].0, entries[i].0)
}

/// The two lists hold the same entries, in whatever order.
pub open spec fn same_entries<V>(a: Seq<(Seq<char>, V)>, b: Seq<(Seq<char>, V)>) -> bool {
    forall|e: (Seq<char>, V)| a.contains(e) <==> b.contains(e)
}

/// The insertion point splits a list: `key` comes before every entry from
/// there on, and not before the one just ahead.
pub proof fn lemma_insertion_point(sorted: Seq<(Seq<char>, ValueView)>, key: Seq<char>)
    ensures
        0 <= insertion_point(sorted, key) <= sorted.len(),
        forall|j: int|
            insertion_point(sorted, key) <= j < sorted.len() ==> key_precedes(
                key,
                (#[trigger] sorted[j]).0,
            ),
        insertion_point(sorted, key) > 0 ==> !key_precedes(
            key,
            sorted[insertion_point(sorted, key) - 1].0,
        ),
    decreases sorted.len(),
{
    if sorted.len() > 0 && key_precedes(key, sorted.last().0) {
        let front = sorted.drop_last();
        lemma_insertion_point(front, key);
        assert forall|j: int| insertion_point(sorted, key) <= j < sorted.len() implies key_precedes(
            key,
            (#[trigger] sorted[j]).0,
        ) by {
            if j < front.len() {
                assert(front[j] == sorted[j]);
            }
        }
    }
}

/// Sorting yields a list that is in the order of keys.
pub proof fn lemma_sorted_by_key_is_sorted(entries: Seq<(Seq<char>, ValueView)>)
    ensures
        is_sorted_by_key(sorted_by_key(entries)),
    decreases entries.len(),
{
    if entries.len() > 0 {
        lemma_sorted_by_key_is_sorted(entries.drop_last());
        let sorted = sorted_by_key(entries.drop_last());
        let e = entries.last();
        let p = insertion_point(sorted, e.0);
        lemma_insertion_point(sorted, e.0);
        let r = sorted.insert(p, e);
        assert forall|i: int, j: int| 0 <= i < j < r.len() implies !key_precedes(
            r[j].0,
            r[i].0,
        ) by {
            if j < p {
                assert(!key_precedes(sorted[j].0, sorted[i].0));
            } else if j == p {
                if i < p - 1 {
                    assert(!key_precedes(sorted[p - 1].0, sorted[i].0));
                } else {
                    lemma_key_order_irreflexive(sorted[i].0);
                }
                lemma_key_order_weakly_transitive(sorted[i].0, sorted[p - 1].0, e.0);
            } else if i == p {
                assert(key_precedes(e.0, sorted[j - 1].0));
                if key_precedes(sorted[j - 1].0, e.0) {
                    lemma_key_order_transitive(e.0, sorted[j - 1].0, e.0);
                    lemma_key_order_irreflexive(e.0);
                }
            } else if i < p {
                assert(!key_precedes(sorted[j - 1].0, sorted[i].0));
            } else {
                assert(!key_precedes(sorted[j - 1].0, sorted[i - 1].0));
            }
        }
    }
}

/// Sorting keeps the entries: the same ones, as many.
pub proof fn lemma_sorted_by_key_keeps_entries(entries: Seq<(Seq<char>, ValueView)>)
    ensures
        sorted_by_key(entries).len() == entries.len(),
        same_entries(sorted_by_key(entries), entries),
        sorted_by_key(entries).to_multiset() == entries.to_multiset(),
    decreases entries.len(),
{
    broadcast use vstd::seq_lib::group_to_multiset_ensures;

    if entries.len() == 0 {
        assert(sorted_by_key(entries) =~= entries);
    } else {
        let front = entries.drop_last();
        lemma_sorted_by_key_keeps_entries(front);
        let sorted = sorted_by_key(front);
        let e = entries.last();
        let p = insertion_point(sorted, e.0);
        lemma_insertion_point(sorted, e.0);
        let r = sorted.insert(p, e);
        assert forall|x: (Seq<char>, ValueView)| r.contains(x) <==> entries.contains(x) by {
            if r.contains(x) {
                let k = choose|k: int| 0 <= k < r.len() && r[k] == x;
                if k < p {
                    assert(sorted.contains(sorted[k]));
                } else if k > p {
                    assert(sorted.contains(sorted[k - 1]));
                }
                if k != p {
                    assert(front.contains(x));
                    let m = choose|m: int| 0 <= m < front.len() && front[m] == x;
                    assert(entries[m] == x);
                } else {
                    assert(entries[entries.len() - 1] == x);
                }
            }
            if entries.contains(x) {
                let m = choose|m: int| 0 <= m < entries.len() && entries[m] == x;
                if m < entries.len() - 1 {
                    assert(front[m] == x);
                    assert(front.contains(x));
                    assert(sorted.contains(x));
                    let k = choose|k: int| 0 <= k < sorted.len() && sorted[k] == x;
                    if k < p {
                        assert(r[k] == x);
                    } else {
                        assert(r[k + 1] == x);
                    }
                } else {
                    assert(r[p] == x);
                }
            }
        }
        assert(r.to_multiset() =~= sorted.to_multiset().insert(e)) by {
            assert(r.remove(p) =~= sorted);
            assert(r.remove(p).to_multiset() =~= r.to_multiset().remove(r[p]));
            assert(r.to_multiset().count(e) > 0) by {
                assert(r.contains(r[p]));
            }
        }
        assert(entries =~= front.push(e));
    }
}

/// Sorting entries with distinct keys yields entries with distinct keys.
pub proof fn lemma_sorted_by_key_keeps_keys_distinct(entries: Seq<(Seq<char>, ValueView)>)
    requires
        has_distinct_keys(entries),
    ensures
        has_distinct_keys(sorted_by_key(entries)),
    decreases entries.len(),
{
    if entries.len() > 0 {
        let front = entries.drop_last();
        assert(has_distinct_keys(front)) by {
            assert forall|i: int, j: int| 0 <= i < j < front.len() implies front[i].0
                != front[j].0 by {
                assert(entries[i].0 != entries[j].0);
            }
        }
        lemma_sorted_by_key_keeps_keys_distinct(front);
        lemma_sorted_by_key_keeps_entries(front);
        let sorted = sorted_by_key(front);
        let e = entries.last();
        let p = insertion_point(sorted, e.0);
        lemma_insertion_point(sorted, e.0);
        let r = sorted.insert(p, e);
        assert forall|k: int| 0 <= k < sorted.len() implies (#[trigger] sorted[k]).0 != e.0 by {
            assert(sorted.contains(sorted[k]));
            assert(front.contains(sorted[k]));
            let m = choose|m: int| 0 <= m < front.len() && front[m] == sorted[k];
            assert(entries[m].0 != entries[entries.len() - 1].0);
        }
        assert forall|i: int, j: int| 0 <= i < j < r.len() implies r[i].0 != r[j].0 by {
            if j < p {
                assert(sorted[i].0 != sorted[j].0);
            } else if j == p {
                assert(sorted[i].0 != e.0);
            } else if i == p {
                assert(sorted[j - 1].0 != e.0);
            } else if i < p {
                assert(sorted[i].0 != sorted[j - 1].0);
            } else {
                assert(sorted[i - 1].0 != sorted[j - 1].0);
            }
        }
    }
}

/// There is one way only to put entries with distinct keys in order: two
/// sorted lists that hold the same entries are the same list.
pub proof fn lemma_sorted_unique(x: Seq<(Seq<char>, ValueView)>, y: Seq<(Seq<char>, ValueView)>)
    requires
        is_sorted_by_key(x),
        is_sorted_by_key(y),
        has_distinct_keys(x),
        has_distinct_keys(y),
        same_entries(x, y),
    ensures
        x == y,
    decreases x.len(),
{
    if x.len() == 0 {
        if y.len() > 0 {
            assert(y.contains(y[0]));
            assert(x.contains(y[0]));
        }
        assert(x =~= y);
    } else {
        let xl = x.last();
        assert(x.contains(x[x.len() - 1]));
        assert(y.contains(xl));
        let j = choose|j: int| 0 <= j < y.len() && y[j] == xl;
        let yl = y.last();
        assert(y.contains(y[y.len() - 1]));
        assert(x.contains(yl));
        let i = choose|i: int| 0 <= i < x.len() && x[i] == yl;
        if j < y.len() - 1 {
            assert(!key_precedes(y[y.len() - 1].0, y[j].0));
        } else {
            lemma_key_order_irreflexive(xl.0);
        }
        if i < x.len() - 1 {
            assert(!key_precedes(x[x.len() - 1].0, x[i].0));
        } else {
            lemma_key_order_irreflexive(yl.0);
        }
        lemma_key_order_total(xl.0, yl.0);
        assert(xl.0 == yl.0);
        if j < y.len() - 1 {
            assert(y[j].0 != y[y.len() - 1].0);
        }
        assert(xl == yl);
        let xs = x.drop_last();
        let ys = y.drop_last();
        assert forall|e: (Seq<char>, ValueView)| xs.contains(e) <==> ys.contains(e) by {
            if xs.contains(e) {
                let k = choose|k: int| 0 <= k < xs.len() && xs[k] == e;
                assert(x[k] == e);
                assert(x.contains(e));
                assert(y.contains(e));
                let m = choose|m: int| 0 <= m < y.len() && y[m] == e;
                if m == y.len() - 1 {
                    assert(x[k].0 != x[x.len() - 1].0);
                }
                assert(ys[m] == e);
            }
            if ys.contains(e) {
                let k = choose|k: int| 0 <= k < ys.len() && ys[k] == e;
                assert(y[k] == e);
                assert(y.contains(e));
                assert(x.contains(e));
                let m = choose|m: int| 0 <= m < x.len() && x[m] == e;
                if m == x.len() - 1 {
                    assert(y[k].0 != y[y.len() - 1].0);
                }
                assert(xs[m] == e);
            }
        }
        assert(is_sorted_by_key(xs)) by {
            assert forall|a: int, b: int| 0 <= a < b < xs.len() implies !key_precedes(
                xs[b].0,
                xs[a].0,
            ) by {
                assert(!key_precedes(x[b].0, x[a].0));
            }
        }
        assert(is_sorted_by_key(ys)) by {
            assert forall|a: int, b: int| 0 <= a < b < ys.len() implies !key_precedes(
                ys[b].0,
                ys[a].0,
            ) by {
                assert(!key_precedes(y[b].0, y[a].0));
            }
        }
        assert(has_distinct_keys(xs)) by {
            assert forall|a: int, b: int| 0 <= a < b < xs.len() implies xs[a].0 != xs[b].0 by {
                assert(x[a].0 != x[b].0);
            }
        }
        assert(has_distinct_keys(ys)) by {
            assert forall|a: int, b: int| 0 <= a < b < ys.len() implies ys[a].0 != ys[b].0 by {
                assert(y[a].0 != y[b].0);
            }
        }
        lemma_sorted_unique(xs, ys);
        assert(x =~= xs.push(xl));
        assert(y =~= ys.push(yl));
    }
}

/// The order in which entries with distinct keys come in does not show in
/// the order they are put: lists that hold the same entries sort alike.
pub proof fn lemma_sorting_ignores_order(
    a: Seq<(Seq<char>, ValueView)>,
    b: Seq<(Seq<char>, ValueView)>,
)
    requires
        has_distinct_keys(a),
        has_distinct_keys(b),
        same_entries(a, b),
    ensures
        sorted_by_key(a) == sorted_by_key(b),
{
    lemma_sorted_by_key_is_sorted(a);
    lemma_sorted_by_key_is_sorted(b);
    lemma_sorted_by_key_keeps_entries(a);
    lemma_sorted_by_key_keeps_entries(b);
    lemma_sorted_by_key_keeps_keys_distinct(a);
    lemma_sorted_by_key_keeps_keys_distinct(b);
    lemma_sorted_unique(sorted_by_key(a), sorted_by_key(b));
}

/// Whether `written` is what the entry `entry` is written as.
pub open spec fn is_encoding_of(
    written: (Seq<char>, ValueView),
    entry: (Seq<char>, DataTypeView),
) -> bool {
    entry.0 == written.0 && encoded(entry.1) == Some(written.1)
}

/// Whether `written` is what one of `entries` is written as.
pub open spec fn is_encoding_of_one(
    written: (Seq<char>, ValueView),
    entries: Seq<(Seq<char>, DataTypeView)>,
) -> bool {
    exists|i: int| 0 <= i < entries.len() && is_encoding_of(written, #[trigger] entries[i])
}

/// Every written entry is the encoding of one of the entries.
pub proof fn lemma_written_comes_from(
    entries: Seq<(Seq<char>, DataTypeView)>,
    written: (Seq<char>, ValueView),
)
    requires
        encoded_entries(entries).contains(written),
    ensures
        is_encoding_of_one(written, entries),
    decreases entries.len(),
{
    let all = encoded_entries(entries);
    let k = choose|k: int| 0 <= k < all.len() && all[k] == written;
    if entries.len() > 0 {
        let front = entries.drop_last();
        let rest = encoded_entries(front);
        if k < rest.len() {
            assert(rest[k] == written);
            assert(rest.contains(written));
            lemma_written_comes_from(front, written);
            let i = choose|i: int|
                0 <= i < front.len() && is_encoding_of(written, #[trigger] front[i]);
            assert(front[i] == entries[i]);
            assert(is_encoding_of(written, entries[i]));
        } else {
            assert(is_encoding_of(written, entries[entries.len() - 1]));
        }
    }
}

/// The encoding of every entry that is written is among the written
/// entries.
pub proof fn lemma_encoding_is_written(
    entries: Seq<(Seq<char>, DataTypeView)>,
    written: (Seq<char>, ValueView),
)
    requires
        is_encoding_of_one(written, entries),
    ensures
        encoded_entries(entries).contains(written),
    decreases entries.len(),
{
    let i = choose|i: int| 0 <= i < entries.len() && is_encoding_of(written, #[trigger] entries[i]);
    let all = encoded_entries(entries);
    let front = entries.drop_last();
    let rest = encoded_entries(front);
    if i < front.len() {
        assert(front[i] == entries[i]);
        assert(is_encoding_of(written, front[i]));
        lemma_encoding_is_written(front, written);
        let k = choose|k: int| 0 <= k < rest.len() && rest[k] == written;
        assert(all[k] == written);
    } else {
        assert(entries.last() == entries[i]);
        assert(all == rest.push(written));
        assert(all[all.len() - 1] == written);
    }
}

/// The written entries have distinct keys where the entries have.
pub proof fn lemma_encoded_keys_distinct(entries: Seq<(Seq<char>, DataTypeView)>)
    requires
        has_distinct_keys(entries),
    ensures
        has_distinct_keys(encoded_entries(entries)),
    decreases entries.len(),
{
    if entries.len() > 0 {
        let front = entries.drop_last();
        let rest = encoded_entries(front);
        let all = encoded_entries(entries);
        assert(has_distinct_keys(front)) by {
            assert forall|i: int, j: int| 0 <= i < j < front.len() implies front[i].0
                != front[j].0 by {
                assert(entries[i].0 != entries[j].0);
            }
        }
        lemma_encoded_keys_distinct(front);
        assert forall|i: int, j: int| 0 <= i < j < all.len() implies all[i].0 != all[j].0 by {
            if j < rest.len() {
                assert(rest[i].0 != rest[j].0);
            } else {
                assert(rest[i] == all[i]);
                assert(rest.contains(rest[i]));
                lemma_written_comes_from(front, rest[i]);
                let m = choose|m: int|
                    0 <= m < front.len() && is_encoding_of(rest[i], #[trigger] front[m]);
                assert(front[m] == entries[m]);
                assert(entries[m].0 != entries[entries.len() - 1].0);
            }
        }
    }
}

/// Lists that hold the same entries are written as the same entries.
pub proof fn lemma_encoded_same_entries(
    a: Seq<(Seq<char>, DataTypeView)>,
    b: Seq<(Seq<char>, DataTypeView)>,
    written: (Seq<char>, ValueView),
)
    requires
        same_entries(a, b),
        encoded_entries(a).contains(written),
    ensures
        encoded_entries(b).contains(written),
{
    lemma_written_comes_from(a, written);
    let i = choose|i: int| 0 <= i < a.len() && is_encoding_of(written, #[trigger] a[i]);
    assert(a.contains(a[i]));
    assert(b.contains(a[i]));
    let m = choose|m: int| 0 <= m < b.len() && b[m] == a[i];
    assert(is_encoding_of(written, b[m]));
    lemma_encoding_is_written(b, written);
}

/// The order in which named values come in does not show in what is
/// written: two lists that hold the same entries, each key once, are
/// written as the same mapping.
pub proof fn lemma_order_of_entries_is_immaterial(
    a: Seq<(Seq<char>, DataTypeView)>,
    b: Seq<(Seq<char>, DataTypeView)>,
)
    requires
        has_distinct_keys(a),
        has_distinct_keys(b),
        same_entries(a, b),
    ensures
        serialized(a) == serialized(b),
{
    lemma_encoded_keys_distinct(a);
    lemma_encoded_keys_distinct(b);
    let ea = encoded_entries(a);
    let eb = encoded_entries(b);
    assert forall|written: (Seq<char>, ValueView)| ea.contains(written) <==> eb.contains(
        written,
    ) by {
        if ea.contains(written) {
            lemma_encoded_same_entries(a, b, written);
        }
        if eb.contains(written) {
            lemma_encoded_same_entries(b, a, written);
        }
    }
    lemma_sorting_ignores_order(ea, eb);
}

/// What is written is in the order of keys, whatever order the entries came
/// in.
pub proof fn lemma_serialized_is_sorted(entries: Seq<(Seq<char>, DataTypeView)>)
    ensures
        serialized(entries) == ValueView::Mapping(keyed(sorted_by_key(encoded_entries(entries)))),
        is_sorted_by_key(sorted_by_key(encoded_entries(entries))),
{
    lemma_sorted_by_key_is_sorted(encoded_entries(entries));
}

} // verus!
