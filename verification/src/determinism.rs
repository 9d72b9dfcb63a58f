//! That the order in which properties and attributes arrive never shows in
//! what an export puts on disk.
use vstd::prelude::*;
use crate::data::{same_entries, DataTypeView};
use crate::export::{
    export_error, export_error_among, export_outputs, export_outputs_among, extension_error,
    instance_error, instance_output, is_reserved, kept_properties,
    lemma_descriptor_ignores_order, lookup, node_directory, run_context, same_named_values,
    script_suffix, without_reserved, writes_descriptor, InstanceView, ItemView,
};
use crate::keyed::has_distinct_keys;

verus! {

/// Whether two trees are the same but for the order of the property and
/// attribute lists of their nodes, none of which holds a key twice.
pub open spec fn alike(a: ItemView, b: ItemView) -> bool
    decreases a,
{
    match (a, b) {
        (ItemView::Instance(x), ItemView::Instance(y)) => {
            &&& x.name == y.name
            &&& x.class == y.class
            &&& x.source == y.source
            &&& x.file_path == y.file_path
            &&& same_named_values(x.properties, y.properties)
            &&& same_named_values(x.attributes, y.attributes)
            &&& match (x.children, y.children) {
                (Some(c), Some(d)) => c.len() == d.len() && forall|i: int|
                    0 <= i < c.len() ==> alike(#[trigger] c[i], d[i]),
                (None, None) => true,
                _ => false,
            }
        },
        (ItemView::ModelReference { .. }, ItemView::ModelReference { .. }) => a == b,
        _ => false,
    }
}

/// What is found under a key is the value of an entry with that key.
pub proof fn lemma_lookup_finds_an_entry(entries: Seq<(Seq<char>, DataTypeView)>, key: Seq<char>)
    ensures
        lookup(entries, key) matches Some(value) ==> entries.contains((key, value)),
        lookup(entries, key) is None ==> forall|i: int|
            0 <= i < entries.len() ==> (#[trigger] entries[i]).0 != key,
    decreases entries.len(),
{
    if entries.len() > 0 {
        if entries[0].0 == key {
            assert(entries[0] == (key, entries[0].1));
        } else {
            let rest = entries.drop_first();
            lemma_lookup_finds_an_entry(rest, key);
            if let Some(value) = lookup(rest, key) {
                let k = choose|k: int| 0 <= k < rest.len() && rest[k] == (key, value);
                assert(entries[k + 1] == (key, value));
            } else {
                assert forall|i: int| 0 <= i < entries.len() implies (#[trigger] entries[i]).0
                    != key by {
                    if i > 0 {
                        assert(rest[i - 1] == entries[i]);
                    }
                }
            }
        }
    }
}

/// Lists that hold the same entries, each key once, hold the same value
/// under every key.
pub proof fn lemma_lookup_ignores_order(
    a: Seq<(Seq<char>, DataTypeView)>,
    b: Seq<(Seq<char>, DataTypeView)>,
    key: Seq<char>,
)
    requires
        has_distinct_keys(a),
        has_distinct_keys(b),
        same_entries(a, b),
    ensures
        lookup(a, key) == lookup(b, key),
{
    lemma_lookup_finds_an_entry(a, key);
    lemma_lookup_finds_an_entry(b, key);
    match (lookup(a, key), lookup(b, key)) {
        (Some(x), Some(y)) => {
            assert(b.contains((key, x)));
            let i = choose|i: int| 0 <= i < b.len() && b[i] == (key, x);
            let j = choose|j: int| 0 <= j < b.len() && b[j] == (key, y);
            if i < j {
                assert(b[i].0 != b[j].0);
            } else if j < i {
                assert(b[j].0 != b[i].0);
            }
        },
        (Some(x), None) => {
            assert(b.contains((key, x)));
            let i = choose|i: int| 0 <= i < b.len() && b[i] == (key, x);
            assert(b[i].0 != key);
        },
        (None, Some(y)) => {
            assert(a.contains((key, y)));
            let i = choose|i: int| 0 <= i < a.len() && a[i] == (key, y);
            assert(a[i].0 != key);
        },
        (None, None) => {},
    }
}

/// What is left without the reserved entries are the entries that are not
/// reserved, with distinct keys where the entries had distinct keys.
pub proof fn lemma_without_reserved_entries(entries: Seq<(Seq<char>, DataTypeView)>)
    ensures
        forall|e: (Seq<char>, DataTypeView)|
            without_reserved(entries).contains(e) <==> entries.contains(e) && !is_reserved(e.0),
        has_distinct_keys(entries) ==> has_distinct_keys(without_reserved(entries)),
    decreases entries.len(),
{
    let kept = without_reserved(entries);
    if entries.len() == 0 {
        assert forall|e: (Seq<char>, DataTypeView)|
            kept.contains(e) <==> entries.contains(e) && !is_reserved(e.0) by {}
    } else {
        let front = entries.drop_last();
        let last = entries.last();
        let rest = without_reserved(front);
        lemma_without_reserved_entries(front);
        assert forall|e: (Seq<char>, DataTypeView)|
            kept.contains(e) <==> entries.contains(e) && !is_reserved(e.0) by {
            if kept.contains(e) {
                let k = choose|k: int| 0 <= k < kept.len() && kept[k] == e;
                if k < rest.len() {
                    assert(rest[k] == e);
                    assert(rest.contains(e));
                    assert(front.contains(e));
                    let m = choose|m: int| 0 <= m < front.len() && front[m] == e;
                    assert(entries[m] == e);
                } else {
                    assert(entries[entries.len() - 1] == e);
                }
            }
            if entries.contains(e) && !is_reserved(e.0) {
                let m = choose|m: int| 0 <= m < entries.len() && entries[m] == e;
                if m < front.len() {
                    assert(front[m] == e);
                    assert(front.contains(e));
                    assert(rest.contains(e));
                    let k = choose|k: int| 0 <= k < rest.len() && rest[k] == e;
                    assert(kept[k] == e);
                } else {
                    assert(kept[kept.len() - 1] == e);
                }
            }
        }
        if has_distinct_keys(entries) {
            assert(has_distinct_keys(front)) by {
                assert forall|i: int, j: int| 0 <= i < j < front.len() implies front[i].0
                    != front[j].0 by {
                    assert(entries[i].0 != entries[j].0);
                }
            }
            assert forall|i: int, j: int| 0 <= i < j < kept.len() implies kept[i].0
                != kept[j].0 by {
                if j < rest.len() {
                    assert(rest[i].0 != rest[j].0);
                } else {
                    assert(rest[i] == kept[i]);
                    assert(rest.contains(rest[i]));
                    assert(front.contains(rest[i]));
                    let m = choose|m: int| 0 <= m < front.len() && front[m] == rest[i];
                    assert(entries[m].0 != entries[entries.len() - 1].0);
                }
            }
        }
    }
}

/// Nodes that are alike are left with properties that are alike.
pub proof fn lemma_kept_properties_alike(x: InstanceView, y: InstanceView)
    requires
        x.class == y.class,
        same_named_values(x.properties, y.properties),
    ensures
        same_named_values(kept_properties(x), kept_properties(y)),
{
    if let (Some(p), Some(q)) = (x.properties, y.properties) {
        lemma_without_reserved_entries(p);
        lemma_without_reserved_entries(q);
        let kp = without_reserved(p);
        let kq = without_reserved(q);
        assert(same_entries(kp, kq)) by {
            assert forall|e: (Seq<char>, DataTypeView)| kp.contains(e) <==> kq.contains(e) by {
                assert(p.contains(e) <==> q.contains(e));
            }
        }
        if kp.len() == 0 && kq.len() > 0 {
            assert(kq.contains(kq[0]));
        }
        if kq.len() == 0 && kp.len() > 0 {
            assert(kp.contains(kp[0]));
        }
    }
}

/// Nodes that are alike fail alike and are written alike.
pub proof fn lemma_instances_written_alike(
    x: InstanceView,
    y: InstanceView,
    current_dir: Seq<char>,
    is_root: bool,
)
    requires
        alike(ItemView::Instance(x), ItemView::Instance(y)),
    ensures
        instance_error(x, current_dir) == instance_error(y, current_dir),
        node_directory(x, current_dir, is_root) == node_directory(y, current_dir, is_root),
        instance_output(x, current_dir, is_root) == instance_output(y, current_dir, is_root),
{
    if let (Some(p), Some(q)) = (x.properties, y.properties) {
        lemma_lookup_ignores_order(p, q, "RunContext"@);
    }
    assert(run_context(x) == run_context(y));
    assert(script_suffix(x) == script_suffix(y));
    assert(extension_error(x, current_dir) == extension_error(y, current_dir));
    lemma_kept_properties_alike(x, y);
    lemma_descriptor_ignores_order(
        x.name,
        x.class,
        kept_properties(x),
        x.attributes,
        kept_properties(y),
        y.attributes,
    );
    assert(writes_descriptor(x) == writes_descriptor(y));
    assert(instance_output(x, current_dir, is_root).files =~= instance_output(
        y,
        current_dir,
        is_root,
    ).files);
}

/// Exporting does not depend on the order in which properties and
/// attributes arrive: trees that are alike are refused alike, and where they
/// are not refused, the same directories and files are planned for both.
pub proof fn lemma_export_ignores_order(
    a: ItemView,
    b: ItemView,
    current_dir: Seq<char>,
    is_root: bool,
)
    requires
        alike(a, b),
    ensures
        export_error(a, current_dir, is_root) == export_error(b, current_dir, is_root),
        export_outputs(a, current_dir, is_root) == export_outputs(b, current_dir, is_root),
    decreases a,
{
    match (a, b) {
        (ItemView::Instance(x), ItemView::Instance(y)) => {
            lemma_instances_written_alike(x, y, current_dir, is_root);
            if let (Some(c), Some(d)) = (x.children, y.children) {
                lemma_export_ignores_order_among(
                    c,
                    d,
                    node_directory(x, current_dir, is_root),
                    c.len(),
                );
            }
        },
        _ => {},
    }
}

/// Exporting the first `n` of two lists of trees that are alike one by one
/// gives the same.
pub proof fn lemma_export_ignores_order_among(
    c: Seq<ItemView>,
    d: Seq<ItemView>,
    current_dir: Seq<char>,
    n: nat,
)
    requires
        c.len() == d.len(),
        n <= c.len(),
        forall|i: int| 0 <= i < c.len() ==> alike(#[trigger] c[i], d[i]),
    ensures
        export_error_among(c, current_dir, n) == export_error_among(d, current_dir, n),
        export_outputs_among(c, current_dir, n) == export_outputs_among(d, current_dir, n),
    decreases c, n,
{
    if n > 0 {
        lemma_export_ignores_order_among(c, d, current_dir, (n - 1) as nat);
        assert(alike(c[n - 1], d[n - 1]));
        lemma_export_ignores_order(c[n - 1], d[n - 1], current_dir, false);
    }
}

} // verus!
