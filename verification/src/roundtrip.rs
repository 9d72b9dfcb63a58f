//! What comes back when what was exported is imported.
use vstd::prelude::*;
use crate::data::{
    encoded, encoded_entries, field, is_encoding_of_one, is_sorted_by_key, keyed,
    lemma_encoded_keys_distinct, lemma_encoding_is_written, lemma_sorted_by_key_is_sorted,
    lemma_sorted_by_key_keeps_entries, lemma_sorted_by_key_keeps_keys_distinct,
    lemma_written_comes_from, serialized, sorted_by_key, DataTypeView,
};
use crate::determinism::lemma_without_reserved_entries;
use crate::export::{
    descriptor, descriptor_file_name, instance_error, is_script_class, kept_properties,
    reference_file_name, run_context, script_file_name, script_suffix, writes_descriptor,
    InstanceView, ItemView,
};
use crate::import::{
    decoded, decoded_named_values, decoded_optional_text, decoded_text, entry_instances,
    entry_value, file_role, gathered, imported, is_self_entry, leaf_instance,
    lemma_entry_value_absent, lemma_entry_value_at, lemma_self_index_stays, named_values,
    run_context_of, script_instance, script_name, self_index, FileContentView, FsDirectoryView,
    FsEntryView, FsInstanceView, ImportErrorView,
};
use crate::keyed::{has_distinct_keys, index_of_key, lemma_index_of_key};
use crate::layout::{laid_out, laid_out_among, own_entries};
use crate::text::{has_suffix, joined};
use crate::value::ValueView;

verus! {

/// The named values that a descriptor holds for a list of typed values: the
/// entries that are written, encoded, in the order of keys.
pub open spec fn written_entries(entries: Option<Seq<(Seq<char>, DataTypeView)>>) -> Option<
    Seq<(Seq<char>, ValueView)>,
> {
    match entries {
        Some(list) => Some(sorted_by_key(encoded_entries(list))),
        None => None,
    }
}

/// A mapping made of named values, each name once, reads back as those
/// named values.
pub proof fn lemma_named_values_of_keyed(entries: Seq<(Seq<char>, ValueView)>)
    requires
        has_distinct_keys(entries),
    ensures
        named_values(keyed(entries)) == Some(entries),
    decreases entries.len(),
{
    if entries.len() == 0 {
        assert(entries =~= Seq::empty());
    } else {
        let front = entries.drop_last();
        assert(keyed(entries).drop_last() =~= keyed(front));
        assert(has_distinct_keys(front)) by {
            assert forall|i: int, j: int| 0 <= i < j < front.len() implies front[i].0
                != front[j].0 by {
                assert(entries[i].0 != entries[j].0);
            }
        }
        lemma_named_values_of_keyed(front);
        lemma_index_of_key(front, entries.last().0);
        if let Some(i) = index_of_key(front, entries.last().0) {
            assert(entries[i].0 != entries[entries.len() - 1].0);
        }
        assert(entries =~= front.push(entries.last()));
    }
}

/// Whether the lists of a node are what lists of named values are: no key
/// occurs twice.
pub open spec fn has_valid_lists(instance: InstanceView) -> bool {
    &&& instance.properties matches Some(list) ==> has_distinct_keys(list)
    &&& instance.attributes matches Some(list) ==> has_distinct_keys(list)
}

/// What is written for named values, each name once, has each name once.
pub proof fn lemma_written_entries_distinct(entries: Option<Seq<(Seq<char>, DataTypeView)>>)
    requires
        entries matches Some(list) ==> has_distinct_keys(list),
    ensures
        written_entries(entries) matches Some(written) ==> has_distinct_keys(written),
{
    if let Some(list) = entries {
        lemma_encoded_keys_distinct(list);
        lemma_sorted_by_key_keeps_keys_distinct(encoded_entries(list));
    }
}

/// A descriptor reads back as the instance it was written for: the same
/// name and class, and for properties and attributes the named values that
/// were written, or none where there was no list. It has no source and no
/// children of its own.
pub proof fn lemma_descriptor_round_trip(
    name: Seq<char>,
    class: Seq<char>,
    properties: Option<Seq<(Seq<char>, DataTypeView)>>,
    attributes: Option<Seq<(Seq<char>, DataTypeView)>>,
    file: Seq<char>,
)
    requires
        properties matches Some(list) ==> has_distinct_keys(list),
        attributes matches Some(list) ==> has_distinct_keys(list),
    ensures
        decoded(descriptor(name, class, properties, attributes), file) == Ok::<
            FsInstanceView,
            ImportErrorView,
        >(
            FsInstanceView {
                name,
                class,
                children: Seq::empty(),
                attributes: written_entries(attributes),
                properties: written_entries(properties),
                script_source: None,
            },
        ),
{
    lemma_written_entries_distinct(properties);
    lemma_written_entries_distinct(attributes);
    reveal_strlit("name");
    reveal_strlit("class");
    reveal_strlit("properties");
    reveal_strlit("attributes");
    reveal_strlit("script_source");
    assert("name"@.len() == 4 && "class"@.len() == 5 && "properties"@.len() == 10
        && "attributes"@.len() == 10 && "script_source"@.len() == 13);
    assert("properties"@[0] == 'p' && "attributes"@[0] == 'a');
    let document = descriptor(name, class, properties, attributes);
    let entries = document->Mapping_0;
    assert(entries[0] == field("name"@, ValueView::Text(name)));
    assert(entries[1] == field("class"@, ValueView::Text(class)));
    lemma_entry_value_at(entries, "name"@, 0);
    lemma_entry_value_at(entries, "class"@, 1);
    lemma_entry_value_absent(entries, "script_source"@);
    match properties {
        Some(list) => {
            assert(entries[2] == field("properties"@, serialized(list)));
            lemma_entry_value_at(entries, "properties"@, 2);
            lemma_named_values_of_keyed(sorted_by_key(encoded_entries(list)));
            match attributes {
                Some(others) => {
                    assert(entries[3] == field("attributes"@, serialized(others)));
                    lemma_entry_value_at(entries, "attributes"@, 3);
                    lemma_named_values_of_keyed(sorted_by_key(encoded_entries(others)));
                },
                None => {
                    lemma_entry_value_absent(entries, "attributes"@);
                },
            }
        },
        None => {
            lemma_entry_value_absent(entries, "properties"@);
            match attributes {
                Some(others) => {
                    assert(entries[2] == field("attributes"@, serialized(others)));
                    lemma_entry_value_at(entries, "attributes"@, 2);
                    lemma_named_values_of_keyed(sorted_by_key(encoded_entries(others)));
                },
                None => {
                    lemma_entry_value_absent(entries, "attributes"@);
                },
            }
        },
    }
    assert(decoded_text(entries, "name"@, file) == Ok::<Seq<char>, ImportErrorView>(name));
    assert(decoded_text(entries, "class"@, file) == Ok::<Seq<char>, ImportErrorView>(class));
    assert(decoded_named_values(entries, "attributes"@, file) == Ok::<
        Option<Seq<(Seq<char>, ValueView)>>,
        ImportErrorView,
    >(written_entries(attributes)));
    assert(decoded_named_values(entries, "properties"@, file) == Ok::<
        Option<Seq<(Seq<char>, ValueView)>>,
        ImportErrorView,
    >(written_entries(properties)));
    assert(decoded_optional_text(entries, "script_source"@, file) == Ok::<
        Option<Seq<char>>,
        ImportErrorView,
    >(None));
}

/// The tagged mapping that a three-part vector is written as holds its
/// parts under `x`, `y` and `z`: they can be read back from it.
pub proof fn lemma_vector3_components_survive(v: [u64; 3])
    ensures
        encoded(DataTypeView::Vector3(v)) matches Some(ValueView::Tagged(tag, inner)) && tag
            == "Vector3"@ && (*inner matches ValueView::Mapping(fields) && entry_value(
            fields,
            "x"@,
        ) == Some(ValueView::Double(v[0])) && entry_value(fields, "y"@) == Some(
            ValueView::Double(v[1]),
        ) && entry_value(fields, "z"@) == Some(ValueView::Double(v[2]))),
{
    reveal_strlit("x");
    reveal_strlit("y");
    reveal_strlit("z");
    assert("x"@[0] == 'x' && "y"@[0] == 'y' && "z"@[0] == 'z');
    let fields = seq![
        field("x"@, ValueView::Double(v[0])),
        field("y"@, ValueView::Double(v[1])),
        field("z"@, ValueView::Double(v[2])),
    ];
    lemma_entry_value_at(fields, "x"@, 0);
    lemma_entry_value_at(fields, "y"@, 1);
    lemma_entry_value_at(fields, "z"@, 2);
}

/// Where a script says it runs, as far as the name of its code file tells:
/// a local script on the client, a script where its `RunContext` says, if
/// that is the server or the client.
pub open spec fn told_run_context(instance: InstanceView) -> Option<Seq<char>> {
    if instance.class == "LocalScript"@ {
        Some("Client"@)
    } else if instance.class == "Script"@ {
        match run_context(instance) {
            Some(DataTypeView::EnumItem(context)) => if context == "Server"@ {
                Some("Server"@)
            } else if context == "Client"@ {
                Some("Client"@)
            } else {
                None
            },
            _ => None,
        }
    } else {
        None
    }
}

/// Whether the node is written as a file named after it: it is a leaf and
/// not the root.
pub open spec fn is_named_file(instance: InstanceView, is_root: bool) -> bool {
    !is_root && instance.children is None
}

/// A node as it is imported from its own file or directory, under the name
/// `name` and with the children `children`. A script comes back as a script
/// if its file name tells a run context, else as a module script, with the
/// run context as its one property and with its source; any other node with
/// its class and with its properties and attributes as they were written.
pub open spec fn node_image(
    instance: InstanceView,
    name: Seq<char>,
    children: Seq<FsInstanceView>,
) -> FsInstanceView {
    if is_script_class(instance.class) {
        FsInstanceView {
            name,
            class: if told_run_context(instance) is Some {
                "Script"@
            } else {
                "ModuleScript"@
            },
            children,
            attributes: None,
            properties: match told_run_context(instance) {
                Some(context) => Some(seq![("RunContext"@, ValueView::Text(context))]),
                None => None,
            },
            script_source: instance.source,
        }
    } else {
        FsInstanceView {
            name,
            class: instance.class,
            children,
            attributes: written_entries(instance.attributes),
            properties: written_entries(instance.properties),
            script_source: None,
        }
    }
}

/// The node that the descriptor beside a script is imported as: a leaf of
/// the script's name and class with what the script has besides its source
/// and run context.
pub open spec fn described_image(instance: InstanceView) -> FsInstanceView {
    FsInstanceView {
        name: instance.name,
        class: instance.class,
        children: Seq::empty(),
        attributes: written_entries(instance.attributes),
        properties: written_entries(kept_properties(instance)),
        script_source: None,
    }
}

/// What comes back beside a script for its descriptor: a node of its own,
/// unless the descriptor is named like a directory's own, as that of a
/// container or root whose file name tells no run context is.
pub open spec fn beside(instance: InstanceView, is_root: bool) -> Seq<FsInstanceView> {
    if is_script_class(instance.class) && writes_descriptor(instance) && (is_named_file(
        instance,
        is_root,
    ) || told_run_context(instance) is Some) {
        seq![described_image(instance)]
    } else {
        Seq::empty()
    }
}

/// What the entries that a tree adds to a directory are imported as. A
/// container is one node with what comes back beside and below it as
/// children; a leaf is its node, if it wrote a file, with what comes back
/// beside it; a model reference and a folder without anything of its own
/// are nothing.
pub open spec fn images(item: ItemView) -> Seq<FsInstanceView>
    decreases item,
{
    match item {
        ItemView::Instance(instance) => match instance.children {
            Some(children) => seq![
                node_image(
                    instance,
                    instance.name,
                    beside(instance, false) + images_among(children, children.len()),
                ),
            ],
            None => if is_script_class(instance.class) {
                seq![node_image(instance, instance.name, Seq::empty())] + beside(instance, false)
            } else if writes_descriptor(instance) {
                seq![node_image(instance, instance.name, Seq::empty())]
            } else {
                Seq::empty()
            },
        },
        ItemView::ModelReference { .. } => Seq::empty(),
    }
}

/// What the entries of the first `n` of `items` are imported as.
pub open spec fn images_among(items: Seq<ItemView>, n: nat) -> Seq<FsInstanceView>
    decreases items, n,
{
    if n == 0 || n > items.len() {
        Seq::empty()
    } else {
        images_among(items, (n - 1) as nat) + images(items[n - 1])
    }
}

/// What the directory of a container, or of the root, is imported as, given
/// what its children are imported as. A script is named after the
/// directory, as is a folder without a descriptor; the root without a file
/// of its own is not there, and its children stand side by side.
pub open spec fn directory_images(
    instance: InstanceView,
    is_root: bool,
    directory_name: Seq<char>,
    below: Seq<FsInstanceView>,
) -> Seq<FsInstanceView> {
    if is_script_class(instance.class) {
        seq![node_image(instance, directory_name, beside(instance, is_root) + below)]
    } else if writes_descriptor(instance) {
        seq![node_image(instance, instance.name, below)]
    } else if !is_root {
        seq![node_image(instance, directory_name, below)]
    } else {
        below
    }
}

/// Whether the files of a tree read as what they were written as. The
/// files of a container or of the root always do, and so does the file of a
/// model reference. The file of a leaf is named after it and may read as
/// something else: a leaf named `+instance` is taken for the directory's
/// own, and a module script whose name ends in `.server` is taken for a
/// script that runs on the server. The tree must also be one that can be
/// exported, with no key twice in any of its lists.
pub open spec fn reads_back(item: ItemView, is_root: bool) -> bool
    decreases item,
{
    match item {
        ItemView::Instance(instance) => {
            &&& instance_error(instance, Seq::empty()) is None
            &&& has_valid_lists(instance)
            &&& is_named_file(instance, is_root) && is_script_class(instance.class) ==> {
                &&& file_role(script_file_name(instance, is_root)) is Script
                &&& run_context_of(script_file_name(instance, is_root)) == told_run_context(
                    instance,
                )
            }
            &&& is_named_file(instance, is_root) && writes_descriptor(instance) ==> file_role(
                descriptor_file_name(instance, is_root),
            ) is Descriptor
            &&& instance.children matches Some(children) ==> forall|i: int|
                0 <= i < children.len() ==> reads_back(#[trigger] children[i], false)
        },
        ItemView::ModelReference { .. } => true,
    }
}

/// What the first `n` entries stand for does not depend on the entries
/// behind.
pub proof fn lemma_gathered_prefix(a: Seq<FsEntryView>, b: Seq<FsEntryView>, path: Seq<char>, n: nat)
    requires
        n <= a.len(),
        n <= b.len(),
        forall|i: int| 0 <= i < n ==> a[i] == b[i],
    ensures
        gathered(a, path, n) == gathered(b, path, n),
    decreases n,
{
    if n > 0 {
        lemma_gathered_prefix(a, b, path, (n - 1) as nat);
    }
}

/// Entries put one after the other stand for what the first stand for, then
/// what the second stand for.
pub proof fn lemma_gathered_concat(
    a: Seq<FsEntryView>,
    b: Seq<FsEntryView>,
    path: Seq<char>,
    k: nat,
)
    requires
        k <= b.len(),
        gathered(a, path, a.len()) is Ok,
        gathered(b, path, k) is Ok,
    ensures
        gathered(a + b, path, a.len() + k) == Ok::<Seq<FsInstanceView>, ImportErrorView>(
            gathered(a, path, a.len())->Ok_0 + gathered(b, path, k)->Ok_0,
        ),
    decreases k,
{
    let first = gathered(a, path, a.len())->Ok_0;
    if k == 0 {
        lemma_gathered_prefix(a + b, a, path, a.len());
        assert(first + Seq::<FsInstanceView>::empty() =~= first);
    } else {
        lemma_gathered_concat(a, b, path, (k - 1) as nat);
        assert((a + b)[a.len() + k - 1] == b[k - 1]);
        let before = gathered(b, path, (k - 1) as nat)->Ok_0;
        let more = entry_instances(b[k - 1], path)->Ok_0;
        assert(first + before + more =~= first + (before + more));
    }
}

/// What one entry stands for is what the list of it alone stands for.
pub proof fn lemma_gathered_single(entry: FsEntryView, path: Seq<char>)
    requires
        entry_instances(entry, path) is Ok,
    ensures
        gathered(seq![entry], path, 1) == entry_instances(entry, path),
{
    let found = entry_instances(entry, path)->Ok_0;
    assert(gathered(seq![entry], path, 0) == Ok::<Seq<FsInstanceView>, ImportErrorView>(
        Seq::empty(),
    ));
    assert(seq![entry][0] == entry);
    assert(Seq::<FsInstanceView>::empty() + found =~= found);
}

/// The own file of a container or of the root reads as the directory's own
/// entry, and a code file among them tells where the script runs.
pub proof fn lemma_own_file_names(instance: InstanceView, is_root: bool)
    requires
        is_root || instance.children is Some,
    ensures
        !is_script_class(instance.class) ==> file_role(descriptor_file_name(instance, is_root))
            is SelfDescriptor,
        is_script_class(instance.class) ==> file_role(script_file_name(instance, is_root))
            is SelfScript && run_context_of(script_file_name(instance, is_root))
            == told_run_context(instance),
{
    reveal_strlit("+instance");
    reveal_strlit(".vie");
    reveal_strlit("+instance.vie");
    reveal_strlit(".luau");
    reveal_strlit(".server");
    reveal_strlit(".client");
    reveal_strlit("+instance.luau");
    reveal_strlit("+instance.server.luau");
    reveal_strlit("+instance.client.luau");
    reveal_strlit(".server.luau");
    reveal_strlit(".client.luau");
    reveal_strlit("Script");
    reveal_strlit("LocalScript");
    reveal_strlit("ModuleScript");
    reveal_strlit("Server");
    reveal_strlit("Client");
    assert("+instance"@ + ".vie"@ =~= "+instance.vie"@);
    let plain = "+instance.luau"@;
    let server = "+instance.server.luau"@;
    let client = "+instance.client.luau"@;
    assert("+instance"@ + Seq::<char>::empty() + ".luau"@ =~= plain);
    assert("+instance"@ + ".server"@ + ".luau"@ =~= server);
    assert("+instance"@ + ".client"@ + ".luau"@ =~= client);
    assert(plain.len() == 14 && server.len() == 21 && client.len() == 21
        && "+instance.vie"@.len() == 13);
    assert(".server.luau"@.len() == 12 && ".client.luau"@.len() == 12);
    assert(server.subrange(9, 21) =~= ".server.luau"@);
    assert(client.subrange(9, 21) =~= ".client.luau"@);
    assert(client.subrange(9, 21)[1] == 'c' && ".server.luau"@[1] == 's');
    assert(plain.subrange(2, 14)[0] == 'n' && ".server.luau"@[0] == '.' && ".client.luau"@[0]
        == '.');
    assert(has_suffix(server, ".server.luau"@));
    assert(!has_suffix(client, ".server.luau"@));
    assert(has_suffix(client, ".client.luau"@));
    assert(!has_suffix(plain, ".server.luau"@));
    assert(!has_suffix(plain, ".client.luau"@));
    assert("Script"@.len() == 6 && "LocalScript"@.len() == 11 && "ModuleScript"@.len() == 12);
    assert("Server"@[0] == 'S' && "Client"@[0] == 'C');
}

/// The descriptor beside the code file of a container or of the root reads
/// as a descriptor of its own where the file names tell a run context, and
/// is named like the directory's own where they tell none.
pub proof fn lemma_own_descriptor_names(instance: InstanceView, is_root: bool)
    requires
        is_root || instance.children is Some,
        is_script_class(instance.class),
    ensures
        told_run_context(instance) is Some ==> file_role(descriptor_file_name(instance, is_root))
            is Descriptor,
        told_run_context(instance) is None ==> file_role(descriptor_file_name(instance, is_root))
            is SelfDescriptor,
{
    reveal_strlit("+instance");
    reveal_strlit(".vie");
    reveal_strlit("+instance.vie");
    reveal_strlit(".luau");
    reveal_strlit(".server");
    reveal_strlit(".client");
    reveal_strlit("+instance.luau");
    reveal_strlit("+instance.server.luau");
    reveal_strlit("+instance.client.luau");
    reveal_strlit("+reference.vie");
    reveal_strlit(".reference.vie");
    reveal_strlit("Script");
    reveal_strlit("LocalScript");
    reveal_strlit("ModuleScript");
    reveal_strlit("Server");
    reveal_strlit("Client");
    assert("Script"@.len() == 6 && "LocalScript"@.len() == 11 && "ModuleScript"@.len() == 12);
    assert("Server"@[0] == 'S' && "Client"@[0] == 'C');
    assert("+instance"@.len() == 9 && ".vie"@.len() == 4 && ".server"@.len() == 7
        && ".client"@.len() == 7 && ".luau"@.len() == 5);
    assert("+instance.vie"@.len() == 13 && "+instance.luau"@.len() == 14
        && "+instance.server.luau"@.len() == 21 && "+instance.client.luau"@.len() == 21
        && "+reference.vie"@.len() == 14 && ".reference.vie"@.len() == 14);
    let file = descriptor_file_name(instance, is_root);
    if told_run_context(instance) is Some {
        assert(script_suffix(instance).len() == 7);
        assert(file.len() == 20);
        assert(file[6] == "+instance"@[6] && "+instance"@[6] == 'n' && ".reference.vie"@[0]
            == '.');
        assert(file[19] == ".vie"@[3] && ".vie"@[3] == 'e' && ".luau"@[4] == 'u');
        assert(!has_suffix(file, ".reference.vie"@)) by {
            assert(file.subrange(6, 20)[0] == file[6]);
        }
        assert(!has_suffix(file, ".luau"@)) by {
            assert(file.subrange(15, 20)[4] == file[19]);
        }
        assert(file.subrange(16, 20) =~= ".vie"@);
    } else {
        assert(script_suffix(instance) =~= Seq::<char>::empty());
        assert(file =~= "+instance.vie"@);
    }
}

/// The file of a model reference reads as that of a reference.
pub proof fn lemma_reference_names(name: Seq<char>, is_root: bool)
    ensures
        file_role(reference_file_name(name, is_root)) is Reference,
{
    reveal_strlit("+reference.vie");
    reveal_strlit(".reference.vie");
    reveal_strlit("+instance.vie");
    reveal_strlit("+instance.luau");
    reveal_strlit("+instance.server.luau");
    reveal_strlit("+instance.client.luau");
    let file = reference_file_name(name, is_root);
    assert("+reference.vie"@.len() == 14 && ".reference.vie"@.len() == 14 && "+instance.vie"@.len()
        == 13);
    assert("+instance.luau"@.len() == 14 && "+instance.server.luau"@.len() == 21
        && "+instance.client.luau"@.len() == 21);
    assert("+instance.luau"@[13] == 'u' && "+instance.server.luau"@[20] == 'u'
        && "+instance.client.luau"@[20] == 'u');
    assert("+reference.vie"@[13] == 'e' && ".reference.vie"@[13] == 'e');
    assert(file[file.len() - 1] == 'e');
    if !is_root {
        assert(file.subrange(file.len() - 14, file.len() as int) =~= ".reference.vie"@);
    }
}

/// Where no entry can be a directory's own, it has none.
pub proof fn lemma_no_self_index(entries: Seq<FsEntryView>)
    requires
        forall|j: int| 0 <= j < entries.len() ==> !is_self_entry(#[trigger] entries[j]),
    ensures
        self_index(entries) is None,
    decreases entries.len(),
{
    if entries.len() > 0 {
        let front = entries.drop_last();
        assert forall|j: int| 0 <= j < front.len() implies !is_self_entry(#[trigger] front[j]) by {
            assert(front[j] == entries[j]);
        }
        lemma_no_self_index(front);
        assert(!is_self_entry(entries[entries.len() - 1]));
    }
}

/// The files of a leaf read back: a leaf whose files read as what they were
/// written as adds entries that are not taken for the directory's own and
/// that are imported as the leaf's images.
pub proof fn lemma_leaf_reads_back(item: ItemView, path: Seq<char>)
    requires
        reads_back(item, false),
        item matches ItemView::Instance(instance) ==> instance.children is None,
    ensures
        forall|j: int|
            0 <= j < laid_out(item, false).len() ==> !is_self_entry(
                #[trigger] laid_out(item, false)[j],
            ),
        gathered(laid_out(item, false), path, laid_out(item, false).len()) == Ok::<
            Seq<FsInstanceView>,
            ImportErrorView,
        >(images(item)),
{
    let entries = laid_out(item, false);
    match item {
        ItemView::ModelReference { name, class, asset_id } => {
            lemma_reference_names(name, false);
            assert(entry_instances(entries[0], path) == Ok::<Seq<FsInstanceView>, ImportErrorView>(
                Seq::empty(),
            ));
            lemma_gathered_single(entries[0], path);
            assert(entries =~= seq![entries[0]]);
        },
        ItemView::Instance(instance) => {
            let own = own_entries(instance, false);
            assert(entries =~= own);
            reveal_strlit(".luau");
            reveal_strlit(".server");
            reveal_strlit(".client");
            reveal_strlit("Script");
            reveal_strlit("LocalScript");
            reveal_strlit("ModuleScript");
            reveal_strlit("Server");
            reveal_strlit("Client");
            assert("Script"@.len() == 6 && "LocalScript"@.len() == 11 && "ModuleScript"@.len()
                == 12);
            assert(".luau"@.len() == 5 && ".server"@.len() == 7 && ".client"@.len() == 7);
            assert("Server"@[0] == 'S' && "Client"@[0] == 'C');
            let image = node_image(instance, instance.name, Seq::empty());
            if is_script_class(instance.class) {
                let file = script_file_name(instance, false);
                assert(script_name(file) =~= instance.name);
                assert(own[0] == FsEntryView::File {
                    name: file,
                    content: FileContentView::Text(instance.source->0),
                });
                assert(leaf_instance(file, FileContentView::Text(instance.source->0), path)
                    == Ok::<Option<FsInstanceView>, ImportErrorView>(
                    Some(script_instance(script_name(file), file, instance.source->0)),
                ));
                assert(entry_instances(own[0], path) == Ok::<
                    Seq<FsInstanceView>,
                    ImportErrorView,
                >(seq![image]));
                lemma_gathered_single(own[0], path);
                if writes_descriptor(instance) {
                    if let Some(list) = instance.properties {
                        lemma_without_reserved_entries(list);
                    }
                    let described = descriptor_file_name(instance, false);
                    lemma_descriptor_round_trip(
                        instance.name,
                        instance.class,
                        kept_properties(instance),
                        instance.attributes,
                        joined(path, described),
                    );
                    assert(entry_instances(own[1], path) == Ok::<
                        Seq<FsInstanceView>,
                        ImportErrorView,
                    >(seq![described_image(instance)]));
                    lemma_gathered_single(own[1], path);
                    lemma_gathered_concat(seq![own[0]], seq![own[1]], path, 1);
                    assert(own =~= seq![own[0]] + seq![own[1]]);
                } else {
                    assert(own =~= seq![own[0]]);
                    assert(seq![image] + Seq::<FsInstanceView>::empty() =~= seq![image]);
                }
            } else if writes_descriptor(instance) {
                let described = descriptor_file_name(instance, false);
                lemma_descriptor_round_trip(
                    instance.name,
                    instance.class,
                    instance.properties,
                    instance.attributes,
                    joined(path, described),
                );
                assert(entry_instances(own[0], path) == Ok::<
                    Seq<FsInstanceView>,
                    ImportErrorView,
                >(seq![image]));
                lemma_gathered_single(own[0], path);
                assert(own =~= seq![own[0]]);
            } else {
                assert(own =~= Seq::empty());
            }
        },
    }
}

/// The entries that a tree adds to a directory read back: where the files
/// of the tree read as what they were written as, none of the entries is
/// taken for the directory's own, and they are imported as the tree's
/// images.
pub proof fn lemma_entries_read_back(item: ItemView, path: Seq<char>)
    requires
        reads_back(item, false),
    ensures
        forall|j: int|
            0 <= j < laid_out(item, false).len() ==> !is_self_entry(
                #[trigger] laid_out(item, false)[j],
            ),
        gathered(laid_out(item, false), path, laid_out(item, false).len()) == Ok::<
            Seq<FsInstanceView>,
            ImportErrorView,
        >(images(item)),
    decreases item, 1nat,
{
    if item is Instance && item->Instance_0.children is Some {
        let instance = item->Instance_0;
        let entries = laid_out(item, false);
        lemma_directory_reads_back(item, false, instance.name, joined(path, instance.name));
        assert(entries.len() == 1);
        assert(entry_instances(entries[0], path) == Ok::<Seq<FsInstanceView>, ImportErrorView>(
            images(item),
        ));
        lemma_gathered_single(entries[0], path);
        assert(entries =~= seq![entries[0]]);
    } else {
        lemma_leaf_reads_back(item, path);
    }
}

/// The entries that children add to a directory read back, child by child.
pub proof fn lemma_children_read_back(items: Seq<ItemView>, path: Seq<char>, n: nat)
    requires
        n <= items.len(),
        forall|i: int| 0 <= i < n ==> reads_back(#[trigger] items[i], false),
    ensures
        forall|j: int|
            0 <= j < laid_out_among(items, n).len() ==> !is_self_entry(
                #[trigger] laid_out_among(items, n)[j],
            ),
        gathered(laid_out_among(items, n), path, laid_out_among(items, n).len()) == Ok::<
            Seq<FsInstanceView>,
            ImportErrorView,
        >(images_among(items, n)),
    decreases items, n, 0nat,
{
    if n > 0 {
        let before = laid_out_among(items, (n - 1) as nat);
        let last = laid_out(items[n - 1], false);
        lemma_children_read_back(items, path, (n - 1) as nat);
        assert(reads_back(items[n - 1], false));
        lemma_entries_read_back(items[n - 1], path);
        lemma_gathered_concat(before, last, path, last.len());
        assert forall|j: int| 0 <= j < (before + last).len() implies !is_self_entry(
            #[trigger] (before + last)[j],
        ) by {
            if j < before.len() {
                assert((before + last)[j] == before[j]);
            } else {
                assert((before + last)[j] == last[j - before.len()]);
            }
        }
    }
}

/// The directory of a container, or of the root, reads back: imported, the
/// directory that holds the node's own files and what its children add
/// gives the node with what comes back beside and below it.
pub proof fn lemma_directory_reads_back(
    item: ItemView,
    is_root: bool,
    directory_name: Seq<char>,
    path: Seq<char>,
)
    requires
        reads_back(item, is_root),
        item matches ItemView::Instance(instance) && (is_root || instance.children is Some),
    ensures
        imported(
            FsDirectoryView {
                name: directory_name,
                entries: own_entries(item->Instance_0, is_root) + (match item->Instance_0.children {
                    Some(children) => laid_out_among(children, children.len()),
                    None => Seq::empty(),
                }),
            },
            path,
            is_root,
        ) == Ok::<Seq<FsInstanceView>, ImportErrorView>(
            directory_images(
                item->Instance_0,
                is_root,
                directory_name,
                match item->Instance_0.children {
                    Some(children) => images_among(children, children.len()),
                    None => Seq::empty(),
                },
            ),
        ),
    decreases item, 0nat,
{
    let instance = item->Instance_0;
    let own = own_entries(instance, is_root);
    let (below, below_images) = match instance.children {
        Some(children) => (
            laid_out_among(children, children.len()),
            images_among(children, children.len()),
        ),
        None => (Seq::empty(), Seq::empty()),
    };
    let entries = own + below;
    let directory = FsDirectoryView { name: directory_name, entries };
    if let Some(children) = instance.children {
        lemma_children_read_back(children, path, children.len());
    } else {
        assert(gathered(below, path, 0) == Ok::<Seq<FsInstanceView>, ImportErrorView>(
            below_images,
        ));
    }
    lemma_own_file_names(instance, is_root);
    reveal_strlit("Script");
    reveal_strlit("LocalScript");
    reveal_strlit("ModuleScript");
    reveal_strlit("Folder");
    assert("Script"@.len() == 6 && "LocalScript"@.len() == 11 && "ModuleScript"@.len() == 12);
    assert("Folder"@[0] == 'F' && "Script"@[0] == 'S');
    let found = beside(instance, is_root);
    if own.len() == 0 {
        assert(entries =~= below);
        lemma_no_self_index(entries);
        assert(instance.class == "Folder"@);
        assert(gathered(own, path, 0) == Ok::<Seq<FsInstanceView>, ImportErrorView>(found));
    } else {
        assert(entries[0] == own[0]);
        assert(is_self_entry(entries[0]));
        assert(entries.take(1).drop_last() =~= Seq::<FsEntryView>::empty());
        assert(entries.take(1).last() == entries[0]);
        assert(self_index(entries.take(1).drop_last()) is None);
        assert(self_index(entries.take(1)) == Some(0int));
        lemma_self_index_stays(entries, 1);
        assert(entry_instances(own[0], path) == Ok::<Seq<FsInstanceView>, ImportErrorView>(
            Seq::empty(),
        ));
        lemma_gathered_single(own[0], path);
        if is_script_class(instance.class) {
            if writes_descriptor(instance) {
                lemma_own_descriptor_names(instance, is_root);
                if let Some(list) = instance.properties {
                    lemma_without_reserved_entries(list);
                }
                lemma_descriptor_round_trip(
                    instance.name,
                    instance.class,
                    kept_properties(instance),
                    instance.attributes,
                    joined(path, descriptor_file_name(instance, is_root)),
                );
                assert(entry_instances(own[1], path) == Ok::<
                    Seq<FsInstanceView>,
                    ImportErrorView,
                >(found));
                lemma_gathered_single(own[1], path);
                lemma_gathered_concat(seq![own[0]], seq![own[1]], path, 1);
                assert(own =~= seq![own[0]] + seq![own[1]]);
                assert(Seq::<FsInstanceView>::empty() + found =~= found);
            } else {
                assert(own =~= seq![own[0]]);
            }
        } else {
            lemma_descriptor_round_trip(
                instance.name,
                instance.class,
                instance.properties,
                instance.attributes,
                joined(path, descriptor_file_name(instance, is_root)),
            );
            assert(own =~= seq![own[0]]);
        }
    }
    assert(gathered(own, path, own.len()) == Ok::<Seq<FsInstanceView>, ImportErrorView>(found));
    lemma_gathered_concat(own, below, path, below.len());
    assert(gathered(entries, path, entries.len()) == Ok::<Seq<FsInstanceView>, ImportErrorView>(
        found + below_images,
    ));
    if !is_script_class(instance.class) {
        assert(found + below_images =~= below_images);
    }
}

/// An exported tree reads back: the directory that the export of the tree
/// as root fills is imported as the root with what comes back beside and
/// below it. This holds of every tree that can be exported, has no key
/// twice in a list, and whose leaves have file names that read as what
/// they were written as; it says nothing of a tree with a leaf whose name
/// is taken for something else, such as `+instance` or `x.server`.
pub proof fn lemma_export_reads_back(tree: ItemView, directory_name: Seq<char>, path: Seq<char>)
    requires
        reads_back(tree, true),
    ensures
        imported(FsDirectoryView { name: directory_name, entries: laid_out(tree, true) }, path, true)
            == Ok::<Seq<FsInstanceView>, ImportErrorView>(
            match tree {
                ItemView::Instance(root) => directory_images(
                    root,
                    true,
                    directory_name,
                    match root.children {
                        Some(children) => images_among(children, children.len()),
                        None => Seq::empty(),
                    },
                ),
                ItemView::ModelReference { .. } => Seq::empty(),
            },
        ),
{
    match tree {
        ItemView::Instance(root) => {
            lemma_directory_reads_back(tree, true, directory_name, path);
        },
        ItemView::ModelReference { name, class, asset_id } => {
            let entries = laid_out(tree, true);
            lemma_reference_names(name, true);
            assert(entry_instances(entries[0], path) == Ok::<Seq<FsInstanceView>, ImportErrorView>(
                Seq::empty(),
            ));
            lemma_gathered_single(entries[0], path);
            assert(entries =~= seq![entries[0]]);
            lemma_no_self_index(entries);
        },
    }
}

/// Classes come back: every node that is not a script comes back with its
/// class, and so does a module script, and a script that says it runs on the
/// server or on the client. A local script comes back as a script, and a
/// script that says neither as a module script.
pub proof fn lemma_class_comes_back(
    instance: InstanceView,
    name: Seq<char>,
    children: Seq<FsInstanceView>,
)
    ensures
        !is_script_class(instance.class) ==> node_image(instance, name, children).class
            == instance.class,
        instance.class == "ModuleScript"@ ==> node_image(instance, name, children).class
            == instance.class,
        instance.class == "Script"@ && told_run_context(instance) is Some ==> node_image(
            instance,
            name,
            children,
        ).class == instance.class,
        instance.class == "LocalScript"@ ==> node_image(instance, name, children).class
            == "Script"@,
        instance.class == "Script"@ && told_run_context(instance) is None ==> node_image(
            instance,
            name,
            children,
        ).class == "ModuleScript"@,
{
    reveal_strlit("Script");
    reveal_strlit("LocalScript");
    reveal_strlit("ModuleScript");
    assert("Script"@.len() == 6 && "LocalScript"@.len() == 11 && "ModuleScript"@.len() == 12);
}

/// Sources come back: a script comes back with its source, any other node
/// without one.
pub proof fn lemma_source_comes_back(
    instance: InstanceView,
    name: Seq<char>,
    children: Seq<FsInstanceView>,
)
    ensures
        node_image(instance, name, children).script_source == if is_script_class(instance.class) {
            instance.source
        } else {
            None
        },
{
}

/// The run context comes back: a script whose `RunContext` names the server
/// or the client comes back with that word as the text under `RunContext`,
/// its one property; a script whose file name tells no run context comes
/// back without properties.
pub proof fn lemma_run_context_comes_back(
    instance: InstanceView,
    name: Seq<char>,
    children: Seq<FsInstanceView>,
    context: Seq<char>,
)
    requires
        instance.class == "Script"@,
    ensures
        run_context(instance) == Some(DataTypeView::EnumItem(context)) && (context == "Server"@
            || context == "Client"@) ==> node_image(instance, name, children).properties == Some(
            seq![("RunContext"@, ValueView::Text(context))],
        ),
        told_run_context(instance) is None ==> node_image(instance, name, children).properties
            is None,
{
    reveal_strlit("Script");
    reveal_strlit("LocalScript");
    reveal_strlit("ModuleScript");
    reveal_strlit("Server");
    reveal_strlit("Client");
    assert("Script"@.len() == 6 && "LocalScript"@.len() == 11 && "ModuleScript"@.len() == 12);
    assert("Server"@[0] == 'S' && "Client"@[0] == 'C');
}

/// Values come back as they were written: what comes back for named values
/// is in the order of keys, each key once, and its entries are the
/// encodings of the entries that are written, those and no others.
pub proof fn lemma_values_come_back(
    entries: Seq<(Seq<char>, DataTypeView)>,
    written: (Seq<char>, ValueView),
)
    requires
        has_distinct_keys(entries),
    ensures
        written_entries(Some(entries)) matches Some(list) && has_distinct_keys(list)
            && is_sorted_by_key(list) && (list.contains(written) <==> is_encoding_of_one(
            written,
            entries,
        )),
{
    let encoded = encoded_entries(entries);
    lemma_written_entries_distinct(Some(entries));
    lemma_sorted_by_key_is_sorted(encoded);
    lemma_sorted_by_key_keeps_entries(encoded);
    if encoded.contains(written) {
        lemma_written_comes_from(entries, written);
    }
    if is_encoding_of_one(written, entries) {
        lemma_encoding_is_written(entries, written);
    }
}

/// Whether a name has no dot in it and does not begin with a plus sign.
pub open spec fn is_plain_name(name: Seq<char>) -> bool {
    &&& forall|i: int| 0 <= i < name.len() ==> name[i] != '.'
    &&& name.len() > 0 ==> name[0] != '+'
}

/// The files of a leaf with a plain name read as what they were written
/// as: the descriptor as a descriptor, also where it stands beside a code
/// file, and the code file as a code file that tells the run context that
/// was put into its name.
pub proof fn lemma_plain_names_read_back(name: Seq<char>)
    requires
        is_plain_name(name),
    ensures
        file_role(name + ".vie"@) is Descriptor,
        file_role(name + Seq::<char>::empty() + ".luau"@) is Script,
        file_role(name + ".server"@ + ".luau"@) is Script,
        file_role(name + ".client"@ + ".luau"@) is Script,
        file_role(name + ".server"@ + ".vie"@) is Descriptor,
        file_role(name + ".client"@ + ".vie"@) is Descriptor,
        run_context_of(name + Seq::<char>::empty() + ".luau"@) is None,
        run_context_of(name + ".server"@ + ".luau"@) == Some("Server"@),
        run_context_of(name + ".client"@ + ".luau"@) == Some("Client"@),
{
    reveal_strlit(".vie");
    reveal_strlit("+instance.vie");
    reveal_strlit(".luau");
    reveal_strlit(".server");
    reveal_strlit(".client");
    reveal_strlit("+instance.luau");
    reveal_strlit("+instance.server.luau");
    reveal_strlit("+instance.client.luau");
    reveal_strlit(".server.luau");
    reveal_strlit(".client.luau");
    reveal_strlit(".reference.vie");
    reveal_strlit("+reference.vie");
    assert("+reference.vie"@[0] == '+');
    let n = name.len() as int;
    let described = name + ".vie"@;
    let plain = name + Seq::<char>::empty() + ".luau"@;
    let server = name + ".server"@ + ".luau"@;
    let client = name + ".client"@ + ".luau"@;
    assert(".vie"@.len() == 4 && ".luau"@.len() == 5 && ".server"@.len() == 7 && ".client"@.len()
        == 7);
    assert(".server.luau"@.len() == 12 && ".client.luau"@.len() == 12 && ".reference.vie"@.len()
        == 14);
    assert("+instance.vie"@.len() == 13 && "+instance.luau"@.len() == 14
        && "+instance.server.luau"@.len() == 21 && "+instance.client.luau"@.len() == 21);
    assert("+instance.vie"@[0] == '+' && "+instance.luau"@[0] == '+' && "+instance.server.luau"@[0]
        == '+' && "+instance.client.luau"@[0] == '+');
    assert(".vie"@[0] == '.' && ".luau"@[0] == '.' && ".server"@[0] == '.' && ".client"@[0]
        == '.');
    // No file of the leaf has the name of a directory's own file: those
    // begin with a plus sign.
    assert(described[0] != '+' && plain[0] != '+' && server[0] != '+' && client[0] != '+') by {
        if n > 0 {
            assert(described[0] == name[0] && plain[0] == name[0] && server[0] == name[0]
                && client[0] == name[0]);
        } else {
            assert(described[0] == '.' && plain[0] == '.' && server[0] == '.' && client[0]
                == '.');
        }
    }
    // The descriptor.
    assert(described.subrange(described.len() - 4, described.len() as int) =~= ".vie"@);
    assert(!has_suffix(described, ".luau"@)) by {
        if described.len() >= 5 {
            let tail = described.subrange(described.len() - 5, described.len() as int);
            assert(tail[4] == 'e' && ".luau"@[4] == 'u');
        }
    }
    assert(!has_suffix(described, ".reference.vie"@)) by {
        if described.len() >= 14 {
            let tail = described.subrange(described.len() - 14, described.len() as int);
            assert(tail[0] == name[n - 10] && ".reference.vie"@[0] == '.');
        }
    }
    // The descriptors beside code files.
    let beside_server = name + ".server"@ + ".vie"@;
    let beside_client = name + ".client"@ + ".vie"@;
    assert(beside_server[0] != '+' && beside_client[0] != '+') by {
        if n > 0 {
            assert(beside_server[0] == name[0] && beside_client[0] == name[0]);
        } else {
            assert(beside_server[0] == '.' && beside_client[0] == '.');
        }
    }
    assert(beside_server.subrange(beside_server.len() - 4, beside_server.len() as int)
        =~= ".vie"@);
    assert(beside_client.subrange(beside_client.len() - 4, beside_client.len() as int)
        =~= ".vie"@);
    assert(!has_suffix(beside_server, ".luau"@) && !has_suffix(beside_client, ".luau"@)) by {
        assert(".luau"@[4] == 'u' && ".vie"@[3] == 'e');
        assert(beside_server.subrange(beside_server.len() - 5, beside_server.len() as int)[4]
            == 'e');
        assert(beside_client.subrange(beside_client.len() - 5, beside_client.len() as int)[4]
            == 'e');
    }
    assert(!has_suffix(beside_server, ".reference.vie"@) && !has_suffix(
        beside_client,
        ".reference.vie"@,
    )) by {
        assert(".reference.vie"@[0] == '.');
        if beside_server.len() >= 14 {
            let tail = beside_server.subrange(
                beside_server.len() - 14,
                beside_server.len() as int,
            );
            assert(tail[0] == name[n - 3]);
            let other = beside_client.subrange(
                beside_client.len() - 14,
                beside_client.len() as int,
            );
            assert(other[0] == name[n - 3]);
        }
    }
    assert("+instance.luau"@[13] == 'u' && "+instance.server.luau"@[20] == 'u'
        && "+instance.client.luau"@[20] == 'u');
    assert(beside_server[beside_server.len() - 1] == 'e' && beside_client[beside_client.len()
        - 1] == 'e');
    // The code files.
    assert(plain.subrange(plain.len() - 5, plain.len() as int) =~= ".luau"@);
    assert(server.subrange(server.len() - 5, server.len() as int) =~= ".luau"@);
    assert(client.subrange(client.len() - 5, client.len() as int) =~= ".luau"@);
    assert(!has_suffix(plain, ".reference.vie"@) && !has_suffix(server, ".reference.vie"@)
        && !has_suffix(client, ".reference.vie"@)) by {
        assert(".reference.vie"@[13] == 'e' && ".luau"@[4] == 'u');
        if plain.len() >= 14 {
            assert(plain.subrange(plain.len() - 14, plain.len() as int)[13] == 'u');
        }
        if server.len() >= 14 {
            assert(server.subrange(server.len() - 14, server.len() as int)[13] == 'u');
        }
        if client.len() >= 14 {
            assert(client.subrange(client.len() - 14, client.len() as int)[13] == 'u');
        }
    }
    assert(!has_suffix(plain, ".server.luau"@) && !has_suffix(plain, ".client.luau"@)) by {
        if plain.len() >= 12 {
            let tail = plain.subrange(plain.len() - 12, plain.len() as int);
            assert(tail[0] == name[n - 7] && ".server.luau"@[0] == '.' && ".client.luau"@[0]
                == '.');
        }
    }
    assert(server.subrange(server.len() - 12, server.len() as int) =~= ".server.luau"@);
    assert(client.subrange(client.len() - 12, client.len() as int) =~= ".client.luau"@);
    assert(!has_suffix(client, ".server.luau"@)) by {
        let tail = client.subrange(client.len() - 12, client.len() as int);
        assert(tail[1] == 'c' && ".server.luau"@[1] == 's');
    }
}

} // verus!
