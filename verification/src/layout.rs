//! The directory layout of an exported tree, and that the plan of an export
//! builds it.
use vstd::prelude::*;
use crate::export::{
    anchors_directory, descriptor, descriptor_file_name, export_outputs, export_outputs_among,
    instance_output, is_script_class, kept_properties, node_directory, reference_document,
    reference_file_name, reference_output, script_file_name, writes_descriptor, FileBodyView,
    FileWriteView, InstanceView, ItemView, NodeOutputView,
};
use crate::import::{FileContentView, FsDirectoryView, FsEntryView};
use crate::text::joined;

verus! {

/// The files of an instance itself, as entries of the directory they go
/// into: the code file of a script, then the descriptor where there is one.
pub open spec fn own_entries(instance: InstanceView, is_root: bool) -> Seq<FsEntryView> {
    (if is_script_class(instance.class) {
        seq![
            FsEntryView::File {
                name: script_file_name(instance, is_root),
                content: FileContentView::Text(instance.source->0),
            },
        ]
    } else {
        Seq::empty()
    }) + (if writes_descriptor(instance) {
        seq![
            FsEntryView::File {
                name: descriptor_file_name(instance, is_root),
                content: FileContentView::Document(
                    descriptor(
                        instance.name,
                        instance.class,
                        kept_properties(instance),
                        instance.attributes,
                    ),
                ),
            },
        ]
    } else {
        Seq::empty()
    })
}

/// The entries that a tree adds to the directory it is exported into. A
/// container that is not the root adds one directory, which holds its own
/// files and what its children add; any other node adds its files, and the
/// root what its children add, to the directory itself.
pub open spec fn laid_out(item: ItemView, is_root: bool) -> Seq<FsEntryView>
    decreases item,
{
    match item {
        ItemView::Instance(instance) => {
            let below = match instance.children {
                Some(children) => laid_out_among(children, children.len()),
                None => Seq::empty(),
            };
            if anchors_directory(instance, is_root) {
                seq![
                    FsEntryView::Directory(
                        FsDirectoryView {
                            name: instance.name,
                            entries: own_entries(instance, is_root) + below,
                        },
                    ),
                ]
            } else {
                own_entries(instance, is_root) + below
            }
        },
        ItemView::ModelReference { name, class, asset_id } => seq![
            FsEntryView::File {
                name: reference_file_name(name, is_root),
                content: FileContentView::Document(reference_document(asset_id)),
            },
        ],
    }
}

/// The entries that the first `n` of `items` add to the directory they are
/// exported into, in their order.
pub open spec fn laid_out_among(items: Seq<ItemView>, n: nat) -> Seq<FsEntryView>
    decreases items, n,
{
    if n == 0 || n > items.len() {
        Seq::empty()
    } else {
        laid_out_among(items, (n - 1) as nat) + laid_out(items[n - 1], false)
    }
}

/// One thing done to the disk.
pub enum Step {
    MakeDirectory(Seq<char>),
    WriteFile(FileWriteView),
}

/// What carrying out one node's output does, in order.
pub open spec fn steps_of(output: NodeOutputView) -> Seq<Step> {
    (match output.directory {
        Some(directory) => seq![Step::MakeDirectory(directory)],
        None => Seq::empty(),
    }) + Seq::new(output.files.len(), |i: int| Step::WriteFile(output.files[i]))
}

/// What carrying out the first `n` outputs does, in order.
pub open spec fn steps(outputs: Seq<NodeOutputView>, n: nat) -> Seq<Step>
    decreases n,
{
    if n == 0 || n > outputs.len() {
        Seq::empty()
    } else {
        steps(outputs, (n - 1) as nat) + steps_of(outputs[n - 1])
    }
}

/// The body of the file that holds the content.
pub open spec fn body_of(content: FileContentView) -> FileBodyView {
    match content {
        FileContentView::Text(text) => FileBodyView::Source(text),
        FileContentView::Document(document) => FileBodyView::Descriptor(document),
        FileContentView::Unread => FileBodyView::Source(Seq::empty()),
    }
}

/// What it takes to put the first `n` of `entries` into the directory `dir`.
pub open spec fn building(entries: Seq<FsEntryView>, dir: Seq<char>, n: nat) -> Seq<Step>
    decreases entries, n,
{
    if n == 0 || n > entries.len() {
        Seq::empty()
    } else {
        building(entries, dir, (n - 1) as nat) + building_entry(entries[n - 1], dir)
    }
}

/// What it takes to put one entry into the directory `dir`: a file is
/// written; a directory is made, then filled.
pub open spec fn building_entry(entry: FsEntryView, dir: Seq<char>) -> Seq<Step>
    decreases entry,
{
    match entry {
        FsEntryView::File { name, content } => seq![
            Step::WriteFile(FileWriteView { path: joined(dir, name), body: body_of(content) }),
        ],
        FsEntryView::Directory(directory) => seq![Step::MakeDirectory(joined(dir, directory.name))]
            + building(directory.entries, joined(dir, directory.name), directory.entries.len()),
        FsEntryView::Other { .. } => Seq::empty(),
    }
}

/// The steps for the first `n` outputs do not depend on the outputs behind.
pub proof fn lemma_steps_prefix(a: Seq<NodeOutputView>, b: Seq<NodeOutputView>, n: nat)
    requires
        n <= a.len(),
        n <= b.len(),
        forall|i: int| 0 <= i < n ==> a[i] == b[i],
    ensures
        steps(a, n) == steps(b, n),
    decreases n,
{
    if n > 0 {
        lemma_steps_prefix(a, b, (n - 1) as nat);
    }
}

/// The steps for outputs put one after the other are the steps for the
/// first, then the steps for the second.
pub proof fn lemma_steps_concat(a: Seq<NodeOutputView>, b: Seq<NodeOutputView>, k: nat)
    requires
        k <= b.len(),
    ensures
        steps(a + b, a.len() + k) == steps(a, a.len()) + steps(b, k),
    decreases k,
{
    if k == 0 {
        lemma_steps_prefix(a + b, a, a.len());
        assert(steps(a, a.len()) + Seq::<Step>::empty() =~= steps(a, a.len()));
    } else {
        lemma_steps_concat(a, b, (k - 1) as nat);
        assert((a + b)[a.len() + k - 1] == b[k - 1]);
        assert(steps(a, a.len()) + steps(b, (k - 1) as nat) + steps_of(b[k - 1]) =~= steps(
            a,
            a.len(),
        ) + (steps(b, (k - 1) as nat) + steps_of(b[k - 1])));
    }
}

/// Building the first `n` entries does not depend on the entries behind.
pub proof fn lemma_building_prefix(a: Seq<FsEntryView>, b: Seq<FsEntryView>, dir: Seq<char>, n: nat)
    requires
        n <= a.len(),
        n <= b.len(),
        forall|i: int| 0 <= i < n ==> a[i] == b[i],
    ensures
        building(a, dir, n) == building(b, dir, n),
    decreases n,
{
    if n > 0 {
        lemma_building_prefix(a, b, dir, (n - 1) as nat);
    }
}

/// Building entries put one after the other is building the first, then
/// building the second.
pub proof fn lemma_building_concat(a: Seq<FsEntryView>, b: Seq<FsEntryView>, dir: Seq<char>, k: nat)
    requires
        k <= b.len(),
    ensures
        building(a + b, dir, a.len() + k) == building(a, dir, a.len()) + building(b, dir, k),
    decreases k,
{
    if k == 0 {
        lemma_building_prefix(a + b, a, dir, a.len());
        assert(building(a, dir, a.len()) + Seq::<Step>::empty() =~= building(a, dir, a.len()));
    } else {
        lemma_building_concat(a, b, dir, (k - 1) as nat);
        assert((a + b)[a.len() + k - 1] == b[k - 1]);
        assert(building(a, dir, a.len()) + building(b, dir, (k - 1) as nat) + building_entry(
            b[k - 1],
            dir,
        ) =~= building(a, dir, a.len()) + (building(b, dir, (k - 1) as nat) + building_entry(
            b[k - 1],
            dir,
        )));
    }
}

/// Building an instance's own entries writes the files of its output.
pub proof fn lemma_own_entries_are_the_files(
    instance: InstanceView,
    current_dir: Seq<char>,
    is_root: bool,
)
    ensures
        building(
            own_entries(instance, is_root),
            node_directory(instance, current_dir, is_root),
            own_entries(instance, is_root).len(),
        ) == Seq::new(
            instance_output(instance, current_dir, is_root).files.len(),
            |i: int| Step::WriteFile(instance_output(instance, current_dir, is_root).files[i]),
        ),
{
    let own = own_entries(instance, is_root);
    let dir = node_directory(instance, current_dir, is_root);
    let files = instance_output(instance, current_dir, is_root).files;
    let written = Seq::new(files.len(), |i: int| Step::WriteFile(files[i]));
    assert(own.len() == files.len());
    if own.len() == 0 {
        assert(building(own, dir, 0) =~= written);
    } else if own.len() == 1 {
        assert(building(own, dir, 0) =~= Seq::<Step>::empty());
        assert(building_entry(own[0], dir) =~= written);
        assert(building(own, dir, 1) =~= written);
    } else {
        assert(building(own, dir, 0) =~= Seq::<Step>::empty());
        assert(building(own, dir, 1) =~= building_entry(own[0], dir));
        assert(building(own, dir, 2) =~= building_entry(own[0], dir) + building_entry(
            own[1],
            dir,
        ));
        assert(building_entry(own[0], dir) + building_entry(own[1], dir) =~= written);
    }
}

/// Carrying out the plan of an export builds the layout of the tree:
/// step for step, the plan's outputs make the directories and write the
/// files that the layout holds, under the directory exported into.
pub proof fn lemma_plan_builds_layout(item: ItemView, current_dir: Seq<char>, is_root: bool)
    ensures
        steps(
            export_outputs(item, current_dir, is_root),
            export_outputs(item, current_dir, is_root).len(),
        ) == building(laid_out(item, is_root), current_dir, laid_out(item, is_root).len()),
    decreases item,
{
    let outputs = export_outputs(item, current_dir, is_root);
    let entries = laid_out(item, is_root);
    match item {
        ItemView::Instance(instance) => {
            let dir = node_directory(instance, current_dir, is_root);
            let own_output = instance_output(instance, current_dir, is_root);
            let own = own_entries(instance, is_root);
            let (below_outputs, below) = match instance.children {
                Some(children) => (
                    export_outputs_among(children, dir, children.len()),
                    laid_out_among(children, children.len()),
                ),
                None => (Seq::empty(), Seq::empty()),
            };
            if let Some(children) = instance.children {
                lemma_plan_builds_layout_among(children, dir, children.len());
            }
            assert(steps(below_outputs, below_outputs.len()) == building(below, dir, below.len()));
            lemma_steps_concat(seq![own_output], below_outputs, below_outputs.len());
            assert(steps(seq![own_output], 0) =~= Seq::<Step>::empty());
            assert(steps(seq![own_output], 1) =~= steps_of(own_output));
            lemma_own_entries_are_the_files(instance, current_dir, is_root);
            lemma_building_concat(own, below, dir, below.len());
            let inside = building(own + below, dir, (own + below).len());
            assert(inside == building(own, dir, own.len()) + building(below, dir, below.len()));
            if anchors_directory(instance, is_root) {
                assert(building(entries, current_dir, 0) =~= Seq::<Step>::empty());
                assert(building(entries, current_dir, 1) =~= building_entry(
                    entries[0],
                    current_dir,
                ));
                assert(building_entry(entries[0], current_dir) =~= seq![Step::MakeDirectory(dir)]
                    + inside);
                assert(steps_of(own_output) + steps(below_outputs, below_outputs.len()) =~= seq![
                    Step::MakeDirectory(dir),
                ] + inside);
            } else {
                assert(steps_of(own_output) + steps(below_outputs, below_outputs.len())
                    =~= inside);
            }
        },
        ItemView::ModelReference { name, class, asset_id } => {
            let output = reference_output(name, asset_id, current_dir, is_root);
            assert(steps(outputs, 0) =~= Seq::<Step>::empty());
            assert(steps(outputs, 1) =~= steps_of(output));
            assert(building(entries, current_dir, 0) =~= Seq::<Step>::empty());
            assert(building(entries, current_dir, 1) =~= building_entry(entries[0], current_dir));
            assert(steps_of(output) =~= building_entry(entries[0], current_dir));
        },
    }
}

/// Carrying out the plan for the first `n` items builds their layout.
pub proof fn lemma_plan_builds_layout_among(items: Seq<ItemView>, current_dir: Seq<char>, n: nat)
    ensures
        steps(
            export_outputs_among(items, current_dir, n),
            export_outputs_among(items, current_dir, n).len(),
        ) == building(laid_out_among(items, n), current_dir, laid_out_among(items, n).len()),
    decreases items, n,
{
    if n == 0 || n > items.len() {
        assert(steps(Seq::<NodeOutputView>::empty(), 0) =~= building(
            Seq::<FsEntryView>::empty(),
            current_dir,
            0,
        ));
    } else {
        lemma_plan_builds_layout_among(items, current_dir, (n - 1) as nat);
        lemma_plan_builds_layout(items[n - 1], current_dir, false);
        let before = export_outputs_among(items, current_dir, (n - 1) as nat);
        let last = export_outputs(items[n - 1], current_dir, false);
        lemma_steps_concat(before, last, last.len());
        let entries_before = laid_out_among(items, (n - 1) as nat);
        let entries_last = laid_out(items[n - 1], false);
        lemma_building_concat(entries_before, entries_last, current_dir, entries_last.len());
    }
}

} // verus!
