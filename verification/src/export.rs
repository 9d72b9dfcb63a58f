//! Exporting: from a tree of instances to the directories and files that
//! represent it.
use vstd::prelude::*;
use crate::data::{
    entries_view, entry, field, lemma_order_of_entries_is_immaterial, optional_entries_view,
    same_entries, serialize_data_types, serialized, DataType, DataTypeView,
};
use crate::keyed::{has_distinct_keys, without_key, Keyed};
use crate::text::{append, join, joined, text_eq};
use crate::value::{pairs_view, Value, ValueView};

verus! {

/// A node of the tree to export.
#[derive(Debug, PartialEq, Eq)]
pub enum PluginExportItem {
    Instance(PluginInstance),
    /// A leaf that stands for a sub-tree stored elsewhere.
    ModelReference { name: String, class: String, asset_id: u64 },
}

/// An instance of the tree to export.
#[derive(Debug, PartialEq, Eq)]
pub struct PluginInstance {
    pub name: String,
    pub class: String,
    /// The script body; script classes need one.
    pub source: Option<String>,
    /// `None` for a leaf, `Some` for a container, even an empty one.
    pub children: Option<Vec<PluginExportItem>>,
    pub properties: Option<Keyed<DataType>>,
    pub attributes: Option<Keyed<DataType>>,
    /// Where the script body was written, relative to the export root. Set
    /// by the export.
    pub file_path: Option<String>,
}

/// The mathematical model of a [`PluginExportItem`].
pub enum ItemView {
    Instance(InstanceView),
    ModelReference { name: Seq<char>, class: Seq<char>, asset_id: u64 },
}

/// The mathematical model of a [`PluginInstance`].
pub struct InstanceView {
    pub name: Seq<char>,
    pub class: Seq<char>,
    pub source: Option<Seq<char>>,
    pub children: Option<Seq<ItemView>>,
    pub properties: Option<Seq<(Seq<char>, DataTypeView)>>,
    pub attributes: Option<Seq<(Seq<char>, DataTypeView)>>,
    pub file_path: Option<Seq<char>>,
}

/// The model of an optional text.
pub open spec fn optional_text_view(text: Option<String>) -> Option<Seq<char>> {
    match text {
        Some(s) => Some(s@),
        None => None,
    }
}

/// The models of a sequence of items.
pub open spec fn items_view(items: Seq<PluginExportItem>) -> Seq<ItemView> {
    Seq::new(items.len(), |i: int| items[i]@)
}

impl PluginExportItem {
    pub open spec fn model(self) -> ItemView
        decreases self,
    {
        match self {
            PluginExportItem::Instance(instance) => ItemView::Instance(instance.model()),
            PluginExportItem::ModelReference { name, class, asset_id } => ItemView::ModelReference {
                name: name@,
                class: class@,
                asset_id,
            },
        }
    }
}

impl PluginInstance {
    pub open spec fn model(self) -> InstanceView
        decreases self,
    {
        InstanceView {
            name: self.name@,
            class: self.class@,
            source: optional_text_view(self.source),
            children: match self.children {
                Some(children) => Some(
                    Seq::new(
                        children@.len(),
                        |i: int|
                            if 0 <= i < children@.len() {
                                children@[i].model()
                            } else {
                                ItemView::ModelReference {
                                    name: Seq::empty(),
                                    class: Seq::empty(),
                                    asset_id: 0,
                                }
                            },
                    ),
                ),
                None => None,
            },
            properties: optional_entries_view(self.properties),
            attributes: optional_entries_view(self.attributes),
            file_path: optional_text_view(self.file_path),
        }
    }

    /// The children of a container are modelled item by item.
    pub proof fn lemma_children_view(self)
        ensures
            self.children matches Some(children) ==> self@.children == Some(
                items_view(children@),
            ),
            self.children is None ==> self@.children is None,
    {
        if let Some(children) = self.children {
            assert(self.model().children->0 =~= items_view(children@));
        }
    }
}

impl View for PluginExportItem {
    type V = ItemView;

    open spec fn view(&self) -> ItemView {
        self.model()
    }
}

impl View for PluginInstance {
    type V = InstanceView;

    open spec fn view(&self) -> InstanceView {
        self.model()
    }
}

/// How many nodes a tree has.
pub open spec fn node_count(item: ItemView) -> nat
    decreases item,
{
    match item {
        ItemView::Instance(instance) => match instance.children {
            Some(children) => 1 + node_count_of(children, children.len()),
            None => 1,
        },
        ItemView::ModelReference { .. } => 1,
    }
}

/// How many nodes the first `n` of `items` have together.
pub open spec fn node_count_of(items: Seq<ItemView>, n: nat) -> nat
    decreases items, n,
{
    if n == 0 || n > items.len() {
        0
    } else {
        node_count_of(items, (n - 1) as nat) + node_count(items[n - 1])
    }
}

/// A count as a 64-bit number holds it: capped at the largest one.
pub open spec fn capped(n: nat) -> u64 {
    if n <= u64::MAX {
        n as u64
    } else {
        u64::MAX
    }
}

impl PluginExportItem {
    /// The number of nodes in the tree, this one included; the largest
    /// 64-bit number if there are more.
    pub fn total_instance_count(&self) -> (count: u64)
        ensures
            count == capped(node_count(self@)),
        decreases self,
    {
        match self {
            PluginExportItem::Instance(instance) => instance.total_instance_count(),
            PluginExportItem::ModelReference { .. } => 1,
        }
    }
}

impl PluginInstance {
    /// The number of nodes in the tree under this instance, itself
    /// included; the largest 64-bit number if there are more.
    pub fn total_instance_count(&self) -> (count: u64)
        ensures
            count == capped(node_count(ItemView::Instance(self@))),
        decreases self,
    {
        let mut count: u64 = 1;
        if let Some(children) = &self.children {
            proof {
                self.lemma_children_view();
            }
            let ghost models = items_view(children@);
            let mut i: usize = 0;
            while i < children.len()
                invariant
                    i <= children.len(),
                    self.children is Some,
                    children@ == self.children->0@,
                    models == items_view(children@),
                    count == capped(1 + node_count_of(models, i as nat)),
                decreases children.len() - i,
            {
                let below = children[i].total_instance_count();
                count = count.saturating_add(below);
                i += 1;
            }
        }
        count
    }
}

/// What goes into a file.
#[derive(Debug, PartialEq, Eq)]
pub enum FileBody {
    /// The text of a code file.
    Source(String),
    /// The document of a descriptor file.
    Descriptor(Value),
    /// The document of the sourcemap.
    Sourcemap(Value),
}

/// One file to write. The path is relative to the export root.
#[derive(Debug, PartialEq, Eq)]
pub struct FileWrite {
    pub path: String,
    pub body: FileBody,
}

/// What one visited node puts on disk: the directory it anchors, if it
/// anchors one, and its files in the order they are written.
#[derive(Debug, PartialEq, Eq)]
pub struct NodeOutput {
    pub directory: Option<String>,
    pub files: Vec<FileWrite>,
}

/// Why a tree cannot be exported. `node` is the path of the node at fault:
/// its name under the directory it was to be placed in.
#[derive(Debug, PartialEq, Eq)]
pub enum ExportError {
    /// A node of a script class has no source.
    MissingSource { node: String },
    /// A `Script` has no `RunContext` property.
    MissingRunContext { node: String },
    /// The `RunContext` property of a `Script` is not an enum item.
    RunContextNotEnumItem { node: String },
    /// There is no tree to export.
    EmptyPayload,
}

/// The mathematical model of a [`FileBody`].
pub enum FileBodyView {
    Source(Seq<char>),
    Descriptor(ValueView),
    Sourcemap(ValueView),
}

/// The mathematical model of a [`FileWrite`].
pub struct FileWriteView {
    pub path: Seq<char>,
    pub body: FileBodyView,
}

/// The mathematical model of a [`NodeOutput`].
pub struct NodeOutputView {
    pub directory: Option<Seq<char>>,
    pub files: Seq<FileWriteView>,
}

/// The mathematical model of an [`ExportError`].
pub enum ExportErrorView {
    MissingSource { node: Seq<char> },
    MissingRunContext { node: Seq<char> },
    RunContextNotEnumItem { node: Seq<char> },
    EmptyPayload,
}

impl View for FileBody {
    type V = FileBodyView;

    open spec fn view(&self) -> FileBodyView {
        match *self {
            FileBody::Source(text) => FileBodyView::Source(text@),
            FileBody::Descriptor(document) => FileBodyView::Descriptor(document@),
            FileBody::Sourcemap(document) => FileBodyView::Sourcemap(document@),
        }
    }
}

impl View for FileWrite {
    type V = FileWriteView;

    open spec fn view(&self) -> FileWriteView {
        FileWriteView { path: self.path@, body: self.body@ }
    }
}

/// The models of a sequence of files.
pub open spec fn files_view(files: Seq<FileWrite>) -> Seq<FileWriteView> {
    Seq::new(files.len(), |i: int| files[i]@)
}

impl View for NodeOutput {
    type V = NodeOutputView;

    open spec fn view(&self) -> NodeOutputView {
        NodeOutputView {
            directory: optional_text_view(self.directory),
            files: files_view(self.files@),
        }
    }
}

/// The models of a sequence of node outputs.
pub open spec fn outputs_view(outputs: Seq<NodeOutput>) -> Seq<NodeOutputView> {
    Seq::new(outputs.len(), |i: int| outputs[i]@)
}

impl View for ExportError {
    type V = ExportErrorView;

    open spec fn view(&self) -> ExportErrorView {
        match *self {
            ExportError::MissingSource { node } => ExportErrorView::MissingSource { node: node@ },
            ExportError::MissingRunContext { node } => ExportErrorView::MissingRunContext {
                node: node@,
            },
            ExportError::RunContextNotEnumItem { node } => ExportErrorView::RunContextNotEnumItem {
                node: node@,
            },
            ExportError::EmptyPayload => ExportErrorView::EmptyPayload,
        }
    }
}

/// The model of an optional error.
pub open spec fn optional_error_view(error: Option<ExportError>) -> Option<ExportErrorView> {
    match error {
        Some(e) => Some(e@),
        None => None,
    }
}

/// Whether nodes of this class carry source text.
pub open spec fn is_script_class(class: Seq<char>) -> bool {
    class == "Script"@ || class == "LocalScript"@ || class == "ModuleScript"@
}

/// The value of the first entry under `key`, if there is one.
pub open spec fn lookup(entries: Seq<(Seq<char>, DataTypeView)>, key: Seq<char>) -> Option<
    DataTypeView,
>
    decreases entries.len(),
{
    if entries.len() == 0 {
        None
    } else if entries[0].0 == key {
        Some(entries[0].1)
    } else {
        lookup(entries.drop_first(), key)
    }
}

/// The `RunContext` property of an instance, if it has one.
pub open spec fn run_context(instance: InstanceView) -> Option<DataTypeView> {
    match instance.properties {
        Some(properties) => lookup(properties, "RunContext"@),
        None => None,
    }
}

/// The part of a code file's extension that tells where the script runs.
pub open spec fn script_suffix(instance: InstanceView) -> Seq<char> {
    if instance.class == "LocalScript"@ {
        ".client"@
    } else if instance.class == "Script"@ {
        match run_context(instance) {
            Some(DataTypeView::EnumItem(context)) => if context == "Server"@ {
                ".server"@
            } else if context == "Client"@ {
                ".client"@
            } else {
                Seq::empty()
            },
            _ => Seq::empty(),
        }
    } else {
        Seq::empty()
    }
}

/// The path by which errors name a node.
pub open spec fn node_path(instance: InstanceView, current_dir: Seq<char>) -> Seq<char> {
    joined(current_dir, instance.name)
}

/// Why the extension of an instance's code file cannot be told: a `Script`
/// must say where it runs.
pub open spec fn extension_error(instance: InstanceView, current_dir: Seq<char>) -> Option<
    ExportErrorView,
> {
    if instance.class == "Script"@ {
        match run_context(instance) {
            None => Some(
                ExportErrorView::MissingRunContext { node: node_path(instance, current_dir) },
            ),
            Some(DataTypeView::EnumItem(_)) => None,
            Some(_) => Some(
                ExportErrorView::RunContextNotEnumItem { node: node_path(instance, current_dir) },
            ),
        }
    } else {
        None
    }
}

/// Why an instance, taken without its children, cannot be exported.
pub open spec fn instance_error(instance: InstanceView, current_dir: Seq<char>) -> Option<
    ExportErrorView,
> {
    if !is_script_class(instance.class) {
        None
    } else if extension_error(instance, current_dir) is Some {
        extension_error(instance, current_dir)
    } else if instance.source is None {
        Some(ExportErrorView::MissingSource { node: node_path(instance, current_dir) })
    } else {
        None
    }
}

/// The keys that a script keeps out of its descriptor: the source is the
/// file body, the run context is in the extension.
pub open spec fn is_reserved(key: Seq<char>) -> bool {
    key == "Source"@ || key == "RunContext"@
}

/// The entries whose key is not reserved, in their order.
pub open spec fn without_reserved(entries: Seq<(Seq<char>, DataTypeView)>) -> Seq<
    (Seq<char>, DataTypeView),
>
    decreases entries.len(),
{
    if entries.len() == 0 {
        Seq::empty()
    } else {
        let rest = without_reserved(entries.drop_last());
        if is_reserved(entries.last().0) {
            rest
        } else {
            rest.push(entries.last())
        }
    }
}

/// The properties an instance is left with: a script loses the reserved
/// ones, and the whole list if nothing else is in it.
pub open spec fn kept_properties(instance: InstanceView) -> Option<
    Seq<(Seq<char>, DataTypeView)>,
> {
    if is_script_class(instance.class) {
        match instance.properties {
            Some(properties) => if without_reserved(properties).len() == 0 {
                None
            } else {
                Some(without_reserved(properties))
            },
            None => None,
        }
    } else {
        instance.properties
    }
}

/// One optional entry of a descriptor: present where the list is.
pub open spec fn optional_field(
    name: Seq<char>,
    entries: Option<Seq<(Seq<char>, DataTypeView)>>,
) -> Seq<(ValueView, ValueView)> {
    match entries {
        Some(list) => seq![field(name, serialized(list))],
        None => Seq::empty(),
    }
}

/// The document of a descriptor file: name and class, then the properties
/// and the attributes where there are any.
pub open spec fn descriptor(
    name: Seq<char>,
    class: Seq<char>,
    properties: Option<Seq<(Seq<char>, DataTypeView)>>,
    attributes: Option<Seq<(Seq<char>, DataTypeView)>>,
) -> ValueView {
    ValueView::Mapping(
        seq![field("name"@, ValueView::Text(name)), field("class"@, ValueView::Text(class))]
            + optional_field("properties"@, properties) + optional_field(
            "attributes"@,
            attributes,
        ),
    )
}

/// Whether the node gets a directory of its own: every container but the
/// root does.
pub open spec fn anchors_directory(instance: InstanceView, is_root: bool) -> bool {
    !is_root && instance.children is Some
}

/// The directory the files of the node and its children go into.
pub open spec fn node_directory(instance: InstanceView, current_dir: Seq<char>, is_root: bool) -> Seq<
    char,
> {
    if anchors_directory(instance, is_root) {
        joined(current_dir, instance.name)
    } else {
        current_dir
    }
}

/// The file name of the node without its extension.
pub open spec fn base_name(instance: InstanceView, is_root: bool) -> Seq<char> {
    if is_root || instance.children is Some {
        "+instance"@
    } else {
        instance.name
    }
}

/// The name of the code file of a script.
pub open spec fn script_file_name(instance: InstanceView, is_root: bool) -> Seq<char> {
    base_name(instance, is_root) + script_suffix(instance) + ".luau"@
}

/// The name of the descriptor file of a node.
pub open spec fn descriptor_file_name(instance: InstanceView, is_root: bool) -> Seq<char> {
    if is_script_class(instance.class) {
        base_name(instance, is_root) + script_suffix(instance) + ".vie"@
    } else {
        base_name(instance, is_root) + ".vie"@
    }
}

/// The path of the code file of a script.
pub open spec fn script_path(instance: InstanceView, current_dir: Seq<char>, is_root: bool) -> Seq<
    char,
> {
    joined(node_directory(instance, current_dir, is_root), script_file_name(instance, is_root))
}

/// The path of the descriptor file of a node.
pub open spec fn descriptor_path(
    instance: InstanceView,
    current_dir: Seq<char>,
    is_root: bool,
) -> Seq<char> {
    joined(node_directory(instance, current_dir, is_root), descriptor_file_name(instance, is_root))
}

/// Whether the node gets a descriptor file. A script gets one for what is
/// left of its properties or for its attributes; any other node gets one
/// unless it is a folder with neither.
pub open spec fn writes_descriptor(instance: InstanceView) -> bool {
    if is_script_class(instance.class) {
        kept_properties(instance) is Some || instance.attributes is Some
    } else {
        !(instance.class == "Folder"@ && instance.properties is None && instance.attributes
            is None)
    }
}

/// What an instance that can be exported puts on disk, its children apart.
pub open spec fn instance_output(instance: InstanceView, current_dir: Seq<char>, is_root: bool) -> NodeOutputView {
    let code = if is_script_class(instance.class) {
        seq![
            FileWriteView {
                path: script_path(instance, current_dir, is_root),
                body: FileBodyView::Source(instance.source->0),
            },
        ]
    } else {
        Seq::empty()
    };
    let described = if writes_descriptor(instance) {
        seq![
            FileWriteView {
                path: descriptor_path(instance, current_dir, is_root),
                body: FileBodyView::Descriptor(
                    descriptor(
                        instance.name,
                        instance.class,
                        kept_properties(instance),
                        instance.attributes,
                    ),
                ),
            },
        ]
    } else {
        Seq::empty()
    };
    NodeOutputView {
        directory: if anchors_directory(instance, is_root) {
            Some(node_directory(instance, current_dir, is_root))
        } else {
            None
        },
        files: code + described,
    }
}

/// The document that stands for a model stored elsewhere.
pub open spec fn reference_document(asset_id: u64) -> ValueView {
    ValueView::Mapping(
        seq![
            field("kind"@, ValueView::Text("model"@)),
            field("asset_id"@, ValueView::Integer(asset_id as int)),
        ],
    )
}

/// The name of the descriptor file of a model reference.
pub open spec fn reference_file_name(name: Seq<char>, is_root: bool) -> Seq<char> {
    if is_root {
        "+reference.vie"@
    } else {
        name + ".reference.vie"@
    }
}

/// What a model reference puts on disk: one descriptor file.
pub open spec fn reference_output(
    name: Seq<char>,
    asset_id: u64,
    current_dir: Seq<char>,
    is_root: bool,
) -> NodeOutputView {
    NodeOutputView {
        directory: None,
        files: seq![
            FileWriteView {
                path: joined(current_dir, reference_file_name(name, is_root)),
                body: FileBodyView::Descriptor(reference_document(asset_id)),
            },
        ],
    }
}

/// The first reason, in the order the nodes are visited, why a tree cannot
/// be exported, or `None` if it can.
pub open spec fn export_error(item: ItemView, current_dir: Seq<char>, is_root: bool) -> Option<
    ExportErrorView,
>
    decreases item,
{
    match item {
        ItemView::Instance(instance) => if instance_error(instance, current_dir) is Some {
            instance_error(instance, current_dir)
        } else {
            match instance.children {
                Some(children) => export_error_among(
                    children,
                    node_directory(instance, current_dir, is_root),
                    children.len(),
                ),
                None => None,
            }
        },
        ItemView::ModelReference { .. } => None,
    }
}

/// The first reason why one of the first `n` of `items` cannot be exported.
pub open spec fn export_error_among(items: Seq<ItemView>, current_dir: Seq<char>, n: nat) -> Option<
    ExportErrorView,
>
    decreases items, n,
{
    if n == 0 || n > items.len() {
        None
    } else if export_error_among(items, current_dir, (n - 1) as nat) is Some {
        export_error_among(items, current_dir, (n - 1) as nat)
    } else {
        export_error(items[n - 1], current_dir, false)
    }
}

/// The tree as the export leaves it: scripts have lost their reserved
/// properties and know the path of their code file.
pub open spec fn exported(item: ItemView, current_dir: Seq<char>, is_root: bool) -> ItemView
    decreases item,
{
    match item {
        ItemView::Instance(instance) => ItemView::Instance(
            InstanceView {
                name: instance.name,
                class: instance.class,
                source: instance.source,
                children: match instance.children {
                    Some(children) => Some(
                        Seq::new(
                            children.len(),
                            |i: int|
                                if 0 <= i < children.len() {
                                    exported(
                                        children[i],
                                        node_directory(instance, current_dir, is_root),
                                        false,
                                    )
                                } else {
                                    item
                                },
                        ),
                    ),
                    None => None,
                },
                properties: kept_properties(instance),
                attributes: instance.attributes,
                file_path: if is_script_class(instance.class) {
                    Some(script_path(instance, current_dir, is_root))
                } else {
                    instance.file_path
                },
            },
        ),
        ItemView::ModelReference { .. } => item,
    }
}

/// What a tree that can be exported puts on disk, node by node in the order
/// they are visited: each node before its children, the children in their
/// order.
pub open spec fn export_outputs(item: ItemView, current_dir: Seq<char>, is_root: bool) -> Seq<
    NodeOutputView,
>
    decreases item,
{
    match item {
        ItemView::Instance(instance) => seq![instance_output(instance, current_dir, is_root)]
            + (match instance.children {
            Some(children) => export_outputs_among(
                children,
                node_directory(instance, current_dir, is_root),
                children.len(),
            ),
            None => Seq::empty(),
        }),
        ItemView::ModelReference { name, class, asset_id } => seq![
            reference_output(name, asset_id, current_dir, is_root),
        ],
    }
}

/// What the first `n` of `items` put on disk, one after the other.
pub open spec fn export_outputs_among(items: Seq<ItemView>, current_dir: Seq<char>, n: nat) -> Seq<
    NodeOutputView,
>
    decreases items, n,
{
    if n == 0 || n > items.len() {
        Seq::empty()
    } else {
        export_outputs_among(items, current_dir, (n - 1) as nat) + export_outputs(
            items[n - 1],
            current_dir,
            false,
        )
    }
}

/// Whether the instance is of a class that carries source text.
pub fn instance_is_script(instance: &PluginInstance) -> (r: bool)
    ensures
        r == is_script_class(instance@.class),
{
    let class = instance.class.as_str();
    text_eq(class, "Script") || text_eq(class, "LocalScript") || text_eq(class, "ModuleScript")
}

/// The value of the first entry under `key`.
fn find_property<'a>(properties: &'a Vec<(String, DataType)>, key: &str) -> (r: Option<&'a DataType>)
    ensures
        match r {
            Some(value) => lookup(entries_view(properties@), key@) == Some(value@),
            None => lookup(entries_view(properties@), key@) is None,
        },
{
    let ghost model = entries_view(properties@);
    let mut i: usize = 0;
    assert(model.skip(0) =~= model);
    while i < properties.len()
        invariant
            i <= properties.len(),
            model == entries_view(properties@),
            lookup(model, key@) == lookup(model.skip(i as int), key@),
        decreases properties.len() - i,
    {
        assert(model.skip(i as int).drop_first() =~= model.skip(i + 1));
        assert(model.skip(i as int)[0] == model[i as int]);
        if text_eq(properties[i].0.as_str(), key) {
            return Some(&properties[i].1);
        }
        i += 1;
    }
    None
}

/// The part of the extension of an instance's code file that tells where
/// the script runs. A `Script` must say so in an enum item under
/// `RunContext`.
fn get_script_suffix(instance: &PluginInstance, current_dir: &str) -> (r: Result<
    &'static str,
    ExportError,
>)
    ensures
        match r {
            Ok(suffix) => extension_error(instance@, current_dir@) is None && suffix@
                == script_suffix(instance@),
            Err(e) => extension_error(instance@, current_dir@) == Some(e@),
        },
{
    proof {
        reveal_strlit("Script");
        reveal_strlit("LocalScript");
        reveal_strlit("");
        assert(""@ =~= Seq::<char>::empty());
    }
    let class = instance.class.as_str();
    if text_eq(class, "LocalScript") {
        assert("Script"@.len() == 6 && "LocalScript"@.len() == 11);
        Ok(".client")
    } else if text_eq(class, "Script") {
        let found = match &instance.properties {
            Some(properties) => find_property(properties.entries(), "RunContext"),
            None => None,
        };
        match found {
            None => Err(
                ExportError::MissingRunContext { node: join(current_dir, instance.name.as_str()) },
            ),
            Some(DataType::EnumItem(context)) => {
                if text_eq(context.as_str(), "Server") {
                    Ok(".server")
                } else if text_eq(context.as_str(), "Client") {
                    Ok(".client")
                } else {
                    Ok("")
                }
            },
            Some(_) => Err(
                ExportError::RunContextNotEnumItem {
                    node: join(current_dir, instance.name.as_str()),
                },
            ),
        }
    } else {
        Ok("")
    }
}

/// The extension of an instance's code file: where the script runs, if its
/// class and `RunContext` tell, then `.luau`.
pub fn get_script_extension(instance: &PluginInstance, current_dir: &str) -> (r: Result<
    String,
    ExportError,
>)
    ensures
        match r {
            Ok(extension) => extension_error(instance@, current_dir@) is None && extension@
                == script_suffix(instance@) + ".luau"@,
            Err(e) => extension_error(instance@, current_dir@) == Some(e@),
        },
{
    match get_script_suffix(instance, current_dir) {
        Ok(suffix) => Ok(append(suffix, ".luau")),
        Err(e) => Err(e),
    }
}

/// Why the instance, taken without its children, cannot be exported.
fn find_instance_error(instance: &PluginInstance, current_dir: &str) -> (r: Option<ExportError>)
    ensures
        optional_error_view(r) == instance_error(instance@, current_dir@),
{
    if !instance_is_script(instance) {
        return None;
    }
    match get_script_suffix(instance, current_dir) {
        Err(e) => Some(e),
        Ok(_) => {
            if instance.source.is_none() {
                Some(ExportError::MissingSource { node: join(current_dir, instance.name.as_str()) })
            } else {
                None
            }
        },
    }
}

/// The directory the files of the instance and its children go into.
fn directory_of(instance: &PluginInstance, current_dir: &str, is_root: bool) -> (r: String)
    ensures
        r@ == node_directory(instance@, current_dir@, is_root),
{
    if !is_root && instance.children.is_some() {
        join(current_dir, instance.name.as_str())
    } else {
        String::from_str(current_dir)
    }
}

/// The first reason, in the order the nodes are visited, why the tree
/// cannot be exported.
pub fn find_export_error(item: &PluginExportItem, current_dir: &str, is_root: bool) -> (r: Option<
    ExportError,
>)
    ensures
        optional_error_view(r) == export_error(item@, current_dir@, is_root),
    decreases item,
{
    match item {
        PluginExportItem::Instance(instance) => {
            let own = find_instance_error(instance, current_dir);
            if own.is_some() {
                return own;
            }
            proof {
                instance.lemma_children_view();
            }
            match &instance.children {
                Some(children) => {
                    let directory = directory_of(instance, current_dir, is_root);
                    let ghost models = items_view(children@);
                    let mut i: usize = 0;
                    while i < children.len()
                        invariant
                            i <= children.len(),
                            instance.children is Some,
                            children@ == instance.children->0@,
                            *item == PluginExportItem::Instance(*instance),
                            models == items_view(children@),
                            instance@.children == Some(models),
                            instance_error(instance@, current_dir@) is None,
                            directory@ == node_directory(instance@, current_dir@, is_root),
                            export_error_among(models, directory@, i as nat) is None,
                        decreases children.len() - i,
                    {
                        let below = find_export_error(&children[i], directory.as_str(), false);
                        assert(models[i as int] == children@[i as int]@);
                        if below.is_some() {
                            proof {
                                assert(export_error_among(models, directory@, (i + 1) as nat)
                                    == export_error(models[i as int], directory@, false));
                                lemma_error_among_stays(
                                    models,
                                    directory@,
                                    (i + 1) as nat,
                                    models.len(),
                                );
                            }
                            return below;
                        }
                        i += 1;
                    }
                    None
                },
                None => None,
            }
        },
        PluginExportItem::ModelReference { .. } => None,
    }
}

/// Once an error shows among the first `n` items, it is the error of any
/// longer run of them.
pub proof fn lemma_error_among_stays(items: Seq<ItemView>, current_dir: Seq<char>, n: nat, m: nat)
    requires
        n <= m <= items.len(),
        export_error_among(items, current_dir, n) is Some,
    ensures
        export_error_among(items, current_dir, m) == export_error_among(items, current_dir, n),
    decreases m,
{
    if n < m {
        lemma_error_among_stays(items, current_dir, n, (m - 1) as nat);
    }
}

/// Where no error shows among the first `n` items, none of them has one.
pub proof fn lemma_no_error_among(items: Seq<ItemView>, current_dir: Seq<char>, n: nat, i: int)
    requires
        0 <= i < n <= items.len(),
        export_error_among(items, current_dir, n) is None,
    ensures
        export_error(items[i], current_dir, false) is None,
        export_error_among(items, current_dir, i as nat) is None,
    decreases n,
{
    if i < n - 1 {
        lemma_no_error_among(items, current_dir, (n - 1) as nat, i);
    } else if i > 0 {
        lemma_no_error_among(items, current_dir, (n - 1) as nat, i - 1);
    }
}

/// Taking out what is under the one reserved key, then what is under the
/// other, leaves the entries that are not reserved.
pub proof fn lemma_without_both_reserved(entries: Seq<(Seq<char>, DataTypeView)>)
    ensures
        without_key(without_key(entries, "Source"@), "RunContext"@) == without_reserved(entries),
    decreases entries.len(),
{
    if entries.len() > 0 {
        let front = entries.drop_last();
        lemma_without_both_reserved(front);
        if entries.last().0 != "Source"@ {
            let kept = without_key(front, "Source"@).push(entries.last());
            assert(kept.drop_last() =~= without_key(front, "Source"@));
            assert(kept.last() == entries.last());
        }
    }
}

/// Takes the entries with a reserved key out of the list.
fn strip_reserved(properties: &mut Keyed<DataType>)
    ensures
        final(properties)@ == without_reserved(old(properties)@),
{
    proof {
        lemma_without_both_reserved(properties@);
    }
    properties.remove("Source");
    properties.remove("RunContext");
}

/// The document of the descriptor file of the instance as it stands.
fn descriptor_of(instance: &PluginInstance) -> (r: Value)
    ensures
        r@ == descriptor(
            instance@.name,
            instance@.class,
            instance@.properties,
            instance@.attributes,
        ),
{
    let mut entries: Vec<(Value, Value)> = Vec::new();
    entries.push(entry("name", Value::text(instance.name.as_str())));
    entries.push(entry("class", Value::text(instance.class.as_str())));
    if instance.properties.is_some() {
        entries.push(entry("properties", serialize_data_types(&instance.properties)));
    }
    if instance.attributes.is_some() {
        entries.push(entry("attributes", serialize_data_types(&instance.attributes)));
    }
    let r = Value::mapping(entries);
    assert(pairs_view(entries@) =~= descriptor(
        instance@.name,
        instance@.class,
        instance@.properties,
        instance@.attributes,
    )->Mapping_0);
    r
}

/// Writes out one instance that can be exported, its children apart: plans
/// its files, takes the reserved properties off a script and notes where
/// its code file goes. Returns the plan and the directory for the children.
fn write_instance(instance: &mut PluginInstance, current_dir: &str, is_root: bool) -> (r: (
    NodeOutput,
    String,
))
    requires
        instance_error(old(instance)@, current_dir@) is None,
    ensures
        r.0@ == instance_output(old(instance)@, current_dir@, is_root),
        r.1@ == node_directory(old(instance)@, current_dir@, is_root),
        final(instance).name == old(instance).name,
        final(instance).class == old(instance).class,
        final(instance).source == old(instance).source,
        final(instance).children == old(instance).children,
        final(instance).attributes == old(instance).attributes,
        optional_entries_view(final(instance).properties) == kept_properties(old(instance)@),
        optional_text_view(final(instance).file_path) == if is_script_class(old(instance)@.class) {
            Some(script_path(old(instance)@, current_dir@, is_root))
        } else {
            old(instance)@.file_path
        },
{
    let ghost before = instance@;
    let directory = directory_of(instance, current_dir, is_root);
    let anchored = !is_root && instance.children.is_some();
    let base = if is_root || instance.children.is_some() {
        String::from_str("+instance")
    } else {
        instance.name.clone()
    };
    let mut files: Vec<FileWrite> = Vec::new();
    if instance_is_script(instance) {
        let suffix = match get_script_suffix(instance, current_dir) {
            Ok(suffix) => suffix,
            Err(_) => "",
        };
        let stem = append(base.as_str(), suffix);
        let code_path = join(directory.as_str(), append(stem.as_str(), ".luau").as_str());
        let source = match &instance.source {
            Some(text) => text.clone(),
            None => String::new(),
        };
        files.push(FileWrite { path: code_path.clone(), body: FileBody::Source(source) });
        let mut emptied = false;
        match &mut instance.properties {
            Some(properties) => {
                strip_reserved(properties);
                emptied = properties.len() == 0;
            },
            None => {},
        }
        if emptied {
            instance.properties = None;
        }
        assert(optional_entries_view(instance.properties) == kept_properties(before));
        if instance.attributes.is_some() || instance.properties.is_some() {
            let path = join(directory.as_str(), append(stem.as_str(), ".vie").as_str());
            files.push(
                FileWrite { path, body: FileBody::Descriptor(descriptor_of(instance)) },
            );
        }
        instance.file_path = Some(code_path);
    } else {
        let plain_folder = text_eq(instance.class.as_str(), "Folder")
            && instance.properties.is_none() && instance.attributes.is_none();
        if !plain_folder {
            let path = join(directory.as_str(), append(base.as_str(), ".vie").as_str());
            files.push(
                FileWrite { path, body: FileBody::Descriptor(descriptor_of(instance)) },
            );
        }
    }
    let output = NodeOutput {
        directory: if anchored {
            Some(directory.clone())
        } else {
            None
        },
        files,
    };
    assert(output@.files =~= instance_output(before, current_dir@, is_root).files);
    (output, directory)
}

/// The descriptor of a model reference.
fn reference_file(name: &str, asset_id: u64, current_dir: &str, is_root: bool) -> (r: NodeOutput)
    ensures
        r@ == reference_output(name@, asset_id, current_dir@, is_root),
{
    let file_name = if is_root {
        String::from_str("+reference.vie")
    } else {
        append(name, ".reference.vie")
    };
    let entries = vec![
        entry("kind", Value::text("model")),
        entry("asset_id", Value::Integer(asset_id as i128)),
    ];
    let document = Value::mapping(entries);
    assert(pairs_view(entries@) =~= reference_document(asset_id)->Mapping_0);
    let files = vec![
        FileWrite {
            path: join(current_dir, file_name.as_str()),
            body: FileBody::Descriptor(document),
        },
    ];
    let r = NodeOutput { directory: None, files };
    assert(r@.files =~= reference_output(name@, asset_id, current_dir@, is_root).files);
    r
}

/// Exports a tree that is known to be exportable.
fn write_checked(
    item: &mut PluginExportItem,
    current_dir: &str,
    is_root: bool,
    outputs: &mut Vec<NodeOutput>,
)
    requires
        export_error(old(item)@, current_dir@, is_root) is None,
    ensures
        final(item)@ == exported(old(item)@, current_dir@, is_root),
        outputs_view(final(outputs)@) == outputs_view(old(outputs)@) + export_outputs(
            old(item)@,
            current_dir@,
            is_root,
        ),
    decreases *old(item),
{
    let ghost start = outputs_view(outputs@);
    let ghost tree = item@;
    match item {
        PluginExportItem::Instance(instance) => {
            let ghost before = *instance;
            proof {
                before.lemma_children_view();
            }
            let (output, directory) = write_instance(instance, current_dir, is_root);
            outputs.push(output);
            let ghost own = instance_output(before@, current_dir@, is_root);
            assert(outputs_view(outputs@) =~= start + seq![own]);
            match &mut instance.children {
                Some(children) => {
                    let ghost originals = children@;
                    let ghost models = items_view(originals);
                    let mut i: usize = 0;
                    while i < children.len()
                        invariant
                            i <= children.len(),
                            children@.len() == originals.len(),
                            before.children is Some,
                            originals == before.children->0@,
                            *old(item) == PluginExportItem::Instance(before),
                            models == items_view(originals),
                            before@.children == Some(models),
                            instance_error(before@, current_dir@) is None,
                            export_error_among(models, directory@, models.len()) is None,
                            directory@ == node_directory(before@, current_dir@, is_root),
                            forall|j: int| i <= j < originals.len() ==> children@[j] == originals[j],
                            forall|j: int|
                                0 <= j < i ==> (#[trigger] children@[j])@ == exported(
                                    models[j],
                                    directory@,
                                    false,
                                ),
                            outputs_view(outputs@) == start + seq![own] + export_outputs_among(
                                models,
                                directory@,
                                i as nat,
                            ),
                        decreases children.len() - i,
                    {
                        proof {
                            lemma_no_error_among(models, directory@, models.len(), i as int);
                            assert(models[i as int] == originals[i as int]@);
                            assert(children@[i as int] == before.children->0@[i as int]);
                            assert(before == old(item)->Instance_0);
                        }
                        write_checked(&mut children[i], directory.as_str(), false, outputs);
                        proof {
                            assert(outputs_view(outputs@) =~= start + seq![own]
                                + export_outputs_among(models, directory@, (i + 1) as nat));
                        }
                        i += 1;
                    }
                    proof {
                        assert(items_view(children@) =~= exported(
                            tree,
                            current_dir@,
                            is_root,
                        )->Instance_0.children->0);
                    }
                },
                None => {
                    assert(outputs_view(outputs@) =~= start + export_outputs(
                        tree,
                        current_dir@,
                        is_root,
                    ));
                },
            }
            proof {
                instance.lemma_children_view();
            }
        },
        PluginExportItem::ModelReference { name, class: _, asset_id } => {
            outputs.push(reference_file(name.as_str(), *asset_id, current_dir, is_root));
            assert(outputs_view(outputs@) =~= start + export_outputs(tree, current_dir@, is_root));
        },
    }
}

/// Exports a tree: plans the directories and files that represent it under
/// `current_dir`, node by node, and leaves on each script the path of its
/// code file. The plan is appended to `outputs`, one entry per node in the
/// order of the visit.
///
/// A tree that cannot be exported is rejected as a whole: nothing is planned
/// and the tree is left as it was.
pub fn write_plugin_item(
    item: &mut PluginExportItem,
    current_dir: &str,
    is_root_dir: bool,
    outputs: &mut Vec<NodeOutput>,
) -> (r: Result<(), ExportError>)
    ensures
        match r {
            Ok(()) => {
                &&& export_error(old(item)@, current_dir@, is_root_dir) is None
                &&& final(item)@ == exported(old(item)@, current_dir@, is_root_dir)
                &&& outputs_view(final(outputs)@) == outputs_view(old(outputs)@) + export_outputs(
                    old(item)@,
                    current_dir@,
                    is_root_dir,
                )
            },
            Err(e) => {
                &&& export_error(old(item)@, current_dir@, is_root_dir) == Some(e@)
                &&& *final(item) == *old(item)
                &&& *final(outputs) == *old(outputs)
            },
        },
{
    match find_export_error(item, current_dir, is_root_dir) {
        Some(e) => Err(e),
        None => {
            write_checked(item, current_dir, is_root_dir, outputs);
            Ok(())
        },
    }
}

/// A folder with neither properties nor attributes writes no file: it
/// shows on disk by its directory alone, which it has if it is a container
/// and not the root.
pub proof fn lemma_plain_folder_writes_no_file(
    instance: InstanceView,
    current_dir: Seq<char>,
    is_root: bool,
)
    requires
        instance.class == "Folder"@,
        instance.properties is None,
        instance.attributes is None,
    ensures
        instance_error(instance, current_dir) is None,
        instance_output(instance, current_dir, is_root).files == Seq::<FileWriteView>::empty(),
        instance_output(instance, current_dir, is_root).directory == if !is_root
            && instance.children is Some {
            Some(joined(current_dir, instance.name))
        } else {
            None
        },
{
    reveal_strlit("Folder");
    reveal_strlit("Script");
    reveal_strlit("LocalScript");
    reveal_strlit("ModuleScript");
    assert("Folder"@[0] == 'F');
    assert("Script"@[0] == 'S');
    assert("Folder"@.len() == 6 && "LocalScript"@.len() == 11 && "ModuleScript"@.len() == 12);
    assert(!is_script_class(instance.class));
    assert(instance_output(instance, current_dir, is_root).files =~= Seq::empty());
}

/// A local script goes into a `.client.luau` file whatever its properties
/// say.
pub proof fn lemma_local_script_runs_on_client(
    instance: InstanceView,
    current_dir: Seq<char>,
    is_root: bool,
)
    requires
        instance.class == "LocalScript"@,
    ensures
        extension_error(instance, current_dir) is None,
        script_path(instance, current_dir, is_root) == joined(
            node_directory(instance, current_dir, is_root),
            base_name(instance, is_root) + ".client.luau"@,
        ),
{
    reveal_strlit("Script");
    reveal_strlit("LocalScript");
    reveal_strlit(".client");
    reveal_strlit(".luau");
    reveal_strlit(".client.luau");
    assert("Script"@.len() == 6 && "LocalScript"@.len() == 11);
    assert(".client"@ + ".luau"@ =~= ".client.luau"@);
    assert(base_name(instance, is_root) + ".client"@ + ".luau"@ =~= base_name(instance, is_root)
        + ".client.luau"@);
}

/// A script that says it runs on the server goes into a `.server.luau`
/// file; one that says it runs on the client, into a `.client.luau` file.
pub proof fn lemma_script_extension_follows_run_context(
    instance: InstanceView,
    current_dir: Seq<char>,
    is_root: bool,
)
    requires
        instance.class == "Script"@,
    ensures
        run_context(instance) == Some(DataTypeView::EnumItem("Server"@)) ==> script_path(
            instance,
            current_dir,
            is_root,
        ) == joined(
            node_directory(instance, current_dir, is_root),
            base_name(instance, is_root) + ".server.luau"@,
        ),
        run_context(instance) == Some(DataTypeView::EnumItem("Client"@)) ==> script_path(
            instance,
            current_dir,
            is_root,
        ) == joined(
            node_directory(instance, current_dir, is_root),
            base_name(instance, is_root) + ".client.luau"@,
        ),
{
    reveal_strlit("Script");
    reveal_strlit("LocalScript");
    reveal_strlit("Server");
    reveal_strlit("Client");
    reveal_strlit(".client");
    reveal_strlit(".server");
    reveal_strlit(".luau");
    reveal_strlit(".client.luau");
    reveal_strlit(".server.luau");
    assert("Script"@.len() == 6 && "LocalScript"@.len() == 11);
    assert("Server"@[0] == 'S' && "Client"@[0] == 'C');
    assert(".client"@ + ".luau"@ =~= ".client.luau"@);
    assert(".server"@ + ".luau"@ =~= ".server.luau"@);
    let base = base_name(instance, is_root);
    assert(base + ".client"@ + ".luau"@ =~= base + ".client.luau"@);
    assert(base + ".server"@ + ".luau"@ =~= base + ".server.luau"@);
}

/// The export plans one output for every node of the tree: the length of
/// the plan advances once per visited node.
pub proof fn lemma_one_output_per_node(item: ItemView, current_dir: Seq<char>, is_root: bool)
    ensures
        export_outputs(item, current_dir, is_root).len() == node_count(item),
    decreases item,
{
    match item {
        ItemView::Instance(instance) => match instance.children {
            Some(children) => {
                lemma_one_output_per_node_among(
                    children,
                    node_directory(instance, current_dir, is_root),
                    children.len(),
                );
            },
            None => {},
        },
        ItemView::ModelReference { .. } => {},
    }
}

/// The first `n` items get one output for each of their nodes.
pub proof fn lemma_one_output_per_node_among(items: Seq<ItemView>, current_dir: Seq<char>, n: nat)
    ensures
        export_outputs_among(items, current_dir, n).len() == node_count_of(items, n),
    decreases items, n,
{
    if !(n == 0 || n > items.len()) {
        lemma_one_output_per_node_among(items, current_dir, (n - 1) as nat);
        lemma_one_output_per_node(items[n - 1], current_dir, false);
    }
}

/// Whether two optional lists hold the same entries, each key once, in
/// whatever order.
pub open spec fn same_named_values(
    a: Option<Seq<(Seq<char>, DataTypeView)>>,
    b: Option<Seq<(Seq<char>, DataTypeView)>>,
) -> bool {
    match (a, b) {
        (Some(x), Some(y)) => has_distinct_keys(x) && has_distinct_keys(y) && same_entries(x, y),
        (None, None) => true,
        _ => false,
    }
}

/// A descriptor does not show the order its properties and attributes came
/// in: nodes that differ in that order alone get the same descriptor.
pub proof fn lemma_descriptor_ignores_order(
    name: Seq<char>,
    class: Seq<char>,
    properties: Option<Seq<(Seq<char>, DataTypeView)>>,
    attributes: Option<Seq<(Seq<char>, DataTypeView)>>,
    other_properties: Option<Seq<(Seq<char>, DataTypeView)>>,
    other_attributes: Option<Seq<(Seq<char>, DataTypeView)>>,
)
    requires
        same_named_values(properties, other_properties),
        same_named_values(attributes, other_attributes),
    ensures
        descriptor(name, class, properties, attributes) == descriptor(
            name,
            class,
            other_properties,
            other_attributes,
        ),
{
    if let (Some(x), Some(y)) = (properties, other_properties) {
        lemma_order_of_entries_is_immaterial(x, y);
    }
    if let (Some(x), Some(y)) = (attributes, other_attributes) {
        lemma_order_of_entries_is_immaterial(x, y);
    }
}

} // verus!
