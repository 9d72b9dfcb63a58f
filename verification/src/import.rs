//! Importing: from a directory listing back to instances.
use vstd::prelude::*;
use crate::text::{ends_with, has_suffix, join, joined, strip_last, text_eq, without_last};
use crate::keyed::{index_of_key, keyed_view, Keyed};
use crate::value::{pairs_view, Value, ValueView};

verus! {

/// An instance as it is found on disk. Property and attribute values are
/// kept as they were read, untyped.
#[derive(Debug, PartialEq, Eq)]
pub struct FsInstance {
    pub name: String,
    pub class: String,
    pub children: Vec<FsInstance>,
    pub attributes: Option<Keyed<Value>>,
    pub properties: Option<Keyed<Value>>,
    pub script_source: Option<String>,
}

/// What a file of a listing holds, as far as it was read.
#[derive(Debug, PartialEq, Eq)]
pub enum FileContent {
    /// The file was not read.
    Unread,
    /// The text of a code file.
    Text(String),
    /// The parsed document of a descriptor file.
    Document(Value),
}

/// One entry of a directory listing.
#[derive(Debug, PartialEq, Eq)]
pub enum FsEntry {
    File { name: String, content: FileContent },
    Directory(FsDirectory),
    /// Neither a file nor a directory.
    Other { name: String },
}

/// A directory with its entries in the order they were listed.
#[derive(Debug, PartialEq, Eq)]
pub struct FsDirectory {
    pub name: String,
    pub entries: Vec<FsEntry>,
}

/// What a file is to the import, by its name.
#[derive(Debug, Clone, Copy, PartialEq, Eq, Structural)]
pub enum FileRole {
    /// The descriptor of the directory's own node.
    SelfDescriptor,
    /// The code file of the directory's own node.
    SelfScript,
    /// The descriptor of a model reference; not imported.
    Reference,
    /// The code file of a leaf.
    Script,
    /// The descriptor of a leaf.
    Descriptor,
    /// Not part of the layout.
    Other,
}

/// Why a listing cannot be imported. `file` is the path of the file at
/// fault, relative to the directory that is imported.
#[derive(Debug, PartialEq, Eq)]
pub enum ImportError {
    /// A file that the import needs came without the content it needs: a
    /// code file without text, a descriptor without a document.
    MissingContent { file: String },
    /// A descriptor lacks a field it must have.
    MissingField { file: String, field: String },
    /// A descriptor is not a mapping, or one of its fields does not have
    /// the shape it must have.
    MalformedDescriptor { file: String },
}

/// The mathematical model of an [`FsInstance`].
pub struct FsInstanceView {
    pub name: Seq<char>,
    pub class: Seq<char>,
    pub children: Seq<FsInstanceView>,
    pub attributes: Option<Seq<(Seq<char>, ValueView)>>,
    pub properties: Option<Seq<(Seq<char>, ValueView)>>,
    pub script_source: Option<Seq<char>>,
}

/// The mathematical model of a [`FileContent`].
pub enum FileContentView {
    Unread,
    Text(Seq<char>),
    Document(ValueView),
}

/// The mathematical model of an [`FsEntry`].
pub enum FsEntryView {
    File { name: Seq<char>, content: FileContentView },
    Directory(FsDirectoryView),
    Other { name: Seq<char> },
}

/// The mathematical model of an [`FsDirectory`].
pub struct FsDirectoryView {
    pub name: Seq<char>,
    pub entries: Seq<FsEntryView>,
}

/// The mathematical model of an [`ImportError`].
pub enum ImportErrorView {
    MissingContent { file: Seq<char> },
    MissingField { file: Seq<char>, field: Seq<char> },
    MalformedDescriptor { file: Seq<char> },
}

/// The models of a list of named values.
pub open spec fn named_values_view(entries: Seq<(String, Value)>) -> Seq<(Seq<char>, ValueView)> {
    keyed_view(entries)
}

/// The model of an optional list of named values.
pub open spec fn optional_named_values_view(entries: Option<Keyed<Value>>) -> Option<
    Seq<(Seq<char>, ValueView)>,
> {
    match entries {
        Some(list) => Some(list@),
        None => None,
    }
}

/// The model of an optional text.
pub open spec fn optional_text(text: Option<String>) -> Option<Seq<char>> {
    match text {
        Some(s) => Some(s@),
        None => None,
    }
}

/// The models of a sequence of instances.
pub open spec fn instances_view(instances: Seq<FsInstance>) -> Seq<FsInstanceView> {
    Seq::new(instances.len(), |i: int| instances[i]@)
}

/// The models of a sequence of entries.
pub open spec fn listing_view(entries: Seq<FsEntry>) -> Seq<FsEntryView> {
    Seq::new(entries.len(), |i: int| entries[i]@)
}

impl FsInstance {
    pub open spec fn model(self) -> FsInstanceView
        decreases self,
    {
        FsInstanceView {
            name: self.name@,
            class: self.class@,
            children: Seq::new(
                self.children@.len(),
                |i: int|
                    if 0 <= i < self.children@.len() {
                        self.children@[i].model()
                    } else {
                        FsInstanceView {
                            name: Seq::empty(),
                            class: Seq::empty(),
                            children: Seq::empty(),
                            attributes: None,
                            properties: None,
                            script_source: None,
                        }
                    },
            ),
            attributes: optional_named_values_view(self.attributes),
            properties: optional_named_values_view(self.properties),
            script_source: optional_text(self.script_source),
        }
    }

    /// The children are modelled one by one.
    pub proof fn lemma_children_view(self)
        ensures
            self@.children == instances_view(self.children@),
    {
        assert(self.model().children =~= instances_view(self.children@));
    }
}

impl View for FsInstance {
    type V = FsInstanceView;

    open spec fn view(&self) -> FsInstanceView {
        self.model()
    }
}

impl View for FileContent {
    type V = FileContentView;

    open spec fn view(&self) -> FileContentView {
        match *self {
            FileContent::Unread => FileContentView::Unread,
            FileContent::Text(text) => FileContentView::Text(text@),
            FileContent::Document(document) => FileContentView::Document(document@),
        }
    }
}

impl FsEntry {
    pub open spec fn model(self) -> FsEntryView
        decreases self,
    {
        match self {
            FsEntry::File { name, content } => FsEntryView::File { name: name@, content: content@ },
            FsEntry::Directory(directory) => FsEntryView::Directory(directory.model()),
            FsEntry::Other { name } => FsEntryView::Other { name: name@ },
        }
    }
}

impl FsDirectory {
    pub open spec fn model(self) -> FsDirectoryView
        decreases self,
    {
        FsDirectoryView {
            name: self.name@,
            entries: Seq::new(
                self.entries@.len(),
                |i: int|
                    if 0 <= i < self.entries@.len() {
                        self.entries@[i].model()
                    } else {
                        FsEntryView::Other { name: Seq::empty() }
                    },
            ),
        }
    }

    /// The entries are modelled one by one.
    pub proof fn lemma_entries_view(self)
        ensures
            self@.entries == listing_view(self.entries@),
    {
        assert(self.model().entries =~= listing_view(self.entries@));
    }
}

impl View for FsEntry {
    type V = FsEntryView;

    open spec fn view(&self) -> FsEntryView {
        self.model()
    }
}

impl View for FsDirectory {
    type V = FsDirectoryView;

    open spec fn view(&self) -> FsDirectoryView {
        self.model()
    }
}

impl View for ImportError {
    type V = ImportErrorView;

    open spec fn view(&self) -> ImportErrorView {
        match *self {
            ImportError::MissingContent { file } => ImportErrorView::MissingContent { file: file@ },
            ImportError::MissingField { file, field } => ImportErrorView::MissingField {
                file: file@,
                field: field@,
            },
            ImportError::MalformedDescriptor { file } => ImportErrorView::MalformedDescriptor {
                file: file@,
            },
        }
    }
}

/// Whether the name is one of those a directory's own code file can have.
pub open spec fn is_self_script_name(name: Seq<char>) -> bool {
    name == "+instance.luau"@ || name == "+instance.server.luau"@ || name
        == "+instance.client.luau"@
}

/// What a file of this name is to the import.
pub open spec fn file_role(name: Seq<char>) -> FileRole {
    if name == "+instance.vie"@ {
        FileRole::SelfDescriptor
    } else if is_self_script_name(name) {
        FileRole::SelfScript
    } else if name == "+reference.vie"@ || has_suffix(name, ".reference.vie"@) {
        FileRole::Reference
    } else if has_suffix(name, ".luau"@) {
        FileRole::Script
    } else if has_suffix(name, ".vie"@) {
        FileRole::Descriptor
    } else {
        FileRole::Other
    }
}

/// Where the script of a code file runs, as its name tells.
pub open spec fn run_context_of(file_name: Seq<char>) -> Option<Seq<char>> {
    if has_suffix(file_name, ".server.luau"@) {
        Some("Server"@)
    } else if has_suffix(file_name, ".client.luau"@) {
        Some("Client"@)
    } else {
        None
    }
}

/// The name of the script that a code file is named after: the file name
/// without its code extension, the run context included where it tells one.
pub open spec fn script_name(file_name: Seq<char>) -> Seq<char> {
    if run_context_of(file_name) is Some {
        without_last(file_name, 12)
    } else {
        without_last(file_name, 5)
    }
}

/// The properties that the name of a code file stands for.
pub open spec fn script_properties(file_name: Seq<char>) -> Option<Seq<(Seq<char>, ValueView)>> {
    match run_context_of(file_name) {
        Some(context) => Some(seq![("RunContext"@, ValueView::Text(context))]),
        None => None,
    }
}

/// The instance that a code file stands for.
pub open spec fn script_instance(name: Seq<char>, file_name: Seq<char>, source: Seq<char>) -> FsInstanceView {
    FsInstanceView {
        name,
        class: if run_context_of(file_name) is Some {
            "Script"@
        } else {
            "ModuleScript"@
        },
        children: Seq::empty(),
        attributes: None,
        properties: script_properties(file_name),
        script_source: Some(source),
    }
}

/// Tells what a file is to the import by its name.
pub fn classify_file(name: &str) -> (role: FileRole)
    ensures
        role == file_role(name@),
{
    if text_eq(name, "+instance.vie") {
        FileRole::SelfDescriptor
    } else if text_eq(name, "+instance.luau") || text_eq(name, "+instance.server.luau") || text_eq(
        name,
        "+instance.client.luau",
    ) {
        FileRole::SelfScript
    } else if text_eq(name, "+reference.vie") || ends_with(name, ".reference.vie") {
        FileRole::Reference
    } else if ends_with(name, ".luau") {
        FileRole::Script
    } else if ends_with(name, ".vie") {
        FileRole::Descriptor
    } else {
        FileRole::Other
    }
}

/// The properties that the name of a code file stands for: its run context,
/// if the name tells one.
pub fn get_script_properties(file_name: &str) -> (r: Option<Keyed<Value>>)
    ensures
        optional_named_values_view(r) == script_properties(file_name@),
{
    let is_server = ends_with(file_name, ".server.luau");
    let is_client = ends_with(file_name, ".client.luau");
    if is_server || is_client {
        let context = if is_server {
            "Server"
        } else {
            "Client"
        };
        let mut list: Keyed<Value> = Keyed::new();
        list.insert(String::from_str("RunContext"), Value::text(context));
        assert(list@ =~= seq![("RunContext"@, ValueView::Text(context@))]);
        Some(list)
    } else {
        None
    }
}

/// The name of the script that a code file is named after.
fn script_name_of(file_name: &str) -> (r: String)
    ensures
        r@ == script_name(file_name@),
{
    if ends_with(file_name, ".server.luau") || ends_with(file_name, ".client.luau") {
        strip_last(file_name, 12)
    } else {
        strip_last(file_name, 5)
    }
}

/// The instance that a code file stands for.
fn script_from(name: String, file_name: &str, source: &String) -> (r: FsInstance)
    ensures
        r@ == script_instance(name@, file_name@, source@),
{
    let properties = get_script_properties(file_name);
    let class = if properties.is_some() {
        String::from_str("Script")
    } else {
        String::from_str("ModuleScript")
    };
    let r = FsInstance {
        name,
        class,
        children: Vec::new(),
        attributes: None,
        properties,
        script_source: Some(source.clone()),
    };
    proof {
        r.lemma_children_view();
        assert(r@.children =~= Seq::empty());
    }
    r
}

/// The value of the first entry of a mapping whose key is the text `key`.
pub open spec fn entry_value(entries: Seq<(ValueView, ValueView)>, key: Seq<char>) -> Option<
    ValueView,
>
    decreases entries.len(),
{
    if entries.len() == 0 {
        None
    } else if entries[0].0 == ValueView::Text(key) {
        Some(entries[0].1)
    } else {
        entry_value(entries.drop_first(), key)
    }
}

/// The value under a key is that of the first entry with the key.
pub proof fn lemma_entry_value_at(entries: Seq<(ValueView, ValueView)>, key: Seq<char>, i: int)
    requires
        0 <= i < entries.len(),
        entries[i].0 == ValueView::Text(key),
        forall|j: int| 0 <= j < i ==> (#[trigger] entries[j]).0 != ValueView::Text(key),
    ensures
        entry_value(entries, key) == Some(entries[i].1),
    decreases i,
{
    if i > 0 {
        let rest = entries.drop_first();
        assert(entries[0].0 != ValueView::Text(key));
        assert forall|j: int| 0 <= j < i - 1 implies (#[trigger] rest[j]).0 != ValueView::Text(
            key,
        ) by {
            assert(rest[j] == entries[j + 1]);
        }
        lemma_entry_value_at(rest, key, i - 1);
    }
}

/// There is no value under a key that no entry has.
pub proof fn lemma_entry_value_absent(entries: Seq<(ValueView, ValueView)>, key: Seq<char>)
    requires
        forall|j: int| 0 <= j < entries.len() ==> (#[trigger] entries[j]).0 != ValueView::Text(key),
    ensures
        entry_value(entries, key) is None,
    decreases entries.len(),
{
    if entries.len() > 0 {
        let rest = entries.drop_first();
        assert(entries[0].0 != ValueView::Text(key));
        assert forall|j: int| 0 <= j < rest.len() implies (#[trigger] rest[j]).0
            != ValueView::Text(key) by {
            assert(rest[j] == entries[j + 1]);
        }
        lemma_entry_value_absent(rest, key);
    }
}

/// The entries of a mapping as named values, or `None` if some key is not
/// a text or occurs twice.
pub open spec fn named_values(entries: Seq<(ValueView, ValueView)>) -> Option<
    Seq<(Seq<char>, ValueView)>,
>
    decreases entries.len(),
{
    if entries.len() == 0 {
        Some(Seq::empty())
    } else {
        match (named_values(entries.drop_last()), entries.last().0) {
            (Some(rest), ValueView::Text(key)) => if index_of_key(rest, key) is None {
                Some(rest.push((key, entries.last().1)))
            } else {
                None
            },
            _ => None,
        }
    }
}

/// A field that must be there and be a text.
pub open spec fn decoded_text(
    entries: Seq<(ValueView, ValueView)>,
    key: Seq<char>,
    file: Seq<char>,
) -> Result<Seq<char>, ImportErrorView> {
    match entry_value(entries, key) {
        None => Err(ImportErrorView::MissingField { file, field: key }),
        Some(ValueView::Text(text)) => Ok(text),
        Some(_) => Err(ImportErrorView::MalformedDescriptor { file }),
    }
}

/// A field that may be missing or null, and is a text if it is neither.
pub open spec fn decoded_optional_text(
    entries: Seq<(ValueView, ValueView)>,
    key: Seq<char>,
    file: Seq<char>,
) -> Result<Option<Seq<char>>, ImportErrorView> {
    match entry_value(entries, key) {
        None => Ok(None),
        Some(ValueView::Null) => Ok(None),
        Some(ValueView::Text(text)) => Ok(Some(text)),
        Some(_) => Err(ImportErrorView::MalformedDescriptor { file }),
    }
}

/// A field that may be missing or null, and is a mapping with texts for
/// keys, each once, if it is neither.
pub open spec fn decoded_named_values(
    entries: Seq<(ValueView, ValueView)>,
    key: Seq<char>,
    file: Seq<char>,
) -> Result<Option<Seq<(Seq<char>, ValueView)>>, ImportErrorView> {
    match entry_value(entries, key) {
        None => Ok(None),
        Some(ValueView::Null) => Ok(None),
        Some(ValueView::Mapping(inner)) => match named_values(inner) {
            Some(list) => Ok(Some(list)),
            None => Err(ImportErrorView::MalformedDescriptor { file }),
        },
        Some(_) => Err(ImportErrorView::MalformedDescriptor { file }),
    }
}

/// The instance that a descriptor document stands for. The document must be
/// a mapping with a text under `name` and under `class`; `attributes` and
/// `properties` are mappings of named values, `script_source` is a text, and
/// each of the three may be missing or null. The first field, in this order,
/// that is not as it must be decides the error. Other entries are ignored.
pub open spec fn decoded(document: ValueView, file: Seq<char>) -> Result<
    FsInstanceView,
    ImportErrorView,
> {
    match document {
        ValueView::Mapping(entries) => match decoded_text(entries, "name"@, file) {
            Err(e) => Err(e),
            Ok(name) => match decoded_text(entries, "class"@, file) {
                Err(e) => Err(e),
                Ok(class) => match decoded_named_values(entries, "attributes"@, file) {
                    Err(e) => Err(e),
                    Ok(attributes) => match decoded_named_values(entries, "properties"@, file) {
                        Err(e) => Err(e),
                        Ok(properties) => match decoded_optional_text(
                            entries,
                            "script_source"@,
                            file,
                        ) {
                            Err(e) => Err(e),
                            Ok(script_source) => Ok(
                                FsInstanceView {
                                    name,
                                    class,
                                    children: Seq::empty(),
                                    attributes,
                                    properties,
                                    script_source,
                                },
                            ),
                        },
                    },
                },
            },
        },
        _ => Err(ImportErrorView::MalformedDescriptor { file }),
    }
}

/// The value of the first entry whose key is the text `key`.
fn find_entry<'a>(entries: &'a Vec<(Value, Value)>, key: &str) -> (r: Option<&'a Value>)
    ensures
        match r {
            Some(value) => entry_value(pairs_view(entries@), key@) == Some(value@),
            None => entry_value(pairs_view(entries@), key@) is None,
        },
{
    let ghost model = pairs_view(entries@);
    let mut i: usize = 0;
    assert(model.skip(0) =~= model);
    while i < entries.len()
        invariant
            i <= entries.len(),
            model == pairs_view(entries@),
            entry_value(model, key@) == entry_value(model.skip(i as int), key@),
        decreases entries.len() - i,
    {
        assert(model.skip(i as int).drop_first() =~= model.skip(i + 1));
        assert(model.skip(i as int)[0] == model[i as int]);
        let found = match &entries[i].0 {
            Value::Text(text) => text_eq(text.as_str(), key),
            _ => false,
        };
        if found {
            return Some(&entries[i].1);
        }
        i += 1;
    }
    None
}

/// Reads a field that must be there and be a text.
fn decode_text(entries: &Vec<(Value, Value)>, key: &str, file: &str) -> (r: Result<
    String,
    ImportError,
>)
    ensures
        match r {
            Ok(text) => decoded_text(pairs_view(entries@), key@, file@) == Ok::<
                Seq<char>,
                ImportErrorView,
            >(text@),
            Err(e) => decoded_text(pairs_view(entries@), key@, file@) == Err::<
                Seq<char>,
                ImportErrorView,
            >(e@),
        },
{
    match find_entry(entries, key) {
        None => Err(
            ImportError::MissingField { file: String::from_str(file), field: String::from_str(key) },
        ),
        Some(Value::Text(text)) => Ok(text.clone()),
        Some(_) => Err(ImportError::MalformedDescriptor { file: String::from_str(file) }),
    }
}

/// Reads a field that may be missing or null, and is a text otherwise.
fn decode_optional_text(entries: &Vec<(Value, Value)>, key: &str, file: &str) -> (r: Result<
    Option<String>,
    ImportError,
>)
    ensures
        match r {
            Ok(text) => decoded_optional_text(pairs_view(entries@), key@, file@) == Ok::<
                Option<Seq<char>>,
                ImportErrorView,
            >(optional_text(text)),
            Err(e) => decoded_optional_text(pairs_view(entries@), key@, file@) == Err::<
                Option<Seq<char>>,
                ImportErrorView,
            >(e@),
        },
{
    match find_entry(entries, key) {
        None => Ok(None),
        Some(Value::Null) => Ok(None),
        Some(Value::Text(text)) => Ok(Some(text.clone())),
        Some(_) => Err(ImportError::MalformedDescriptor { file: String::from_str(file) }),
    }
}

/// Copies the entries of a mapping as named values, if every key is a text
/// and none occurs twice.
fn copy_named_values(entries: &Vec<(Value, Value)>) -> (r: Option<Keyed<Value>>)
    ensures
        optional_named_values_view(r) == named_values(pairs_view(entries@)),
{
    let ghost model = pairs_view(entries@);
    let mut list: Keyed<Value> = Keyed::new();
    let mut i: usize = 0;
    assert(model.take(0) =~= Seq::empty());
    while i < entries.len()
        invariant
            i <= entries.len(),
            model == pairs_view(entries@),
            named_values(model.take(i as int)) == Some(list@),
        decreases entries.len() - i,
    {
        proof {
            assert(model.take(i + 1).drop_last() =~= model.take(i as int));
            assert(model.take(i + 1).last() == model[i as int]);
        }
        match &entries[i].0 {
            Value::Text(key) => {
                if list.insert(key.clone(), entries[i].1.duplicate()).is_some() {
                    proof {
                        lemma_named_values_fail(model, i + 1);
                    }
                    return None;
                }
            },
            _ => {
                proof {
                    lemma_named_values_fail(model, i + 1);
                }
                return None;
            },
        }
        i += 1;
    }
    assert(model.take(i as int) =~= model);
    Some(list)
}

/// Once a key that is not a text, or a key for the second time, has been
/// met, the mapping has no reading as named values.
pub proof fn lemma_named_values_fail(entries: Seq<(ValueView, ValueView)>, n: int)
    requires
        0 <= n <= entries.len(),
        named_values(entries.take(n)) is None,
    ensures
        named_values(entries) is None,
    decreases entries.len() - n,
{
    if n < entries.len() {
        assert(entries.take(n + 1).drop_last() =~= entries.take(n));
        lemma_named_values_fail(entries, n + 1);
    } else {
        assert(entries.take(n) =~= entries);
    }
}

/// Reads a field that may be missing or null, and is a mapping of named
/// values otherwise.
fn decode_named_values(entries: &Vec<(Value, Value)>, key: &str, file: &str) -> (r: Result<
    Option<Keyed<Value>>,
    ImportError,
>)
    ensures
        match r {
            Ok(list) => decoded_named_values(pairs_view(entries@), key@, file@) == Ok::<
                Option<Seq<(Seq<char>, ValueView)>>,
                ImportErrorView,
            >(optional_named_values_view(list)),
            Err(e) => decoded_named_values(pairs_view(entries@), key@, file@) == Err::<
                Option<Seq<(Seq<char>, ValueView)>>,
                ImportErrorView,
            >(e@),
        },
{
    match find_entry(entries, key) {
        None => Ok(None),
        Some(Value::Null) => Ok(None),
        Some(Value::Mapping(inner)) => {
            proof {
                Value::lemma_mapping_view(*inner);
            }
            match copy_named_values(inner) {
                Some(list) => Ok(Some(list)),
                None => Err(ImportError::MalformedDescriptor { file: String::from_str(file) }),
            }
        },
        Some(_) => Err(ImportError::MalformedDescriptor { file: String::from_str(file) }),
    }
}

/// Reads the instance that a descriptor document stands for. `file` is the
/// path by which an error names the descriptor.
pub fn decode_descriptor(document: &Value, file: &str) -> (r: Result<FsInstance, ImportError>)
    ensures
        match r {
            Ok(instance) => decoded(document@, file@) == Ok::<FsInstanceView, ImportErrorView>(
                instance@,
            ),
            Err(e) => decoded(document@, file@) == Err::<FsInstanceView, ImportErrorView>(e@),
        },
{
    match document {
        Value::Mapping(entries) => {
            proof {
                Value::lemma_mapping_view(*entries);
            }
            let name = decode_text(entries, "name", file)?;
            let class = decode_text(entries, "class", file)?;
            let attributes = decode_named_values(entries, "attributes", file)?;
            let properties = decode_named_values(entries, "properties", file)?;
            let script_source = decode_optional_text(entries, "script_source", file)?;
            let instance = FsInstance {
                name,
                class,
                children: Vec::new(),
                attributes,
                properties,
                script_source,
            };
            proof {
                instance.lemma_children_view();
                assert(instance@.children =~= Seq::empty());
            }
            Ok(instance)
        },
        _ => Err(ImportError::MalformedDescriptor { file: String::from_str(file) }),
    }
}

/// Whether the entry can be the directory's own: a file whose name says so.
pub open spec fn is_self_entry(entry: FsEntryView) -> bool {
    entry matches FsEntryView::File { name, .. } && (file_role(name) is SelfDescriptor
        || file_role(name) is SelfScript)
}

/// The index of the directory's own entry: the first that can be it.
pub open spec fn self_index(entries: Seq<FsEntryView>) -> Option<int>
    decreases entries.len(),
{
    if entries.len() == 0 {
        None
    } else if self_index(entries.drop_last()) is Some {
        self_index(entries.drop_last())
    } else if is_self_entry(entries.last()) {
        Some(entries.len() - 1)
    } else {
        None
    }
}

/// The folder that a directory without an entry of its own stands for.
pub open spec fn implicit_folder(name: Seq<char>) -> FsInstanceView {
    FsInstanceView {
        name,
        class: "Folder"@,
        children: Seq::empty(),
        attributes: None,
        properties: None,
        script_source: None,
    }
}

/// The instance that the file `name` of the directory `directory_name`
/// stands for when it is the directory's own entry, its children apart.
pub open spec fn self_instance(
    directory_name: Seq<char>,
    name: Seq<char>,
    content: FileContentView,
    path: Seq<char>,
) -> Result<FsInstanceView, ImportErrorView> {
    if file_role(name) is SelfScript {
        match content {
            FileContentView::Text(source) => Ok(script_instance(directory_name, name, source)),
            _ => Err(ImportErrorView::MissingContent { file: joined(path, name) }),
        }
    } else {
        match content {
            FileContentView::Document(document) => decoded(document, joined(path, name)),
            _ => Err(ImportErrorView::MissingContent { file: joined(path, name) }),
        }
    }
}

/// The directory's own instance, its children apart: that of its own entry
/// if it has one, else a folder, else, for the root, none.
pub open spec fn own_instance(directory: FsDirectoryView, path: Seq<char>, is_root: bool) -> Result<
    Option<FsInstanceView>,
    ImportErrorView,
> {
    match self_index(directory.entries) {
        Some(k) => match self_instance(
            directory.name,
            directory.entries[k]->File_name,
            directory.entries[k]->File_content,
            path,
        ) {
            Ok(instance) => Ok(Some(instance)),
            Err(e) => Err(e),
        },
        None => if is_root {
            Ok(None)
        } else {
            Ok(Some(implicit_folder(directory.name)))
        },
    }
}

/// The leaf that a file stands for, if it stands for one: a code file for a
/// script of the name the file has before its code extension, a descriptor
/// for the instance it describes. The
/// files that can be a directory's own, references and all other files stand
/// for none.
pub open spec fn leaf_instance(name: Seq<char>, content: FileContentView, path: Seq<char>) -> Result<
    Option<FsInstanceView>,
    ImportErrorView,
> {
    match file_role(name) {
        FileRole::Script => match content {
            FileContentView::Text(source) => Ok(
                Some(script_instance(script_name(name), name, source)),
            ),
            _ => Err(ImportErrorView::MissingContent { file: joined(path, name) }),
        },
        FileRole::Descriptor => match content {
            FileContentView::Document(document) => match decoded(document, joined(path, name)) {
                Ok(instance) => Ok(Some(instance)),
                Err(e) => Err(e),
            },
            _ => Err(ImportErrorView::MissingContent { file: joined(path, name) }),
        },
        _ => Ok(None),
    }
}

/// The instances that a directory stands for. `path` is the path of the
/// directory, by which errors name its files.
///
/// A directory stands for one instance, its own, which takes what its
/// entries stand for as children; only the root, when it has no entry of its
/// own, stands for its entries' instances themselves.
pub open spec fn imported(directory: FsDirectoryView, path: Seq<char>, is_root: bool) -> Result<
    Seq<FsInstanceView>,
    ImportErrorView,
>
    decreases directory,
{
    match own_instance(directory, path, is_root) {
        Err(e) => Err(e),
        Ok(own) => match gathered(directory.entries, path, directory.entries.len()) {
            Err(e) => Err(e),
            Ok(below) => match own {
                Some(instance) => Ok(
                    seq![
                        FsInstanceView {
                            name: instance.name,
                            class: instance.class,
                            children: below,
                            attributes: instance.attributes,
                            properties: instance.properties,
                            script_source: instance.script_source,
                        },
                    ],
                ),
                None => Ok(below),
            },
        },
    }
}

/// The instances that the first `n` of `entries` stand for, in their order.
/// The first entry that cannot be imported decides the error.
pub open spec fn gathered(entries: Seq<FsEntryView>, path: Seq<char>, n: nat) -> Result<
    Seq<FsInstanceView>,
    ImportErrorView,
>
    decreases entries, n,
{
    if n == 0 || n > entries.len() {
        Ok(Seq::empty())
    } else {
        match gathered(entries, path, (n - 1) as nat) {
            Err(e) => Err(e),
            Ok(before) => match entry_instances(entries[n - 1], path) {
                Err(e) => Err(e),
                Ok(more) => Ok(before + more),
            },
        }
    }
}

/// The instances that one entry of the directory at `path` stands for.
pub open spec fn entry_instances(entry: FsEntryView, path: Seq<char>) -> Result<
    Seq<FsInstanceView>,
    ImportErrorView,
>
    decreases entry,
{
    match entry {
        FsEntryView::File { name, content } => match leaf_instance(name, content, path) {
            Ok(Some(instance)) => Ok(seq![instance]),
            Ok(None) => Ok(Seq::empty()),
            Err(e) => Err(e),
        },
        FsEntryView::Directory(directory) => imported(
            directory,
            joined(path, directory.name),
            false,
        ),
        FsEntryView::Other { .. } => Ok(Seq::empty()),
    }
}

/// Once an entry that can be the directory's own is found, later entries do
/// not change which one it is.
pub proof fn lemma_self_index_stays(entries: Seq<FsEntryView>, n: int)
    requires
        0 <= n <= entries.len(),
        self_index(entries.take(n)) is Some,
    ensures
        self_index(entries) == self_index(entries.take(n)),
    decreases entries.len() - n,
{
    if n < entries.len() {
        assert(entries.take(n + 1).drop_last() =~= entries.take(n));
        lemma_self_index_stays(entries, n + 1);
    } else {
        assert(entries.take(n) =~= entries);
    }
}

/// The entry at the index of the directory's own entry can be its own.
pub proof fn lemma_self_index_is_self(entries: Seq<FsEntryView>)
    requires
        self_index(entries) is Some,
    ensures
        0 <= self_index(entries)->0 < entries.len(),
        is_self_entry(entries[self_index(entries)->0]),
    decreases entries.len(),
{
    if entries.len() > 0 && self_index(entries.drop_last()) is Some {
        lemma_self_index_is_self(entries.drop_last());
    }
}

/// The model of an optional instance.
pub open spec fn optional_instance_view(instance: Option<FsInstance>) -> Option<FsInstanceView> {
    match instance {
        Some(i) => Some(i@),
        None => None,
    }
}

/// The index of the directory's own entry.
fn find_self(entries: &Vec<FsEntry>) -> (r: Option<usize>)
    ensures
        match r {
            Some(k) => k < entries.len() && self_index(listing_view(entries@)) == Some(k as int),
            None => self_index(listing_view(entries@)) is None,
        },
{
    let ghost model = listing_view(entries@);
    let mut i: usize = 0;
    assert(model.take(0) =~= Seq::empty());
    while i < entries.len()
        invariant
            i <= entries.len(),
            model == listing_view(entries@),
            self_index(model.take(i as int)) is None,
        decreases entries.len() - i,
    {
        proof {
            assert(model.take(i + 1).drop_last() =~= model.take(i as int));
            assert(model.take(i + 1).last() == entries@[i as int]@);
        }
        let found = match &entries[i] {
            FsEntry::File { name, .. } => {
                let role = classify_file(name.as_str());
                role == FileRole::SelfDescriptor || role == FileRole::SelfScript
            },
            _ => false,
        };
        if found {
            proof {
                lemma_self_index_stays(model, i + 1);
            }
            return Some(i);
        }
        i += 1;
    }
    assert(model.take(i as int) =~= model);
    None
}

/// The folder that a directory without an entry of its own stands for.
fn folder_named(name: &str) -> (r: FsInstance)
    ensures
        r@ == implicit_folder(name@),
{
    let r = FsInstance {
        name: String::from_str(name),
        class: String::from_str("Folder"),
        children: Vec::new(),
        attributes: None,
        properties: None,
        script_source: None,
    };
    proof {
        r.lemma_children_view();
        assert(r@.children =~= Seq::empty());
    }
    r
}

/// Reads the instance of a directory's own entry, its children apart.
fn read_self(directory_name: &str, name: &str, content: &FileContent, path: &str) -> (r: Result<
    FsInstance,
    ImportError,
>)
    requires
        file_role(name@) is SelfScript || file_role(name@) is SelfDescriptor,
    ensures
        match r {
            Ok(instance) => self_instance(directory_name@, name@, content@, path@) == Ok::<
                FsInstanceView,
                ImportErrorView,
            >(instance@),
            Err(e) => self_instance(directory_name@, name@, content@, path@) == Err::<
                FsInstanceView,
                ImportErrorView,
            >(e@),
        },
{
    let file = join(path, name);
    if classify_file(name) == FileRole::SelfScript {
        match content {
            FileContent::Text(source) => Ok(
                script_from(String::from_str(directory_name), name, source),
            ),
            _ => Err(ImportError::MissingContent { file }),
        }
    } else {
        match content {
            FileContent::Document(document) => decode_descriptor(document, file.as_str()),
            _ => Err(ImportError::MissingContent { file }),
        }
    }
}

/// Reads the leaf that a file stands for, if it stands for one.
fn read_leaf(name: &str, content: &FileContent, path: &str) -> (r: Result<
    Option<FsInstance>,
    ImportError,
>)
    ensures
        match r {
            Ok(Some(instance)) => leaf_instance(name@, content@, path@) == Ok::<
                Option<FsInstanceView>,
                ImportErrorView,
            >(Some(instance@)),
            Ok(None) => leaf_instance(name@, content@, path@) == Ok::<
                Option<FsInstanceView>,
                ImportErrorView,
            >(None),
            Err(e) => leaf_instance(name@, content@, path@) == Err::<
                Option<FsInstanceView>,
                ImportErrorView,
            >(e@),
        },
{
    match classify_file(name) {
        FileRole::Script => match content {
            FileContent::Text(source) => Ok(Some(script_from(script_name_of(name), name, source))),
            _ => Err(ImportError::MissingContent { file: join(path, name) }),
        },
        FileRole::Descriptor => match content {
            FileContent::Document(document) => {
                let file = join(path, name);
                match decode_descriptor(document, file.as_str()) {
                    Ok(instance) => Ok(Some(instance)),
                    Err(e) => Err(e),
                }
            },
            _ => Err(ImportError::MissingContent { file: join(path, name) }),
        },
        _ => Ok(None),
    }
}

/// Once an entry fails, the failure is that of any longer run of entries.
pub proof fn lemma_gathered_error_stays(entries: Seq<FsEntryView>, path: Seq<char>, n: nat, m: nat)
    requires
        n <= m <= entries.len(),
        gathered(entries, path, n) is Err,
    ensures
        gathered(entries, path, m) == gathered(entries, path, n),
    decreases m,
{
    if n < m {
        lemma_gathered_error_stays(entries, path, n, (m - 1) as nat);
    }
}

/// Imports the directory found at `path`.
fn read_directory(directory: &FsDirectory, path: &str, is_root: bool) -> (r: Result<
    Vec<FsInstance>,
    ImportError,
>)
    ensures
        match r {
            Ok(list) => imported(directory@, path@, is_root) == Ok::<
                Seq<FsInstanceView>,
                ImportErrorView,
            >(instances_view(list@)),
            Err(e) => imported(directory@, path@, is_root) == Err::<
                Seq<FsInstanceView>,
                ImportErrorView,
            >(e@),
        },
    decreases directory,
{
    proof {
        directory.lemma_entries_view();
    }
    let entries = &directory.entries;
    let ghost model = listing_view(entries@);
    let own: Option<FsInstance> = match find_self(entries) {
        Some(k) => {
            proof {
                lemma_self_index_is_self(model);
                assert(model[k as int] == entries@[k as int]@);
            }
            match &entries[k] {
                FsEntry::File { name, content } => {
                    match read_self(directory.name.as_str(), name.as_str(), content, path) {
                        Ok(instance) => Some(instance),
                        Err(e) => {
                            return Err(e);
                        },
                    }
                },
                _ => None,
            }
        },
        None => if is_root {
            None
        } else {
            Some(folder_named(directory.name.as_str()))
        },
    };
    assert(own_instance(directory@, path@, is_root) == Ok::<
        Option<FsInstanceView>,
        ImportErrorView,
    >(optional_instance_view(own)));
    let mut below: Vec<FsInstance> = Vec::new();
    let mut i: usize = 0;
    assert(instances_view(below@) =~= Seq::empty());
    while i < entries.len()
        invariant
            i <= entries.len(),
            entries@ == directory.entries@,
            model == listing_view(entries@),
            directory@.entries == model,
            own_instance(directory@, path@, is_root) == Ok::<
                Option<FsInstanceView>,
                ImportErrorView,
            >(optional_instance_view(own)),
            gathered(model, path@, i as nat) == Ok::<Seq<FsInstanceView>, ImportErrorView>(
                instances_view(below@),
            ),
        decreases entries.len() - i,
    {
        assert(model[i as int] == entries@[i as int]@);
        let ghost before = instances_view(below@);
        match &entries[i] {
            FsEntry::File { name, content } => {
                assert(model[i as int] == FsEntryView::File { name: name@, content: content@ });
                match read_leaf(name.as_str(), content, path) {
                    Ok(Some(instance)) => {
                        below.push(instance);
                        assert(instances_view(below@) =~= before + seq![instance@]);
                    },
                    Ok(None) => {
                        assert(before + Seq::<FsInstanceView>::empty() =~= before);
                    },
                    Err(e) => {
                        proof {
                            assert(leaf_instance(name@, content@, path@) is Err);
                            assert(entry_instances(model[i as int], path@) is Err);
                            assert(gathered(model, path@, (i + 1) as nat) is Err);
                            lemma_gathered_error_stays(model, path@, (i + 1) as nat, model.len());
                        }
                        return Err(e);
                    },
                }
            },
            FsEntry::Directory(inner) => {
                assert(model[i as int] == FsEntryView::Directory(inner@));
                let inner_path = join(path, inner.name.as_str());
                match read_directory(inner, inner_path.as_str(), false) {
                    Ok(mut more) => {
                        let ghost added = instances_view(more@);
                        below.append(&mut more);
                        assert(instances_view(below@) =~= before + added);
                    },
                    Err(e) => {
                        proof {
                            lemma_gathered_error_stays(model, path@, (i + 1) as nat, model.len());
                        }
                        return Err(e);
                    },
                }
            },
            FsEntry::Other { name } => {
                assert(model[i as int] == FsEntryView::Other { name: name@ });
                assert(before + Seq::<FsInstanceView>::empty() =~= before);
            },
        }
        i += 1;
    }
    match own {
        Some(instance) => {
            let ghost children = instances_view(below@);
            let node = FsInstance {
                name: instance.name,
                class: instance.class,
                children: below,
                attributes: instance.attributes,
                properties: instance.properties,
                script_source: instance.script_source,
            };
            proof {
                node.lemma_children_view();
            }
            let list = vec![node];
            assert(instances_view(list@) =~= seq![node@]);
            Ok(list)
        },
        None => Ok(below),
    }
}

/// Imports a directory: rebuilds the instances that its listing stands for.
/// `is_root_dir` tells whether the directory is the root of the layout,
/// which need not have an instance of its own.
pub fn read_instance_tree(directory: &FsDirectory, is_root_dir: bool) -> (r: Result<
    Vec<FsInstance>,
    ImportError,
>)
    ensures
        match r {
            Ok(list) => imported(directory@, Seq::empty(), is_root_dir) == Ok::<
                Seq<FsInstanceView>,
                ImportErrorView,
            >(instances_view(list@)),
            Err(e) => imported(directory@, Seq::empty(), is_root_dir) == Err::<
                Seq<FsInstanceView>,
                ImportErrorView,
            >(e@),
        },
{
    proof {
        reveal_strlit("");
        assert(""@ =~= Seq::<char>::empty());
    }
    read_directory(directory, "", is_root_dir)
}

} // verus!
