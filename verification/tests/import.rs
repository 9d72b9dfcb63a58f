use vie::import::{
    classify_file, decode_descriptor, get_script_properties, read_instance_tree, FileContent,
    FileRole, FsDirectory, FsEntry, FsInstance, ImportError,
};
use vie::keyed::Keyed;
use vie::value::Value;

fn text(s: &str) -> Value {
    Value::Text(s.to_string())
}

fn mapping(entries: Vec<(&str, Value)>) -> Value {
    Value::Mapping(entries.into_iter().map(|(k, v)| (text(k), v)).collect())
}

fn code(name: &str, source: &str) -> FsEntry {
    FsEntry::File { name: name.to_string(), content: FileContent::Text(source.to_string()) }
}

fn described(name: &str, document: Value) -> FsEntry {
    FsEntry::File { name: name.to_string(), content: FileContent::Document(document) }
}

fn unread(name: &str) -> FsEntry {
    FsEntry::File { name: name.to_string(), content: FileContent::Unread }
}

fn dir(name: &str, entries: Vec<FsEntry>) -> FsDirectory {
    FsDirectory { name: name.to_string(), entries }
}

fn sub(name: &str, entries: Vec<FsEntry>) -> FsEntry {
    FsEntry::Directory(dir(name, entries))
}

fn named(entries: Vec<(String, Value)>) -> Option<Keyed<Value>> {
    let mut list = Keyed::new();
    for (key, value) in entries {
        list.insert(key, value);
    }
    Some(list)
}

fn node(name: &str, class: &str) -> FsInstance {
    FsInstance {
        name: name.to_string(),
        class: class.to_string(),
        children: vec![],
        attributes: None,
        properties: None,
        script_source: None,
    }
}

fn script(name: &str, run_context: Option<&str>, source: &str) -> FsInstance {
    FsInstance {
        name: name.to_string(),
        class: if run_context.is_some() { "Script" } else { "ModuleScript" }.to_string(),
        children: vec![],
        attributes: None,
        properties: run_context.and_then(|c| named(vec![("RunContext".to_string(), text(c))])),
        script_source: Some(source.to_string()),
    }
}

fn part_document(name: &str) -> Value {
    mapping(vec![
        ("name", text(name)),
        ("class", text("Part")),
        ("properties", mapping(vec![("Anchored", Value::Bool(true))])),
    ])
}

fn part(name: &str) -> FsInstance {
    let mut part = node(name, "Part");
    part.properties = named(vec![("Anchored".to_string(), Value::Bool(true))]);
    part
}

#[test]
fn files_are_told_apart_by_name() {
    assert_eq!(classify_file("+instance.vie"), FileRole::SelfDescriptor);
    assert_eq!(classify_file("+instance.luau"), FileRole::SelfScript);
    assert_eq!(classify_file("+instance.server.luau"), FileRole::SelfScript);
    assert_eq!(classify_file("+instance.client.luau"), FileRole::SelfScript);
    assert_eq!(classify_file("Rig.reference.vie"), FileRole::Reference);
    assert_eq!(classify_file("+reference.vie"), FileRole::Reference);
    assert_eq!(classify_file(".reference.vie"), FileRole::Reference);
    assert_eq!(classify_file("Main.luau"), FileRole::Script);
    assert_eq!(classify_file("Main.server.luau"), FileRole::Script);
    assert_eq!(classify_file("+instance.shared.luau"), FileRole::Script);
    assert_eq!(classify_file("+instance.server.vie"), FileRole::Descriptor);
    assert_eq!(classify_file("Part.vie"), FileRole::Descriptor);
    assert_eq!(classify_file("notes.txt"), FileRole::Other);
    assert_eq!(classify_file("luau"), FileRole::Other);
    assert_eq!(classify_file(""), FileRole::Other);
    assert_eq!(classify_file("Main.LUAU"), FileRole::Other);
}

#[test]
fn the_run_context_is_read_off_the_name() {
    assert_eq!(
        get_script_properties("Main.server.luau"),
        named(vec![("RunContext".to_string(), text("Server"))])
    );
    assert_eq!(
        get_script_properties("+instance.client.luau"),
        named(vec![("RunContext".to_string(), text("Client"))])
    );
    assert_eq!(get_script_properties("Main.luau"), None);
    assert_eq!(get_script_properties("Main.server.vie"), None);
    assert_eq!(get_script_properties(".server.luau"), named(vec![("RunContext".to_string(), text("Server"))]));
    assert_eq!(get_script_properties("server.luau"), None);
}

#[test]
fn a_descriptor_is_read_field_by_field() {
    let document = mapping(vec![
        ("name", text("Brick")),
        ("class", text("Part")),
        ("children", Value::Sequence(vec![text("ignored")])),
        ("extra", Value::Integer(1)),
        (
            "properties",
            mapping(vec![
                ("Size", Value::Tagged("Vector3".into(), Box::new(mapping(vec![("x", Value::Double(1))])))),
                ("Anchored", Value::Bool(true)),
            ]),
        ),
        ("attributes", Value::Null),
        ("script_source", text("print()")),
    ]);
    assert_eq!(
        decode_descriptor(&document, "src/Brick.vie"),
        Ok(FsInstance {
            name: "Brick".to_string(),
            class: "Part".to_string(),
            children: vec![],
            attributes: None,
            properties: named(vec![
                (
                    "Size".to_string(),
                    Value::Tagged("Vector3".into(), Box::new(mapping(vec![("x", Value::Double(1))])))
                ),
                ("Anchored".to_string(), Value::Bool(true)),
            ]),
            script_source: Some("print()".to_string()),
        })
    );
}

#[test]
fn a_descriptor_needs_name_and_class() {
    let malformed = || Err(ImportError::MalformedDescriptor { file: "f.vie".to_string() });
    let missing = |field: &str| {
        Err(ImportError::MissingField { file: "f.vie".to_string(), field: field.to_string() })
    };
    assert_eq!(decode_descriptor(&Value::Null, "f.vie"), malformed());
    assert_eq!(decode_descriptor(&text("Part"), "f.vie"), malformed());
    assert_eq!(decode_descriptor(&Value::Sequence(vec![]), "f.vie"), malformed());
    assert_eq!(decode_descriptor(&Value::Mapping(vec![]), "f.vie"), missing("name"));
    assert_eq!(decode_descriptor(&mapping(vec![("class", text("Part"))]), "f.vie"), missing("name"));
    assert_eq!(decode_descriptor(&mapping(vec![("name", text("A"))]), "f.vie"), missing("class"));
    assert_eq!(
        decode_descriptor(&mapping(vec![("name", Value::Integer(1)), ("class", text("P"))]), "f.vie"),
        malformed()
    );
    assert_eq!(
        decode_descriptor(&mapping(vec![("name", text("A")), ("class", Value::Null)]), "f.vie"),
        malformed()
    );
    assert_eq!(
        decode_descriptor(&mapping(vec![("name", text("A")), ("class", text("P"))]), "f.vie"),
        Ok(node("A", "P"))
    );
}

#[test]
fn a_descriptor_with_misshapen_fields_is_refused() {
    let malformed = || Err(ImportError::MalformedDescriptor { file: "f.vie".to_string() });
    let with = |key: &str, value: Value| {
        decode_descriptor(
            &mapping(vec![("name", text("A")), ("class", text("P")), (key, value)]),
            "f.vie",
        )
    };
    assert_eq!(with("properties", text("x")), malformed());
    assert_eq!(with("attributes", Value::Sequence(vec![])), malformed());
    assert_eq!(
        with("properties", Value::Mapping(vec![(Value::Integer(1), Value::Null)])),
        malformed()
    );
    assert_eq!(with("script_source", Value::Integer(3)), malformed());
    assert_eq!(with("script_source", Value::Null), Ok(node("A", "P")));
    let mut empty = node("A", "P");
    empty.attributes = named(vec![]);
    assert_eq!(with("attributes", Value::Mapping(vec![])), Ok(empty));
}

#[test]
fn the_first_entry_under_a_key_counts() {
    let document = mapping(vec![
        ("name", text("First")),
        ("name", text("Second")),
        ("class", text("P")),
    ]);
    assert_eq!(decode_descriptor(&document, "f.vie"), Ok(node("First", "P")));
}

#[test]
fn an_empty_root_stands_for_nothing() {
    assert_eq!(read_instance_tree(&dir("src", vec![]), true), Ok(vec![]));
}

#[test]
fn an_empty_directory_is_a_folder() {
    assert_eq!(read_instance_tree(&dir("Empty", vec![]), false), Ok(vec![node("Empty", "Folder")]));
}

#[test]
fn a_root_without_an_entry_of_its_own_stands_for_its_entries() {
    let root = dir(
        "src",
        vec![
            code("A.luau", "a"),
            sub("Lib", vec![code("B.server.luau", "b")]),
            described("P.vie", part_document("P")),
        ],
    );
    let mut lib = node("Lib", "Folder");
    lib.children = vec![script("B", Some("Server"), "b")];
    assert_eq!(
        read_instance_tree(&root, true),
        Ok(vec![script("A", None, "a"), lib, part("P")])
    );
}

#[test]
fn a_directory_takes_its_entries_as_children() {
    let folder = dir(
        "Things",
        vec![
            code("A.client.luau", "a"),
            sub("Inner", vec![]),
            unread("notes.txt"),
            FsEntry::Other { name: "link".to_string() },
            unread("Rig.reference.vie"),
            described("P.vie", part_document("P")),
        ],
    );
    let mut things = node("Things", "Folder");
    things.children =
        vec![script("A", Some("Client"), "a"), node("Inner", "Folder"), part("P")];
    assert_eq!(read_instance_tree(&folder, false), Ok(vec![things]));
}

#[test]
fn a_described_directory_is_the_instance_described() {
    let model = dir(
        "OnDisk",
        vec![
            code("Child.luau", "c"),
            described("+instance.vie", part_document("Described")),
        ],
    );
    let mut described_part = part("Described");
    described_part.children = vec![script("Child", None, "c")];
    assert_eq!(read_instance_tree(&model, false), Ok(vec![described_part]));
    let mut as_root = part("Described");
    as_root.children = vec![script("Child", None, "c")];
    assert_eq!(read_instance_tree(&model, true), Ok(vec![as_root]));
}

#[test]
fn a_scripted_directory_is_a_script_named_after_it() {
    let server = dir(
        "Server",
        vec![code("+instance.server.luau", "main()"), code("Helper.luau", "h")],
    );
    let mut expected = script("Server", Some("Server"), "main()");
    expected.children = vec![script("Helper", None, "h")];
    assert_eq!(read_instance_tree(&server, false), Ok(vec![expected]));
    let module = dir("Lib", vec![code("+instance.luau", "return {}")]);
    assert_eq!(
        read_instance_tree(&module, false),
        Ok(vec![script("Lib", None, "return {}")])
    );
    let client = dir("Gui", vec![code("+instance.client.luau", "gui()")]);
    assert_eq!(
        read_instance_tree(&client, true),
        Ok(vec![script("Gui", Some("Client"), "gui()")])
    );
}

#[test]
fn the_first_entry_that_can_be_the_own_one_is() {
    let both = dir(
        "Both",
        vec![
            code("A.luau", "a"),
            code("+instance.luau", "own"),
            described("+instance.vie", part_document("Other")),
        ],
    );
    let mut expected = script("Both", None, "own");
    expected.children = vec![script("A", None, "a")];
    assert_eq!(read_instance_tree(&both, false), Ok(vec![expected]));
}

#[test]
fn a_directory_named_like_an_own_entry_is_a_directory() {
    let odd = dir("Odd", vec![sub("+instance.vie", vec![])]);
    let mut expected = node("Odd", "Folder");
    expected.children = vec![node("+instance.vie", "Folder")];
    assert_eq!(read_instance_tree(&odd, false), Ok(vec![expected]));
}

#[test]
fn directories_nest() {
    let root = dir(
        "src",
        vec![sub("A", vec![sub("B", vec![sub("C", vec![code("Deep.luau", "d")])])])],
    );
    let mut c = node("C", "Folder");
    c.children = vec![script("Deep", None, "d")];
    let mut b = node("B", "Folder");
    b.children = vec![c];
    let mut a = node("A", "Folder");
    a.children = vec![b];
    assert_eq!(read_instance_tree(&root, true), Ok(vec![a]));
}

#[test]
fn a_file_that_is_needed_must_have_been_read() {
    let missing = |file: &str| Err(ImportError::MissingContent { file: file.to_string() });
    assert_eq!(read_instance_tree(&dir("src", vec![unread("A.luau")]), true), missing("A.luau"));
    assert_eq!(read_instance_tree(&dir("src", vec![unread("P.vie")]), true), missing("P.vie"));
    assert_eq!(
        read_instance_tree(&dir("src", vec![described("A.luau", Value::Null)]), true),
        missing("A.luau")
    );
    assert_eq!(
        read_instance_tree(&dir("src", vec![code("P.vie", "name: P")]), true),
        missing("P.vie")
    );
    assert_eq!(
        read_instance_tree(&dir("src", vec![sub("In", vec![unread("+instance.luau")])]), true),
        missing("In/+instance.luau")
    );
    assert_eq!(
        read_instance_tree(&dir("src", vec![sub("In", vec![unread("+instance.vie")])]), true),
        missing("In/+instance.vie")
    );
}

#[test]
fn faults_name_the_file_by_its_path() {
    let root = dir(
        "src",
        vec![
            code("Fine.luau", "f"),
            sub("A", vec![sub("B", vec![described("Bad.vie", text("not a mapping"))])]),
            unread("Later.luau"),
        ],
    );
    assert_eq!(
        read_instance_tree(&root, true),
        Err(ImportError::MalformedDescriptor { file: "A/B/Bad.vie".to_string() })
    );
}

#[test]
fn the_own_entry_is_read_before_the_others() {
    let root = dir(
        "src",
        vec![unread("First.luau"), described("+instance.vie", Value::Mapping(vec![]))],
    );
    assert_eq!(
        read_instance_tree(&root, true),
        Err(ImportError::MissingField {
            file: "+instance.vie".to_string(),
            field: "name".to_string()
        })
    );
}

#[test]
fn a_code_file_names_its_script_without_the_extension() {
    let root = dir(
        "src",
        vec![
            code("Main.server.luau", "print(1)"),
            code("Gui.client.luau", "g"),
            code("Util.luau", "u"),
            code("a.b.luau", "ab"),
            code(".server.luau", "s"),
            code(".luau", "e"),
        ],
    );
    assert_eq!(
        read_instance_tree(&root, true),
        Ok(vec![
            script("Main", Some("Server"), "print(1)"),
            script("Gui", Some("Client"), "g"),
            script("Util", None, "u"),
            script("a.b", None, "ab"),
            script("", Some("Server"), "s"),
            script("", None, "e"),
        ])
    );
}

#[test]
fn a_root_reference_is_not_imported() {
    let root = dir(
        "src",
        vec![described(
            "+reference.vie",
            mapping(vec![("kind", text("model")), ("asset_id", Value::Integer(123))]),
        )],
    );
    assert_eq!(read_instance_tree(&root, true), Ok(vec![]));
    assert_eq!(read_instance_tree(&dir("src", vec![unread("+reference.vie")]), true), Ok(vec![]));
}

#[test]
fn a_key_twice_in_a_descriptor_is_refused() {
    let document = mapping(vec![
        ("name", text("A")),
        ("class", text("P")),
        ("properties", mapping(vec![("k", Value::Integer(1)), ("k", Value::Integer(2))])),
    ]);
    assert_eq!(
        decode_descriptor(&document, "f.vie"),
        Err(ImportError::MalformedDescriptor { file: "f.vie".to_string() })
    );
}
