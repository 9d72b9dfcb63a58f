use vie::data::DataType;
use vie::export::{write_plugin_item, FileBody, NodeOutput, PluginExportItem, PluginInstance};
use vie::import::{read_instance_tree, FileContent, FsDirectory, FsEntry, FsInstance};
use vie::keyed::Keyed;
use vie::value::Value;

fn instance(name: &str, class: &str) -> PluginInstance {
    PluginInstance {
        name: name.to_string(),
        class: class.to_string(),
        source: None,
        children: None,
        properties: None,
        attributes: None,
        file_path: None,
    }
}

fn typed(entries: Vec<(String, DataType)>) -> Option<Keyed<DataType>> {
    let mut list = Keyed::new();
    for (key, value) in entries {
        list.insert(key, value);
    }
    Some(list)
}

fn named(entries: Vec<(String, Value)>) -> Option<Keyed<Value>> {
    let mut list = Keyed::new();
    for (key, value) in entries {
        list.insert(key, value);
    }
    Some(list)
}

fn script(name: &str, class: &str, source: &str, run_context: Option<&str>) -> PluginInstance {
    let mut node = instance(name, class);
    node.source = Some(source.to_string());
    node.properties = run_context
        .and_then(|c| typed(vec![("RunContext".to_string(), DataType::EnumItem(c.to_string()))]));
    node
}

fn item(node: PluginInstance) -> PluginExportItem {
    PluginExportItem::Instance(node)
}

fn text(s: &str) -> Value {
    Value::Text(s.to_string())
}

fn node(name: &str, class: &str) -> FsInstance {
    FsInstance {
        name: name.to_string(),
        class: class.to_string(),
        children: vec![],
        attributes: None,
        properties: None,
        script_source: None,
    }
}

fn place(directory: &mut FsDirectory, path: &[&str], content: Option<FileContent>) {
    let (first, rest) = path.split_first().unwrap();
    if rest.is_empty() {
        match content {
            Some(content) => {
                directory.entries.push(FsEntry::File { name: first.to_string(), content })
            }
            None => {
                if !has_directory(directory, first) {
                    directory.entries.push(FsEntry::Directory(FsDirectory {
                        name: first.to_string(),
                        entries: vec![],
                    }))
                }
            }
        }
        return;
    }
    if !has_directory(directory, first) {
        directory
            .entries
            .push(FsEntry::Directory(FsDirectory { name: first.to_string(), entries: vec![] }));
    }
    for entry in directory.entries.iter_mut() {
        if let FsEntry::Directory(inner) = entry {
            if inner.name == *first {
                place(inner, rest, content);
                return;
            }
        }
    }
}

fn has_directory(directory: &FsDirectory, name: &str) -> bool {
    directory
        .entries
        .iter()
        .any(|entry| matches!(entry, FsEntry::Directory(inner) if inner.name == name))
}

/// The listing of `src` after the planned outputs have been carried out.
fn carry_out(outputs: Vec<NodeOutput>) -> FsDirectory {
    let mut root = FsDirectory { name: "src".to_string(), entries: vec![] };
    for output in outputs {
        if let Some(directory) = output.directory {
            let parts: Vec<&str> = directory.split('/').collect();
            assert_eq!(parts[0], "src");
            place(&mut root, &parts[1..], None);
        }
        for file in output.files {
            let parts: Vec<&str> = file.path.split('/').collect();
            assert_eq!(parts[0], "src");
            let content = match file.body {
                FileBody::Source(source) => FileContent::Text(source),
                FileBody::Descriptor(document) => FileContent::Document(document),
                FileBody::Sourcemap(_) => panic!("no sourcemap under src"),
            };
            place(&mut root, &parts[1..], Some(content));
        }
    }
    root
}

#[test]
fn what_was_exported_is_imported_again() {
    let mut brick = instance("Brick", "Part");
    brick.properties = typed(vec![
        ("Transparency".to_string(), DataType::Double(0.5f64.to_bits())),
        ("Anchored".to_string(), DataType::Boolean(true)),
        ("Color".to_string(), DataType::Color3([1, 2, 3])),
    ]);
    brick.attributes = typed(vec![("Tier".to_string(), DataType::Integer(2))]);
    let mut model = instance("Car", "Model");
    model.properties = typed(vec![("Name".to_string(), DataType::String("Car".into()))]);
    model.children = Some(vec![item(brick), item(script("Drive", "ModuleScript", "d()", None))]);
    let mut server = script("Main", "Script", "main()", Some("Server"));
    server.children = Some(vec![item(script("Helper", "ModuleScript", "h()", None))]);
    let mut folder = instance("Stuff", "Folder");
    folder.children = Some(vec![item(model), item(server)]);
    let mut root = instance("Game", "DataModel");
    root.children = Some(vec![item(folder), item(script("Boot", "Script", "b()", Some("Client")))]);
    let mut tree = item(root);

    let mut outputs = Vec::new();
    write_plugin_item(&mut tree, "src", true, &mut outputs).unwrap();
    let imported = read_instance_tree(&carry_out(outputs), true).unwrap();

    let mut expected_brick = node("Brick", "Part");
    expected_brick.properties = named(vec![
        ("Anchored".to_string(), Value::Bool(true)),
        (
            "Color".to_string(),
            Value::Tagged(
                "Color3".into(),
                Box::new(Value::Mapping(vec![
                    (text("red"), Value::Integer(1)),
                    (text("green"), Value::Integer(2)),
                    (text("blue"), Value::Integer(3)),
                ])),
            ),
        ),
        ("Transparency".to_string(), Value::Double(0.5f64.to_bits())),
    ]);
    expected_brick.attributes = named(vec![("Tier".to_string(), Value::Integer(2))]);
    let mut expected_drive = node("Drive", "ModuleScript");
    expected_drive.script_source = Some("d()".to_string());
    let mut expected_model = node("Car", "Model");
    expected_model.properties = named(vec![("Name".to_string(), text("Car"))]);
    expected_model.children = vec![expected_brick, expected_drive];
    let mut expected_helper = node("Helper", "ModuleScript");
    expected_helper.script_source = Some("h()".to_string());
    let mut expected_server = node("Main", "Script");
    expected_server.properties = named(vec![("RunContext".to_string(), text("Server"))]);
    expected_server.script_source = Some("main()".to_string());
    expected_server.children = vec![expected_helper];
    let mut expected_folder = node("Stuff", "Folder");
    expected_folder.children = vec![expected_model, expected_server];
    let mut expected_boot = node("Boot", "Script");
    expected_boot.properties = named(vec![("RunContext".to_string(), text("Client"))]);
    expected_boot.script_source = Some("b()".to_string());
    let mut expected_root = node("Game", "DataModel");
    expected_root.children = vec![expected_folder, expected_boot];

    assert_eq!(imported, vec![expected_root]);
}

#[test]
fn references_and_plain_folder_leaves_do_not_come_back() {
    let mut root = instance("Game", "DataModel");
    root.children = Some(vec![
        PluginExportItem::ModelReference { name: "Rig".into(), class: "Model".into(), asset_id: 5 },
        item(instance("Nothing", "Folder")),
    ]);
    let mut tree = item(root);
    let mut outputs = Vec::new();
    write_plugin_item(&mut tree, "src", true, &mut outputs).unwrap();
    let imported = read_instance_tree(&carry_out(outputs), true).unwrap();
    assert_eq!(imported, vec![node("Game", "DataModel")]);
}

#[test]
fn what_a_script_has_besides_comes_back_beside_it() {
    let mut gui = script("Gui", "LocalScript", "g()", None);
    gui.attributes = typed(vec![("Tag".to_string(), DataType::String("x".into()))]);
    let mut lib = script("Lib", "ModuleScript", "return {}", None);
    lib.attributes = typed(vec![("Tier".to_string(), DataType::Integer(1))]);
    lib.children = Some(vec![item(script("Legacy", "Script", "l()", Some("Legacy")))]);
    let mut root = script("src", "Script", "r()", Some("Server"));
    root.properties.as_mut().unwrap().insert("Disabled".to_string(), DataType::Boolean(true));
    root.children = Some(vec![item(gui), item(lib)]);
    let mut tree = item(root);

    let mut outputs = Vec::new();
    write_plugin_item(&mut tree, "src", true, &mut outputs).unwrap();
    let imported = read_instance_tree(&carry_out(outputs), true).unwrap();

    let mut root_described = node("src", "Script");
    root_described.properties = named(vec![("Disabled".to_string(), Value::Bool(true))]);
    let mut gui_script = node("Gui", "Script");
    gui_script.properties = named(vec![("RunContext".to_string(), text("Client"))]);
    gui_script.script_source = Some("g()".to_string());
    let mut gui_described = node("Gui", "LocalScript");
    gui_described.attributes = named(vec![("Tag".to_string(), text("x"))]);
    let mut legacy = node("Legacy", "ModuleScript");
    legacy.script_source = Some("l()".to_string());
    let mut lib_script = node("Lib", "ModuleScript");
    lib_script.script_source = Some("return {}".to_string());
    lib_script.children = vec![legacy];
    let mut expected = node("src", "Script");
    expected.properties = named(vec![("RunContext".to_string(), text("Server"))]);
    expected.script_source = Some("r()".to_string());
    expected.children = vec![root_described, gui_script, gui_described, lib_script];

    assert_eq!(imported, vec![expected]);
}
