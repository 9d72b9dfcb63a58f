use vie::data::DataType;
use vie::keyed::Keyed;
use vie::export::{
    find_export_error, get_script_extension, instance_is_script, write_plugin_item, ExportError,
    FileBody, FileWrite, NodeOutput, PluginExportItem, PluginInstance,
};
use vie::value::Value;

fn instance(name: &str, class: &str) -> PluginInstance {
    PluginInstance {
        name: name.to_string(),
        class: class.to_string(),
        source: None,
        children: None,
        properties: None,
        attributes: None,
        file_path: None,
    }
}

fn some(entries: Vec<(String, DataType)>) -> Option<Keyed<DataType>> {
    let mut list = Keyed::new();
    for (key, value) in entries {
        list.insert(key, value);
    }
    Some(list)
}

fn script(name: &str, class: &str, source: &str, run_context: Option<&str>) -> PluginInstance {
    let mut node = instance(name, class);
    node.source = Some(source.to_string());
    node.properties = run_context
        .and_then(|c| some(vec![("RunContext".to_string(), DataType::EnumItem(c.to_string()))]));
    node
}

fn item(node: PluginInstance) -> PluginExportItem {
    PluginExportItem::Instance(node)
}

fn text(s: &str) -> Value {
    Value::Text(s.to_string())
}

fn mapping(entries: Vec<(&str, Value)>) -> Value {
    Value::Mapping(entries.into_iter().map(|(k, v)| (text(k), v)).collect())
}

fn source_file(path: &str, body: &str) -> FileWrite {
    FileWrite { path: path.to_string(), body: FileBody::Source(body.to_string()) }
}

fn descriptor_file(path: &str, document: Value) -> FileWrite {
    FileWrite { path: path.to_string(), body: FileBody::Descriptor(document) }
}

fn output(directory: Option<&str>, files: Vec<FileWrite>) -> NodeOutput {
    NodeOutput { directory: directory.map(|d| d.to_string()), files }
}

fn export(tree: &mut PluginExportItem, dir: &str, is_root: bool) -> Vec<NodeOutput> {
    let mut outputs = Vec::new();
    write_plugin_item(tree, dir, is_root, &mut outputs).unwrap();
    outputs
}

fn file_path(tree: &PluginExportItem) -> Option<&str> {
    match tree {
        PluginExportItem::Instance(node) => node.file_path.as_deref(),
        PluginExportItem::ModelReference { .. } => None,
    }
}

#[test]
fn script_classes_are_told_apart() {
    assert!(instance_is_script(&instance("a", "Script")));
    assert!(instance_is_script(&instance("a", "LocalScript")));
    assert!(instance_is_script(&instance("a", "ModuleScript")));
    assert!(!instance_is_script(&instance("a", "Folder")));
    assert!(!instance_is_script(&instance("a", "script")));
    assert!(!instance_is_script(&instance("Script", "Part")));
    assert!(!instance_is_script(&instance("a", "")));
}

#[test]
fn extension_follows_class_and_run_context() {
    let ext = |node: &PluginInstance| get_script_extension(node, "src");
    assert_eq!(ext(&script("a", "Script", "", Some("Server"))), Ok(".server.luau".to_string()));
    assert_eq!(ext(&script("a", "Script", "", Some("Client"))), Ok(".client.luau".to_string()));
    assert_eq!(ext(&script("a", "Script", "", Some("Legacy"))), Ok(".luau".to_string()));
    assert_eq!(ext(&script("a", "LocalScript", "", None)), Ok(".client.luau".to_string()));
    assert_eq!(
        ext(&script("a", "LocalScript", "", Some("Server"))),
        Ok(".client.luau".to_string())
    );
    assert_eq!(ext(&script("a", "ModuleScript", "", None)), Ok(".luau".to_string()));
    assert_eq!(ext(&script("a", "ModuleScript", "", Some("Server"))), Ok(".luau".to_string()));
    assert_eq!(ext(&instance("a", "Part")), Ok(".luau".to_string()));
}

#[test]
fn a_script_must_say_where_it_runs() {
    let missing = script("Main", "Script", "", None);
    assert_eq!(
        get_script_extension(&missing, "src"),
        Err(ExportError::MissingRunContext { node: "src/Main".to_string() })
    );
    let mut empty = script("Main", "Script", "", None);
    empty.properties = some(vec![("Disabled".to_string(), DataType::Boolean(false))]);
    assert_eq!(
        get_script_extension(&empty, "src/A"),
        Err(ExportError::MissingRunContext { node: "src/A/Main".to_string() })
    );
    let mut wrong = script("Main", "Script", "", None);
    wrong.properties = some(vec![("RunContext".to_string(), DataType::String("Server".into()))]);
    assert_eq!(
        get_script_extension(&wrong, "src"),
        Err(ExportError::RunContextNotEnumItem { node: "src/Main".to_string() })
    );
}

#[test]
fn a_server_script_as_root_is_the_instance_file() {
    let mut tree = item(script("Game", "Script", "print(1)", Some("Server")));
    let outputs = export(&mut tree, "src", true);
    assert_eq!(
        outputs,
        vec![output(None, vec![source_file("src/+instance.server.luau", "print(1)")])]
    );
    assert_eq!(file_path(&tree), Some("src/+instance.server.luau"));
}

#[test]
fn a_server_script_as_leaf_is_named_after_itself() {
    let mut tree = item(script("Main", "Script", "print(1)", Some("Server")));
    let outputs = export(&mut tree, "src", false);
    assert_eq!(outputs, vec![output(None, vec![source_file("src/Main.server.luau", "print(1)")])]);
    assert_eq!(file_path(&tree), Some("src/Main.server.luau"));
}

#[test]
fn a_local_script_is_always_a_client_file() {
    for run_context in [None, Some("Server"), Some("Client"), Some("Legacy")] {
        let mut tree = item(script("Gui", "LocalScript", "x", run_context));
        let outputs = export(&mut tree, "src", false);
        assert_eq!(outputs, vec![output(None, vec![source_file("src/Gui.client.luau", "x")])]);
        let mut root = item(script("Gui", "LocalScript", "x", run_context));
        let outputs = export(&mut root, "src", true);
        assert_eq!(
            outputs,
            vec![output(None, vec![source_file("src/+instance.client.luau", "x")])]
        );
    }
}

#[test]
fn a_module_script_has_no_run_context_in_its_name() {
    let mut tree = item(script("Util", "ModuleScript", "return {}", None));
    let outputs = export(&mut tree, "src/Shared", false);
    assert_eq!(
        outputs,
        vec![output(None, vec![source_file("src/Shared/Util.luau", "return {}")])]
    );
    assert_eq!(file_path(&tree), Some("src/Shared/Util.luau"));
}

#[test]
fn a_script_loses_its_reserved_properties() {
    let mut node = script("Main", "Script", "s", Some("Client"));
    node.properties.as_mut().unwrap().insert("Source".to_string(), DataType::String("s".into()));
    let mut tree = item(node);
    let outputs = export(&mut tree, "src", false);
    assert_eq!(outputs, vec![output(None, vec![source_file("src/Main.client.luau", "s")])]);
    let PluginExportItem::Instance(after) = &tree else { panic!("not an instance") };
    assert_eq!(after.properties, None);
    assert_eq!(after.source, Some("s".to_string()));
}

#[test]
fn a_script_with_more_properties_gets_a_descriptor() {
    let mut node = script("Main", "Script", "s", Some("Server"));
    node.properties.as_mut().unwrap().insert("Disabled".to_string(), DataType::Boolean(true));
    node.properties.as_mut().unwrap().insert("Source".to_string(), DataType::String("s".into()));
    let mut tree = item(node);
    let outputs = export(&mut tree, "src", false);
    assert_eq!(
        outputs,
        vec![output(
            None,
            vec![
                source_file("src/Main.server.luau", "s"),
                descriptor_file(
                    "src/Main.server.vie",
                    mapping(vec![
                        ("name", text("Main")),
                        ("class", text("Script")),
                        ("properties", mapping(vec![("Disabled", Value::Bool(true))])),
                    ])
                ),
            ]
        )]
    );
    let PluginExportItem::Instance(after) = &tree else { panic!("not an instance") };
    assert_eq!(after.properties, some(vec![("Disabled".to_string(), DataType::Boolean(true))]));
}

#[test]
fn a_script_with_attributes_gets_a_descriptor() {
    let mut node = script("Util", "ModuleScript", "s", None);
    node.attributes = some(vec![("Tag".to_string(), DataType::String("x".into()))]);
    let mut tree = item(node);
    let outputs = export(&mut tree, "src", true);
    assert_eq!(
        outputs,
        vec![output(
            None,
            vec![
                source_file("src/+instance.luau", "s"),
                descriptor_file(
                    "src/+instance.vie",
                    mapping(vec![
                        ("name", text("Util")),
                        ("class", text("ModuleScript")),
                        ("attributes", mapping(vec![("Tag", text("x"))])),
                    ])
                ),
            ]
        )]
    );
}

#[test]
fn a_plain_folder_leaf_writes_nothing() {
    let mut tree = item(instance("Empty", "Folder"));
    let outputs = export(&mut tree, "src", false);
    assert_eq!(outputs, vec![output(None, vec![])]);
    assert_eq!(file_path(&tree), None);
}

#[test]
fn an_empty_folder_is_a_directory_without_a_descriptor() {
    let mut node = instance("Empty", "Folder");
    node.children = Some(vec![]);
    let mut tree = item(node);
    let outputs = export(&mut tree, "src", false);
    assert_eq!(outputs, vec![output(Some("src/Empty"), vec![])]);
}

#[test]
fn a_folder_with_attributes_gets_a_descriptor() {
    let mut node = instance("Tagged", "Folder");
    node.attributes = some(vec![("Level".to_string(), DataType::Integer(3))]);
    let mut tree = item(node);
    let outputs = export(&mut tree, "src", false);
    assert_eq!(
        outputs,
        vec![output(
            None,
            vec![descriptor_file(
                "src/Tagged.vie",
                mapping(vec![
                    ("name", text("Tagged")),
                    ("class", text("Folder")),
                    ("attributes", mapping(vec![("Level", Value::Integer(3))])),
                ])
            )]
        )]
    );
}

#[test]
fn a_folder_with_properties_gets_a_descriptor() {
    let mut node = instance("Named", "Folder");
    node.properties = some(vec![]);
    node.children = Some(vec![]);
    let mut tree = item(node);
    let outputs = export(&mut tree, "src", false);
    assert_eq!(
        outputs,
        vec![output(
            Some("src/Named"),
            vec![descriptor_file(
                "src/Named/+instance.vie",
                mapping(vec![
                    ("name", text("Named")),
                    ("class", text("Folder")),
                    ("properties", Value::Mapping(vec![])),
                ])
            )]
        )]
    );
}

#[test]
fn any_other_node_gets_a_descriptor() {
    let mut node = instance("Brick", "Part");
    node.properties = some(vec![
        ("Size".to_string(), DataType::Vector3([1, 2, 3])),
        ("Anchored".to_string(), DataType::Boolean(true)),
        ("Source".to_string(), DataType::String("kept".into())),
        ("Parent".to_string(), DataType::Instance),
    ]);
    let mut tree = item(node);
    let outputs = export(&mut tree, "src", false);
    assert_eq!(
        outputs,
        vec![output(
            None,
            vec![descriptor_file(
                "src/Brick.vie",
                mapping(vec![
                    ("name", text("Brick")),
                    ("class", text("Part")),
                    (
                        "properties",
                        mapping(vec![
                            ("Anchored", Value::Bool(true)),
                            (
                                "Size",
                                Value::Tagged(
                                    "Vector3".into(),
                                    Box::new(mapping(vec![
                                        ("x", Value::Double(1)),
                                        ("y", Value::Double(2)),
                                        ("z", Value::Double(3)),
                                    ]))
                                )
                            ),
                            ("Source", text("kept")),
                        ])
                    ),
                ])
            )]
        )]
    );
    assert_eq!(file_path(&tree), None);
    let PluginExportItem::Instance(after) = &tree else { panic!("not an instance") };
    assert_eq!(after.properties.as_ref().unwrap().len(), 4);
}

#[test]
fn a_reference_leaf_is_a_descriptor_of_the_asset() {
    let mut tree = PluginExportItem::ModelReference {
        name: "Rig".to_string(),
        class: "Model".to_string(),
        asset_id: 123,
    };
    let outputs = export(&mut tree, "src", false);
    assert_eq!(
        outputs,
        vec![output(
            None,
            vec![descriptor_file(
                "src/Rig.reference.vie",
                mapping(vec![("kind", text("model")), ("asset_id", Value::Integer(123))])
            )]
        )]
    );
    assert_eq!(
        tree,
        PluginExportItem::ModelReference {
            name: "Rig".to_string(),
            class: "Model".to_string(),
            asset_id: 123
        }
    );
}

#[test]
fn a_reference_root_is_the_reference_file() {
    let mut tree = PluginExportItem::ModelReference {
        name: "Rig".to_string(),
        class: "Model".to_string(),
        asset_id: u64::MAX,
    };
    let outputs = export(&mut tree, "src", true);
    assert_eq!(
        outputs,
        vec![output(
            None,
            vec![descriptor_file(
                "src/+reference.vie",
                mapping(vec![
                    ("kind", text("model")),
                    ("asset_id", Value::Integer(u64::MAX as i128)),
                ])
            )]
        )]
    );
}

fn sample_tree() -> PluginExportItem {
    let mut shared = instance("Shared", "Folder");
    shared.children = Some(vec![
        item(script("Util", "ModuleScript", "return 1", None)),
        PluginExportItem::ModelReference {
            name: "Rig".to_string(),
            class: "Model".to_string(),
            asset_id: 7,
        },
    ]);
    let mut server = script("Server", "Script", "print('hi')", Some("Server"));
    server.children = Some(vec![item(script("Gui", "LocalScript", "gui()", None))]);
    let mut root = instance("Game", "DataModel");
    root.children = Some(vec![item(shared), item(server), item(instance("Loose", "Folder"))]);
    item(root)
}

#[test]
fn a_tree_is_exported_node_by_node() {
    let mut tree = sample_tree();
    assert_eq!(tree.total_instance_count(), 7);
    let outputs = export(&mut tree, "src", true);
    assert_eq!(
        outputs,
        vec![
            output(
                None,
                vec![descriptor_file(
                    "src/+instance.vie",
                    mapping(vec![("name", text("Game")), ("class", text("DataModel"))])
                )]
            ),
            output(Some("src/Shared"), vec![]),
            output(None, vec![source_file("src/Shared/Util.luau", "return 1")]),
            output(
                None,
                vec![descriptor_file(
                    "src/Shared/Rig.reference.vie",
                    mapping(vec![("kind", text("model")), ("asset_id", Value::Integer(7))])
                )]
            ),
            output(
                Some("src/Server"),
                vec![source_file("src/Server/+instance.server.luau", "print('hi')")]
            ),
            output(None, vec![source_file("src/Server/Gui.client.luau", "gui()")]),
            output(None, vec![]),
        ]
    );
    assert_eq!(outputs.len() as u64, tree.total_instance_count());
    let PluginExportItem::Instance(root) = &tree else { panic!("not an instance") };
    assert_eq!(root.file_path, None);
    let children = root.children.as_ref().unwrap();
    assert_eq!(file_path(&children[0]), None);
    assert_eq!(file_path(&children[1]), Some("src/Server/+instance.server.luau"));
    let PluginExportItem::Instance(server) = &children[1] else { panic!("not an instance") };
    assert_eq!(server.properties, None);
    assert_eq!(
        file_path(&server.children.as_ref().unwrap()[0]),
        Some("src/Server/Gui.client.luau")
    );
    let PluginExportItem::Instance(shared) = &children[0] else { panic!("not an instance") };
    assert_eq!(file_path(&shared.children.as_ref().unwrap()[0]), Some("src/Shared/Util.luau"));
}

#[test]
fn exporting_twice_plans_the_same() {
    let mut first = sample_tree();
    let mut second = sample_tree();
    assert_eq!(export(&mut first, "src", true), export(&mut second, "src", true));
    assert_eq!(first, second);
}

#[test]
fn the_plan_is_appended_to_what_was_planned() {
    let mut outputs = vec![output(Some("kept"), vec![])];
    let mut tree = item(script("Util", "ModuleScript", "m", None));
    write_plugin_item(&mut tree, "", false, &mut outputs).unwrap();
    assert_eq!(
        outputs,
        vec![output(Some("kept"), vec![]), output(None, vec![source_file("Util.luau", "m")])]
    );
}

#[test]
fn a_script_without_source_is_refused() {
    let mut node = script("Main", "ModuleScript", "", None);
    node.source = None;
    let mut tree = item(node);
    let mut outputs = Vec::new();
    assert_eq!(
        write_plugin_item(&mut tree, "src", false, &mut outputs),
        Err(ExportError::MissingSource { node: "src/Main".to_string() })
    );
    assert!(outputs.is_empty());
}

#[test]
fn the_run_context_is_asked_for_before_the_source() {
    let mut node = script("Main", "Script", "", None);
    node.source = None;
    assert_eq!(
        find_export_error(&item(node), "src", true),
        Some(ExportError::MissingRunContext { node: "src/Main".to_string() })
    );
}

#[test]
fn a_tree_with_a_fault_is_left_as_it_was() {
    let mut broken = script("Broken", "LocalScript", "", None);
    broken.source = None;
    let mut folder = instance("Deep", "Folder");
    folder.children = Some(vec![item(script("Ok", "ModuleScript", "fine", None)), item(broken)]);
    let mut root = script("Root", "Script", "r", Some("Server"));
    root.children = Some(vec![item(folder)]);
    let mut tree = item(root);
    let mut outputs = vec![output(None, vec![])];
    assert_eq!(
        write_plugin_item(&mut tree, "src", true, &mut outputs),
        Err(ExportError::MissingSource { node: "src/Deep/Broken".to_string() })
    );
    assert_eq!(outputs, vec![output(None, vec![])]);
    let PluginExportItem::Instance(after) = &tree else { panic!("not an instance") };
    assert_eq!(after.file_path, None);
    assert!(after.properties.is_some());
}

#[test]
fn the_first_fault_in_the_order_of_the_visit_is_reported() {
    let mut first = script("First", "ModuleScript", "", None);
    first.source = None;
    let mut second = script("Second", "ModuleScript", "", None);
    second.source = None;
    let mut inner = instance("Inner", "Folder");
    inner.children = Some(vec![item(first)]);
    let mut root = instance("Root", "Folder");
    root.children = Some(vec![item(inner), item(second)]);
    assert_eq!(
        find_export_error(&item(root), "src", false),
        Some(ExportError::MissingSource { node: "src/Root/Inner/First".to_string() })
    );
}

#[test]
fn a_sound_tree_has_no_fault() {
    assert_eq!(find_export_error(&sample_tree(), "src", true), None);
}

#[test]
fn nodes_are_counted() {
    assert_eq!(item(instance("a", "Folder")).total_instance_count(), 1);
    let mut node = instance("a", "Folder");
    node.children = Some(vec![]);
    assert_eq!(node.total_instance_count(), 1);
    let reference =
        PluginExportItem::ModelReference { name: "r".into(), class: "Model".into(), asset_id: 1 };
    assert_eq!(reference.total_instance_count(), 1);
    let PluginExportItem::Instance(root) = sample_tree() else { panic!("not an instance") };
    assert_eq!(root.total_instance_count(), 7);
}
