use vie::compatibility::rojo::RojoSourcemapInstance;
use std::path::PathBuf;

use vie::config::{resolve_root, CompatibilityConfig, Config};
use vie::export::{
    write_plugin_item, ExportError, FileBody, FileWrite, PluginExportItem, PluginInstance,
};
use vie::plan::plan_export;
use vie::value::Value;

fn instance(name: &str, class: &str) -> PluginInstance {
    PluginInstance {
        name: name.to_string(),
        class: class.to_string(),
        source: None,
        children: None,
        properties: None,
        attributes: None,
        file_path: None,
    }
}

fn module(name: &str, source: &str) -> PluginInstance {
    let mut node = instance(name, "ModuleScript");
    node.source = Some(source.to_string());
    node
}

fn item(node: PluginInstance) -> PluginExportItem {
    PluginExportItem::Instance(node)
}

fn text(s: &str) -> Value {
    Value::Text(s.to_string())
}

fn mapping(entries: Vec<(&str, Value)>) -> Value {
    Value::Mapping(entries.into_iter().map(|(k, v)| (text(k), v)).collect())
}

fn tree() -> PluginExportItem {
    let mut lib = instance("Lib", "Folder");
    lib.children = Some(vec![
        item(module("A", "a")),
        item(instance("Readme", "StringValue")),
        PluginExportItem::ModelReference { name: "Rig".into(), class: "Model".into(), asset_id: 9 },
    ]);
    let mut root = instance("Game", "DataModel");
    root.children = Some(vec![item(lib), item(module("B", "b")), item(instance("Bin", "Folder"))]);
    item(root)
}

fn expected_document() -> Value {
    mapping(vec![
        ("name", text("Game")),
        ("className", text("DataModel")),
        (
            "children",
            Value::Sequence(vec![
                mapping(vec![
                    ("name", text("Lib")),
                    ("className", text("Folder")),
                    (
                        "children",
                        Value::Sequence(vec![
                            mapping(vec![
                                ("name", text("A")),
                                ("className", text("ModuleScript")),
                                ("filePaths", Value::Sequence(vec![text("src/Lib/A.luau")])),
                            ]),
                            mapping(vec![
                                ("name", text("Readme")),
                                ("className", text("StringValue")),
                            ]),
                            mapping(vec![("name", text("Rig")), ("className", text("Model"))]),
                        ]),
                    ),
                ]),
                mapping(vec![
                    ("name", text("B")),
                    ("className", text("ModuleScript")),
                    ("filePaths", Value::Sequence(vec![text("src/B.luau")])),
                ]),
                mapping(vec![("name", text("Bin")), ("className", text("Folder"))]),
            ]),
        ),
    ])
}

#[test]
fn the_sourcemap_pictures_the_exported_tree() {
    let mut exported = tree();
    let mut outputs = Vec::new();
    write_plugin_item(&mut exported, "src", true, &mut outputs).unwrap();
    let map = RojoSourcemapInstance::from(&exported).unwrap();
    assert_eq!(map.name, "Game");
    assert_eq!(map.class, "DataModel");
    assert_eq!(map.paths, None);
    let children = map.children.as_ref().unwrap();
    assert_eq!(children.len(), 3);
    assert_eq!(children[1].paths, Some(vec!["src/B.luau".to_string()]));
    assert_eq!(children[1].children, None);
    assert_eq!(children[2].paths, None);
    assert_eq!(children[2].children, None);
    let lib = children[0].children.as_ref().unwrap();
    assert_eq!(lib.len(), 3);
    assert_eq!(lib[0].paths, Some(vec!["src/Lib/A.luau".to_string()]));
    assert_eq!(
        lib[2],
        RojoSourcemapInstance {
            name: "Rig".to_string(),
            class: "Model".to_string(),
            paths: None,
            children: None
        }
    );
}

#[test]
fn file_paths_show_on_the_scripts_alone() {
    let mut exported = tree();
    let mut outputs = Vec::new();
    write_plugin_item(&mut exported, "src", true, &mut outputs).unwrap();
    let document = RojoSourcemapInstance::from(&exported).unwrap().to_document();
    assert_eq!(document, expected_document());
}

#[test]
fn a_tree_that_was_not_exported_has_no_file_paths() {
    let map = RojoSourcemapInstance::from(&tree()).unwrap();
    let children = map.children.as_ref().unwrap();
    assert_eq!(children[1].paths, None);
    assert_eq!(
        children[1].to_document(),
        mapping(vec![("name", text("B")), ("className", text("ModuleScript"))])
    );
}

#[test]
fn an_empty_container_lists_no_children() {
    let mut node = instance("Empty", "Folder");
    node.children = Some(vec![]);
    let map = RojoSourcemapInstance::from(&item(node)).unwrap();
    assert_eq!(map.children, Some(vec![]));
    assert_eq!(
        map.to_document(),
        mapping(vec![
            ("name", text("Empty")),
            ("className", text("Folder")),
            ("children", Value::Sequence(vec![])),
        ])
    );
}

#[test]
fn defaults_ask_for_nothing() {
    let config = Config::default();
    assert_eq!(config.root_path, None);
    assert!(!config.compatibility.rojo_sourcemap);
    assert!(!CompatibilityConfig::default().rojo_sourcemap);
}

#[test]
fn a_request_without_a_tree_is_refused() {
    let mut data = Vec::new();
    assert_eq!(plan_export(&mut data, &Config::default()), Err(ExportError::EmptyPayload));
}

#[test]
fn a_request_is_planned_under_src() {
    let mut data = vec![tree(), item(module("Ignored", "x"))];
    let plan = plan_export(&mut data, &Config::default()).unwrap();
    assert_eq!(plan.cleared, "src");
    assert_eq!(plan.sourcemap, None);
    assert_eq!(plan.nodes.len(), 7);
    assert_eq!(
        plan.nodes[0].files[0].path,
        "src/+instance.vie",
    );
    assert_eq!(plan.nodes[1].directory, Some("src/Lib".to_string()));
    let mut again = tree();
    let mut outputs = Vec::new();
    write_plugin_item(&mut again, "src", true, &mut outputs).unwrap();
    assert_eq!(plan.nodes, outputs);
    assert_eq!(data[0], again);
    assert_eq!(data[1], item(module("Ignored", "x")));
}

#[test]
fn the_sourcemap_is_planned_when_asked_for() {
    let config = Config {
        root_path: None,
        compatibility: CompatibilityConfig { rojo_sourcemap: true },
    };
    let mut data = vec![tree()];
    let plan = plan_export(&mut data, &config).unwrap();
    assert_eq!(
        plan.sourcemap,
        Some(FileWrite {
            path: "sourcemap.json".to_string(),
            body: FileBody::Sourcemap(expected_document())
        })
    );
}

#[test]
fn a_request_with_a_faulty_tree_is_left_as_it_was() {
    let mut broken = module("Broken", "");
    broken.source = None;
    let mut data = vec![item(broken)];
    assert_eq!(
        plan_export(&mut data, &Config::default()),
        Err(ExportError::MissingSource { node: "src/Broken".to_string() })
    );
    let PluginExportItem::Instance(after) = &data[0] else { panic!("not an instance") };
    assert_eq!(after.file_path, None);
}

#[test]
fn the_root_is_resolved_against_the_working_directory() {
    let working = PathBuf::from("/work/place");
    assert_eq!(resolve_root(None, working.clone()), working);
    assert_eq!(
        resolve_root(Some(PathBuf::from("game")), working.clone()),
        PathBuf::from("/work/place/game")
    );
    assert_eq!(
        resolve_root(Some(PathBuf::from("a/b")), working.clone()),
        PathBuf::from("/work/place/a/b")
    );
    assert_eq!(
        resolve_root(Some(PathBuf::from("/elsewhere")), working),
        PathBuf::from("/elsewhere")
    );
}
