//! The sourcemap: a reduced picture of an exported tree, in the shape that
//! Rojo's tooling reads.
use vstd::prelude::*;
use crate::data::{entry, field};
use crate::export::{ItemView, PluginExportItem, PluginInstance};
use crate::import::{entry_value, lemma_entry_value_absent, lemma_entry_value_at};
use crate::value::{pairs_view, values_view, Value, ValueView};

verus! {

/// One node of the sourcemap.
#[derive(Debug, PartialEq, Eq)]
pub struct RojoSourcemapInstance {
    pub name: String,
    pub class: String,
    /// The path of the node's code file, for the nodes that have one.
    pub paths: Option<Vec<String>>,
    pub children: Option<Vec<RojoSourcemapInstance>>,
}

/// The mathematical model of a [`RojoSourcemapInstance`].
pub struct SourcemapView {
    pub name: Seq<char>,
    pub class: Seq<char>,
    pub paths: Option<Seq<Seq<char>>>,
    pub children: Option<Seq<SourcemapView>>,
}

/// The models of a list of texts.
pub open spec fn texts_view(texts: Seq<String>) -> Seq<Seq<char>> {
    Seq::new(texts.len(), |i: int| texts[i]@)
}

/// The models of a list of sourcemap nodes.
pub open spec fn nodes_view(nodes: Seq<RojoSourcemapInstance>) -> Seq<SourcemapView> {
    Seq::new(nodes.len(), |i: int| nodes[i]@)
}

/// The sourcemap node of a tree node: its name and class, the path of its
/// code file if the export recorded one, and its children likewise. A model
/// reference has neither paths nor children.
pub open spec fn projected(item: ItemView) -> SourcemapView
    decreases item,
{
    match item {
        ItemView::Instance(instance) => SourcemapView {
            name: instance.name,
            class: instance.class,
            paths: match instance.file_path {
                Some(path) => Some(seq![path]),
                None => None,
            },
            children: match instance.children {
                Some(children) => Some(
                    Seq::new(
                        children.len(),
                        |i: int|
                            if 0 <= i < children.len() {
                                projected(children[i])
                            } else {
                                SourcemapView {
                                    name: Seq::empty(),
                                    class: Seq::empty(),
                                    paths: None,
                                    children: None,
                                }
                            },
                    ),
                ),
                None => None,
            },
        },
        ItemView::ModelReference { name, class, .. } => SourcemapView {
            name,
            class,
            paths: None,
            children: None,
        },
    }
}

/// The texts of a list as document values.
pub open spec fn text_values(list: Seq<Seq<char>>) -> Seq<ValueView> {
    Seq::new(list.len(), |i: int| ValueView::Text(list[i]))
}

/// The entry of the document that lists the paths, where there are any.
pub open spec fn paths_field(paths: Option<Seq<Seq<char>>>) -> Seq<(ValueView, ValueView)> {
    match paths {
        Some(list) => seq![field("filePaths"@, ValueView::Sequence(text_values(list)))],
        None => Seq::empty(),
    }
}

/// The documents of a list of sourcemap nodes.
pub open spec fn child_documents(children: Seq<SourcemapView>) -> Seq<ValueView>
    decreases children,
{
    Seq::new(
        children.len(),
        |i: int|
            if 0 <= i < children.len() {
                sourcemap_document(children[i])
            } else {
                ValueView::Null
            },
    )
}

/// The entry of the document that lists the children, where there is a
/// list.
pub open spec fn children_field(children: Option<Seq<SourcemapView>>) -> Seq<
    (ValueView, ValueView),
>
    decreases children,
{
    match children {
        Some(list) => seq![field("children"@, ValueView::Sequence(child_documents(list)))],
        None => Seq::empty(),
    }
}

/// The document of a sourcemap node: `name` and `className`, then
/// `filePaths` and `children`, each left out where the node has none.
pub open spec fn sourcemap_document(node: SourcemapView) -> ValueView
    decreases node,
{
    ValueView::Mapping(
        seq![
            field("name"@, ValueView::Text(node.name)),
            field("className"@, ValueView::Text(node.class)),
        ] + paths_field(node.paths) + children_field(node.children),
    )
}

/// The shape of the sourcemap: every node's document names it and its
/// class; it lists file paths exactly where the export recorded the path of
/// a code file, and children exactly where the node is a container.
pub proof fn lemma_sourcemap_shape(item: ItemView)
    ensures
        ({
            let node = projected(item);
            let entries = sourcemap_document(node)->Mapping_0;
            &&& sourcemap_document(node) is Mapping
            &&& entry_value(entries, "name"@) == Some(ValueView::Text(node.name))
            &&& entry_value(entries, "className"@) == Some(ValueView::Text(node.class))
            &&& entry_value(entries, "filePaths"@) == match item {
                ItemView::Instance(instance) => match instance.file_path {
                    Some(path) => Some(ValueView::Sequence(seq![ValueView::Text(path)])),
                    None => None,
                },
                ItemView::ModelReference { .. } => None,
            }
            &&& entry_value(entries, "children"@) == match node.children {
                Some(children) => Some(ValueView::Sequence(child_documents(children))),
                None => None,
            }
            &&& node.children is Some <==> (item matches ItemView::Instance(instance)
                && instance.children is Some)
        }),
{
    reveal_strlit("name");
    reveal_strlit("className");
    reveal_strlit("filePaths");
    reveal_strlit("children");
    assert("name"@.len() == 4 && "className"@.len() == 9 && "filePaths"@.len() == 9
        && "children"@.len() == 8);
    assert("className"@[0] == 'c' && "filePaths"@[0] == 'f');
    let node = projected(item);
    let entries = sourcemap_document(node)->Mapping_0;
    assert(entries[0] == field("name"@, ValueView::Text(node.name)));
    assert(entries[1] == field("className"@, ValueView::Text(node.class)));
    lemma_entry_value_at(entries, "name"@, 0);
    lemma_entry_value_at(entries, "className"@, 1);
    match node.paths {
        Some(list) => {
            assert(text_values(list) =~= seq![ValueView::Text(list[0])]);
            assert(entries[2] == paths_field(node.paths)[0]);
            lemma_entry_value_at(entries, "filePaths"@, 2);
            match node.children {
                Some(children) => {
                    assert(entries[3] == children_field(node.children)[0]);
                    lemma_entry_value_at(entries, "children"@, 3);
                },
                None => {
                    lemma_entry_value_absent(entries, "children"@);
                },
            }
        },
        None => {
            lemma_entry_value_absent(entries, "filePaths"@);
            match node.children {
                Some(children) => {
                    assert(entries[2] == children_field(node.children)[0]);
                    lemma_entry_value_at(entries, "children"@, 2);
                },
                None => {
                    lemma_entry_value_absent(entries, "children"@);
                },
            }
        },
    }
}

impl RojoSourcemapInstance {
    pub open spec fn model(self) -> SourcemapView
        decreases self,
    {
        SourcemapView {
            name: self.name@,
            class: self.class@,
            paths: match self.paths {
                Some(list) => Some(texts_view(list@)),
                None => None,
            },
            children: match self.children {
                Some(children) => Some(
                    Seq::new(
                        children@.len(),
                        |i: int|
                            if 0 <= i < children@.len() {
                                children@[i].model()
                            } else {
                                SourcemapView {
                                    name: Seq::empty(),
                                    class: Seq::empty(),
                                    paths: None,
                                    children: None,
                                }
                            },
                    ),
                ),
                None => None,
            },
        }
    }

    /// The children are modelled one by one.
    pub proof fn lemma_children_view(self)
        ensures
            self.children matches Some(children) ==> self@.children == Some(nodes_view(children@)),
            self.children is None ==> self@.children is None,
    {
        if let Some(children) = self.children {
            assert(self.model().children->0 =~= nodes_view(children@));
        }
    }

    /// The sourcemap node of an instance of the tree.
    fn from_instance(instance: &PluginInstance) -> (r: Self)
        ensures
            r@ == projected(ItemView::Instance(instance@)),
        decreases instance,
    {
        let paths = match &instance.file_path {
            Some(path) => {
                let list = vec![path.clone()];
                assert(texts_view(list@) =~= seq![path@]);
                Some(list)
            },
            None => None,
        };
        proof {
            instance.lemma_children_view();
        }
        let children = match &instance.children {
            Some(items) => {
                let mut nodes: Vec<RojoSourcemapInstance> = Vec::new();
                let mut i: usize = 0;
                while i < items.len()
                    invariant
                        i <= items.len(),
                        instance.children is Some,
                        items@ == instance.children->0@,
                        nodes.len() == i,
                        forall|j: int| 0 <= j < i ==> nodes@[j]@ == projected(items@[j]@),
                    decreases items.len() - i,
                {
                    match Self::from(&items[i]) {
                        Some(node) => nodes.push(node),
                        None => {},
                    }
                    i += 1;
                }
                assert(nodes_view(nodes@) =~= projected(
                    ItemView::Instance(instance@),
                ).children->0);
                Some(nodes)
            },
            None => None,
        };
        let r = RojoSourcemapInstance {
            name: instance.name.clone(),
            class: instance.class.clone(),
            paths,
            children,
        };
        proof {
            r.lemma_children_view();
        }
        r
    }

    /// The sourcemap node of a node of the tree. There is one for every
    /// node.
    pub fn from(item: &PluginExportItem) -> (r: Option<Self>)
        ensures
            r matches Some(node) && node@ == projected(item@),
        decreases item,
    {
        match item {
            PluginExportItem::Instance(instance) => Some(Self::from_instance(instance)),
            PluginExportItem::ModelReference { name, class, asset_id: _ } => {
                let node = RojoSourcemapInstance {
                    name: name.clone(),
                    class: class.clone(),
                    paths: None,
                    children: None,
                };
                Some(node)
            },
        }
    }

    /// The document of the sourcemap.
    pub fn to_document(&self) -> (r: Value)
        ensures
            r@ == sourcemap_document(self@),
        decreases self,
    {
        let mut entries: Vec<(Value, Value)> = Vec::new();
        entries.push(entry("name", Value::text(self.name.as_str())));
        entries.push(entry("className", Value::text(self.class.as_str())));
        let ghost head = seq![
            field("name"@, ValueView::Text(self@.name)),
            field("className"@, ValueView::Text(self@.class)),
        ];
        assert(pairs_view(entries@) =~= head);
        match &self.paths {
            Some(list) => {
                let mut items: Vec<Value> = Vec::new();
                let mut i: usize = 0;
                while i < list.len()
                    invariant
                        i <= list.len(),
                        items.len() == i,
                        forall|j: int| 0 <= j < i ==> items@[j]@ == ValueView::Text(list@[j]@),
                    decreases list.len() - i,
                {
                    items.push(Value::text(list[i].as_str()));
                    i += 1;
                }
                let listed = Value::sequence(items);
                assert(values_view(items@) =~= text_values(texts_view(list@)));
                entries.push(entry("filePaths", listed));
            },
            None => {},
        }
        assert(pairs_view(entries@) =~= head + paths_field(self@.paths));
        proof {
            self.lemma_children_view();
        }
        match &self.children {
            Some(children) => {
                let mut items: Vec<Value> = Vec::new();
                let mut i: usize = 0;
                while i < children.len()
                    invariant
                        i <= children.len(),
                        self.children is Some,
                        children@ == self.children->0@,
                        items.len() == i,
                        forall|j: int|
                            0 <= j < i ==> items@[j]@ == sourcemap_document(children@[j]@),
                    decreases children.len() - i,
                {
                    items.push(children[i].to_document());
                    i += 1;
                }
                let listed = Value::sequence(items);
                assert(values_view(items@) =~= child_documents(nodes_view(children@)));
                entries.push(entry("children", listed));
            },
            None => {},
        }
        assert(pairs_view(entries@) =~= head + paths_field(self@.paths) + children_field(
            self@.children,
        ));
        Value::mapping(entries)
    }
}

impl View for RojoSourcemapInstance {
    type V = SourcemapView;

    open spec fn view(&self) -> SourcemapView {
        self.model()
    }
}

} // verus!
