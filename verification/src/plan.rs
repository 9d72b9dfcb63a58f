//! One export request, from the tree that came in to everything that is to
//! be put on disk for it.
use vstd::prelude::*;
use crate::compatibility::rojo::{projected, sourcemap_document, RojoSourcemapInstance};
use crate::config::Config;
use crate::export::{
    export_error, export_outputs, exported, outputs_view, write_plugin_item, ExportError,
    ExportErrorView, FileBody, FileBodyView, FileWrite, FileWriteView, ItemView, NodeOutput,
    NodeOutputView, PluginExportItem,
};

verus! {

/// What an export puts on disk, all paths relative to the export root.
#[derive(Debug, PartialEq, Eq)]
pub struct ExportPlan {
    /// The directory that holds the exported tree. It is removed with all
    /// that is in it before anything is written.
    pub cleared: String,
    /// What each node writes, in the order the nodes are visited.
    pub nodes: Vec<NodeOutput>,
    /// The sourcemap, where one is asked for.
    pub sourcemap: Option<FileWrite>,
}

/// The mathematical model of an [`ExportPlan`].
pub struct ExportPlanView {
    pub cleared: Seq<char>,
    pub nodes: Seq<NodeOutputView>,
    pub sourcemap: Option<FileWriteView>,
}

impl View for ExportPlan {
    type V = ExportPlanView;

    open spec fn view(&self) -> ExportPlanView {
        ExportPlanView {
            cleared: self.cleared@,
            nodes: outputs_view(self.nodes@),
            sourcemap: match self.sourcemap {
                Some(file) => Some(file@),
                None => None,
            },
        }
    }
}

/// The directory, under the export root, that holds the exported tree.
pub open spec fn tree_directory() -> Seq<char> {
    "src"@
}

/// The plan for a tree that can be exported: the tree goes under `src` as
/// the root of the layout; the sourcemap, if asked for, pictures the tree as
/// the export leaves it and goes to `sourcemap.json`.
pub open spec fn planned(root: ItemView, with_sourcemap: bool) -> ExportPlanView {
    ExportPlanView {
        cleared: tree_directory(),
        nodes: export_outputs(root, tree_directory(), true),
        sourcemap: if with_sourcemap {
            Some(
                FileWriteView {
                    path: "sourcemap.json"@,
                    body: FileBodyView::Sourcemap(
                        sourcemap_document(projected(exported(root, tree_directory(), true))),
                    ),
                },
            )
        } else {
            None
        },
    }
}

/// Why a request cannot be served, if it cannot: it holds no tree, or its
/// first tree, the only one exported, cannot be exported.
pub open spec fn request_error(data: Seq<PluginExportItem>) -> Option<ExportErrorView> {
    if data.len() == 0 {
        Some(ExportErrorView::EmptyPayload)
    } else {
        export_error(data[0]@, tree_directory(), true)
    }
}

/// Plans the export of a request: the first tree of `data` is exported as
/// the root of the layout, and pictured in a sourcemap if the options ask
/// for one. The tree is left as the export leaves it.
///
/// A request that cannot be served is rejected as a whole and left as it
/// was.
pub fn plan_export(data: &mut Vec<PluginExportItem>, config: &Config) -> (r: Result<
    ExportPlan,
    ExportError,
>)
    ensures
        match r {
            Ok(plan) => {
                &&& request_error(old(data)@) is None
                &&& plan@ == planned(old(data)@[0]@, config.compatibility.rojo_sourcemap)
                &&& final(data)@.len() == old(data)@.len()
                &&& final(data)@[0]@ == exported(old(data)@[0]@, tree_directory(), true)
                &&& forall|i: int| 1 <= i < old(data)@.len() ==> final(data)@[i] == old(data)@[i]
            },
            Err(e) => request_error(old(data)@) == Some(e@) && final(data)@ == old(data)@,
        },
{
    if data.len() == 0 {
        return Err(ExportError::EmptyPayload);
    }
    let mut nodes: Vec<NodeOutput> = Vec::new();
    assert(outputs_view(nodes@) =~= Seq::empty());
    let ghost before = data@;
    match write_plugin_item(&mut data[0], "src", true, &mut nodes) {
        Err(e) => {
            assert(data@ =~= before);
            Err(e)
        },
        Ok(()) => {
            assert(outputs_view(nodes@) =~= export_outputs(before[0]@, tree_directory(), true));
            let sourcemap = if config.compatibility.rojo_sourcemap {
                match RojoSourcemapInstance::from(&data[0]) {
                    Some(node) => Some(
                        FileWrite {
                            path: String::from_str("sourcemap.json"),
                            body: FileBody::Sourcemap(node.to_document()),
                        },
                    ),
                    None => None,
                }
            } else {
                None
            };
            Ok(ExportPlan { cleared: String::from_str("src"), nodes, sourcemap })
        },
    }
}

} // verus!
