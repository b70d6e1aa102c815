//! The live device tree exposed by the Linux kernel at /proc/device-tree
//! (a symlink to /sys/firmware/devicetree/base): directories are nodes,
//! files are properties. Phandle references are resolved back to node paths
//! by the phandle module.
use vstd::prelude::*;
use crate::model::LoadResult;
use crate::phandle::{into_model, built, collect_spec, empty_maps, RawNode};

verus! {

/// What reading the directory tree at the requested path gave.
pub enum LiveRead {
    /// The path is not a readable directory.
    NotADirectory,
    /// The top directory could not be listed; the message says why.
    Unreadable(String),
    /// The tree as read, with the entries that had to be skipped.
    Tree { root: RawNode, warnings: Vec<String> },
}

pub fn load(path: &str, read: LiveRead) -> (r: Result<LoadResult, String>)
    ensures
        read is NotADirectory ==> (r matches Err(m) && m@ == path@
            + " is not a readable directory \u{2014} is this a Linux system with device tree support?"@),
        read matches LiveRead::Unreadable(e) ==> (r matches Err(m) && m@ == e@),
        read matches LiveRead::Tree { root, warnings } ==> (r matches Ok(lr) && {
            &&& lr.source@ == path@
            &&& lr.kind@ == "live"@
            &&& built(root, lr.tree, collect_spec(root, "/"@, empty_maps()))
            &&& lr.include_graph is None
            &&& lr.warnings@ == warnings@
        }),
{
    match read {
        LiveRead::NotADirectory => {
            let mut m = String::from_str(path);
            m.append(" is not a readable directory \u{2014} is this a Linux system with device tree support?");
            Err(m)
        },
        LiveRead::Unreadable(e) => Err(e),
        LiveRead::Tree { root, warnings } => {
            let tree = into_model(&root);
            Ok(LoadResult {
                source: String::from_str(path),
                kind: String::from_str("live"),
                tree,
                include_graph: None,
                warnings,
            })
        },
    }
}

} // verus!
