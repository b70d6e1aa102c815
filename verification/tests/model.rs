use miru_dt::model::{DtNode, DtProperty, Provenance, SourceLoc};

fn tree() -> DtNode {
    let mut root = DtNode::new("/");
    let mut soc = DtNode::new("soc");
    soc.children.push(DtNode::new("serial@10000000"));
    soc.children.push(DtNode::new("serial@10000000"));
    root.children.push(soc);
    root.properties.push(DtProperty {
        name: "model".into(),
        value: "\"x\"".into(),
        deleted: false,
        provenance: None,
    });
    root
}

#[test]
fn path_lookup_descends_and_root_is_itself() {
    let mut root = tree();
    assert_eq!(root.node_at_path_mut("/").unwrap().name, "/");
    assert_eq!(root.node_at_path_mut("/soc/serial@10000000").unwrap().name, "serial@10000000");
    assert_eq!(root.node_at_path_mut("//soc//").unwrap().name, "soc");
    assert!(root.node_at_path_mut("/soc/nope").is_none());
}

#[test]
fn path_lookup_modifies_the_first_match() {
    let mut root = tree();
    root.node_at_path_mut("/soc/serial@10000000").unwrap().deleted = true;
    assert!(root.children[0].children[0].deleted);
    assert!(!root.children[0].children[1].deleted);
}

#[test]
fn child_and_property_lookup() {
    let mut root = tree();
    assert!(root.child_mut("soc").is_some());
    assert!(root.child_mut("cpus").is_none());
    root.property_mut("model").unwrap().deleted = true;
    assert!(root.properties[0].deleted);
    assert!(root.property_mut("status").is_none());
}

#[test]
fn provenance_records_touches_in_order() {
    let mut p = Provenance::new(SourceLoc::new("a.dts", 1));
    p.touch(SourceLoc::new("b.dts", 7));
    p.touch(SourceLoc::new("a.dts", 9));
    assert_eq!(p.defined, SourceLoc::new("a.dts", 1));
    assert_eq!(p.modified.len(), 2);
    assert_eq!(p.modified[1].to_string(), "a.dts:9");
}
