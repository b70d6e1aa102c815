use miru_dt::live::{load, LiveRead};
use miru_dt::phandle::RawNode;

#[test]
fn missing_dir_errors() {
    assert!(load("/nonexistent/device-tree", LiveRead::NotADirectory).is_err());
}

#[test]
fn reads_directory_tree() {
    let raw = RawNode {
        name: "/".into(),
        properties: vec![("compatible".into(), b"test,machine\0".to_vec())],
        children: vec![RawNode {
            name: "cpus".into(),
            properties: vec![],
            children: vec![RawNode {
                name: "cpu@0".into(),
                properties: vec![("reg".into(), vec![0, 0, 0, 0])],
                children: vec![],
            }],
        }],
    };
    let r = load("/tmp/dt", LiveRead::Tree { root: raw, warnings: vec![] }).unwrap();
    assert_eq!(r.kind, "live");
    assert_eq!(r.tree.name, "/");
    assert_eq!(r.tree.properties[0].name, "compatible");
    assert_eq!(r.tree.properties[0].value, "\"test,machine\"");
    let cpu = &r.tree.children[0].children[0];
    assert_eq!(cpu.name, "cpu@0");
    assert_eq!(cpu.properties[0].value, "<0x00000000>");
    assert!(cpu.provenance.is_none());
}

#[test]
fn unreadable_top_directory_passes_the_message_on() {
    let r = load("/x", LiveRead::Unreadable("cannot read /x: denied".to_string()));
    assert_eq!(r.unwrap_err(), "cannot read /x: denied");
}

#[test]
fn not_a_directory_message() {
    let r = load("/x", LiveRead::NotADirectory);
    assert_eq!(
        r.unwrap_err(),
        "/x is not a readable directory \u{2014} is this a Linux system with device tree support?"
    );
}
