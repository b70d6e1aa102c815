use miru_dt::model::DtNode;
use miru_dt::phandle::{into_model, RawNode};

fn u32be(v: u32) -> Vec<u8> {
    v.to_be_bytes().to_vec()
}

fn demo_tree() -> RawNode {
    RawNode {
        name: "/".into(),
        properties: vec![],
        children: vec![
            RawNode {
                name: "clk".into(),
                properties: vec![
                    ("phandle".into(), u32be(5)),
                    ("#clock-cells".into(), u32be(1)),
                ],
                children: vec![],
            },
            RawNode {
                name: "sram".into(),
                properties: vec![("phandle".into(), u32be(6))],
                children: vec![],
            },
            RawNode {
                name: "uart".into(),
                properties: vec![
                    ("clocks".into(), [u32be(5), u32be(3)].concat()),
                    ("memory-region".into(), u32be(6)),
                    ("reg".into(), u32be(0x1000)),
                ],
                children: vec![],
            },
        ],
    }
}

fn prop_value(node: &DtNode, child: &str, name: &str) -> String {
    node.children
        .iter()
        .find(|c| c.name == child)
        .unwrap()
        .properties
        .iter()
        .find(|p| p.name == name)
        .unwrap()
        .value
        .clone()
}

#[test]
fn decodes_phandle_with_args_and_single() {
    let tree = into_model(&demo_tree());
    assert_eq!(prop_value(&tree, "uart", "clocks"), "<&{/clk} 0x3>");
    assert_eq!(prop_value(&tree, "uart", "memory-region"), "<&{/sram}>");
    // Non-reference properties keep the plain rendering.
    assert_eq!(prop_value(&tree, "uart", "reg"), "<0x00001000>");
}

#[test]
fn uses_symbols_labels_when_present() {
    let mut raw = demo_tree();
    raw.children.push(RawNode {
        name: "__symbols__".into(),
        properties: vec![("clk0".into(), b"/clk\0".to_vec())],
        children: vec![],
    });
    let tree = into_model(&raw);
    assert_eq!(prop_value(&tree, "uart", "clocks"), "<&clk0 0x3>");
}

#[test]
fn unknown_phandle_falls_back_to_raw() {
    let mut raw = demo_tree();
    raw.children[2].properties[0] = ("clocks".into(), [u32be(99), u32be(3)].concat());
    let tree = into_model(&raw);
    assert_eq!(
        prop_value(&tree, "uart", "clocks"),
        "<0x00000063 0x00000003>"
    );
}

#[test]
fn missing_cells_property_falls_back_to_raw() {
    let mut raw = demo_tree();
    raw.children[0]
        .properties
        .retain(|(n, _)| n != "#clock-cells");
    let tree = into_model(&raw);
    assert_eq!(
        prop_value(&tree, "uart", "clocks"),
        "<0x00000005 0x00000003>"
    );
}

#[test]
fn truncated_args_fall_back_to_raw() {
    let mut raw = demo_tree();
    // phandle expects one arg cell, but the list ends after the phandle
    raw.children[2].properties[0] = ("clocks".into(), u32be(5));
    let tree = into_model(&raw);
    assert_eq!(prop_value(&tree, "uart", "clocks"), "<0x00000005>");
}

#[test]
fn several_groups_and_nested_paths() {
    let raw = RawNode {
        name: "/".into(),
        properties: vec![],
        children: vec![
            RawNode {
                name: "soc".into(),
                properties: vec![],
                children: vec![RawNode {
                    name: "gpio@0".into(),
                    properties: vec![
                        ("linux,phandle".into(), u32be(7)),
                        ("#gpio-cells".into(), u32be(2)),
                    ],
                    children: vec![],
                }],
            },
            RawNode {
                name: "leds".into(),
                properties: vec![
                    (
                        "enable-gpios".into(),
                        [u32be(7), u32be(10), u32be(0), u32be(7), u32be(11), u32be(1)].concat(),
                    ),
                    ("vcc-supply".into(), u32be(7)),
                ],
                children: vec![],
            },
        ],
    };
    let tree = into_model(&raw);
    assert_eq!(
        prop_value(&tree, "leds", "enable-gpios"),
        "<&{/soc/gpio@0} 0xa 0x0>, <&{/soc/gpio@0} 0xb 0x1>"
    );
    assert_eq!(prop_value(&tree, "leds", "vcc-supply"), "<&{/soc/gpio@0}>");
}
