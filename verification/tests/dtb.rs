use miru_dt::dtb::{load, parse_dtb, FDT_BEGIN_NODE, FDT_END, FDT_END_NODE, FDT_MAGIC, FDT_NOP, FDT_PROP};

struct Builder {
    struct_block: Vec<u8>,
    strings: Vec<u8>,
}

impl Builder {
    fn new() -> Self {
        Self {
            struct_block: Vec::new(),
            strings: Vec::new(),
        }
    }

    fn u32(&mut self, v: u32) {
        self.struct_block.extend_from_slice(&v.to_be_bytes());
    }

    fn pad(&mut self) {
        while self.struct_block.len() % 4 != 0 {
            self.struct_block.push(0);
        }
    }

    fn begin_node(&mut self, name: &str) {
        self.u32(FDT_BEGIN_NODE);
        self.struct_block.extend_from_slice(name.as_bytes());
        self.struct_block.push(0);
        self.pad();
    }

    fn end_node(&mut self) {
        self.u32(FDT_END_NODE);
    }

    fn prop(&mut self, name: &str, value: &[u8]) {
        let nameoff = self.strings.len() as u32;
        self.strings.extend_from_slice(name.as_bytes());
        self.strings.push(0);
        self.u32(FDT_PROP);
        self.u32(value.len() as u32);
        self.u32(nameoff);
        self.struct_block.extend_from_slice(value);
        self.pad();
    }

    fn finish(mut self) -> Vec<u8> {
        self.u32(FDT_END);
        let header_len = 40usize;
        let off_struct = header_len;
        let off_strings = off_struct + self.struct_block.len();
        let total = off_strings + self.strings.len();
        let mut out = Vec::new();
        for v in [
            FDT_MAGIC,
            total as u32,
            off_struct as u32,
            off_strings as u32,
            0,
            17,
            16,
            0,
            self.strings.len() as u32,
            self.struct_block.len() as u32,
        ] {
            out.extend_from_slice(&v.to_be_bytes());
        }
        out.extend_from_slice(&self.struct_block);
        out.extend_from_slice(&self.strings);
        out
    }
}

#[test]
fn parses_minimal_blob() {
    let mut b = Builder::new();
    b.begin_node("");
    b.prop("compatible", b"test,root\0");
    b.begin_node("uart@10000000");
    b.prop("status", b"okay\0");
    b.prop("reg", &[0x10, 0x00, 0x00, 0x00]);
    b.end_node();
    b.end_node();
    let blob = b.finish();

    let root = parse_dtb(&blob).unwrap();
    assert_eq!(root.name, "/");
    assert_eq!(root.properties[0].name, "compatible");
    assert_eq!(root.properties[0].value, "\"test,root\"");
    assert!(root.properties[0].provenance.is_none());
    let uart = &root.children[0];
    assert_eq!(uart.name, "uart@10000000");
    assert_eq!(uart.properties[0].value, "\"okay\"");
    assert_eq!(uart.properties[1].value, "<0x10000000>");
}

#[test]
fn rejects_bad_magic() {
    assert!(parse_dtb(&[0u8; 64]).unwrap_err().contains("bad magic"));
}

#[test]
fn bad_magic_message_shows_the_word() {
    assert_eq!(
        parse_dtb(&[0x12, 0x34, 0x56, 0x78]).unwrap_err(),
        "not a device tree blob (bad magic 0x12345678)"
    );
}

#[test]
fn short_blob_is_truncated() {
    assert_eq!(parse_dtb(&[0xd0, 0x0d]).unwrap_err(), "truncated blob at offset 0");
}

#[test]
fn nop_tokens_and_nested_nodes() {
    let mut b = Builder::new();
    b.begin_node("");
    b.u32(FDT_NOP);
    b.begin_node("a");
    b.begin_node("b");
    b.prop("wakeup-source", &[]);
    b.end_node();
    b.end_node();
    b.end_node();
    let root = parse_dtb(&b.finish()).unwrap();
    assert_eq!(root.children[0].name, "a");
    assert_eq!(root.children[0].children[0].name, "b");
    assert_eq!(root.children[0].children[0].properties[0].value, "");
}

#[test]
fn end_without_root_is_an_error() {
    let b = Builder::new();
    assert_eq!(parse_dtb(&b.finish()).unwrap_err(), "blob ends without a root node");
}

#[test]
fn unbalanced_end_node_is_an_error() {
    let mut b = Builder::new();
    b.end_node();
    assert_eq!(parse_dtb(&b.finish()).unwrap_err(), "unbalanced FDT_END_NODE");
}

#[test]
fn property_outside_node_is_an_error() {
    let mut b = Builder::new();
    b.prop("x", &[1]);
    assert_eq!(parse_dtb(&b.finish()).unwrap_err(), "property outside of any node");
}

#[test]
fn unknown_token_is_reported_with_offset() {
    let mut b = Builder::new();
    b.u32(7);
    assert_eq!(
        parse_dtb(&b.finish()).unwrap_err(),
        "unknown FDT token 0x00000007 at offset 40"
    );
}

#[test]
fn load_wraps_the_tree_and_read_errors() {
    let mut b = Builder::new();
    b.begin_node("");
    b.end_node();
    let r = load("board.dtb", Ok(b.finish())).unwrap();
    assert_eq!(r.kind, "dtb");
    assert_eq!(r.source, "board.dtb");
    assert!(r.include_graph.is_none());
    assert_eq!(
        load("x.dtb", Err("No such file or directory (os error 2)".to_string())).unwrap_err(),
        "cannot read x.dtb: No such file or directory (os error 2)"
    );
}

#[test]
fn blob_references_are_resolved_through_phandles() {
    let mut b = Builder::new();
    b.begin_node("");
    b.begin_node("clk");
    b.prop("phandle", &[0, 0, 0, 5]);
    b.prop("#clock-cells", &[0, 0, 0, 1]);
    b.end_node();
    b.begin_node("uart");
    b.prop("clocks", &[0, 0, 0, 5, 0, 0, 0, 3]);
    b.prop("interrupt-parent", &[0, 0, 0, 5]);
    b.end_node();
    b.end_node();
    let root = parse_dtb(&b.finish()).unwrap();
    let uart = &root.children[1];
    assert_eq!(uart.properties[0].value, "<&{/clk} 0x3>");
    assert_eq!(uart.properties[1].value, "<&{/clk}>");
}

#[test]
fn blob_references_use_symbols_labels() {
    let mut b = Builder::new();
    b.begin_node("");
    b.begin_node("intc");
    b.prop("phandle", &[0, 0, 0, 1]);
    b.end_node();
    b.begin_node("dev");
    b.prop("interrupt-parent", &[0, 0, 0, 1]);
    b.end_node();
    b.begin_node("__symbols__");
    b.prop("gic", b"/intc\0");
    b.end_node();
    b.end_node();
    let root = parse_dtb(&b.finish()).unwrap();
    assert_eq!(root.children[1].properties[0].value, "<&gic>");
}

#[test]
fn magic_alone_is_truncated_at_the_struct_offset() {
    assert_eq!(parse_dtb(&[0xd0, 0x0d, 0xfe, 0xed]).unwrap_err(), "truncated blob at offset 8");
}
