use miru_dt::dts::{parse_dts_file, set_prop, DtsOutcome};
use miru_dt::dts_lex::{FileAnswer, OpenedFile};
use miru_dt::model::{DtNode, DtProperty, LoadResult, SourceLoc};

/// `p` with `.` and `..` segments resolved, as an absolute path.
fn normalize(p: &str) -> String {
    let mut parts: Vec<&str> = Vec::new();
    for seg in p.split('/') {
        match seg {
            "" | "." => {}
            ".." => {
                parts.pop();
            }
            s => parts.push(s),
        }
    }
    format!("/{}", parts.join("/"))
}

fn parent(p: &str) -> String {
    match p.rfind('/') {
        Some(0) => "/".to_string(),
        Some(i) => p[..i].to_string(),
        None => ".".to_string(),
    }
}

/// What an in-memory file system holding `fs` says about `p`.
fn answer(fs: &[(&str, &str)], p: &str) -> FileAnswer {
    let canon = normalize(p);
    match fs.iter().find(|(q, _)| *q == canon) {
        Some((_, content)) => FileAnswer {
            path: p.to_string(),
            is_file: true,
            opened: Ok(OpenedFile {
                canon: canon.clone(),
                dir: parent(&canon),
                text: Ok(content.as_bytes().to_vec()),
            }),
        },
        None => FileAnswer {
            path: p.to_string(),
            is_file: false,
            opened: Err("No such file or directory (os error 2)".to_string()),
        },
    }
}

/// Parses `main` against the in-memory files, answering every path the
/// parser asks about.
fn parse_in(fs: &[(&str, &str)], main: &str, include_dirs: &[String]) -> Result<LoadResult, String> {
    let mut answers: Vec<FileAnswer> = Vec::new();
    loop {
        match parse_dts_file(main, include_dirs, &answers) {
            DtsOutcome::NeedFile(p) => answers.push(answer(fs, &p)),
            DtsOutcome::Done(r) => return r,
        }
    }
}

fn parse_str(content: &str) -> LoadResult {
    parse_in(&[("/t/test.dts", content)], "/t/test.dts", &[]).unwrap()
}

fn prop<'a>(node: &'a DtNode, name: &str) -> &'a DtProperty {
    node.properties
        .iter()
        .find(|p| p.name == name)
        .unwrap_or_else(|| panic!("no prop {name}"))
}

fn child<'a>(node: &'a DtNode, name: &str) -> &'a DtNode {
    node.children
        .iter()
        .find(|c| c.name == name)
        .unwrap_or_else(|| panic!("no child {name}"))
}

#[test]
fn basic_tree_and_values() {
    let r = parse_str(&[
        "/dts-v1/;\n",
        "/ {\n",
        "    compatible = \"acme,board\", \"acme,soc\";\n",
        "    #address-cells = <1>;\n",
        "    interrupt-parent = <&intc>;\n",
        "    wakeup-source;\n",
        "    mac = [00 11 22 33 44 55];\n",
        "    cpu@0 {\n",
        "        device_type = \"cpu\";\n",
        "    };\n",
        "};\n",
    ].concat());
    let root = &r.tree;
    assert_eq!(prop(root, "compatible").value, "\"acme,board\", \"acme,soc\"");
    assert_eq!(prop(root, "#address-cells").value, "<1>");
    assert_eq!(prop(root, "interrupt-parent").value, "<&intc>");
    assert_eq!(prop(root, "wakeup-source").value, "");
    assert_eq!(prop(root, "mac").value, "[00 11 22 33 44 55]");
    let cpu = child(root, "cpu@0");
    assert_eq!(prop(cpu, "device_type").value, "\"cpu\"");
    assert_eq!(cpu.provenance.as_ref().unwrap().defined.line, 8);
    assert!(r.warnings.is_empty(), "unexpected warnings: {:?}", r.warnings);
}

#[test]
fn multiline_value() {
    let r = parse_str("/dts-v1/;\n/ {\n compatible = \"a,b\",\n \"c,d\";\n};\n");
    assert_eq!(prop(&r.tree, "compatible").value, "\"a,b\", \"c,d\"");
}

#[test]
fn include_provenance_and_graph() {
    let soc = [
        "/ {\n",
        "    soc {\n",
        "        uart0: serial@10000000 {\n",
        "            compatible = \"ns16550a\";\n",
        "            status = \"disabled\";\n",
        "        };\n",
        "    };\n",
        "};\n",
    ].concat();
    let board = [
        "/dts-v1/;\n",
        "/include/ \"soc.dtsi\"\n",
        "&uart0 {\n",
        "    status = \"okay\";\n",
        "    current-speed = <115200>;\n",
        "};\n",
    ].concat();
    let r = parse_in(&[("/t/soc.dtsi", soc.as_str()), ("/t/board.dts", board.as_str())], "/t/board.dts", &[]).unwrap();
    assert!(r.warnings.is_empty(), "unexpected warnings: {:?}", r.warnings);

    let g = r.include_graph.as_ref().unwrap();
    assert_eq!(g.edges.len(), 1);
    assert!(g.edges[0].from.ends_with("board.dts"));
    assert!(g.edges[0].to.ends_with("soc.dtsi"));
    assert_eq!(g.edges[0].line, 2);
    assert_eq!(g.edges[0].directive, "/include/");
    assert_eq!(g.files.len(), 2);

    let uart = child(child(&r.tree, "soc"), "serial@10000000");
    assert_eq!(uart.labels, vec!["uart0"]);
    let nprov = uart.provenance.as_ref().unwrap();
    assert!(nprov.defined.file.ends_with("soc.dtsi"));
    assert_eq!(nprov.defined.line, 3);
    assert_eq!(nprov.modified.len(), 1);
    assert!(nprov.modified[0].file.ends_with("board.dts"));
    assert_eq!(nprov.modified[0].line, 3);

    let status = prop(uart, "status");
    assert_eq!(status.value, "\"okay\"");
    let sprov = status.provenance.as_ref().unwrap();
    assert!(sprov.defined.file.ends_with("soc.dtsi"));
    assert_eq!(sprov.defined.line, 5);
    assert_eq!(sprov.modified.len(), 1);
    assert!(sprov.modified[0].file.ends_with("board.dts"));
    assert_eq!(sprov.modified[0].line, 4);

    let speed = prop(uart, "current-speed");
    assert_eq!(speed.value, "<115200>");
    assert!(speed.provenance.as_ref().unwrap().modified.is_empty());
}

#[test]
fn cpp_include_macros_and_guard() {
    let gpio = [
        "#ifndef _DT_BINDINGS_GPIO_H\n",
        "#define _DT_BINDINGS_GPIO_H\n",
        "#define GPIO_ACTIVE_HIGH 0\n",
        "#define GPIO_ACTIVE_LOW 1\n",
        "#define MK_FLAGS(x) (x + 1)\n",
        "#endif\n",
    ].concat();
    let board = [
        "/dts-v1/;\n",
        "#include <dt-bindings/gpio/gpio.h>\n",
        "#include <dt-bindings/gpio/gpio.h>\n",
        "/ {\n",
        "    leds {\n",
        "        led0 {\n",
        "            gpios = <&gpio0 5 GPIO_ACTIVE_LOW>;\n",
        "            flags = <MK_FLAGS(2)>;\n",
        "        };\n",
        "    };\n",
        "};\n",
    ].concat();
    let fs = [("/t/include/dt-bindings/gpio/gpio.h", gpio.as_str()), ("/t/board.dts", board.as_str())];
    let r = parse_in(&fs, "/t/board.dts", &["/t/include".to_string()]).unwrap();
    assert!(r.warnings.is_empty(), "unexpected warnings: {:?}", r.warnings);
    let led = child(child(&r.tree, "leds"), "led0");
    assert_eq!(prop(led, "gpios").value, "<&gpio0 5 1>");
    assert_eq!(prop(led, "flags").value, "<(2 + 1)>");
    // Both #include directives are edges; the file is lexed twice but the
    // guard makes the second pass a no-op.
    assert_eq!(r.include_graph.as_ref().unwrap().edges.len(), 2);
    assert_eq!(r.include_graph.as_ref().unwrap().files.len(), 2);
}

#[test]
fn overrides_and_deletes() {
    let r = parse_str(&[
        "/dts-v1/;\n",
        "/ {\n",
        "    node-a {\n",
        "        keep = <1>;\n",
        "        drop-me = \"x\";\n",
        "    };\n",
        "    node-b {\n",
        "    };\n",
        "};\n",
        "/ {\n",
        "    node-a {\n",
        "        /delete-property/ drop-me;\n",
        "        keep = <2>;\n",
        "    };\n",
        "    /delete-node/ node-b;\n",
        "};\n",
    ].concat());
    assert!(r.warnings.is_empty(), "unexpected warnings: {:?}", r.warnings);
    let root = &r.tree;
    let rp = root.provenance.as_ref().unwrap();
    assert_eq!(rp.defined.line, 2);
    assert_eq!(rp.modified.len(), 1);
    assert_eq!(rp.modified[0].line, 10);

    let a = child(root, "node-a");
    let keep = prop(a, "keep");
    assert_eq!(keep.value, "<2>");
    assert_eq!(keep.provenance.as_ref().unwrap().defined.line, 4);
    assert_eq!(keep.provenance.as_ref().unwrap().modified[0].line, 13);

    let dropped = prop(a, "drop-me");
    assert!(dropped.deleted);
    assert_eq!(dropped.provenance.as_ref().unwrap().modified[0].line, 12);

    let b = child(root, "node-b");
    assert!(b.deleted);
    assert_eq!(b.provenance.as_ref().unwrap().modified[0].line, 15);
}

#[test]
fn unresolved_ref_warns_and_skips() {
    let r = parse_str("/dts-v1/;\n/ { };\n&nosuch {\n foo = <1>;\n};\n");
    assert!(r.tree.children.is_empty());
    assert!(r.warnings.iter().any(|w| w.contains("unresolved reference &nosuch")));
}

#[test]
fn path_reference() {
    let r = parse_str(&[
        "/dts-v1/;\n",
        "/ { soc { uart@0 { status = \"disabled\"; }; }; };\n",
        "&{/soc/uart@0} { status = \"okay\"; };\n",
    ].concat());
    assert!(r.warnings.is_empty(), "unexpected warnings: {:?}", r.warnings);
    let uart = child(child(&r.tree, "soc"), "uart@0");
    assert_eq!(prop(uart, "status").value, "\"okay\"");
    assert_eq!(prop(uart, "status").provenance.as_ref().unwrap().modified.len(), 1);
}

#[test]
fn ifdef_conditionals() {
    let r = parse_str(&[
        "/dts-v1/;\n",
        "#define WANT_B 1\n",
        "/ {\n",
        "#ifdef WANT_A\n",
        "    a = <1>;\n",
        "#endif\n",
        "#if WANT_B && !defined(WANT_A)\n",
        "    b = <1>;\n",
        "#else\n",
        "    c = <1>;\n",
        "#endif\n",
        "};\n",
    ].concat());
    assert!(r.warnings.is_empty(), "unexpected warnings: {:?}", r.warnings);
    assert!(r.tree.properties.iter().all(|p| p.name != "a"));
    assert!(r.tree.properties.iter().any(|p| p.name == "b"));
    assert!(r.tree.properties.iter().all(|p| p.name != "c"));
}

#[test]
fn include_cycle_is_warned() {
    let fs = [
        ("/t/a.dtsi", "/include/ \"b.dtsi\"\n/ { };\n"),
        ("/t/b.dtsi", "/include/ \"a.dtsi\"\n"),
    ];
    let r = parse_in(&fs, "/t/a.dtsi", &[]).unwrap();
    assert!(r.warnings.iter().any(|w| w.contains("include cycle")));
    assert_eq!(r.include_graph.as_ref().unwrap().edges.len(), 2);
}

// The demo tree: a board file pulling in its SoC, a gpio binding header and
// a clock header that the SoC include also uses.
fn demo_clock_h() -> String {
    [
        "#ifndef _DT_BINDINGS_CLOCK_DEMO_H\n",
        "#define _DT_BINDINGS_CLOCK_DEMO_H\n",
        "#define CLK_UART0 0\n",
        "#define CLK_WDT 1\n",
        "#endif\n",
    ]
    .concat()
}

fn demo_gpio_h() -> String {
    [
        "#ifndef _DT_BINDINGS_GPIO_GPIO_H\n",
        "#define _DT_BINDINGS_GPIO_GPIO_H\n",
        "#define GPIO_ACTIVE_HIGH 0\n",
        "#define GPIO_ACTIVE_LOW 1\n",
        "#endif\n",
    ]
    .concat()
}

fn demo_soc() -> String {
    [
        "#include <dt-bindings/clock/demo-clock.h>\n",
        "/ {\n",
        "    #address-cells = <1>;\n",
        "    #size-cells = <1>;\n",
        "    clk: clock-controller@10020000 {\n",
        "        #clock-cells = <1>;\n",
        "    };\n",
        "    soc {\n",
        "        gpio0: gpio@10060000 {\n",
        "            gpio-controller;\n",
        "            #gpio-cells = <2>;\n",
        "        };\n",
        "        uart0: serial@10000000 {\n",
        "            compatible = \"ns16550a\";\n",
        "            clocks = <&clk CLK_UART0>;\n",
        "            status = \"disabled\";\n",
        "        };\n",
        "        wdt: watchdog@10070000 {\n",
        "            clocks = <&clk CLK_WDT>;\n",
        "        };\n",
        "    };\n",
        "};\n",
    ]
    .concat()
}

fn demo_board() -> String {
    [
        "/dts-v1/;\n",
        "#include \"soc.dtsi\"\n",
        "#include <dt-bindings/gpio/gpio.h>\n",
        "#include <dt-bindings/clock/demo-clock.h>\n",
        "/ {\n",
        "    model = \"Demo board\";\n",
        "    aliases {\n",
        "        serial0 = &uart0;\n",
        "    };\n",
        "    leds {\n",
        "        led-status {\n",
        "            gpios = <&gpio0 5 GPIO_ACTIVE_HIGH>;\n",
        "        };\n",
        "    };\n",
        "};\n",
        "&uart0 {\n",
        "    status = \"okay\";\n",
        "};\n",
        "/delete-node/ &wdt;\n",
    ]
    .concat()
}

#[test]
fn parses_the_bundled_examples() {
    let (board, soc, gpio, clock) = (demo_board(), demo_soc(), demo_gpio_h(), demo_clock_h());
    let fs = [
        ("/examples/board.dts", board.as_str()),
        ("/examples/soc.dtsi", soc.as_str()),
        ("/examples/include/dt-bindings/gpio/gpio.h", gpio.as_str()),
        ("/examples/include/dt-bindings/clock/demo-clock.h", clock.as_str()),
    ];
    let include_dir = "/examples/include".to_string();
    let r = parse_in(&fs, "/examples/board.dts", &[include_dir]).unwrap();
    assert!(r.warnings.is_empty(), "unexpected warnings: {:?}", r.warnings);

    let graph = r.include_graph.as_ref().unwrap();
    assert_eq!(graph.edges.len(), 4, "three includes in board.dts plus one in soc.dtsi");
    assert_eq!(graph.files.len(), 4);
    assert!(graph.edges.iter().all(|e| e.directive == "#include"));
    // The clock header is a shared include: pulled in by both soc.dtsi and
    // board.dts (a diamond in the dependency graph).
    let clock_users: Vec<&str> = graph
        .edges
        .iter()
        .filter(|e| e.to.ends_with("demo-clock.h"))
        .map(|e| e.from.rsplit('/').next().unwrap())
        .collect();
    assert_eq!(clock_users.len(), 2);
    assert!(clock_users.contains(&"soc.dtsi") && clock_users.contains(&"board.dts"));

    // uart0: defined disabled by the SoC include, enabled by the board.
    let soc = child(&r.tree, "soc");
    let uart = child(soc, "serial@10000000");
    assert_eq!(uart.labels, vec!["uart0"]);
    let status = prop(uart, "status");
    assert_eq!(status.value, "\"okay\"");
    let sp = status.provenance.as_ref().unwrap();
    assert!(sp.defined.file.ends_with("soc.dtsi"));
    assert_eq!(sp.modified.len(), 1);
    assert!(sp.modified[0].file.ends_with("board.dts"));

    // Macro from the dt-bindings header is expanded in the property value.
    let led = child(child(&r.tree, "leds"), "led-status");
    assert_eq!(prop(led, "gpios").value, "<&gpio0 5 0>");

    // The watchdog is deleted by the board but stays visible as deleted.
    let wdt = child(soc, "watchdog@10070000");
    assert!(wdt.deleted);
    assert!(wdt.provenance.as_ref().unwrap().modified[0].file.ends_with("board.dts"));

    // Reference-valued property.
    assert_eq!(prop(child(&r.tree, "aliases"), "serial0").value, "&uart0");
}

#[test]
fn unanswered_main_file_is_asked_for() {
    match parse_dts_file("/t/x.dts", &[], &[]) {
        DtsOutcome::NeedFile(p) => assert_eq!(p, "/t/x.dts"),
        DtsOutcome::Done(_) => panic!("expected a request for the main file"),
    }
}

#[test]
fn missing_main_file_is_an_error() {
    let r = parse_in(&[], "/t/x.dts", &[]);
    assert_eq!(r.unwrap_err(), "cannot open /t/x.dts: No such file or directory (os error 2)");
}

#[test]
fn unreadable_main_file_is_an_error() {
    let answers = vec![FileAnswer {
        path: "/t/x.dts".to_string(),
        is_file: true,
        opened: Ok(OpenedFile {
            canon: "/t/x.dts".to_string(),
            dir: "/t".to_string(),
            text: Err("Permission denied (os error 13)".to_string()),
        }),
    }];
    match parse_dts_file("/t/x.dts", &[], &answers) {
        DtsOutcome::Done(Err(e)) => assert_eq!(e, "cannot read /t/x.dts: Permission denied (os error 13)"),
        _ => panic!("expected a read error"),
    }
}

#[test]
fn missing_include_is_warned() {
    let r = parse_str("/dts-v1/;\n/include/ \"nope.dtsi\"\n/ { };\n");
    assert_eq!(r.warnings.len(), 1);
    assert!(r.warnings[0].starts_with("/t/test.dts:2: "), "{:?}", r.warnings);
}

#[test]
fn parse_errors_name_the_token() {
    let r = parse_in(&[("/t/e.dts", "/dts-v1/;\n/ {\n  foo = <1>\n};\n")], "/t/e.dts", &[]);
    assert_eq!(r.unwrap_err(), "/t/e.dts:4: unexpected brace in property value (found `}`)");
    let r = parse_in(&[("/t/e.dts", "/dts-v1/;\n/ {\n  foo\n")], "/t/e.dts", &[]);
    assert_eq!(r.unwrap_err(), "unexpected end of node body (at end of input)");
    let r = parse_in(&[("/t/e.dts", "/dts-v1/;\n/ { foo ] };\n")], "/t/e.dts", &[]);
    assert_eq!(r.unwrap_err(), "/t/e.dts:2: expected `{`, `=` or `;` after `foo` (found `]`)");
    let r = parse_in(&[("/t/e.dts", "/dts-v1/\n")], "/t/e.dts", &[]);
    assert_eq!(r.unwrap_err(), "expected `;` (at end of input)");
    let r = parse_in(&[("/t/e.dts", "/dts-v1/;\n/bogus/;\n")], "/t/e.dts", &[]);
    assert_eq!(r.unwrap_err(), "/t/e.dts:2: unexpected keyword at top level (found `bogus`)");
}

#[test]
fn missing_delete_targets_are_warned() {
    let r = parse_str(&[
        "/dts-v1/;\n",
        "/ {\n",
        "    /delete-node/ ghost;\n",
        "    /delete-property/ phantom;\n",
        "};\n",
        "/delete-node/ &nolabel;\n",
    ].concat());
    assert_eq!(
        r.warnings,
        vec![
            "/t/test.dts:3: /delete-node/ ghost: no such node in /".to_string(),
            "/t/test.dts:4: /delete-property/ phantom: no such property in /".to_string(),
            "/t/test.dts:6: /delete-node/ target &nolabel not found".to_string(),
        ]
    );
}

#[test]
fn labels_on_a_property_are_ignored_with_a_warning() {
    let r = parse_str("/dts-v1/;\n/ {\n    lbl: prop = <1>;\n};\n");
    assert_eq!(r.warnings, vec!["/t/test.dts:3: labels on property prop ignored".to_string()]);
    assert_eq!(prop(&r.tree, "prop").value, "<1>");
}

#[test]
fn redefining_a_deleted_node_brings_it_back() {
    let r = parse_str(&[
        "/dts-v1/;\n",
        "/ { n { a = <1>; }; };\n",
        "/ { /delete-node/ n; };\n",
        "/ { n { b = <2>; }; };\n",
    ].concat());
    let n = child(&r.tree, "n");
    assert!(!n.deleted);
    let p = n.provenance.as_ref().unwrap();
    assert_eq!(p.defined.line, 2);
    let lines: Vec<u32> = p.modified.iter().map(|l| l.line).collect();
    assert_eq!(lines, vec![3, 4]);
    assert_eq!(n.properties.len(), 2);
}

#[test]
fn labels_at_top_level_name_the_root() {
    let r = parse_str("/dts-v1/;\nrootlbl: / { };\n&rootlbl { x; };\n");
    assert_eq!(r.tree.labels, vec!["rootlbl"]);
    assert_eq!(prop(&r.tree, "x").value, "");
    assert!(r.warnings.is_empty(), "unexpected warnings: {:?}", r.warnings);
}

#[test]
fn slash_keywords_in_values_keep_their_slashes() {
    let r = parse_str("/dts-v1/;\n/ { v = /bits/ 8 <1 2>; };\n");
    assert_eq!(prop(&r.tree, "v").value, "/bits/ 8 <1 2>");
}

#[test]
fn the_latest_label_assignment_wins() {
    let r = parse_str("/dts-v1/;\n/ { a: n1 { }; a: n2 { }; };\n&a { x; };\n");
    assert!(child(&r.tree, "n1").properties.is_empty());
    assert_eq!(prop(child(&r.tree, "n2"), "x").value, "");
    assert!(r.warnings.is_empty(), "unexpected warnings: {:?}", r.warnings);
}

#[test]
fn setting_a_property_twice_keeps_its_definition() {
    let mut n = DtNode::new("n");
    set_prop(&mut n, &"p".to_string(), "<1>".to_string(), SourceLoc::new("a.dts", 3));
    set_prop(&mut n, &"p".to_string(), "<2>".to_string(), SourceLoc::new("b.dts", 7));
    assert_eq!(n.properties.len(), 1);
    let p = &n.properties[0];
    assert_eq!(p.value, "<2>");
    let prov = p.provenance.as_ref().unwrap();
    assert_eq!(prov.defined, SourceLoc::new("a.dts", 3));
    assert_eq!(prov.modified, vec![SourceLoc::new("b.dts", 7)]);
}

#[test]
fn literals_numbers_and_comments_lex_as_written() {
    let r = parse_str(concat_lines(&[
        "/dts-v1/;",
        "/ {",
        "    s = \"a\\\"b\", 'c'; /* spans",
        "       two lines */ n = <0x1Fu 42UL>; // trailing",
        "    r = <&{/x}>;",
        "};",
    ]).as_str());
    assert_eq!(prop(&r.tree, "s").value, "\"a\\\"b\", 'c'");
    assert_eq!(prop(&r.tree, "n").value, "<0x1Fu 42UL>");
    assert_eq!(prop(&r.tree, "r").value, "<&{/x}>");
    assert!(r.warnings.is_empty(), "unexpected warnings: {:?}", r.warnings);
}

#[test]
fn unterminated_literals_are_warned_and_closed() {
    let r = parse_in(&[("/t/u.dts", "/dts-v1/;\n/ { s = \"abc;\n};\n")], "/t/u.dts", &[]);
    // The string swallows the `;`, so the value is unterminated.
    assert!(r.is_err());
    let r = parse_str("/dts-v1/;\n/ { r = <&{/x>;\n q = 1;\n};\n");
    assert_eq!(prop(&r.tree, "r").value, "<&{/x>; q = 1");
    assert_eq!(r.warnings, vec!["/t/test.dts:2: unterminated &{...} reference".to_string()]);
}

fn concat_lines(lines: &[&str]) -> String {
    let mut s = String::new();
    for l in lines {
        s.push_str(l);
        s.push('\n');
    }
    s
}

#[test]
fn function_macros_substitute_whole_words() {
    let r = parse_str(concat_lines(&[
        "/dts-v1/;",
        "#define PAIR(a, b) <a b \"a\">",
        "#define ONE 1",
        "/ { v = PAIR(ONE, (2 + 3)); w = PAIR(7); };",
    ]).as_str());
    assert_eq!(prop(&r.tree, "v").value, "<1 (2 + 3) \"a\">");
    assert_eq!(prop(&r.tree, "w").value, "<7 \"a\">");
}

#[test]
fn unclosed_macro_arguments_are_warned() {
    let r = parse_str("/dts-v1/;\n#define F(x) x\n/ { v = F(1;\n x); };\n");
    assert_eq!(r.warnings, vec!["/t/test.dts:3: unclosed arguments for macro F".to_string()]);
    assert_eq!(prop(&r.tree, "v").value, "F(1; x)");
}

#[test]
fn conditionals_with_elif_and_undef() {
    let r = parse_str(concat_lines(&[
        "/dts-v1/;",
        "#define LEVEL 2",
        "/ {",
        "#if LEVEL == 1",
        "    one;",
        "#elif LEVEL == 2",
        "    two;",
        "#else",
        "    other;",
        "#endif",
        "#undef LEVEL",
        "#ifndef LEVEL",
        "    gone;",
        "#endif",
        "};",
    ]).as_str());
    let names: Vec<&str> = r.tree.properties.iter().map(|p| p.name.as_str()).collect();
    assert_eq!(names, vec!["two", "gone"]);
    assert!(r.warnings.is_empty(), "unexpected warnings: {:?}", r.warnings);
}

#[test]
fn an_include_in_the_middle_of_a_line_is_inlined_in_place() {
    let main = "/dts-v1/;\n/ { a = <1>; }; /include/ \"x.dtsi\" / { c = <3>; };\n";
    let x = "/ { b = <2>; };\n";
    let r = parse_in(&[("/t/m.dts", main), ("/t/x.dtsi", x)], "/t/m.dts", &[]).unwrap();
    assert!(r.warnings.is_empty(), "unexpected warnings: {:?}", r.warnings);
    let names: Vec<&str> = r.tree.properties.iter().map(|p| p.name.as_str()).collect();
    assert_eq!(names, vec!["a", "b", "c"]);
    let b = prop(&r.tree, "b").provenance.as_ref().unwrap();
    assert_eq!(b.defined.file, "/t/x.dtsi");
    assert_eq!(b.defined.line, 1);
    let c = prop(&r.tree, "c").provenance.as_ref().unwrap();
    assert_eq!(c.defined.file, "/t/m.dts");
    assert_eq!(c.defined.line, 2);
    let g = r.include_graph.as_ref().unwrap();
    assert_eq!(g.edges.len(), 1);
    assert_eq!(g.edges[0].line, 2);
    assert_eq!(g.edges[0].directive, "/include/");
}

#[test]
fn an_include_without_a_quoted_name_is_warned() {
    let r = parse_str("/dts-v1/;\n/include/\n/ { };\n");
    assert_eq!(r.warnings, vec!["/t/test.dts:2: malformed /include/ directive".to_string()]);
}

fn all_sourced(n: &DtNode) -> bool {
    n.properties.iter().all(|p| p.provenance.is_some())
        && n.children.iter().all(|c| c.provenance.is_some() && all_sourced(c))
}

#[test]
fn every_node_and_property_records_its_definition() {
    let soc = "/ { soc { uart: serial { status = \"disabled\"; }; }; };\n";
    let board = "/dts-v1/;\n#include \"soc.dtsi\"\n/include/ \"soc.dtsi\"\n&uart { status = \"okay\"; /delete-property/ status; };\n";
    let r = parse_in(&[("/t/soc.dtsi", soc), ("/t/board.dts", board)], "/t/board.dts", &[]).unwrap();
    assert!(all_sourced(&r.tree));
    let g = r.include_graph.as_ref().unwrap();
    assert_eq!(g.edges.len(), 2);
    assert_eq!(g.edges[0].directive, "#include");
    assert_eq!(g.edges[1].directive, "/include/");
}

#[test]
fn stray_conditional_directives_are_warned() {
    let r = parse_str("/dts-v1/;\n#else\n#elif 1\n#endif\n/ { };\n");
    assert_eq!(
        r.warnings,
        vec![
            "/t/test.dts:2: #else without #if".to_string(),
            "/t/test.dts:3: #elif without #if".to_string(),
            "/t/test.dts:4: #endif without #if".to_string(),
        ]
    );
}

#[test]
fn directives_in_inactive_regions_have_no_effect() {
    let r = parse_str(
        "/dts-v1/;\n#if 0\n#define A 1\n#include \"nope.h\"\n#error stop\n#warning w\n#endif\n#ifdef A\n/ { a; };\n#else\n/ { b; };\n#endif\n",
    );
    assert!(r.warnings.is_empty(), "{:?}", r.warnings);
    assert_eq!(r.tree.properties.len(), 1);
    assert_eq!(r.tree.properties[0].name, "b");
}

#[test]
fn only_the_first_true_branch_of_a_chain_is_taken() {
    let r = parse_str("/dts-v1/;\n#if 0\n/ { a; };\n#elif 1\n/ { b; };\n#elif 1\n/ { c; };\n#else\n/ { d; };\n#endif\n");
    let names: Vec<&str> = r.tree.properties.iter().map(|p| p.name.as_str()).collect();
    assert_eq!(names, vec!["b"]);
}
