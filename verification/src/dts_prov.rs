//! Provenance coverage of parsed source trees: every property, and every
//! node below the root, records where it was defined.
use vstd::prelude::*;
use crate::model::DtNode;
use crate::dts::{Shape, shape_of, prop_view, lemma_shape_children, with_label, with_labels, with_prop,
    without_prop, shape_touched, shape_deleted, without_child, shape_with_child, shape_at, shape_put,
    shape_pos, is_first_shape, prop_slot, is_first_slot, deleted_at, body_parse, block_parse, top_parse,
    labels_end, lemma_labels_end, name_end, lemma_name_end, joined_text, child_path_of, labels_at,
    label_entries, tok_loc, value_scan, lemma_value_scan_end, ref_end, ref_path,
    block_end, lemma_block_end, punct_from, lemma_punct_from};
use crate::dts_lex::{Tok, TokKind};
use crate::model::path_segments;

verus! {

/// Every property of `n`, and every node below it, carries provenance.
pub open spec fn sourced(n: DtNode) -> bool
    decreases n,
{
    &&& forall|i: int| 0 <= i < n.properties@.len() ==> (#[trigger] n.properties@[i]).provenance is Some
    &&& forall|i: int| 0 <= i < n.children@.len() ==>
        (#[trigger] n.children@[i]).provenance is Some && sourced(n.children@[i])
}

/// `sourced`, over shapes.
pub open spec fn shape_sourced(s: Shape) -> bool
    decreases s,
{
    &&& forall|i: int| 0 <= i < s.props.len() ==> (#[trigger] s.props[i]).3 is Some
    &&& forall|i: int| 0 <= i < s.children.len() ==>
        (#[trigger] s.children[i]).prov is Some && shape_sourced(s.children[i])
}

/// A node whose shape is sourced is sourced.
pub proof fn lemma_sourced_of_shape(n: DtNode)
    requires
        shape_sourced(shape_of(n)),
    ensures
        sourced(n),
    decreases n,
{
    lemma_shape_children(n);
    assert forall|i: int| 0 <= i < n.properties@.len() implies (#[trigger] n.properties@[i]).provenance is Some by {
        assert(shape_of(n).props[i] == prop_view(n.properties@[i]));
    }
    assert forall|i: int| 0 <= i < n.children@.len() implies
        (#[trigger] n.children@[i]).provenance is Some && sourced(n.children@[i]) by {
        assert(shape_of(n).children[i] == shape_of(n.children@[i]));
        assert(decreases_to!(n => n.children@[i]));
        lemma_sourced_of_shape(n.children@[i]);
    }
}

proof fn lemma_with_labels(s: Shape, ls: Seq<Seq<char>>)
    ensures
        with_labels(s, ls).props == s.props,
        with_labels(s, ls).children == s.children,
        with_labels(s, ls).prov == s.prov,
    decreases ls.len(),
{
    if ls.len() > 0 {
        lemma_with_labels(s, ls.drop_last());
    }
}

/// A sourced shape with child `i` replaced by a sourced shape that carries
/// provenance stays sourced.
proof fn lemma_child_replaced(s: Shape, i: int, c: Shape)
    requires
        shape_sourced(s),
        0 <= i < s.children.len(),
        shape_sourced(c),
        c.prov is Some,
    ensures
        shape_sourced(Shape { children: s.children.update(i, c), ..s }),
{
    let t = Shape { children: s.children.update(i, c), ..s };
    assert forall|j: int| 0 <= j < t.children.len() implies
        (#[trigger] t.children[j]).prov is Some && shape_sourced(t.children[j]) by {
        if j != i {
            assert(t.children[j] == s.children[j]);
        }
    }
}

proof fn lemma_with_prop(s: Shape, name: Seq<char>, value: Seq<char>, l: (Seq<char>, u32))
    requires
        shape_sourced(s),
    ensures
        shape_sourced(with_prop(s, name, value, l)),
        with_prop(s, name, value, l).prov == s.prov,
{
    let t = with_prop(s, name, value, l);
    match prop_slot(s.props, name) {
        Some(i) => {
            assert(is_first_slot(s.props, name, i));
        },
        None => {},
    }
    assert forall|j: int| 0 <= j < t.children.len() implies
        (#[trigger] t.children[j]).prov is Some && shape_sourced(t.children[j]) by {
        assert(t.children[j] == s.children[j]);
    }
}

proof fn lemma_without_prop(s: Shape, name: Seq<char>, l: (Seq<char>, u32))
    requires
        shape_sourced(s),
    ensures
        shape_sourced(without_prop(s, name, l)),
        without_prop(s, name, l).prov == s.prov,
{
    let t = without_prop(s, name, l);
    match prop_slot(s.props, name) {
        Some(i) => {
            assert(is_first_slot(s.props, name, i));
        },
        None => {},
    }
    assert forall|j: int| 0 <= j < t.children.len() implies
        (#[trigger] t.children[j]).prov is Some && shape_sourced(t.children[j]) by {
        assert(t.children[j] == s.children[j]);
    }
}

proof fn lemma_touched(s: Shape, l: (Seq<char>, u32))
    requires
        shape_sourced(s),
    ensures
        shape_sourced(shape_touched(s, l)),
        shape_sourced(shape_deleted(s, l)),
        shape_touched(s, l).prov is Some,
        shape_deleted(s, l).prov is Some,
{
    let t = shape_touched(s, l);
    let d = shape_deleted(s, l);
    assert forall|j: int| 0 <= j < t.children.len() implies
        (#[trigger] t.children[j]).prov is Some && shape_sourced(t.children[j]) by {
        assert(t.children[j] == s.children[j]);
    }
    assert forall|j: int| 0 <= j < d.children.len() implies
        (#[trigger] d.children[j]).prov is Some && shape_sourced(d.children[j]) by {
        assert(d.children[j] == s.children[j]);
    }
}

proof fn lemma_without_child(s: Shape, name: Seq<char>, l: (Seq<char>, u32))
    requires
        shape_sourced(s),
    ensures
        shape_sourced(without_child(s, name, l)),
        without_child(s, name, l).prov == s.prov,
{
    match shape_pos(s.children, name) {
        Some(i) => {
            assert(is_first_shape(s.children, name, i));
            lemma_touched(s.children[i], l);
            lemma_child_replaced(s, i, shape_deleted(s.children[i], l));
        },
        None => {},
    }
}

proof fn lemma_with_child(s: Shape, name: Seq<char>, l: (Seq<char>, u32))
    requires
        shape_sourced(s),
    ensures
        ({
            let (t, i) = shape_with_child(s, name, l);
            &&& shape_sourced(t)
            &&& t.prov == s.prov
            &&& 0 <= i < t.children.len()
            &&& t.children[i].prov is Some
        }),
{
    match shape_pos(s.children, name) {
        Some(i) => {
            assert(is_first_shape(s.children, name, i));
            let c = s.children[i];
            assert(shape_sourced(c));
            let d = Shape { deleted: false, prov: crate::dts::touch_view(c.prov, l), ..c };
            assert forall|j: int| 0 <= j < d.props.len() implies (#[trigger] d.props[j]).3 is Some by {
                assert(d.props[j] == c.props[j]);
            }
            assert forall|j: int| 0 <= j < d.children.len() implies
                (#[trigger] d.children[j]).prov is Some && shape_sourced(d.children[j]) by {
                assert(d.children[j] == c.children[j]);
            }
            lemma_child_replaced(s, i, d);
        },
        None => {
            let (t, _) = shape_with_child(s, name, l);
            let c = t.children.last();
            assert(c.children.len() == 0 && c.props.len() == 0);
            assert forall|j: int| 0 <= j < t.children.len() implies
                (#[trigger] t.children[j]).prov is Some && shape_sourced(t.children[j]) by {
                if j < s.children.len() {
                    assert(t.children[j] == s.children[j]);
                }
            }
        },
    }
}

/// What `shape_at` reaches in a sourced shape is sourced, and carries
/// provenance below the top.
proof fn lemma_shape_at(s: Shape, segs: Seq<Seq<char>>)
    requires
        shape_sourced(s),
        shape_at(s, segs) is Some,
    ensures
        shape_sourced(shape_at(s, segs)->0),
        segs.len() > 0 ==> (shape_at(s, segs)->0).prov is Some,
    decreases segs.len(),
{
    if segs.len() > 0 {
        let i = shape_pos(s.children, segs[0])->0;
        assert(is_first_shape(s.children, segs[0], i));
        lemma_shape_at(s.children[i], segs.drop_first());
    }
}

/// Putting a sourced shape (with provenance, below the top) into a sourced
/// shape leaves it sourced, with its own provenance kept below the top.
proof fn lemma_shape_put(s: Shape, segs: Seq<Seq<char>>, sub: Shape)
    requires
        shape_sourced(s),
        shape_sourced(sub),
        segs.len() > 0 ==> sub.prov is Some,
    ensures
        shape_sourced(shape_put(s, segs, sub)),
        segs.len() > 0 ==> shape_put(s, segs, sub).prov == s.prov,
    decreases segs.len(),
{
    if segs.len() > 0 {
        match shape_pos(s.children, segs[0]) {
            Some(i) => {
                assert(is_first_shape(s.children, segs[0], i));
                let rest = segs.drop_first();
                lemma_shape_put(s.children[i], rest, sub);
                let c = shape_put(s.children[i], rest, sub);
                assert(c.prov is Some);
                lemma_child_replaced(s, i, c);
            },
            None => {},
        }
    }
}

proof fn lemma_deleted_at(sh: Shape, target: Option<Seq<char>>, l: (Seq<char>, u32))
    requires
        shape_sourced(sh),
    ensures
        shape_sourced(deleted_at(sh, target, l)),
{
    match target {
        Some(pth) => {
            let segs = path_segments(pth);
            match shape_at(sh, segs) {
                Some(n) => {
                    lemma_shape_at(sh, segs);
                    lemma_touched(n, l);
                    lemma_shape_put(sh, segs, shape_deleted(n, l));
                },
                None => {},
            }
        },
        None => {},
    }
}

/// Parsing a node body keeps a sourced shape sourced and leaves the node's
/// own provenance alone.
pub proof fn lemma_body_sourced(toks: Seq<Tok>, files: Seq<Seq<char>>, pos: int, sh: Shape, path: Seq<char>,
    labels: Seq<(Seq<char>, Seq<char>)>, warns: Seq<Seq<char>>)
    requires
        shape_sourced(sh),
        body_parse(toks, files, pos, sh, path, labels, warns) is Ok,
    ensures
        shape_sourced(body_parse(toks, files, pos, sh, path, labels, warns)->Ok_0.shape),
        body_parse(toks, files, pos, sh, path, labels, warns)->Ok_0.shape.prov == sh.prov,
    decreases toks.len() - pos,
{
    let t = toks[pos];
    if t.spec_is_punct('}') {
    } else if t.kind == TokKind::SlashKw {
        if t.text@ == "delete-node"@ || t.text@ == "delete-property"@ {
            let p = pos + 1;
            let e = name_end(toks, p + 1);
            lemma_name_end(toks, p + 1);
            let name = joined_text(toks, p, e);
            if t.text@ == "delete-node"@ {
                lemma_without_child(sh, name, tok_loc(files, toks[p]));
                lemma_body_sourced(toks, files, e + 1, without_child(sh, name, tok_loc(files, toks[p])), path, labels,
                    if shape_pos(sh.children, name) is Some { warns } else {
                        warns.push(crate::dts::at_text(files, toks[p]) + ": /delete-node/ "@ + name + ": no such node in "@ + path)
                    });
            } else {
                lemma_without_prop(sh, name, tok_loc(files, toks[p]));
                lemma_body_sourced(toks, files, e + 1, without_prop(sh, name, tok_loc(files, toks[p])), path, labels,
                    if prop_slot(sh.props, name) is Some { warns } else {
                        warns.push(crate::dts::at_text(files, toks[p]) + ": /delete-property/ "@ + name + ": no such property in "@ + path)
                    });
            }
        } else {
            lemma_body_sourced(toks, files, pos + 1, sh, path, labels, warns);
        }
    } else {
        let q = labels_end(toks, pos);
        lemma_labels_end(toks, pos);
        let e = name_end(toks, q + 1);
        lemma_name_end(toks, q + 1);
        let name = joined_text(toks, q, e);
        if toks[e].spec_is_punct('{') {
            let cp = child_path_of(path, name);
            let (sh1, ci) = shape_with_child(sh, name, tok_loc(files, toks[q]));
            lemma_with_child(sh, name, tok_loc(files, toks[q]));
            let c = with_labels(sh1.children[ci], labels_at(toks, pos));
            lemma_with_labels(sh1.children[ci], labels_at(toks, pos));
            assert(shape_sourced(c)) by {
                assert(shape_sourced(sh1.children[ci]));
                assert forall|j: int| 0 <= j < c.props.len() implies (#[trigger] c.props[j]).3 is Some by {
                    assert(c.props[j] == sh1.children[ci].props[j]);
                }
                assert forall|j: int| 0 <= j < c.children.len() implies
                    (#[trigger] c.children[j]).prov is Some && shape_sourced(c.children[j]) by {
                    assert(c.children[j] == sh1.children[ci].children[j]);
                }
            }
            let ls2 = labels + label_entries(labels_at(toks, pos), cp);
            lemma_body_sourced(toks, files, e + 1, c, cp, ls2, warns);
            let out = body_parse(toks, files, e + 1, c, cp, ls2, warns)->Ok_0;
            lemma_child_replaced(sh1, ci, out.shape);
            lemma_body_sourced(toks, files, out.pos + 1, Shape { children: sh1.children.update(ci, out.shape), ..sh1 },
                path, out.labels, out.warnings);
        } else if toks[e].spec_is_punct('=') {
            let (j, text, err) = value_scan(toks, e + 1, 0, 0, Seq::empty());
            lemma_value_scan_end(toks, e + 1, 0, 0, Seq::empty());
            lemma_with_prop(sh, name, text, tok_loc(files, toks[q]));
            lemma_body_sourced(toks, files, j + 1, with_prop(sh, name, text, tok_loc(files, toks[q])), path, labels,
                if labels_at(toks, pos).len() > 0 {
                    warns.push(crate::dts::at_text(files, toks[q]) + ": labels on property "@ + name + " ignored"@)
                } else { warns });
        } else {
            lemma_with_prop(sh, name, Seq::empty(), tok_loc(files, toks[q]));
            lemma_body_sourced(toks, files, e + 1, with_prop(sh, name, Seq::empty(), tok_loc(files, toks[q])), path, labels, warns);
        }
    }
}

/// Parsing the top level keeps a sourced shape sourced.
pub proof fn lemma_top_sourced(toks: Seq<Tok>, files: Seq<Seq<char>>, pos: int, sh: Shape,
    labels: Seq<(Seq<char>, Seq<char>)>, pending: Seq<Seq<char>>, warns: Seq<Seq<char>>)
    requires
        shape_sourced(sh),
        top_parse(toks, files, pos, sh, labels, pending, warns) is Ok,
    ensures
        shape_sourced(top_parse(toks, files, pos, sh, labels, pending, warns)->Ok_0.0),
    decreases toks.len() - pos,
{
    if pos >= toks.len() {
        return;
    }
    let t = toks[pos];
    if t.kind == TokKind::SlashKw {
        if t.text@ == "dts-v1"@ || t.text@ == "plugin"@ {
            lemma_top_sourced(toks, files, pos + 2, sh, labels, pending, warns);
        } else if t.text@ == "memreserve"@ {
            lemma_punct_from(toks, pos + 1, ';');
            let j = punct_from(toks, pos + 1, ';')->0;
            lemma_top_sourced(toks, files, j + 1, sh, labels, pending, warns);
        } else if t.text@ == "omit-if-no-ref"@ {
            lemma_top_sourced(toks, files, pos + 1, sh, labels, pending, warns);
        } else {
            let p = pos + 1;
            let target = ref_path(labels, toks, p);
            lemma_deleted_at(sh, target, tok_loc(files, toks[p]));
            lemma_top_sourced(toks, files, ref_end(toks, p) + 1, deleted_at(sh, target, tok_loc(files, toks[p])),
                labels, pending,
                if target is Some && shape_at(sh, path_segments(target->0)) is Some {
                    warns
                } else {
                    warns.push(crate::dts::at_text(files, toks[p]) + ": /delete-node/ target "@
                        + crate::dts::ref_desc_at(toks, p) + " not found"@)
                });
        }
    } else if t.spec_is_punct('/') {
        let s0 = shape_touched(sh, tok_loc(files, t));
        lemma_touched(sh, tok_loc(files, t));
        let s1 = with_labels(s0, pending);
        lemma_with_labels(s0, pending);
        assert(shape_sourced(s1)) by {
            assert forall|j: int| 0 <= j < s1.children.len() implies
                (#[trigger] s1.children[j]).prov is Some && shape_sourced(s1.children[j]) by {
                assert(s1.children[j] == s0.children[j]);
            }
        }
        let ls = labels + label_entries(pending, "/"@);
        lemma_body_sourced(toks, files, pos + 2, s1, "/"@, ls, warns);
        let out = block_parse(toks, files, pos + 1, s1, "/"@, ls, warns)->Ok_0;
        lemma_top_sourced(toks, files, out.pos + 1, out.shape, out.labels, Seq::empty(), out.warnings);
    } else if t.kind == TokKind::Ident && pos + 1 < toks.len() && toks[pos + 1].spec_is_punct(':') {
        lemma_top_sourced(toks, files, pos + 2, sh, labels, pending.push(t.text@), warns);
    } else {
        crate::dts::lemma_top_ref(toks, files, pos, sh, labels, pending, warns);
        let e = ref_end(toks, pos);
        let target = ref_path(labels, toks, pos);
        if target is Some && shape_at(sh, path_segments(target->0)) is Some {
            let pth = target->0;
            let segs = path_segments(pth);
            let n = shape_at(sh, segs)->0;
            lemma_shape_at(sh, segs);
            let s0 = shape_touched(n, tok_loc(files, toks[pos]));
            lemma_touched(n, tok_loc(files, toks[pos]));
            let s1 = with_labels(s0, pending);
            lemma_with_labels(s0, pending);
            assert(shape_sourced(s1)) by {
                assert forall|j: int| 0 <= j < s1.children.len() implies
                    (#[trigger] s1.children[j]).prov is Some && shape_sourced(s1.children[j]) by {
                    assert(s1.children[j] == s0.children[j]);
                }
            }
            let ls = labels + label_entries(pending, pth);
            lemma_body_sourced(toks, files, e + 1, s1, pth, ls, warns);
            let out = block_parse(toks, files, e, s1, pth, ls, warns)->Ok_0;
            lemma_shape_put(sh, segs, out.shape);
            lemma_top_sourced(toks, files, out.pos + 1, shape_put(sh, segs, out.shape), out.labels, Seq::empty(), out.warnings);
        } else {
            lemma_block_end(toks, e + 1, 1);
            let j = block_end(toks, e + 1, 1)->0;
            lemma_top_sourced(toks, files, if j < toks.len() && toks[j].spec_is_punct(';') { j + 1 } else { j },
                sh, labels, Seq::empty(),
                warns.push(crate::dts::at_text(files, toks[pos]) + ": unresolved reference "@
                    + crate::dts::ref_desc_at(toks, pos) + "; block skipped"@));
        }
    }
}

} // verus!
