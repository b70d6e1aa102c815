//! Device tree source (.dts/.dtsi) parsing with include resolution and
//! source provenance tracking.
//!
//! The lexer (see `dts_lex`) inlines included files into one token stream,
//! tagging every token with its (file, line) origin. The parser merges all
//! top-level blocks into a single tree, recording for every node and
//! property where it was first defined and every later site that touched
//! it. Property values are kept as reconstructed source text rather than
//! compiled cells, so the display stays close to what the author wrote.
use vstd::prelude::*;
use crate::model::{DtNode, DtProperty, IncludeEdge, IncludeGraph, LoadResult, Provenance, SourceLoc,
    child_pos, prop_pos, is_first_child, is_first_prop, lemma_child_pos, lemma_prop_pos,
    subtree_at, replaced_at, same_but_children, path_segments};
use crate::dts_prov::{sourced, shape_sourced, lemma_top_sourced, lemma_sourced_of_shape};
use crate::dts_lex::{Tok, TokKind, LexCtx, LexStop, FileAnswer, LexOut, lex_file, lex_wf, answered, first_answer, files_contain, word_is,
    is_include_word,
    lex_spec, lemma_lex_spec_some, lex_view, empty_view, lemma_view_empty, lemma_view_parts, string_views, tok_views, edge_view};
use crate::text::{chars_of, chars_eq, push_char, push_chars, string_of, string_of_range, dec_str};

verus! {

// ---------------------------------------------------------------------------
// Tree laws
// ---------------------------------------------------------------------------

/// `b` keeps what `a` recorded about where an item came from: the same
/// first definition, and the earlier modifications as a prefix.
pub open spec fn prov_extends(a: Option<Provenance>, b: Option<Provenance>) -> bool {
    match a {
        None => true,
        Some(p) => b matches Some(q) && q.defined == p.defined && p.modified@.is_prefix_of(q.modified@),
    }
}

pub open spec fn prop_extends(a: DtProperty, b: DtProperty) -> bool {
    b.name == a.name && prov_extends(a.provenance, b.provenance)
}

/// `b` grew out of `a`: every node and property of `a` is still there, at
/// the same place and under the same name, with its provenance extended;
/// labels are only added.
pub open spec fn tree_extends(a: DtNode, b: DtNode) -> bool
    decreases a,
{
    &&& b.name == a.name
    &&& a.labels@.is_prefix_of(b.labels@)
    &&& prov_extends(a.provenance, b.provenance)
    &&& a.properties@.len() <= b.properties@.len()
    &&& forall|i: int| 0 <= i < a.properties@.len() ==> prop_extends(a.properties@[i], #[trigger] b.properties@[i])
    &&& a.children@.len() <= b.children@.len()
    &&& forall|i: int| 0 <= i < a.children@.len() ==> tree_extends(a.children@[i], #[trigger] b.children@[i])
}

/// No two children, properties or labels of a node share a name, at every
/// level.
pub open spec fn wf_tree(n: DtNode) -> bool
    decreases n,
{
    &&& forall|i: int, j: int| 0 <= i < j < n.children@.len() ==> n.children@[i].name@ != n.children@[j].name@
    &&& forall|i: int, j: int| 0 <= i < j < n.properties@.len() ==> n.properties@[i].name@ != n.properties@[j].name@
    &&& forall|i: int, j: int| 0 <= i < j < n.labels@.len() ==> n.labels@[i]@ != n.labels@[j]@
    &&& forall|i: int| 0 <= i < n.children@.len() ==> wf_tree(#[trigger] n.children@[i])
}

pub proof fn lemma_extends_refl(a: DtNode)
    ensures
        tree_extends(a, a),
    decreases a,
{
    assert forall|i: int| 0 <= i < a.children@.len() implies tree_extends(a.children@[i], #[trigger] a.children@[i]) by {
        assert(decreases_to!(a => a.children));
        lemma_extends_refl(a.children@[i]);
    }
    assert forall|i: int| 0 <= i < a.properties@.len() implies prop_extends(a.properties@[i], #[trigger] a.properties@[i]) by {
        match a.properties@[i].provenance {
            Some(p) => assert(p.modified@.is_prefix_of(p.modified@)),
            None => {},
        }
    }
    match a.provenance {
        Some(p) => assert(p.modified@.is_prefix_of(p.modified@)),
        None => {},
    }
    assert(a.labels@.is_prefix_of(a.labels@));
}

pub proof fn lemma_prov_extends_trans(a: Option<Provenance>, b: Option<Provenance>, c: Option<Provenance>)
    requires
        prov_extends(a, b),
        prov_extends(b, c),
    ensures
        prov_extends(a, c),
{
    match a {
        Some(p) => {
            let q = b->0;
            let r = c->0;
            assert(p.modified@.is_prefix_of(r.modified@)) by {
                assert forall|k: int| 0 <= k < p.modified@.len() implies r.modified@[k] == p.modified@[k] by {
                    assert(q.modified@[k] == p.modified@[k]);
                }
            }
        },
        None => {},
    }
}

pub proof fn lemma_extends_trans(a: DtNode, b: DtNode, c: DtNode)
    requires
        tree_extends(a, b),
        tree_extends(b, c),
    ensures
        tree_extends(a, c),
    decreases a,
{
    assert forall|i: int| 0 <= i < a.children@.len() implies tree_extends(a.children@[i], #[trigger] c.children@[i]) by {
        assert(decreases_to!(a => a.children));
        lemma_extends_trans(a.children@[i], b.children@[i], c.children@[i]);
    }
    assert forall|i: int| 0 <= i < a.properties@.len() implies prop_extends(a.properties@[i], #[trigger] c.properties@[i]) by {
        assert(prop_extends(a.properties@[i], b.properties@[i]));
        assert(prop_extends(b.properties@[i], c.properties@[i]));
        lemma_prov_extends_trans(a.properties@[i].provenance, b.properties@[i].provenance, c.properties@[i].provenance);
    }
    lemma_prov_extends_trans(a.provenance, b.provenance, c.provenance);
    assert(a.labels@.is_prefix_of(c.labels@)) by {
        assert forall|k: int| 0 <= k < a.labels@.len() implies c.labels@[k] == a.labels@[k] by {
            assert(b.labels@[k] == a.labels@[k]);
        }
    }
}

/// A node whose child `i` grew, and nothing else changed, grew.
pub proof fn lemma_extends_child(a: DtNode, b: DtNode, i: int)
    requires
        0 <= i < a.children@.len(),
        same_but_children(a, b),
        b.children@ == a.children@.update(i, b.children@[i]),
        tree_extends(a.children@[i], b.children@[i]),
    ensures
        tree_extends(a, b),
{
    lemma_extends_refl(a);
    assert forall|j: int| 0 <= j < a.children@.len() implies tree_extends(a.children@[j], #[trigger] b.children@[j]) by {
        if j != i {
            assert(b.children@[j] == a.children@[j]);
            assert(tree_extends(a.children@[j], a.children@[j]));
        }
    }
}

/// A node whose child `i` stayed well-formed under its name, and nothing
/// else changed, stays well-formed.
pub proof fn lemma_wf_child(a: DtNode, b: DtNode, i: int)
    requires
        0 <= i < a.children@.len(),
        wf_tree(a),
        same_but_children(a, b),
        b.children@ == a.children@.update(i, b.children@[i]),
        b.children@[i].name == a.children@[i].name,
        wf_tree(b.children@[i]),
    ensures
        wf_tree(b),
{
    assert forall|j: int| 0 <= j < b.children@.len() implies wf_tree(#[trigger] b.children@[j]) by {
        if j != i {
            assert(b.children@[j] == a.children@[j]);
        }
    }
    assert forall|x: int, y: int| 0 <= x < y < b.children@.len() implies b.children@[x].name@ != b.children@[y].name@ by {
        assert(b.children@[x].name == a.children@[x].name);
        assert(b.children@[y].name == a.children@[y].name);
    }
}

pub proof fn lemma_subtree_wf(n: DtNode, segs: Seq<Seq<char>>)
    requires
        wf_tree(n),
        subtree_at(n, segs) is Some,
    ensures
        wf_tree(subtree_at(n, segs)->0),
    decreases segs.len(),
{
    if segs.len() > 0 {
        let i = child_pos(n.children@, segs[0])->0;
        assert(is_first_child(n.children@, segs[0], i));
        lemma_subtree_wf(n.children@[i], segs.drop_first());
    }
}

/// Replacing the node at a path by a grown, well-formed node with the same
/// name leaves the whole tree grown and well-formed.
pub proof fn lemma_replaced(old: DtNode, new: DtNode, segs: Seq<Seq<char>>, sub: DtNode)
    requires
        replaced_at(old, new, segs, sub),
        subtree_at(old, segs) is Some,
        tree_extends(subtree_at(old, segs)->0, sub),
        wf_tree(old),
        wf_tree(sub),
    ensures
        tree_extends(old, new),
        wf_tree(new),
    decreases segs.len(),
{
    if segs.len() > 0 {
        let i = child_pos(old.children@, segs[0])->0;
        assert(is_first_child(old.children@, segs[0], i));
        lemma_replaced(old.children@[i], new.children@[i], segs.drop_first(), sub);
        assert(new.children@ =~= old.children@.update(i, new.children@[i]));
        lemma_extends_child(old, new, i);
        lemma_wf_child(old, new, i);
    }
}

// ---------------------------------------------------------------------------
// Tree shapes
// ---------------------------------------------------------------------------

/// A source location as plain values: file and line.
pub open spec fn loc_view(l: SourceLoc) -> (Seq<char>, u32) {
    (l.file@, l.line)
}

/// Where an item was defined and every later site that touched it.
pub open spec fn prov_view(p: Option<Provenance>) -> Option<((Seq<char>, u32), Seq<(Seq<char>, u32)>)> {
    match p {
        Some(q) => Some((loc_view(q.defined), q.modified@.map_values(|l: SourceLoc| loc_view(l)))),
        None => None,
    }
}

/// `p` after one more sighting at `l`: a first sighting defines, a later
/// one is appended to the modifications.
pub open spec fn touch_view(p: Option<((Seq<char>, u32), Seq<(Seq<char>, u32)>)>, l: (Seq<char>, u32))
    -> Option<((Seq<char>, u32), Seq<(Seq<char>, u32)>)> {
    match p {
        Some((d, m)) => Some((d, m.push(l))),
        None => Some((l, Seq::empty())),
    }
}

/// Where token `t` stands, over the file names `files`.
pub open spec fn tok_loc(files: Seq<Seq<char>>, t: Tok) -> (Seq<char>, u32) {
    (if t.file < files.len() { files[t.file as int] } else { "?"@ }, t.line)
}

pub proof fn lemma_touched_view(a: Option<Provenance>, b: Option<Provenance>, loc: SourceLoc)
    requires
        touched(a, b, loc),
    ensures
        prov_view(b) == touch_view(prov_view(a), loc_view(loc)),
{
    match a {
        Some(p) => {
            let q = b->0;
            assert(q.modified@.map_values(|l: SourceLoc| loc_view(l))
                =~= p.modified@.map_values(|l: SourceLoc| loc_view(l)).push(loc_view(loc)));
        },
        None => {
            assert(b->0.modified@.map_values(|l: SourceLoc| loc_view(l)) =~= Seq::<(Seq<char>, u32)>::empty());
        },
    }
}

pub proof fn lemma_loc_view(files: Seq<String>, t: Tok, l: SourceLoc)
    requires
        loc_of(files, t, l),
    ensures
        loc_view(l) == tok_loc(string_views(files), t),
{
}

/// What a tree holds: each node's name, labels, properties (name, value,
/// deleted, provenance), deletion mark and provenance, and its children.
pub struct Shape {
    pub name: Seq<char>,
    pub labels: Seq<Seq<char>>,
    pub props: Seq<(Seq<char>, Seq<char>, bool, Option<((Seq<char>, u32), Seq<(Seq<char>, u32)>)>)>,
    pub deleted: bool,
    pub prov: Option<((Seq<char>, u32), Seq<(Seq<char>, u32)>)>,
    pub children: Seq<Shape>,
}

/// A new node called `name`, with nothing in it and no provenance.
pub open spec fn shape_leaf(name: Seq<char>) -> Shape {
    Shape { name, labels: Seq::empty(), props: Seq::empty(), deleted: false, prov: None, children: Seq::empty() }
}

pub open spec fn prop_view(p: DtProperty) -> (Seq<char>, Seq<char>, bool, Option<((Seq<char>, u32), Seq<(Seq<char>, u32)>)>) {
    (p.name@, p.value@, p.deleted, prov_view(p.provenance))
}

pub open spec fn shape_of(n: DtNode) -> Shape
    decreases n,
{
    Shape {
        name: n.name@,
        labels: n.labels@.map_values(|l: String| l@),
        props: n.properties@.map_values(|p: DtProperty| prop_view(p)),
        deleted: n.deleted,
        prov: prov_view(n.provenance),
        children: Seq::new(n.children@.len(), |i: int|
            if 0 <= i < n.children@.len() { shape_of(n.children@[i]) } else { shape_leaf(Seq::empty()) }),
    }
}

/// `s` with label `l`, unless it has it already.
pub open spec fn with_label(s: Shape, l: Seq<char>) -> Shape {
    if s.labels.contains(l) { s } else { Shape { labels: s.labels.push(l), ..s } }
}

/// `s` with the labels `ls`, in order.
pub open spec fn with_labels(s: Shape, ls: Seq<Seq<char>>) -> Shape
    decreases ls.len(),
{
    if ls.len() == 0 { s } else { with_label(with_labels(s, ls.drop_last()), ls.last()) }
}

/// `i` is the first property called `name`.
pub open spec fn is_first_slot(ps: Seq<(Seq<char>, Seq<char>, bool, Option<((Seq<char>, u32), Seq<(Seq<char>, u32)>)>)>, name: Seq<char>, i: int) -> bool {
    &&& 0 <= i < ps.len()
    &&& ps[i].0 == name
    &&& forall|j: int| 0 <= j < i ==> ps[j].0 != name
}

pub open spec fn prop_slot(ps: Seq<(Seq<char>, Seq<char>, bool, Option<((Seq<char>, u32), Seq<(Seq<char>, u32)>)>)>, name: Seq<char>) -> Option<int> {
    if exists|i: int| is_first_slot(ps, name, i) {
        Some(choose|i: int| is_first_slot(ps, name, i))
    } else {
        None
    }
}

/// `s` with property `name` set to `value` at `l` (the first one of that
/// name, touched, or a new one at the end, defined there), not deleted.
pub open spec fn with_prop(s: Shape, name: Seq<char>, value: Seq<char>, l: (Seq<char>, u32)) -> Shape {
    match prop_slot(s.props, name) {
        Some(i) => Shape { props: s.props.update(i, (name, value, false, touch_view(s.props[i].3, l))), ..s },
        None => Shape { props: s.props.push((name, value, false, touch_view(None, l))), ..s },
    }
}

/// `s` with property `name` (the first one) marked deleted and touched at
/// `l`, if it has one.
pub open spec fn without_prop(s: Shape, name: Seq<char>, l: (Seq<char>, u32)) -> Shape {
    match prop_slot(s.props, name) {
        Some(i) => Shape { props: s.props.update(i, (s.props[i].0, s.props[i].1, true, touch_view(s.props[i].3, l))), ..s },
        None => s,
    }
}

/// `s` touched at `l`.
pub open spec fn shape_touched(s: Shape, l: (Seq<char>, u32)) -> Shape {
    Shape { prov: touch_view(s.prov, l), ..s }
}

/// `s` marked deleted and touched at `l`.
pub open spec fn shape_deleted(s: Shape, l: (Seq<char>, u32)) -> Shape {
    Shape { deleted: true, prov: touch_view(s.prov, l), ..s }
}

/// `s` with child `name` (the first one) marked deleted and touched at `l`,
/// if it has one.
pub open spec fn without_child(s: Shape, name: Seq<char>, l: (Seq<char>, u32)) -> Shape {
    match shape_pos(s.children, name) {
        Some(i) => Shape { children: s.children.update(i, shape_deleted(s.children[i], l)), ..s },
        None => s,
    }
}

/// `i` is the first child shape called `name`.
pub open spec fn is_first_shape(cs: Seq<Shape>, name: Seq<char>, i: int) -> bool {
    &&& 0 <= i < cs.len()
    &&& cs[i].name == name
    &&& forall|j: int| 0 <= j < i ==> cs[j].name != name
}

pub open spec fn shape_pos(cs: Seq<Shape>, name: Seq<char>) -> Option<int> {
    if exists|i: int| is_first_shape(cs, name, i) {
        Some(choose|i: int| is_first_shape(cs, name, i))
    } else {
        None
    }
}

/// The shape reached by following `segs`, first matching child at each
/// step.
pub open spec fn shape_at(s: Shape, segs: Seq<Seq<char>>) -> Option<Shape>
    decreases segs.len(),
{
    if segs.len() == 0 {
        Some(s)
    } else {
        match shape_pos(s.children, segs[0]) {
            Some(i) => shape_at(s.children[i], segs.drop_first()),
            None => None,
        }
    }
}

/// `s` with the shape at `segs` replaced by `sub`.
pub open spec fn shape_put(s: Shape, segs: Seq<Seq<char>>, sub: Shape) -> Shape
    decreases segs.len(),
{
    if segs.len() == 0 {
        sub
    } else {
        match shape_pos(s.children, segs[0]) {
            Some(i) => Shape { children: s.children.update(i, shape_put(s.children[i], segs.drop_first(), sub)), ..s },
            None => s,
        }
    }
}

/// `s` with a child called `name` seen at `l`, not deleted (the first
/// one, touched, or a new leaf at the end, defined there), and that
/// child's position.
pub open spec fn shape_with_child(s: Shape, name: Seq<char>, l: (Seq<char>, u32)) -> (Shape, int) {
    match shape_pos(s.children, name) {
        Some(i) => (Shape { children: s.children.update(i,
            Shape { deleted: false, prov: touch_view(s.children[i].prov, l), ..s.children[i] }), ..s }, i),
        None => (Shape { children: s.children.push(Shape { prov: touch_view(None, l), ..shape_leaf(name) }), ..s },
            s.children.len() as int),
    }
}

pub proof fn lemma_shape_children(n: DtNode)
    ensures
        shape_of(n).name == n.name@,
        shape_of(n).children.len() == n.children@.len(),
        forall|i: int| 0 <= i < n.children@.len() ==> #[trigger] shape_of(n).children[i] == shape_of(n.children@[i]),
{
}

pub proof fn lemma_shape_pos(n: DtNode, name: Seq<char>)
    ensures
        child_pos(n.children@, name) == shape_pos(shape_of(n).children, name),
{
    lemma_shape_children(n);
    let cs = n.children@;
    let ss = shape_of(n).children;
    assert forall|j: int| 0 <= j < ss.len() implies #[trigger] ss[j].name == cs[j].name@ by {
        assert(ss[j] == shape_of(cs[j]));
    }
    assert forall|i: int| is_first_child(cs, name, i) implies is_first_shape(ss, name, i) by {
        assert forall|j: int| 0 <= j < i implies ss[j].name != name by {
            assert(ss[j].name == cs[j].name@);
        }
    }
    assert forall|i: int| is_first_shape(ss, name, i) implies is_first_child(cs, name, i) by {
        assert forall|j: int| 0 <= j < i implies cs[j].name@ != name by {
            assert(ss[j].name == cs[j].name@);
        }
    }
    if exists|i: int| is_first_child(cs, name, i) {
        let i = choose|i: int| is_first_child(cs, name, i);
        lemma_child_pos(cs, name, i);
        let k = choose|k: int| is_first_shape(ss, name, k);
        assert(is_first_shape(ss, name, k));
        if k < i {
            assert(cs[k].name@ != name);
        } else if i < k {
            assert(ss[i].name != name);
        }
    }
}

/// Following a path through a tree and through its shape meet the same
/// node.
pub proof fn lemma_shape_at(n: DtNode, segs: Seq<Seq<char>>)
    ensures
        match subtree_at(n, segs) {
            Some(x) => shape_at(shape_of(n), segs) == Some(shape_of(x)),
            None => shape_at(shape_of(n), segs) is None,
        },
    decreases segs.len(),
{
    if segs.len() > 0 {
        lemma_shape_pos(n, segs[0]);
        lemma_shape_children(n);
        match child_pos(n.children@, segs[0]) {
            Some(i) => {
                assert(is_first_child(n.children@, segs[0], i));
                lemma_shape_at(n.children@[i], segs.drop_first());
            },
            None => {},
        }
    }
}

/// A node with only child `i` changed has that child's shape in its shape.
pub proof fn lemma_shape_update(a: DtNode, b: DtNode, i: int)
    requires
        0 <= i < a.children@.len(),
        b.name == a.name,
        b.labels == a.labels,
        b.properties == a.properties,
        b.deleted == a.deleted,
        b.provenance == a.provenance,
        b.children@ == a.children@.update(i, b.children@[i]),
    ensures
        shape_of(b) == (Shape { children: shape_of(a).children.update(i, shape_of(b.children@[i])), ..shape_of(a) }),
{
    lemma_shape_children(a);
    lemma_shape_children(b);
    assert(shape_of(b).children =~= shape_of(a).children.update(i, shape_of(b.children@[i])));
}

/// A node that changed at most in its deletion mark and provenance.
pub proof fn lemma_shape_flag(a: DtNode, b: DtNode)
    requires
        b.name == a.name,
        b.labels == a.labels,
        b.properties == a.properties,
        b.children@ == a.children@,
    ensures
        shape_of(b) == (Shape { deleted: b.deleted, prov: prov_view(b.provenance), ..shape_of(a) }),
{
    lemma_shape_children(a);
    lemma_shape_children(b);
    assert(shape_of(b).children =~= shape_of(a).children);
    assert(shape_of(b).labels =~= shape_of(a).labels);
    assert(shape_of(b).props =~= shape_of(a).props);
}

/// Replacing the node at a path replaces its shape at that path.
pub proof fn lemma_shape_replaced(old: DtNode, new: DtNode, segs: Seq<Seq<char>>, sub: DtNode)
    requires
        replaced_at(old, new, segs, sub),
    ensures
        shape_of(new) == shape_put(shape_of(old), segs, shape_of(sub)),
    decreases segs.len(),
{
    if segs.len() > 0 {
        lemma_shape_pos(old, segs[0]);
        let i = child_pos(old.children@, segs[0])->0;
        assert(is_first_child(old.children@, segs[0], i));
        lemma_shape_replaced(old.children@[i], new.children@[i], segs.drop_first(), sub);
        assert(new.children@ =~= old.children@.update(i, new.children@[i]));
        lemma_shape_update(old, new, i);
        lemma_shape_children(old);
    }
}

// ---------------------------------------------------------------------------
// Tree updates
// ---------------------------------------------------------------------------

/// `b` is `a` after one more sighting at `loc`: a first sighting defines,
/// a later one is appended to the modifications.
pub open spec fn touched(a: Option<Provenance>, b: Option<Provenance>, loc: SourceLoc) -> bool {
    match a {
        None => b matches Some(p) && p.defined == loc && p.modified@.len() == 0,
        Some(p) => b matches Some(q) && q.defined == p.defined && q.modified@ == p.modified@.push(loc),
    }
}

/// First sighting defines; later sightings modify.
pub fn touch(prov: &mut Option<Provenance>, loc: SourceLoc)
    ensures
        touched(*old(prov), *final(prov), loc),
        prov_extends(*old(prov), *final(prov)),
{
    match prov {
        Some(p) => {
            p.touch(loc);
            assert(old(prov)->0.modified@.is_prefix_of(prov->0.modified@));
        },
        None => {
            *prov = Some(Provenance::new(loc));
        },
    }
}

pub open spec fn has_label(labels: Seq<String>, l: Seq<char>) -> bool {
    exists|k: int| 0 <= k < labels.len() && labels[k]@ == l
}

pub fn add_label(node: &mut DtNode, label: &String)
    ensures
        has_label(final(node).labels@, label@),
        has_label(old(node).labels@, label@) ==> final(node).labels@ == old(node).labels@,
        !has_label(old(node).labels@, label@) ==> final(node).labels@.len() == old(node).labels@.len() + 1
            && final(node).labels@.last()@ == label@,
        final(node).name == old(node).name,
        final(node).properties == old(node).properties,
        final(node).children == old(node).children,
        final(node).deleted == old(node).deleted,
        final(node).provenance == old(node).provenance,
        tree_extends(*old(node), *final(node)),
        wf_tree(*old(node)) ==> wf_tree(*final(node)),
        shape_of(*final(node)) == with_label(shape_of(*old(node)), label@),
{
    proof { lemma_extends_refl(*node); }
    let mut k: usize = 0;
    while k < node.labels.len()
        invariant
            0 <= k <= node.labels@.len(),
            *node == *old(node),
            forall|m: int| 0 <= m < k ==> node.labels@[m]@ != label@,
        decreases node.labels@.len() - k,
    {
        if node.labels[k] == *label {
            proof {
                lemma_extends_refl(*node);
                assert(shape_of(*node).labels[k as int] == label@);
            }
            return;
        }
        k += 1;
    }
    proof {
        if shape_of(*node).labels.contains(label@) {
            let m = choose|m: int| 0 <= m < shape_of(*node).labels.len() && shape_of(*node).labels[m] == label@;
            assert(node.labels@[m]@ == label@);
        }
    }
    let ghost lv = label@;
    node.labels.push(label.clone());
    proof {
        assert(shape_of(*node).labels =~= shape_of(*old(node)).labels.push(lv));
        lemma_shape_children(*node);
        lemma_shape_children(*old(node));
        assert(shape_of(*node).children =~= shape_of(*old(node)).children);
        assert(shape_of(*node).props =~= shape_of(*old(node)).props);
    }
    assert(old(node).labels@.is_prefix_of(node.labels@));
    assert(node.labels@.last()@ == label@);
    assert(has_label(node.labels@, label@));
    assert forall|i: int| 0 <= i < old(node).children@.len() implies tree_extends(old(node).children@[i], #[trigger] node.children@[i]) by {
        lemma_extends_refl(old(node).children@[i]);
    }
}

/// Index of the child called `name`, created (defined at `loc`) when
/// missing; an existing one is touched at `loc` and undeleted.
pub fn ensure_child(node: &mut DtNode, name: &String, loc: SourceLoc) -> (idx: usize)
    ensures
        idx < final(node).children@.len(),
        final(node).children@[idx as int].name@ == name@,
        !final(node).children@[idx as int].deleted,
        child_pos(old(node).children@, name@) matches Some(i) ==> {
            let c = old(node).children@[i];
            let d = final(node).children@[i];
            &&& idx == i
            &&& final(node).children@ == old(node).children@.update(i, d)
            &&& d.name == c.name && d.labels == c.labels && d.properties == c.properties && d.children == c.children
            &&& touched(c.provenance, d.provenance, loc)
        },
        child_pos(old(node).children@, name@) is None ==> {
            let d = final(node).children@[idx as int];
            &&& idx == old(node).children@.len()
            &&& final(node).children@.drop_last() == old(node).children@
            &&& d.labels@.len() == 0 && d.properties@.len() == 0 && d.children@.len() == 0
            &&& touched(None, d.provenance, loc)
        },
        same_but_children(*old(node), *final(node)),
        tree_extends(*old(node), *final(node)),
        wf_tree(*old(node)) ==> wf_tree(*final(node)),
        (shape_of(*final(node)), idx as int) == shape_with_child(shape_of(*old(node)), name@, loc_view(loc)),
{
    proof { lemma_shape_pos(*old(node), name@); }
    match node.child_index(name.as_str()) {
        Some(i) => {
            proof {
                assert(is_first_child(old(node).children@, name@, i as int));
            }
            let ghost c0 = node.children@[i as int];
            node.children[i].deleted = false;
            touch(&mut node.children[i].provenance, loc);
            proof {
                let c1 = node.children@[i as int];
                lemma_extends_refl(c0);
                assert(c0 == old(node).children@[i as int]);
                assert(c1.properties == c0.properties);
                assert(c1.children == c0.children);
                assert(c1.labels == c0.labels);
                assert(tree_extends(c0, c1));
                assert(node.children@ =~= old(node).children@.update(i as int, c1));
                lemma_extends_child(*old(node), *node, i as int);
                if wf_tree(*old(node)) {
                    assert(wf_tree(c0));
                    assert(wf_tree(c1));
                    lemma_wf_child(*old(node), *node, i as int);
                }
                lemma_shape_update(*old(node), *node, i as int);
                lemma_shape_flag(c0, c1);
                lemma_touched_view(c0.provenance, c1.provenance, loc);
                lemma_shape_children(*old(node));
            }
            i
        },
        None => {
            let mut c = DtNode::new(name.as_str());
            c.provenance = Some(Provenance::new(loc));
            node.children.push(c);
            proof {
                lemma_extends_refl(*old(node));
                assert forall|k: int| 0 <= k < old(node).children@.len() implies tree_extends(old(node).children@[k], #[trigger] node.children@[k]) by {
                    assert(node.children@[k] == old(node).children@[k]);
                }
                assert(node.children@.drop_last() =~= old(node).children@);
                if wf_tree(*old(node)) {
                    assert forall|x: int, y: int| 0 <= x < y < node.children@.len() implies node.children@[x].name@ != node.children@[y].name@ by {
                        if y == node.children@.len() - 1 {
                            assert(node.children@[x] == old(node).children@[x]);
                            if node.children@[x].name@ == name@ {
                                first_exists(old(node).children@, name@, x);
                            }
                        }
                    }
                    assert forall|k: int| 0 <= k < node.children@.len() implies wf_tree(#[trigger] node.children@[k]) by {
                        if k < old(node).children@.len() {
                            assert(node.children@[k] == old(node).children@[k]);
                        }
                    }
                }
                lemma_shape_children(*old(node));
                lemma_shape_children(*node);
                let last = node.children@.last();
                lemma_shape_children(last);
                assert(shape_of(last).children =~= Seq::<Shape>::empty());
                assert(shape_of(last).labels =~= Seq::<Seq<char>>::empty());
                assert(shape_of(last).props =~= Seq::<(Seq<char>, Seq<char>, bool, Option<((Seq<char>, u32), Seq<(Seq<char>, u32)>)>)>::empty());
                assert(last.provenance->0.modified@.map_values(|l: SourceLoc| loc_view(l)) =~= Seq::<(Seq<char>, u32)>::empty());
                assert(shape_of(*node).children =~= shape_of(*old(node)).children.push(
                    Shape { prov: touch_view(None, loc_view(loc)), ..shape_leaf(name@) }));
                assert(shape_of(*node).labels =~= shape_of(*old(node)).labels);
                assert(shape_of(*node).props =~= shape_of(*old(node)).props);
            }
            node.children.len() - 1
        },
    }
}

/// Some first position among a match at `x`.
proof fn first_exists(children: Seq<DtNode>, name: Seq<char>, x: int)
    requires
        0 <= x < children.len(),
        children[x].name@ == name,
    ensures
        exists|i: int| is_first_child(children, name, i),
    decreases x,
{
    if exists|j: int| 0 <= j < x && children[j].name@ == name {
        let j = choose|j: int| 0 <= j < x && children[j].name@ == name;
        first_exists(children, name, j);
    } else {
        assert(is_first_child(children, name, x));
    }
}


/// `b` is `a` with property `name` set to `value` at `loc`: an existing one
/// (the first of that name) takes the value, is undeleted and touched; a
/// missing one is appended, defined at `loc`.
pub open spec fn prop_set(a: DtNode, b: DtNode, name: Seq<char>, value: Seq<char>, loc: SourceLoc) -> bool {
    &&& b.name == a.name
    &&& b.labels == a.labels
    &&& b.children == a.children
    &&& b.deleted == a.deleted
    &&& b.provenance == a.provenance
    &&& match prop_pos(a.properties@, name) {
        Some(i) => {
            &&& b.properties@.len() == a.properties@.len()
            &&& forall|j: int| 0 <= j < a.properties@.len() && j != i ==> b.properties@[j] == a.properties@[j]
            &&& b.properties@[i].name == a.properties@[i].name
            &&& b.properties@[i].value@ == value
            &&& !b.properties@[i].deleted
            &&& touched(a.properties@[i].provenance, b.properties@[i].provenance, loc)
        },
        None => {
            &&& b.properties@.len() == a.properties@.len() + 1
            &&& b.properties@.drop_last() == a.properties@
            &&& b.properties@.last().name@ == name
            &&& b.properties@.last().value@ == value
            &&& !b.properties@.last().deleted
            &&& touched(None, b.properties@.last().provenance, loc)
        },
    }
}

/// No property is called `name` when there is no first one.
proof fn lemma_no_prop(props: Seq<DtProperty>, name: Seq<char>)
    requires
        prop_pos(props, name) is None,
    ensures
        forall|j: int| 0 <= j < props.len() ==> props[j].name@ != name,
{
    assert forall|j: int| 0 <= j < props.len() implies props[j].name@ != name by {
        if props[j].name@ == name {
            first_prop_exists(props, name, j);
        }
    }
}

proof fn first_prop_exists(props: Seq<DtProperty>, name: Seq<char>, x: int)
    requires
        0 <= x < props.len(),
        props[x].name@ == name,
    ensures
        exists|i: int| is_first_prop(props, name, i),
    decreases x,
{
    if exists|j: int| 0 <= j < x && props[j].name@ == name {
        let j = choose|j: int| 0 <= j < x && props[j].name@ == name;
        first_prop_exists(props, name, j);
    } else {
        assert(is_first_prop(props, name, x));
    }
}

/// A node whose property `i` grew under the same name, and nothing else
/// changed, grew and stays well-formed.
proof fn lemma_prop_changed(a: DtNode, b: DtNode, i: int)
    requires
        0 <= i < a.properties@.len(),
        b.name == a.name,
        b.labels == a.labels,
        b.children == a.children,
        b.provenance == a.provenance,
        b.properties@ == a.properties@.update(i, b.properties@[i]),
        b.properties@[i].name == a.properties@[i].name,
        prov_extends(a.properties@[i].provenance, b.properties@[i].provenance),
    ensures
        tree_extends(a, b),
        wf_tree(a) ==> wf_tree(b),
{
    lemma_extends_refl(a);
    assert forall|j: int| 0 <= j < a.properties@.len() implies prop_extends(a.properties@[j], #[trigger] b.properties@[j]) by {
        if j != i {
            assert(b.properties@[j] == a.properties@[j]);
        }
    }
    if wf_tree(a) {
        assert forall|x: int, y: int| 0 <= x < y < b.properties@.len() implies b.properties@[x].name@ != b.properties@[y].name@ by {
            assert(b.properties@[x].name == a.properties@[x].name);
            assert(b.properties@[y].name == a.properties@[y].name);
        }
        assert forall|j: int| 0 <= j < b.children@.len() implies wf_tree(#[trigger] b.children@[j]) by {
            assert(b.children@[j] == a.children@[j]);
        }
    }
}

/// The first property of a name is found at the same place in a node and in
/// its shape.
pub proof fn lemma_prop_slot(props: Seq<DtProperty>, name: Seq<char>)
    ensures
        prop_pos(props, name) == prop_slot(props.map_values(|p: DtProperty| prop_view(p)), name),
{
    let ps = props.map_values(|p: DtProperty| prop_view(p));
    assert forall|i: int| is_first_prop(props, name, i) implies is_first_slot(ps, name, i) by {
        assert forall|j: int| 0 <= j < i implies ps[j].0 != name by {
            assert(ps[j].0 == props[j].name@);
        }
    }
    assert forall|i: int| is_first_slot(ps, name, i) implies is_first_prop(props, name, i) by {
        assert forall|j: int| 0 <= j < i implies props[j].name@ != name by {
            assert(ps[j].0 == props[j].name@);
        }
    }
    if exists|i: int| is_first_prop(props, name, i) {
        let i = choose|i: int| is_first_prop(props, name, i);
        lemma_prop_pos(props, name, i);
        let k = choose|k: int| is_first_slot(ps, name, k);
        assert(is_first_slot(ps, name, k));
        if k < i {
            assert(props[k].name@ != name);
        } else if i < k {
            assert(ps[i].0 != name);
        }
    }
}

/// A node that changed at most in its properties.
pub proof fn lemma_shape_props(a: DtNode, b: DtNode)
    requires
        b.name == a.name,
        b.labels == a.labels,
        b.deleted == a.deleted,
        b.provenance == a.provenance,
        b.children@ == a.children@,
    ensures
        shape_of(b) == (Shape { props: b.properties@.map_values(|p: DtProperty| prop_view(p)), ..shape_of(a) }),
{
    lemma_shape_children(a);
    lemma_shape_children(b);
    assert(shape_of(b).children =~= shape_of(a).children);
    assert(shape_of(b).labels =~= shape_of(a).labels);
}

/// Sets property `name` of `node` to `value`, as seen at `loc`.
pub fn set_prop(node: &mut DtNode, name: &String, value: String, loc: SourceLoc)
    ensures
        prop_set(*old(node), *final(node), name@, value@, loc),
        tree_extends(*old(node), *final(node)),
        wf_tree(*old(node)) ==> wf_tree(*final(node)),
        shape_of(*final(node)) == with_prop(shape_of(*old(node)), name@, value@, loc_view(loc)),
{
    let ghost n0 = *node;
    proof { lemma_prop_slot(n0.properties@, name@); }
    let mut k: usize = 0;
    while k < node.properties.len()
        invariant
            0 <= k <= node.properties@.len(),
            *node == n0,
            n0 == *old(node),
            forall|j: int| 0 <= j < k ==> node.properties@[j].name@ != name@,
        decreases node.properties@.len() - k,
    {
        if node.properties[k].name == *name {
            proof { lemma_prop_pos(node.properties@, name@, k as int); }
            let ghost p0 = node.properties@[k as int];
            let ghost vv = value@;
            node.properties[k].value = value;
            node.properties[k].deleted = false;
            touch(&mut node.properties[k].provenance, loc);
            proof {
                lemma_prop_slot(n0.properties@, name@);
                assert(node.properties@ =~= n0.properties@.update(k as int, node.properties@[k as int]));
                lemma_prop_changed(n0, *node, k as int);
                lemma_shape_props(n0, *node);
                lemma_touched_view(p0.provenance, node.properties@[k as int].provenance, loc);
                assert(node.properties@.map_values(|p: DtProperty| prop_view(p))
                    =~= shape_of(n0).props.update(k as int, (name@, vv, false, touch_view(prop_view(p0).3, loc_view(loc)))));
            }
            return;
        }
        k += 1;
    }
    proof {
        assert(prop_pos(n0.properties@, name@) is None) by {
            if exists|i: int| is_first_prop(n0.properties@, name@, i) {
                let i = choose|i: int| is_first_prop(n0.properties@, name@, i);
                assert(n0.properties@[i].name@ != name@);
            }
        }
    }
    let ghost vv = value@;
    node.properties.push(DtProperty {
        name: name.clone(),
        value,
        deleted: false,
        provenance: Some(Provenance::new(loc)),
    });
    proof {
        lemma_shape_props(n0, *node);
        assert(node.properties@.last().provenance->0.modified@.map_values(|l: SourceLoc| loc_view(l)) =~= Seq::<(Seq<char>, u32)>::empty());
        assert(node.properties@.map_values(|p: DtProperty| prop_view(p))
            =~= shape_of(n0).props.push((name@, vv, false, touch_view(None, loc_view(loc)))));
        lemma_extends_refl(n0);
        assert(node.properties@.drop_last() =~= n0.properties@);
        assert forall|j: int| 0 <= j < n0.properties@.len() implies prop_extends(n0.properties@[j], #[trigger] node.properties@[j]) by {
            assert(node.properties@[j] == n0.properties@[j]);
        }
        if wf_tree(n0) {
            assert forall|x: int, y: int| 0 <= x < y < node.properties@.len() implies node.properties@[x].name@ != node.properties@[y].name@ by {
                if y == node.properties@.len() - 1 {
                    assert(node.properties@[x] == n0.properties@[x]);
                } else {
                    assert(node.properties@[x] == n0.properties@[x]);
                    assert(node.properties@[y] == n0.properties@[y]);
                }
            }
            assert forall|j: int| 0 <= j < node.children@.len() implies wf_tree(#[trigger] node.children@[j]) by {
                assert(node.children@[j] == n0.children@[j]);
            }
        }
    }
}

// ---------------------------------------------------------------------------
// Parser: token stream -> merged tree with provenance
// ---------------------------------------------------------------------------

/// A `&label` or `&{/path}` reference.
pub enum RefTarget {
    Label(String),
    Path(String),
}

pub struct Parser<'a> {
    pub toks: &'a [Tok],
    pub pos: usize,
    pub files: &'a [String],
    /// label -> absolute node path; a later entry for a label wins.
    pub labels: Vec<(String, String)>,
    pub warnings: Vec<String>,
}

/// Display name of file `f`, `?` when unknown.
pub open spec fn file_name(files: Seq<String>, f: usize) -> Seq<char> {
    if f < files.len() { files[f as int]@ } else { "?"@ }
}

/// `loc` is where token `t` stands.
pub open spec fn loc_of(files: Seq<String>, t: Tok, loc: SourceLoc) -> bool {
    loc.file@ == file_name(files, t.file) && loc.line == t.line
}

pub open spec fn loc_text(files: Seq<String>, t: Tok) -> Seq<char> {
    file_name(files, t.file) + seq![':'] + dec_str(t.line as nat)
}

/// A parse error reported at token `i`.
pub open spec fn err_text(files: Seq<String>, toks: Seq<Tok>, i: int, msg: Seq<char>) -> Seq<char> {
    parse_err(string_views(files), toks, i, msg)
}

/// The message for a missing punctuation character `c`.
pub open spec fn expected_punct(c: char) -> Seq<char> {
    "expected `"@ + seq![c] + "`"@
}

/// A parse error reported at token `i`, over the file names `files`.
pub open spec fn parse_err(files: Seq<Seq<char>>, toks: Seq<Tok>, i: int, msg: Seq<char>) -> Seq<char> {
    if 0 <= i < toks.len() {
        at_text(files, toks[i]) + ": "@ + msg + " (found `"@ + toks[i].text@ + "`)"@
    } else {
        msg + " (at end of input)"@
    }
}

/// Characters that may appear in punctuation tokens inside a name.
pub open spec fn is_name_punct(c: char) -> bool {
    c == '#' || c == ',' || c == '.' || c == '+' || c == '*' || c == '?' || c == '@' || c == '-' || c == '_'
}

pub open spec fn is_name_start(t: Tok) -> bool {
    t.kind == TokKind::Ident || t.kind == TokKind::Num || t.spec_is_punct('#')
}

pub open spec fn is_name_part(t: Tok) -> bool {
    ||| t.kind == TokKind::Ident
    ||| t.kind == TokKind::Num
    ||| t.kind == TokKind::Punct && forall|k: int| 0 <= k < t.text@.len() ==> is_name_punct(#[trigger] t.text@[k])
}

/// Where a name continued at `i` ends: the glued name parts that follow.
pub open spec fn name_end(toks: Seq<Tok>, i: int) -> int
    decreases toks.len() - i,
{
    if 0 <= i < toks.len() && toks[i].glued && is_name_part(toks[i]) {
        name_end(toks, i + 1)
    } else {
        i
    }
}

/// The texts of tokens `lo..hi`, concatenated.
pub open spec fn joined_text(toks: Seq<Tok>, lo: int, hi: int) -> Seq<char>
    decreases hi - lo,
{
    if hi <= lo {
        Seq::empty()
    } else {
        joined_text(toks, lo, hi - 1) + toks[hi - 1].text@
    }
}

/// Scans a property value from token `i` with the given bracket depths
/// and the text so far: the position of the terminating `;` (or of the
/// error), the value text, and the error when there is one.
pub open spec fn value_scan(toks: Seq<Tok>, i: int, paren: int, brack: int, out: Seq<char>)
    -> (int, Seq<char>, Option<Seq<char>>)
    decreases toks.len() - i,
{
    if i < 0 || i >= toks.len() {
        (i, out, Some("unterminated property value"@))
    } else {
        let t = toks[i];
        if paren == 0 && brack == 0 && t.spec_is_punct(';') {
            (i, out, None)
        } else if t.spec_is_punct('{') || t.spec_is_punct('}') {
            (i, out, Some("unexpected brace in property value"@))
        } else {
            let p2 = if t.spec_is_punct('(') { paren + 1 } else if t.spec_is_punct(')') { paren - 1 } else { paren };
            let b2 = if t.spec_is_punct('[') { brack + 1 } else if t.spec_is_punct(']') { brack - 1 } else { brack };
            let sep: Seq<char> = if out.len() > 0 && !t.glued { seq![' '] } else { Seq::empty() };
            let piece: Seq<char> = if t.kind == TokKind::SlashKw { seq!['/'] + t.text@ + seq!['/'] } else { t.text@ };
            value_scan(toks, i + 1, p2, b2, out + sep + piece)
        }
    }
}

/// Position just after the `}` that closes a block at the given depth.
pub open spec fn block_end(toks: Seq<Tok>, i: int, depth: int) -> Option<int>
    decreases toks.len() - i,
{
    if depth <= 0 {
        Some(i)
    } else if i < 0 || i >= toks.len() {
        None
    } else if toks[i].spec_is_punct('{') {
        block_end(toks, i + 1, depth + 1)
    } else if toks[i].spec_is_punct('}') {
        block_end(toks, i + 1, depth - 1)
    } else {
        block_end(toks, i + 1, depth)
    }
}

/// The path inside a `&{...}` token.
pub open spec fn path_inner(t: Seq<char>) -> Seq<char> {
    if t.len() >= 3 { t.subrange(2, t.len() - 1) } else { Seq::empty() }
}


/// Label entries as (label, path).
pub open spec fn label_views(labels: Seq<(String, String)>) -> Seq<(Seq<char>, Seq<char>)> {
    labels.map_values(|e: (String, String)| (e.0@, e.1@))
}

/// The path a label stands for: its latest entry.
pub open spec fn label_lookup(labels: Seq<(Seq<char>, Seq<char>)>, l: Seq<char>) -> Option<Seq<char>>
    decreases labels.len(),
{
    if labels.len() == 0 {
        None
    } else if labels.last().0 == l {
        Some(labels.last().1)
    } else {
        label_lookup(labels.drop_last(), l)
    }
}

pub open spec fn resolved(labels: Seq<(Seq<char>, Seq<char>)>, target: RefTarget) -> Option<Seq<char>> {
    match target {
        RefTarget::Label(l) => label_lookup(labels, l@),
        RefTarget::Path(p) => Some(p@),
    }
}

pub open spec fn ref_text(target: RefTarget) -> Seq<char> {
    match target {
        RefTarget::Label(l) => "&"@ + l@,
        RefTarget::Path(p) => "&{"@ + p@ + "}"@,
    }
}

/// `b` is `a` moved forward over the same input, with labels and warnings
/// kept.
pub open spec fn moved<'a>(a: Parser<'a>, b: Parser<'a>) -> bool {
    &&& b.toks@ == a.toks@
    &&& b.files@ == a.files@
    &&& b.labels@ == a.labels@
    &&& b.warnings@ == a.warnings@
    &&& a.pos <= b.pos <= b.toks@.len()
}

/// `b` continued from `a` over the same input: position forward, warnings
/// only appended.
pub open spec fn advanced<'a>(a: Parser<'a>, b: Parser<'a>) -> bool {
    &&& b.toks@ == a.toks@
    &&& b.files@ == a.files@
    &&& a.warnings@.is_prefix_of(b.warnings@)
    &&& a.pos <= b.pos <= b.toks@.len()
}

pub fn is_name_punct_char(c: char) -> (r: bool)
    ensures
        r == is_name_punct(c),
{
    c == '#' || c == ',' || c == '.' || c == '+' || c == '*' || c == '?' || c == '@' || c == '-' || c == '_'
}

pub fn name_start(t: &Tok) -> (r: bool)
    ensures
        r == is_name_start(*t),
{
    t.kind == TokKind::Ident || t.kind == TokKind::Num || t.is_punct('#')
}

pub fn name_part(t: &Tok) -> (r: bool)
    ensures
        r == is_name_part(*t),
{
    if t.kind == TokKind::Ident || t.kind == TokKind::Num {
        return true;
    }
    if t.kind != TokKind::Punct {
        return false;
    }
    let mut k: usize = 0;
    while k < t.text.len()
        invariant
            0 <= k <= t.text@.len(),
            t.kind == TokKind::Punct,
            forall|j: int| 0 <= j < k ==> is_name_punct(#[trigger] t.text@[j]),
        decreases t.text@.len() - k,
    {
        if !is_name_punct_char(t.text[k]) {
            assert(!is_name_punct(t.text@[k as int]));
            return false;
        }
        k += 1;
    }
    true
}

/// `b` is `a` with child `i` marked deleted and touched at `loc`.
pub open spec fn child_deleted(a: DtNode, b: DtNode, i: int, loc: SourceLoc) -> bool {
    &&& same_but_children(a, b)
    &&& b.children@.len() == a.children@.len()
    &&& forall|j: int| 0 <= j < a.children@.len() && j != i ==> b.children@[j] == a.children@[j]
    &&& b.children@[i].name == a.children@[i].name
    &&& b.children@[i].labels == a.children@[i].labels
    &&& b.children@[i].properties == a.children@[i].properties
    &&& b.children@[i].children == a.children@[i].children
    &&& b.children@[i].deleted
    &&& touched(a.children@[i].provenance, b.children@[i].provenance, loc)
}

/// `b` is `a` with property `i` marked deleted and touched at `loc`.
pub open spec fn prop_deleted(a: DtNode, b: DtNode, i: int, loc: SourceLoc) -> bool {
    &&& b.name == a.name
    &&& b.labels == a.labels
    &&& b.children == a.children
    &&& b.deleted == a.deleted
    &&& b.provenance == a.provenance
    &&& b.properties@.len() == a.properties@.len()
    &&& forall|j: int| 0 <= j < a.properties@.len() && j != i ==> b.properties@[j] == a.properties@[j]
    &&& b.properties@[i].name == a.properties@[i].name
    &&& b.properties@[i].value == a.properties@[i].value
    &&& b.properties@[i].deleted
    &&& touched(a.properties@[i].provenance, b.properties@[i].provenance, loc)
}

/// `b` is `a` with one more message, `m`.
pub open spec fn pushed(a: Seq<String>, b: Seq<String>, m: Seq<char>) -> bool {
    &&& b.len() == a.len() + 1
    &&& b.drop_last() == a
    &&& b.last()@ == m
}

/// Where a run of `label:` pairs starting at `i` ends.
pub open spec fn labels_end(toks: Seq<Tok>, i: int) -> int
    decreases toks.len() - i,
{
    if 0 <= i && i + 1 < toks.len() && toks[i].kind == TokKind::Ident && toks[i + 1].spec_is_punct(':') {
        labels_end(toks, i + 2)
    } else {
        i
    }
}

/// The labels of the run of `label:` pairs starting at `i`.
pub open spec fn labels_at(toks: Seq<Tok>, i: int) -> Seq<Seq<char>>
    decreases toks.len() - i,
{
    if 0 <= i && i + 1 < toks.len() && toks[i].kind == TokKind::Ident && toks[i + 1].spec_is_punct(':') {
        seq![toks[i].text@] + labels_at(toks, i + 2)
    } else {
        Seq::empty()
    }
}

/// Where parsing a node body ends (just after its `}`), the node's new
/// shape, and the label entries then.
pub struct BodyOut {
    pub pos: int,
    pub shape: Shape,
    pub labels: Seq<(Seq<char>, Seq<char>)>,
    pub warnings: Seq<Seq<char>>,
}

/// `file:line` of token `t`, over the file names `files`.
pub open spec fn at_text(files: Seq<Seq<char>>, t: Tok) -> Seq<char> {
    tok_loc(files, t).0 + seq![':'] + dec_str(t.line as nat)
}

pub proof fn lemma_at_text(files: Seq<String>, t: Tok)
    ensures
        loc_text(files, t) == at_text(string_views(files), t),
{
}

/// `b` is `a` with one more message `m`, as plain text.
pub proof fn lemma_pushed_view(a: Seq<String>, b: Seq<String>, m: Seq<char>)
    requires
        pushed(a, b, m),
    ensures
        string_views(b) == string_views(a).push(m),
{
    assert(string_views(b) =~= string_views(a).push(m)) by {
        assert forall|k: int| 0 <= k < a.len() implies b[k] == a[k] by {
            assert(b[k] == b.drop_last()[k]);
        }
    }
}

/// The path of child `name` of the node at `path`.
pub open spec fn child_path_of(path: Seq<char>, name: Seq<char>) -> Seq<char> {
    if path == "/"@ { path + name } else { path + seq!['/'] + name }
}

/// Label entries giving each of `ls` the path `p`.
pub open spec fn label_entries(ls: Seq<Seq<char>>, p: Seq<char>) -> Seq<(Seq<char>, Seq<char>)> {
    ls.map_values(|l: Seq<char>| (l, p))
}

pub proof fn lemma_labels_end(toks: Seq<Tok>, i: int)
    requires
        0 <= i,
    ensures
        i <= labels_end(toks, i),
    decreases toks.len() - i,
{
    if 0 <= i && i + 1 < toks.len() && toks[i].kind == TokKind::Ident && toks[i + 1].spec_is_punct(':') {
        lemma_labels_end(toks, i + 2);
    }
}

/// Parsing a node body from `pos` (after its `{`) for the node at `path`
/// whose shape is `sh`, with label entries `labels`: where it ends, the
/// node's new shape and the label entries, or the error when the tokens do
/// not parse.
pub open spec fn body_parse(toks: Seq<Tok>, files: Seq<Seq<char>>, pos: int, sh: Shape, path: Seq<char>,
    labels: Seq<(Seq<char>, Seq<char>)>, warns: Seq<Seq<char>>) -> Result<BodyOut, Seq<char>>
    decreases toks.len() - pos,
{
    if pos < 0 || pos >= toks.len() {
        Err(parse_err(files, toks, pos, "unterminated node block"@))
    } else {
        let t = toks[pos];
        if t.spec_is_punct('}') {
            Ok(BodyOut { pos: pos + 1, shape: sh, labels, warnings: warns })
        } else if t.kind == TokKind::SlashKw {
            if t.text@ == "delete-node"@ || t.text@ == "delete-property"@ {
                let p = pos + 1;
                if p < toks.len() && is_name_start(toks[p]) {
                    let e = name_end(toks, p + 1);
                    proof { lemma_name_end(toks, p + 1); }
                    let name = joined_text(toks, p, e);
                    if e < toks.len() && toks[e].spec_is_punct(';') {
                        if t.text@ == "delete-node"@ {
                            body_parse(toks, files, e + 1, without_child(sh, name, tok_loc(files, toks[p])), path, labels,
                                if shape_pos(sh.children, name) is Some { warns } else {
                                    warns.push(at_text(files, toks[p]) + ": /delete-node/ "@ + name + ": no such node in "@ + path)
                                })
                        } else {
                            body_parse(toks, files, e + 1, without_prop(sh, name, tok_loc(files, toks[p])), path, labels,
                                if prop_slot(sh.props, name) is Some { warns } else {
                                    warns.push(at_text(files, toks[p]) + ": /delete-property/ "@ + name + ": no such property in "@ + path)
                                })
                        }
                    } else {
                        Err(parse_err(files, toks, e, expected_punct(';')))
                    }
                } else {
                    Err(parse_err(files, toks, p, "expected name"@))
                }
            } else if t.text@ == "omit-if-no-ref"@ {
                body_parse(toks, files, pos + 1, sh, path, labels, warns)
            } else {
                Err(parse_err(files, toks, pos, "unexpected keyword in node body"@))
            }
        } else {
            let q = labels_end(toks, pos);
            proof { lemma_labels_end(toks, pos); }
            if q < toks.len() && is_name_start(toks[q]) {
                let e = name_end(toks, q + 1);
                proof { lemma_name_end(toks, q + 1); }
                let name = joined_text(toks, q, e);
                if e >= toks.len() {
                    Err(parse_err(files, toks, e, "unexpected end of node body"@))
                } else if toks[e].spec_is_punct('{') {
                    let cp = child_path_of(path, name);
                    let (sh1, ci) = shape_with_child(sh, name, tok_loc(files, toks[q]));
                    match body_parse(toks, files, e + 1, with_labels(sh1.children[ci], labels_at(toks, pos)), cp,
                        labels + label_entries(labels_at(toks, pos), cp), warns) {
                        Ok(out) => if e < out.pos < toks.len() && toks[out.pos].spec_is_punct(';') {
                            body_parse(toks, files, out.pos + 1, Shape { children: sh1.children.update(ci, out.shape), ..sh1 },
                                path, out.labels, out.warnings)
                        } else {
                            Err(parse_err(files, toks, out.pos, expected_punct(';')))
                        },
                        Err(m) => Err(m),
                    }
                } else if toks[e].spec_is_punct('=') {
                    let (j, text, err) = value_scan(toks, e + 1, 0, 0, Seq::empty());
                    if err is None {
                        proof { lemma_value_scan_end(toks, e + 1, 0, 0, Seq::empty()); }
                        body_parse(toks, files, j + 1, with_prop(sh, name, text, tok_loc(files, toks[q])), path, labels,
                            if labels_at(toks, pos).len() > 0 {
                                warns.push(at_text(files, toks[q]) + ": labels on property "@ + name + " ignored"@)
                            } else { warns })
                    } else {
                        Err(parse_err(files, toks, j, err->0))
                    }
                } else if toks[e].spec_is_punct(';') {
                    body_parse(toks, files, e + 1, with_prop(sh, name, Seq::empty(), tok_loc(files, toks[q])), path, labels, warns)
                } else {
                    Err(parse_err(files, toks, e, "expected `{`, `=` or `;` after `"@ + name + "`"@))
                }
            } else {
                Err(parse_err(files, toks, q, "expected name"@))
            }
        }
    }
}

/// How a node body continues past a child block statement at `pos`.
pub proof fn lemma_body_child(toks: Seq<Tok>, files: Seq<Seq<char>>, pos: int, sh: Shape, path: Seq<char>,
    labels: Seq<(Seq<char>, Seq<char>)>, warns: Seq<Seq<char>>)
    requires
        0 <= pos < toks.len(),
        !toks[pos].spec_is_punct('}'),
        toks[pos].kind != TokKind::SlashKw,
        labels_end(toks, pos) < toks.len(),
        is_name_start(toks[labels_end(toks, pos)]),
        name_end(toks, labels_end(toks, pos) + 1) < toks.len(),
        toks[name_end(toks, labels_end(toks, pos) + 1)].spec_is_punct('{'),
    ensures
        ({
            let q = labels_end(toks, pos);
            let e = name_end(toks, q + 1);
            let name = joined_text(toks, q, e);
            let cp = child_path_of(path, name);
            let (sh1, ci) = shape_with_child(sh, name, tok_loc(files, toks[q]));
            body_parse(toks, files, pos, sh, path, labels, warns) == match body_parse(toks, files, e + 1,
                with_labels(sh1.children[ci], labels_at(toks, pos)), cp, labels + label_entries(labels_at(toks, pos), cp), warns) {
                Ok(out) => if e < out.pos < toks.len() && toks[out.pos].spec_is_punct(';') {
                    body_parse(toks, files, out.pos + 1, Shape { children: sh1.children.update(ci, out.shape), ..sh1 },
                        path, out.labels, out.warnings)
                } else {
                    Err(parse_err(files, toks, out.pos, expected_punct(';')))
                },
                Err(m) => Err(m),
            }
        }),
{
}

/// How a node body continues past a property statement at `pos`.
pub proof fn lemma_body_prop(toks: Seq<Tok>, files: Seq<Seq<char>>, pos: int, sh: Shape, path: Seq<char>,
    labels: Seq<(Seq<char>, Seq<char>)>, warns: Seq<Seq<char>>)
    requires
        0 <= pos < toks.len(),
        !toks[pos].spec_is_punct('}'),
        toks[pos].kind != TokKind::SlashKw,
        labels_end(toks, pos) < toks.len(),
        is_name_start(toks[labels_end(toks, pos)]),
        name_end(toks, labels_end(toks, pos) + 1) < toks.len(),
        toks[name_end(toks, labels_end(toks, pos) + 1)].spec_is_punct('=')
            || toks[name_end(toks, labels_end(toks, pos) + 1)].spec_is_punct(';'),
    ensures
        ({
            let q = labels_end(toks, pos);
            let e = name_end(toks, q + 1);
            let name = joined_text(toks, q, e);
            let (j, text, err) = value_scan(toks, e + 1, 0, 0, Seq::empty());
            body_parse(toks, files, pos, sh, path, labels, warns) == if toks[e].spec_is_punct(';') {
                body_parse(toks, files, e + 1, with_prop(sh, name, Seq::empty(), tok_loc(files, toks[q])), path, labels, warns)
            } else if err is None {
                body_parse(toks, files, j + 1, with_prop(sh, name, text, tok_loc(files, toks[q])), path, labels,
                    if labels_at(toks, pos).len() > 0 {
                        warns.push(at_text(files, toks[q]) + ": labels on property "@ + name + " ignored"@)
                    } else { warns })
            } else {
                Err(parse_err(files, toks, j, err->0))
            }
        }),
{
    let e = name_end(toks, labels_end(toks, pos) + 1);
    assert(toks[e].text@[0] == ';' || toks[e].text@[0] == '=');
    assert(!toks[e].spec_is_punct('{'));
    assert(toks[e].spec_is_punct(';') ==> !toks[e].spec_is_punct('='));
}

/// How a node body continues past a deletion statement at `pos`.
pub proof fn lemma_body_delete(toks: Seq<Tok>, files: Seq<Seq<char>>, pos: int, sh: Shape, path: Seq<char>,
    labels: Seq<(Seq<char>, Seq<char>)>, warns: Seq<Seq<char>>)
    requires
        0 <= pos < toks.len(),
        toks[pos].kind == TokKind::SlashKw,
        toks[pos].text@ == "delete-node"@ || toks[pos].text@ == "delete-property"@,
    ensures
        ({
            let p = pos + 1;
            let e = name_end(toks, p + 1);
            let name = joined_text(toks, p, e);
            body_parse(toks, files, pos, sh, path, labels, warns) ==
                if !(p < toks.len() && is_name_start(toks[p])) {
                    Err(parse_err(files, toks, p, "expected name"@))
                } else if !(e < toks.len() && toks[e].spec_is_punct(';')) {
                    Err(parse_err(files, toks, e, expected_punct(';')))
                } else {
                    if toks[pos].text@ == "delete-node"@ {
                        body_parse(toks, files, e + 1, without_child(sh, name, tok_loc(files, toks[p])), path, labels,
                            if shape_pos(sh.children, name) is Some { warns } else {
                                warns.push(at_text(files, toks[p]) + ": /delete-node/ "@ + name + ": no such node in "@ + path)
                            })
                    } else {
                        body_parse(toks, files, e + 1, without_prop(sh, name, tok_loc(files, toks[p])), path, labels,
                            if prop_slot(sh.props, name) is Some { warns } else {
                                warns.push(at_text(files, toks[p]) + ": /delete-property/ "@ + name + ": no such property in "@ + path)
                            })
                    }
                }
        }),
{
}

/// Parsing a `{ ... }` node body from `pos`.
pub open spec fn block_parse(toks: Seq<Tok>, files: Seq<Seq<char>>, pos: int, sh: Shape, path: Seq<char>,
    labels: Seq<(Seq<char>, Seq<char>)>, warns: Seq<Seq<char>>) -> Result<BodyOut, Seq<char>>
{
    if 0 <= pos < toks.len() && toks[pos].spec_is_punct('{') {
        body_parse(toks, files, pos + 1, sh, path, labels, warns)
    } else {
        Err(parse_err(files, toks, pos, expected_punct('{')))
    }
}

/// The error a reference that does not stand at `p` is reported with.
pub open spec fn ref_err(files: Seq<Seq<char>>, toks: Seq<Tok>, p: int) -> Seq<char> {
    if p < 0 || p >= toks.len() {
        parse_err(files, toks, p, "expected reference"@)
    } else if toks[p].spec_is_punct('&') {
        parse_err(files, toks, p + 1, "expected label after `&`"@)
    } else {
        parse_err(files, toks, p, "expected `&label` or `&{path}` reference"@)
    }
}

/// `sh` with the node at `target` marked deleted and touched at `l`, when
/// there is one.
pub open spec fn deleted_at(sh: Shape, target: Option<Seq<char>>, l: (Seq<char>, u32)) -> Shape {
    match target {
        Some(pth) => match shape_at(sh, path_segments(pth)) {
            Some(n) => shape_put(sh, path_segments(pth), shape_deleted(n, l)),
            None => sh,
        },
        None => sh,
    }
}

/// A reference stands at `p`: a `&{...}` token, or `&` and a label.
pub open spec fn ref_ok(toks: Seq<Tok>, p: int) -> bool {
    &&& 0 <= p < toks.len()
    &&& toks[p].kind == TokKind::PathRef || (toks[p].spec_is_punct('&') && p + 1 < toks.len()
        && toks[p + 1].kind == TokKind::Ident)
}

/// Position after the reference at `p`.
pub open spec fn ref_end(toks: Seq<Tok>, p: int) -> int {
    if toks[p].kind == TokKind::PathRef { p + 1 } else { p + 2 }
}

/// The path the reference at `p` resolves to, if any.
pub open spec fn ref_path(labels: Seq<(Seq<char>, Seq<char>)>, toks: Seq<Tok>, p: int) -> Option<Seq<char>> {
    if toks[p].kind == TokKind::PathRef {
        Some(path_inner(toks[p].text@))
    } else {
        label_lookup(labels, toks[p + 1].text@)
    }
}

/// The reference at `p` as it is reported.
pub open spec fn ref_desc_at(toks: Seq<Tok>, p: int) -> Seq<char> {
    if toks[p].kind == TokKind::PathRef {
        "&{"@ + path_inner(toks[p].text@) + "}"@
    } else {
        "&"@ + toks[p + 1].text@
    }
}

/// First position at or after `i` holding punctuation `c`.
pub open spec fn punct_from(toks: Seq<Tok>, i: int, c: char) -> Option<int>
    decreases toks.len() - i,
{
    if i < 0 || i >= toks.len() {
        None
    } else if toks[i].spec_is_punct(c) {
        Some(i)
    } else {
        punct_from(toks, i + 1, c)
    }
}

pub proof fn lemma_punct_from(toks: Seq<Tok>, i: int, c: char)
    requires
        0 <= i,
    ensures
        punct_from(toks, i, c) matches Some(j) ==> i <= j < toks.len() && toks[j].spec_is_punct(c),
    decreases toks.len() - i,
{
    if i < toks.len() && !toks[i].spec_is_punct(c) {
        lemma_punct_from(toks, i + 1, c);
    }
}

pub proof fn lemma_block_end(toks: Seq<Tok>, i: int, depth: int)
    requires
        0 <= i <= toks.len(),
    ensures
        block_end(toks, i, depth) matches Some(j) ==> i <= j <= toks.len(),
    decreases toks.len() - i,
{
    if depth > 0 && i < toks.len() {
        if toks[i].spec_is_punct('{') {
            lemma_block_end(toks, i + 1, depth + 1);
        } else if toks[i].spec_is_punct('}') {
            lemma_block_end(toks, i + 1, depth - 1);
        } else {
            lemma_block_end(toks, i + 1, depth);
        }
    }
}

/// Parsing the top level from `pos` with the root's shape `sh`, label
/// entries `labels`, and the labels `pending` for the next block: the final
/// shape and label entries, or the error when the tokens do not parse.
pub open spec fn top_parse(toks: Seq<Tok>, files: Seq<Seq<char>>, pos: int, sh: Shape, labels: Seq<(Seq<char>, Seq<char>)>,
    pending: Seq<Seq<char>>, warns: Seq<Seq<char>>) -> Result<(Shape, Seq<(Seq<char>, Seq<char>)>, Seq<Seq<char>>), Seq<char>>
    decreases toks.len() - pos,
{
    if pos < 0 {
        Err(parse_err(files, toks, pos, "unexpected token at top level"@))
    } else if pos >= toks.len() {
        Ok((sh, labels, warns))
    } else {
        let t = toks[pos];
        if t.kind == TokKind::SlashKw {
            if t.text@ == "dts-v1"@ || t.text@ == "plugin"@ {
                if pos + 1 < toks.len() && toks[pos + 1].spec_is_punct(';') {
                    top_parse(toks, files, pos + 2, sh, labels, pending, warns)
                } else {
                    Err(parse_err(files, toks, pos + 1, expected_punct(';')))
                }
            } else if t.text@ == "memreserve"@ {
                proof { lemma_punct_from(toks, pos + 1, ';'); }
                match punct_from(toks, pos + 1, ';') {
                    Some(j) => top_parse(toks, files, j + 1, sh, labels, pending, warns),
                    None => Err(parse_err(files, toks, toks.len() as int, expected_punct(';'))),
                }
            } else if t.text@ == "omit-if-no-ref"@ {
                top_parse(toks, files, pos + 1, sh, labels, pending, warns)
            } else if t.text@ == "delete-node"@ {
                let p = pos + 1;
                if !ref_ok(toks, p) {
                    Err(ref_err(files, toks, p))
                } else if !(ref_end(toks, p) < toks.len() && toks[ref_end(toks, p)].spec_is_punct(';')) {
                    Err(parse_err(files, toks, ref_end(toks, p), expected_punct(';')))
                } else {
                    top_parse(toks, files, ref_end(toks, p) + 1, deleted_at(sh, ref_path(labels, toks, p), tok_loc(files, toks[p])),
                        labels, pending,
                        if ref_path(labels, toks, p) is Some && shape_at(sh, path_segments(ref_path(labels, toks, p)->0)) is Some {
                            warns
                        } else {
                            warns.push(at_text(files, toks[p]) + ": /delete-node/ target "@ + ref_desc_at(toks, p) + " not found"@)
                        })
                }
            } else {
                Err(parse_err(files, toks, pos, "unexpected keyword at top level"@))
            }
        } else if t.spec_is_punct('/') {
            match block_parse(toks, files, pos + 1, with_labels(shape_touched(sh, tok_loc(files, t)), pending), "/"@,
                labels + label_entries(pending, "/"@), warns) {
                Ok(out) => if pos < out.pos < toks.len() && toks[out.pos].spec_is_punct(';') {
                    top_parse(toks, files, out.pos + 1, out.shape, out.labels, Seq::empty(), out.warnings)
                } else {
                    Err(parse_err(files, toks, out.pos, expected_punct(';')))
                },
                Err(m) => Err(m),
            }
        } else if t.kind == TokKind::Ident && pos + 1 < toks.len() && toks[pos + 1].spec_is_punct(':') {
            top_parse(toks, files, pos + 2, sh, labels, pending.push(t.text@), warns)
        } else if t.kind == TokKind::PathRef || t.spec_is_punct('&') {
            if !ref_ok(toks, pos) {
                Err(ref_err(files, toks, pos))
            } else {
                let e = ref_end(toks, pos);
                let target = ref_path(labels, toks, pos);
                if target is Some && shape_at(sh, path_segments(target->0)) is Some {
                    let pth = target->0;
                    let segs = path_segments(pth);
                    match block_parse(toks, files, e, with_labels(shape_touched(shape_at(sh, segs)->0, tok_loc(files, toks[pos])), pending), pth,
                        labels + label_entries(pending, pth), warns) {
                        Ok(out) => if e < out.pos < toks.len() && toks[out.pos].spec_is_punct(';') {
                            top_parse(toks, files, out.pos + 1, shape_put(sh, segs, out.shape), out.labels, Seq::empty(), out.warnings)
                        } else {
                            Err(parse_err(files, toks, out.pos, expected_punct(';')))
                        },
                        Err(m) => Err(m),
                    }
                } else if e < toks.len() && toks[e].spec_is_punct('{') {
                    proof { lemma_block_end(toks, e + 1, 1); }
                    match block_end(toks, e + 1, 1) {
                        Some(j) => top_parse(toks, files, if j < toks.len() && toks[j].spec_is_punct(';') { j + 1 } else { j },
                            sh, labels, Seq::empty(),
                            warns.push(at_text(files, toks[pos]) + ": unresolved reference "@ + ref_desc_at(toks, pos) + "; block skipped"@)),
                        None => Err(parse_err(files, toks, toks.len() as int, "unterminated block"@)),
                    }
                } else {
                    Err(parse_err(files, toks, e, expected_punct('{')))
                }
            }
        } else {
            Err(parse_err(files, toks, pos, "unexpected token at top level"@))
        }
    }
}

/// How the top level continues past a reference block at `pos`.
pub proof fn lemma_top_ref(toks: Seq<Tok>, files: Seq<Seq<char>>, pos: int, sh: Shape, labels: Seq<(Seq<char>, Seq<char>)>,
    pending: Seq<Seq<char>>, warns: Seq<Seq<char>>)
    requires
        0 <= pos < toks.len(),
        toks[pos].kind == TokKind::PathRef || toks[pos].spec_is_punct('&'),
    ensures
        top_parse(toks, files, pos, sh, labels, pending, warns) == if !ref_ok(toks, pos) {
            Err(ref_err(files, toks, pos))
        } else {
            let e = ref_end(toks, pos);
            let target = ref_path(labels, toks, pos);
            if target is Some && shape_at(sh, path_segments(target->0)) is Some {
                let pth = target->0;
                let segs = path_segments(pth);
                match block_parse(toks, files, e, with_labels(shape_touched(shape_at(sh, segs)->0, tok_loc(files, toks[pos])), pending), pth,
                        labels + label_entries(pending, pth), warns) {
                    Ok(out) => if e < out.pos < toks.len() && toks[out.pos].spec_is_punct(';') {
                        top_parse(toks, files, out.pos + 1, shape_put(sh, segs, out.shape), out.labels, Seq::empty(), out.warnings)
                    } else {
                        Err(parse_err(files, toks, out.pos, expected_punct(';')))
                    },
                    Err(m) => Err(m),
                }
            } else if e < toks.len() && toks[e].spec_is_punct('{') {
                match block_end(toks, e + 1, 1) {
                    Some(j) => top_parse(toks, files, if j < toks.len() && toks[j].spec_is_punct(';') { j + 1 } else { j },
                        sh, labels, Seq::empty(),
                        warns.push(at_text(files, toks[pos]) + ": unresolved reference "@ + ref_desc_at(toks, pos) + "; block skipped"@)),
                    None => Err(parse_err(files, toks, toks.len() as int, "unterminated block"@)),
                }
            } else {
                Err(parse_err(files, toks, e, expected_punct('{')))
            }
        },
{
    assert(toks[pos].kind != TokKind::SlashKw);
    assert(toks[pos].kind != TokKind::Ident);
    if toks[pos].spec_is_punct('&') {
        assert(toks[pos].text@[0] == '&');
        assert(!toks[pos].spec_is_punct('/'));
    }
}


/// `b` is node `a` marked deleted and touched at `loc`.
pub open spec fn node_deleted(a: DtNode, b: DtNode, loc: SourceLoc) -> bool {
    &&& b.name == a.name
    &&& b.labels == a.labels
    &&& b.properties == a.properties
    &&& b.children == a.children
    &&& b.deleted
    &&& touched(a.provenance, b.provenance, loc)
}

pub proof fn lemma_name_end(toks: Seq<Tok>, i: int)
    ensures
        i <= name_end(toks, i),
    decreases toks.len() - i,
{
    if 0 <= i < toks.len() && toks[i].glued && is_name_part(toks[i]) {
        lemma_name_end(toks, i + 1);
    }
}

/// A value scan that ends without error ends at a `;` token.
pub proof fn lemma_value_scan_end(toks: Seq<Tok>, i: int, paren: int, brack: int, out: Seq<char>)
    requires
        0 <= i,
        value_scan(toks, i, paren, brack, out).2 is None,
    ensures
        i <= value_scan(toks, i, paren, brack, out).0 < toks.len(),
        toks[value_scan(toks, i, paren, brack, out).0].spec_is_punct(';'),
    decreases toks.len() - i,
{
    if i < toks.len() {
        let t = toks[i];
        if !(paren == 0 && brack == 0 && t.spec_is_punct(';')) && !(t.spec_is_punct('{') || t.spec_is_punct('}')) {
            let p2 = if t.spec_is_punct('(') { paren + 1 } else if t.spec_is_punct(')') { paren - 1 } else { paren };
            let b2 = if t.spec_is_punct('[') { brack + 1 } else if t.spec_is_punct(']') { brack - 1 } else { brack };
            let sep: Seq<char> = if out.len() > 0 && !t.glued { seq![' '] } else { Seq::empty() };
            let piece: Seq<char> = if t.kind == TokKind::SlashKw { seq!['/'] + t.text@ + seq!['/'] } else { t.text@ };
            lemma_value_scan_end(toks, i + 1, p2, b2, out + sep + piece);
        }
    }
}

/// A node whose child `i` grew and stayed well-formed, with nothing else
/// changed, grew and stays well-formed.
proof fn lemma_child_step(a: DtNode, b: DtNode, i: int)
    requires
        0 <= i < a.children@.len(),
        wf_tree(a),
        same_but_children(a, b),
        b.children@ == a.children@.update(i, b.children@[i]),
        tree_extends(a.children@[i], b.children@[i]),
        wf_tree(b.children@[i]),
    ensures
        tree_extends(a, b),
        wf_tree(b),
{
    lemma_extends_child(a, b, i);
    lemma_wf_child(a, b, i);
}

impl<'a> Parser<'a> {
    /// Where token `i` stands.
    pub fn loc(&self, i: usize) -> (r: SourceLoc)
        requires
            i < self.toks@.len(),
        ensures
            loc_of(self.files@, self.toks@[i as int], r),
    {
        let t = &self.toks[i];
        let file = if t.file < self.files.len() {
            self.files[t.file].clone()
        } else {
            String::from_str("?")
        };
        SourceLoc { file, line: t.line }
    }

    /// An error at the current token.
    pub fn err_at(&self, msg: &str) -> (r: String)
        ensures
            r@ == err_text(self.files@, self.toks@, self.pos as int, msg@),
    {
        if self.pos < self.toks.len() {
            let l = self.loc(self.pos);
            let mut out = l.to_string();
            out.append(": ");
            out.append(msg);
            out.append(" (found `");
            let t = &self.toks[self.pos];
            push_chars(&mut out, t.text.as_slice(), 0, t.text.len());
            assert(t.text@.subrange(0, t.text@.len() as int) =~= t.text@);
            out.append("`)");
            out
        } else {
            let mut out = String::from_str(msg);
            out.append(" (at end of input)");
            out
        }
    }

    pub fn expect_punct(&mut self, c: char) -> (r: Result<SourceLoc, String>)
        requires
            old(self).pos <= old(self).toks@.len(),
        ensures
            moved(*old(self), *final(self)),
            ({
                let p = old(self).pos as int;
                let toks = old(self).toks@;
                if p < toks.len() && toks[p].spec_is_punct(c) {
                    r matches Ok(l) && loc_of(old(self).files@, toks[p], l) && final(self).pos == p + 1
                } else {
                    r matches Err(e) && e@ == err_text(old(self).files@, toks, p, expected_punct(c))
                        && final(self).pos == p
                }
            }),
    {
        if self.pos < self.toks.len() && self.toks[self.pos].is_punct(c) {
            let l = self.loc(self.pos);
            self.pos += 1;
            Ok(l)
        } else {
            let mut m = String::from_str("expected `");
            push_char(&mut m, c);
            m.append("`");
            Err(self.err_at(m.as_str()))
        }
    }

    /// Node and property names span several tokens (`cpu@0`,
    /// `#size-cells`, `linux,code`); glues adjacent name tokens back
    /// together.
    pub fn glue_name(&mut self) -> (r: Result<(String, SourceLoc), String>)
        requires
            old(self).pos <= old(self).toks@.len(),
        ensures
            moved(*old(self), *final(self)),
            ({
                let p = old(self).pos as int;
                let toks = old(self).toks@;
                if p < toks.len() && is_name_start(toks[p]) {
                    let e = name_end(toks, p + 1);
                    r matches Ok((name, l)) && name@ == joined_text(toks, p, e)
                        && loc_of(old(self).files@, toks[p], l) && final(self).pos == e
                } else {
                    r matches Err(m) && m@ == err_text(old(self).files@, toks, p, "expected name"@)
                        && final(self).pos == p
                }
            }),
    {
        let toks = self.toks;
        if self.pos >= toks.len() || !name_start(&toks[self.pos]) {
            return Err(self.err_at("expected name"));
        }
        let start = self.pos;
        let l = self.loc(start);
        let mut name = string_of(toks[start].text.as_slice());
        assert(joined_text(toks@, start as int, start + 1) =~= toks@[start as int].text@) by {
            assert(joined_text(toks@, start as int, start as int) =~= Seq::<char>::empty());
        }
        self.pos = start + 1;
        while self.pos < toks.len() && toks[self.pos].glued && name_part(&toks[self.pos])
            invariant
                start < self.pos <= toks@.len(),
                toks@ == old(self).toks@,
                start == old(self).pos,
                moved(*old(self), *self),
                name@ == joined_text(toks@, start as int, self.pos as int),
                name_end(toks@, start + 1) == name_end(toks@, self.pos as int),
            decreases toks@.len() - self.pos,
        {
            let t = &toks[self.pos];
            push_chars(&mut name, t.text.as_slice(), 0, t.text.len());
            assert(t.text@.subrange(0, t.text@.len() as int) =~= t.text@);
            self.pos += 1;
        }
        Ok((name, l))
    }

    /// Reconstructs a property value as source text, keeping the source's
    /// spacing by token adjacency. Stops before the terminating `;`.
    pub fn parse_value(&mut self) -> (r: Result<String, String>)
        requires
            old(self).pos <= old(self).toks@.len(),
        ensures
            moved(*old(self), *final(self)),
            ({
                let (j, text, err) = value_scan(old(self).toks@, old(self).pos as int, 0, 0, Seq::empty());
                match err {
                    None => r matches Ok(v) && v@ == text && final(self).pos == j,
                    Some(m) => r matches Err(e) && e@ == err_text(old(self).files@, old(self).toks@, j, m),
                }
            }),
    {
        let toks = self.toks;
        let start = self.pos;
        let mut out = String::new();
        let mut any = false;
        let mut paren: i128 = 0;
        let mut brack: i128 = 0;
        loop
            invariant
                start <= self.pos <= toks@.len(),
                toks@ == old(self).toks@,
                start == old(self).pos,
                moved(*old(self), *self),
                -(self.pos - start) <= paren <= self.pos - start,
                -(self.pos - start) <= brack <= self.pos - start,
                any == (out@.len() > 0),
                value_scan(toks@, start as int, 0, 0, Seq::empty())
                    == value_scan(toks@, self.pos as int, paren as int, brack as int, out@),
            ensures
                moved(*old(self), *self),
                value_scan(toks@, start as int, 0, 0, Seq::empty()) == (self.pos as int, out@, None::<Seq<char>>),
            decreases toks@.len() - self.pos,
        {
            if self.pos >= toks.len() {
                return Err(self.err_at("unterminated property value"));
            }
            let t = &toks[self.pos];
            if paren == 0 && brack == 0 && t.is_punct(';') {
                break;
            }
            if t.is_punct('{') || t.is_punct('}') {
                return Err(self.err_at("unexpected brace in property value"));
            }
            if t.is_punct('(') {
                paren += 1;
            } else if t.is_punct(')') {
                paren -= 1;
            }
            if t.is_punct('[') {
                brack += 1;
            } else if t.is_punct(']') {
                brack -= 1;
            }
            let ghost before = out@;
            if any && !t.glued {
                push_char(&mut out, ' ');
            }
            let ghost mid = out@;
            if t.kind == TokKind::SlashKw {
                push_char(&mut out, '/');
                push_chars(&mut out, t.text.as_slice(), 0, t.text.len());
                push_char(&mut out, '/');
                any = true;
            } else {
                push_chars(&mut out, t.text.as_slice(), 0, t.text.len());
                any = any || t.text.len() > 0;
            }
            proof {
                assert(t.text@.subrange(0, t.text@.len() as int) =~= t.text@);
                let sep: Seq<char> = if before.len() > 0 && !t.glued { seq![' '] } else { Seq::empty() };
                let piece: Seq<char> = if t.kind == TokKind::SlashKw { seq!['/'] + t.text@ + seq!['/'] } else { t.text@ };
                assert(mid =~= before + sep);
                assert(out@ =~= before + sep + piece);
            }
            self.pos += 1;
        }
        Ok(out)
    }

    /// Reads a `&label` or `&{/path}` reference.
    pub fn parse_ref(&mut self) -> (r: Result<(RefTarget, SourceLoc), String>)
        requires
            old(self).pos <= old(self).toks@.len(),
        ensures
            moved(*old(self), *final(self)),
            ({
                let p = old(self).pos as int;
                let toks = old(self).toks@;
                let files = old(self).files@;
                if p >= toks.len() {
                    r matches Err(e) && e@ == err_text(files, toks, p, "expected reference"@)
                } else if toks[p].kind == TokKind::PathRef {
                    r matches Ok((RefTarget::Path(s), l)) && s@ == path_inner(toks[p].text@)
                        && loc_of(files, toks[p], l) && final(self).pos == p + 1
                } else if toks[p].spec_is_punct('&') {
                    if p + 1 < toks.len() && toks[p + 1].kind == TokKind::Ident {
                        r matches Ok((RefTarget::Label(s), l)) && s@ == toks[p + 1].text@
                            && loc_of(files, toks[p], l) && final(self).pos == p + 2
                    } else {
                        r matches Err(e) && e@ == err_text(files, toks, p + 1, "expected label after `&`"@)
                    }
                } else {
                    r matches Err(e) && e@ == err_text(files, toks, p, "expected `&label` or `&{path}` reference"@)
                }
            }),
    {
        let toks = self.toks;
        if self.pos >= toks.len() {
            return Err(self.err_at("expected reference"));
        }
        let t = &toks[self.pos];
        if t.kind == TokKind::PathRef {
            let l = self.loc(self.pos);
            let n = t.text.len();
            let inner = if n >= 3 {
                string_of_range(t.text.as_slice(), 2, n - 1)
            } else {
                String::new()
            };
            self.pos += 1;
            return Ok((RefTarget::Path(inner), l));
        }
        if t.is_punct('&') {
            let l = self.loc(self.pos);
            self.pos += 1;
            if self.pos >= toks.len() || toks[self.pos].kind != TokKind::Ident {
                return Err(self.err_at("expected label after `&`"));
            }
            let name = string_of(toks[self.pos].text.as_slice());
            self.pos += 1;
            return Ok((RefTarget::Label(name), l));
        }
        Err(self.err_at("expected `&label` or `&{path}` reference"))
    }

    /// The latest path recorded for label `l`.
    pub fn lookup_label(&self, l: &String) -> (r: Option<String>)
        ensures
            match r {
                Some(s) => label_lookup(label_views(self.labels@), l@) == Some(s@),
                None => label_lookup(label_views(self.labels@), l@) is None,
            },
    {
        let mut k: usize = self.labels.len();
        let ghost lv = label_views(self.labels@);
        assert(lv.subrange(0, k as int) =~= lv);
        while k > 0
            invariant
                k <= self.labels@.len(),
                lv == label_views(self.labels@),
                label_lookup(lv.subrange(0, k as int), l@) == label_lookup(lv, l@),
            decreases k,
        {
            let ghost sub = lv.subrange(0, k as int);
            assert(sub.last() == lv[k - 1]);
            assert(sub.drop_last() =~= lv.subrange(0, k - 1));
            if self.labels[k - 1].0 == *l {
                return Some(self.labels[k - 1].1.clone());
            }
            k -= 1;
        }
        None
    }

    pub fn resolve_ref(&self, target: &RefTarget) -> (r: Option<String>)
        ensures
            match r {
                Some(s) => resolved(label_views(self.labels@), *target) == Some(s@),
                None => resolved(label_views(self.labels@), *target) is None,
            },
    {
        match target {
            RefTarget::Label(l) => self.lookup_label(l),
            RefTarget::Path(p) => Some(p.clone()),
        }
    }

    /// Skips a `{ ... }` block and a `;` after it (used for unresolvable
    /// references).
    pub fn skip_block(&mut self) -> (r: Result<(), String>)
        requires
            old(self).pos <= old(self).toks@.len(),
        ensures
            moved(*old(self), *final(self)),
            ({
                let p = old(self).pos as int;
                let toks = old(self).toks@;
                let files = old(self).files@;
                if p < toks.len() && toks[p].spec_is_punct('{') {
                    match block_end(toks, p + 1, 1) {
                        Some(j) => r is Ok && final(self).pos
                            == (if j < toks.len() && toks[j].spec_is_punct(';') { j + 1 } else { j }),
                        None => r matches Err(e) && e@ == err_text(files, toks, toks.len() as int, "unterminated block"@),
                    }
                } else {
                    r matches Err(e) && e@ == err_text(files, toks, p, expected_punct('{'))
                }
            }),
    {
        let toks = self.toks;
        match self.expect_punct('{') {
            Ok(_) => {},
            Err(e) => return Err(e),
        }
        let start = self.pos;
        let mut depth: i128 = 1;
        while depth > 0
            invariant
                start <= self.pos <= toks@.len(),
                toks@ == old(self).toks@,
                start == old(self).pos + 1,
                old(self).pos < toks@.len(),
                toks@[old(self).pos as int].spec_is_punct('{'),
                moved(*old(self), *self),
                0 <= depth <= 1 + (self.pos - start),
                block_end(toks@, start as int, 1) == block_end(toks@, self.pos as int, depth as int),
            decreases toks@.len() - self.pos,
        {
            if self.pos >= toks.len() {
                assert(block_end(toks@, self.pos as int, depth as int) is None);
                assert(self.pos == toks@.len());
                return Err(self.err_at("unterminated block"));
            }
            if toks[self.pos].is_punct('{') {
                depth += 1;
            } else if toks[self.pos].is_punct('}') {
                depth -= 1;
            }
            self.pos += 1;
        }
        if self.pos < toks.len() && toks[self.pos].is_punct(';') {
            self.pos += 1;
        }
        Ok(())
    }

    /// `&label` or `&{path}`, as written.
    pub fn ref_desc(target: &RefTarget) -> (r: String)
        ensures
            r@ == ref_text(*target),
    {
        match target {
            RefTarget::Label(l) => {
                let mut s = String::from_str("&");
                s.append(l.as_str());
                s
            },
            RefTarget::Path(p) => {
                let mut s = String::from_str("&{");
                s.append(p.as_str());
                s.append("}");
                s
            },
        }
    }

    /// `label:` pairs before a name.
    pub fn parse_labels(&mut self) -> (r: Vec<String>)
        requires
            old(self).pos <= old(self).toks@.len(),
        ensures
            moved(*old(self), *final(self)),
            final(self).pos == labels_end(old(self).toks@, old(self).pos as int),
            r@.len() == labels_at(old(self).toks@, old(self).pos as int).len(),
            forall|k: int| 0 <= k < r@.len() ==> #[trigger] r@[k]@ == labels_at(old(self).toks@, old(self).pos as int)[k],
    {
        let toks = self.toks;
        let start = self.pos;
        let mut out: Vec<String> = Vec::new();
        let ghost mut got: Seq<Seq<char>> = Seq::empty();
        while self.pos < toks.len() && self.pos + 1 < toks.len() && toks[self.pos].kind == TokKind::Ident && toks[self.pos + 1].is_punct(':')
            invariant
                start <= self.pos <= toks@.len(),
                toks@ == old(self).toks@,
                start == old(self).pos,
                moved(*old(self), *self),
                out@.len() == got.len(),
                forall|k: int| 0 <= k < out@.len() ==> #[trigger] out@[k]@ == got[k],
                labels_end(toks@, start as int) == labels_end(toks@, self.pos as int),
                labels_at(toks@, start as int) == got + labels_at(toks@, self.pos as int),
            decreases toks@.len() - self.pos,
        {
            out.push(string_of(toks[self.pos].text.as_slice()));
            proof {
                let t = toks@[self.pos as int].text@;
                assert(labels_at(toks@, self.pos as int) == seq![t] + labels_at(toks@, self.pos + 2));
                assert(got + labels_at(toks@, self.pos as int) =~= got.push(t) + labels_at(toks@, self.pos + 2));
                got = got.push(t);
            }
            self.pos += 2;
        }
        assert(got + labels_at(toks@, self.pos as int) =~= got);
        out
    }

    /// The rest of `/delete-node/ name;` inside the node at `path`.
    pub fn parse_delete_child(&mut self, node: &mut DtNode, path: &String) -> (r: Result<(), String>)
        requires
            old(self).pos <= old(self).toks@.len(),
            wf_tree(*old(node)),
        ensures
            advanced(*old(self), *final(self)),
            final(self).labels@ == old(self).labels@,
            tree_extends(*old(node), *final(node)),
            wf_tree(*final(node)),
            ({
                let p = old(self).pos as int;
                let toks = old(self).toks@;
                let files = old(self).files@;
                let e = name_end(toks, p + 1);
                let name = joined_text(toks, p, e);
                if p < toks.len() && is_name_start(toks[p]) && e < toks.len() && toks[e].spec_is_punct(';') {
                    &&& r is Ok
                    &&& final(self).pos == e + 1
                    &&& shape_of(*final(node)) == without_child(shape_of(*old(node)), name, tok_loc(string_views(files), toks[p]))
                    &&& match child_pos(old(node).children@, name) {
                        Some(i) => final(self).warnings@ == old(self).warnings@
                            && exists|l: SourceLoc| loc_of(files, toks[p], l) && child_deleted(*old(node), *final(node), i, l),
                        None => pushed(old(self).warnings@, final(self).warnings@,
                                loc_text(files, toks[p]) + ": /delete-node/ "@ + name + ": no such node in "@ + path@)
                            && *final(node) == *old(node),
                    }
                } else {
                    &&& r matches Err(m) && m@ == if !(p < toks.len() && is_name_start(toks[p])) {
                        parse_err(string_views(files), toks, p, "expected name"@)
                    } else {
                        parse_err(string_views(files), toks, e, expected_punct(';'))
                    }
                    &&& *final(node) == *old(node)
                }
            }),
    {
        proof { lemma_extends_refl(*node); }
        let (name, loc) = match self.glue_name() {
            Ok(x) => x,
            Err(e) => return Err(e),
        };
        match self.expect_punct(';') {
            Ok(_) => {},
            Err(e) => return Err(e),
        }
        proof { lemma_shape_pos(*old(node), name@); }
        match node.child_index(name.as_str()) {
            Some(i) => {
                proof { assert(is_first_child(old(node).children@, name@, i as int)); }
                let ghost c0 = node.children@[i as int];
                node.children[i].deleted = true;
                touch(&mut node.children[i].provenance, loc);
                proof {
                    let c1 = node.children@[i as int];
                    lemma_extends_refl(c0);
                    assert(wf_tree(c0));
                    assert(c1.labels == c0.labels && c1.properties == c0.properties && c1.children == c0.children);
                    assert(tree_extends(c0, c1));
                    assert(node.children@ =~= old(node).children@.update(i as int, c1));
                    lemma_extends_child(*old(node), *node, i as int);
                    lemma_wf_child(*old(node), *node, i as int);
                    assert(child_deleted(*old(node), *node, i as int, loc));
                    lemma_shape_update(*old(node), *node, i as int);
                    lemma_shape_flag(c0, c1);
                    lemma_touched_view(c0.provenance, c1.provenance, loc);
                    lemma_loc_view(old(self).files@, old(self).toks@[old(self).pos as int], loc);
                    lemma_shape_children(*old(node));
                }
            },
            None => {
                let mut w = loc.to_string();
                w.append(": /delete-node/ ");
                w.append(name.as_str());
                w.append(": no such node in ");
                w.append(path.as_str());
                self.warnings.push(w);
                assert(old(self).warnings@.is_prefix_of(self.warnings@));
                assert(self.warnings@.drop_last() =~= old(self).warnings@);
            },
        }
        Ok(())
    }

    /// The rest of `/delete-property/ name;` inside the node at `path`.
    #[verifier::loop_isolation(false)]
    pub fn parse_delete_prop(&mut self, node: &mut DtNode, path: &String) -> (r: Result<(), String>)
        requires
            old(self).pos <= old(self).toks@.len(),
            wf_tree(*old(node)),
        ensures
            advanced(*old(self), *final(self)),
            final(self).labels@ == old(self).labels@,
            tree_extends(*old(node), *final(node)),
            wf_tree(*final(node)),
            ({
                let p = old(self).pos as int;
                let toks = old(self).toks@;
                let files = old(self).files@;
                let e = name_end(toks, p + 1);
                let name = joined_text(toks, p, e);
                if p < toks.len() && is_name_start(toks[p]) && e < toks.len() && toks[e].spec_is_punct(';') {
                    &&& r is Ok
                    &&& final(self).pos == e + 1
                    &&& shape_of(*final(node)) == without_prop(shape_of(*old(node)), name, tok_loc(string_views(files), toks[p]))
                    &&& match prop_pos(old(node).properties@, name) {
                        Some(i) => final(self).warnings@ == old(self).warnings@
                            && exists|l: SourceLoc| loc_of(files, toks[p], l) && prop_deleted(*old(node), *final(node), i, l),
                        None => pushed(old(self).warnings@, final(self).warnings@,
                                loc_text(files, toks[p]) + ": /delete-property/ "@ + name + ": no such property in "@ + path@)
                            && *final(node) == *old(node),
                    }
                } else {
                    &&& r matches Err(m) && m@ == if !(p < toks.len() && is_name_start(toks[p])) {
                        parse_err(string_views(files), toks, p, "expected name"@)
                    } else {
                        parse_err(string_views(files), toks, e, expected_punct(';'))
                    }
                    &&& *final(node) == *old(node)
                }
            }),
    {
        proof { lemma_extends_refl(*node); }
        let (name, loc) = match self.glue_name() {
            Ok(x) => x,
            Err(e) => return Err(e),
        };
        match self.expect_punct(';') {
            Ok(_) => {},
            Err(e) => return Err(e),
        }
        let ghost n0 = *node;
        let mut k: usize = 0;
        while k < node.properties.len()
            invariant
                0 <= k <= node.properties@.len(),
                *node == n0,
                n0 == *old(node),
                wf_tree(n0),
                tree_extends(n0, n0),
                forall|j: int| 0 <= j < k ==> node.properties@[j].name@ != name@,
            decreases node.properties@.len() - k,
        {
            if node.properties[k].name == name {
                proof { lemma_prop_pos(node.properties@, name@, k as int); }
                node.properties[k].deleted = true;
                touch(&mut node.properties[k].provenance, loc);
                proof {
                    lemma_prop_slot(n0.properties@, name@);
                    assert(node.properties@ =~= n0.properties@.update(k as int, node.properties@[k as int]));
                    lemma_prop_changed(n0, *node, k as int);
                    assert(prop_deleted(n0, *node, k as int, loc));
                    lemma_shape_props(n0, *node);
                    let pk = n0.properties@[k as int];
                    lemma_touched_view(pk.provenance, node.properties@[k as int].provenance, loc);
                    lemma_loc_view(old(self).files@, old(self).toks@[old(self).pos as int], loc);
                    assert(node.properties@.map_values(|p: DtProperty| prop_view(p))
                        =~= shape_of(n0).props.update(k as int, (pk.name@, pk.value@, true, touch_view(prop_view(pk).3, loc_view(loc)))));
                }
                return Ok(());
            }
            k += 1;
        }
        proof {
            lemma_prop_slot(n0.properties@, name@);
            assert(prop_pos(n0.properties@, name@) is None) by {
                if exists|i: int| is_first_prop(n0.properties@, name@, i) {
                    let i = choose|i: int| is_first_prop(n0.properties@, name@, i);
                    assert(n0.properties@[i].name@ != name@);
                }
            }
        }
        let mut w = loc.to_string();
        w.append(": /delete-property/ ");
        w.append(name.as_str());
        w.append(": no such property in ");
        w.append(path.as_str());
        self.warnings.push(w);
        assert(old(self).warnings@.is_prefix_of(self.warnings@));
        assert(self.warnings@.drop_last() =~= old(self).warnings@);
        Ok(())
    }

    /// The rest of a property statement after its name: `= value;` or
    /// `;`. `labelled` says whether labels stood before the name; they are
    /// ignored with a warning when a value follows.
    pub fn parse_prop_rest(&mut self, node: &mut DtNode, name: &String, loc: SourceLoc, labelled: bool)
        -> (r: Result<(), String>)
        requires
            old(self).pos < old(self).toks@.len(),
            old(self).toks@[old(self).pos as int].spec_is_punct('=') || old(self).toks@[old(self).pos as int].spec_is_punct(';'),
            wf_tree(*old(node)),
        ensures
            advanced(*old(self), *final(self)),
            final(self).labels@ == old(self).labels@,
            tree_extends(*old(node), *final(node)),
            wf_tree(*final(node)),
            ({
                let p = old(self).pos as int;
                let toks = old(self).toks@;
                let (j, text, err) = value_scan(toks, p + 1, 0, 0, Seq::empty());
                if toks[p].spec_is_punct(';') {
                    &&& r is Ok
                    &&& final(self).pos == p + 1
                    &&& final(self).warnings@ == old(self).warnings@
                    &&& prop_set(*old(node), *final(node), name@, Seq::empty(), loc)
                    &&& shape_of(*final(node)) == with_prop(shape_of(*old(node)), name@, Seq::empty(), loc_view(loc))
                } else if err is None {
                    &&& r is Ok
                    &&& final(self).pos == j + 1
                    &&& prop_set(*old(node), *final(node), name@, text, loc)
                    &&& shape_of(*final(node)) == with_prop(shape_of(*old(node)), name@, text, loc_view(loc))
                    &&& labelled ==> pushed(old(self).warnings@, final(self).warnings@,
                        loc.file@ + seq![':'] + dec_str(loc.line as nat) + ": labels on property "@ + name@ + " ignored"@)
                    &&& !labelled ==> final(self).warnings@ == old(self).warnings@
                } else {
                    &&& r matches Err(m) && m@ == parse_err(string_views(old(self).files@), toks, j, err->0)
                    &&& *final(node) == *old(node)
                }
            }),
    {
        proof { lemma_extends_refl(*node); }
        let toks = self.toks;
        if toks[self.pos].is_punct(';') {
            self.pos += 1;
            let empty = String::new();
            assert(empty@ =~= Seq::<char>::empty());
            set_prop(node, name, empty, loc);
            return Ok(());
        }
        if labelled {
            let mut w = loc.to_string();
            w.append(": labels on property ");
            w.append(name.as_str());
            w.append(" ignored");
            self.warnings.push(w);
            assert(old(self).warnings@.is_prefix_of(self.warnings@));
            assert(self.warnings@.drop_last() =~= old(self).warnings@);
        }
        self.pos += 1;
        let value = self.parse_value()?;
        proof { lemma_value_scan_end(toks@, old(self).pos + 1, 0, 0, Seq::empty()); }
        match self.expect_punct(';') {
            Ok(_) => {},
            Err(e) => return Err(e),
        }
        set_prop(node, name, value, loc);
        Ok(())
    }

    /// A `{ ... }` node body for the node at `path`, merged into `node`.
    #[verifier::rlimit(60)]
    #[verifier::spinoff_prover]
    pub fn parse_node_block(&mut self, node: &mut DtNode, path: &String) -> (r: Result<(), String>)
        requires
            old(self).pos <= old(self).toks@.len(),
            wf_tree(*old(node)),
        ensures
            advanced(*old(self), *final(self)),
            tree_extends(*old(node), *final(node)),
            wf_tree(*final(node)),
            r is Ok ==> {
                &&& old(self).pos < final(self).pos
                &&& old(self).toks@[old(self).pos as int].spec_is_punct('{')
                &&& old(self).toks@[final(self).pos - 1].spec_is_punct('}')
            },
            match block_parse(old(self).toks@, string_views(old(self).files@), old(self).pos as int, shape_of(*old(node)), path@,
                label_views(old(self).labels@), string_views(old(self).warnings@)) {
                Ok(out) => {
                    &&& r is Ok
                    &&& final(self).pos == out.pos
                    &&& shape_of(*final(node)) == out.shape
                    &&& label_views(final(self).labels@) == out.labels
                    &&& string_views(final(self).warnings@) == out.warnings
                },
                Err(m) => r matches Err(e) && e@ == m,
            },
        decreases old(self).toks@.len() - old(self).pos,
    {
        let toks = self.toks;
        let ghost b0 = block_parse(toks@, string_views(self.files@), self.pos as int, shape_of(*node), path@,
            label_views(self.labels@), string_views(self.warnings@));
        proof { lemma_extends_refl(*node); }
        match self.expect_punct('{') {
            Ok(_) => {},
            Err(e) => return Err(e),
        }
        loop
            invariant
                toks@ == old(self).toks@,
                advanced(*old(self), *self),
                old(self).pos < self.pos,
                toks@[old(self).pos as int].spec_is_punct('{'),
                tree_extends(*old(node), *node),
                wf_tree(*node),
                b0 == block_parse(old(self).toks@, string_views(old(self).files@), old(self).pos as int, shape_of(*old(node)), path@,
                    label_views(old(self).labels@), string_views(old(self).warnings@)),
                b0 == body_parse(toks@, string_views(self.files@), self.pos as int, shape_of(*node), path@,
                    label_views(self.labels@), string_views(self.warnings@)),
            decreases toks@.len() - self.pos,
        {
            let ghost s0 = *self;
            let ghost n0 = *node;
            if self.pos >= toks.len() {
                return Err(self.err_at("unterminated node block"));
            }
            let t = &toks[self.pos];
            if t.is_punct('}') {
                self.pos += 1;
                return Ok(());
            }
            if t.kind == TokKind::SlashKw {
                if word_is(t.text.as_slice(), "delete-node") {
                    self.pos += 1;
                    let ghost s1 = *self;
                    let res = self.parse_delete_child(node, path);
                    proof {
                        lemma_extends_trans(*old(node), n0, *node);
                        lemma_body_delete(toks@, string_views(s0.files@), s0.pos as int, shape_of(n0), path@, label_views(s0.labels@),
                            string_views(s0.warnings@));
                        let p = s1.pos as int;
                        let e = name_end(toks@, p + 1);
                        let name = joined_text(toks@, p, e);
                        lemma_shape_pos(n0, name);
                        if p < toks@.len() {
                            lemma_at_text(s0.files@, toks@[p]);
                        }
                        if !(child_pos(n0.children@, name) is Some) && res is Ok {
                            lemma_pushed_view(s1.warnings@, self.warnings@,
                                loc_text(s1.files@, toks@[p]) + ": /delete-node/ "@ + name + ": no such node in "@ + path@);
                        }
                    }
                    match res {
                        Ok(()) => {},
                        Err(e) => return Err(e),
                    }
                    continue;
                }
                if word_is(t.text.as_slice(), "delete-property") {
                    self.pos += 1;
                    let ghost s1 = *self;
                    let res = self.parse_delete_prop(node, path);
                    proof {
                        lemma_extends_trans(*old(node), n0, *node);
                        lemma_body_delete(toks@, string_views(s0.files@), s0.pos as int, shape_of(n0), path@, label_views(s0.labels@),
                            string_views(s0.warnings@));
                        let p = s1.pos as int;
                        let e = name_end(toks@, p + 1);
                        let name = joined_text(toks@, p, e);
                        lemma_prop_slot(n0.properties@, name);
                        if p < toks@.len() {
                            lemma_at_text(s0.files@, toks@[p]);
                        }
                        if !(prop_pos(n0.properties@, name) is Some) && res is Ok {
                            lemma_pushed_view(s1.warnings@, self.warnings@,
                                loc_text(s1.files@, toks@[p]) + ": /delete-property/ "@ + name + ": no such property in "@ + path@);
                        }
                    }
                    match res {
                        Ok(()) => {},
                        Err(e) => return Err(e),
                    }
                    continue;
                }
                if word_is(t.text.as_slice(), "omit-if-no-ref") {
                    self.pos += 1;
                    continue;
                }
                return Err(self.err_at("unexpected keyword in node body"));
            }
            let labels = self.parse_labels();
            let ghost p_name = self.pos as int;
            let (name, loc) = match self.glue_name() {
                Ok(x) => x,
                Err(e) => return Err(e),
            };
            proof {
                lemma_name_end(toks@, p_name + 1);
                lemma_labels_end(toks@, s0.pos as int);
                if p_name < toks@.len() && is_name_start(toks@[p_name]) {
                    lemma_loc_view(self.files@, toks@[p_name], loc);
                }
            }
            if self.pos >= toks.len() {
                return Err(self.err_at("unexpected end of node body"));
            }
            let t = &toks[self.pos];
            if t.is_punct('{') {
                let mut child_path = path.clone();
                if !(*path == String::from_str("/")) {
                    push_char(&mut child_path, '/');
                }
                child_path.append(name.as_str());
                assert(child_path@ == child_path_of(path@, name@));
                let ghost lv0 = label_views(self.labels@);
                let ghost lnames = labels_at(toks@, s0.pos as int);
                let ghost e_pos = self.pos;
                let ci = ensure_child(node, &name, loc);
                let ghost n1 = *node;
                proof { lemma_extends_trans(*old(node), n0, n1); }
                let mut k: usize = 0;
                while k < labels.len()
                    invariant
                        0 <= k <= labels@.len(),
                        labels@.len() == lnames.len(),
                        forall|m: int| 0 <= m < labels@.len() ==> #[trigger] labels@[m]@ == lnames[m],
                        toks@ == old(self).toks@,
                        advanced(*old(self), *self),
                        old(self).pos < self.pos < toks@.len(),
                        s0.pos < self.pos,
                        self.pos == e_pos,
                        toks@[old(self).pos as int].spec_is_punct('{'),
                        ci < node.children@.len(),
                        node.children@[ci as int].name@ == name@,
                        tree_extends(*old(node), *node),
                        wf_tree(*node),
                        ci < n1.children@.len(),
                        node.name == n1.name,
                        node.labels == n1.labels,
                        node.properties == n1.properties,
                        node.deleted == n1.deleted,
                        node.provenance == n1.provenance,
                        self.warnings@ == s0.warnings@,
                        node.children@ == n1.children@.update(ci as int, node.children@[ci as int]),
                        shape_of(node.children@[ci as int]) == with_labels(shape_of(n1.children@[ci as int]), lnames.take(k as int)),
                        label_views(self.labels@) == lv0 + label_entries(lnames.take(k as int), child_path@),
                    decreases labels@.len() - k,
                {
                    let ghost n2 = *node;
                    proof { assert(wf_tree(n2.children@[ci as int])); }
                    add_label(&mut node.children[ci], &labels[k]);
                    proof {
                        assert(node.children@ =~= n2.children@.update(ci as int, node.children@[ci as int]));
                        assert(node.children@ =~= n1.children@.update(ci as int, node.children@[ci as int]));
                        lemma_child_step(n2, *node, ci as int);
                        lemma_extends_trans(*old(node), n2, *node);
                        assert(lnames.take(k + 1).drop_last() =~= lnames.take(k as int));
                    }
                    let ghost lv1 = label_views(self.labels@);
                    self.labels.push((labels[k].clone(), child_path.clone()));
                    proof {
                        assert(label_views(self.labels@) =~= lv1.push((labels@[k as int]@, child_path@)));
                        assert(lnames.take(k + 1) =~= lnames.take(k as int).push(lnames[k as int]));
                        assert(label_entries(lnames.take(k + 1), child_path@)
                            =~= label_entries(lnames.take(k as int), child_path@).push((lnames[k as int], child_path@)));
                    }
                    k += 1;
                }
                let ghost n3 = *node;
                let ghost e = self.pos as int;
                let ghost sh1 = shape_of(n1);
                let ghost lv3 = label_views(self.labels@);
                let ghost inner = body_parse(toks@, string_views(self.files@), e + 1, with_labels(sh1.children[ci as int], lnames), child_path@, lv3,
                    string_views(self.warnings@));
                proof {
                    assert(lnames.take(labels@.len() as int) =~= lnames);
                    assert(wf_tree(n3.children@[ci as int]));
                    lemma_shape_children(n1);
                    lemma_shape_update(n1, n3, ci as int);
                    assert(shape_of(n3.children@[ci as int]) == with_labels(sh1.children[ci as int], lnames));
                    assert((sh1, ci as int) == shape_with_child(shape_of(n0), name@, loc_view(loc)));
                    assert(lv3 == label_views(s0.labels@) + label_entries(labels_at(toks@, s0.pos as int), child_path@));
                    lemma_body_child(toks@, string_views(s0.files@), s0.pos as int, shape_of(n0), path@, label_views(s0.labels@),
                        string_views(s0.warnings@));
                    assert(b0 == match inner {
                        Ok(out) => if e < out.pos < toks@.len() && toks@[out.pos].spec_is_punct(';') {
                            body_parse(toks@, string_views(self.files@), out.pos + 1, Shape { children: sh1.children.update(ci as int, out.shape), ..sh1 },
                                path@, out.labels, out.warnings)
                        } else {
                            Err(parse_err(string_views(self.files@), toks@, out.pos, expected_punct(';')))
                        },
                        Err(m) => Err(m),
                    });
                }
                let res = self.parse_node_block(&mut node.children[ci], &child_path);
                proof {
                    assert(node.children@ =~= n3.children@.update(ci as int, node.children@[ci as int]));
                    lemma_child_step(n3, *node, ci as int);
                    lemma_extends_trans(*old(node), n3, *node);
                    lemma_shape_update(n3, *node, ci as int);
                    lemma_shape_update(n1, n3, ci as int);
                    assert(shape_of(*node).children =~= sh1.children.update(ci as int, shape_of(node.children@[ci as int])));
                }
                match res {
                    Ok(()) => {},
                    Err(e) => return Err(e),
                }
                match self.expect_punct(';') {
                    Ok(_) => {},
                    Err(e) => return Err(e),
                }
            } else if t.is_punct('=') || t.is_punct(';') {
                let ghost s2 = *self;
                let res = self.parse_prop_rest(node, &name, loc, labels.len() > 0);
                proof {
                    lemma_extends_trans(*old(node), n0, *node);
                    assert(labels_end(toks@, s0.pos as int) == p_name);
                    lemma_body_prop(toks@, string_views(s0.files@), s0.pos as int, shape_of(n0), path@, label_views(s0.labels@),
                        string_views(s0.warnings@));
                    if labels.len() > 0 && res is Ok && !toks@[s2.pos as int].spec_is_punct(';') {
                        lemma_pushed_view(s2.warnings@, self.warnings@,
                            loc.file@ + seq![':'] + dec_str(loc.line as nat) + ": labels on property "@ + name@ + " ignored"@);
                    }
                }
                match res {
                    Ok(()) => {},
                    Err(e) => return Err(e),
                }
            } else {
                let mut m = String::from_str("expected `{`, `=` or `;` after `");
                m.append(name.as_str());
                m.append("`");
                return Err(self.err_at(m.as_str()));
            }
        }
    }

    /// The rest of a top-level `/delete-node/ &ref;`.
    pub fn parse_top_delete(&mut self, root: &mut DtNode) -> (r: Result<(), String>)
        requires
            old(self).pos <= old(self).toks@.len(),
            wf_tree(*old(root)),
        ensures
            advanced(*old(self), *final(self)),
            final(self).labels@ == old(self).labels@,
            tree_extends(*old(root), *final(root)),
            wf_tree(*final(root)),
            ({
                let p = old(self).pos as int;
                let toks = old(self).toks@;
                let files = old(self).files@;
                let e = ref_end(toks, p);
                if ref_ok(toks, p) && e < toks.len() && toks[e].spec_is_punct(';') {
                    &&& r is Ok
                    &&& final(self).pos == e + 1
                    &&& shape_of(*final(root)) == deleted_at(shape_of(*old(root)), ref_path(label_views(old(self).labels@), toks, p),
                        tok_loc(string_views(files), toks[p]))
                    &&& if ref_path(label_views(old(self).labels@), toks, p) is Some
                        && subtree_at(*old(root), path_segments(ref_path(label_views(old(self).labels@), toks, p)->0)) is Some {
                        let segs = path_segments(ref_path(label_views(old(self).labels@), toks, p)->0);
                        &&& final(self).warnings@ == old(self).warnings@
                        &&& exists|n: DtNode, l: SourceLoc| loc_of(files, toks[p], l)
                            && node_deleted(subtree_at(*old(root), segs)->0, n, l)
                            && replaced_at(*old(root), *final(root), segs, n)
                    } else {
                        &&& *final(root) == *old(root)
                        &&& pushed(old(self).warnings@, final(self).warnings@,
                            loc_text(files, toks[p]) + ": /delete-node/ target "@ + ref_desc_at(toks, p) + " not found"@)
                    }
                } else {
                    &&& r matches Err(m) && m@ == if !ref_ok(toks, p) {
                        ref_err(string_views(files), toks, p)
                    } else {
                        parse_err(string_views(files), toks, e, expected_punct(';'))
                    }
                    &&& *final(root) == *old(root)
                }
            }),
    {
        proof { lemma_extends_refl(*root); }
        let (target, loc) = match self.parse_ref() {
            Ok(x) => x,
            Err(e) => return Err(e),
        };
        match self.expect_punct(';') {
            Ok(_) => {},
            Err(e) => return Err(e),
        }
        let mut w = loc.to_string();
        w.append(": /delete-node/ target ");
        let d = Self::ref_desc(&target);
        w.append(d.as_str());
        w.append(" not found");
        let ghost r0 = *root;
        let mut found = false;
        let ghost mut segs: Seq<Seq<char>> = Seq::empty();
        let ghost mut sub_end: DtNode = r0;
        match self.resolve_ref(&target) {
            Some(p) => {
                proof { segs = path_segments(p@); }
                match root.node_at_path_mut(p.as_str()) {
                    Some(n) => {
                        proof { lemma_subtree_wf(r0, segs); }
                        n.deleted = true;
                        touch(&mut n.provenance, loc);
                        proof { sub_end = *n; }
                        found = true;
                    },
                    None => {},
                }
            },
            None => {},
        }
        if found {
            proof {
                let sub0 = subtree_at(r0, segs)->0;
                lemma_extends_refl(sub0);
                assert(tree_extends(sub0, sub_end));
                assert(wf_tree(sub_end));
                lemma_replaced(r0, *root, segs, sub_end);
                assert(node_deleted(sub0, sub_end, loc));
                lemma_shape_flag(sub0, sub_end);
                lemma_touched_view(sub0.provenance, sub_end.provenance, loc);
                lemma_loc_view(old(self).files@, old(self).toks@[old(self).pos as int], loc);
                lemma_shape_replaced(r0, *root, segs, sub_end);
                lemma_shape_at(r0, segs);
            }
        } else {
            proof { lemma_shape_at(r0, segs); }
            self.warnings.push(w);
            assert(old(self).warnings@.is_prefix_of(self.warnings@));
            assert(self.warnings@.drop_last() =~= old(self).warnings@);
        }
        Ok(())
    }

    /// A top-level `&ref { ... };` block, with the pending labels given
    /// to the node it names. An unresolved reference is warned about and
    /// its block skipped.
    pub fn parse_ref_block(&mut self, root: &mut DtNode, pending: &mut Vec<String>) -> (r: Result<(), String>)
        requires
            old(self).pos <= old(self).toks@.len(),
            wf_tree(*old(root)),
        ensures
            advanced(*old(self), *final(self)),
            tree_extends(*old(root), *final(root)),
            wf_tree(*final(root)),
            r is Ok ==> old(self).pos < final(self).pos && final(pending)@.len() == 0,
            ({
                let p = old(self).pos as int;
                let toks = old(self).toks@;
                let files = old(self).files@;
                ref_ok(toks, p) && !(ref_path(label_views(old(self).labels@), toks, p) is Some
                    && subtree_at(*old(root), path_segments(ref_path(label_views(old(self).labels@), toks, p)->0)) is Some)
                ==> {
                    &&& *final(root) == *old(root)
                    &&& final(self).labels@ == old(self).labels@
                    &&& pushed(old(self).warnings@, final(self).warnings@,
                        loc_text(files, toks[p]) + ": unresolved reference "@ + ref_desc_at(toks, p) + "; block skipped"@)
                }
            }),
            ({
                let p = old(self).pos as int;
                let toks = old(self).toks@;
                let files = old(self).files@;
                let lv = label_views(old(self).labels@);
                let sh = shape_of(*old(root));
                if !ref_ok(toks, p) {
                    r matches Err(m) && m@ == ref_err(string_views(files), toks, p)
                } else {
                    let e = ref_end(toks, p);
                    let target = ref_path(lv, toks, p);
                    if target is Some && shape_at(sh, path_segments(target->0)) is Some {
                        let pth = target->0;
                        let segs = path_segments(pth);
                        match block_parse(toks, string_views(files), e, with_labels(shape_touched(shape_at(sh, segs)->0, tok_loc(string_views(files), toks[p])), string_views(old(pending)@)), pth,
                            lv + label_entries(string_views(old(pending)@), pth), string_views(old(self).warnings@)) {
                            Ok(out) => if e < out.pos < toks.len() && toks[out.pos].spec_is_punct(';') {
                                &&& r is Ok
                                &&& final(self).pos == out.pos + 1
                                &&& shape_of(*final(root)) == shape_put(sh, segs, out.shape)
                                &&& label_views(final(self).labels@) == out.labels
                                &&& string_views(final(self).warnings@) == out.warnings
                            } else {
                                r matches Err(m) && m@ == parse_err(string_views(files), toks, out.pos, expected_punct(';'))
                            },
                            Err(m) => r matches Err(e) && e@ == m,
                        }
                    } else if e < toks.len() && toks[e].spec_is_punct('{') {
                        match block_end(toks, e + 1, 1) {
                            Some(j) => r is Ok && final(self).pos == (if j < toks.len() && toks[j].spec_is_punct(';') { j + 1 } else { j }),
                            None => r matches Err(m) && m@ == parse_err(string_views(files), toks, toks.len() as int, "unterminated block"@),
                        }
                    } else {
                        r matches Err(m) && m@ == parse_err(string_views(files), toks, e, expected_punct('{'))
                    }
                }
            }),
    {
        let toks = self.toks;
        proof { lemma_extends_refl(*root); }
        let (target, loc) = match self.parse_ref() {
            Ok(x) => x,
            Err(e) => return Err(e),
        };
        let mut w = loc.to_string();
        w.append(": unresolved reference ");
        let d = Self::ref_desc(&target);
        w.append(d.as_str());
        w.append("; block skipped");
        let ghost r0 = *root;
        let ghost s1 = *self;
        let ghost lv0 = label_views(s1.labels@);
        let ghost pend = string_views(pending@);
        let mut found = false;
        let mut res: Result<(), String> = Ok(());
        let ghost mut segs: Seq<Seq<char>> = Seq::empty();
        let ghost mut sub_end: DtNode = r0;
        let ghost mut blk: Result<BodyOut, Seq<char>> = Err(Seq::empty());
        match self.resolve_ref(&target) {
            Some(p) => {
                proof {
                    segs = path_segments(p@);
                    lemma_shape_at(r0, segs);
                }
                match root.node_at_path_mut(p.as_str()) {
                    Some(n) => {
                        proof { lemma_subtree_wf(r0, segs); }
                        let ghost sub0 = *n;
                        proof { lemma_extends_refl(sub0); }
                        touch(&mut n.provenance, loc);
                        proof {
                            assert(tree_extends(sub0, *n)) by {
                                lemma_extends_refl(sub0);
                            }
                            lemma_shape_flag(sub0, *n);
                            lemma_touched_view(sub0.provenance, n.provenance, loc);
                            lemma_loc_view(old(self).files@, old(self).toks@[old(self).pos as int], loc);
                            assert(pend.take(0) =~= Seq::<Seq<char>>::empty());
                        }
                        let mut k: usize = 0;
                        while k < pending.len()
                            invariant
                                0 <= k <= pending@.len(),
                                pending@ == old(pending)@,
                                pend == string_views(pending@),
                                toks@ == old(self).toks@,
                                advanced(*old(self), *self),
                                self.pos == s1.pos,
                                old(self).pos < s1.pos,
                                tree_extends(sub0, *n),
                                wf_tree(*n),
                                n.name == sub0.name,
                                self.warnings@ == s1.warnings@,
                                shape_of(*n) == with_labels(shape_touched(shape_of(sub0), loc_view(loc)), pend.take(k as int)),
                                label_views(self.labels@) == lv0 + label_entries(pend.take(k as int), p@),
                            decreases pending@.len() - k,
                        {
                            let ghost n2 = *n;
                            add_label(n, &pending[k]);
                            proof {
                                lemma_extends_trans(sub0, n2, *n);
                                assert(pend.take(k + 1).drop_last() =~= pend.take(k as int));
                            }
                            let ghost lv1 = label_views(self.labels@);
                            self.labels.push((pending[k].clone(), p.clone()));
                            proof {
                                assert(label_views(self.labels@) =~= lv1.push((pending@[k as int]@, p@)));
                                assert(pend.take(k + 1) =~= pend.take(k as int).push(pend[k as int]));
                                assert(label_entries(pend.take(k + 1), p@)
                                    =~= label_entries(pend.take(k as int), p@).push((pend[k as int], p@)));
                            }
                            k += 1;
                        }
                        let ghost n3 = *n;
                        proof {
                            assert(pend.take(pending@.len() as int) =~= pend);
                            blk = block_parse(toks@, string_views(self.files@), self.pos as int, shape_of(n3), p@, label_views(self.labels@),
                                string_views(self.warnings@));
                        }
                        res = self.parse_node_block(n, &p);
                        proof {
                            lemma_extends_trans(sub0, n3, *n);
                            sub_end = *n;
                        }
                        found = true;
                    },
                    None => {},
                }
            },
            None => {},
        }
        if found {
            proof {
                lemma_replaced(r0, *root, segs, sub_end);
                lemma_shape_replaced(r0, *root, segs, sub_end);
            }
            match res {
                Ok(()) => {},
                Err(e) => return Err(e),
            }
            pending.clear();
            match self.expect_punct(';') {
                Ok(_) => {},
                Err(e) => return Err(e),
            }
            Ok(())
        } else {
            self.warnings.push(w);
            assert(old(self).warnings@.is_prefix_of(self.warnings@));
            assert(self.warnings@.drop_last() =~= old(self).warnings@);
            pending.clear();
            self.skip_block()
        }
    }

    /// The whole token stream: header keywords, root blocks `/ { ... };`,
    /// reference blocks `&ref { ... };` and top-level deletions, merged
    /// into `root`.
    #[verifier::rlimit(60)]
    #[verifier::spinoff_prover]
    pub fn parse_top(&mut self, root: &mut DtNode) -> (r: Result<(), String>)
        requires
            old(self).pos <= old(self).toks@.len(),
            wf_tree(*old(root)),
        ensures
            advanced(*old(self), *final(self)),
            tree_extends(*old(root), *final(root)),
            wf_tree(*final(root)),
            r is Ok ==> final(self).pos == final(self).toks@.len(),
            match top_parse(old(self).toks@, string_views(old(self).files@), old(self).pos as int, shape_of(*old(root)),
                label_views(old(self).labels@), Seq::empty(), string_views(old(self).warnings@)) {
                Ok((sh, lv, ws)) => {
                    &&& r is Ok
                    &&& shape_of(*final(root)) == sh
                    &&& label_views(final(self).labels@) == lv
                    &&& string_views(final(self).warnings@) == ws
                },
                Err(m) => r matches Err(e) && e@ == m,
            },
    {
        let toks = self.toks;
        proof { lemma_extends_refl(*root); }
        let mut pending: Vec<String> = Vec::new();
        let ghost t0 = top_parse(toks@, string_views(self.files@), self.pos as int, shape_of(*root), label_views(self.labels@), Seq::empty(),
            string_views(self.warnings@));
        assert(string_views(pending@) =~= Seq::<Seq<char>>::empty());
        while self.pos < toks.len()
            invariant
                toks@ == old(self).toks@,
                advanced(*old(self), *self),
                tree_extends(*old(root), *root),
                wf_tree(*root),
                t0 == top_parse(old(self).toks@, string_views(old(self).files@), old(self).pos as int, shape_of(*old(root)),
                    label_views(old(self).labels@), Seq::empty(), string_views(old(self).warnings@)),
                t0 == top_parse(toks@, string_views(self.files@), self.pos as int, shape_of(*root), label_views(self.labels@),
                    string_views(pending@), string_views(self.warnings@)),
            decreases toks@.len() - self.pos,
        {
            let ghost s0 = *self;
            let ghost n0 = *root;
            let ghost pend0 = string_views(pending@);
            let t = &toks[self.pos];
            if t.kind == TokKind::SlashKw {
                if word_is(t.text.as_slice(), "dts-v1") || word_is(t.text.as_slice(), "plugin") {
                    self.pos += 1;
                    match self.expect_punct(';') {
                        Ok(_) => {},
                        Err(e) => return Err(e),
                    }
                } else if word_is(t.text.as_slice(), "memreserve") {
                    self.pos += 1;
                    while self.pos < toks.len() && !toks[self.pos].is_punct(';')
                        invariant
                            toks@ == old(self).toks@,
                            advanced(*old(self), *self),
                            s0.pos < self.pos,
                            self.labels@ == s0.labels@,
                            self.warnings@ == s0.warnings@,
                            punct_from(toks@, s0.pos + 1, ';') == punct_from(toks@, self.pos as int, ';'),
                        decreases toks@.len() - self.pos,
                    {
                        self.pos += 1;
                    }
                    match self.expect_punct(';') {
                        Ok(_) => {},
                        Err(e) => return Err(e),
                    }
                } else if word_is(t.text.as_slice(), "omit-if-no-ref") {
                    self.pos += 1;
                } else if word_is(t.text.as_slice(), "delete-node") {
                    self.pos += 1;
                    let ghost s1 = *self;
                    let res = self.parse_top_delete(root);
                    proof {
                        lemma_extends_trans(*old(root), n0, *root);
                        let p = s1.pos as int;
                        if p < toks@.len() {
                            lemma_at_text(s0.files@, toks@[p]);
                        }
                        let target = ref_path(label_views(s1.labels@), toks@, p);
                        if res is Ok && !(target is Some && subtree_at(n0, path_segments(target->0)) is Some) {
                            lemma_pushed_view(s1.warnings@, self.warnings@,
                                loc_text(s1.files@, toks@[p]) + ": /delete-node/ target "@ + ref_desc_at(toks@, p) + " not found"@);
                        }
                        if target is Some {
                            lemma_shape_at(n0, path_segments(target->0));
                        }
                    }
                    match res {
                        Ok(()) => {},
                        Err(e) => return Err(e),
                    }
                } else {
                    return Err(self.err_at("unexpected keyword at top level"));
                }
            } else if t.is_punct('/') {
                let loc = self.loc(self.pos);
                self.pos += 1;
                touch(&mut root.provenance, loc);
                proof {
                    lemma_extends_refl(n0);
                    assert(tree_extends(n0, *root));
                    lemma_extends_trans(*old(root), n0, *root);
                    lemma_shape_flag(n0, *root);
                    lemma_touched_view(n0.provenance, root.provenance, loc);
                    lemma_loc_view(self.files@, toks@[s0.pos as int], loc);
                    assert(pend0.take(0) =~= Seq::<Seq<char>>::empty());
                }
                let slash = String::from_str("/");
                let ghost lv0 = label_views(self.labels@);
                let mut k: usize = 0;
                while k < pending.len()
                    invariant
                        0 <= k <= pending@.len(),
                        pend0 == string_views(pending@),
                        toks@ == old(self).toks@,
                        advanced(*old(self), *self),
                        self.pos == s0.pos + 1,
                        tree_extends(*old(root), *root),
                        wf_tree(*root),
                        shape_of(*root) == with_labels(shape_touched(shape_of(n0), loc_view(loc)), pend0.take(k as int)),
                        slash@ == "/"@,
                        self.warnings@ == s0.warnings@,
                        label_views(self.labels@) == lv0 + label_entries(pend0.take(k as int), "/"@),
                    decreases pending@.len() - k,
                {
                    let ghost n2 = *root;
                    add_label(root, &pending[k]);
                    proof {
                        lemma_extends_trans(*old(root), n2, *root);
                        assert(pend0.take(k + 1).drop_last() =~= pend0.take(k as int));
                    }
                    let ghost lv1 = label_views(self.labels@);
                    self.labels.push((pending[k].clone(), slash.clone()));
                    proof {
                        assert(label_views(self.labels@) =~= lv1.push((pending@[k as int]@, slash@)));
                        assert(pend0.take(k + 1) =~= pend0.take(k as int).push(pend0[k as int]));
                        assert(label_entries(pend0.take(k + 1), "/"@)
                            =~= label_entries(pend0.take(k as int), "/"@).push((pend0[k as int], "/"@)));
                    }
                    k += 1;
                }
                proof { assert(pend0.take(pending@.len() as int) =~= pend0); }
                pending.clear();
                assert(string_views(pending@) =~= Seq::<Seq<char>>::empty());
                let ghost n3 = *root;
                let res = self.parse_node_block(root, &slash);
                proof { lemma_extends_trans(*old(root), n3, *root); }
                match res {
                    Ok(()) => {},
                    Err(e) => return Err(e),
                }
                match self.expect_punct(';') {
                    Ok(_) => {},
                    Err(e) => return Err(e),
                }
            } else if t.kind == TokKind::Ident && self.pos + 1 < toks.len() && toks[self.pos + 1].is_punct(':') {
                pending.push(string_of(t.text.as_slice()));
                assert(string_views(pending@) =~= pend0.push(t.text@));
                self.pos += 2;
            } else if t.kind == TokKind::PathRef || t.is_punct('&') {
                let res = self.parse_ref_block(root, &mut pending);
                proof {
                    lemma_extends_trans(*old(root), n0, *root);
                    lemma_top_ref(toks@, string_views(s0.files@), s0.pos as int, shape_of(n0), label_views(s0.labels@), pend0,
                        string_views(s0.warnings@));
                    let p = s0.pos as int;
                    lemma_shape_at(n0, path_segments(ref_path(label_views(s0.labels@), toks@, p)->0));
                    lemma_at_text(s0.files@, toks@[p]);
                    if ref_ok(toks@, p) && !(ref_path(label_views(s0.labels@), toks@, p) is Some
                        && subtree_at(n0, path_segments(ref_path(label_views(s0.labels@), toks@, p)->0)) is Some) {
                        lemma_pushed_view(s0.warnings@, self.warnings@,
                            loc_text(s0.files@, toks@[p]) + ": unresolved reference "@ + ref_desc_at(toks@, p) + "; block skipped"@);
                    }
                }
                match res {
                    Ok(()) => {},
                    Err(e) => return Err(e),
                }
                assert(string_views(pending@) =~= Seq::<Seq<char>>::empty());
            } else {
                return Err(self.err_at("unexpected token at top level"));
            }
        }
        Ok(())
    }
}


// ---------------------------------------------------------------------------
// Laws of merging
// ---------------------------------------------------------------------------

/// First sighting defines, later sightings modify: setting a property twice
/// leaves the second value, keeps where the property was first defined
/// (the first setting, or earlier when the property already existed), and
/// records the second site as its latest modification.
pub proof fn law_later_setting_modifies(a: DtNode, b: DtNode, c: DtNode, name: Seq<char>,
    v1: Seq<char>, v2: Seq<char>, l1: SourceLoc, l2: SourceLoc)
    requires
        wf_tree(a),
        prop_set(a, b, name, v1, l1),
        prop_set(b, c, name, v2, l2),
    ensures
        prop_pos(c.properties@, name) is Some,
        ({
            let p = c.properties@[prop_pos(c.properties@, name)->0];
            &&& p.name@ == name
            &&& p.value@ == v2
            &&& !p.deleted
            &&& p.provenance matches Some(q) && {
                &&& q.modified@.len() > 0
                &&& q.modified@.last() == l2
                &&& q.defined == match prop_pos(a.properties@, name) {
                    Some(i) => match a.properties@[i].provenance {
                        Some(o) => o.defined,
                        None => l1,
                    },
                    None => l1,
                }
            }
        }),
{
    match prop_pos(a.properties@, name) {
        Some(i) => {
            assert(is_first_prop(a.properties@, name, i));
            assert(is_first_prop(b.properties@, name, i)) by {
                assert forall|j: int| 0 <= j < i implies b.properties@[j].name@ != name by {
                    assert(b.properties@[j] == a.properties@[j]);
                }
            }
            lemma_prop_pos(b.properties@, name, i);
            assert(is_first_prop(c.properties@, name, i)) by {
                assert forall|j: int| 0 <= j < i implies c.properties@[j].name@ != name by {
                    assert(c.properties@[j] == b.properties@[j]);
                }
            }
            lemma_prop_pos(c.properties@, name, i);
        },
        None => {
            let k = a.properties@.len() as int;
            lemma_no_prop(a.properties@, name);
            assert(is_first_prop(b.properties@, name, k)) by {
                assert forall|j: int| 0 <= j < k implies b.properties@[j].name@ != name by {
                    assert(b.properties@[j] == b.properties@.drop_last()[j]);
                }
            }
            lemma_prop_pos(b.properties@, name, k);
            assert(is_first_prop(c.properties@, name, k)) by {
                assert forall|j: int| 0 <= j < k implies c.properties@[j].name@ != name by {
                    assert(c.properties@[j] == b.properties@[j]);
                    assert(b.properties@[j] == b.properties@.drop_last()[j]);
                }
            }
            lemma_prop_pos(c.properties@, name, k);
        },
    }
}

/// A deleted node stays in the tree, marked deleted, with the deletion
/// site recorded as its latest sighting: the tree only grew.
pub proof fn law_deleted_node_stays_visible(a: DtNode, b: DtNode, i: int, loc: SourceLoc)
    requires
        0 <= i < a.children@.len(),
        wf_tree(a),
        child_deleted(a, b, i, loc),
    ensures
        tree_extends(a, b),
        wf_tree(b),
        b.children@[i].name == a.children@[i].name,
        b.children@[i].deleted,
        b.children@[i].provenance matches Some(q) && (q.defined == loc || q.modified@.last() == loc),
{
    let c = a.children@[i];
    let d = b.children@[i];
    lemma_extends_refl(c);
    assert(tree_extends(c, d)) by {
        match c.provenance {
            Some(p) => assert(p.modified@.is_prefix_of(d.provenance->0.modified@)),
            None => {},
        }
    }
    assert(wf_tree(c));
    assert(b.children@ =~= a.children@.update(i, d));
    lemma_child_step(a, b, i);
}

/// A deleted property stays in its node, marked deleted, with its value and
/// name kept: the tree only grew.
pub proof fn law_deleted_property_stays_visible(a: DtNode, b: DtNode, i: int, loc: SourceLoc)
    requires
        0 <= i < a.properties@.len(),
        wf_tree(a),
        prop_deleted(a, b, i, loc),
    ensures
        tree_extends(a, b),
        wf_tree(b),
        b.properties@[i].name == a.properties@[i].name,
        b.properties@[i].value == a.properties@[i].value,
        b.properties@[i].deleted,
{
    assert(prov_extends(a.properties@[i].provenance, b.properties@[i].provenance)) by {
        match a.properties@[i].provenance {
            Some(p) => assert(p.modified@.is_prefix_of(b.properties@[i].provenance->0.modified@)),
            None => {},
        }
    }
    assert(b.properties@ =~= a.properties@.update(i, b.properties@[i]));
    lemma_prop_changed(a, b, i);
}

/// A label names the path it was given last.
pub proof fn law_latest_label_wins(labels: Seq<(Seq<char>, Seq<char>)>, entry: (Seq<char>, Seq<char>), l: Seq<char>)
    ensures
        label_lookup(labels.push(entry), l) == (if entry.0 == l { Some(entry.1) } else { label_lookup(labels, l) }),
{
    assert(labels.push(entry).drop_last() =~= labels);
}

// ---------------------------------------------------------------------------
// Entry point
// ---------------------------------------------------------------------------

/// What parsing a source file comes to: a path the answer table must say
/// something about first, or the result.
pub enum DtsOutcome {
    /// Answer this path in the table and parse again.
    NeedFile(String),
    Done(Result<LoadResult, String>),
}

/// Every file is listed once and every include edge joins listed files.
pub open spec fn graph_wf(g: IncludeGraph) -> bool {
    &&& forall|i: int, j: int| 0 <= i < j < g.files@.len() ==> g.files@[i]@ != g.files@[j]@
    &&& forall|i: int| 0 <= i < g.edges@.len() ==> files_contain(g.files@, (#[trigger] g.edges@[i]).from@)
        && files_contain(g.files@, g.edges@[i].to@)
    &&& forall|i: int| 0 <= i < g.edges@.len() ==> is_include_word((#[trigger] g.edges@[i]).directive@)
}

/// A parsed source: a well-formed tree under `/` in which every property
/// and every node below the root records where it was defined, and the
/// include graph rooted at the main file, which is listed first, with each
/// edge made by `/include/` or `#include`.
pub open spec fn dts_result(lr: LoadResult) -> bool {
    &&& lr.kind@ == "dts"@
    &&& lr.tree.name@ == "/"@
    &&& wf_tree(lr.tree)
    &&& sourced(lr.tree)
    &&& lr.include_graph matches Some(g) && {
        &&& graph_wf(g)
        &&& g.root@ == lr.source@
        &&& g.files@.len() > 0
        &&& g.files@[0]@ == lr.source@
    }
}

/// What parsing comes to where lexing says what it gives: the path that
/// the table must answer first, the main file's own failure, or else a
/// tree as `top_parse` gives it for the tokens (or a parse error), with
/// the lexer's files and edges, and its warnings followed by the parser's.
pub open spec fn parse_outcome(fs: Seq<FileAnswer>, dirs: Seq<Seq<char>>, path: Seq<char>, r: DtsOutcome) -> bool {
    match lex_spec(fs, dirs, path, None, Seq::empty(), empty_view()) {
        Some(LexOut::Need(p)) => r matches DtsOutcome::NeedFile(q) && q@ == p,
        Some(LexOut::Fatal(m)) => r matches DtsOutcome::Done(Err(e)) && e@ == m,
        Some(LexOut::Done(v)) => exists|ts: Seq<Tok>| {
            &&& #[trigger] tok_views(ts) == v.toks
            &&& match top_parse(ts, v.files, 0, shape_leaf("/"@), Seq::empty(), Seq::empty(), Seq::empty()) {
                Ok((sh, _, ws)) => r matches DtsOutcome::Done(Ok(lr)) && {
                    &&& shape_of(lr.tree) == sh
                    &&& string_views(lr.warnings@) == v.warnings + ws
                    &&& lr.include_graph matches Some(g) && {
                        &&& string_views(g.files@) == v.files
                        &&& g.edges@.map_values(|e: IncludeEdge| edge_view(e)) == v.edges
                    }
                },
                Err(m) => r matches DtsOutcome::Done(Err(e)) && e@ == m,
            }
        },
        None => false,
    }
}

/// Parses the source file at `path` with its includes, looking files up in
/// `files`: either the result, or a path that `files` does not answer yet.
pub fn parse_dts_file(path: &str, include_dirs: &[String], files: &[FileAnswer]) -> (r: DtsOutcome)
    ensures
        r matches DtsOutcome::NeedFile(p) ==> !answered(files@, p@),
        !answered(files@, path@) ==> (r matches DtsOutcome::NeedFile(p) && p@ == path@),
        forall|i: int| first_answer(files@, path@, i) ==> match files@[i].opened {
            Err(e) => r matches DtsOutcome::Done(Err(m)) && m@ == "cannot open "@ + path@ + ": "@ + e@,
            Ok(o) => match o.text {
                Err(e) => r matches DtsOutcome::Done(Err(m)) && m@ == "cannot read "@ + o.canon@ + ": "@ + e@,
                Ok(_) => r matches DtsOutcome::Done(Ok(lr)) ==> lr.source@ == o.canon@,
            },
        },
        r matches DtsOutcome::Done(Ok(lr)) ==> dts_result(lr),
        parse_outcome(files@, string_views(include_dirs@), path@, r),
{
    let p = String::from_str(path);
    let mut ctx = LexCtx::new(include_dirs);
    let ghost c0 = ctx;
    let ghost dirs = string_views(include_dirs@);
    proof {
        lemma_view_empty(c0);
        assert(string_views(c0.include_dirs@) =~= dirs);
        assert(string_views(c0.stack@) =~= Seq::<Seq<char>>::empty());
    }
    let lexed = lex_file(&mut ctx, files, &p, None);
    match lexed {
        Ok(()) => {},
        Err(LexStop::Need(q)) => {
            let r = DtsOutcome::NeedFile(q);
            proof { lemma_parse_outcome(files@, dirs, path@, ctx, lexed, r); }
            return r;
        },
        Err(LexStop::Fatal(m)) => {
            let r = DtsOutcome::Done(Err(m));
            proof { lemma_parse_outcome(files@, dirs, path@, ctx, lexed, r); }
            return r;
        },
    }
    assert(ctx.files@.len() > 0) by {
        if !answered(files@, path@) {
        } else {
            let i = choose|i: int| 0 <= i < files@.len() && files@[i].path@ == path@;
            first_answer_exists(files@, path@, i);
        }
    }
    let ghost scanned = ctx;
    let mut root = DtNode::new("/");
    assert(shape_of(root) == shape_leaf("/"@)) by {
        assert(shape_of(root).children =~= Seq::<Shape>::empty());
        assert(shape_of(root).labels =~= Seq::<Seq<char>>::empty());
        assert(shape_of(root).props =~= Seq::<(Seq<char>, Seq<char>, bool, Option<((Seq<char>, u32), Seq<(Seq<char>, u32)>)>)>::empty());
    }
    let mut parser = Parser {
        toks: ctx.toks.as_slice(),
        pos: 0,
        files: ctx.files.as_slice(),
        labels: Vec::new(),
        warnings: Vec::new(),
    };
    assert(label_views(parser.labels@) =~= Seq::<(Seq<char>, Seq<char>)>::empty());
    assert(string_views(parser.warnings@) =~= Seq::<Seq<char>>::empty());
    let ghost p0 = parser;
    let ghost root0 = root;
    let res = parser.parse_top(&mut root);
    let mut pwarn = parser.warnings;
    let ghost pw = pwarn@;
    match res {
        Ok(()) => {},
        Err(e) => {
            let r = DtsOutcome::Done(Err(e));
            proof { lemma_parse_outcome(files@, dirs, path@, scanned, lexed, r); }
            return r;
        },
    }
    proof {
        assert(shape_sourced(shape_of(root0)));
        lemma_top_sourced(p0.toks@, string_views(p0.files@), p0.pos as int, shape_of(root0), label_views(p0.labels@),
            Seq::empty(), string_views(p0.warnings@));
        lemma_sourced_of_shape(root);
    }
    let ghost lexw = ctx.warnings@;
    let mut warnings = ctx.warnings;
    warnings.append(&mut pwarn);
    assert(string_views(warnings@) =~= string_views(lexw) + string_views(pw));
    let source = ctx.files[0].clone();
    let r = DtsOutcome::Done(Ok(LoadResult {
        source: source.clone(),
        kind: String::from_str("dts"),
        tree: root,
        include_graph: Some(IncludeGraph { root: source, files: ctx.files, edges: ctx.edges }),
        warnings,
    }));
    proof { lemma_parse_outcome(files@, dirs, path@, scanned, lexed, r); }
    r
}

/// From a lexing run and the parse of its tokens to what parsing the file
/// comes to.
proof fn lemma_parse_outcome(fs: Seq<FileAnswer>, dirs: Seq<Seq<char>>, path: Seq<char>, c: LexCtx,
    lexed: Result<(), LexStop>, r: DtsOutcome)
    requires
        match lex_spec(fs, dirs, path, None, Seq::empty(), empty_view()) {
            Some(LexOut::Done(v)) => lexed is Ok && lex_view(c) == v,
            Some(LexOut::Need(p)) => lexed matches Err(LexStop::Need(q)) && q@ == p,
            Some(LexOut::Fatal(m)) => lexed matches Err(LexStop::Fatal(q)) && q@ == m,
            None => true,
        },
        lexed matches Err(LexStop::Need(q)) ==> r matches DtsOutcome::NeedFile(q2) && q2@ == q@,
        lexed matches Err(LexStop::Fatal(m)) ==> r matches DtsOutcome::Done(Err(e)) && e@ == m@,
        lexed is Ok ==> match top_parse(c.toks@, string_views(c.files@), 0, shape_leaf("/"@), Seq::empty(), Seq::empty(), Seq::empty()) {
            Ok((sh, _, ws)) => r matches DtsOutcome::Done(Ok(lr)) && {
                &&& shape_of(lr.tree) == sh
                &&& string_views(lr.warnings@) == string_views(c.warnings@) + ws
                &&& lr.include_graph matches Some(g) && g.files@ == c.files@ && g.edges@ == c.edges@
            },
            Err(m) => r matches DtsOutcome::Done(Err(e)) && e@ == m,
        },
    ensures
        parse_outcome(fs, dirs, path, r),
{
    lemma_lex_spec_some(fs, dirs, path, None, Seq::empty(), empty_view());
    match lex_spec(fs, dirs, path, None, Seq::empty(), empty_view()) {
        Some(LexOut::Done(v)) => {
            lemma_view_parts(c);
            let ts = c.toks@;
            assert(tok_views(ts) == v.toks);
        },
        _ => {},
    }
}

/// Some answer for `p` comes first.
proof fn first_answer_exists(fs: Seq<FileAnswer>, p: Seq<char>, x: int)
    requires
        0 <= x < fs.len(),
        fs[x].path@ == p,
    ensures
        exists|i: int| first_answer(fs, p, i),
    decreases x,
{
    if exists|j: int| 0 <= j < x && fs[j].path@ == p {
        let j = choose|j: int| 0 <= j < x && fs[j].path@ == p;
        first_answer_exists(fs, p, j);
    } else {
        assert(first_answer(fs, p, x));
    }
}

} // verus!
