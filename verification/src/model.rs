//! The display model shared by every input kind: a tree of nodes and
//! properties, with optional source provenance.
use vstd::prelude::*;
use crate::text::{push_char, push_dec, chars_of, string_of, dec_str};

verus! {

/// A position in a device tree source file.
#[derive(Debug, Clone, PartialEq, Eq)]
pub struct SourceLoc {
    pub file: String,
    pub line: u32,
}

impl SourceLoc {
    pub fn new(file: &str, line: u32) -> (r: SourceLoc)
        ensures
            r.file@ == file@,
            r.line == line,
    {
        SourceLoc { file: String::from_str(file), line }
    }

    /// `file:line`.
    pub fn to_string(&self) -> (r: String)
        ensures
            r@ == self.file@ + seq![':'] + dec_str(self.line as nat),
    {
        let mut out = self.file.clone();
        push_char(&mut out, ':');
        push_dec(&mut out, self.line as u64);
        out
    }
}

/// Where a node or property came from: the site that first defined it and,
/// in source order, every later site that touched it (re-opened it, overrode
/// its value, deleted it, or re-defined it after deletion).
#[derive(Debug, Clone)]
pub struct Provenance {
    pub defined: SourceLoc,
    pub modified: Vec<SourceLoc>,
}

impl Provenance {
    pub fn new(defined: SourceLoc) -> (r: Provenance)
        ensures
            r.defined == defined,
            r.modified@.len() == 0,
    {
        Provenance { defined, modified: Vec::new() }
    }

    pub fn touch(&mut self, loc: SourceLoc)
        ensures
            final(self).defined == old(self).defined,
            final(self).modified@ == old(self).modified@.push(loc),
    {
        self.modified.push(loc);
    }
}

#[derive(Debug, Clone)]
pub struct DtProperty {
    pub name: String,
    /// Display form of the value: reconstructed source text for `.dts` input,
    /// decoded form (strings / cells / bytes) for binary input. Empty for
    /// boolean (value-less) properties.
    pub value: String,
    /// Removed by /delete-property/ (kept in the model so the deletion site
    /// remains visible).
    pub deleted: bool,
    /// None for trees without source information (.dtb, /proc/device-tree).
    pub provenance: Option<Provenance>,
}

#[derive(Debug)]
pub struct DtNode {
    pub name: String,
    pub labels: Vec<String>,
    pub properties: Vec<DtProperty>,
    pub children: Vec<DtNode>,
    /// Removed by /delete-node/ (kept in the model so the deletion site
    /// remains visible).
    pub deleted: bool,
    /// None for trees without source information (.dtb, /proc/device-tree).
    pub provenance: Option<Provenance>,
}

/// A copy of the tree under `n`.
fn clone_node(n: &DtNode) -> (r: DtNode)
    ensures
        r.name@ == n.name@,
        r.deleted == n.deleted,
        r.children@.len() == n.children@.len(),
        forall|i: int| 0 <= i < n.children@.len() ==> (#[trigger] r.children@[i]).name@ == n.children@[i].name@,
    decreases n,
{
    let mut children: Vec<DtNode> = Vec::new();
    let mut k: usize = 0;
    while k < n.children.len()
        invariant
            0 <= k <= n.children@.len(),
            children@.len() == k,
            forall|i: int| 0 <= i < k ==> (#[trigger] children@[i]).name@ == n.children@[i].name@,
        decreases n.children@.len() - k,
    {
        proof {
            assert(decreases_to!(*n => n.children));
        }
        let c = clone_node(&n.children[k]);
        children.push(c);
        k += 1;
    }
    DtNode {
        name: n.name.clone(),
        labels: n.labels.clone(),
        properties: n.properties.clone(),
        children,
        deleted: n.deleted,
        provenance: n.provenance.clone(),
    }
}

impl Clone for DtNode {
    fn clone(&self) -> (r: DtNode)
        ensures
            r.name@ == self.name@,
            r.deleted == self.deleted,
            r.children@.len() == self.children@.len(),
    {
        clone_node(self)
    }
}

/// `i` is the first child called `name`.
pub open spec fn is_first_child(children: Seq<DtNode>, name: Seq<char>, i: int) -> bool {
    &&& 0 <= i < children.len()
    &&& children[i].name@ == name
    &&& forall|j: int| 0 <= j < i ==> children[j].name@ != name
}

/// Position of the first child called `name`.
pub open spec fn child_pos(children: Seq<DtNode>, name: Seq<char>) -> Option<int> {
    if exists|i: int| is_first_child(children, name, i) {
        Some(choose|i: int| is_first_child(children, name, i))
    } else {
        None
    }
}

/// `i` is the first property called `name`.
pub open spec fn is_first_prop(props: Seq<DtProperty>, name: Seq<char>, i: int) -> bool {
    &&& 0 <= i < props.len()
    &&& props[i].name@ == name
    &&& forall|j: int| 0 <= j < i ==> props[j].name@ != name
}

/// Position of the first property called `name`.
pub open spec fn prop_pos(props: Seq<DtProperty>, name: Seq<char>) -> Option<int> {
    if exists|i: int| is_first_prop(props, name, i) {
        Some(choose|i: int| is_first_prop(props, name, i))
    } else {
        None
    }
}

pub proof fn lemma_child_pos(children: Seq<DtNode>, name: Seq<char>, i: int)
    requires
        is_first_child(children, name, i),
    ensures
        child_pos(children, name) == Some(i),
{
    let k = choose|k: int| is_first_child(children, name, k);
    assert(is_first_child(children, name, k));
    if k < i {
        assert(children[k].name@ != name);
    } else if i < k {
        assert(children[i].name@ != name);
    }
}

pub proof fn lemma_prop_pos(props: Seq<DtProperty>, name: Seq<char>, i: int)
    requires
        is_first_prop(props, name, i),
    ensures
        prop_pos(props, name) == Some(i),
{
    let k = choose|k: int| is_first_prop(props, name, k);
    assert(is_first_prop(props, name, k));
    if k < i {
        assert(props[k].name@ != name);
    } else if i < k {
        assert(props[i].name@ != name);
    }
}

/// `b` is `a` with only its children changed.
pub open spec fn same_but_children(a: DtNode, b: DtNode) -> bool {
    &&& b.name == a.name
    &&& b.labels == a.labels
    &&& b.properties == a.properties
    &&& b.deleted == a.deleted
    &&& b.provenance == a.provenance
}

/// The segments of an absolute path such as `/soc/serial@0`: the text
/// between slashes, with empty segments dropped; `cur` is the segment read
/// so far.
pub open spec fn segments_from(p: Seq<char>, cur: Seq<char>) -> Seq<Seq<char>>
    decreases p.len(),
{
    if p.len() == 0 {
        if cur.len() > 0 { seq![cur] } else { Seq::empty() }
    } else if p[0] == '/' {
        (if cur.len() > 0 { seq![cur] } else { Seq::empty() }) + segments_from(p.drop_first(), Seq::empty())
    } else {
        segments_from(p.drop_first(), cur.push(p[0]))
    }
}

pub open spec fn path_segments(p: Seq<char>) -> Seq<Seq<char>> {
    segments_from(p, Seq::empty())
}

/// The node reached from `node` by following `segs`, first matching child
/// at each step.
pub open spec fn subtree_at(node: DtNode, segs: Seq<Seq<char>>) -> Option<DtNode>
    decreases segs.len(),
{
    if segs.len() == 0 {
        Some(node)
    } else {
        match child_pos(node.children@, segs[0]) {
            Some(i) => subtree_at(node.children@[i], segs.drop_first()),
            None => None,
        }
    }
}

/// `new` is `old` with the node at `segs` replaced by `sub`.
pub open spec fn replaced_at(old: DtNode, new: DtNode, segs: Seq<Seq<char>>, sub: DtNode) -> bool
    decreases segs.len(),
{
    if segs.len() == 0 {
        new == sub
    } else {
        match child_pos(old.children@, segs[0]) {
            Some(i) => {
                &&& same_but_children(old, new)
                &&& new.children@.len() == old.children@.len()
                &&& forall|j: int| 0 <= j < old.children@.len() && j != i ==> new.children@[j] == old.children@[j]
                &&& replaced_at(old.children@[i], new.children@[i], segs.drop_first(), sub)
            },
            None => false,
        }
    }
}

/// The path `/` names the node it is looked up from: it has no segments.
pub proof fn law_root_path_is_the_node(n: DtNode)
    ensures
        path_segments(seq!['/']) == Seq::<Seq<char>>::empty(),
        subtree_at(n, path_segments(seq!['/'])) == Some(n),
{
    let p = seq!['/'];
    assert(p.drop_first() =~= Seq::<char>::empty());
    assert(segments_from(p.drop_first(), Seq::empty()) =~= Seq::<Seq<char>>::empty());
    assert(segments_from(p, Seq::empty()) =~= Seq::<Seq<char>>::empty());
}

impl DtNode {
    pub fn new(name: &str) -> (r: DtNode)
        ensures
            r.name@ == name@,
            r.labels@.len() == 0,
            r.properties@.len() == 0,
            r.children@.len() == 0,
            !r.deleted,
            r.provenance is None,
    {
        DtNode {
            name: String::from_str(name),
            labels: Vec::new(),
            properties: Vec::new(),
            children: Vec::new(),
            deleted: false,
            provenance: None,
        }
    }

    /// Position of the first child called `name`.
    pub fn child_index(&self, name: &str) -> (r: Option<usize>)
        ensures
            r matches Some(i) ==> child_pos(self.children@, name@) == Some(i as int),
            r is None ==> child_pos(self.children@, name@) is None,
    {
        let s = String::from_str(name);
        let mut i: usize = 0;
        while i < self.children.len()
            invariant
                0 <= i <= self.children@.len(),
                s@ == name@,
                forall|j: int| 0 <= j < i ==> self.children@[j].name@ != name@,
            decreases self.children@.len() - i,
        {
            if self.children[i].name == s {
                proof {
                    lemma_child_pos(self.children@, name@, i as int);
                }
                return Some(i);
            }
            i += 1;
        }
        assert(child_pos(self.children@, name@) is None) by {
            if exists|k: int| is_first_child(self.children@, name@, k) {
                let k = choose|k: int| is_first_child(self.children@, name@, k);
                assert(self.children@[k].name@ != name@);
            }
        }
        None
    }

    /// The first child called `name`.
    pub fn child_mut(&mut self, name: &str) -> (r: Option<&mut DtNode>)
        ensures
            r is Some <==> child_pos(old(self).children@, name@) is Some,
            r matches Some(c) ==> {
                let i = child_pos(old(self).children@, name@)->0;
                &&& *c == old(self).children@[i]
                &&& same_but_children(*old(self), *final(self))
                &&& final(self).children@ == old(self).children@.update(i, *final(c))
            },
            r is None ==> *final(self) == *old(self),
    {
        let s = String::from_str(name);
        let mut i: usize = 0;
        while i < self.children.len()
            invariant
                0 <= i <= self.children@.len(),
                s@ == name@,
                *self == *old(self),
                forall|j: int| 0 <= j < i ==> self.children@[j].name@ != name@,
            decreases self.children@.len() - i,
        {
            if self.children[i].name == s {
                proof {
                    lemma_child_pos(self.children@, name@, i as int);
                }
                let c = &mut self.children[i];
                return Some(c);
            }
            i += 1;
        }
        assert(child_pos(self.children@, name@) is None) by {
            if exists|k: int| is_first_child(self.children@, name@, k) {
                let k = choose|k: int| is_first_child(self.children@, name@, k);
                assert(self.children@[k].name@ != name@);
            }
        }
        None
    }

    /// The first property called `name`.
    pub fn property_mut(&mut self, name: &str) -> (r: Option<&mut DtProperty>)
        ensures
            r is Some <==> prop_pos(old(self).properties@, name@) is Some,
            r matches Some(p) ==> {
                let i = prop_pos(old(self).properties@, name@)->0;
                &&& *p == old(self).properties@[i]
                &&& final(self).name == old(self).name
                &&& final(self).labels == old(self).labels
                &&& final(self).children == old(self).children
                &&& final(self).deleted == old(self).deleted
                &&& final(self).provenance == old(self).provenance
                &&& final(self).properties@ == old(self).properties@.update(i, *final(p))
            },
            r is None ==> *final(self) == *old(self),
    {
        let s = String::from_str(name);
        let mut i: usize = 0;
        while i < self.properties.len()
            invariant
                0 <= i <= self.properties@.len(),
                s@ == name@,
                *self == *old(self),
                forall|j: int| 0 <= j < i ==> self.properties@[j].name@ != name@,
            decreases self.properties@.len() - i,
        {
            if self.properties[i].name == s {
                proof {
                    lemma_prop_pos(self.properties@, name@, i as int);
                }
                let p = &mut self.properties[i];
                return Some(p);
            }
            i += 1;
        }
        assert(prop_pos(self.properties@, name@) is None) by {
            if exists|k: int| is_first_prop(self.properties@, name@, k) {
                let k = choose|k: int| is_first_prop(self.properties@, name@, k);
                assert(self.properties@[k].name@ != name@);
            }
        }
        None
    }

    /// Descend from this node along an absolute device tree path like
    /// `/soc/serial@10000000`. `/` returns the node itself.
    pub fn node_at_path_mut(&mut self, path: &str) -> (r: Option<&mut DtNode>)
        ensures
            r is Some <==> subtree_at(*old(self), path_segments(path@)) is Some,
            r matches Some(n) ==> {
                &&& *n == subtree_at(*old(self), path_segments(path@))->0
                &&& replaced_at(*old(self), *final(self), path_segments(path@), *final(n))
            },
            r is None ==> *final(self) == *old(self),
    {
        let (segs, Ghost(view)) = split_path(path);
        assert(view.skip(0) =~= view);
        if has_subtree(self, &segs, 0, Ghost(view)) {
            Some(descend(self, &segs, 0, Ghost(view)))
        } else {
            None
        }
    }
}

/// Splits a path into its non-empty `/`-separated segments.
fn split_path(path: &str) -> (r: (Vec<String>, Ghost<Seq<Seq<char>>>))
    ensures
        r.1@ == path_segments(path@),
        r.0@.len() == r.1@.len(),
        forall|k: int| 0 <= k < r.0@.len() ==> #[trigger] r.0@[k]@ == r.1@[k],
{
    let cs = chars_of(path);
    let mut out: Vec<String> = Vec::new();
    let ghost mut view: Seq<Seq<char>> = Seq::empty();
    let mut cur: Vec<char> = Vec::new();
    let mut i: usize = 0;
    assert(cs@.skip(0) =~= cs@);
    assert(view + segments_from(cs@, cur@) =~= segments_from(cs@, cur@));
    while i < cs.len()
        invariant
            0 <= i <= cs@.len(),
            cs@ == path@,
            out@.len() == view.len(),
            forall|k: int| 0 <= k < out@.len() ==> #[trigger] out@[k]@ == view[k],
            view + segments_from(cs@.skip(i as int), cur@) == path_segments(path@),
        decreases cs@.len() - i,
    {
        let c = cs[i];
        assert(cs@.skip(i as int).drop_first() =~= cs@.skip(i + 1));
        if c == '/' {
            if cur.len() > 0 {
                let s = string_of(cur.as_slice());
                out.push(s);
                proof {
                    assert(view.push(cur@) + segments_from(cs@.skip(i + 1), Seq::empty())
                        =~= view + (seq![cur@] + segments_from(cs@.skip(i + 1), Seq::empty())));
                    view = view.push(cur@);
                }
            } else {
                assert(view + segments_from(cs@.skip(i + 1), Seq::empty())
                    =~= view + (Seq::<Seq<char>>::empty() + segments_from(cs@.skip(i + 1), Seq::empty())));
            }
            cur = Vec::new();
        } else {
            cur.push(c);
        }
        i += 1;
    }
    assert(cs@.skip(i as int).len() == 0);
    if cur.len() > 0 {
        let s = string_of(cur.as_slice());
        out.push(s);
        proof {
            view = view.push(cur@);
        }
    } else {
        assert(view + Seq::<Seq<char>>::empty() =~= view);
    }
    (out, Ghost(view))
}

fn has_subtree(node: &DtNode, segs: &Vec<String>, k: usize, Ghost(view): Ghost<Seq<Seq<char>>>) -> (r: bool)
    requires
        k <= segs@.len(),
        segs@.len() == view.len(),
        forall|j: int| 0 <= j < segs@.len() ==> #[trigger] segs@[j]@ == view[j],
    ensures
        r == subtree_at(*node, view.skip(k as int)) is Some,
    decreases segs@.len() - k,
{
    if k == segs.len() {
        assert(view.skip(k as int).len() == 0);
        return true;
    }
    assert(view.skip(k as int)[0] == view[k as int]);
    assert(view.skip(k as int).drop_first() =~= view.skip(k + 1));
    match node.child_index(segs[k].as_str()) {
        Some(i) => has_subtree(&node.children[i], segs, k + 1, Ghost(view)),
        None => false,
    }
}

fn descend<'a>(node: &'a mut DtNode, segs: &Vec<String>, k: usize, Ghost(view): Ghost<Seq<Seq<char>>>) -> (r: &'a mut DtNode)
    requires
        k <= segs@.len(),
        segs@.len() == view.len(),
        forall|j: int| 0 <= j < segs@.len() ==> #[trigger] segs@[j]@ == view[j],
        subtree_at(*old(node), view.skip(k as int)) is Some,
    ensures
        *r == subtree_at(*old(node), view.skip(k as int))->0,
        replaced_at(*old(node), *final(node), view.skip(k as int), *final(r)),
    decreases segs@.len() - k,
{
    if k == segs.len() {
        assert(view.skip(k as int).len() == 0);
        return node;
    }
    assert(view.skip(k as int)[0] == view[k as int]);
    assert(view.skip(k as int).drop_first() =~= view.skip(k + 1));
    let i = node.child_index(segs[k].as_str()).unwrap();
    descend(&mut node.children[i], segs, k + 1, Ghost(view))
}

/// One resolved include directive: `from` pulls in `to` at `from:line`.
#[derive(Debug, Clone)]
pub struct IncludeEdge {
    pub from: String,
    pub to: String,
    pub line: u32,
    /// "/include/" or "#include"
    pub directive: String,
}

#[derive(Debug, Clone)]
pub struct IncludeGraph {
    pub root: String,
    pub files: Vec<String>,
    pub edges: Vec<IncludeEdge>,
}

#[derive(Debug, Clone)]
pub struct LoadResult {
    /// Path of the loaded file or directory.
    pub source: String,
    /// "dts" | "dtb" | "live"
    pub kind: String,
    pub tree: DtNode,
    /// Only present for "dts" input.
    pub include_graph: Option<IncludeGraph>,
    pub warnings: Vec<String>,
}

} // verus!
