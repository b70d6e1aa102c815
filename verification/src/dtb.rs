//! Flattened device tree (.dtb / .dtbo) parsing into the common model.
//! Binary trees carry no source information, so nodes and properties have
//! no provenance. The blob is read into a raw tree first; the phandle module
//! then resolves references and renders every value for display.
use vstd::prelude::*;
use vstd::utf8::{valid_utf8, decode_utf8};
use crate::model::{DtNode, LoadResult};
use crate::phandle::{RawNode, built, collect_spec, empty_maps, into_model};
use crate::render::{be32_at, read_be32};
use crate::text::{push_dec, push_hex_fixed, push_char, dec_str, hex_fixed};

verus! {

pub const FDT_MAGIC: u32 = 0xd00d_feed;
pub const FDT_BEGIN_NODE: u32 = 1;
pub const FDT_END_NODE: u32 = 2;
pub const FDT_PROP: u32 = 3;
pub const FDT_NOP: u32 = 4;
pub const FDT_END: u32 = 9;

/// What `String::from_utf8_lossy` makes of a byte sequence.
pub uninterp spec fn utf8_lossy(bytes: Seq<u8>) -> Seq<char>;

/// `String::from_utf8_lossy` on `b[lo..hi]`: invalid sequences become
/// U+FFFD; valid UTF-8 is decoded unchanged.
#[verifier::external_body]
pub(crate) fn lossy_string(b: &[u8], lo: usize, hi: usize) -> (r: String)
    requires
        lo <= hi <= b@.len(),
    ensures
        r@ == utf8_lossy(b@.subrange(lo as int, hi as int)),
        valid_utf8(b@.subrange(lo as int, hi as int)) ==> r@ == decode_utf8(b@.subrange(lo as int, hi as int)),
{
    String::from_utf8_lossy(&b[lo..hi]).into_owned()
}

pub open spec fn truncated_msg(off: nat) -> Seq<char> {
    "truncated blob at offset "@ + dec_str(off)
}

pub open spec fn unterminated_msg(off: nat) -> Seq<char> {
    "unterminated string at offset "@ + dec_str(off)
}

pub open spec fn bad_magic_msg(magic: nat) -> Seq<char> {
    "not a device tree blob (bad magic 0x"@ + hex_fixed(magic, 8) + seq![')']
}

fn be32(b: &[u8], off: usize) -> (r: Result<u32, String>)
    ensures
        r matches Ok(v) ==> off + 4 <= b@.len() && v as nat == be32_at(b@, off as int),
        r matches Err(e) ==> off + 4 > b@.len() && e@ == truncated_msg(off as nat),
{
    if off <= b.len() && b.len() - off >= 4 {
        Ok(read_be32(b, off))
    } else {
        let mut e = String::from_str("truncated blob at offset ");
        push_dec(&mut e, off as u64);
        Err(e)
    }
}

pub proof fn lemma_first_nul(b: Seq<u8>, i: int)
    ensures
        first_nul(b, i) matches Some(z) ==> i <= z < b.len() && b[z] == 0,
    decreases b.len() - i,
{
    if 0 <= i < b.len() && b[i] != 0 {
        lemma_first_nul(b, i + 1);
    }
}

/// Position of the first NUL at or after `i`.
pub open spec fn first_nul(b: Seq<u8>, i: int) -> Option<int>
    decreases b.len() - i,
{
    if i < 0 || i >= b.len() {
        None
    } else if b[i] == 0 {
        Some(i)
    } else {
        first_nul(b, i + 1)
    }
}

fn cstr(b: &[u8], off: usize) -> (r: Result<(String, usize), String>)
    ensures
        r matches Ok((s, rel)) ==> first_nul(b@, off as int) == Some(off + rel) && off + rel < b@.len()
            && s@ == utf8_lossy(b@.subrange(off as int, off + rel)),
        r matches Err(e) ==> first_nul(b@, off as int) is None
            && e@ == unterminated_msg(off as nat),
{
    if off <= b.len() {
        let mut i: usize = off;
        while i < b.len()
            invariant
                off <= i <= b@.len(),
                forall|j: int| off <= j < i ==> b@[j] != 0,
                first_nul(b@, off as int) == first_nul(b@, i as int),
            decreases b@.len() - i,
        {
            if b[i] == 0 {
                let s = lossy_string(b, off, i);
                return Ok((s, i - off));
            }
            i += 1;
        }
    }
    let mut e = String::from_str("unterminated string at offset ");
    push_dec(&mut e, off as u64);
    Err(e)
}

/// A node as a blob describes it: its name, its properties as (name,
/// value bytes), and its children.
pub struct BlobNode {
    pub name: Seq<char>,
    pub props: Seq<(Seq<char>, Seq<u8>)>,
    pub children: Seq<BlobNode>,
}

/// What a raw tree holds, as a `BlobNode`.
pub open spec fn raw_view(n: RawNode) -> BlobNode
    decreases n,
{
    BlobNode {
        name: n.name@,
        props: n.properties@.map_values(|p: (String, Vec<u8>)| (p.0@, p.1@)),
        children: Seq::new(n.children@.len(), |i: int|
            if 0 <= i < n.children@.len() { raw_view(n.children@[i]) } else { blob_leaf(Seq::empty()) }),
    }
}

/// `out` is the display tree of a blob whose nodes and value bytes are
/// `t`: the display tree of a raw tree holding `t`, with phandle references
/// resolved against that whole tree.
pub open spec fn displays_blob(t: BlobNode, out: DtNode) -> bool {
    exists|raw: RawNode| #[trigger] raw_view(raw) == t && built(raw, out, collect_spec(raw, "/"@, empty_maps()))
}

/// A display tree built from a raw tree is bare.
pub proof fn lemma_built_bare(raw: RawNode, out: DtNode, m: crate::phandle::RefMapsView)
    requires
        built(raw, out, m),
    ensures
        bare_tree(out),
    decreases raw,
{
    assert forall|i: int| 0 <= i < out.children@.len() implies bare_tree(#[trigger] out.children@[i]) by {
        assert(decreases_to!(raw => raw.children@[i]));
        lemma_built_bare(raw.children@[i], out.children@[i], m);
    }
}

/// A tree read from a blob: no labels, deletions or provenance anywhere.
pub open spec fn bare_tree(n: DtNode) -> bool
    decreases n,
{
    &&& n.labels@.len() == 0
    &&& !n.deleted
    &&& n.provenance is None
    &&& forall|i: int| 0 <= i < n.properties@.len() ==> {
        let p = #[trigger] n.properties@[i];
        !p.deleted && p.provenance is None
    }
    &&& forall|i: int| 0 <= i < n.children@.len() ==> bare_tree(#[trigger] n.children@[i])
}

pub open spec fn align4_spec(x: int) -> int {
    if x % 4 == 0 { x } else { x + (4 - x % 4) }
}

/// A node named `name` with nothing in it yet.
pub open spec fn blob_leaf(name: Seq<char>) -> BlobNode {
    BlobNode { name, props: Seq::empty(), children: Seq::empty() }
}

/// The stack of open nodes after the top one closes into its parent.
pub open spec fn close_top(stack: Seq<BlobNode>) -> Seq<BlobNode> {
    let node = stack.last();
    let rest = stack.drop_last();
    let parent = rest.last();
    rest.drop_last().push(BlobNode { children: parent.children.push(node), ..parent })
}

/// The structure block walked from `pos` with the open nodes `stack`:
/// the root node when it closes, or the error that stops the walk.
/// `strings` is the offset of the strings block.
pub open spec fn dtb_walk(b: Seq<u8>, strings: nat, pos: int, stack: Seq<BlobNode>) -> Result<BlobNode, Seq<char>>
    decreases b.len() + 4 - pos,
{
    if pos < 0 || pos + 4 > b.len() {
        Err(truncated_msg(if pos < 0 { 0 } else { pos as nat }))
    } else {
        let token = be32_at(b, pos);
        let p = pos + 4;
        if token == FDT_BEGIN_NODE {
            proof { lemma_first_nul(b, p); }
            match first_nul(b, p) {
                Some(z) => {
                    let name = if z == p { "/"@ } else { utf8_lossy(b.subrange(p, z)) };
                    dtb_walk(b, strings, align4_spec(z + 1), stack.push(blob_leaf(name)))
                },
                None => Err(unterminated_msg(p as nat)),
            }
        } else if token == FDT_END_NODE {
            if stack.len() == 0 {
                Err("unbalanced FDT_END_NODE"@)
            } else if stack.len() == 1 {
                Ok(stack.last())
            } else {
                dtb_walk(b, strings, p, close_top(stack))
            }
        } else if token == FDT_PROP {
            if p + 4 > b.len() {
                Err(truncated_msg(p as nat))
            } else if p + 8 > b.len() {
                Err(truncated_msg((p + 4) as nat))
            } else {
                let len = be32_at(b, p);
                let q = p + 8;
                if len > b.len() - q {
                    Err("truncated property value at offset "@ + dec_str(q as nat))
                } else {
                    let value = b.subrange(q, q + len);
                    let name_off = strings + be32_at(b, p + 4);
                    if name_off > b.len() {
                        Err(unterminated_msg(name_off))
                    } else {
                        match first_nul(b, name_off as int) {
                            None => Err(unterminated_msg(name_off)),
                            Some(z) => {
                                if stack.len() == 0 {
                                    Err("property outside of any node"@)
                                } else {
                                    let top = stack.last();
                                    let pname = utf8_lossy(b.subrange(name_off as int, z));
                                    dtb_walk(b, strings, align4_spec(q + len),
                                        stack.drop_last().push(BlobNode { props: top.props.push((pname, value)), ..top }))
                                }
                            },
                        }
                    }
                }
            }
        } else if token == FDT_NOP {
            dtb_walk(b, strings, p, stack)
        } else if token == FDT_END {
            Err("blob ends without a root node"@)
        } else {
            Err("unknown FDT token 0x"@ + hex_fixed(token, 8) + " at offset "@ + dec_str(pos as nat))
        }
    }
}

/// What parsing a blob gives: the header checks, then the walk of the
/// structure block.
pub open spec fn dtb_spec(b: Seq<u8>) -> Result<BlobNode, Seq<char>> {
    if b.len() < 4 {
        Err(truncated_msg(0))
    } else if be32_at(b, 0) != FDT_MAGIC {
        Err(bad_magic_msg(be32_at(b, 0)))
    } else if b.len() < 12 {
        Err(truncated_msg(8))
    } else if b.len() < 16 {
        Err(truncated_msg(12))
    } else if be32_at(b, 8) > b.len() {
        Err(truncated_msg(be32_at(b, 8)))
    } else {
        dtb_walk(b, be32_at(b, 12), be32_at(b, 8) as int, Seq::empty())
    }
}

fn align4(x: usize) -> (r: usize)
    requires
        x + 3 <= usize::MAX,
    ensures
        x <= r <= x + 3,
        r % 4 == 0,
        r == align4_spec(x as int),
{
    if x % 4 == 0 { x } else { x + (4 - x % 4) }
}

/// The open nodes, as the walk sees them.
pub open spec fn stack_view(stack: Seq<RawNode>) -> Seq<BlobNode> {
    stack.map_values(|n: RawNode| raw_view(n))
}

proof fn lemma_close_top(stack: Seq<RawNode>, node: RawNode, parent: RawNode, new_parent: RawNode)
    requires
        stack.len() >= 2,
        node == stack.last(),
        parent == stack.drop_last().last(),
        new_parent.name == parent.name,
        new_parent.properties == parent.properties,
        new_parent.children@ == parent.children@.push(node),
    ensures
        stack_view(stack.drop_last().drop_last().push(new_parent)) == close_top(stack_view(stack)),
{
    let v = stack_view(stack);
    assert(v.last() == raw_view(node));
    assert(v.drop_last().last() == raw_view(parent));
    let pv = raw_view(parent);
    let npv = raw_view(new_parent);
    assert(npv.children =~= pv.children.push(raw_view(node)));
    assert(npv == BlobNode { children: pv.children.push(raw_view(node)), ..pv });
    assert(stack_view(stack.drop_last().drop_last().push(new_parent)) =~= v.drop_last().drop_last().push(npv));
}

/// Reads a flattened device tree blob into a raw tree: node names,
/// property names and value bytes.
#[verifier::rlimit(50)]
#[verifier::spinoff_prover]
pub fn read_blob(bytes: &[u8]) -> (r: Result<RawNode, String>)
    requires
        bytes@.len() <= isize::MAX,
    ensures
        match dtb_spec(bytes@) {
            Ok(t) => r matches Ok(root) && raw_view(root) == t,
            Err(m) => r matches Err(e) && e@ == m,
        },
{
    let magic = be32(bytes, 0)?;
    if magic != FDT_MAGIC {
        let mut e = String::from_str("not a device tree blob (bad magic 0x");
        push_hex_fixed(&mut e, magic as u64, 8);
        push_char(&mut e, ')');
        return Err(e);
    }
    let off_struct = be32(bytes, 8)? as usize;
    let off_strings = be32(bytes, 12)?;

    let blen: usize = bytes.len();
    let mut pos: usize = off_struct;
    let mut stack: Vec<RawNode> = Vec::new();
    if pos > blen {
        let mut e = String::from_str("truncated blob at offset ");
        push_dec(&mut e, pos as u64);
        return Err(e);
    }
    assert(stack_view(stack@) =~= Seq::<BlobNode>::empty());
    loop
        invariant
            blen == bytes@.len(),
            blen <= isize::MAX,
            pos <= blen + 3,
            bytes@.len() >= 16,
            be32_at(bytes@, 0) == FDT_MAGIC,
            off_strings as nat == be32_at(bytes@, 12),
            dtb_spec(bytes@) == dtb_walk(bytes@, off_strings as nat, pos as int, stack_view(stack@)),
        decreases blen + 4 - pos,
    {
        let token = be32(bytes, pos)?;
        let ghost pos0 = pos as int;
        let ghost st0 = stack@;
        pos += 4;
        if token == FDT_BEGIN_NODE {
            let (name, len) = cstr(bytes, pos)?;
            pos = align4(pos + len + 1);
            let node = RawNode {
                name: if len == 0 { String::from_str("/") } else { name },
                properties: Vec::new(),
                children: Vec::new(),
            };
            proof {
                assert(raw_view(node) == blob_leaf(node.name@)) by {
                    assert(raw_view(node).props =~= Seq::<(Seq<char>, Seq<u8>)>::empty());
                    assert(raw_view(node).children =~= Seq::<BlobNode>::empty());
                }
            }
            stack.push(node);
            assert(stack_view(stack@) =~= stack_view(st0).push(raw_view(node)));
        } else if token == FDT_END_NODE {
            let node = match stack.pop() {
                Some(n) => n,
                None => return Err(String::from_str("unbalanced FDT_END_NODE")),
            };
            match stack.pop() {
                Some(mut parent) => {
                    let ghost p0 = parent;
                    parent.children.push(node);
                    proof {
                        lemma_close_top(st0, node, p0, parent);
                    }
                    stack.push(parent);
                    assert(stack@ =~= st0.drop_last().drop_last().push(parent));
                },
                None => {
                    assert(st0.len() == 1);
                    return Ok(node);
                },
            }
        } else if token == FDT_PROP {
            let len = be32(bytes, pos)? as usize;
            let nameoff = be32(bytes, pos + 4)?;
            pos += 8;
            if len > blen - pos {
                let mut e = String::from_str("truncated property value at offset ");
                push_dec(&mut e, pos as u64);
                return Err(e);
            }
            let mut value_bytes: Vec<u8> = Vec::new();
            let mut k: usize = pos;
            let end: usize = pos + len;
            while k < end
                invariant
                    end == pos + len,
                    pos <= k <= end <= bytes@.len(),
                    value_bytes@ == bytes@.subrange(pos as int, k as int),
                decreases end - k,
            {
                value_bytes.push(bytes[k]);
                assert(value_bytes@ =~= bytes@.subrange(pos as int, k + 1));
                k += 1;
            }
            let lo = pos;
            pos = align4(pos + len);
            let name_off = off_strings as u64 + nameoff as u64;
            if name_off > blen as u64 {
                let mut e = String::from_str("unterminated string at offset ");
                push_dec(&mut e, name_off);
                return Err(e);
            }
            let (name, _) = cstr(bytes, name_off as usize)?;
            let mut node = match stack.pop() {
                Some(n) => n,
                None => return Err(String::from_str("property outside of any node")),
            };
            let ghost n0 = node;
            node.properties.push((name, value_bytes));
            proof {
                let top = raw_view(n0);
                assert(raw_view(node).props =~= top.props.push((node.properties@.last().0@, bytes@.subrange(lo as int, (lo + len) as int))));
                assert(raw_view(node).children =~= top.children);
            }
            stack.push(node);
            proof {
                assert(stack_view(stack@) =~= stack_view(st0).drop_last().push(raw_view(node)));
            }
        } else if token == FDT_NOP {
        } else if token == FDT_END {
            return Err(String::from_str("blob ends without a root node"));
        } else {
            let mut e = String::from_str("unknown FDT token 0x");
            push_hex_fixed(&mut e, token as u64, 8);
            e.append(" at offset ");
            push_dec(&mut e, (pos - 4) as u64);
            return Err(e);
        }
    }
}

/// Parses a flattened device tree blob into the common model: the blob's
/// tree with every property value rendered for display, references
/// resolved through the phandles, `__symbols__` labels and cell counts found
/// in it.
pub fn parse_dtb(bytes: &[u8]) -> (r: Result<DtNode, String>)
    requires
        bytes@.len() <= isize::MAX,
    ensures
        match dtb_spec(bytes@) {
            Ok(t) => r matches Ok(root) && displays_blob(t, root) && bare_tree(root),
            Err(m) => r matches Err(e) && e@ == m,
        },
{
    let raw = read_blob(bytes)?;
    let root = into_model(&raw);
    proof {
        lemma_built_bare(raw, root, collect_spec(raw, "/"@, empty_maps()));
        assert(raw_view(raw) == raw_view(raw) && built(raw, root, collect_spec(raw, "/"@, empty_maps())));
    }
    Ok(root)
}

/// Builds the load result for a blob whose bytes were read from `path`;
/// `read` carries the bytes, or the reason they could not be read.
pub fn load(path: &str, read: Result<Vec<u8>, String>) -> (r: Result<LoadResult, String>)
    ensures
        read matches Err(e) ==> (r matches Err(m) && m@ == "cannot read "@ + path@ + ": "@ + e@),
        read matches Ok(b) ==> if b@.len() > isize::MAX {
            r matches Err(m) && m@ == "cannot read "@ + path@ + ": too large"@
        } else {
            match dtb_spec(b@) {
                Ok(t) => r matches Ok(lr) && {
                    &&& lr.source@ == path@
                    &&& lr.kind@ == "dtb"@
                    &&& lr.include_graph is None
                    &&& lr.warnings@.len() == 0
                    &&& displays_blob(t, lr.tree)
                    &&& bare_tree(lr.tree)
                },
                Err(m) => r matches Err(e) && e@ == m,
            }
        },
{
    let bytes = match read {
        Ok(b) => b,
        Err(e) => {
            let mut m = String::from_str("cannot read ");
            m.append(path);
            m.append(": ");
            m.append(e.as_str());
            return Err(m);
        },
    };
    if bytes.len() > isize::MAX as usize {
        let mut m = String::from_str("cannot read ");
        m.append(path);
        m.append(": too large");
        return Err(m);
    }
    let tree = parse_dtb(bytes.as_slice())?;
    Ok(LoadResult {
        source: String::from_str(path),
        kind: String::from_str("dtb"),
        tree,
        include_graph: None,
        warnings: Vec::new(),
    })
}

} // verus!
