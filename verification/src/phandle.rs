//! Phandle resolution for binary trees (.dtb blobs and /proc/device-tree).
//!
//! Compiled trees replace `&label` references with numeric phandles. This
//! module turns a raw (bytes-per-property) tree into the display model,
//! resolving phandles back to the nodes they point at: a phandle map is
//! collected from `phandle`/`linux,phandle` properties (plus labels from
//! `__symbols__` when the blob was compiled with `dtc -@`), and properties
//! known to carry references are decoded to `&label` / `&{/node/path}` form.
//! Phandle+args lists (`clocks`, `gpios`, ...) are walked using the
//! referenced node's `#*-cells` value. If any part of a property fails to
//! resolve, the whole property falls back to the plain heuristic rendering —
//! never a half-guessed decode.
use vstd::prelude::*;
use vstd::utf8::{valid_utf8, decode_utf8};
use crate::model::{DtNode, DtProperty};
use crate::render::{render_value, render_spec, be32_at, read_be32, join};
use crate::text::{chars_of, chars_eq, chars_starts_with, chars_ends_with, ends_with, starts_with,
    push_char, push_hex, hex_str};

verus! {

/// Tree shape shared by the DTB parser and the live-tree reader before
/// property values are rendered for display.
pub struct RawNode {
    pub name: String,
    pub properties: Vec<(String, Vec<u8>)>,
    pub children: Vec<RawNode>,
}

pub enum RefKind {
    /// Every cell is a phandle (`interrupt-parent`, `*-supply`, ...).
    Single,
    /// List of phandle + N argument cells, N given by this `#*-cells`
    /// property on the referenced node.
    WithArgs(&'static str),
}

/// What a reference-carrying property holds, with the cells property named
/// by its characters.
pub enum RefShape {
    Single,
    WithArgs(Seq<char>),
}

pub open spec fn kind_shape(k: RefKind) -> RefShape {
    match k {
        RefKind::Single => RefShape::Single,
        RefKind::WithArgs(c) => RefShape::WithArgs(c@),
    }
}

/// Which properties carry phandle references, and how.
pub open spec fn classify_spec(name: Seq<char>) -> Option<RefShape> {
    if name == "interrupt-parent"@ || name == "phy-handle"@ || name == "remote-endpoint"@
        || name == "next-level-cache"@ || name == "l2-cache"@ || name == "memory-region"@
        || name == "cpu"@ || name == "cpus"@ {
        Some(RefShape::Single)
    } else if name == "clocks"@ || name == "assigned-clocks"@ || name == "assigned-clock-parents"@ {
        Some(RefShape::WithArgs("#clock-cells"@))
    } else if name == "resets"@ {
        Some(RefShape::WithArgs("#reset-cells"@))
    } else if name == "dmas"@ {
        Some(RefShape::WithArgs("#dma-cells"@))
    } else if name == "pwms"@ {
        Some(RefShape::WithArgs("#pwm-cells"@))
    } else if name == "phys"@ {
        Some(RefShape::WithArgs("#phy-cells"@))
    } else if name == "mboxes"@ {
        Some(RefShape::WithArgs("#mbox-cells"@))
    } else if name == "io-channels"@ {
        Some(RefShape::WithArgs("#io-channel-cells"@))
    } else if name == "power-domains"@ {
        Some(RefShape::WithArgs("#power-domain-cells"@))
    } else if name == "interrupts-extended"@ {
        Some(RefShape::WithArgs("#interrupt-cells"@))
    } else if name == "sound-dai"@ {
        Some(RefShape::WithArgs("#sound-dai-cells"@))
    } else if name == "thermal-sensors"@ {
        Some(RefShape::WithArgs("#thermal-sensor-cells"@))
    } else if name == "iommus"@ {
        Some(RefShape::WithArgs("#iommu-cells"@))
    } else if name == "interconnects"@ {
        Some(RefShape::WithArgs("#interconnect-cells"@))
    } else if name == "hwlocks"@ {
        Some(RefShape::WithArgs("#hwlock-cells"@))
    } else if name == "cooling-device"@ {
        Some(RefShape::WithArgs("#cooling-cells"@))
    } else if name == "gpios"@ {
        Some(RefShape::WithArgs("#gpio-cells"@))
    } else if ends_with(name, "-supply"@) {
        Some(RefShape::Single)
    } else if ends_with(name, "-gpios"@) || ends_with(name, "-gpio"@) {
        Some(RefShape::WithArgs("#gpio-cells"@))
    } else {
        None
    }
}

fn is(name: &[char], lit: &str) -> (r: bool)
    ensures
        r == (name@ == lit@),
{
    let l = chars_of(lit);
    chars_eq(name, l.as_slice())
}

fn ends(name: &[char], lit: &str) -> (r: bool)
    ensures
        r == ends_with(name@, lit@),
{
    let l = chars_of(lit);
    chars_ends_with(name, l.as_slice())
}

pub fn classify(name: &str) -> (r: Option<RefKind>)
    ensures
        r is Some <==> classify_spec(name@) is Some,
        r matches Some(k) ==> classify_spec(name@) == Some(kind_shape(k)),
{
    let n = chars_of(name);
    let n = n.as_slice();
    if is(n, "interrupt-parent") || is(n, "phy-handle") || is(n, "remote-endpoint")
        || is(n, "next-level-cache") || is(n, "l2-cache") || is(n, "memory-region")
        || is(n, "cpu") || is(n, "cpus") {
        Some(RefKind::Single)
    } else if is(n, "clocks") || is(n, "assigned-clocks") || is(n, "assigned-clock-parents") {
        Some(RefKind::WithArgs("#clock-cells"))
    } else if is(n, "resets") {
        Some(RefKind::WithArgs("#reset-cells"))
    } else if is(n, "dmas") {
        Some(RefKind::WithArgs("#dma-cells"))
    } else if is(n, "pwms") {
        Some(RefKind::WithArgs("#pwm-cells"))
    } else if is(n, "phys") {
        Some(RefKind::WithArgs("#phy-cells"))
    } else if is(n, "mboxes") {
        Some(RefKind::WithArgs("#mbox-cells"))
    } else if is(n, "io-channels") {
        Some(RefKind::WithArgs("#io-channel-cells"))
    } else if is(n, "power-domains") {
        Some(RefKind::WithArgs("#power-domain-cells"))
    } else if is(n, "interrupts-extended") {
        Some(RefKind::WithArgs("#interrupt-cells"))
    } else if is(n, "sound-dai") {
        Some(RefKind::WithArgs("#sound-dai-cells"))
    } else if is(n, "thermal-sensors") {
        Some(RefKind::WithArgs("#thermal-sensor-cells"))
    } else if is(n, "iommus") {
        Some(RefKind::WithArgs("#iommu-cells"))
    } else if is(n, "interconnects") {
        Some(RefKind::WithArgs("#interconnect-cells"))
    } else if is(n, "hwlocks") {
        Some(RefKind::WithArgs("#hwlock-cells"))
    } else if is(n, "cooling-device") {
        Some(RefKind::WithArgs("#cooling-cells"))
    } else if is(n, "gpios") {
        Some(RefKind::WithArgs("#gpio-cells"))
    } else if ends(n, "-supply") {
        Some(RefKind::Single)
    } else if ends(n, "-gpios") || ends(n, "-gpio") {
        Some(RefKind::WithArgs("#gpio-cells"))
    } else {
        None
    }
}

// ---------------------------------------------------------------------------
// Raw values
// ---------------------------------------------------------------------------

/// A value that is exactly one big-endian cell.
pub open spec fn be32_spec(b: Seq<u8>) -> Option<u32> {
    if b.len() == 4 { Some(be32_at(b, 0) as u32) } else { None }
}

/// A value made of whole cells, at least one.
pub open spec fn cells_spec(b: Seq<u8>) -> Option<Seq<u32>> {
    if b.len() == 0 || b.len() % 4 != 0 {
        None
    } else {
        Some(Seq::new(b.len() / 4, |i: int| be32_at(b, 4 * i) as u32))
    }
}

/// `i` is the position of the first NUL byte.
pub open spec fn is_first_nul(b: Seq<u8>, i: int) -> bool {
    0 <= i < b.len() && b[i] == 0 && forall|j: int| 0 <= j < i ==> b[j] != 0
}

/// The UTF-8 text before the first NUL, if there is a NUL and the text is
/// valid UTF-8.
pub open spec fn cstr_spec(b: Seq<u8>) -> Option<Seq<char>> {
    if exists|i: int| is_first_nul(b, i) {
        let i = choose|i: int| is_first_nul(b, i);
        if valid_utf8(b.take(i)) { Some(decode_utf8(b.take(i))) } else { None }
    } else {
        None
    }
}

fn be32(bytes: &[u8]) -> (r: Option<u32>)
    ensures
        r == be32_spec(bytes@),
{
    if bytes.len() == 4 {
        Some(read_be32(bytes, 0))
    } else {
        None
    }
}

fn cells_of(bytes: &[u8]) -> (r: Option<Vec<u32>>)
    ensures
        r matches Some(v) ==> cells_spec(bytes@) == Some(v@),
        r is None ==> cells_spec(bytes@) is None,
{
    if bytes.len() == 0 || bytes.len() % 4 != 0 {
        return None;
    }
    let n: usize = bytes.len() / 4;
    let mut out: Vec<u32> = Vec::new();
    let mut i: usize = 0;
    while i < n
        invariant
            0 <= i <= n,
            bytes@.len() == 4 * n,
            bytes.len() == 4 * n,
            out@ == Seq::new(i as nat, |k: int| be32_at(bytes@, 4 * k) as u32),
        decreases n - i,
    {
        let w = read_be32(bytes, 4 * i);
        out.push(w);
        assert(out@ =~= Seq::new((i + 1) as nat, |k: int| be32_at(bytes@, 4 * k) as u32));
        i += 1;
    }
    Some(out)
}

/// `std::str::from_utf8` on the first `end` bytes, keeping the text when the
/// bytes are valid UTF-8.
#[verifier::external_body]
fn utf8_prefix(bytes: &[u8], end: usize) -> (r: Option<String>)
    requires
        end <= bytes@.len(),
    ensures
        r is Some <==> valid_utf8(bytes@.take(end as int)),
        r matches Some(s) ==> s@ == decode_utf8(bytes@.take(end as int)),
{
    std::str::from_utf8(&bytes[..end]).ok().map(str::to_string)
}

fn cstr(bytes: &[u8]) -> (r: Option<String>)
    ensures
        r matches Some(s) ==> cstr_spec(bytes@) == Some(s@),
        r is None ==> cstr_spec(bytes@) is None,
{
    let mut i: usize = 0;
    while i < bytes.len()
        invariant
            0 <= i <= bytes@.len(),
            forall|j: int| 0 <= j < i ==> bytes@[j] != 0,
        decreases bytes@.len() - i,
    {
        if bytes[i] == 0 {
            proof {
                assert(is_first_nul(bytes@, i as int));
                let k = choose|k: int| is_first_nul(bytes@, k);
                if k < i {
                    assert(bytes@[k] != 0);
                } else if i < k {
                    assert(bytes@[i as int] != 0);
                }
            }
            return utf8_prefix(bytes, i);
        }
        i += 1;
    }
    assert(!exists|k: int| is_first_nul(bytes@, k));
    None
}

// ---------------------------------------------------------------------------
// Reference maps
// ---------------------------------------------------------------------------

/// What `collect` learns from the tree.
pub struct RefMapsView {
    pub paths: Map<u32, Seq<char>>,
    pub labels: Map<Seq<char>, Seq<char>>,
    pub cells: Map<u32, Map<Seq<char>, u32>>,
}

/// Association lists where a later entry overrides an earlier one.
pub open spec fn num_map(s: Seq<(u32, String)>) -> Map<u32, Seq<char>>
    decreases s.len(),
{
    if s.len() == 0 { Map::empty() } else { num_map(s.drop_last()).insert(s.last().0, s.last().1@) }
}

pub open spec fn text_map(s: Seq<(String, String)>) -> Map<Seq<char>, Seq<char>>
    decreases s.len(),
{
    if s.len() == 0 { Map::empty() } else { text_map(s.drop_last()).insert(s.last().0@, s.last().1@) }
}

pub open spec fn count_map(s: Seq<(String, u32)>) -> Map<Seq<char>, u32>
    decreases s.len(),
{
    if s.len() == 0 { Map::empty() } else { count_map(s.drop_last()).insert(s.last().0@, s.last().1) }
}

pub open spec fn cells_maps(s: Seq<(u32, Vec<(String, u32)>)>) -> Map<u32, Map<Seq<char>, u32>>
    decreases s.len(),
{
    if s.len() == 0 { Map::empty() } else { cells_maps(s.drop_last()).insert(s.last().0, count_map(s.last().1@)) }
}

struct RefMaps {
    path_by_phandle: Vec<(u32, String)>,
    label_by_path: Vec<(String, String)>,
    cells_by_phandle: Vec<(u32, Vec<(String, u32)>)>,
}

impl RefMaps {
    spec fn view(&self) -> RefMapsView {
        RefMapsView {
            paths: num_map(self.path_by_phandle@),
            labels: text_map(self.label_by_path@),
            cells: cells_maps(self.cells_by_phandle@),
        }
    }
}

fn path_of(maps: &RefMaps, ph: u32) -> (r: Option<&String>)
    ensures
        r is Some <==> maps.view().paths.contains_key(ph),
        r matches Some(p) ==> p@ == maps.view().paths[ph],
{
    let v = &maps.path_by_phandle;
    let mut i: usize = v.len();
    assert(v@.take(v@.len() as int) =~= v@);
    while i > 0
        invariant
            0 <= i <= v@.len(),
            v@ == maps.path_by_phandle@,
            num_map(v@).contains_key(ph) == num_map(v@.take(i as int)).contains_key(ph),
            num_map(v@).contains_key(ph) ==> num_map(v@)[ph] == num_map(v@.take(i as int))[ph],
        decreases i,
    {
        assert(v@.take(i as int).drop_last() =~= v@.take(i - 1));
        if v[i - 1].0 == ph {
            assert(v@.take(i as int).last() == v@[i - 1]);
            assert(num_map(v@.take(i as int)) == num_map(v@.take(i - 1)).insert(ph, v@[i - 1].1@));
            return Some(&v[i - 1].1);
        }
        i -= 1;
    }
    assert(v@.take(0) =~= Seq::<(u32, String)>::empty());
    None
}

fn label_of<'m>(maps: &'m RefMaps, path: &String) -> (r: Option<&'m String>)
    ensures
        r is Some <==> maps.view().labels.contains_key(path@),
        r matches Some(l) ==> l@ == maps.view().labels[path@],
{
    let v = &maps.label_by_path;
    let mut i: usize = v.len();
    assert(v@.take(v@.len() as int) =~= v@);
    while i > 0
        invariant
            0 <= i <= v@.len(),
            v@ == maps.label_by_path@,
            text_map(v@).contains_key(path@) == text_map(v@.take(i as int)).contains_key(path@),
            text_map(v@).contains_key(path@) ==> text_map(v@)[path@] == text_map(v@.take(i as int))[path@],
        decreases i,
    {
        assert(v@.take(i as int).drop_last() =~= v@.take(i - 1));
        if v[i - 1].0 == *path {
            assert(v@.take(i as int).last() == v@[i - 1]);
            assert(text_map(v@.take(i as int)) == text_map(v@.take(i - 1)).insert(path@, v@[i - 1].1@));
            return Some(&v[i - 1].1);
        }
        i -= 1;
    }
    assert(v@.take(0) =~= Seq::<(String, String)>::empty());
    None
}

fn count_of(v: &Vec<(String, u32)>, name: &str) -> (r: Option<u32>)
    ensures
        r is Some <==> count_map(v@).contains_key(name@),
        r matches Some(n) ==> n == count_map(v@)[name@],
{
    let key = String::from_str(name);
    let mut i: usize = v.len();
    assert(v@.take(v@.len() as int) =~= v@);
    while i > 0
        invariant
            0 <= i <= v@.len(),
            key@ == name@,
            count_map(v@).contains_key(name@) == count_map(v@.take(i as int)).contains_key(name@),
            count_map(v@).contains_key(name@) ==> count_map(v@)[name@] == count_map(v@.take(i as int))[name@],
        decreases i,
    {
        assert(v@.take(i as int).drop_last() =~= v@.take(i - 1));
        if v[i - 1].0 == key {
            assert(v@.take(i as int).last() == v@[i - 1]);
            assert(count_map(v@.take(i as int)) == count_map(v@.take(i - 1)).insert(name@, v@[i - 1].1));
            return Some(v[i - 1].1);
        }
        i -= 1;
    }
    assert(v@.take(0) =~= Seq::<(String, u32)>::empty());
    None
}

fn cells_count(maps: &RefMaps, ph: u32, name: &str) -> (r: Option<u32>)
    ensures
        r is Some <==> (maps.view().cells.contains_key(ph) && maps.view().cells[ph].contains_key(name@)),
        r matches Some(n) ==> n == maps.view().cells[ph][name@],
{
    let v = &maps.cells_by_phandle;
    let mut i: usize = v.len();
    assert(v@.take(v@.len() as int) =~= v@);
    while i > 0
        invariant
            0 <= i <= v@.len(),
            v@ == maps.cells_by_phandle@,
            cells_maps(v@).contains_key(ph) == cells_maps(v@.take(i as int)).contains_key(ph),
            cells_maps(v@).contains_key(ph) ==> cells_maps(v@)[ph] == cells_maps(v@.take(i as int))[ph],
        decreases i,
    {
        assert(v@.take(i as int).drop_last() =~= v@.take(i - 1));
        if v[i - 1].0 == ph {
            assert(v@.take(i as int).last() == v@[i - 1]);
            assert(cells_maps(v@.take(i as int)) == cells_maps(v@.take(i - 1)).insert(ph, count_map(v@[i - 1].1@)));
            return count_of(&v[i - 1].1, name);
        }
        i -= 1;
    }
    assert(v@.take(0) =~= Seq::<(u32, Vec<(String, u32)>)>::empty());
    None
}


// ---------------------------------------------------------------------------
// Collecting phandles, labels and cell counts
// ---------------------------------------------------------------------------

pub open spec fn is_phandle_name(n: Seq<char>) -> bool {
    n == "phandle"@ || n == "linux,phandle"@
}

/// The node's phandle: the value of its first `phandle`/`linux,phandle`
/// property, when that value is exactly one cell.
pub open spec fn phandle_spec(props: Seq<(String, Vec<u8>)>) -> Option<u32>
    decreases props.len(),
{
    if props.len() == 0 {
        None
    } else if is_phandle_name(props[0].0@) {
        be32_spec(props[0].1@)
    } else {
        phandle_spec(props.drop_first())
    }
}

pub open spec fn is_cells_name(n: Seq<char>) -> bool {
    n.len() > 0 && n[0] == '#' && ends_with(n, "-cells"@)
}

/// The node's one-cell `#...-cells` properties; a later one overrides an
/// earlier one of the same name.
pub open spec fn cell_counts(props: Seq<(String, Vec<u8>)>) -> Map<Seq<char>, u32>
    decreases props.len(),
{
    if props.len() == 0 {
        Map::empty()
    } else {
        let m = cell_counts(props.drop_last());
        let n = props.last().0@;
        if is_cells_name(n) && be32_spec(props.last().1@) is Some {
            m.insert(n, be32_spec(props.last().1@)->0)
        } else {
            m
        }
    }
}

/// `__symbols__` entries: label `name` points at the path held in the value.
pub open spec fn symbols_into(props: Seq<(String, Vec<u8>)>, m: Map<Seq<char>, Seq<char>>) -> Map<Seq<char>, Seq<char>>
    decreases props.len(),
{
    if props.len() == 0 {
        m
    } else {
        let m2 = symbols_into(props.drop_last(), m);
        match cstr_spec(props.last().1@) {
            Some(target) => m2.insert(target, props.last().0@),
            None => m2,
        }
    }
}

pub open spec fn child_path(path: Seq<char>, name: Seq<char>) -> Seq<char> {
    if path == "/"@ { "/"@ + name } else { path + "/"@ + name }
}

/// What a node itself adds to the maps.
pub open spec fn with_node(node: RawNode, path: Seq<char>, m: RefMapsView) -> RefMapsView {
    match phandle_spec(node.properties@) {
        Some(ph) => RefMapsView {
            paths: m.paths.insert(ph, path),
            labels: m.labels,
            cells: m.cells.insert(ph, cell_counts(node.properties@)),
        },
        None => m,
    }
}

/// The maps after visiting `node` (at `path`) and its subtree in pre-order.
/// A `__symbols__` node contributes its labels and nothing else.
pub open spec fn collect_spec(node: RawNode, path: Seq<char>, m: RefMapsView) -> RefMapsView
    decreases node, node.children@.len() + 1,
{
    if node.name@ == "__symbols__"@ {
        RefMapsView { paths: m.paths, labels: symbols_into(node.properties@, m.labels), cells: m.cells }
    } else {
        collect_children(node, 0, path, with_node(node, path, m))
    }
}

pub open spec fn collect_children(parent: RawNode, i: int, path: Seq<char>, m: RefMapsView) -> RefMapsView
    decreases parent, parent.children@.len() - i,
{
    if i < 0 || i >= parent.children@.len() {
        m
    } else {
        let c = parent.children@[i];
        collect_children(parent, i + 1, path, collect_spec(c, child_path(path, c.name@), m))
    }
}

fn is_phandle_prop(n: &String) -> (r: bool)
    ensures
        r == is_phandle_name(n@),
{
    let cs = chars_of(n.as_str());
    is(cs.as_slice(), "phandle") || is(cs.as_slice(), "linux,phandle")
}

fn is_cells_prop(n: &String) -> (r: bool)
    ensures
        r == is_cells_name(n@),
{
    let cs = chars_of(n.as_str());
    cs.len() > 0 && cs[0] == '#' && ends(cs.as_slice(), "-cells")
}

/// The value of the first `phandle`/`linux,phandle` property, if one cell.
fn phandle_of(node: &RawNode) -> (r: Option<u32>)
    ensures
        r == phandle_spec(node.properties@),
{
    let mut i: usize = 0;
    assert(node.properties@.skip(0) =~= node.properties@);
    while i < node.properties.len()
        invariant
            0 <= i <= node.properties@.len(),
            phandle_spec(node.properties@) == phandle_spec(node.properties@.skip(i as int)),
        decreases node.properties@.len() - i,
    {
        assert(node.properties@.skip(i as int).drop_first() =~= node.properties@.skip(i + 1));
        assert(node.properties@.skip(i as int)[0] == node.properties@[i as int]);
        if is_phandle_prop(&node.properties[i].0) {
            return be32(node.properties[i].1.as_slice());
        }
        i += 1;
    }
    assert(node.properties@.skip(i as int).len() == 0);
    None
}

fn collect(node: &RawNode, path: &String, maps: &mut RefMaps)
    ensures
        final(maps).view() == collect_spec(*node, path@, old(maps).view()),
    decreases node,
{
    let name = chars_of(node.name.as_str());
    if is(name.as_slice(), "__symbols__") {
        let mut i: usize = 0;
        while i < node.properties.len()
            invariant
                0 <= i <= node.properties@.len(),
                maps.path_by_phandle@ == old(maps).path_by_phandle@,
                maps.cells_by_phandle@ == old(maps).cells_by_phandle@,
                text_map(maps.label_by_path@) == symbols_into(node.properties@.take(i as int), old(maps).view().labels),
            decreases node.properties@.len() - i,
        {
            let ghost before = maps.label_by_path@;
            assert(node.properties@.take(i + 1).drop_last() =~= node.properties@.take(i as int));
            if let Some(target) = cstr(&node.properties[i].1) {
                maps.label_by_path.push((target, node.properties[i].0.clone()));
                assert(maps.label_by_path@.drop_last() =~= before);
            }
            i += 1;
        }
        assert(node.properties@.take(node.properties@.len() as int) =~= node.properties@);
        return;
    }
    let ph = phandle_of(node);
    if let Some(ph) = ph {
        let ghost before_paths = maps.path_by_phandle@;
        maps.path_by_phandle.push((ph, path.clone()));
        assert(maps.path_by_phandle@.drop_last() =~= before_paths);
        let mut counts: Vec<(String, u32)> = Vec::new();
        let mut j: usize = 0;
        while j < node.properties.len()
            invariant
                0 <= j <= node.properties@.len(),
                count_map(counts@) == cell_counts(node.properties@.take(j as int)),
            decreases node.properties@.len() - j,
        {
            let ghost before = counts@;
            assert(node.properties@.take(j + 1).drop_last() =~= node.properties@.take(j as int));
            if is_cells_prop(&node.properties[j].0) {
                if let Some(v) = be32(node.properties[j].1.as_slice()) {
                    counts.push((node.properties[j].0.clone(), v));
                    assert(counts@.drop_last() =~= before);
                }
            }
            j += 1;
        }
        assert(node.properties@.take(node.properties@.len() as int) =~= node.properties@);
        let ghost before_cells = maps.cells_by_phandle@;
        maps.cells_by_phandle.push((ph, counts));
        assert(maps.cells_by_phandle@.drop_last() =~= before_cells);
    }
    let ghost start = maps.view();
    assert(start == with_node(*node, path@, old(maps).view()));
    let mut k: usize = 0;
    while k < node.children.len()
        invariant
            0 <= k <= node.children@.len(),
            collect_spec(*node, path@, old(maps).view()) == collect_children(*node, k as int, path@, maps.view()),
            node.name@ != "__symbols__"@,
        decreases node.children@.len() - k,
    {
        let child = &node.children[k];
        let cpath = if *path == String::from_str("/") {
            let mut p = String::from_str("/");
            p.append(child.name.as_str());
            p
        } else {
            let mut p = path.clone();
            p.append("/");
            p.append(child.name.as_str());
            p
        };
        assert(cpath@ == child_path(path@, child.name@));
        proof {
            assert(decreases_to!(*node => node.children));
        }
        collect(child, &cpath, maps);
        k += 1;
    }
}

// ---------------------------------------------------------------------------
// Decoding reference properties
// ---------------------------------------------------------------------------

/// `&label` when the path has a `__symbols__` label, else `&{/path}`.
pub open spec fn ref_spec(path: Seq<char>, labels: Map<Seq<char>, Seq<char>>) -> Seq<char> {
    if labels.contains_key(path) {
        seq!['&'] + labels[path]
    } else {
        seq!['&', '{'] + path + seq!['}']
    }
}

/// `<&ref>` for every cell of a list of plain phandles.
pub open spec fn single_entries(cells: Seq<u32>, m: RefMapsView) -> Option<Seq<Seq<char>>>
    decreases cells.len(),
{
    if cells.len() == 0 {
        Some(Seq::empty())
    } else {
        match single_entries(cells.drop_last(), m) {
            Some(es) => if m.paths.contains_key(cells.last()) {
                Some(es.push(seq!['<'] + ref_spec(m.paths[cells.last()], m.labels) + seq!['>']))
            } else {
                None
            },
            None => None,
        }
    }
}

/// ` 0x<hex>` for each argument cell in `cells[lo..hi]`.
pub open spec fn args_text(cells: Seq<u32>, lo: int, hi: int) -> Seq<char>
    decreases hi - lo,
{
    if hi <= lo {
        Seq::empty()
    } else {
        args_text(cells, lo, hi - 1) + seq![' ', '0', 'x'] + hex_str(cells[hi - 1] as nat)
    }
}

/// `<&ref 0xa 0xb>` for each phandle + arguments group from cell `i` on,
/// the argument count read from the target's `prop` cell count.
pub open spec fn args_entries(cells: Seq<u32>, i: int, prop: Seq<char>, m: RefMapsView) -> Option<Seq<Seq<char>>>
    decreases cells.len() - i,
{
    if i < 0 || i >= cells.len() {
        Some(Seq::empty())
    } else {
        let ph = cells[i];
        if !m.paths.contains_key(ph) {
            None
        } else if !(m.cells.contains_key(ph) && m.cells[ph].contains_key(prop)) {
            None
        } else {
            let argc = m.cells[ph][prop] as int;
            if i + 1 + argc > cells.len() {
                None
            } else {
                match args_entries(cells, i + 1 + argc, prop, m) {
                    Some(rest) => Some(seq![seq!['<'] + ref_spec(m.paths[ph], m.labels) + args_text(cells, i + 1, i + 1 + argc) + seq!['>']] + rest),
                    None => None,
                }
            }
        }
    }
}

pub open spec fn decode_refs_spec(k: RefShape, cells: Seq<u32>, m: RefMapsView) -> Option<Seq<char>> {
    let entries = match k {
        RefShape::Single => single_entries(cells, m),
        RefShape::WithArgs(p) => args_entries(cells, 0, p, m),
    };
    match entries {
        Some(es) => Some(join(es, ", "@)),
        None => None,
    }
}

/// The display text of a property: decoded references where the property
/// is known to carry them and every part resolves, the plain rendering
/// otherwise.
pub open spec fn decode_spec(name: Seq<char>, bytes: Seq<u8>, m: RefMapsView) -> Seq<char> {
    match classify_spec(name) {
        Some(k) => match cells_spec(bytes) {
            Some(cells) => match decode_refs_spec(k, cells, m) {
                Some(s) => s,
                None => render_spec(bytes),
            },
            None => render_spec(bytes),
        },
        None => render_spec(bytes),
    }
}

fn ref_str(path: &String, maps: &RefMaps) -> (r: String)
    ensures
        r@ == ref_spec(path@, maps.view().labels),
{
    match label_of(maps, path) {
        Some(label) => {
            let mut out = String::new();
            push_char(&mut out, '&');
            out.append(label.as_str());
            out
        },
        None => {
            let mut out = String::new();
            push_char(&mut out, '&');
            push_char(&mut out, '{');
            out.append(path.as_str());
            push_char(&mut out, '}');
            out
        },
    }
}

/// `items` joined by `sep`.
fn join_strings(items: &Vec<String>, sep: &str) -> (r: String)
    ensures
        r@ == join(items@.map_values(|s: String| s@), sep@),
{
    let ghost views = items@.map_values(|s: String| s@);
    let mut out = String::new();
    let mut k: usize = 0;
    while k < items.len()
        invariant
            0 <= k <= items@.len(),
            views == items@.map_values(|s: String| s@),
            out@ == join(views.take(k as int), sep@),
        decreases items@.len() - k,
    {
        if k > 0 {
            out.append(sep);
        }
        out.append(items[k].as_str());
        proof {
            let t = views.take(k + 1);
            assert(t.drop_last() =~= views.take(k as int));
            assert(t.last() == items@[k as int]@);
        }
        k += 1;
    }
    assert(views.take(items@.len() as int) =~= views);
    out
}

fn decode_refs(kind: &RefKind, cells: &[u32], maps: &RefMaps) -> (r: Option<String>)
    ensures
        r matches Some(s) ==> decode_refs_spec(kind_shape(*kind), cells@, maps.view()) == Some(s@),
        r is None ==> decode_refs_spec(kind_shape(*kind), cells@, maps.view()) is None,
{
    let mut entries: Vec<String> = Vec::new();
    let ghost m = maps.view();
    match kind {
        RefKind::Single => {
            assert(kind_shape(*kind) == RefShape::Single);
            let mut i: usize = 0;
            while i < cells.len()
                invariant
                    0 <= i <= cells@.len(),
                    m == maps.view(),
                    kind_shape(*kind) == RefShape::Single,
                    single_entries(cells@.take(i as int), m) == Some(entries@.map_values(|s: String| s@)),
                decreases cells@.len() - i,
            {
                assert(cells@.take(i + 1).drop_last() =~= cells@.take(i as int));
                assert(cells@.take(i + 1).last() == cells@[i as int]);
                let path = match path_of(maps, cells[i]) {
                    Some(p) => p,
                    None => {
                        proof {
                            lemma_single_entries_prefix_none(cells@, (i + 1) as int, m);
                        }
                        return None;
                    },
                };
                let mut e = String::new();
                push_char(&mut e, '<');
                let rs = ref_str(path, maps);
                e.append(rs.as_str());
                push_char(&mut e, '>');
                assert(e@ == seq!['<'] + ref_spec(m.paths[cells@[i as int]], m.labels) + seq!['>']);
                let ghost prev = entries@.map_values(|s: String| s@);
                entries.push(e);
                assert(entries@.map_values(|s: String| s@) =~= prev.push(e@));
                assert(single_entries(cells@.take(i + 1), m) == Some(prev.push(e@)));
                i += 1;
            }
            assert(cells@.take(cells@.len() as int) =~= cells@);
        },
        RefKind::WithArgs(cells_prop) => {
            assert(kind_shape(*kind) == RefShape::WithArgs(cells_prop@));
            let mut i: usize = 0;
            while i < cells.len()
                invariant
                    0 <= i <= cells@.len(),
                    m == maps.view(),
                    kind_shape(*kind) == RefShape::WithArgs(cells_prop@),
                    args_entries(cells@, 0, cells_prop@, m) == (match args_entries(cells@, i as int, cells_prop@, m) {
                        Some(rest) => Some(entries@.map_values(|s: String| s@) + rest),
                        None => None,
                    }),
                decreases cells@.len() - i,
            {
                let ph = cells[i];
                let path = match path_of(maps, ph) {
                    Some(p) => p,
                    None => return None,
                };
                let argc = match cells_count(maps, ph, cells_prop) {
                    Some(n) => n as usize,
                    None => return None,
                };
                if argc > cells.len() - i - 1 {
                    return None;
                }
                let end: usize = i + 1 + argc;
                let mut e = String::new();
                push_char(&mut e, '<');
                let rs = ref_str(path, maps);
                e.append(rs.as_str());
                let mut j: usize = i + 1;
                while j < end
                    invariant
                        end == i + 1 + argc,
                        i + 1 <= j <= end <= cells@.len(),
                        m.paths.contains_key(ph),
                        e@ == seq!['<'] + ref_spec(m.paths[ph], m.labels) + args_text(cells@, i + 1, j as int),
                    decreases i + 1 + argc - j,
                {
                    push_char(&mut e, ' ');
                    push_char(&mut e, '0');
                    push_char(&mut e, 'x');
                    push_hex(&mut e, cells[j] as u64);
                    assert(e@ =~= seq!['<'] + ref_spec(m.paths[ph], m.labels) + args_text(cells@, i + 1, j + 1));
                    j += 1;
                }
                push_char(&mut e, '>');
                assert(argc as int == m.cells[ph][cells_prop@] as int);
                assert(e@ == seq!['<'] + ref_spec(m.paths[ph], m.labels) + args_text(cells@, i + 1, end as int) + seq!['>']);
                assert(args_entries(cells@, i as int, cells_prop@, m) == (match args_entries(cells@, end as int, cells_prop@, m) {
                    Some(rest) => Some(seq![e@] + rest),
                    None => None,
                }));
                let ghost ev = entries@.map_values(|s: String| s@);
                entries.push(e);
                proof {
                    let rest = args_entries(cells@, i + 1 + argc, cells_prop@, m);
                    assert(entries@.map_values(|s: String| s@) =~= ev.push(e@));
                    if rest is Some {
                        assert(ev + (seq![e@] + rest->0) =~= ev.push(e@) + rest->0);
                    }
                }
                i = end;
            }
            assert(entries@.map_values(|s: String| s@) + Seq::<Seq<char>>::empty() =~= entries@.map_values(|s: String| s@));
        },
    }
    Some(join_strings(&entries, ", "))
}

proof fn lemma_single_entries_prefix_none(cells: Seq<u32>, k: int, m: RefMapsView)
    requires
        0 <= k <= cells.len(),
        single_entries(cells.take(k), m) is None,
    ensures
        single_entries(cells, m) is None,
    decreases cells.len() - k,
{
    if k < cells.len() {
        assert(cells.take(k + 1).drop_last() =~= cells.take(k));
        lemma_single_entries_prefix_none(cells, k + 1, m);
    } else {
        assert(cells.take(k) =~= cells);
    }
}

fn decode(name: &str, bytes: &[u8], maps: &RefMaps) -> (r: String)
    ensures
        r@ == decode_spec(name@, bytes@, maps.view()),
{
    if let Some(kind) = classify(name) {
        if let Some(cells) = cells_of(bytes) {
            if let Some(decoded) = decode_refs(&kind, cells.as_slice(), maps) {
                return decoded;
            }
        }
    }
    render_value(bytes)
}

// ---------------------------------------------------------------------------
// Building the display tree
// ---------------------------------------------------------------------------

/// `out` is the display form of `raw`: same names and shape, no labels,
/// provenance or deletion marks, every value decoded.
pub open spec fn built(raw: RawNode, out: DtNode, m: RefMapsView) -> bool
    decreases raw,
{
    &&& out.name@ == raw.name@
    &&& out.labels@.len() == 0
    &&& !out.deleted
    &&& out.provenance is None
    &&& out.properties@.len() == raw.properties@.len()
    &&& forall|i: int| 0 <= i < raw.properties@.len() ==> {
        let p = #[trigger] out.properties@[i];
        &&& p.name@ == raw.properties@[i].0@
        &&& p.value@ == decode_spec(raw.properties@[i].0@, raw.properties@[i].1@, m)
        &&& !p.deleted
        &&& p.provenance is None
    }
    &&& out.children@.len() == raw.children@.len()
    &&& forall|i: int| 0 <= i < raw.children@.len() ==> built(raw.children@[i], #[trigger] out.children@[i], m)
}

fn build(node: &RawNode, maps: &RefMaps) -> (r: DtNode)
    ensures
        built(*node, r, maps.view()),
    decreases node,
{
    let mut out = DtNode::new(node.name.as_str());
    let mut i: usize = 0;
    while i < node.properties.len()
        invariant
            0 <= i <= node.properties@.len(),
            out.name@ == node.name@,
            out.labels@.len() == 0,
            !out.deleted,
            out.provenance is None,
            out.children@.len() == 0,
            out.properties@.len() == i,
            forall|k: int| 0 <= k < i ==> {
                let p = #[trigger] out.properties@[k];
                &&& p.name@ == node.properties@[k].0@
                &&& p.value@ == decode_spec(node.properties@[k].0@, node.properties@[k].1@, maps.view())
                &&& !p.deleted
                &&& p.provenance is None
            },
        decreases node.properties@.len() - i,
    {
        let name = node.properties[i].0.clone();
        let value = decode(node.properties[i].0.as_str(), node.properties[i].1.as_slice(), maps);
        out.properties.push(DtProperty { name, value, deleted: false, provenance: None });
        i += 1;
    }
    let mut k: usize = 0;
    while k < node.children.len()
        invariant
            0 <= k <= node.children@.len(),
            out.name@ == node.name@,
            out.labels@.len() == 0,
            !out.deleted,
            out.provenance is None,
            out.properties@.len() == node.properties@.len(),
            forall|j: int| 0 <= j < node.properties@.len() ==> {
                let p = #[trigger] out.properties@[j];
                &&& p.name@ == node.properties@[j].0@
                &&& p.value@ == decode_spec(node.properties@[j].0@, node.properties@[j].1@, maps.view())
                &&& !p.deleted
                &&& p.provenance is None
            },
            out.children@.len() == k,
            forall|j: int| 0 <= j < k ==> built(node.children@[j], #[trigger] out.children@[j], maps.view()),
        decreases node.children@.len() - k,
    {
        proof {
            assert(decreases_to!(*node => node.children));
        }
        let c = build(&node.children[k], maps);
        out.children.push(c);
        k += 1;
    }
    out
}

pub open spec fn empty_maps() -> RefMapsView {
    RefMapsView { paths: Map::empty(), labels: Map::empty(), cells: Map::empty() }
}

/// The display tree of a raw tree, with references resolved against the
/// phandles, labels and cell counts found in the whole tree.
pub fn into_model(root: &RawNode) -> (r: DtNode)
    ensures
        built(*root, r, collect_spec(*root, "/"@, empty_maps())),
{
    let mut maps = RefMaps {
        path_by_phandle: Vec::new(),
        label_by_path: Vec::new(),
        cells_by_phandle: Vec::new(),
    };
    assert(maps.view() == empty_maps()) by {
        assert(maps.view().paths =~= Map::<u32, Seq<char>>::empty());
        assert(maps.view().labels =~= Map::<Seq<char>, Seq<char>>::empty());
        assert(maps.view().cells =~= Map::<u32, Map<Seq<char>, u32>>::empty());
    }
    let root_path = String::from_str("/");
    collect(root, &root_path, &mut maps);
    build(root, &maps)
}

// ---------------------------------------------------------------------------
// Laws of reference decoding
// ---------------------------------------------------------------------------

/// The properties that hold a single phandle per cell.
pub open spec fn one_phandle_name(name: Seq<char>) -> bool {
    ||| name == "interrupt-parent"@
    ||| name == "phy-handle"@
    ||| name == "remote-endpoint"@
    ||| name == "next-level-cache"@
    ||| name == "l2-cache"@
    ||| name == "memory-region"@
    ||| name == "cpu"@
    ||| name == "cpus"@
}

/// One cell holding a known phandle, in a property that holds single
/// phandles, shows as a reference to the node that has it: `<&label>` when
/// `__symbols__` gives that node a label, `<&{/path}>` otherwise.
pub proof fn law_single_phandle_resolves(name: Seq<char>, b: Seq<u8>, m: RefMapsView)
    requires
        one_phandle_name(name),
        b.len() == 4,
        m.paths.contains_key(be32_at(b, 0) as u32),
    ensures
        ({
            let p = m.paths[be32_at(b, 0) as u32];
            decode_spec(name, b, m) == if m.labels.contains_key(p) {
                seq!['<', '&'] + m.labels[p] + seq!['>']
            } else {
                seq!['<', '&', '{'] + p + seq!['}', '>']
            }
        }),
{
    let ph = be32_at(b, 0) as u32;
    assert(classify_spec(name) == Some(RefShape::Single));
    let cells = Seq::new(b.len() / 4, |i: int| be32_at(b, 4 * i) as u32);
    assert(cells =~= seq![ph]);
    assert(cells_spec(b) == Some(seq![ph]));
    assert(seq![ph].drop_last() =~= Seq::<u32>::empty());
    let e = seq!['<'] + ref_spec(m.paths[ph], m.labels) + seq!['>'];
    assert(single_entries(Seq::<u32>::empty(), m) == Some(Seq::<Seq<char>>::empty()));
    assert(single_entries(seq![ph], m) == Some(Seq::<Seq<char>>::empty().push(e)));
    assert(Seq::<Seq<char>>::empty().push(e) =~= seq![e]);
    assert(decode_refs_spec(RefShape::Single, seq![ph], m) == Some(e));
    let p = m.paths[ph];
    if m.labels.contains_key(p) {
        assert(e =~= seq!['<', '&'] + m.labels[p] + seq!['>']);
    } else {
        assert(e =~= seq!['<', '&', '{'] + p + seq!['}', '>']);
    }
}

/// A clock reference (`clocks`, `assigned-clocks`,
/// `assigned-clock-parents`) of a known phandle with one argument cell,
/// where that node's `#clock-cells` is 1, shows as the reference followed
/// by the argument in hex.
pub proof fn law_clock_reference_resolves(name: Seq<char>, b: Seq<u8>, m: RefMapsView)
    requires
        name == "clocks"@ || name == "assigned-clocks"@ || name == "assigned-clock-parents"@,
        b.len() == 8,
        m.paths.contains_key(be32_at(b, 0) as u32),
        m.cells.contains_key(be32_at(b, 0) as u32),
        m.cells[be32_at(b, 0) as u32].contains_key("#clock-cells"@),
        m.cells[be32_at(b, 0) as u32]["#clock-cells"@] == 1,
    ensures
        ({
            let p = m.paths[be32_at(b, 0) as u32];
            let arg = seq![' ', '0', 'x'] + hex_str(be32_at(b, 4) as u32 as nat) + seq!['>'];
            decode_spec(name, b, m) == if m.labels.contains_key(p) {
                seq!['<', '&'] + m.labels[p] + arg
            } else {
                seq!['<', '&', '{'] + p + seq!['}'] + arg
            }
        }),
{
    reveal_strlit("clocks");
    reveal_strlit("assigned-clocks");
    reveal_strlit("assigned-clock-parents");
    reveal_strlit("interrupt-parent");
    reveal_strlit("phy-handle");
    reveal_strlit("remote-endpoint");
    reveal_strlit("next-level-cache");
    reveal_strlit("l2-cache");
    reveal_strlit("memory-region");
    reveal_strlit("cpu");
    reveal_strlit("cpus");
    assert("clocks"@.len() == 6);
    assert("assigned-clocks"@.len() == 15);
    assert("assigned-clock-parents"@.len() == 22);
    assert("interrupt-parent"@.len() == 16);
    assert("phy-handle"@.len() == 10);
    assert("remote-endpoint"@.len() == 15);
    assert("next-level-cache"@.len() == 16);
    assert("l2-cache"@.len() == 8);
    assert("memory-region"@.len() == 13);
    assert("cpu"@.len() == 3);
    assert("cpus"@.len() == 4);
    assert("assigned-clocks"@[0] != "remote-endpoint"@[0]);
    assert(!one_phandle_name(name));
    assert(classify_spec(name) == Some(RefShape::WithArgs("#clock-cells"@)));
    let ph = be32_at(b, 0) as u32;
    let a = be32_at(b, 4) as u32;
    let cells = Seq::new(b.len() / 4, |i: int| be32_at(b, 4 * i) as u32);
    assert(cells =~= seq![ph, a]);
    assert(cells_spec(b) == Some(seq![ph, a]));
    let cs = seq![ph, a];
    let e = seq!['<'] + ref_spec(m.paths[ph], m.labels) + args_text(cs, 1, 2) + seq!['>'];
    assert(args_text(cs, 1, 1) == Seq::<char>::empty());
    assert(args_text(cs, 1, 2) =~= seq![' ', '0', 'x'] + hex_str(a as nat));
    assert(args_entries(cs, 2, "#clock-cells"@, m) == Some(Seq::<Seq<char>>::empty()));
    assert(args_entries(cs, 0, "#clock-cells"@, m) == Some(seq![e] + Seq::<Seq<char>>::empty()));
    assert(seq![e] + Seq::<Seq<char>>::empty() =~= seq![e]);
    assert(decode_refs_spec(RefShape::WithArgs("#clock-cells"@), cs, m) == Some(e));
    let p = m.paths[ph];
    if m.labels.contains_key(p) {
        assert(e =~= seq!['<', '&'] + m.labels[p] + (seq![' ', '0', 'x'] + hex_str(a as nat) + seq!['>']));
    } else {
        assert(e =~= seq!['<', '&', '{'] + p + seq!['}'] + (seq![' ', '0', 'x'] + hex_str(a as nat) + seq!['>']));
    }
}

} // verus!
