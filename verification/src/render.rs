//! Heuristic display rendering of raw property values from binary trees
//! (.dtb blobs and /proc/device-tree), where no type information exists.
use vstd::prelude::*;
use crate::text::{chars_of, push_char, push_dec, push_hex_fixed, dec_str, hex_fixed};

verus! {

pub const MAX_CELLS: usize = 256;
pub const MAX_BYTES: usize = 512;

/// A byte allowed in a string list: NUL or printable ASCII.
pub open spec fn printable_or_nul(b: u8) -> bool {
    b == 0 || (0x20 <= b && b <= 0x7e)
}

/// `s` split at every NUL byte, empty pieces kept; `cur` is the piece read
/// so far.
pub open spec fn split_nul_from(s: Seq<u8>, cur: Seq<u8>) -> Seq<Seq<u8>>
    decreases s.len(),
{
    if s.len() == 0 {
        seq![cur]
    } else if s[0] == 0 {
        seq![cur] + split_nul_from(s.drop_first(), Seq::empty())
    } else {
        split_nul_from(s.drop_first(), cur.push(s[0]))
    }
}

pub open spec fn split_nul(s: Seq<u8>) -> Seq<Seq<u8>> {
    split_nul_from(s, Seq::empty())
}

/// The value reads as a list of NUL-terminated strings: every byte is
/// printable ASCII or NUL, it ends with NUL, and no string is empty.
pub open spec fn is_string_list(b: Seq<u8>) -> bool {
    &&& b.len() > 0
    &&& b.last() == 0
    &&& forall|i: int| 0 <= i < b.len() ==> printable_or_nul(#[trigger] b[i])
    &&& forall|k: int| 0 <= k < split_nul(b.drop_last()).len() ==> #[trigger] split_nul(b.drop_last())[k].len() > 0
}

pub open spec fn bytes_as_chars(s: Seq<u8>) -> Seq<char> {
    s.map_values(|b: u8| b as char)
}

/// `char::escape_default` on printable ASCII: backslash before `"`, `'`
/// and `\`.
pub open spec fn escape_char(c: char) -> Seq<char> {
    if c == '"' || c == '\'' || c == '\\' {
        seq!['\\', c]
    } else {
        seq![c]
    }
}

pub open spec fn escape_str(s: Seq<char>) -> Seq<char>
    decreases s.len(),
{
    if s.len() == 0 {
        Seq::empty()
    } else {
        escape_str(s.drop_last()) + escape_char(s.last())
    }
}

/// `items` joined by `sep`.
pub open spec fn join(items: Seq<Seq<char>>, sep: Seq<char>) -> Seq<char>
    decreases items.len(),
{
    if items.len() == 0 {
        Seq::empty()
    } else if items.len() == 1 {
        items[0]
    } else {
        join(items.drop_last(), sep) + sep + items.last()
    }
}

pub open spec fn quoted(s: Seq<char>) -> Seq<char> {
    seq!['"'] + escape_str(s) + seq!['"']
}

/// The big-endian 32-bit word at byte offset `off`.
pub open spec fn be32_at(b: Seq<u8>, off: int) -> nat {
    (b[off] as nat) * 16777216 + (b[off + 1] as nat) * 65536 + (b[off + 2] as nat) * 256 + (b[off + 3] as nat)
}

/// The first `n` cells, each `0x` and eight hex digits, separated by spaces.
pub open spec fn cells_text(b: Seq<u8>, n: nat) -> Seq<char>
    decreases n,
{
    if n == 0 {
        Seq::empty()
    } else {
        let prev = cells_text(b, (n - 1) as nat);
        (if n > 1 { prev + seq![' '] } else { prev }) + seq!['0', 'x'] + hex_fixed(be32_at(b, 4 * (n - 1)), 8)
    }
}

/// The first `n` bytes, each two hex digits, separated by spaces.
pub open spec fn bytes_text(b: Seq<u8>, n: nat) -> Seq<char>
    decreases n,
{
    if n == 0 {
        Seq::empty()
    } else {
        let prev = bytes_text(b, (n - 1) as nat);
        (if n > 1 { prev + seq![' '] } else { prev }) + hex_fixed(b[n - 1] as nat, 2)
    }
}

pub open spec fn truncation_note(total: nat, tail: Seq<char>) -> Seq<char> {
    " /* truncated: "@ + dec_str(total) + tail
}

pub open spec fn min_nat(a: nat, b: nat) -> nat {
    if a < b { a } else { b }
}

/// The display text of a raw property value.
pub open spec fn render_spec(b: Seq<u8>) -> Seq<char> {
    if b.len() == 0 {
        Seq::empty()
    } else if is_string_list(b) {
        join(split_nul(b.drop_last()).map_values(|s: Seq<u8>| quoted(bytes_as_chars(s))), ", "@)
    } else if b.len() % 4 == 0 {
        let total = b.len() / 4;
        let shown = min_nat(total, MAX_CELLS as nat);
        seq!['<'] + cells_text(b, shown) + seq!['>']
            + (if shown < total { truncation_note(total, " cells total */"@) } else { Seq::empty() })
    } else {
        let total = b.len();
        let shown = min_nat(total, MAX_BYTES as nat);
        seq!['['] + bytes_text(b, shown) + seq![']']
            + (if shown < total { truncation_note(total, " bytes total */"@) } else { Seq::empty() })
    }
}

/// The big-endian word at `off`.
pub fn read_be32(b: &[u8], off: usize) -> (r: u32)
    requires
        off + 4 <= b@.len(),
    ensures
        r as nat == be32_at(b@, off as int),
{
    (b[off] as u32) * 16777216 + (b[off + 1] as u32) * 65536 + (b[off + 2] as u32) * 256 + (b[off + 3] as u32)
}

/// Appends `"` + the escaped string + `"`.
fn push_quoted(out: &mut String, s: &String)
    ensures
        final(out)@ == old(out)@ + quoted(s@),
{
    let cs = chars_of(s.as_str());
    push_char(out, '"');
    let ghost start = out@;
    let mut i: usize = 0;
    while i < cs.len()
        invariant
            0 <= i <= cs@.len(),
            cs@ == s@,
            out@ == start + escape_str(cs@.take(i as int)),
        decreases cs@.len() - i,
    {
        let c = cs[i];
        proof {
            let t = cs@.take(i + 1);
            assert(t.drop_last() =~= cs@.take(i as int));
        }
        if c == '"' || c == '\'' || c == '\\' {
            push_char(out, '\\');
        }
        push_char(out, c);
        proof {
            let t = cs@.take(i + 1);
            assert(out@ =~= start + escape_str(t));
        }
        i += 1;
    }
    push_char(out, '"');
    assert(cs@.take(cs@.len() as int) =~= s@);
}

pub fn render_value(bytes: &[u8]) -> (r: String)
    ensures
        r@ == render_spec(bytes@),
{
    if bytes.len() == 0 {
        return String::new();
    }
    if let Some(strings) = as_string_list(bytes) {
        let ghost items = split_nul(bytes@.drop_last()).map_values(|s: Seq<u8>| quoted(bytes_as_chars(s)));
        let mut out = String::new();
        let mut k: usize = 0;
        while k < strings.len()
            invariant
                0 <= k <= strings@.len(),
                strings@.len() == items.len(),
                forall|j: int| 0 <= j < strings@.len() ==> quoted(#[trigger] strings@[j]@) == items[j],
                out@ == join(items.take(k as int), ", "@),
            decreases strings@.len() - k,
        {
            let ghost before = out@;
            if k > 0 {
                out.append(", ");
            }
            push_quoted(&mut out, &strings[k]);
            proof {
                let t = items.take(k + 1);
                assert(t.drop_last() =~= items.take(k as int));
                assert(t.last() == items[k as int]);
                if k == 0 {
                    assert(out@ =~= join(t, ", "@));
                } else {
                    assert(out@ =~= join(t, ", "@));
                }
            }
            k += 1;
        }
        assert(items.take(strings@.len() as int) =~= items);
        return out;
    }
    if bytes.len() % 4 == 0 {
        let total: usize = bytes.len() / 4;
        let shown: usize = if total < MAX_CELLS { total } else { MAX_CELLS };
        let mut out = String::new();
        push_char(&mut out, '<');
        let mut k: usize = 0;
        while k < shown
            invariant
                0 <= k <= shown <= total,
                bytes@.len() == 4 * total,
                bytes.len() == 4 * total,
                out@ == seq!['<'] + cells_text(bytes@, k as nat),
            decreases shown - k,
        {
            if k > 0 {
                push_char(&mut out, ' ');
            }
            push_char(&mut out, '0');
            push_char(&mut out, 'x');
            let w = read_be32(bytes, 4 * k);
            push_hex_fixed(&mut out, w as u64, 8);
            proof {
                let t = cells_text(bytes@, (k + 1) as nat);
                assert(out@ =~= seq!['<'] + t);
            }
            k += 1;
        }
        push_char(&mut out, '>');
        let ghost body = out@;
        if shown < total {
            out.append(" /* truncated: ");
            push_dec(&mut out, total as u64);
            out.append(" cells total */");
            assert(out@ =~= body + truncation_note(total as nat, " cells total */"@));
        } else {
            assert(out@ =~= body + Seq::<char>::empty());
        }
        assert(total as nat == bytes@.len() / 4);
        return out;
    }
    let total: usize = bytes.len();
    let shown: usize = if total < MAX_BYTES { total } else { MAX_BYTES };
    let mut out = String::new();
    push_char(&mut out, '[');
    let mut k: usize = 0;
    while k < shown
        invariant
            0 <= k <= shown <= total,
            total == bytes@.len(),
            out@ == seq!['['] + bytes_text(bytes@, k as nat),
        decreases shown - k,
    {
        if k > 0 {
            push_char(&mut out, ' ');
        }
        push_hex_fixed(&mut out, bytes[k] as u64, 2);
        proof {
            let t = bytes_text(bytes@, (k + 1) as nat);
            assert(out@ =~= seq!['['] + t);
        }
        k += 1;
    }
    push_char(&mut out, ']');
    let ghost body = out@;
    if shown < total {
        out.append(" /* truncated: ");
        push_dec(&mut out, total as u64);
        out.append(" bytes total */");
        assert(out@ =~= body + truncation_note(total as nat, " bytes total */"@));
    } else {
        assert(out@ =~= body + Seq::<char>::empty());
    }
    out
}

/// Treat the value as a NUL-terminated string list if every byte is printable
/// ASCII or NUL, it ends with NUL, and no segment is empty.
pub fn as_string_list(bytes: &[u8]) -> (r: Option<Vec<String>>)
    ensures
        r is Some <==> is_string_list(bytes@),
        r matches Some(v) ==> {
            &&& v@.len() == split_nul(bytes@.drop_last()).len()
            &&& forall|k: int| 0 <= k < v@.len() ==> #[trigger] v@[k]@ == bytes_as_chars(split_nul(bytes@.drop_last())[k])
        },
{
    if bytes.len() == 0 || bytes[bytes.len() - 1] != 0 {
        return None;
    }
    let mut i: usize = 0;
    while i < bytes.len()
        invariant
            0 <= i <= bytes@.len(),
            forall|j: int| 0 <= j < i ==> printable_or_nul(#[trigger] bytes@[j]),
        decreases bytes@.len() - i,
    {
        let b = bytes[i];
        if !(b == 0 || (0x20 <= b && b <= 0x7e)) {
            return None;
        }
        i += 1;
    }
    let n: usize = bytes.len() - 1;
    let ghost body = bytes@.drop_last();
    let mut out: Vec<String> = Vec::new();
    let ghost mut segs: Seq<Seq<u8>> = Seq::empty();
    let mut cur = String::new();
    let mut cur_len: usize = 0;
    let ghost mut cur_b: Seq<u8> = Seq::empty();
    let mut j: usize = 0;
    assert(body.skip(0) =~= body);
    assert(segs + split_nul_from(body, cur_b) =~= split_nul(body));
    while j < n
        invariant
            0 <= j <= n,
            n == bytes@.len() - 1,
            body == bytes@.drop_last(),
            out@.len() == segs.len(),
            forall|k: int| 0 <= k < out@.len() ==> #[trigger] out@[k]@ == bytes_as_chars(segs[k]),
            forall|k: int| 0 <= k < segs.len() ==> #[trigger] segs[k].len() > 0,
            cur@ == bytes_as_chars(cur_b),
            cur_len == cur_b.len(),
            cur_len <= j,
            segs + split_nul_from(body.skip(j as int), cur_b) == split_nul(body),
        decreases n - j,
    {
        let b = bytes[j];
        assert(body.skip(j as int).drop_first() =~= body.skip(j + 1));
        assert(body.skip(j as int)[0] == b);
        if b == 0 {
            if cur_len == 0 {
                proof {
                    let all = split_nul(body);
                    assert(all[segs.len() as int] == cur_b);
                }
                return None;
            }
            out.push(cur);
            proof {
                assert(segs.push(cur_b) + split_nul_from(body.skip(j + 1), Seq::empty())
                    =~= segs + (seq![cur_b] + split_nul_from(body.skip(j + 1), Seq::empty())));
                segs = segs.push(cur_b);
                cur_b = Seq::empty();
            }
            cur = String::new();
            cur_len = 0;
            assert(cur@ =~= bytes_as_chars(cur_b));
        } else {
            push_char(&mut cur, b as char);
            cur_len += 1;
            proof {
                assert(bytes_as_chars(cur_b.push(b)) =~= bytes_as_chars(cur_b).push(b as char));
                cur_b = cur_b.push(b);
            }
        }
        j += 1;
    }
    assert(body.skip(n as int).len() == 0);
    if cur_len == 0 {
        proof {
            let all = split_nul(body);
            assert(all[segs.len() as int] == cur_b);
        }
        return None;
    }
    out.push(cur);
    proof {
        segs = segs.push(cur_b);
        assert(segs =~= split_nul(body));
    }
    Some(out)
}

// ---------------------------------------------------------------------------
// Laws of rendering
// ---------------------------------------------------------------------------

/// A NUL-terminated value whose bytes are all printable ASCII (space
/// included, 0x20 to 0x7e) or NUL, and whose NUL-separated pieces are all
/// non-empty, renders as its pieces, each quoted, joined by `", "`.
pub proof fn law_text_list_renders_quoted(b: Seq<u8>)
    requires
        b.len() > 0,
        b.last() == 0,
        forall|i: int| 0 <= i < b.len() ==> b[i] == 0 || (32 <= #[trigger] b[i] && b[i] <= 126),
        forall|k: int| 0 <= k < split_nul(b.drop_last()).len() ==> #[trigger] split_nul(b.drop_last())[k].len() > 0,
    ensures
        render_spec(b) == join(split_nul(b.drop_last()).map_values(|s: Seq<u8>| quoted(bytes_as_chars(s))), ", "@),
{
    assert forall|i: int| 0 <= i < b.len() implies printable_or_nul(#[trigger] b[i]) by {
        assert(b[i] == 0 || (32 <= b[i] && b[i] <= 126));
    }
    assert(is_string_list(b));
}

/// Splitting text without NUL bytes leaves it whole.
proof fn lemma_split_no_nul(s: Seq<u8>, cur: Seq<u8>)
    requires
        forall|i: int| 0 <= i < s.len() ==> #[trigger] s[i] != 0,
    ensures
        split_nul_from(s, cur) == seq![cur + s],
    decreases s.len(),
{
    if s.len() == 0 {
        assert(cur + s =~= cur);
    } else {
        let t = s.drop_first();
        assert forall|i: int| 0 <= i < t.len() implies #[trigger] t[i] != 0 by {
            assert(t[i] == s[i + 1]);
        }
        lemma_split_no_nul(t, cur.push(s[0]));
        assert(cur.push(s[0]) + t =~= cur + s);
    }
}

/// Printable ASCII text (space included) followed by one NUL renders as
/// that text in double quotes, with `"`, `'` and `\` escaped.
pub proof fn law_printable_text_renders_quoted(s: Seq<u8>)
    requires
        s.len() > 0,
        forall|i: int| 0 <= i < s.len() ==> 32 <= #[trigger] s[i] && s[i] <= 126,
    ensures
        render_spec(s.push(0)) == seq!['"'] + escape_str(bytes_as_chars(s)) + seq!['"'],
{
    let b = s.push(0);
    assert(b.drop_last() =~= s);
    assert forall|i: int| 0 <= i < s.len() implies #[trigger] s[i] != 0 by {
        assert(32 <= s[i]);
    }
    lemma_split_no_nul(s, Seq::empty());
    assert(Seq::<u8>::empty() + s =~= s);
    assert(split_nul(s) == seq![s]);
    assert forall|i: int| 0 <= i < b.len() implies b[i] == 0 || (32 <= #[trigger] b[i] && b[i] <= 126) by {
        if i < s.len() {
            assert(b[i] == s[i]);
        }
    }
    law_text_list_renders_quoted(b);
    let items = split_nul(s).map_values(|x: Seq<u8>| quoted(bytes_as_chars(x)));
    assert(items =~= seq![quoted(bytes_as_chars(s))]);
}

/// One cell whose last byte is not NUL renders as that cell in hex:
/// `<0x` and eight digits, then `>`.
pub proof fn law_one_cell_renders_as_cell(b: Seq<u8>)
    requires
        b.len() == 4,
        b[3] != 0,
    ensures
        render_spec(b) == seq!['<', '0', 'x'] + hex_fixed(be32_at(b, 0), 8) + seq!['>'],
{
    assert(!is_string_list(b));
    assert(cells_text(b, 0) == Seq::<char>::empty());
    assert(cells_text(b, 1) =~= seq!['0', 'x'] + hex_fixed(be32_at(b, 0), 8));
    assert(min_nat(1, MAX_CELLS as nat) == 1);
    assert(render_spec(b) =~= seq!['<'] + cells_text(b, 1) + seq!['>'] + Seq::<char>::empty());
}

/// A single byte other than NUL renders as that byte in hex in brackets.
pub proof fn law_one_byte_renders_as_byte(x: u8)
    requires
        x != 0,
    ensures
        render_spec(seq![x]) == seq!['['] + hex_fixed(x as nat, 2) + seq![']'],
{
    let b = seq![x];
    assert(!is_string_list(b));
    assert(bytes_text(b, 0) == Seq::<char>::empty());
    assert(bytes_text(b, 1) =~= hex_fixed(x as nat, 2));
    assert(render_spec(b) =~= seq!['['] + bytes_text(b, 1) + seq![']'] + Seq::<char>::empty());
}

} // verus!
