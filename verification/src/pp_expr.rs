//! Evaluation of preprocessor `#if`/`#elif` expressions: integer literals,
//! `defined(NAME)`, object-like macros (expanded recursively), and the C
//! operators with their usual precedence. Undefined identifiers are 0.
use vstd::prelude::*;
use crate::text::{is_whitespace, is_ascii_digit, is_ascii_hexdigit, is_ascii_alpha, is_ascii_alnum,
    spec_is_whitespace, spec_is_ascii_digit, spec_is_ascii_hexdigit, spec_is_ascii_alpha, spec_is_ascii_alnum,
    chars_eq};

verus! {

pub const MAX_MACRO_DEPTH: usize = 16;

// ---------------------------------------------------------------------------
// Macro table
// ---------------------------------------------------------------------------

#[derive(Debug)]
pub enum Macro {
    Object(Vec<char>),
    Func { params: Vec<Vec<char>>, body: Vec<char> },
}

pub enum MacroDef {
    Object(Seq<char>),
    Func(Seq<Seq<char>>, Seq<char>),
}

pub open spec fn macro_def(m: Macro) -> MacroDef {
    match m {
        Macro::Object(b) => MacroDef::Object(b@),
        Macro::Func { params, body } => MacroDef::Func(params@.map_values(|p: Vec<char>| p@), body@),
    }
}

/// The defined macros after a history of `#define` (Some) and `#undef`
/// (None) entries, in order.
pub open spec fn macro_map(s: Seq<(Vec<char>, Option<Macro>)>) -> Map<Seq<char>, MacroDef>
    decreases s.len(),
{
    if s.len() == 0 {
        Map::empty()
    } else {
        let m = macro_map(s.drop_last());
        match s.last().1 {
            Some(mac) => m.insert(s.last().0@, macro_def(mac)),
            None => m.remove(s.last().0@),
        }
    }
}

/// Looks a macro up: the latest entry for the name decides.
pub fn find_macro<'a>(macros: &'a Vec<(Vec<char>, Option<Macro>)>, name: &[char]) -> (r: Option<&'a Macro>)
    ensures
        r is Some <==> macro_map(macros@).contains_key(name@),
        r matches Some(m) ==> macro_def(*m) == macro_map(macros@)[name@],
{
    let mut i: usize = macros.len();
    assert(macros@.take(macros@.len() as int) =~= macros@);
    while i > 0
        invariant
            0 <= i <= macros@.len(),
            macro_map(macros@).contains_key(name@) == macro_map(macros@.take(i as int)).contains_key(name@),
            macro_map(macros@).contains_key(name@) ==> macro_map(macros@)[name@] == macro_map(macros@.take(i as int))[name@],
        decreases i,
    {
        assert(macros@.take(i as int).drop_last() =~= macros@.take(i - 1));
        assert(macros@.take(i as int).last() == macros@[i - 1]);
        if chars_eq(macros[i - 1].0.as_slice(), name) {
            return match &macros[i - 1].1 {
                Some(m) => Some(m),
                None => None,
            };
        }
        i -= 1;
    }
    assert(macros@.take(0) =~= Seq::<(Vec<char>, Option<Macro>)>::empty());
    None
}

// ---------------------------------------------------------------------------
// Tokens
// ---------------------------------------------------------------------------

#[derive(Debug, Clone, Copy, PartialEq, Eq, Structural)]
pub enum PpOp {
    OrOr, AndAnd, EqEq, Ne, Le, Ge, Shl, Shr,
    Plus, Minus, Star, Slash, Percent, LParen, RParen, Bang, Tilde, Lt, Gt, Amp, Pipe, Caret,
}

pub enum PTok {
    Num(i64),
    Id(Vec<char>),
    Op(PpOp),
}

pub enum PTokV {
    Num(i64),
    Id(Seq<char>),
    Op(PpOp),
}

pub open spec fn ptok_view(t: PTok) -> PTokV {
    match t {
        PTok::Num(n) => PTokV::Num(n),
        PTok::Id(s) => PTokV::Id(s@),
        PTok::Op(o) => PTokV::Op(o),
    }
}

pub open spec fn ptoks_view(s: Seq<PTok>) -> Seq<PTokV> {
    s.map_values(|t: PTok| ptok_view(t))
}

/// The two-character operator starting at `i`, if any.
pub open spec fn two_char_op(cs: Seq<char>, i: int) -> Option<PpOp> {
    if i + 1 >= cs.len() {
        None
    } else {
        let a = cs[i];
        let b = cs[i + 1];
        if a == '|' && b == '|' { Some(PpOp::OrOr) }
        else if a == '&' && b == '&' { Some(PpOp::AndAnd) }
        else if a == '=' && b == '=' { Some(PpOp::EqEq) }
        else if a == '!' && b == '=' { Some(PpOp::Ne) }
        else if a == '<' && b == '=' { Some(PpOp::Le) }
        else if a == '>' && b == '=' { Some(PpOp::Ge) }
        else if a == '<' && b == '<' { Some(PpOp::Shl) }
        else if a == '>' && b == '>' { Some(PpOp::Shr) }
        else { None }
    }
}

pub open spec fn one_char_op(c: char) -> Option<PpOp> {
    if c == '+' { Some(PpOp::Plus) }
    else if c == '-' { Some(PpOp::Minus) }
    else if c == '*' { Some(PpOp::Star) }
    else if c == '/' { Some(PpOp::Slash) }
    else if c == '%' { Some(PpOp::Percent) }
    else if c == '(' { Some(PpOp::LParen) }
    else if c == ')' { Some(PpOp::RParen) }
    else if c == '!' { Some(PpOp::Bang) }
    else if c == '~' { Some(PpOp::Tilde) }
    else if c == '<' { Some(PpOp::Lt) }
    else if c == '>' { Some(PpOp::Gt) }
    else if c == '&' { Some(PpOp::Amp) }
    else if c == '|' { Some(PpOp::Pipe) }
    else if c == '^' { Some(PpOp::Caret) }
    else { None }
}

/// First index at or after `i` where `p` fails.
pub open spec fn scan_while(cs: Seq<char>, i: int, p: spec_fn(char) -> bool) -> int
    decreases cs.len() - i,
{
    if 0 <= i < cs.len() && p(cs[i]) { scan_while(cs, i + 1, p) } else { i }
}

pub open spec fn is_ident_char(c: char) -> bool {
    spec_is_ascii_alnum(c) || c == '_'
}

pub open spec fn is_int_suffix(c: char) -> bool {
    c == 'u' || c == 'U' || c == 'l' || c == 'L'
}

pub open spec fn hex_digit_value(c: char) -> nat {
    if '0' <= c && c <= '9' {
        (c as nat - 48) as nat
    } else if 'a' <= c && c <= 'f' {
        (c as nat - 87) as nat
    } else if 'A' <= c && c <= 'F' {
        (c as nat - 55) as nat
    } else {
        0
    }
}

/// The value of a digit string in base 10 or 16.
pub open spec fn digits_value(s: Seq<char>, hex: bool) -> nat
    decreases s.len(),
{
    if s.len() == 0 {
        0
    } else if hex {
        digits_value(s.drop_last(), hex) * 16 + hex_digit_value(s.last())
    } else {
        digits_value(s.drop_last(), hex) * 10 + hex_digit_value(s.last())
    }
}

/// `i64::from_str_radix` on a digit string: nothing when empty or too large.
pub open spec fn parse_digits(s: Seq<char>, hex: bool) -> Option<i64> {
    if s.len() == 0 || digits_value(s, hex) > i64::MAX as nat {
        None
    } else {
        Some(digits_value(s, hex) as i64)
    }
}

/// The tokens of `cs[i..]`; nothing when a character fits no token or a
/// number does not parse.
pub open spec fn pp_tokens(cs: Seq<char>, i: int) -> Option<Seq<PTokV>>
    decreases cs.len() - i,
{
    if i < 0 || i >= cs.len() {
        Some(Seq::empty())
    } else {
        let c = cs[i];
        if spec_is_whitespace(c) {
            pp_tokens(cs, i + 1)
        } else if spec_is_ascii_digit(c) {
            let hex = c == '0' && i + 1 < cs.len() && (cs[i + 1] == 'x' || cs[i + 1] == 'X');
            let start = if hex { i + 2 } else { i };
            let end = if hex {
                scan_while(cs, start, |d: char| spec_is_ascii_hexdigit(d))
            } else {
                scan_while(cs, start, |d: char| spec_is_ascii_digit(d))
            };
            let after = scan_while(cs, end, |d: char| is_int_suffix(d));
            match parse_digits(cs.subrange(start, end), hex) {
                Some(v) => if after > i && after <= cs.len() {
                    match pp_tokens(cs, after) {
                        Some(rest) => Some(seq![PTokV::Num(v)] + rest),
                        None => None,
                    }
                } else {
                    None
                },
                None => None,
            }
        } else if spec_is_ascii_alpha(c) || c == '_' {
            let end = scan_while(cs, i, |d: char| is_ident_char(d));
            if end > i && end <= cs.len() {
                match pp_tokens(cs, end) {
                    Some(rest) => Some(seq![PTokV::Id(cs.subrange(i, end))] + rest),
                    None => None,
                }
            } else {
                None
            }
        } else if two_char_op(cs, i) is Some {
            match pp_tokens(cs, i + 2) {
                Some(rest) => Some(seq![PTokV::Op(two_char_op(cs, i)->0)] + rest),
                None => None,
            }
        } else if one_char_op(c) is Some {
            match pp_tokens(cs, i + 1) {
                Some(rest) => Some(seq![PTokV::Op(one_char_op(c)->0)] + rest),
                None => None,
            }
        } else {
            None
        }
    }
}

proof fn lemma_scan_while_bounds(cs: Seq<char>, i: int, p: spec_fn(char) -> bool)
    requires
        0 <= i <= cs.len(),
    ensures
        i <= scan_while(cs, i, p) <= cs.len(),
        forall|k: int| i <= k < scan_while(cs, i, p) ==> p(cs[k]),
        scan_while(cs, i, p) < cs.len() ==> !p(cs[scan_while(cs, i, p)]),
    decreases cs.len() - i,
{
    if i < cs.len() && p(cs[i]) {
        lemma_scan_while_bounds(cs, i + 1, p);
    }
}

fn scan_ident(cs: &[char], i: usize) -> (j: usize)
    requires
        i <= cs@.len(),
    ensures
        j == scan_while(cs@, i as int, |d: char| is_ident_char(d)),
        i <= j <= cs@.len(),
{
    let mut j: usize = i;
    proof { lemma_scan_while_bounds(cs@, i as int, |d: char| is_ident_char(d)); }
    while j < cs.len() && (is_ascii_alnum(cs[j]) || cs[j] == '_')
        invariant
            i <= j <= cs@.len(),
            scan_while(cs@, i as int, |d: char| is_ident_char(d)) == scan_while(cs@, j as int, |d: char| is_ident_char(d)),
        decreases cs@.len() - j,
    {
        j += 1;
    }
    j
}

fn scan_digits(cs: &[char], i: usize, hex: bool) -> (j: usize)
    requires
        i <= cs@.len(),
    ensures
        hex ==> j == scan_while(cs@, i as int, |d: char| spec_is_ascii_hexdigit(d)),
        !hex ==> j == scan_while(cs@, i as int, |d: char| spec_is_ascii_digit(d)),
        i <= j <= cs@.len(),
{
    let mut j: usize = i;
    proof {
        lemma_scan_while_bounds(cs@, i as int, |d: char| spec_is_ascii_hexdigit(d));
        lemma_scan_while_bounds(cs@, i as int, |d: char| spec_is_ascii_digit(d));
    }
    while j < cs.len() && is_ascii_hexdigit(cs[j]) && (hex || is_ascii_digit(cs[j]))
        invariant
            i <= j <= cs@.len(),
            hex ==> scan_while(cs@, i as int, |d: char| spec_is_ascii_hexdigit(d)) == scan_while(cs@, j as int, |d: char| spec_is_ascii_hexdigit(d)),
            !hex ==> scan_while(cs@, i as int, |d: char| spec_is_ascii_digit(d)) == scan_while(cs@, j as int, |d: char| spec_is_ascii_digit(d)),
        decreases cs@.len() - j,
    {
        j += 1;
    }
    j
}

fn scan_suffix(cs: &[char], i: usize) -> (j: usize)
    requires
        i <= cs@.len(),
    ensures
        j == scan_while(cs@, i as int, |d: char| is_int_suffix(d)),
        i <= j <= cs@.len(),
{
    let mut j: usize = i;
    proof { lemma_scan_while_bounds(cs@, i as int, |d: char| is_int_suffix(d)); }
    while j < cs.len() && (cs[j] == 'u' || cs[j] == 'U' || cs[j] == 'l' || cs[j] == 'L')
        invariant
            i <= j <= cs@.len(),
            scan_while(cs@, i as int, |d: char| is_int_suffix(d)) == scan_while(cs@, j as int, |d: char| is_int_suffix(d)),
        decreases cs@.len() - j,
    {
        j += 1;
    }
    j
}

proof fn lemma_digits_value_grows(s: Seq<char>, hex: bool, k: int)
    requires
        0 <= k <= s.len(),
    ensures
        digits_value(s.take(k), hex) <= digits_value(s, hex),
    decreases s.len() - k,
{
    if k < s.len() {
        lemma_digits_value_grows(s, hex, k + 1);
        assert(s.take(k + 1).drop_last() =~= s.take(k));
    } else {
        assert(s.take(k) =~= s);
    }
}

fn digit_value(c: char) -> (r: i64)
    requires
        spec_is_ascii_hexdigit(c),
    ensures
        r as nat == hex_digit_value(c),
        0 <= r < 16,
{
    if '0' <= c && c <= '9' {
        (c as u32 - 48) as i64
    } else if 'a' <= c && c <= 'f' {
        (c as u32 - 87) as i64
    } else {
        (c as u32 - 55) as i64
    }
}

/// `i64::from_str_radix(cs[lo..hi], 16 or 10)`, the digits already checked.
fn parse_number(cs: &[char], lo: usize, hi: usize, hex: bool) -> (r: Option<i64>)
    requires
        lo <= hi <= cs@.len(),
        forall|k: int| lo <= k < hi ==> if hex { spec_is_ascii_hexdigit(cs@[k]) } else { spec_is_ascii_digit(cs@[k]) },
    ensures
        r == parse_digits(cs@.subrange(lo as int, hi as int), hex),
{
    let ghost s = cs@.subrange(lo as int, hi as int);
    if lo == hi {
        return None;
    }
    let mut acc: i64 = 0;
    let mut k: usize = lo;
    while k < hi
        invariant
            lo <= k <= hi <= cs@.len(),
            s == cs@.subrange(lo as int, hi as int),
            forall|j: int| lo <= j < hi ==> if hex { spec_is_ascii_hexdigit(cs@[j]) } else { spec_is_ascii_digit(cs@[j]) },
            acc as nat == digits_value(s.take(k - lo), hex),
            0 <= acc,
        decreases hi - k,
    {
        let d = digit_value(cs[k]);
        assert(s.take(k - lo + 1).drop_last() =~= s.take(k - lo));
        assert(s.take(k - lo + 1).last() == cs@[k as int]);
        if hex {
            if acc > (i64::MAX - d) / 16 {
                proof { lemma_digits_value_grows(s, hex, k - lo + 1); }
                return None;
            }
            acc = acc * 16 + d;
        } else {
            if acc > (i64::MAX - d) / 10 {
                proof { lemma_digits_value_grows(s, hex, k - lo + 1); }
                return None;
            }
            acc = acc * 10 + d;
        }
        k += 1;
    }
    assert(s.take(hi - lo) =~= s);
    Some(acc)
}

fn two_op(cs: &[char], i: usize) -> (r: Option<PpOp>)
    requires
        i < cs@.len(),
    ensures
        r == two_char_op(cs@, i as int),
{
    if cs.len() - i < 2 {
        return None;
    }
    let a = cs[i];
    let b = cs[i + 1];
    if a == '|' && b == '|' { Some(PpOp::OrOr) }
    else if a == '&' && b == '&' { Some(PpOp::AndAnd) }
    else if a == '=' && b == '=' { Some(PpOp::EqEq) }
    else if a == '!' && b == '=' { Some(PpOp::Ne) }
    else if a == '<' && b == '=' { Some(PpOp::Le) }
    else if a == '>' && b == '=' { Some(PpOp::Ge) }
    else if a == '<' && b == '<' { Some(PpOp::Shl) }
    else if a == '>' && b == '>' { Some(PpOp::Shr) }
    else { None }
}

fn one_op(c: char) -> (r: Option<PpOp>)
    ensures
        r == one_char_op(c),
{
    if c == '+' { Some(PpOp::Plus) }
    else if c == '-' { Some(PpOp::Minus) }
    else if c == '*' { Some(PpOp::Star) }
    else if c == '/' { Some(PpOp::Slash) }
    else if c == '%' { Some(PpOp::Percent) }
    else if c == '(' { Some(PpOp::LParen) }
    else if c == ')' { Some(PpOp::RParen) }
    else if c == '!' { Some(PpOp::Bang) }
    else if c == '~' { Some(PpOp::Tilde) }
    else if c == '<' { Some(PpOp::Lt) }
    else if c == '>' { Some(PpOp::Gt) }
    else if c == '&' { Some(PpOp::Amp) }
    else if c == '|' { Some(PpOp::Pipe) }
    else if c == '^' { Some(PpOp::Caret) }
    else { None }
}

fn copy_range(cs: &[char], lo: usize, hi: usize) -> (r: Vec<char>)
    requires
        lo <= hi <= cs@.len(),
    ensures
        r@ == cs@.subrange(lo as int, hi as int),
{
    let mut v: Vec<char> = Vec::new();
    let mut k: usize = lo;
    while k < hi
        invariant
            lo <= k <= hi <= cs@.len(),
            v@ == cs@.subrange(lo as int, k as int),
        decreases hi - k,
    {
        v.push(cs[k]);
        assert(v@ =~= cs@.subrange(lo as int, k + 1));
        k += 1;
    }
    v
}

/// Splits an `#if` expression into tokens.
pub fn pp_lex(cs: &[char]) -> (r: Option<Vec<PTok>>)
    ensures
        r matches Some(v) ==> pp_tokens(cs@, 0) == Some(ptoks_view(v@)),
        r is None ==> pp_tokens(cs@, 0) is None,
{
    let mut out: Vec<PTok> = Vec::new();
    let mut i: usize = 0;
    while i < cs.len()
        invariant
            0 <= i <= cs@.len(),
            pp_tokens(cs@, 0) == (match pp_tokens(cs@, i as int) {
                Some(rest) => Some(ptoks_view(out@) + rest),
                None => None,
            }),
        decreases cs@.len() - i,
    {
        let c = cs[i];
        let ghost prev = ptoks_view(out@);
        if is_whitespace(c) {
            i += 1;
            continue;
        }
        if is_ascii_digit(c) {
            let hex = c == '0' && i + 1 < cs.len() && (cs[i + 1] == 'x' || cs[i + 1] == 'X');
            let start: usize = if hex { i + 2 } else { i };
            let end = scan_digits(cs, start, hex);
            proof {
                if hex {
                    lemma_scan_while_bounds(cs@, start as int, |d: char| spec_is_ascii_hexdigit(d));
                } else {
                    lemma_scan_while_bounds(cs@, start as int, |d: char| spec_is_ascii_digit(d));
                }
            }
            let after = scan_suffix(cs, end);
            let v = match parse_number(cs, start, end, hex) {
                Some(v) => v,
                None => return None,
            };
            if after <= i {
                return None;
            }
            out.push(PTok::Num(v));
            proof {
                assert(ptoks_view(out@) =~= prev.push(PTokV::Num(v)));
                let rest = pp_tokens(cs@, after as int);
                if rest is Some {
                    assert(prev + (seq![PTokV::Num(v)] + rest->0) =~= prev.push(PTokV::Num(v)) + rest->0);
                }
            }
            i = after;
            continue;
        }
        if is_ascii_alpha(c) || c == '_' {
            let end = scan_ident(cs, i);
            proof { lemma_scan_while_bounds(cs@, i as int, |d: char| is_ident_char(d)); }
            let id = copy_range(cs, i, end);
            out.push(PTok::Id(id));
            proof {
                assert(ptoks_view(out@) =~= prev.push(PTokV::Id(cs@.subrange(i as int, end as int))));
                let rest = pp_tokens(cs@, end as int);
                if rest is Some {
                    assert(prev + (seq![PTokV::Id(cs@.subrange(i as int, end as int))] + rest->0)
                        =~= prev.push(PTokV::Id(cs@.subrange(i as int, end as int))) + rest->0);
                }
            }
            i = end;
            continue;
        }
        if let Some(op) = two_op(cs, i) {
            out.push(PTok::Op(op));
            proof {
                assert(ptoks_view(out@) =~= prev.push(PTokV::Op(op)));
                let rest = pp_tokens(cs@, i + 2);
                if rest is Some {
                    assert(prev + (seq![PTokV::Op(op)] + rest->0) =~= prev.push(PTokV::Op(op)) + rest->0);
                }
            }
            i += 2;
            continue;
        }
        if let Some(op) = one_op(c) {
            out.push(PTok::Op(op));
            proof {
                assert(ptoks_view(out@) =~= prev.push(PTokV::Op(op)));
                let rest = pp_tokens(cs@, i + 1);
                if rest is Some {
                    assert(prev + (seq![PTokV::Op(op)] + rest->0) =~= prev.push(PTokV::Op(op)) + rest->0);
                }
            }
            i += 1;
            continue;
        }
        return None;
    }
    assert(ptoks_view(out@) + Seq::<PTokV>::empty() =~= ptoks_view(out@));
    Some(out)
}


// ---------------------------------------------------------------------------
// Expression evaluation
// ---------------------------------------------------------------------------

pub open spec fn binding_power(op: PpOp) -> Option<int> {
    match op {
        PpOp::OrOr => Some(1),
        PpOp::AndAnd => Some(2),
        PpOp::Pipe => Some(3),
        PpOp::Caret => Some(4),
        PpOp::Amp => Some(5),
        PpOp::EqEq | PpOp::Ne => Some(6),
        PpOp::Lt | PpOp::Gt | PpOp::Le | PpOp::Ge => Some(7),
        PpOp::Shl | PpOp::Shr => Some(8),
        PpOp::Plus | PpOp::Minus => Some(9),
        PpOp::Star | PpOp::Slash | PpOp::Percent => Some(10),
        _ => None,
    }
}

pub open spec fn b2i(b: bool) -> i64 {
    if b { 1 } else { 0 }
}

/// A binary operator on two values: wrapping arithmetic, nothing for a
/// division or remainder that has no result.
pub open spec fn apply_op(op: PpOp, lhs: i64, rhs: i64) -> Option<i64> {
    match op {
        PpOp::OrOr => Some(b2i(lhs != 0 || rhs != 0)),
        PpOp::AndAnd => Some(b2i(lhs != 0 && rhs != 0)),
        PpOp::Pipe => Some(lhs | rhs),
        PpOp::Caret => Some(lhs ^ rhs),
        PpOp::Amp => Some(lhs & rhs),
        PpOp::EqEq => Some(b2i(lhs == rhs)),
        PpOp::Ne => Some(b2i(lhs != rhs)),
        PpOp::Lt => Some(b2i(lhs < rhs)),
        PpOp::Gt => Some(b2i(lhs > rhs)),
        PpOp::Le => Some(b2i(lhs <= rhs)),
        PpOp::Ge => Some(b2i(lhs >= rhs)),
        PpOp::Shl => Some(lhs.wrapping_shl(rhs as u32)),
        PpOp::Shr => Some(lhs.wrapping_shr(rhs as u32)),
        PpOp::Plus => Some(lhs.wrapping_add(rhs)),
        PpOp::Minus => Some(lhs.wrapping_sub(rhs)),
        PpOp::Star => Some(lhs.wrapping_mul(rhs)),
        PpOp::Slash => lhs.checked_div(rhs),
        PpOp::Percent => lhs.checked_rem(rhs),
        _ => None,
    }
}

/// The value of expression text `s` with macro expansion at nesting
/// `depth`; nothing when it does not parse completely or nests too deep.
pub open spec fn pp_eval(m: Map<Seq<char>, MacroDef>, s: Seq<char>, depth: int) -> Option<i64>
    decreases 2 * (MAX_MACRO_DEPTH + 1 - depth) + 1, 0int, 0int,
{
    if depth < 0 || depth > MAX_MACRO_DEPTH {
        None
    } else {
        match pp_tokens(s, 0) {
            None => None,
            Some(toks) => match pp_expr(m, toks, 0, 0, depth) {
                Some((v, p)) => if p == toks.len() { Some(v) } else { None },
                None => None,
            },
        }
    }
}

/// A unary expression at `pos`: its value and the position after it.
pub open spec fn pp_unary(m: Map<Seq<char>, MacroDef>, toks: Seq<PTokV>, pos: int, depth: int) -> Option<(i64, int)>
    decreases 2 * (MAX_MACRO_DEPTH + 1 - depth), toks.len() - pos, 1int,
{
    if depth < 0 || depth > MAX_MACRO_DEPTH || pos < 0 || pos >= toks.len() {
        None
    } else {
        match toks[pos] {
            PTokV::Num(n) => Some((n, pos + 1)),
            PTokV::Id(id) => if id == "defined"@ {
                let parens = pos + 1 < toks.len() && toks[pos + 1] == PTokV::Op(PpOp::LParen);
                let npos = if parens { pos + 2 } else { pos + 1 };
                if npos >= toks.len() {
                    None
                } else {
                    match toks[npos] {
                        PTokV::Id(name) => if parens {
                            if npos + 1 < toks.len() && toks[npos + 1] == PTokV::Op(PpOp::RParen) {
                                Some((b2i(m.contains_key(name)), npos + 2))
                            } else {
                                None
                            }
                        } else {
                            Some((b2i(m.contains_key(name)), npos + 1))
                        },
                        _ => None,
                    }
                }
            } else if m.contains_key(id) && m[id] is Object {
                match pp_eval(m, m[id]->Object_0, depth + 1) {
                    Some(v) => Some((v, pos + 1)),
                    None => Some((0, pos + 1)),
                }
            } else {
                Some((0, pos + 1))
            },
            PTokV::Op(o) => match o {
                PpOp::Bang => match pp_unary(m, toks, pos + 1, depth) {
                    Some((v, p)) => Some((b2i(v == 0), p)),
                    None => None,
                },
                PpOp::Tilde => match pp_unary(m, toks, pos + 1, depth) {
                    Some((v, p)) => Some((!v, p)),
                    None => None,
                },
                PpOp::Minus => match pp_unary(m, toks, pos + 1, depth) {
                    Some((v, p)) => Some((0i64.wrapping_sub(v), p)),
                    None => None,
                },
                PpOp::Plus => pp_unary(m, toks, pos + 1, depth),
                PpOp::LParen => match pp_expr(m, toks, pos + 1, 0, depth) {
                    Some((v, p)) => if 0 <= p < toks.len() && toks[p] == PTokV::Op(PpOp::RParen) {
                        Some((v, p + 1))
                    } else {
                        None
                    },
                    None => None,
                },
                _ => None,
            },
        }
    }
}

/// An expression at `pos` whose binary operators bind at least `min_bp`.
pub open spec fn pp_expr(m: Map<Seq<char>, MacroDef>, toks: Seq<PTokV>, pos: int, min_bp: int, depth: int) -> Option<(i64, int)>
    decreases 2 * (MAX_MACRO_DEPTH + 1 - depth), toks.len() - pos, 2int,
{
    match pp_unary(m, toks, pos, depth) {
        Some((lhs, p1)) => if pos < p1 <= toks.len() {
            pp_binary(m, toks, p1, min_bp, lhs, depth)
        } else {
            None
        },
        None => None,
    }
}

/// Folds binary operators of at least `min_bp` onto `lhs`, from `pos` on.
pub open spec fn pp_binary(m: Map<Seq<char>, MacroDef>, toks: Seq<PTokV>, pos: int, min_bp: int, lhs: i64, depth: int) -> Option<(i64, int)>
    decreases 2 * (MAX_MACRO_DEPTH + 1 - depth), toks.len() - pos, 3int,
{
    if pos < 0 || pos >= toks.len() {
        Some((lhs, pos))
    } else {
        match toks[pos] {
            PTokV::Op(op) => match binding_power(op) {
                Some(bp) => if bp < min_bp {
                    Some((lhs, pos))
                } else {
                    match pp_expr(m, toks, pos + 1, bp + 1, depth) {
                        Some((rhs, p2)) => match apply_op(op, lhs, rhs) {
                            Some(v) => if pos < p2 <= toks.len() {
                                pp_binary(m, toks, p2, min_bp, v, depth)
                            } else {
                                None
                            },
                            None => None,
                        },
                        None => None,
                    }
                },
                None => Some((lhs, pos)),
            },
            _ => Some((lhs, pos)),
        }
    }
}

/// An identifier that names no macro evaluates to 0.
pub proof fn law_undefined_identifier_is_zero(m: Map<Seq<char>, MacroDef>, w: Seq<char>, depth: int)
    requires
        0 <= depth <= MAX_MACRO_DEPTH,
        w != "defined"@,
        !m.contains_key(w),
    ensures
        pp_expr(m, seq![PTokV::Id(w)], 0, 0, depth) == Some((0i64, 1int)),
{
    let toks = seq![PTokV::Id(w)];
    assert(pp_unary(m, toks, 0, depth) == Some((0i64, 1int)));
    assert(pp_binary(m, toks, 1, 0, 0, depth) == Some((0i64, 1int)));
}

/// `defined(NAME)` is 1 when NAME is a macro and 0 otherwise.
pub proof fn law_defined_tests_the_table(m: Map<Seq<char>, MacroDef>, name: Seq<char>, depth: int)
    requires
        0 <= depth <= MAX_MACRO_DEPTH,
    ensures
        pp_expr(m, seq![PTokV::Id("defined"@), PTokV::Op(PpOp::LParen), PTokV::Id(name), PTokV::Op(PpOp::RParen)], 0, 0, depth)
            == Some((b2i(m.contains_key(name)), 4int)),
{
    let toks = seq![PTokV::Id("defined"@), PTokV::Op(PpOp::LParen), PTokV::Id(name), PTokV::Op(PpOp::RParen)];
    assert(pp_unary(m, toks, 0, depth) == Some((b2i(m.contains_key(name)), 4int)));
    assert(pp_binary(m, toks, 4, 0, b2i(m.contains_key(name)), depth) == Some((b2i(m.contains_key(name)), 4int)));
}

fn copy_all(v: &Vec<char>) -> (r: Vec<char>)
    ensures
        r@ == v@,
{
    let r = copy_range(v.as_slice(), 0, v.len());
    assert(v@.subrange(0, v@.len() as int) =~= v@);
    r
}

fn clone_tok(t: &PTok) -> (r: PTok)
    ensures
        ptok_view(r) == ptok_view(*t),
{
    match t {
        PTok::Num(n) => PTok::Num(*n),
        PTok::Id(s) => PTok::Id(copy_all(s)),
        PTok::Op(o) => PTok::Op(*o),
    }
}

fn is_defined_word(id: &[char]) -> (r: bool)
    ensures
        r == (id@ == "defined"@),
{
    let d = crate::text::chars_of("defined");
    chars_eq(id, d.as_slice())
}

fn op_eval(op: PpOp, lhs: i64, rhs: i64) -> (r: Option<i64>)
    ensures
        r == apply_op(op, lhs, rhs),
{
    match op {
        PpOp::OrOr => Some(if lhs != 0 || rhs != 0 { 1 } else { 0 }),
        PpOp::AndAnd => Some(if lhs != 0 && rhs != 0 { 1 } else { 0 }),
        PpOp::Pipe => Some(lhs | rhs),
        PpOp::Caret => Some(lhs ^ rhs),
        PpOp::Amp => Some(lhs & rhs),
        PpOp::EqEq => Some(if lhs == rhs { 1 } else { 0 }),
        PpOp::Ne => Some(if lhs != rhs { 1 } else { 0 }),
        PpOp::Lt => Some(if lhs < rhs { 1 } else { 0 }),
        PpOp::Gt => Some(if lhs > rhs { 1 } else { 0 }),
        PpOp::Le => Some(if lhs <= rhs { 1 } else { 0 }),
        PpOp::Ge => Some(if lhs >= rhs { 1 } else { 0 }),
        PpOp::Shl => Some(lhs.wrapping_shl(rhs as u32)),
        PpOp::Shr => Some(lhs.wrapping_shr(rhs as u32)),
        PpOp::Plus => Some(lhs.wrapping_add(rhs)),
        PpOp::Minus => Some(lhs.wrapping_sub(rhs)),
        PpOp::Star => Some(lhs.wrapping_mul(rhs)),
        PpOp::Slash => lhs.checked_div(rhs),
        PpOp::Percent => lhs.checked_rem(rhs),
        _ => None,
    }
}

fn bp_of(op: PpOp) -> (r: Option<u8>)
    ensures
        r matches Some(b) ==> binding_power(op) == Some(b as int),
        r is None ==> binding_power(op) is None,
{
    match op {
        PpOp::OrOr => Some(1),
        PpOp::AndAnd => Some(2),
        PpOp::Pipe => Some(3),
        PpOp::Caret => Some(4),
        PpOp::Amp => Some(5),
        PpOp::EqEq | PpOp::Ne => Some(6),
        PpOp::Lt | PpOp::Gt | PpOp::Le | PpOp::Ge => Some(7),
        PpOp::Shl | PpOp::Shr => Some(8),
        PpOp::Plus | PpOp::Minus => Some(9),
        PpOp::Star | PpOp::Slash | PpOp::Percent => Some(10),
        _ => None,
    }
}

/// Evaluates `#if` expression text with the macros currently defined.
pub fn eval_pp_expr(macros: &Vec<(Vec<char>, Option<Macro>)>, s: &[char], depth: usize) -> (r: Option<i64>)
    ensures
        r == pp_eval(macro_map(macros@), s@, depth as int),
    decreases 2 * (MAX_MACRO_DEPTH + 1 - depth) + 1, 0int, 0int,
{
    if depth > MAX_MACRO_DEPTH {
        return None;
    }
    let toks = match pp_lex(s) {
        Some(t) => t,
        None => return None,
    };
    let ghost tv = ptoks_view(toks@);
    let mut p = PpParser { toks, pos: 0, macros, depth };
    let v = match p.expr(0) {
        Some(v) => v,
        None => return None,
    };
    if p.pos == p.toks.len() {
        Some(v)
    } else {
        None
    }
}

pub struct PpParser<'a> {
    pub toks: Vec<PTok>,
    pub pos: usize,
    pub macros: &'a Vec<(Vec<char>, Option<Macro>)>,
    pub depth: usize,
}

impl<'a> PpParser<'a> {
    pub open spec fn tv(&self) -> Seq<PTokV> {
        ptoks_view(self.toks@)
    }

    pub open spec fn mm(&self) -> Map<Seq<char>, MacroDef> {
        macro_map(self.macros@)
    }

    pub open spec fn same_input(&self, other: &Self) -> bool {
        &&& other.toks@ == self.toks@
        &&& other.macros == self.macros
        &&& other.depth == self.depth
    }

    fn peek_op(&self) -> (r: Option<PpOp>)
        ensures
            r matches Some(o) ==> self.pos < self.toks@.len() && self.pos < self.toks.len() && self.tv()[self.pos as int] == PTokV::Op(o),
            r is None ==> !(self.pos < self.tv().len() && self.tv()[self.pos as int] is Op),
    {
        if self.pos < self.toks.len() {
            match &self.toks[self.pos] {
                PTok::Op(o) => Some(*o),
                _ => None,
            }
        } else {
            None
        }
    }

    fn unary(&mut self) -> (r: Option<i64>)
        requires
            old(self).depth <= MAX_MACRO_DEPTH,
            old(self).pos <= old(self).toks@.len(),
        ensures
            old(self).same_input(final(self)),
            r matches Some(v) ==> pp_unary(old(self).mm(), old(self).tv(), old(self).pos as int, old(self).depth as int)
                == Some((v, final(self).pos as int))
                && old(self).pos < final(self).pos <= final(self).toks@.len(),
            r is None ==> pp_unary(old(self).mm(), old(self).tv(), old(self).pos as int, old(self).depth as int) is None,
        decreases 2 * (MAX_MACRO_DEPTH + 1 - old(self).depth), old(self).toks@.len() - old(self).pos, 1int,
    {
        if self.pos >= self.toks.len() {
            return None;
        }
        let t = clone_tok(&self.toks[self.pos]);
        let ghost tv = self.tv();
        let ghost pos0 = self.pos as int;
        assert(tv[pos0] == ptok_view(self.toks@[pos0]));
        self.pos += 1;
        match t {
            PTok::Num(n) => Some(n),
            PTok::Id(id) => {
                if is_defined_word(id.as_slice()) {
                    let parens = self.peek_op() == Some(PpOp::LParen);
                    if parens {
                        self.pos += 1;
                    }
                    if self.pos >= self.toks.len() {
                        return None;
                    }
                    let name = match &self.toks[self.pos] {
                        PTok::Id(n) => copy_all(n),
                        _ => return None,
                    };
                    assert(tv[self.pos as int] == PTokV::Id(name@));
                    self.pos += 1;
                    if parens {
                        if self.peek_op() != Some(PpOp::RParen) {
                            return None;
                        }
                        self.pos += 1;
                    }
                    let defined = find_macro(self.macros, name.as_slice()).is_some();
                    return Some(if defined { 1 } else { 0 });
                }
                match find_macro(self.macros, id.as_slice()) {
                    Some(Macro::Object(body)) => {
                        match eval_pp_expr(self.macros, body.as_slice(), self.depth + 1) {
                            Some(v) => Some(v),
                            None => Some(0),
                        }
                    },
                    _ => Some(0),
                }
            },
            PTok::Op(o) => {
                match o {
                    PpOp::Bang => {
                        let v = self.unary()?;
                        Some(if v == 0 { 1 } else { 0 })
                    },
                    PpOp::Tilde => {
                        let v = self.unary()?;
                        Some(!v)
                    },
                    PpOp::Minus => {
                        let v = self.unary()?;
                        Some(0i64.wrapping_sub(v))
                    },
                    PpOp::Plus => self.unary(),
                    PpOp::LParen => {
                        let v = self.expr(0)?;
                        if self.peek_op() != Some(PpOp::RParen) {
                            return None;
                        }
                        self.pos += 1;
                        Some(v)
                    },
                    _ => None,
                }
            },
        }
    }

    fn expr(&mut self, min_bp: u8) -> (r: Option<i64>)
        requires
            old(self).depth <= MAX_MACRO_DEPTH,
            old(self).pos <= old(self).toks@.len(),
        ensures
            old(self).same_input(final(self)),
            r matches Some(v) ==> pp_expr(old(self).mm(), old(self).tv(), old(self).pos as int, min_bp as int, old(self).depth as int)
                == Some((v, final(self).pos as int))
                && old(self).pos < final(self).pos <= final(self).toks@.len(),
            r is None ==> pp_expr(old(self).mm(), old(self).tv(), old(self).pos as int, min_bp as int, old(self).depth as int) is None,
        decreases 2 * (MAX_MACRO_DEPTH + 1 - old(self).depth), old(self).toks@.len() - old(self).pos, 2int,
    {
        let ghost m = self.mm();
        let ghost tv = self.tv();
        let ghost pos0 = self.pos as int;
        let mut lhs = self.unary()?;
        loop
            invariant
                old(self).same_input(self),
                m == self.mm(),
                tv == self.tv(),
                m == old(self).mm(),
                tv == old(self).tv(),
                pos0 == old(self).pos as int,
                self.depth <= MAX_MACRO_DEPTH,
                pos0 < self.pos <= self.toks@.len(),
                pp_expr(m, tv, pos0, min_bp as int, self.depth as int)
                    == pp_binary(m, tv, self.pos as int, min_bp as int, lhs, self.depth as int),
            decreases self.toks@.len() - self.pos,
        {
            let op = match self.peek_op() {
                Some(op) => op,
                None => {
                    assert(pp_binary(m, tv, self.pos as int, min_bp as int, lhs, self.depth as int) == Some((lhs, self.pos as int)));
                    return Some(lhs);
                },
            };
            let bp = match bp_of(op) {
                Some(b) => b,
                None => {
                    assert(pp_binary(m, tv, self.pos as int, min_bp as int, lhs, self.depth as int) == Some((lhs, self.pos as int)));
                    return Some(lhs);
                },
            };
            if bp < min_bp {
                return Some(lhs);
            }
            let ghost before = self.pos as int;
            self.pos += 1;
            let rhs = match self.expr(bp + 1) {
                Some(v) => v,
                None => return None,
            };
            lhs = match op_eval(op, lhs, rhs) {
                Some(v) => v,
                None => return None,
            };
            assert(before < self.pos);
        }
    }
}

// ---------------------------------------------------------------------------
// Laws of operator grouping
// ---------------------------------------------------------------------------

/// Binary operators of equal precedence group to the left: `a op1 b op2 c`
/// is `(a op1 b) op2 c`.
pub proof fn law_equal_precedence_groups_left(m: Map<Seq<char>, MacroDef>, a: i64, b: i64, c: i64,
    op1: PpOp, op2: PpOp, x: i64, y: i64, depth: int)
    requires
        0 <= depth <= MAX_MACRO_DEPTH,
        binding_power(op1) is Some,
        binding_power(op1) == binding_power(op2),
        apply_op(op1, a, b) == Some(x),
        apply_op(op2, x, c) == Some(y),
    ensures
        pp_expr(m, seq![PTokV::Num(a), PTokV::Op(op1), PTokV::Num(b), PTokV::Op(op2), PTokV::Num(c)], 0, 0, depth)
            == Some((y, 5int)),
{
    let toks = seq![PTokV::Num(a), PTokV::Op(op1), PTokV::Num(b), PTokV::Op(op2), PTokV::Num(c)];
    let bp = binding_power(op1)->0;
    assert(bp >= 1);
    assert(pp_unary(m, toks, 4, depth) == Some((c, 5int)));
    assert(pp_binary(m, toks, 5, bp + 1, c, depth) == Some((c, 5int)));
    assert(pp_expr(m, toks, 4, bp + 1, depth) == Some((c, 5int)));
    assert(pp_binary(m, toks, 5, 0, y, depth) == Some((y, 5int)));
    assert(pp_binary(m, toks, 3, 0, x, depth) == Some((y, 5int)));
    assert(pp_unary(m, toks, 2, depth) == Some((b, 3int)));
    assert(pp_binary(m, toks, 3, bp + 1, b, depth) == Some((b, 3int)));
    assert(pp_expr(m, toks, 2, bp + 1, depth) == Some((b, 3int)));
    assert(pp_binary(m, toks, 1, 0, a, depth) == Some((y, 5int)));
    assert(pp_unary(m, toks, 0, depth) == Some((a, 1int)));
}

/// Subtraction groups to the left: `a - b - c` is `(a - b) - c`.
pub proof fn law_subtraction_groups_left(m: Map<Seq<char>, MacroDef>, a: i64, b: i64, c: i64, depth: int)
    requires
        0 <= depth <= MAX_MACRO_DEPTH,
        i64::MIN <= a - b <= i64::MAX,
        i64::MIN <= a - b - c <= i64::MAX,
    ensures
        pp_expr(m, seq![PTokV::Num(a), PTokV::Op(PpOp::Minus), PTokV::Num(b), PTokV::Op(PpOp::Minus), PTokV::Num(c)], 0, 0, depth)
            == Some(((a - b - c) as i64, 5int)),
{
    let x = a.wrapping_sub(b);
    let y = x.wrapping_sub(c);
    assert(x == a - b);
    assert(y == a - b - c);
    law_equal_precedence_groups_left(m, a, b, c, PpOp::Minus, PpOp::Minus, x, y, depth);
}

/// An operator of higher precedence binds tighter: `a op1 b op2 c` with
/// `op2` binding tighter than `op1` is `a op1 (b op2 c)`.
pub proof fn law_higher_precedence_binds_tighter(m: Map<Seq<char>, MacroDef>, a: i64, b: i64, c: i64,
    op1: PpOp, op2: PpOp, x: i64, y: i64, depth: int)
    requires
        0 <= depth <= MAX_MACRO_DEPTH,
        binding_power(op1) is Some,
        binding_power(op2) is Some,
        binding_power(op1)->0 < binding_power(op2)->0,
        apply_op(op2, b, c) == Some(x),
        apply_op(op1, a, x) == Some(y),
    ensures
        pp_expr(m, seq![PTokV::Num(a), PTokV::Op(op1), PTokV::Num(b), PTokV::Op(op2), PTokV::Num(c)], 0, 0, depth)
            == Some((y, 5int)),
{
    let toks = seq![PTokV::Num(a), PTokV::Op(op1), PTokV::Num(b), PTokV::Op(op2), PTokV::Num(c)];
    let bp1 = binding_power(op1)->0;
    let bp2 = binding_power(op2)->0;
    assert(bp1 >= 1);
    assert(pp_unary(m, toks, 4, depth) == Some((c, 5int)));
    assert(pp_binary(m, toks, 5, bp2 + 1, c, depth) == Some((c, 5int)));
    assert(pp_expr(m, toks, 4, bp2 + 1, depth) == Some((c, 5int)));
    assert(pp_binary(m, toks, 5, bp1 + 1, x, depth) == Some((x, 5int)));
    assert(pp_binary(m, toks, 3, bp1 + 1, b, depth) == Some((x, 5int)));
    assert(pp_unary(m, toks, 2, depth) == Some((b, 3int)));
    assert(pp_expr(m, toks, 2, bp1 + 1, depth) == Some((x, 5int)));
    assert(pp_binary(m, toks, 5, 0, y, depth) == Some((y, 5int)));
    assert(pp_binary(m, toks, 1, 0, a, depth) == Some((y, 5int)));
    assert(pp_unary(m, toks, 0, depth) == Some((a, 1int)));
}

} // verus!
