//! The device tree source lexer with its C-preprocessor subset.
//!
//! The lexer inlines `/include/` and `#include` files into one token stream,
//! tagging every token with its (file, line) origin and recording include
//! edges. The preprocessor handles `#define`/`#undef` (object- and
//! function-like macros), `#if(def)`/`#elif`/`#else`/`#endif`, and include
//! guards.
//!
//! Files are not read here: the lexer works from a table of answers about
//! paths (is it a file, its canonical name, its text). When it meets a path
//! the table does not answer, it stops and names that path; the caller adds
//! the answer and starts again.
use vstd::prelude::*;
use crate::model::IncludeEdge;
use crate::dtb::{lossy_string, utf8_lossy};
use crate::pp_expr::{Macro, MacroDef, macro_map, macro_def, find_macro, eval_pp_expr, pp_eval, MAX_MACRO_DEPTH};
use crate::text::{chars_of, chars_eq, string_of, push_char, push_chars, push_dec, dec_str,
    is_whitespace, is_ascii_alpha, is_ascii_alnum, is_ascii_digit, is_ascii_hexdigit, is_ascii_lower,
    spec_is_whitespace, spec_is_ascii_alpha};

verus! {

// ---------------------------------------------------------------------------
// Tokens
// ---------------------------------------------------------------------------

#[derive(Debug, Clone, Copy, PartialEq, Eq, Structural)]
pub enum TokKind {
    Ident,
    Num,
    Str,
    CharLit,
    /// `/keyword/` such as /dts-v1/, /delete-node/, /bits/ ...
    SlashKw,
    /// `&{/full/path}` reference; text keeps the full `&{...}` form.
    PathRef,
    Punct,
}

#[derive(Debug)]
pub struct Tok {
    pub kind: TokKind,
    pub text: Vec<char>,
    /// Index into the lexer's file list.
    pub file: usize,
    pub line: u32,
    /// True when there was no whitespace between this token and the previous
    /// one. Used to glue multi-token names (`cpu@0`, `#size-cells`) back
    /// together and to reconstruct value text with faithful spacing.
    pub glued: bool,
}

impl Tok {
    pub open spec fn spec_is_punct(&self, c: char) -> bool {
        self.kind == TokKind::Punct && self.text@ == seq![c]
    }

    pub fn is_punct(&self, c: char) -> (r: bool)
        ensures
            r == self.spec_is_punct(c),
    {
        if self.kind == TokKind::Punct && self.text.len() == 1 && self.text[0] == c {
            assert(self.text@ =~= seq![c]);
            true
        } else {
            false
        }
    }
}

// ---------------------------------------------------------------------------
// Answers about paths
// ---------------------------------------------------------------------------

/// A file that could be opened: its canonical display path, the directory
/// it lies in, and its bytes (or why they could not be read).
pub struct OpenedFile {
    pub canon: String,
    pub dir: String,
    pub text: Result<Vec<u8>, String>,
}

/// What the file system says about a path.
pub struct FileAnswer {
    pub path: String,
    /// The path names a regular file.
    pub is_file: bool,
    /// Canonicalizing the path, or why that failed.
    pub opened: Result<OpenedFile, String>,
}

/// Why lexing stopped.
pub enum LexStop {
    /// The main file cannot be opened or read.
    Fatal(String),
    /// The answer table says nothing about this path.
    Need(String),
}

/// The table answers `p`.
pub open spec fn answered(fs: Seq<FileAnswer>, p: Seq<char>) -> bool {
    exists|i: int| 0 <= i < fs.len() && fs[i].path@ == p
}

/// A stop for want of an answer names a path the table does not answer.
pub open spec fn need_ok<T>(fs: Seq<FileAnswer>, r: Result<T, LexStop>) -> bool {
    r matches Err(LexStop::Need(p)) ==> !answered(fs, p@)
}

/// The answer is an opened file with canonical path `c`.
pub open spec fn opens_as(a: FileAnswer, c: Seq<char>) -> bool {
    a.opened matches Ok(o) && o.canon@ == c
}

pub open spec fn stack_has(stack: Seq<String>, c: Seq<char>) -> bool {
    exists|k: int| 0 <= k < stack.len() && stack[k]@ == c
}

/// The answers of opened files whose canonical path is not on `stack`.
pub open spec fn unvisited(fs: Seq<FileAnswer>, stack: Seq<String>) -> nat
    decreases fs.len(),
{
    if fs.len() == 0 {
        0
    } else {
        unvisited(fs.drop_last(), stack) + (match fs.last().opened {
            Ok(o) => if stack_has(stack, o.canon@) { 0nat } else { 1nat },
            Err(_) => 0nat,
        })
    }
}

pub proof fn lemma_unvisited_push(fs: Seq<FileAnswer>, stack: Seq<String>, s: String)
    ensures
        unvisited(fs, stack.push(s)) <= unvisited(fs, stack),
        (exists|i: int| 0 <= i < fs.len() && opens_as(fs[i], s@))
            && !stack_has(stack, s@) ==> unvisited(fs, stack.push(s)) < unvisited(fs, stack),
    decreases fs.len(),
{
    if fs.len() > 0 {
        lemma_unvisited_push(fs.drop_last(), stack, s);
        let t = stack.push(s);
        match fs.last().opened {
            Ok(o) => {
                if stack_has(stack, o.canon@) {
                    let k = choose|k: int| 0 <= k < stack.len() && stack[k]@ == o.canon@;
                    assert(t[k]@ == o.canon@);
                }
            },
            Err(_) => {},
        }
        if (exists|i: int| 0 <= i < fs.len() && opens_as(fs[i], s@)) && !stack_has(stack, s@) {
            let i = choose|i: int| 0 <= i < fs.len() && opens_as(fs[i], s@);
            if i < fs.len() - 1 {
                assert(fs.drop_last()[i] == fs[i]);
            } else {
                assert(t[stack.len() as int]@ == s@);
            }
        }
    }
}

/// `i` is the first answer the table gives for `p`.
pub open spec fn first_answer(fs: Seq<FileAnswer>, p: Seq<char>, i: int) -> bool {
    &&& 0 <= i < fs.len()
    &&& fs[i].path@ == p
    &&& forall|j: int| 0 <= j < i ==> fs[j].path@ != p
}

/// What lexing the main file `path` gives when the table answers it: the
/// exact failure when it cannot be opened or read, and otherwise no
/// failure of its own, with its canonical path listed first.
pub open spec fn main_outcome(fs: Seq<FileAnswer>, path: Seq<char>, old: LexCtx, new: LexCtx, r: Result<(), LexStop>) -> bool {
    forall|i: int| first_answer(fs, path, i) ==> match fs[i].opened {
        Err(e) => r matches Err(LexStop::Fatal(m)) && m@ == "cannot open "@ + path + ": "@ + e@,
        Ok(o) => match o.text {
            Err(e) => r matches Err(LexStop::Fatal(m)) && m@ == "cannot read "@ + o.canon@ + ": "@ + e@,
            Ok(_) => {
                &&& !(r matches Err(LexStop::Fatal(_)))
                &&& r is Ok && old.files@.len() == 0 ==> new.files@.len() > 0 && new.files@[0]@ == o.canon@
            },
        },
    }
}

/// Position of the first answer for `path`.
pub fn find_answer(fs: &[FileAnswer], path: &String) -> (r: Option<usize>)
    ensures
        r matches Some(i) ==> i < fs@.len() && fs@[i as int].path@ == path@
            && forall|j: int| 0 <= j < i ==> fs@[j].path@ != path@,
        r is None ==> !answered(fs@, path@),
{
    let mut i: usize = 0;
    while i < fs.len()
        invariant
            0 <= i <= fs@.len(),
            forall|j: int| 0 <= j < i ==> fs@[j].path@ != path@,
        decreases fs@.len() - i,
    {
        if fs[i].path == *path {
            return Some(i);
        }
        i += 1;
    }
    None
}

/// What `Path::join` makes of a directory and a relative (or absolute) path.
pub uninterp spec fn joined_path(dir: Seq<char>, rel: Seq<char>) -> Seq<char>;

/// `Path::new(dir).join(rel)`, displayed.
#[verifier::external_body]
fn join_path(dir: &str, rel: &str) -> (r: String)
    ensures
        r@ == joined_path(dir@, rel@),
{
    std::path::Path::new(dir).join(rel).display().to_string()
}

// ---------------------------------------------------------------------------
// Lexer context
// ---------------------------------------------------------------------------

pub struct LexCtx {
    pub include_dirs: Vec<String>,
    /// `#define` (Some) and `#undef` (None) entries in order.
    pub macros: Vec<(Vec<char>, Option<Macro>)>,
    /// Include stack (canonical paths) for cycle detection.
    pub stack: Vec<String>,
    /// Display paths of every visited file; token `file` indexes this.
    pub files: Vec<String>,
    pub edges: Vec<IncludeEdge>,
    pub warnings: Vec<String>,
    pub toks: Vec<Tok>,
}

pub open spec fn files_contain(files: Seq<String>, s: Seq<char>) -> bool {
    exists|k: int| 0 <= k < files.len() && files[k]@ == s
}

/// Every token names a known file, every edge joins known files, and no
/// file is listed twice.
pub open spec fn lex_wf(ctx: LexCtx) -> bool {
    &&& forall|i: int| 0 <= i < ctx.edges@.len() ==> files_contain(ctx.files@, (#[trigger] ctx.edges@[i]).from@)
        && files_contain(ctx.files@, ctx.edges@[i].to@)
    &&& forall|i: int, j: int| 0 <= i < j < ctx.files@.len() ==> ctx.files@[i]@ != ctx.files@[j]@
}

/// Every include edge was made by `/include/` or `#include`.
pub open spec fn edge_words(ctx: LexCtx) -> bool {
    forall|i: int| 0 <= i < ctx.edges@.len() ==> is_include_word((#[trigger] ctx.edges@[i]).directive@)
}

/// The words an include directive is recorded with.
pub open spec fn is_include_word(d: Seq<char>) -> bool {
    d == "/include/"@ || d == "#include"@
}

/// `new` extends `old`: files, edges, warnings and tokens are only appended
/// to, and the include directories stay.
pub open spec fn lex_grows(old: LexCtx, new: LexCtx) -> bool {
    &&& old.files@.is_prefix_of(new.files@)
    &&& old.edges@.is_prefix_of(new.edges@)
    &&& old.warnings@.is_prefix_of(new.warnings@)
    &&& old.toks@.len() <= new.toks@.len()
    &&& forall|i: int| 0 <= i < old.toks@.len() ==> new.toks@[i] == old.toks@[i]
    &&& new.include_dirs@ == old.include_dirs@
}

pub proof fn lemma_grows_trans(a: LexCtx, b: LexCtx, c: LexCtx)
    requires
        lex_grows(a, b),
        lex_grows(b, c),
    ensures
        lex_grows(a, c),
{
    assert(a.toks@.len() <= c.toks@.len());
    assert forall|i: int| 0 <= i < a.toks@.len() implies c.toks@[i] == a.toks@[i] by {
        assert(c.toks@[i] == b.toks@[i]);
    }
}

/// `file:line: msg`, `?` for an unknown file.
pub open spec fn warn_text(files: Seq<String>, fidx: int, line: u32, msg: Seq<char>) -> Seq<char> {
    (if 0 <= fidx < files.len() { files[fidx]@ } else { "?"@ }) + seq![':'] + dec_str(line as nat) + ": "@ + msg
}

fn copy_string(s: &String) -> (r: String)
    ensures
        r@ == s@,
{
    s.clone()
}

impl LexCtx {
    pub fn new(include_dirs: &[String]) -> (r: LexCtx)
        ensures
            r.include_dirs@.len() == include_dirs@.len(),
            forall|i: int| 0 <= i < include_dirs@.len() ==> r.include_dirs@[i]@ == include_dirs@[i]@,
            r.macros@.len() == 0,
            r.stack@.len() == 0,
            r.files@.len() == 0,
            r.edges@.len() == 0,
            r.warnings@.len() == 0,
            r.toks@.len() == 0,
            lex_wf(r),
    {
        let mut dirs: Vec<String> = Vec::new();
        let mut i: usize = 0;
        while i < include_dirs.len()
            invariant
                0 <= i <= include_dirs@.len(),
                dirs@.len() == i,
                forall|k: int| 0 <= k < i ==> dirs@[k]@ == include_dirs@[k]@,
            decreases include_dirs@.len() - i,
        {
            dirs.push(copy_string(&include_dirs[i]));
            i += 1;
        }
        LexCtx {
            include_dirs: dirs,
            macros: Vec::new(),
            stack: Vec::new(),
            files: Vec::new(),
            edges: Vec::new(),
            warnings: Vec::new(),
            toks: Vec::new(),
        }
    }

    /// Index of `display` in the file list, added if new.
    pub fn intern(&mut self, display: &String) -> (r: usize)
        requires
            lex_wf(*old(self)),
        ensures
            lex_wf(*final(self)),
            lex_grows(*old(self), *final(self)),
            r < final(self).files@.len(),
            final(self).files@[r as int]@ == display@,
            files_contain(old(self).files@, display@) ==> final(self).files@ == old(self).files@,
            !files_contain(old(self).files@, display@) ==> final(self).files@.len() == old(self).files@.len() + 1
                && final(self).files@.drop_last() == old(self).files@,
            final(self).macros == old(self).macros,
            final(self).stack == old(self).stack,
            final(self).toks == old(self).toks,
            final(self).edges == old(self).edges,
            final(self).warnings == old(self).warnings,
            (lex_view(*final(self)), r as int) == interned(lex_view(*old(self)), display@),
    {
        reveal(lex_view);
        let ghost v0 = lex_view(*self);
        let mut i: usize = 0;
        while i < self.files.len()
            invariant
                0 <= i <= self.files@.len(),
                v0 == lex_view(*old(self)),
                *self == *old(self),
                lex_wf(*old(self)),
                forall|j: int| 0 <= j < i ==> self.files@[j]@ != display@,
            decreases self.files@.len() - i,
        {
            if self.files[i] == *display {
                proof {
                    reveal(lex_view);
                    assert(v0.files[i as int] == display@);
                    assert(v0.files.contains(display@));
                    let k = choose|k: int| 0 <= k < v0.files.len() && v0.files[k] == display@;
                    if k != i {
                        if k < i {
                            assert(self.files@[k]@ != self.files@[i as int]@);
                        } else {
                            assert(self.files@[i as int]@ != self.files@[k]@);
                        }
                    }
                }
                return i;
            }
            i += 1;
        }
        assert(!files_contain(self.files@, display@));
        proof {
            if v0.files.contains(display@) {
                let k = choose|k: int| 0 <= k < v0.files.len() && v0.files[k] == display@;
                assert(self.files@[k]@ == display@);
            }
        }
        self.files.push(copy_string(display));
        assert(string_views(self.files@) =~= v0.files.push(display@));
        assert(old(self).files@.is_prefix_of(self.files@));
        assert(self.files@.drop_last() =~= old(self).files@);
        assert forall|k: int| 0 <= k < self.edges@.len() implies files_contain(self.files@, (#[trigger] self.edges@[k]).from@)
            && files_contain(self.files@, self.edges@[k].to@) by {
            let a = choose|a: int| 0 <= a < old(self).files@.len() && old(self).files@[a]@ == self.edges@[k].from@;
            assert(self.files@[a] == old(self).files@[a]);
            let b = choose|b: int| 0 <= b < old(self).files@.len() && old(self).files@[b]@ == self.edges@[k].to@;
            assert(self.files@[b] == old(self).files@[b]);
        }
        self.files.len() - 1
    }

    pub fn warn(&mut self, fidx: usize, line: u32, msg: String)
        requires
            lex_wf(*old(self)),
        ensures
            lex_wf(*final(self)),
            lex_grows(*old(self), *final(self)),
            final(self).warnings@.len() == old(self).warnings@.len() + 1,
            final(self).warnings@.last()@ == warn_text(old(self).files@, fidx as int, line, msg@),
            final(self).macros == old(self).macros,
            final(self).stack == old(self).stack,
            final(self).files == old(self).files,
            final(self).toks == old(self).toks,
            final(self).edges == old(self).edges,
            lex_view(*final(self)) == warned(lex_view(*old(self)), fidx as int, line, msg@),
    {
        reveal(lex_view);
        let ghost v0 = lex_view(*self);
        let mut w = if fidx < self.files.len() {
            self.files[fidx].clone()
        } else {
            String::from_str("?")
        };
        push_char(&mut w, ':');
        push_dec(&mut w, line as u64);
        w.append(": ");
        w.append(msg.as_str());
        let ghost wv = w@;
        self.warnings.push(w);
        assert(old(self).warnings@.is_prefix_of(self.warnings@));
        proof {
            assert(warn_text(self.files@, fidx as int, line, msg@) == warn_line(v0.files, fidx as int, line, msg@));
            assert(string_views(self.warnings@) =~= v0.warnings.push(wv));
        }
    }
}


// ---------------------------------------------------------------------------
// Lines and directives
// ---------------------------------------------------------------------------

/// A line without its `\r` before the `\n`.
pub open spec fn strip_cr(l: Seq<char>) -> Seq<char> {
    if l.len() > 0 && l.last() == '\r' { l.drop_last() } else { l }
}

/// `str::lines` from position `i`, `cur` the line read so far: split at
/// `\n` (dropping a `\r` before it); no empty line after a final `\n`.
pub open spec fn lines_from(t: Seq<char>, i: int, cur: Seq<char>) -> Seq<Seq<char>>
    decreases t.len() - i,
{
    if i < 0 || i >= t.len() {
        if cur.len() > 0 { seq![cur] } else { Seq::empty() }
    } else if t[i] == '\n' {
        seq![strip_cr(cur)] + lines_from(t, i + 1, Seq::empty())
    } else {
        lines_from(t, i + 1, cur.push(t[i]))
    }
}

pub open spec fn text_lines(t: Seq<char>) -> Seq<Seq<char>> {
    lines_from(t, 0, Seq::empty())
}

pub fn split_lines(t: &[char]) -> (r: Vec<Vec<char>>)
    ensures
        r@.map_values(|l: Vec<char>| l@) == text_lines(t@),
{
    let mut out: Vec<Vec<char>> = Vec::new();
    let mut cur: Vec<char> = Vec::new();
    let mut i: usize = 0;
    while i < t.len()
        invariant
            0 <= i <= t@.len(),
            out@.map_values(|l: Vec<char>| l@) + lines_from(t@, i as int, cur@) == text_lines(t@),
        decreases t@.len() - i,
    {
        let ghost prev = out@.map_values(|l: Vec<char>| l@);
        if t[i] == '\n' {
            let mut line = cur;
            if line.len() > 0 && line[line.len() - 1] == '\r' {
                line.pop();
            }
            let ghost lv = line@;
            out.push(line);
            proof {
                assert(out@.map_values(|l: Vec<char>| l@) =~= prev.push(lv));
                assert(prev + (seq![lv] + lines_from(t@, i + 1, Seq::empty())) =~= prev.push(lv) + lines_from(t@, i + 1, Seq::empty()));
            }
            cur = Vec::new();
        } else {
            cur.push(t[i]);
        }
        i += 1;
    }
    if cur.len() > 0 {
        let ghost cv = cur@;
        let ghost prev = out@.map_values(|l: Vec<char>| l@);
        out.push(cur);
        assert(out@.map_values(|l: Vec<char>| l@) =~= prev + seq![cv]);
    } else {
        assert(out@.map_values(|l: Vec<char>| l@) + Seq::<Seq<char>>::empty() =~= out@.map_values(|l: Vec<char>| l@));
    }
    out
}

/// First index at or after `i` that is not whitespace.
pub open spec fn skip_ws(s: Seq<char>, i: int) -> int
    decreases s.len() - i,
{
    if 0 <= i < s.len() && spec_is_whitespace(s[i]) { skip_ws(s, i + 1) } else { i }
}

/// End of `s[..hi]` with trailing whitespace removed.
pub open spec fn trim_end_at(s: Seq<char>, hi: int) -> int
    decreases hi,
{
    if 0 < hi <= s.len() && spec_is_whitespace(s[hi - 1]) { trim_end_at(s, hi - 1) } else { hi }
}

/// First index at or after `i` that is not an ASCII letter.
pub open spec fn skip_alpha(s: Seq<char>, i: int) -> int
    decreases s.len() - i,
{
    if 0 <= i < s.len() && spec_is_ascii_alpha(s[i]) { skip_alpha(s, i + 1) } else { i }
}

pub proof fn lemma_skip_ws(s: Seq<char>, i: int)
    requires
        0 <= i <= s.len(),
    ensures
        i <= skip_ws(s, i) <= s.len(),
    decreases s.len() - i,
{
    if i < s.len() && spec_is_whitespace(s[i]) {
        lemma_skip_ws(s, i + 1);
    }
}

proof fn lemma_skip_alpha(s: Seq<char>, i: int)
    requires
        0 <= i <= s.len(),
    ensures
        i <= skip_alpha(s, i) <= s.len(),
    decreases s.len() - i,
{
    if i < s.len() && spec_is_ascii_alpha(s[i]) {
        lemma_skip_alpha(s, i + 1);
    }
}

proof fn lemma_trim_end(s: Seq<char>, hi: int)
    requires
        0 <= hi <= s.len(),
    ensures
        0 <= trim_end_at(s, hi) <= hi,
    decreases hi,
{
    if 0 < hi && spec_is_whitespace(s[hi - 1]) {
        lemma_trim_end(s, hi - 1);
    }
}

pub fn skip_whitespace(s: &[char], i: usize) -> (r: usize)
    requires
        i <= s@.len(),
    ensures
        r == skip_ws(s@, i as int),
        i <= r <= s@.len(),
{
    proof { lemma_skip_ws(s@, i as int); }
    let mut j: usize = i;
    while j < s.len() && is_whitespace(s[j])
        invariant
            i <= j <= s@.len(),
            skip_ws(s@, i as int) == skip_ws(s@, j as int),
        decreases s@.len() - j,
    {
        j += 1;
    }
    j
}

pub fn trim_end_index(s: &[char], hi: usize) -> (r: usize)
    requires
        hi <= s@.len(),
    ensures
        r == trim_end_at(s@, hi as int),
        r <= hi,
{
    proof { lemma_trim_end(s@, hi as int); }
    let mut j: usize = hi;
    while j > 0 && is_whitespace(s[j - 1])
        invariant
            j <= hi <= s@.len(),
            trim_end_at(s@, hi as int) == trim_end_at(s@, j as int),
        decreases j,
    {
        j -= 1;
    }
    j
}

/// For a line starting at `start` with `#word ...`: the bounds of `word`.
/// A word directly followed by `-` is a property name, not a directive.
pub open spec fn directive_spec(s: Seq<char>, start: int) -> Option<(int, int)> {
    if 0 <= start < s.len() && s[start] == '#' {
        let a = skip_ws(s, start + 1);
        let b = skip_alpha(s, a);
        if b == a {
            None
        } else if b < s.len() && s[b] == '-' {
            None
        } else {
            Some((a, b))
        }
    } else {
        None
    }
}

/// If the text from `start` is `#word ...`, the bounds of `word`.
pub fn directive_word(s: &[char], start: usize) -> (r: Option<(usize, usize)>)
    requires
        start <= s@.len(),
    ensures
        r matches Some((a, b)) ==> directive_spec(s@, start as int) == Some((a as int, b as int)) && start < a < b <= s@.len(),
        r is None ==> directive_spec(s@, start as int) is None,
{
    if start >= s.len() || s[start] != '#' {
        return None;
    }
    let a = skip_whitespace(s, start + 1);
    proof { lemma_skip_alpha(s@, a as int); }
    let mut b: usize = a;
    while b < s.len() && is_ascii_alpha(s[b])
        invariant
            a <= b <= s@.len(),
            skip_alpha(s@, a as int) == skip_alpha(s@, b as int),
        decreases s@.len() - b,
    {
        b += 1;
    }
    if b == a {
        return None;
    }
    if b < s.len() && s[b] == '-' {
        return None;
    }
    Some((a, b))
}

pub open spec fn is_pp_keyword(w: Seq<char>) -> bool {
    w == "include"@ || w == "define"@ || w == "undef"@ || w == "if"@ || w == "ifdef"@ || w == "ifndef"@
        || w == "elif"@ || w == "else"@ || w == "endif"@ || w == "error"@ || w == "warning"@
        || w == "pragma"@ || w == "line"@
}

pub fn word_is(w: &[char], lit: &str) -> (r: bool)
    ensures
        r == (w@ == lit@),
{
    let l = chars_of(lit);
    chars_eq(w, l.as_slice())
}

fn pp_keyword(w: &[char]) -> (r: bool)
    ensures
        r == is_pp_keyword(w@),
{
    word_is(w, "include") || word_is(w, "define") || word_is(w, "undef") || word_is(w, "if")
        || word_is(w, "ifdef") || word_is(w, "ifndef") || word_is(w, "elif") || word_is(w, "else")
        || word_is(w, "endif") || word_is(w, "error") || word_is(w, "warning") || word_is(w, "pragma")
        || word_is(w, "line")
}

pub fn copy_chars(cs: &[char], lo: usize, hi: usize) -> (r: Vec<char>)
    requires
        lo <= hi <= cs@.len(),
    ensures
        r@ == cs@.subrange(lo as int, hi as int),
{
    let mut v: Vec<char> = Vec::new();
    let mut k: usize = lo;
    while k < hi
        invariant
            lo <= k <= hi <= cs@.len(),
            v@ == cs@.subrange(lo as int, k as int),
        decreases hi - k,
    {
        v.push(cs[k]);
        assert(v@ =~= cs@.subrange(lo as int, k + 1));
        k += 1;
    }
    v
}

// ---------------------------------------------------------------------------
// Include resolution
// ---------------------------------------------------------------------------

/// The candidate paths for an include spec, in search order: the including
/// file's directory first (quoted form only), then each include directory.
pub open spec fn include_candidates(cur_dir: Seq<char>, dirs: Seq<Seq<char>>, spec: Seq<char>, angled: bool) -> Seq<Seq<char>> {
    (if angled { Seq::empty() } else { seq![joined_path(cur_dir, spec)] })
        + dirs.map_values(|d: Seq<char>| joined_path(d, spec))
}

/// The table says `p` is a file.
pub open spec fn says_file(fs: Seq<FileAnswer>, p: Seq<char>) -> bool {
    exists|i: int| 0 <= i < fs.len() && fs[i].path@ == p && fs[i].is_file
        && forall|j: int| 0 <= j < i ==> fs[j].path@ != p
}

/// Searching candidates from the `k`-th: the first one the table says is a
/// file, none when no candidate is, or the first candidate the table does
/// not answer.
pub open spec fn include_search(fs: Seq<FileAnswer>, cands: Seq<Seq<char>>, k: int) -> Result<Option<Seq<char>>, Seq<char>>
    decreases cands.len() - k,
{
    if k < 0 || k >= cands.len() {
        Ok(None)
    } else if !answered(fs, cands[k]) {
        Err(cands[k])
    } else if says_file(fs, cands[k]) {
        Ok(Some(cands[k]))
    } else {
        include_search(fs, cands, k + 1)
    }
}

/// Finds the first candidate that is a file; stops on a candidate the
/// table does not answer.
pub fn resolve_include(fs: &[FileAnswer], cur_dir: &String, include_dirs: &Vec<String>, spec: &[char], angled: bool)
    -> (r: Result<Option<String>, LexStop>)
    ensures
        need_ok(fs@, r),
        r matches Ok(Some(p)) ==> says_file(fs@, p@),
        r matches Err(e) ==> e is Need,
        ({
            let found = include_search(fs@, include_candidates(cur_dir@, string_views(include_dirs@), spec@, angled), 0);
            match r {
                Ok(Some(p)) => found == Ok::<Option<Seq<char>>, Seq<char>>(Some(p@)),
                Ok(None) => found == Ok::<Option<Seq<char>>, Seq<char>>(None),
                Err(LexStop::Need(p)) => found == Err::<Option<Seq<char>>, Seq<char>>(p@),
                Err(LexStop::Fatal(_)) => false,
            }
        }),
{
    let spec_s = string_of(spec);
    let ghost cands = include_candidates(cur_dir@, string_views(include_dirs@), spec@, angled);
    let ghost off: int = if angled { 0 } else { 1 };
    assert(cands.len() == off + include_dirs@.len());
    if !angled {
        let c = join_path(cur_dir.as_str(), spec_s.as_str());
        assert(cands[0] == c@);
        match find_answer(fs, &c) {
            None => return Err(LexStop::Need(c)),
            Some(i) => {
                if fs[i].is_file {
                    proof { lemma_first_answer(fs@, c@, i as int); }
                    return Ok(Some(c));
                }
                proof { lemma_not_file(fs@, c@, i as int); }
            },
        }
    }
    let mut k: usize = 0;
    while k < include_dirs.len()
        invariant
            0 <= k <= include_dirs@.len(),
            spec_s@ == spec@,
            cands == include_candidates(cur_dir@, string_views(include_dirs@), spec@, angled),
            off == (if angled { 0int } else { 1int }),
            cands.len() == off + include_dirs@.len(),
            include_search(fs@, cands, 0) == include_search(fs@, cands, off + k),
        decreases include_dirs@.len() - k,
    {
        let c = join_path(include_dirs[k].as_str(), spec_s.as_str());
        assert(cands[off + k] == c@);
        match find_answer(fs, &c) {
            None => return Err(LexStop::Need(c)),
            Some(i) => {
                if fs[i].is_file {
                    proof { lemma_first_answer(fs@, c@, i as int); }
                    return Ok(Some(c));
                }
                proof { lemma_not_file(fs@, c@, i as int); }
            },
        }
        k += 1;
    }
    Ok(None)
}

/// The first answer for `p` is not a file, so the table does not say `p`
/// is one.
proof fn lemma_not_file(fs: Seq<FileAnswer>, p: Seq<char>, i: int)
    requires
        0 <= i < fs.len(),
        fs[i].path@ == p,
        !fs[i].is_file,
        forall|j: int| 0 <= j < i ==> fs[j].path@ != p,
    ensures
        !says_file(fs, p),
        answered(fs, p),
{
    if says_file(fs, p) {
        let k = choose|k: int| 0 <= k < fs.len() && fs[k].path@ == p && fs[k].is_file
            && forall|j: int| 0 <= j < k ==> fs[j].path@ != p;
        if k < i {
            assert(fs[k].path@ != p);
        } else if i < k {
            assert(fs[i].path@ != p);
        }
    }
}

proof fn lemma_first_answer(fs: Seq<FileAnswer>, p: Seq<char>, i: int)
    requires
        0 <= i < fs.len(),
        fs[i].path@ == p,
        fs[i].is_file,
        forall|j: int| 0 <= j < i ==> fs[j].path@ != p,
    ensures
        says_file(fs, p),
{
}


// ---------------------------------------------------------------------------
// Conditionals
// ---------------------------------------------------------------------------

/// One level of `#if`/`#ifdef` nesting.
#[derive(Debug, Clone, Copy, PartialEq, Eq, Structural)]
pub struct Cond {
    pub active: bool,
    /// A branch of this conditional has already been taken.
    pub taken: bool,
    pub parent_active: bool,
}

pub open spec fn all_active(conds: Seq<Cond>) -> bool {
    forall|i: int| 0 <= i < conds.len() ==> #[trigger] conds[i].active
}

pub fn conds_active(conds: &Vec<Cond>) -> (r: bool)
    ensures
        r == all_active(conds@),
{
    let mut i: usize = 0;
    while i < conds.len()
        invariant
            0 <= i <= conds@.len(),
            forall|j: int| 0 <= j < i ==> #[trigger] conds@[j].active,
        decreases conds@.len() - i,
    {
        if !conds[i].active {
            return false;
        }
        i += 1;
    }
    true
}

pub fn copy_vec(v: &Vec<char>) -> (r: Vec<char>)
    ensures
        r@ == v@,
{
    let r = copy_chars(v.as_slice(), 0, v.len());
    assert(v@.subrange(0, v@.len() as int) =~= v@);
    r
}

fn clone_macro(m: &Macro) -> (r: Macro)
    ensures
        macro_def(r) == macro_def(*m),
{
    match m {
        Macro::Object(b) => Macro::Object(copy_vec(b)),
        Macro::Func { params, body } => {
            let mut ps: Vec<Vec<char>> = Vec::new();
            let mut i: usize = 0;
            while i < params.len()
                invariant
                    0 <= i <= params@.len(),
                    ps@.map_values(|p: Vec<char>| p@) == params@.take(i as int).map_values(|p: Vec<char>| p@),
                decreases params@.len() - i,
            {
                let p = copy_vec(&params[i]);
                let ghost prev = ps@.map_values(|p: Vec<char>| p@);
                ps.push(p);
                assert(ps@.map_values(|p: Vec<char>| p@) =~= prev.push(params@[i as int]@));
                assert(params@.take(i + 1).map_values(|p: Vec<char>| p@) =~= params@.take(i as int).map_values(|p: Vec<char>| p@).push(params@[i as int]@));
                i += 1;
            }
            assert(params@.take(params@.len() as int) =~= params@);
            let b = copy_chars(body.as_slice(), 0, body.len());
            assert(body@.subrange(0, body@.len() as int) =~= body@);
            Macro::Func { params: ps, body: b }
        },
    }
}

// ---------------------------------------------------------------------------
// Macro arguments and parameter substitution
// ---------------------------------------------------------------------------

/// Scans macro arguments from position `j` at bracket depth `depth`, inside
/// a string literal or not, with the arguments collected so far and the
/// text of the current one: the arguments and the position after the
/// closing `)`, or none when the list is not closed.
pub open spec fn args_scan(cs: Seq<char>, j: int, depth: int, in_str: bool, args: Seq<Seq<char>>, cur: Seq<char>)
    -> Option<(Seq<Seq<char>>, int)>
    decreases cs.len() - j,
{
    if j < 0 || j >= cs.len() {
        None
    } else {
        let c = cs[j];
        if in_str {
            if c == '\\' && j + 1 < cs.len() {
                args_scan(cs, j + 2, depth, true, args, cur.push(c).push(cs[j + 1]))
            } else if c == '"' {
                args_scan(cs, j + 1, depth, false, args, cur.push(c))
            } else {
                args_scan(cs, j + 1, depth, true, args, cur.push(c))
            }
        } else if c == '"' {
            args_scan(cs, j + 1, depth, true, args, cur.push(c))
        } else if c == '(' {
            args_scan(cs, j + 1, depth + 1, false, args, if depth + 1 > 1 { cur.push(c) } else { cur })
        } else if c == ')' {
            if depth - 1 == 0 {
                let t = trimmed(cur);
                Some((if args.len() == 0 && t.len() == 0 { args } else { args.push(t) }, j + 1))
            } else {
                args_scan(cs, j + 1, depth - 1, false, args, cur.push(c))
            }
        } else if c == ',' && depth == 1 {
            args_scan(cs, j + 1, depth, false, args.push(trimmed(cur)), Seq::empty())
        } else {
            args_scan(cs, j + 1, depth, false, args, cur.push(c))
        }
    }
}

/// Collects `(arg1, arg2, ...)` scanning from `open` (where the `(`
/// normally stands). Returns the arguments (trimmed, top-level commas only)
/// and the index after the `)` that closes the first parenthesis.
pub fn collect_macro_args(cs: &[char], open: usize) -> (r: Option<(Vec<Vec<char>>, usize)>)
    ensures
        match r {
            Some((args, after)) => args_scan(cs@, open as int, 0, false, Seq::empty(), Seq::empty())
                == Some((views(args@), after as int)),
            None => args_scan(cs@, open as int, 0, false, Seq::empty(), Seq::empty()) is None,
        },
        r matches Some((args, after)) ==> open < after <= cs@.len() && cs@[after - 1] == ')',
{
    if open >= cs.len() {
        return None;
    }
    let mut depth: i128 = 0;
    let mut args: Vec<Vec<char>> = Vec::new();
    let mut cur: Vec<char> = Vec::new();
    let mut j: usize = open;
    let mut in_str = false;
    assert(views(args@) =~= Seq::<Seq<char>>::empty());
    assert(cur@ =~= Seq::<char>::empty());
    while j < cs.len()
        invariant
            open <= j <= cs@.len(),
            -(j - open) <= depth <= j - open,
            args_scan(cs@, open as int, 0, false, Seq::empty(), Seq::empty())
                == args_scan(cs@, j as int, depth as int, in_str, views(args@), cur@),
        decreases cs@.len() - j,
    {
        let c = cs[j];
        if in_str {
            cur.push(c);
            if c == '\\' && j + 1 < cs.len() {
                j += 1;
                cur.push(cs[j]);
            } else if c == '"' {
                in_str = false;
            }
            j += 1;
            continue;
        }
        if c == '"' {
            in_str = true;
            cur.push(c);
        } else if c == '(' {
            depth += 1;
            if depth > 1 {
                cur.push(c);
            }
        } else if c == ')' {
            depth -= 1;
            if depth == 0 {
                let trimmed = trim_copy(cur.as_slice());
                let ghost before = views(args@);
                if !(args.len() == 0 && trimmed.len() == 0) {
                    args.push(trimmed);
                    assert(views(args@) =~= before.push(trimmed@));
                }
                return Some((args, j + 1));
            }
            cur.push(c);
        } else if c == ',' && depth == 1 {
            let trimmed = trim_copy(cur.as_slice());
            let ghost before = views(args@);
            args.push(trimmed);
            assert(views(args@) =~= before.push(trimmed@));
            cur = Vec::new();
            assert(cur@ =~= Seq::<char>::empty());
        } else {
            cur.push(c);
        }
        j += 1;
    }
    None
}

/// End of a string literal whose text continues at `i` (after the opening
/// quote): just after the closing quote, or the end of the text.
pub open spec fn string_end(s: Seq<char>, i: int) -> int
    decreases s.len() - i,
{
    if i < 0 || i >= s.len() {
        if i < 0 { 0 } else { i }
    } else if s[i] == '\\' && i + 1 < s.len() {
        string_end(s, i + 2)
    } else if s[i] == '"' {
        i + 1
    } else {
        string_end(s, i + 1)
    }
}

/// Position of the first parameter called `w`.
pub open spec fn param_index(params: Seq<Seq<char>>, w: Seq<char>, k: int) -> Option<int>
    decreases params.len() - k,
{
    if k < 0 || k >= params.len() {
        None
    } else if params[k] == w {
        Some(k)
    } else {
        param_index(params, w, k + 1)
    }
}

/// `body` from `i` with each whole word that names a parameter replaced by
/// the matching argument (nothing when that argument is missing); string
/// literals are copied as they stand.
pub open spec fn substituted(body: Seq<char>, i: int, params: Seq<Seq<char>>, args: Seq<Seq<char>>) -> Seq<char>
    decreases body.len() - i,
{
    if i < 0 || i >= body.len() {
        Seq::empty()
    } else if body[i] == '"' {
        let e = string_end(body, i + 1);
        proof { lemma_string_end(body, i + 1); }
        body.subrange(i, e) + substituted(body, e, params, args)
    } else if crate::text::spec_is_ascii_alpha(body[i]) || body[i] == '_' {
        let j = ident_end(body, i);
        proof { lemma_ident_end(body, i + 1); }
        let w = body.subrange(i, j);
        (match param_index(params, w, 0) {
            Some(k) => if k < args.len() { args[k] } else { Seq::empty() },
            None => w,
        }) + substituted(body, j, params, args)
    } else {
        seq![body[i]] + substituted(body, i + 1, params, args)
    }
}

pub proof fn lemma_string_end(s: Seq<char>, i: int)
    requires
        0 <= i <= s.len(),
    ensures
        i <= string_end(s, i) <= s.len(),
    decreases s.len() - i,
{
    if i < s.len() {
        if s[i] == '\\' && i + 1 < s.len() {
            lemma_string_end(s, i + 2);
        } else if s[i] != '"' {
            lemma_string_end(s, i + 1);
        }
    }
}

pub proof fn lemma_ident_end(s: Seq<char>, i: int)
    requires
        0 <= i <= s.len(),
    ensures
        i <= ident_end(s, i) <= s.len(),
    decreases s.len() - i,
{
    if i < s.len() && is_ident_char(s[i]) {
        lemma_ident_end(s, i + 1);
    }
}

/// Whole-word substitution of macro parameters in the body (no # / ## support).
pub fn substitute_params(body: &[char], params: &Vec<Vec<char>>, args: &Vec<Vec<char>>) -> (r: Vec<char>)
    ensures
        r@ == substituted(body@, 0, views(params@), views(args@)),
{
    let ghost ps = views(params@);
    let ghost xs = views(args@);
    let mut out: Vec<char> = Vec::new();
    let mut i: usize = 0;
    while i < body.len()
        invariant
            0 <= i <= body@.len(),
            out@ + substituted(body@, i as int, ps, xs) == substituted(body@, 0, ps, xs),
            ps == views(params@),
            xs == views(args@),
        decreases body@.len() - i,
    {
        let c = body[i];
        let ghost i0 = i as int;
        let ghost out0 = out@;
        if c == '"' {
            out.push(c);
            i += 1;
            proof { lemma_string_end(body@, i as int); }
            while i < body.len()
                invariant_except_break
                    string_end(body@, i0 + 1) == string_end(body@, i as int),
                invariant
                    0 <= i0 < i <= body@.len(),
                    body@[i0] == '"',
                    out@ == out0 + body@.subrange(i0, i as int),
                ensures
                    out@ == out0 + body@.subrange(i0, i as int),
                    i == string_end(body@, i0 + 1),
                decreases body@.len() - i,
            {
                out.push(body[i]);
                if body[i] == '\\' && i + 1 < body.len() {
                    i += 1;
                    out.push(body[i]);
                } else if body[i] == '"' {
                    i += 1;
                    assert(out@ =~= out0 + body@.subrange(i0, i as int));
                    break;
                }
                i += 1;
                assert(out@ =~= out0 + body@.subrange(i0, i as int));
            }
            proof {
                let e = i as int;
                assert(out@ + substituted(body@, e, ps, xs) =~= out0 + (body@.subrange(i0, e) + substituted(body@, e, ps, xs)));
            }
            continue;
        }
        if is_ascii_alpha(c) || c == '_' {
            let mut j: usize = i;
            while j < body.len() && (is_ascii_alnum(body[j]) || body[j] == '_')
                invariant
                    i <= j <= body@.len(),
                    ident_end(body@, i as int) == ident_end(body@, j as int),
                decreases body@.len() - j,
            {
                j += 1;
            }
            let ghost w = body@.subrange(i as int, j as int);
            let mut k: usize = 0;
            let mut found = false;
            while k < params.len()
                invariant_except_break
                    !found,
                invariant
                    0 <= k <= params@.len(),
                    i <= j <= body@.len(),
                    w == body@.subrange(i as int, j as int),
                    ps == views(params@),
                    param_index(ps, w, 0) == param_index(ps, w, k as int),
                ensures
                    found ==> k < params@.len() && param_index(ps, w, 0) == Some(k as int),
                    !found ==> param_index(ps, w, 0) is None,
                decreases params@.len() - k,
            {
                if params[k].len() == j - i && slice_matches(body, i, params[k].as_slice()) {
                    assert(ps[k as int] == params@[k as int]@);
                    found = true;
                    break;
                }
                assert(ps[k as int] == params@[k as int]@);
                assert(ps[k as int] != w);
                k += 1;
            }
            if found {
                if k < args.len() {
                    let a = &args[k];
                    let mut t: usize = 0;
                    while t < a.len()
                        invariant
                            0 <= t <= a@.len(),
                            out@ == out0 + a@.subrange(0, t as int),
                        decreases a@.len() - t,
                    {
                        out.push(a[t]);
                        t += 1;
                        assert(out@ =~= out0 + a@.subrange(0, t as int));
                    }
                    assert(a@.subrange(0, a@.len() as int) =~= a@);
                    assert(xs[k as int] == a@);
                } else {
                    assert(out@ =~= out0 + Seq::<char>::empty());
                }
            } else {
                let mut t: usize = i;
                while t < j
                    invariant
                        i <= t <= j <= body@.len(),
                        out@ == out0 + body@.subrange(i as int, t as int),
                    decreases j - t,
                {
                    out.push(body[t]);
                    t += 1;
                    assert(out@ =~= out0 + body@.subrange(i as int, t as int));
                }
            }
            proof {
                let piece = match param_index(ps, w, 0) {
                    Some(k) => if k < xs.len() { xs[k] } else { Seq::empty() },
                    None => w,
                };
                assert(out@ == out0 + piece);
                assert(out@ + substituted(body@, j as int, ps, xs) =~= out0 + (piece + substituted(body@, j as int, ps, xs)));
            }
            i = j;
            continue;
        }
        out.push(c);
        i += 1;
        proof {
            assert(out@ + substituted(body@, i as int, ps, xs) =~= out0 + (seq![c] + substituted(body@, i as int, ps, xs)));
        }
    }
    out
}

/// `s[at..at + w.len()] == w`.
fn slice_matches(s: &[char], at: usize, w: &[char]) -> (r: bool)
    requires
        at + w@.len() <= s@.len(),
    ensures
        r == (s@.subrange(at as int, at + w@.len()) == w@),
{
    let mut k: usize = 0;
    while k < w.len()
        invariant
            0 <= k <= w@.len(),
            at + w@.len() <= s@.len(),
            forall|m: int| 0 <= m < k ==> s@[at + m] == w@[m],
        decreases w@.len() - k,
    {
        assert(at + k < s.len());
        if s[at + k] != w[k] {
            assert(s@.subrange(at as int, at + w@.len())[k as int] != w@[k as int]);
            return false;
        }
        k += 1;
    }
    assert(s@.subrange(at as int, at + w@.len()) =~= w@);
    true
}


// ---------------------------------------------------------------------------
// Text pieces of directives
// ---------------------------------------------------------------------------

/// `s` without leading and trailing whitespace.
pub open spec fn trimmed(s: Seq<char>) -> Seq<char> {
    let lo = skip_ws(s, 0);
    let hi = trim_end_at(s, s.len() as int);
    if lo <= hi { s.subrange(lo, hi) } else { Seq::empty() }
}

/// First index at or after `i` that is whitespace.
pub open spec fn word_end(s: Seq<char>, i: int) -> int
    decreases s.len() - i,
{
    if 0 <= i < s.len() && !spec_is_whitespace(s[i]) { word_end(s, i + 1) } else { i }
}

/// The first whitespace-delimited word of a trimmed text.
pub open spec fn first_word(s: Seq<char>) -> Seq<char> {
    s.subrange(0, word_end(s, 0))
}

pub open spec fn is_ident_char(c: char) -> bool {
    crate::text::spec_is_ascii_alnum(c) || c == '_'
}

/// First index at or after `i` that cannot be part of a macro name.
pub open spec fn ident_end(s: Seq<char>, i: int) -> int
    decreases s.len() - i,
{
    if 0 <= i < s.len() && is_ident_char(s[i]) { ident_end(s, i + 1) } else { i }
}

/// The text after the directive word, trimmed.
pub open spec fn directive_rest(l: Seq<char>, b: int) -> Seq<char> {
    trimmed(l.subrange(b, l.len() as int))
}

pub fn trim_copy(s: &[char]) -> (r: Vec<char>)
    ensures
        r@ == trimmed(s@),
{
    let lo = skip_whitespace(s, 0);
    let hi = trim_end_index(s, s.len());
    if lo <= hi { copy_chars(s, lo, hi) } else { Vec::new() }
}

fn first_word_copy(s: &[char]) -> (r: Vec<char>)
    ensures
        r@ == first_word(s@),
{
    let mut j: usize = 0;
    while j < s.len() && !is_whitespace(s[j])
        invariant
            0 <= j <= s@.len(),
            word_end(s@, 0) == word_end(s@, j as int),
        decreases s@.len() - j,
    {
        j += 1;
    }
    copy_chars(s, 0, j)
}

fn ident_len(s: &[char]) -> (r: usize)
    ensures
        r == ident_end(s@, 0),
        r <= s@.len(),
{
    let mut j: usize = 0;
    while j < s.len() && (is_ascii_alnum(s[j]) || s[j] == '_')
        invariant
            0 <= j <= s@.len(),
            ident_end(s@, 0) == ident_end(s@, j as int),
        decreases s@.len() - j,
    {
        j += 1;
    }
    j
}

/// First position at or after `lo` holding `c`.
pub open spec fn first_index(s: Seq<char>, lo: int, c: char) -> Option<int>
    decreases s.len() - lo,
{
    if lo < 0 || lo >= s.len() {
        None
    } else if s[lo] == c {
        Some(lo)
    } else {
        first_index(s, lo + 1, c)
    }
}

/// Position of the first `c` at or after `i`.
fn find_char(s: &[char], i: usize, c: char) -> (r: Option<usize>)
    requires
        i <= s@.len(),
    ensures
        match r {
            Some(k) => first_index(s@, i as int, c) == Some(k as int),
            None => first_index(s@, i as int, c) is None,
        },
        r matches Some(k) ==> i <= k < s@.len() && s@[k as int] == c && forall|m: int| i <= m < k ==> s@[m] != c,
        r is None ==> forall|m: int| i <= m < s@.len() ==> s@[m] != c,
{
    let mut k: usize = i;
    while k < s.len()
        invariant
            i <= k <= s@.len(),
            forall|m: int| i <= m < k ==> s@[m] != c,
            first_index(s@, i as int, c) == first_index(s@, k as int, c),
        decreases s@.len() - k,
    {
        if s[k] == c {
            return Some(k);
        }
        k += 1;
    }
    None
}

/// `rest` as a message: a `String` of `prefix` followed by the characters.
fn message(prefix: &str, cs: &[char]) -> (r: String)
    ensures
        r@ == prefix@ + cs@,
{
    let mut m = String::from_str(prefix);
    push_chars(&mut m, cs, 0, cs.len());
    assert(cs@.subrange(0, cs@.len() as int) =~= cs@);
    m
}

/// `t` as a list of one, or no list when it is empty.
pub open spec fn keep_nonempty(t: Seq<char>) -> Seq<Seq<char>> {
    if t.len() > 0 { seq![t] } else { Seq::empty() }
}

/// The comma-separated pieces of `s`, trimmed, empty ones dropped; `start`
/// is where the current piece began and `k` the position reached.
pub open spec fn comma_pieces(s: Seq<char>, start: int, k: int) -> Seq<Seq<char>>
    decreases s.len() + 1 - k,
{
    if k >= s.len() {
        keep_nonempty(trimmed(s.subrange(start, s.len() as int)))
    } else if s[k] == ',' {
        keep_nonempty(trimmed(s.subrange(start, k))) + comma_pieces(s, k + 1, k + 1)
    } else {
        comma_pieces(s, start, k + 1)
    }
}

/// The parameter names of a function-like macro.
pub open spec fn param_names(s: Seq<char>) -> Seq<Seq<char>> {
    comma_pieces(s, 0, 0)
}

pub open spec fn views(v: Seq<Vec<char>>) -> Seq<Seq<char>> {
    v.map_values(|p: Vec<char>| p@)
}

/// Splits macro parameters at commas, trimming each and dropping empty ones.
fn split_params(s: &[char]) -> (r: Vec<Vec<char>>)
    ensures
        views(r@) == param_names(s@),
{
    let mut out: Vec<Vec<char>> = Vec::new();
    let mut start: usize = 0;
    let mut k: usize = 0;
    while k < s.len()
        invariant
            0 <= start <= k <= s@.len(),
            views(out@) + comma_pieces(s@, start as int, k as int) == param_names(s@),
        decreases s@.len() - k,
    {
        if s[k] == ',' {
            let piece = copy_chars(s, start, k);
            let t = trim_copy(piece.as_slice());
            let ghost before = views(out@);
            if t.len() > 0 {
                out.push(t);
                assert(views(out@) =~= before + seq![t@]);
            } else {
                assert(views(out@) =~= before + Seq::<Seq<char>>::empty());
            }
            proof {
                assert(views(out@) + comma_pieces(s@, k + 1, k + 1)
                    =~= before + (keep_nonempty(trimmed(s@.subrange(start as int, k as int))) + comma_pieces(s@, k + 1, k + 1)));
            }
            start = k + 1;
        }
        k += 1;
    }
    let piece = copy_chars(s, start, s.len());
    let t = trim_copy(piece.as_slice());
    let ghost before = views(out@);
    if t.len() > 0 {
        out.push(t);
        assert(views(out@) =~= before + seq![t@]);
    } else {
        assert(views(out@) =~= before + Seq::<Seq<char>>::empty());
    }
    out
}

// ---------------------------------------------------------------------------
// Lexing files
// ---------------------------------------------------------------------------

/// What lexing an included file `path` (from `f:l`, by directive `d`) does
/// whatever else happens: a file that cannot be opened is skipped with a
/// warning; otherwise the file is listed, the include edge is recorded
/// first, and a file already being lexed is skipped with a warning.
pub open spec fn include_outcome(fs: Seq<FileAnswer>, path: Seq<char>, old: LexCtx, new: LexCtx,
    r: Result<(), LexStop>, f: usize, l: u32, d: Seq<char>) -> bool {
    forall|i: int| first_answer(fs, path, i) ==> match fs[i].opened {
        Err(e) => {
            &&& r is Ok
            &&& new.toks@ == old.toks@
            &&& new.files@ == old.files@
            &&& new.edges@ == old.edges@
            &&& new.warnings@.len() == old.warnings@.len() + 1
            &&& new.warnings@.last()@ == warn_text(old.files@, f as int, l, "cannot open include "@ + path + ": "@ + e@)
        },
        Ok(o) => {
            &&& files_contain(new.files@, o.canon@)
            &&& new.edges@.len() > old.edges@.len()
            &&& new.edges@[old.edges@.len() as int].from@ == old.files@[f as int]@
            &&& new.edges@[old.edges@.len() as int].to@ == o.canon@
            &&& new.edges@[old.edges@.len() as int].line == l
            &&& new.edges@[old.edges@.len() as int].directive@ == d
            &&& stack_has(old.stack@, o.canon@) ==> {
                &&& r is Ok
                &&& new.toks@ == old.toks@
                &&& new.warnings@.len() == old.warnings@.len() + 1
                &&& new.warnings@.last()@ == warn_text(new.files@, f as int, l, "include cycle: "@ + o.canon@ + " skipped"@)
            }
        },
    }
}

/// `lines[i]`, with the lines after it joined on while the text so far
/// ends in a backslash (which becomes a space), each line without its
/// trailing whitespace; and the index of the last line taken.
pub open spec fn joined_lines(lines: Seq<Seq<char>>, i: int, acc: Seq<char>) -> (Seq<char>, int)
    decreases lines.len() - i,
{
    if 0 <= i && i + 1 < lines.len() && acc.len() > 0 && acc.last() == '\\' {
        let next = lines[i + 1];
        joined_lines(lines, i + 1, acc.drop_last().push(' ') + next.subrange(0, trim_end_at(next, next.len() as int)))
    } else {
        (acc, i)
    }
}

pub proof fn lemma_joined_lines(lines: Seq<Seq<char>>, i: int, acc: Seq<char>)
    requires
        0 <= i < lines.len(),
    ensures
        i <= joined_lines(lines, i, acc).1 < lines.len(),
    decreases lines.len() - i,
{
    if i + 1 < lines.len() && acc.len() > 0 && acc.last() == '\\' {
        let next = lines[i + 1];
        lemma_joined_lines(lines, i + 1, acc.drop_last().push(' ') + next.subrange(0, trim_end_at(next, next.len() as int)));
    }
}

/// The line starts (after blanks) with `#` and a preprocessor keyword.
pub open spec fn is_directive_line(raw: Seq<char>) -> bool {
    match directive_spec(raw, skip_ws(raw, 0)) {
        Some((a, b)) => is_pp_keyword(raw.subrange(a, b)),
        None => false,
    }
}

// ---------------------------------------------------------------------------
// What lexing a file with its includes gives
// ---------------------------------------------------------------------------

/// The lexer's state as plain values: the macros in force, the listed
/// files, the include edges (from, to, line, directive), the warnings and
/// the tokens (kind, text, glued, file, line).
pub struct LexView {
    pub macros: Map<Seq<char>, MacroDef>,
    pub files: Seq<Seq<char>>,
    pub edges: Seq<(Seq<char>, Seq<char>, u32, Seq<char>)>,
    pub warnings: Seq<Seq<char>>,
    pub toks: Seq<(TokKind, Seq<char>, bool, usize, u32)>,
}

pub open spec fn string_views(v: Seq<String>) -> Seq<Seq<char>> {
    v.map_values(|s: String| s@)
}

pub open spec fn tok_view(t: Tok) -> (TokKind, Seq<char>, bool, usize, u32) {
    (t.kind, t.text@, t.glued, t.file, t.line)
}

pub open spec fn tok_views(ts: Seq<Tok>) -> Seq<(TokKind, Seq<char>, bool, usize, u32)> {
    ts.map_values(|t: Tok| tok_view(t))
}

pub open spec fn edge_view(e: IncludeEdge) -> (Seq<char>, Seq<char>, u32, Seq<char>) {
    (e.from@, e.to@, e.line, e.directive@)
}

#[verifier::opaque]
pub open spec fn lex_view(c: LexCtx) -> LexView {
    LexView {
        macros: macro_map(c.macros@),
        files: string_views(c.files@),
        edges: c.edges@.map_values(|e: IncludeEdge| edge_view(e)),
        warnings: string_views(c.warnings@),
        toks: tok_views(c.toks@),
    }
}

/// `file:line: msg` over file names, `?` for an unknown file.
pub open spec fn warn_line(files: Seq<Seq<char>>, fidx: int, line: u32, msg: Seq<char>) -> Seq<char> {
    (if 0 <= fidx < files.len() { files[fidx] } else { "?"@ }) + seq![':'] + dec_str(line as nat) + ": "@ + msg
}

/// `s` with the warning `msg` at `fidx:line`.
pub open spec fn warned(s: LexView, fidx: int, line: u32, msg: Seq<char>) -> LexView {
    LexView { warnings: s.warnings.push(warn_line(s.files, fidx, line, msg)), ..s }
}

/// `s` with the warnings `w`, all at `fidx:line`.
pub open spec fn warned_all(s: LexView, fidx: int, line: u32, w: Seq<Seq<char>>) -> LexView {
    LexView { warnings: s.warnings + w.map_values(|m: Seq<char>| warn_line(s.files, fidx, line, m)), ..s }
}

/// `s` with the tokens `t` of line `line` in file `fidx`.
pub open spec fn with_toks(s: LexView, t: Seq<(TokKind, Seq<char>, bool)>, fidx: usize, line: u32) -> LexView {
    LexView { toks: s.toks + t.map_values(|x: (TokKind, Seq<char>, bool)| (x.0, x.1, x.2, fidx, line)), ..s }
}

/// The index of `c` in the file list, listing it first if it is new.
pub open spec fn interned(s: LexView, c: Seq<char>) -> (LexView, int) {
    if s.files.contains(c) {
        (s, choose|k: int| 0 <= k < s.files.len() && s.files[k] == c)
    } else {
        (LexView { files: s.files.push(c), ..s }, s.files.len() as int)
    }
}

/// The answers of opened files whose canonical path is not on `stack`.
pub open spec fn unvisited_v(fs: Seq<FileAnswer>, stack: Seq<Seq<char>>) -> nat
    decreases fs.len(),
{
    if fs.len() == 0 {
        0
    } else {
        unvisited_v(fs.drop_last(), stack) + (match fs.last().opened {
            Ok(o) => if stack.contains(o.canon@) { 0nat } else { 1nat },
            Err(_) => 0nat,
        })
    }
}

pub proof fn lemma_unvisited_v_push(fs: Seq<FileAnswer>, stack: Seq<Seq<char>>, s: Seq<char>)
    ensures
        unvisited_v(fs, stack.push(s)) <= unvisited_v(fs, stack),
        (exists|i: int| 0 <= i < fs.len() && opens_as(fs[i], s))
            && !stack.contains(s) ==> unvisited_v(fs, stack.push(s)) < unvisited_v(fs, stack),
    decreases fs.len(),
{
    if fs.len() > 0 {
        lemma_unvisited_v_push(fs.drop_last(), stack, s);
        let t = stack.push(s);
        match fs.last().opened {
            Ok(o) => {
                if stack.contains(o.canon@) {
                    let k = choose|k: int| 0 <= k < stack.len() && stack[k] == o.canon@;
                    assert(t[k] == o.canon@);
                }
            },
            Err(_) => {},
        }
        if (exists|i: int| 0 <= i < fs.len() && opens_as(fs[i], s)) && !stack.contains(s) {
            let i = choose|i: int| 0 <= i < fs.len() && opens_as(fs[i], s);
            if i < fs.len() - 1 {
                assert(fs.drop_last()[i] == fs[i]);
            } else {
                assert(t[stack.len() as int] == s);
            }
        }
    }
}

/// The first answer for `p`, if the table has one.
pub open spec fn answer_index(fs: Seq<FileAnswer>, p: Seq<char>) -> Option<int> {
    if exists|i: int| first_answer(fs, p, i) {
        Some(choose|i: int| first_answer(fs, p, i))
    } else {
        None
    }
}

/// The name and form (`<...>`) of a well-formed `#include` line.
pub open spec fn include_target(l: Seq<char>) -> (Seq<char>, bool) {
    match directive_spec(l, skip_ws(l, 0)) {
        Some((_, b)) => {
            let rest = directive_rest(l, b);
            let angled = rest.len() > 0 && rest[0] == '<';
            match first_index(rest, 1, if angled { '>' } else { '"' }) {
                Some(k) => (rest.subrange(1, k), angled),
                None => (Seq::empty(), angled),
            }
        },
        None => (Seq::empty(), false),
    }
}

/// What an `/include/` that ends at `j` on line `line` of file `fidx` does
/// from `st`, with the next token glued or not: the state after it (or how
/// lexing stops), where the line goes on and whether the next token is
/// glued. A quoted name pulls in the file it names, searched for as for
/// `#include "name"`; anything else is warned about.
#[verifier::opaque]
pub open spec fn include_after(fs: Seq<FileAnswer>, dirs: Seq<Seq<char>>, dir: Seq<char>, stack: Seq<Seq<char>>,
    s: Seq<char>, j: int, glued: bool, fidx: usize, line: u32, st: LexView) -> Option<(LexOut, int, bool)>
    decreases unvisited_v(fs, stack), 0int, 1int, 0int,
{
    let k = skip_ws(s, j);
    if k < s.len() && s[k] == '"' {
        let (name, after) = match first_index(s, k + 1, '"') {
            Some(c) => (s.subrange(k + 1, c), c + 1),
            None => (s.subrange(k + 1, s.len() as int), s.len() as int),
        };
        match include_search(fs, include_candidates(dir, dirs, name, false), 0) {
            Err(p) => Some((LexOut::Need(p), after, false)),
            Ok(None) => Some((LexOut::Done(warned(st, fidx as int, line, "include not found: "@ + name)), after, false)),
            Ok(Some(p)) => match lex_spec(fs, dirs, p, Some((fidx, line, "/include/"@)), stack, st) {
                Some(out) => Some((out, after, false)),
                None => None,
            },
        }
    } else {
        Some((LexOut::Done(warned(st, fidx as int, line, "malformed /include/ directive"@)), k, glued))
    }
}

/// What lexing line `line` of file `fidx` from position `i` gives, with a
/// block comment open or not and the next token glued or not: the state
/// after it and whether a block comment is still open, or how lexing
/// stops. An `/include/` pulls in the file it names where it stands.
#[verifier::opaque]
pub open spec fn line_spec(fs: Seq<FileAnswer>, dirs: Seq<Seq<char>>, dir: Seq<char>, stack: Seq<Seq<char>>,
    s: Seq<char>, i: int, in_comment: bool, glued: bool, fidx: usize, line: u32, st: LexView) -> Option<(LexOut, bool)>
    decreases unvisited_v(fs, stack), 1int, 0int, s.len() - i,
{
    match line_scan(s, i, in_comment, glued, st.macros, 0) {
        None => None,
        Some(sc) => {
            let st1 = warned_all(with_toks(st, sc.toks, fidx, line), fidx as int, line, sc.warnings);
            match sc.rest {
                None => Some((LexOut::Done(st1), sc.in_comment)),
                Some((j, g2)) => match include_after(fs, dirs, dir, stack, s, j, g2, fidx, line, st1) {
                    Some((LexOut::Done(st2), k, g3)) => if k <= i || k > s.len() {
                        None
                    } else {
                        line_spec(fs, dirs, dir, stack, s, k, false, g3, fidx, line, st2)
                    },
                    Some((other, _, _)) => Some((other, false)),
                    None => None,
                },
            }
        },
    }
}

/// One step of `line_spec`.
proof fn lemma_line_spec_unfold(fs: Seq<FileAnswer>, dirs: Seq<Seq<char>>, dir: Seq<char>, stack: Seq<Seq<char>>,
    s: Seq<char>, i: int, in_comment: bool, glued: bool, fidx: usize, line: u32, st: LexView)
    ensures
        line_spec(fs, dirs, dir, stack, s, i, in_comment, glued, fidx, line, st) == match line_scan(s, i, in_comment, glued, st.macros, 0) {
            None => None,
            Some(sc) => {
                let st1 = warned_all(with_toks(st, sc.toks, fidx, line), fidx as int, line, sc.warnings);
                match sc.rest {
                    None => Some((LexOut::Done(st1), sc.in_comment)),
                    Some((j, g2)) => match include_after(fs, dirs, dir, stack, s, j, g2, fidx, line, st1) {
                        Some((LexOut::Done(st2), k, g3)) => if k <= i || k > s.len() {
                            None
                        } else {
                            line_spec(fs, dirs, dir, stack, s, k, false, g3, fidx, line, st2)
                        },
                        Some((other, _, _)) => Some((other, false)),
                        None => None,
                    },
                }
            },
        },
{
    reveal_with_fuel(line_spec, 1);
    reveal_with_fuel(include_after, 1);
}

/// A line whose scan stopped at an `/include/` ending at `j`.
proof fn lemma_line_include(fs: Seq<FileAnswer>, dirs: Seq<Seq<char>>, dir: Seq<char>, stack: Seq<Seq<char>>,
    s: Seq<char>, i: int, in_comment: bool, glued: bool, fidx: usize, line: u32, cs: LexCtx, c: LexCtx, acc: LineScan,
    j: int, g: bool)
    requires
        line_scan(s, i, in_comment, glued, macro_map(cs.macros@), 0)
            == scan_then(acc, Some(LineScan { toks: Seq::empty(), in_comment: false, warnings: Seq::empty(), rest: Some((j, g)) })),
        toks_added(cs.toks@, c.toks@, acc.toks, fidx, line),
        warns_added(cs.files@, cs.warnings@, c.warnings@, acc.warnings, fidx, line),
        c.macros@ == cs.macros@,
        c.files@ == cs.files@,
        c.edges@ == cs.edges@,
    ensures
        line_spec(fs, dirs, dir, stack, s, i, in_comment, glued, fidx, line, lex_view(cs))
            == match include_after(fs, dirs, dir, stack, s, j, g, fidx, line, lex_view(c)) {
                Some((LexOut::Done(st2), k, g3)) => if k <= i || k > s.len() {
                    None
                } else {
                    line_spec(fs, dirs, dir, stack, s, k, false, g3, fidx, line, st2)
                },
                Some((other, _, _)) => Some((other, false)),
                None => None,
            },
{
    lemma_line_spec_unfold(fs, dirs, dir, stack, s, i, in_comment, glued, fidx, line, lex_view(cs));
    lemma_view_parts(cs);
    lemma_view_line(cs, c, acc.toks, acc.warnings, fidx, line);
    assert(acc.toks + Seq::<(TokKind, Seq<char>, bool)>::empty() =~= acc.toks);
    assert(acc.warnings + Seq::<Seq<char>>::empty() =~= acc.warnings);
}

/// A line whose scan has nothing to say.
proof fn lemma_line_none(fs: Seq<FileAnswer>, dirs: Seq<Seq<char>>, dir: Seq<char>, stack: Seq<Seq<char>>,
    s: Seq<char>, i: int, in_comment: bool, glued: bool, fidx: usize, line: u32, cs: LexCtx)
    requires
        line_scan(s, i, in_comment, glued, macro_map(cs.macros@), 0) is None,
    ensures
        line_spec(fs, dirs, dir, stack, s, i, in_comment, glued, fidx, line, lex_view(cs)) is None,
{
    lemma_line_spec_unfold(fs, dirs, dir, stack, s, i, in_comment, glued, fidx, line, lex_view(cs));
    lemma_view_parts(cs);
}

/// A line whose scan reached its end without an `/include/`.
proof fn lemma_line_end(fs: Seq<FileAnswer>, dirs: Seq<Seq<char>>, dir: Seq<char>, stack: Seq<Seq<char>>,
    s: Seq<char>, i: int, in_comment: bool, glued: bool, fidx: usize, line: u32, cs: LexCtx, c: LexCtx, acc: LineScan, ic: bool)
    requires
        line_scan(s, i, in_comment, glued, macro_map(cs.macros@), 0) == scan_then(acc, Some(scan_done(ic))),
        toks_added(cs.toks@, c.toks@, acc.toks, fidx, line),
        warns_added(cs.files@, cs.warnings@, c.warnings@, acc.warnings, fidx, line),
        c.macros@ == cs.macros@,
        c.files@ == cs.files@,
        c.edges@ == cs.edges@,
    ensures
        line_spec(fs, dirs, dir, stack, s, i, in_comment, glued, fidx, line, lex_view(cs)) == Some((LexOut::Done(lex_view(c)), ic)),
{
    lemma_line_spec_unfold(fs, dirs, dir, stack, s, i, in_comment, glued, fidx, line, lex_view(cs));
    lemma_view_parts(cs);
    lemma_view_line(cs, c, acc.toks, acc.warnings, fidx, line);
    assert(acc.toks + Seq::<(TokKind, Seq<char>, bool)>::empty() =~= acc.toks);
    assert(acc.warnings + Seq::<Seq<char>>::empty() =~= acc.warnings);
}

/// `r` without what it carries on success.
pub open spec fn unit_result(r: Result<(usize, bool), LexStop>) -> Result<(), LexStop> {
    match r {
        Ok(_) => Ok(()),
        Err(e) => Err(e),
    }
}

/// The result of tokenizing a line and the state after it are what `out`
/// says, when it says anything.
#[verifier::opaque]
pub open spec fn line_matches(out: Option<(LexOut, bool)>, new: LexCtx, in_comment: bool, r: Result<(), LexStop>) -> bool {
    match out {
        Some((LexOut::Done(v), ic)) => r is Ok && lex_view(new) == v && in_comment == ic,
        Some((LexOut::Need(p), _)) => r matches Err(LexStop::Need(q)) && q@ == p,
        Some((LexOut::Fatal(m), _)) => r matches Err(LexStop::Fatal(q)) && q@ == m,
        None => true,
    }
}

proof fn lemma_line_matches(out: Option<(LexOut, bool)>, new: LexCtx, in_comment: bool, r: Result<(), LexStop>)
    requires
        match out {
            Some((LexOut::Done(v), ic)) => r is Ok && lex_view(new) == v && in_comment == ic,
            Some((LexOut::Need(p), _)) => r matches Err(LexStop::Need(q)) && q@ == p,
            Some((LexOut::Fatal(m), _)) => r matches Err(LexStop::Fatal(q)) && q@ == m,
            None => true,
        },
    ensures
        line_matches(out, new, in_comment, r),
{
    reveal(line_matches);
}

proof fn lemma_line_matches_use(out: Option<(LexOut, bool)>, new: LexCtx, in_comment: bool, r: Result<(), LexStop>)
    requires
        line_matches(out, new, in_comment, r),
    ensures
        match out {
            Some((LexOut::Done(v), ic)) => r is Ok && lex_view(new) == v && in_comment == ic,
            Some((LexOut::Need(p), _)) => r matches Err(LexStop::Need(q)) && q@ == p,
            Some((LexOut::Fatal(m), _)) => r matches Err(LexStop::Fatal(q)) && q@ == m,
            None => true,
        },
{
    reveal(line_matches);
}

/// How lexing stops or ends.
pub enum LexOut {
    Done(LexView),
    Need(Seq<char>),
    Fatal(Seq<char>),
}

/// What lexing `path` (included from `from`, none for the main file) with
/// the files on `stack` being lexed gives from `s`: the state after it,
/// or the path the table must answer first, or why the main file cannot be
/// read. (A run never records more than `usize::MAX` files; the spec says
/// the run stops there.)
#[verifier::opaque]
pub open spec fn lex_spec(fs: Seq<FileAnswer>, dirs: Seq<Seq<char>>, path: Seq<char>,
    from: Option<(usize, u32, Seq<char>)>, stack: Seq<Seq<char>>, s: LexView) -> Option<LexOut>
    decreases unvisited_v(fs, stack), 0int, 0int, 0int,
{
    match answer_index(fs, path) {
        None => Some(LexOut::Need(path)),
        Some(i) => match fs[i].opened {
            Err(e) => match from {
                Some((f, l, _)) => Some(LexOut::Done(warned(s, f as int, l, "cannot open include "@ + path + ": "@ + e@))),
                None => Some(LexOut::Fatal("cannot open "@ + path + ": "@ + e@)),
            },
            Ok(o) => {
                let canon = o.canon@;
                let (s1, fidx) = interned(s, canon);
                let s2 = match from {
                    Some((f, l, d)) => LexView { edges: s1.edges.push((s1.files[f as int], canon, l, d)), ..s1 },
                    None => s1,
                };
                if stack.contains(canon) {
                    match from {
                        Some((f, l, _)) => Some(LexOut::Done(warned(s2, f as int, l, "include cycle: "@ + canon + " skipped"@))),
                        None => Some(LexOut::Done(s2)),
                    }
                } else {
                    match o.text {
                        Err(e) => match from {
                            Some((f, l, _)) => Some(LexOut::Done(warned(s2, f as int, l, "cannot read include "@ + canon + ": "@ + e@))),
                            None => Some(LexOut::Fatal("cannot read "@ + canon + ": "@ + e@)),
                        },
                        Ok(t) => {
                            proof {
                                if 0 <= i < fs.len() {
                                    assert(opens_as(fs[i], canon));
                                }
                                lemma_unvisited_v_push(fs, stack, canon);
                            }
                            if fidx > usize::MAX {
                                Some(LexOut::Fatal("too many files"@))
                            } else if 0 <= i < fs.len() && 0 <= fidx {
                                lines_spec(fs, dirs, text_lines(utf8_lossy(t@)), 0, o.dir@, fidx as usize,
                                    stack.push(canon), Seq::empty(), false, s2)
                            } else {
                                None
                            }
                        },
                    }
                }
            },
        },
    }
}

/// An include of a file that is already being lexed adds the edge to it
/// and a warning, and nothing else: the cycle is skipped.
pub proof fn law_include_cycle_skipped(fs: Seq<FileAnswer>, dirs: Seq<Seq<char>>, path: Seq<char>,
    f: usize, l: u32, d: Seq<char>, stack: Seq<Seq<char>>, s: LexView, i: int, o: OpenedFile)
    requires
        answer_index(fs, path) == Some(i),
        fs[i].opened == Ok::<OpenedFile, String>(o),
        stack.contains(o.canon@),
    ensures
        ({
            let s1 = interned(s, o.canon@).0;
            let s2 = LexView { edges: s1.edges.push((s1.files[f as int], o.canon@, l, d)), ..s1 };
            lex_spec(fs, dirs, path, Some((f, l, d)), stack, s)
                == Some(LexOut::Done(warned(s2, f as int, l, "include cycle: "@ + o.canon@ + " skipped"@)))
        }),
{
    reveal_with_fuel(lex_spec, 1);
}

/// What lexing `lines` from line `i` of file `fidx` (in directory `dir`)
/// gives, with conditionals `conds` open and a block comment open or not.
#[verifier::opaque]
pub open spec fn lines_spec(fs: Seq<FileAnswer>, dirs: Seq<Seq<char>>, lines: Seq<Seq<char>>, i: int, dir: Seq<char>,
    fidx: usize, stack: Seq<Seq<char>>, conds: Seq<Cond>, in_comment: bool, s: LexView) -> Option<LexOut>
    decreases unvisited_v(fs, stack), 2int, lines.len() - i, 0int,
{
    if i < 0 || i >= lines.len() {
        Some(LexOut::Done(if conds.len() > 0 { warned(s, fidx as int, lines.len() as u32, "unterminated #if/#ifdef"@) } else { s }))
    } else {
        let raw = lines[i];
        let line = (i + 1) as u32;
        if !in_comment && is_directive_line(raw) {
            let first = raw.subrange(0, trim_end_at(raw, raw.len() as int));
            let (logical, j) = joined_lines(lines, i, first);
            proof { lemma_joined_lines(lines, i, first); }
            match directive_fn(logical, conds, s.macros) {
                Some((nc, m2, w)) => lines_spec(fs, dirs, lines, j + 1, dir, fidx, stack, nc, in_comment,
                    warned_all(LexView { macros: m2, ..s }, fidx as int, line, w)),
                None => {
                    let (name, angled) = include_target(logical);
                    match include_search(fs, include_candidates(dir, dirs, name, angled), 0) {
                        Err(p) => Some(LexOut::Need(p)),
                        Ok(None) => lines_spec(fs, dirs, lines, j + 1, dir, fidx, stack, conds, in_comment,
                            warned(s, fidx as int, line, "include not found: "@ + name)),
                        Ok(Some(p)) => match lex_spec(fs, dirs, p, Some((fidx, line, "#include"@)), stack, s) {
                            Some(LexOut::Done(s3)) => lines_spec(fs, dirs, lines, j + 1, dir, fidx, stack, conds, in_comment, s3),
                            other => other,
                        },
                    }
                },
            }
        } else if all_active(conds) {
            match line_spec(fs, dirs, dir, stack, raw, 0, in_comment, false, fidx, line, s) {
                Some((LexOut::Done(s2), ic2)) => lines_spec(fs, dirs, lines, i + 1, dir, fidx, stack, conds, ic2, s2),
                Some((other, _)) => Some(other),
                None => None,
            }
        } else {
            lines_spec(fs, dirs, lines, i + 1, dir, fidx, stack, conds, in_comment, s)
        }
    }
}

/// The first answer for a path is one of the answers.
proof fn lemma_answer_index_range(fs: Seq<FileAnswer>, p: Seq<char>)
    ensures
        answer_index(fs, p) matches Some(i) ==> 0 <= i < fs.len(),
{
}

/// The index `interned` gives is never negative.
proof fn lemma_interned_index(s: LexView, c: Seq<char>)
    ensures
        interned(s, c).1 >= 0,
{
}

/// Lexing a file always gives an answer.
pub proof fn lemma_lex_spec_some(fs: Seq<FileAnswer>, dirs: Seq<Seq<char>>, path: Seq<char>,
    from: Option<(usize, u32, Seq<char>)>, stack: Seq<Seq<char>>, s: LexView)
    ensures
        lex_spec(fs, dirs, path, from, stack, s) is Some,
    decreases unvisited_v(fs, stack), 0int, 0int, 0int,
{
    reveal_with_fuel(lex_spec, 1);
    reveal_with_fuel(lines_spec, 1);
    reveal_with_fuel(line_spec, 1);
    reveal_with_fuel(include_after, 1);
    lemma_answer_index_range(fs, path);
    match answer_index(fs, path) {
        None => {},
        Some(i) => match fs[i].opened {
            Err(_) => {},
            Ok(o) => {
                let canon = o.canon@;
                let (s1, fidx) = interned(s, canon);
                lemma_interned_index(s, canon);
                let s2 = match from {
                    Some((f, l, d)) => LexView { edges: s1.edges.push((s1.files[f as int], canon, l, d)), ..s1 },
                    None => s1,
                };
                if !stack.contains(canon) {
                    match o.text {
                        Err(_) => {},
                        Ok(t) => {
                            if fidx <= usize::MAX {
                                assert(opens_as(fs[i], canon));
                                lemma_unvisited_v_push(fs, stack, canon);
                                lemma_lines_spec_some(fs, dirs, text_lines(utf8_lossy(t@)), 0, o.dir@, fidx as usize,
                                    stack.push(canon), Seq::empty(), false, s2);
                            }
                        },
                    }
                }
            },
        },
    }
}

/// Lexing the lines of a file always gives an answer.
#[verifier::rlimit(60)]
#[verifier::spinoff_prover]
pub proof fn lemma_lines_spec_some(fs: Seq<FileAnswer>, dirs: Seq<Seq<char>>, lines: Seq<Seq<char>>, i: int, dir: Seq<char>,
    fidx: usize, stack: Seq<Seq<char>>, conds: Seq<Cond>, in_comment: bool, s: LexView)
    ensures
        lines_spec(fs, dirs, lines, i, dir, fidx, stack, conds, in_comment, s) is Some,
    decreases unvisited_v(fs, stack), 2int, lines.len() - i, 0int,
{
    reveal_with_fuel(lines_spec, 1);
    if 0 <= i < lines.len() {
        let raw = lines[i];
        let line = (i + 1) as u32;
        if !in_comment && is_directive_line(raw) {
            let first = raw.subrange(0, trim_end_at(raw, raw.len() as int));
            let (logical, j) = joined_lines(lines, i, first);
            lemma_joined_lines(lines, i, first);
            match directive_fn(logical, conds, s.macros) {
                Some((nc, m2, w)) => {
                    lemma_lines_spec_some(fs, dirs, lines, j + 1, dir, fidx, stack, nc, in_comment,
                        warned_all(LexView { macros: m2, ..s }, fidx as int, line, w));
                },
                None => {
                    let (name, angled) = include_target(logical);
                    match include_search(fs, include_candidates(dir, dirs, name, angled), 0) {
                        Err(_) => {},
                        Ok(None) => {
                            lemma_lines_spec_some(fs, dirs, lines, j + 1, dir, fidx, stack, conds, in_comment,
                                warned(s, fidx as int, line, "include not found: "@ + name));
                        },
                        Ok(Some(p)) => {
                            lemma_lex_spec_some(fs, dirs, p, Some((fidx, line, "#include"@)), stack, s);
                            match lex_spec(fs, dirs, p, Some((fidx, line, "#include"@)), stack, s) {
                                Some(LexOut::Done(s3)) => {
                                    lemma_lines_spec_some(fs, dirs, lines, j + 1, dir, fidx, stack, conds, in_comment, s3);
                                },
                                _ => {},
                            }
                        },
                    }
                },
            }
        } else if all_active(conds) {
            lemma_line_spec_some(fs, dirs, dir, stack, raw, 0, in_comment, false, fidx, line, s);
            match line_spec(fs, dirs, dir, stack, raw, 0, in_comment, false, fidx, line, s) {
                Some((LexOut::Done(s2), ic2)) => {
                    lemma_lines_spec_some(fs, dirs, lines, i + 1, dir, fidx, stack, conds, ic2, s2);
                },
                _ => {},
            }
        } else {
            lemma_lines_spec_some(fs, dirs, lines, i + 1, dir, fidx, stack, conds, in_comment, s);
        }
    }
}

/// Lexing a line from `i` always gives an answer.
pub proof fn lemma_line_spec_some(fs: Seq<FileAnswer>, dirs: Seq<Seq<char>>, dir: Seq<char>, stack: Seq<Seq<char>>,
    s: Seq<char>, i: int, in_comment: bool, glued: bool, fidx: usize, line: u32, st: LexView)
    requires
        0 <= i,
    ensures
        line_spec(fs, dirs, dir, stack, s, i, in_comment, glued, fidx, line, st) is Some,
    decreases unvisited_v(fs, stack), 1int, 0int, s.len() - i,
{
    reveal_with_fuel(line_spec, 1);
    reveal_with_fuel(include_after, 1);
    lemma_line_scan_some(s, i, in_comment, glued, st.macros, 0);
    let sc = line_scan(s, i, in_comment, glued, st.macros, 0)->0;
    let st1 = warned_all(with_toks(st, sc.toks, fidx, line), fidx as int, line, sc.warnings);
    match sc.rest {
        None => {},
        Some((j, g2)) => {
            lemma_include_after_some(fs, dirs, dir, stack, s, j, g2, fidx, line, st1);
            match include_after(fs, dirs, dir, stack, s, j, g2, fidx, line, st1) {
                Some((LexOut::Done(st2), k, g3)) => {
                    lemma_line_spec_some(fs, dirs, dir, stack, s, k, false, g3, fidx, line, st2);
                },
                _ => {},
            }
        },
    }
}

/// What follows an `/include/` always gives an answer, and lexing goes on
/// within the line, not before where the keyword ended.
pub proof fn lemma_include_after_some(fs: Seq<FileAnswer>, dirs: Seq<Seq<char>>, dir: Seq<char>, stack: Seq<Seq<char>>,
    s: Seq<char>, j: int, glued: bool, fidx: usize, line: u32, st: LexView)
    requires
        0 <= j <= s.len(),
    ensures
        include_after(fs, dirs, dir, stack, s, j, glued, fidx, line, st) matches Some((out, k, _))
            && (out is Done ==> j <= k <= s.len()),
    decreases unvisited_v(fs, stack), 0int, 1int, 0int,
{
    reveal_with_fuel(include_after, 1);
    reveal_with_fuel(lex_spec, 1);
    let k = skip_ws(s, j);
    lemma_skip_ws(s, j);
    if k < s.len() && s[k] == '"' {
        lemma_first_index(s, k + 1, '"');
        let name = match first_index(s, k + 1, '"') {
            Some(c) => s.subrange(k + 1, c),
            None => s.subrange(k + 1, s.len() as int),
        };
        match include_search(fs, include_candidates(dir, dirs, name, false), 0) {
            Ok(Some(p)) => {
                lemma_lex_spec_some(fs, dirs, p, Some((fidx, line, "/include/"@)), stack, st);
            },
            _ => {},
        }
    }
}

/// `from` with the directive as plain text.
pub open spec fn from_view(from: Option<(usize, u32, &'static str)>) -> Option<(usize, u32, Seq<char>)> {
    match from {
        Some((f, l, d)) => Some((f, l, d@)),
        None => None,
    }
}

/// The result of a run and the state after it are what `out` says, when it
/// says anything.
pub open spec fn run_matches(out: Option<LexOut>, new: LexCtx, r: Result<(), LexStop>) -> bool {
    match out {
        Some(LexOut::Done(v)) => r is Ok && lex_view(new) == v,
        Some(LexOut::Need(p)) => r matches Err(LexStop::Need(q)) && q@ == p,
        Some(LexOut::Fatal(m)) => r matches Err(LexStop::Fatal(q)) && q@ == m,
        None => true,
    }
}

/// What an active `#include` of `name` on line `line` of file `fidx` does:
/// the first candidate that is a file is lexed in place, a missing one is
/// warned about, and a candidate the table does not answer stops the run.
pub open spec fn include_run(fs: Seq<FileAnswer>, dirs: Seq<Seq<char>>, dir: Seq<char>, name: Seq<char>, angled: bool,
    fidx: usize, line: u32, directive: Seq<char>, stack: Seq<Seq<char>>, old: LexCtx, new: LexCtx, r: Result<(), LexStop>) -> bool {
    match include_search(fs, include_candidates(dir, dirs, name, angled), 0) {
        Err(p) => r matches Err(LexStop::Need(q)) && q@ == p,
        Ok(None) => r is Ok && lex_view(new) == warned(lex_view(old), fidx as int, line, "include not found: "@ + name),
        Ok(Some(p)) => run_matches(lex_spec(fs, dirs, p, Some((fidx, line, directive)), stack, lex_view(old)), new, r),
    }
}

proof fn lemma_answer_index(fs: Seq<FileAnswer>, p: Seq<char>, i: int)
    requires
        first_answer(fs, p, i),
    ensures
        answer_index(fs, p) == Some(i),
{
    let j = choose|j: int| first_answer(fs, p, j);
    if j < i {
        assert(fs[j].path@ != p);
    } else if i < j {
        assert(fs[i].path@ != p);
    }
}

proof fn lemma_no_answer(fs: Seq<FileAnswer>, p: Seq<char>)
    requires
        !answered(fs, p),
    ensures
        answer_index(fs, p) is None,
{
    if exists|i: int| first_answer(fs, p, i) {
        let i = choose|i: int| first_answer(fs, p, i);
        assert(fs[i].path@ == p);
    }
}

proof fn lemma_stack_view(stack: Seq<String>, c: Seq<char>)
    ensures
        stack_has(stack, c) == string_views(stack).contains(c),
{
    if stack_has(stack, c) {
        let k = choose|k: int| 0 <= k < stack.len() && stack[k]@ == c;
        assert(string_views(stack)[k] == c);
    }
    if string_views(stack).contains(c) {
        let k = choose|k: int| 0 <= k < string_views(stack).len() && string_views(stack)[k] == c;
        assert(stack[k]@ == c);
    }
}

/// The state before anything is lexed.
pub open spec fn empty_view() -> LexView {
    LexView { macros: Map::empty(), files: Seq::empty(), edges: Seq::empty(), warnings: Seq::empty(), toks: Seq::empty() }
}

pub proof fn lemma_view_empty(c: LexCtx)
    requires
        c.macros@.len() == 0,
        c.files@.len() == 0,
        c.edges@.len() == 0,
        c.warnings@.len() == 0,
        c.toks@.len() == 0,
    ensures
        lex_view(c) == empty_view(),
{
    reveal(lex_view);
    let v = lex_view(c);
    assert(c.macros@ =~= Seq::<(Vec<char>, Option<Macro>)>::empty());
    assert(v.macros =~= Map::<Seq<char>, MacroDef>::empty());
    assert(v.files =~= Seq::<Seq<char>>::empty());
    assert(v.edges =~= Seq::<(Seq<char>, Seq<char>, u32, Seq<char>)>::empty());
    assert(v.warnings =~= Seq::<Seq<char>>::empty());
    assert(v.toks =~= Seq::<(TokKind, Seq<char>, bool, usize, u32)>::empty());
}

/// The parts of the state, as plain values.
pub proof fn lemma_view_parts(c: LexCtx)
    ensures
        lex_view(c).files == string_views(c.files@),
        lex_view(c).macros == macro_map(c.macros@),
        lex_view(c).edges == c.edges@.map_values(|e: IncludeEdge| edge_view(e)),
        lex_view(c).warnings == string_views(c.warnings@),
        lex_view(c).toks == tok_views(c.toks@),
{
    reveal(lex_view);
}

/// The lexer's state does not depend on the include stack.
proof fn lemma_view_same(a: LexCtx, b: LexCtx)
    requires
        a.macros@ == b.macros@,
        a.files@ == b.files@,
        a.edges@ == b.edges@,
        a.warnings@ == b.warnings@,
        a.toks@ == b.toks@,
    ensures
        lex_view(a) == lex_view(b),
{
    reveal(lex_view);
}

proof fn lemma_view_edge(a: LexCtx, b: LexCtx, e: IncludeEdge)
    requires
        b.edges@ == a.edges@.push(e),
        a.macros@ == b.macros@,
        a.files@ == b.files@,
        a.warnings@ == b.warnings@,
        a.toks@ == b.toks@,
    ensures
        lex_view(b) == (LexView { edges: lex_view(a).edges.push(edge_view(e)), ..lex_view(a) }),
{
    reveal(lex_view);
    assert(b.edges@.map_values(|x: IncludeEdge| edge_view(x)) =~= a.edges@.map_values(|x: IncludeEdge| edge_view(x)).push(edge_view(e)));
}

/// One tokenized line, in terms of the state.
proof fn lemma_view_line(a: LexCtx, b: LexCtx, ta: Seq<(TokKind, Seq<char>, bool)>, wa: Seq<Seq<char>>, fidx: usize, line: u32)
    requires
        toks_added(a.toks@, b.toks@, ta, fidx, line),
        warns_added(a.files@, a.warnings@, b.warnings@, wa, fidx, line),
        b.macros@ == a.macros@,
        b.files@ == a.files@,
        b.edges@ == a.edges@,
    ensures
        lex_view(b) == warned_all(with_toks(lex_view(a), ta, fidx, line), fidx as int, line, wa),
{
    reveal(lex_view);
    let va = lex_view(a);
    let vb = lex_view(b);
    let want = warned_all(with_toks(va, ta, fidx, line), fidx as int, line, wa);
    assert(vb.toks =~= want.toks) by {
        assert forall|k: int| 0 <= k < vb.toks.len() implies vb.toks[k] == want.toks[k] by {
            if k < a.toks@.len() {
                assert(b.toks@[k] == a.toks@[k]);
            } else {
                let t = b.toks@[a.toks@.len() + (k - a.toks@.len())];
            }
        }
    }
    assert(vb.warnings =~= want.warnings) by {
        assert forall|k: int| 0 <= k < vb.warnings.len() implies vb.warnings[k] == want.warnings[k] by {
            if k < a.warnings@.len() {
                assert(b.warnings@[k] == a.warnings@[k]);
            } else {
                let w = b.warnings@[a.warnings@.len() + (k - a.warnings@.len())];
                assert(warn_text(a.files@, fidx as int, line, wa[k - a.warnings@.len()])
                    == warn_line(va.files, fidx as int, line, wa[k - a.warnings@.len()]));
            }
        }
    }
}

/// One directive line, in terms of the state.
proof fn lemma_view_directive(a: LexCtx, b: LexCtx, wa: Seq<Seq<char>>, fidx: usize, line: u32)
    requires
        b.toks@ == a.toks@,
        warns_added(a.files@, a.warnings@, b.warnings@, wa, fidx, line),
        b.files@ == a.files@,
        b.edges@ == a.edges@,
    ensures
        lex_view(b) == warned_all(LexView { macros: macro_map(b.macros@), ..lex_view(a) }, fidx as int, line, wa),
{
    reveal(lex_view);
    let va = lex_view(a);
    let vb = lex_view(b);
    let want = warned_all(LexView { macros: macro_map(b.macros@), ..va }, fidx as int, line, wa);
    assert(vb.warnings =~= want.warnings) by {
        assert forall|k: int| 0 <= k < vb.warnings.len() implies vb.warnings[k] == want.warnings[k] by {
            if k < a.warnings@.len() {
                assert(b.warnings@[k] == a.warnings@[k]);
            } else {
                let w = b.warnings@[a.warnings@.len() + (k - a.warnings@.len())];
                assert(warn_text(a.files@, fidx as int, line, wa[k - a.warnings@.len()])
                    == warn_line(va.files, fidx as int, line, wa[k - a.warnings@.len()]));
            }
        }
    }
}

/// Common facts every lexing step keeps.
pub open spec fn lex_step(fs: Seq<FileAnswer>, old: LexCtx, new: LexCtx) -> bool {
    &&& lex_wf(new)
    &&& edge_words(old) ==> edge_words(new)
    &&& lex_grows(old, new)
}

/// Lexes the file that the table answers for `path`, inlining its includes.
/// `from` is the including site and directive, none for the main file.
#[verifier::loop_isolation(false)]
pub fn lex_file(ctx: &mut LexCtx, fs: &[FileAnswer], path: &String, from: Option<(usize, u32, &'static str)>)
    -> (r: Result<(), LexStop>)
    requires
        lex_wf(*old(ctx)),
        from matches Some((f, _, _)) ==> f < old(ctx).files@.len(),
    ensures
        lex_wf(*final(ctx)),
        lex_grows(*old(ctx), *final(ctx)),
        edge_words(*old(ctx)) && (from matches Some((_, _, d)) ==> is_include_word(d@)) ==> edge_words(*final(ctx)),
        need_ok(fs@, r),
        r is Ok ==> final(ctx).stack@ == old(ctx).stack@,
        from is Some ==> !(r matches Err(LexStop::Fatal(_))),
        !answered(fs@, path@) ==> (r matches Err(LexStop::Need(p)) && p@ == path@),
        from is None && old(ctx).stack@.len() == 0 ==> main_outcome(fs@, path@, *old(ctx), *final(ctx), r),
        from matches Some((f, l, d)) ==> include_outcome(fs@, path@, *old(ctx), *final(ctx), r, f, l, d@),
        lex_spec(fs@, string_views(old(ctx).include_dirs@), path@, from_view(from), string_views(old(ctx).stack@), lex_view(*old(ctx))) is Some,
        run_matches(lex_spec(fs@, string_views(old(ctx).include_dirs@), path@, from_view(from), string_views(old(ctx).stack@), lex_view(*old(ctx))),
            *final(ctx), r),
    decreases unvisited(fs@, old(ctx).stack@) as int, 0int, 0int,
{
    proof {
        lemma_lex_spec_some(fs@, string_views(ctx.include_dirs@), path@, from_view(from), string_views(ctx.stack@), lex_view(*ctx));
    }
    let ghost v_old = lex_view(*ctx);
    let ghost stk = string_views(ctx.stack@);
    let ghost spec = lex_spec(fs@, string_views(ctx.include_dirs@), path@, from_view(from), stk, v_old);
    proof { reveal_with_fuel(lex_spec, 1); }
    let ai = match find_answer(fs, path) {
        Some(i) => i,
        None => {
            proof { lemma_no_answer(fs@, path@); }
            return Err(LexStop::Need(copy_string(path)));
        },
    };
    proof { lemma_answer_index(fs@, path@, ai as int); }
    let answer = &fs[ai];
    let opened = match &answer.opened {
        Ok(o) => o,
        Err(e) => {
            match from {
                Some((f, l, _)) => {
                    let mut m = String::from_str("cannot open include ");
                    m.append(path.as_str());
                    m.append(": ");
                    m.append(e.as_str());
                    ctx.warn(f, l, m);
                    return Ok(());
                },
                None => {
                    let mut m = String::from_str("cannot open ");
                    m.append(path.as_str());
                    m.append(": ");
                    m.append(e.as_str());
                    return Err(LexStop::Fatal(m));
                },
            }
        },
    };
    let display = copy_string(&opened.canon);
    let ghost c0 = *ctx;
    let fidx = ctx.intern(&display);
    let ghost v1 = lex_view(*ctx);
    proof { lemma_view_parts(*ctx); }
    let ghost mut the_edge: IncludeEdge = arbitrary();
    if let Some((f, l, directive)) = from {
        let edge = IncludeEdge {
            from: copy_string(&ctx.files[f]),
            to: copy_string(&display),
            line: l,
            directive: String::from_str(directive),
        };
        proof { the_edge = edge; }
        let ghost c1 = *ctx;
        ctx.edges.push(edge);
        proof {
            if edge_words(c1) && is_include_word(directive@) {
                assert forall|k: int| 0 <= k < ctx.edges@.len() implies is_include_word((#[trigger] ctx.edges@[k]).directive@) by {
                    if k < c1.edges@.len() {
                        assert(ctx.edges@[k] == c1.edges@[k]);
                    }
                }
            }
            lemma_view_edge(c1, *ctx, the_edge);
            assert(files_contain(ctx.files@, ctx.files@[f as int]@));
            assert(files_contain(ctx.files@, ctx.files@[fidx as int]@));
            assert(c1.edges@.is_prefix_of(ctx.edges@));
            lemma_grows_trans(c0, c1, *ctx);
        }
    }
    let ghost v2 = lex_view(*ctx);
    proof {
        lemma_stack_view(old(ctx).stack@, display@);
        match from {
            Some((f, l, d)) => {
                assert(v2 == (LexView { edges: v1.edges.push((v1.files[f as int], display@, l, d@)), ..v1 }));
            },
            None => {},
        }
    }
    let ghost edge_facts = from matches Some((f, l, d)) ==> {
        &&& the_edge.from@ == old(ctx).files@[f as int]@
        &&& the_edge.to@ == display@
        &&& the_edge.line == l
        &&& the_edge.directive@ == d@
    };
    assert(edge_facts);
    // Cycle check.
    let mut k: usize = 0;
    while k < ctx.stack.len()
        invariant
            0 <= k <= ctx.stack@.len(),
            lex_wf(*ctx),
            lex_grows(*old(ctx), *ctx),
            ctx.stack@ == old(ctx).stack@,
            ctx.files@[fidx as int]@ == display@,
            fidx < ctx.files@.len(),
            edge_words(*old(ctx)) && (from matches Some((_, _, d)) ==> is_include_word(d@)) ==> edge_words(*ctx),
            old(ctx).files@.len() == 0 ==> ctx.files@.len() > 0 && ctx.files@[0]@ == display@,
            from matches Some((f, _, _)) ==> f < ctx.files@.len(),
            from is Some ==> ctx.edges@.len() > old(ctx).edges@.len() && ctx.edges@[old(ctx).edges@.len() as int] == the_edge,
            edge_facts,
            ctx.toks@ == old(ctx).toks@,
            ctx.warnings@ == old(ctx).warnings@,
            ctx.macros@ == old(ctx).macros@,
            lex_view(*ctx) == v2,
            forall|m: int| 0 <= m < k ==> ctx.stack@[m]@ != display@,
        decreases ctx.stack@.len() - k,
    {
        if ctx.stack[k] == display {
            assert(stack_has(old(ctx).stack@, display@));
            if let Some((f, l, _)) = from {
                let mut m = String::from_str("include cycle: ");
                m.append(display.as_str());
                m.append(" skipped");
                let ghost c2 = *ctx;
                ctx.warn(f, l, m);
                proof { lemma_grows_trans(c0, c2, *ctx); }
            }
            return Ok(());
        }
        k += 1;
    }
    let text = match &opened.text {
        Ok(t) => t,
        Err(e) => {
            match from {
                Some((f, l, _)) => {
                    let mut m = String::from_str("cannot read include ");
                    m.append(display.as_str());
                    m.append(": ");
                    m.append(e.as_str());
                    let ghost c2 = *ctx;
                    ctx.warn(f, l, m);
                    proof { lemma_grows_trans(c0, c2, *ctx); }
                    return Ok(());
                },
                None => {
                    let mut m = String::from_str("cannot read ");
                    m.append(display.as_str());
                    m.append(": ");
                    m.append(e.as_str());
                    return Err(LexStop::Fatal(m));
                },
            }
        },
    };
    let cur_dir = copy_string(&opened.dir);
    proof {
        assert(!stack_has(ctx.stack@, display@));
        assert(opens_as(fs@[ai as int], display@));
        lemma_unvisited_push(fs@, ctx.stack@, display);
    }
    let ghost c5 = *ctx;
    let lr = lex_text(ctx, fs, text, &cur_dir, fidx, display, Ghost(ai as int));
    proof {
        lemma_grows_trans(*old(ctx), c5, *ctx);
        assert(string_views(c5.stack@) == stk);
        assert(c5.include_dirs@ == old(ctx).include_dirs@);
        lemma_lex_spec_text(fs@, string_views(old(ctx).include_dirs@), path@, from_view(from), stk, v_old, ai as int, *opened, *text, v2, fidx);
        assert(spec == lines_spec(fs@, string_views(c5.include_dirs@), text_lines(utf8_lossy(text@)), 0, opened.dir@, fidx,
            stk.push(display@), Seq::empty(), false, v2));
    }
    lr
}

proof fn lemma_lex_spec_text(fs: Seq<FileAnswer>, dirs: Seq<Seq<char>>, path: Seq<char>,
    from: Option<(usize, u32, Seq<char>)>, stack: Seq<Seq<char>>, s: LexView, i: int, o: OpenedFile, t: Vec<u8>,
    s2: LexView, fidx: usize)
    requires
        answer_index(fs, path) == Some(i),
        0 <= i < fs.len(),
        fs[i].opened == Ok::<OpenedFile, String>(o),
        o.text == Ok::<Vec<u8>, String>(t),
        interned(s, o.canon@).1 == fidx as int,
        !stack.contains(o.canon@),
        s2 == match from {
            Some((f, l, d)) => LexView { edges: interned(s, o.canon@).0.edges.push((interned(s, o.canon@).0.files[f as int], o.canon@, l, d)), ..interned(s, o.canon@).0 },
            None => interned(s, o.canon@).0,
        },
    ensures
        lex_spec(fs, dirs, path, from, stack, s) == lines_spec(fs, dirs, text_lines(utf8_lossy(t@)), 0, o.dir@, fidx,
            stack.push(o.canon@), Seq::empty(), false, s2),
{
    reveal_with_fuel(lex_spec, 1);
    reveal_with_fuel(lines_spec, 1);
}

/// Lexes the text of file `fidx` (canonical path `display`, in directory
/// `dir`) with it on the include stack, and takes it off again.
fn lex_text(ctx: &mut LexCtx, fs: &[FileAnswer], text: &Vec<u8>, dir: &String, fidx: usize, display: String,
    Ghost(ai): Ghost<int>) -> (r: Result<(), LexStop>)
    requires
        lex_wf(*old(ctx)),
        fidx < old(ctx).files@.len(),
        !stack_has(old(ctx).stack@, display@),
        0 <= ai < fs@.len(),
        opens_as(fs@[ai], display@),
    ensures
        lex_step(fs@, *old(ctx), *final(ctx)),
        need_ok(fs@, r),
        r is Ok ==> final(ctx).stack@ == old(ctx).stack@,
        !(r matches Err(LexStop::Fatal(_))),
        run_matches(lines_spec(fs@, string_views(old(ctx).include_dirs@), text_lines(utf8_lossy(text@)), 0, dir@, fidx,
            string_views(old(ctx).stack@).push(display@), Seq::empty(), false, lex_view(*old(ctx))), *final(ctx), r),
    decreases unvisited(fs@, old(ctx).stack@.push(display)) as int, 3int, 0int,
{
    let decoded = lossy_string(text.as_slice(), 0, text.len());
    let chars = chars_of(decoded.as_str());
    let lines = split_lines(chars.as_slice());
    proof {
        assert(text@.subrange(0, text@.len() as int) =~= text@);
    }
    let ghost c2 = *ctx;
    ctx.stack.push(display);
    let ghost c3 = *ctx;
    proof {
        lemma_view_same(c2, c3);
        assert(string_views(c3.stack@) =~= string_views(c2.stack@).push(display@));
        assert(lex_grows(c2, c3));
    }
    let lr = lex_lines(ctx, fs, &lines, dir, fidx);
    proof { lemma_grows_trans(c2, c3, *ctx); }
    match lr {
        Ok(()) => {},
        Err(e) => return Err(e),
    }
    let ghost c4 = *ctx;
    ctx.stack.pop();
    assert(ctx.stack@ =~= old(ctx).stack@);
    proof { lemma_view_same(c4, *ctx); }
    Ok(())
}

/// Lexes the lines of file `fidx`, whose directory is `cur_dir`, inlining
/// the files they include: what `lines_spec` says, when it says anything.
#[verifier::rlimit(100)]
#[verifier::spinoff_prover]
pub fn lex_lines(ctx: &mut LexCtx, fs: &[FileAnswer], lines: &Vec<Vec<char>>, cur_dir: &String, fidx: usize)
    -> (r: Result<(), LexStop>)
    requires
        lex_wf(*old(ctx)),
        fidx < old(ctx).files@.len(),
    ensures
        lex_step(fs@, *old(ctx), *final(ctx)),
        need_ok(fs@, r),
        r is Ok ==> final(ctx).stack@ == old(ctx).stack@,
        !(r matches Err(LexStop::Fatal(_))),
        run_matches(lines_spec(fs@, string_views(old(ctx).include_dirs@), lines@.map_values(|l: Vec<char>| l@), 0, cur_dir@, fidx,
            string_views(old(ctx).stack@), Seq::empty(), false, lex_view(*old(ctx))), *final(ctx), r),
    decreases unvisited(fs@, old(ctx).stack@) as int, 2int, 0int,
{
    let ghost lv = lines@.map_values(|l: Vec<char>| l@);
    let ghost dirs = string_views(old(ctx).include_dirs@);
    let ghost stk = string_views(old(ctx).stack@);
    let ghost spec0 = lines_spec(fs@, dirs, lv, 0, cur_dir@, fidx, stk, Seq::empty(), false, lex_view(*old(ctx)));
    let ghost mut plain = true;
    let mut conds: Vec<Cond> = Vec::new();
    let mut in_comment = false;
    assert(conds@ =~= Seq::<Cond>::empty());
    let mut i: usize = 0;
    while i < lines.len()
        invariant
            0 <= i <= lines@.len(),
            lex_wf(*ctx),
            lex_grows(*old(ctx), *ctx),
            ctx.stack@ == old(ctx).stack@,
            lv == lines@.map_values(|l: Vec<char>| l@),
            dirs == string_views(old(ctx).include_dirs@),
            stk == string_views(old(ctx).stack@),
            spec0 == lines_spec(fs@, dirs, lv, 0, cur_dir@, fidx, stk, Seq::empty(), false, lex_view(*old(ctx))),
            plain ==> spec0 == lines_spec(fs@, dirs, lv, i as int, cur_dir@, fidx, stk, conds@, in_comment, lex_view(*ctx)),
            !plain ==> spec0 is None,
            edge_words(*old(ctx)) ==> edge_words(*ctx),
            fidx < ctx.files@.len(),
        decreases lines@.len() - i,
    {
        let line_no = #[verifier::truncate] ((i + 1) as u32);
        let ghost i0 = i as int;
        let raw = &lines[i];
        let ghost v0 = lex_view(*ctx);
        let ghost cs0 = conds@;
        let ghost ic0 = in_comment;
        proof {
            assert(lv[i0] == raw@);
            assert(line_no == (i0 + 1) as u32);
            reveal_with_fuel(lines_spec, 1);
        }
        if !in_comment {
            let ws = skip_whitespace(raw.as_slice(), 0);
            if let Some((a, b)) = directive_word(raw.as_slice(), ws) {
                let word = copy_chars(raw.as_slice(), a, b);
                if pp_keyword(word.as_slice()) {
                    assert(is_directive_line(raw@));
                    // Merge backslash line continuations into one logical line.
                    let te = trim_end_index(raw.as_slice(), raw.len());
                    let mut logical = copy_chars(raw.as_slice(), 0, te);
                    let ghost first = logical@;
                    while logical.len() > 0 && logical[logical.len() - 1] == '\\' && i < lines.len() - 1
                        invariant
                            0 <= i < lines@.len(),
                            i0 <= i,
                            lv == lines@.map_values(|l: Vec<char>| l@),
                            joined_lines(lv, i0, first) == joined_lines(lv, i as int, logical@),
                        decreases lines@.len() - i,
                    {
                        let ghost before = logical@;
                        logical.pop();
                        logical.push(' ');
                        i += 1;
                        let next = &lines[i];
                        assert(lv[i as int] == next@);
                        let ne = trim_end_index(next.as_slice(), next.len());
                        let ghost base = logical@;
                        let mut t: usize = 0;
                        while t < ne
                            invariant
                                0 <= t <= ne <= next@.len(),
                                logical@ == base + next@.subrange(0, t as int),
                            decreases ne - t,
                        {
                            logical.push(next[t]);
                            t += 1;
                            assert(logical@ =~= base + next@.subrange(0, t as int));
                        }
                        assert(base =~= before.drop_last().push(' '));
                    }
                    let ghost j = i as int;
                    proof {
                        assert(joined_lines(lv, j, logical@) == (logical@, j));
                    }
                    let ghost c4 = *ctx;
                    let hr = handle_directive(ctx, fs, &mut conds, logical.as_slice(), cur_dir, fidx, line_no);
                    proof {
                        lemma_grows_trans(*old(ctx), c4, *ctx);
                        if plain {
                            match directive_fn(logical@, cs0, macro_map(c4.macros@)) {
                                Some((nc, m2, w)) => {
                                    lemma_view_directive(c4, *ctx, w, fidx, line_no);
                                    lemma_view_parts(c4);
                                },
                                None => {
                                    lemma_view_parts(c4);
                                    match include_search(fs@, include_candidates(cur_dir@, dirs, include_target(logical@).0, include_target(logical@).1), 0) {
                                        Ok(Some(p)) => {
                                            if !(lex_spec(fs@, dirs, p, Some((fidx, line_no, "#include"@)), stk, v0) matches Some(LexOut::Done(_))) {
                                                if lex_spec(fs@, dirs, p, Some((fidx, line_no, "#include"@)), stk, v0) is None {
                                                    plain = false;
                                                }
                                            }
                                        },
                                        _ => {},
                                    }
                                },
                            }
                        }
                    }
                    match hr {
                        Ok(()) => {},
                        Err(e) => return Err(e),
                    }
                    i += 1;
                    continue;
                }
            }
        }
        proof {
            assert(!(!ic0 && is_directive_line(raw@)) || !plain);
        }
        if conds_active(&conds) {
            let ghost c5 = *ctx;
            let tr = tokenize_line(ctx, fs, &mut in_comment, raw.as_slice(), fidx, line_no, cur_dir, 0, false);
            proof {
                lemma_grows_trans(*old(ctx), c5, *ctx);
                let ls = line_spec(fs@, dirs, cur_dir@, stk, raw@, 0, ic0, false, fidx, line_no, v0);
                lemma_line_matches_use(ls, *ctx, in_comment, tr);
                if plain && ls is None {
                    plain = false;
                }
            }
            match tr {
                Ok(()) => {},
                Err(e) => return Err(e),
            }
        }
        i += 1;
    }
    proof { reveal_with_fuel(lines_spec, 1); }
    if conds.len() > 0 {
        let ghost c6 = *ctx;
        ctx.warn(fidx, #[verifier::truncate] (lines.len() as u32), String::from_str("unterminated #if/#ifdef"));
        proof { lemma_grows_trans(*old(ctx), c6, *ctx); }
    }
    Ok(())
}

/// What a directive line does when it pulls in no file: the conditional
/// stack and the macros after it, and its warnings; nothing for an active
/// `#include` of a well-formed name.
pub open spec fn directive_fn(l: Seq<char>, oc: Seq<Cond>, m: Map<Seq<char>, MacroDef>)
    -> Option<(Seq<Cond>, Map<Seq<char>, MacroDef>, Seq<Seq<char>>)>
{
    match directive_spec(l, skip_ws(l, 0)) {
        None => Some((oc, m, Seq::empty())),
        Some((a, b)) => {
            let w = l.subrange(a, b);
            let rest = directive_rest(l, b);
            let p = all_active(oc);
            let n = ident_end(rest, 0);
            let none: Seq<Seq<char>> = Seq::empty();
            if w == "include"@ {
                if !p {
                    Some((oc, m, none))
                } else if rest.len() > 0 && rest[0] == '"' {
                    match first_index(rest, 1, '"') {
                        Some(_) => None,
                        None => Some((oc, m, seq!["malformed #include"@])),
                    }
                } else if rest.len() > 0 && rest[0] == '<' {
                    match first_index(rest, 1, '>') {
                        Some(_) => None,
                        None => Some((oc, m, seq!["malformed #include"@])),
                    }
                } else {
                    Some((oc, m, seq!["unsupported #include form: "@ + rest]))
                }
            } else if w == "define"@ {
                if !p {
                    Some((oc, m, none))
                } else if n == 0 {
                    Some((oc, m, seq!["malformed #define"@]))
                } else if n < rest.len() && rest[n] == '(' {
                    match first_index(rest, n + 1, ')') {
                        Some(k) => Some((oc, m.insert(rest.subrange(0, n), MacroDef::Func(
                            param_names(rest.subrange(n + 1, k)), trimmed(rest.subrange(k + 1, rest.len() as int)))), none)),
                        None => Some((oc, m, seq!["malformed function-like #define"@])),
                    }
                } else {
                    Some((oc, m.insert(rest.subrange(0, n), MacroDef::Object(trimmed(rest.subrange(n, rest.len() as int)))), none))
                }
            } else if w == "undef"@ {
                Some((oc, if p { m.remove(first_word(rest)) } else { m }, none))
            } else if w == "ifdef"@ || w == "ifndef"@ {
                let d = m.contains_key(first_word(rest));
                let val = if w == "ifdef"@ { d } else { !d };
                Some((oc.push(Cond { active: p && val, taken: if p { val } else { true }, parent_active: p }), m, none))
            } else if w == "if"@ {
                let ev = pp_eval(m, rest, 0);
                let val = p && (ev is None || ev->0 != 0);
                let warn = if p && ev is None { seq!["cannot evaluate #if "@ + rest + "; assuming true"@] } else { none };
                Some((oc.push(Cond { active: val, taken: if p { val } else { true }, parent_active: p }), m, warn))
            } else if w == "elif"@ {
                if oc.len() == 0 {
                    Some((oc, m, seq!["#elif without #if"@]))
                } else {
                    let top = oc.last();
                    if top.taken || !top.parent_active {
                        Some((oc.update(oc.len() - 1, Cond { active: false, taken: top.taken, parent_active: top.parent_active }), m, none))
                    } else {
                        let ev = pp_eval(m, rest, 0);
                        let v = ev is None || ev->0 != 0;
                        let warn = if ev is None { seq!["cannot evaluate #elif "@ + rest + "; assuming true"@] } else { none };
                        Some((oc.update(oc.len() - 1, Cond { active: v, taken: v, parent_active: top.parent_active }), m, warn))
                    }
                }
            } else if w == "else"@ {
                if oc.len() == 0 {
                    Some((oc, m, seq!["#else without #if"@]))
                } else {
                    let top = oc.last();
                    Some((oc.update(oc.len() - 1, Cond { active: top.parent_active && !top.taken, taken: true, parent_active: top.parent_active }), m, none))
                }
            } else if w == "endif"@ {
                if oc.len() == 0 {
                    Some((oc, m, seq!["#endif without #if"@]))
                } else {
                    Some((oc.drop_last(), m, none))
                }
            } else if w == "error"@ {
                Some((oc, m, if p { seq!["#error "@ + rest] } else { none }))
            } else if w == "warning"@ {
                Some((oc, m, if p { seq!["#warning "@ + rest] } else { none }))
            } else {
                Some((oc, m, none))
            }
        },
    }
}

/// Lexes the file that an `#include` of `spec` names in place, or warns
/// that there is none.
fn run_include(ctx: &mut LexCtx, fs: &[FileAnswer], spec: &[char], angled: bool, cur_dir: &String, fidx: usize, line_no: u32,
    directive: &'static str) -> (r: Result<(), LexStop>)
    requires
        lex_wf(*old(ctx)),
        is_include_word(directive@),
        fidx < old(ctx).files@.len()
            || !(include_search(fs@, include_candidates(cur_dir@, string_views(old(ctx).include_dirs@), spec@, angled), 0)
                matches Ok(Some(_))),
    ensures
        lex_step(fs@, *old(ctx), *final(ctx)),
        need_ok(fs@, r),
        r is Ok ==> final(ctx).stack@ == old(ctx).stack@,
        !(r matches Err(LexStop::Fatal(_))),
        include_run(fs@, string_views(old(ctx).include_dirs@), cur_dir@, spec@, angled, fidx, line_no, directive@,
            string_views(old(ctx).stack@), *old(ctx), *final(ctx), r),
    decreases unvisited(fs@, old(ctx).stack@) as int, 0int, 1int,
{
    let found = match resolve_include(fs, cur_dir, &ctx.include_dirs, spec, angled) {
        Ok(f) => f,
        Err(e) => return Err(e),
    };
    match found {
        Some(p) => {
            let lr = lex_file(ctx, fs, &p, Some((fidx, line_no, directive)));
            match lr {
                Ok(()) => {},
                Err(e) => return Err(e),
            }
        },
        None => {
            ctx.warn(fidx, line_no, message("include not found: ", spec));
        },
    }
    Ok(())
}

/// Handles one preprocessor directive line of file `fidx`. Any file index
/// is taken (warnings name an unknown file `?`), except for an active
/// `#include` that finds a file: the include edge names the including file,
/// which must then be known.
#[verifier::rlimit(60)]
#[verifier::spinoff_prover]
pub fn handle_directive(
    ctx: &mut LexCtx,
    fs: &[FileAnswer],
    conds: &mut Vec<Cond>,
    logical: &[char],
    cur_dir: &String,
    fidx: usize,
    line_no: u32,
) -> (r: Result<(), LexStop>)
    requires
        lex_wf(*old(ctx)),
        fidx < old(ctx).files@.len()
            || !(directive_fn(logical@, old(conds)@, macro_map(old(ctx).macros@)) is None
                && include_search(fs@, include_candidates(cur_dir@, string_views(old(ctx).include_dirs@),
                    include_target(logical@).0, include_target(logical@).1), 0) matches Ok(Some(_))),
    ensures
        lex_step(fs@, *old(ctx), *final(ctx)),
        need_ok(fs@, r),
        r is Ok ==> final(ctx).stack@ == old(ctx).stack@,
        !(r matches Err(LexStop::Fatal(_))),
        match directive_fn(logical@, old(conds)@, macro_map(old(ctx).macros@)) {
            Some((nc, m2, w)) => {
                &&& r is Ok
                &&& final(conds)@ == nc
                &&& macro_map(final(ctx).macros@) == m2
                &&& final(ctx).toks@ == old(ctx).toks@
                &&& final(ctx).files@ == old(ctx).files@
                &&& final(ctx).edges@ == old(ctx).edges@
                &&& warns_added(old(ctx).files@, old(ctx).warnings@, final(ctx).warnings@, w, fidx, line_no)
            },
            None => {
                &&& final(conds)@ == old(conds)@
                &&& include_run(fs@, string_views(old(ctx).include_dirs@), cur_dir@, include_target(logical@).0, include_target(logical@).1,
                    fidx, line_no, "#include"@, string_views(old(ctx).stack@), *old(ctx), *final(ctx), r)
            },
        },
    decreases unvisited(fs@, old(ctx).stack@) as int, 1int, 0int,
{
    let active = conds_active(conds);
    let st = skip_whitespace(logical, 0);
    let (a, b) = match directive_word(logical, st) {
        Some(wb) => wb,
        None => {
            assert(directive_spec(logical@, skip_ws(logical@, 0)) is None);
            proof { lemma_added_refl(ctx.files@, ctx.toks@, ctx.warnings@, fidx, line_no); }
            return Ok(());
        },
    };
    let word = copy_chars(logical, a, b);
    let tail = copy_chars(logical, b, logical.len());
    let rest = trim_copy(tail.as_slice());
    let ghost mm = macro_map(ctx.macros@);
    if word_is(word.as_slice(), "include") {
        if !active {
            return Ok(());
        }
        let (spec, angled) = if rest.len() > 0 && rest[0] == '"' {
            match find_char(rest.as_slice(), 1, '"') {
                Some(k) => (copy_chars(rest.as_slice(), 1, k), false),
                None => {
                    ctx.warn(fidx, line_no, String::from_str("malformed #include"));
                    return Ok(());
                },
            }
        } else if rest.len() > 0 && rest[0] == '<' {
            match find_char(rest.as_slice(), 1, '>') {
                Some(k) => (copy_chars(rest.as_slice(), 1, k), true),
                None => {
                    ctx.warn(fidx, line_no, String::from_str("malformed #include"));
                    return Ok(());
                },
            }
        } else {
            ctx.warn(fidx, line_no, message("unsupported #include form: ", rest.as_slice()));
            return Ok(());
        };
        assert(include_target(logical@) == (spec@, angled));
        assert(directive_fn(logical@, old(conds)@, mm) is None);
        return run_include(ctx, fs, spec.as_slice(), angled, cur_dir, fidx, line_no, "#include");
    }
    if word_is(word.as_slice(), "define") {
        if !active {
            return Ok(());
        }
        let n = ident_len(rest.as_slice());
        if n == 0 {
            ctx.warn(fidx, line_no, String::from_str("malformed #define"));
            return Ok(());
        }
        let name = copy_chars(rest.as_slice(), 0, n);
        if n < rest.len() && rest[n] == '(' {
            match find_char(rest.as_slice(), n + 1, ')') {
                Some(k) => {
                    let params_text = copy_chars(rest.as_slice(), n + 1, k);
                    let params = split_params(params_text.as_slice());
                    let body_text = copy_chars(rest.as_slice(), k + 1, rest.len());
                    let body = trim_copy(body_text.as_slice());
                    let m = Macro::Func { params, body };
                    let ghost d = macro_def(m);
                    let ghost before = ctx.macros@;
                    let ghost nm = name@;
                    ctx.macros.push((name, Some(m)));
                    assert(ctx.macros@.drop_last() =~= before);
                    assert(macro_map(ctx.macros@) == macro_map(before).insert(nm, d));
                },
                None => {
                    ctx.warn(fidx, line_no, String::from_str("malformed function-like #define"));
                },
            }
        } else {
            let after = copy_chars(rest.as_slice(), n, rest.len());
            let body = trim_copy(after.as_slice());
            let ghost before = ctx.macros@;
            ctx.macros.push((name, Some(Macro::Object(body))));
            assert(ctx.macros@.drop_last() =~= before);
        }
        return Ok(());
    }
    if word_is(word.as_slice(), "undef") {
        if active {
            let name = first_word_copy(rest.as_slice());
            let ghost before = ctx.macros@;
            ctx.macros.push((name, None));
            assert(ctx.macros@.drop_last() =~= before);
        }
        return Ok(());
    }
    if word_is(word.as_slice(), "ifdef") || word_is(word.as_slice(), "ifndef") {
        let name = first_word_copy(rest.as_slice());
        let defined = find_macro(&ctx.macros, name.as_slice()).is_some();
        let val = if word_is(word.as_slice(), "ifdef") { defined } else { !defined };
        conds.push(Cond { active: active && val, taken: if active { val } else { true }, parent_active: active });
        return Ok(());
    }
    if word_is(word.as_slice(), "if") {
        let val = if active {
            match eval_pp_expr(&ctx.macros, rest.as_slice(), 0) {
                Some(v) => v != 0,
                None => {
                    let mut m = message("cannot evaluate #if ", rest.as_slice());
                    m.append("; assuming true");
                    ctx.warn(fidx, line_no, m);
                    true
                },
            }
        } else {
            false
        };
        conds.push(Cond { active: active && val, taken: if active { val } else { true }, parent_active: active });
        return Ok(());
    }
    if word_is(word.as_slice(), "elif") {
        let n = conds.len();
        if n == 0 {
            ctx.warn(fidx, line_no, String::from_str("#elif without #if"));
            return Ok(());
        }
        let top = conds[n - 1];
        if top.taken || !top.parent_active {
            conds.set(n - 1, Cond { active: false, taken: top.taken, parent_active: top.parent_active });
        } else {
            let val = match eval_pp_expr(&ctx.macros, rest.as_slice(), 0) {
                Some(v) => v != 0,
                None => {
                    let mut m = message("cannot evaluate #elif ", rest.as_slice());
                    m.append("; assuming true");
                    ctx.warn(fidx, line_no, m);
                    true
                },
            };
            conds.set(n - 1, Cond { active: val, taken: val, parent_active: top.parent_active });
        }
        return Ok(());
    }
    if word_is(word.as_slice(), "else") {
        let n = conds.len();
        if n == 0 {
            ctx.warn(fidx, line_no, String::from_str("#else without #if"));
            return Ok(());
        }
        let top = conds[n - 1];
        conds.set(n - 1, Cond { active: top.parent_active && !top.taken, taken: true, parent_active: top.parent_active });
        return Ok(());
    }
    if word_is(word.as_slice(), "endif") {
        if conds.pop().is_none() {
            ctx.warn(fidx, line_no, String::from_str("#endif without #if"));
        }
        return Ok(());
    }
    if word_is(word.as_slice(), "error") {
        if active {
            ctx.warn(fidx, line_no, message("#error ", rest.as_slice()));
        }
        return Ok(());
    }
    if word_is(word.as_slice(), "warning") {
        if active {
            ctx.warn(fidx, line_no, message("#warning ", rest.as_slice()));
        }
        return Ok(());
    }
    // "pragma", "line", and anything else: ignore.
    Ok(())
}


// ---------------------------------------------------------------------------
// What a line lexes to
// ---------------------------------------------------------------------------

/// The tokens, the comment state at the end, and the warnings that lexing
/// a line gives, tokens as (kind, text, glued).
pub struct LineScan {
    pub toks: Seq<(TokKind, Seq<char>, bool)>,
    pub in_comment: bool,
    pub warnings: Seq<Seq<char>>,
    /// Where the line goes on after an `/include/` keyword that stopped the
    /// scan, and whether the next token would be glued; none when the scan
    /// reached the end of the line.
    pub rest: Option<(int, bool)>,
}

/// The scan of a line that ends here.
pub open spec fn scan_done(in_comment: bool) -> LineScan {
    LineScan { toks: Seq::empty(), in_comment, warnings: Seq::empty(), rest: None }
}

/// `a` followed by `b`, when `b` is known.
pub open spec fn scan_then(a: LineScan, b: Option<LineScan>) -> Option<LineScan> {
    match b {
        Some(b) => Some(LineScan { toks: a.toks + b.toks, in_comment: b.in_comment, warnings: a.warnings + b.warnings, rest: b.rest }),
        None => None,
    }
}

/// One token and the warnings about it, before what follows.
pub open spec fn scan_emit(t: (TokKind, Seq<char>, bool), w: Seq<Seq<char>>, rest: Option<LineScan>) -> Option<LineScan> {
    scan_then(LineScan { toks: seq![t], in_comment: false, warnings: w, rest: None }, rest)
}

/// Where a block comment that continues at `j` ends: the position of its
/// `*/`.
pub open spec fn comment_close(s: Seq<char>, j: int) -> Option<int>
    decreases s.len() - j,
{
    if j < 0 || j + 1 >= s.len() {
        None
    } else if s[j] == '*' && s[j + 1] == '/' {
        Some(j)
    } else {
        comment_close(s, j + 1)
    }
}

pub open spec fn is_kw_char(c: char) -> bool {
    crate::text::spec_is_ascii_lower(c) || crate::text::spec_is_ascii_digit(c) || c == '-'
}

/// First position at or after `j` that cannot continue a slash keyword.
pub open spec fn kw_end(s: Seq<char>, j: int) -> int
    decreases s.len() - j,
{
    if 0 <= j < s.len() && is_kw_char(s[j]) { kw_end(s, j + 1) } else { j }
}

/// A `/keyword/` starts at `i`.
pub open spec fn slash_kw_at(s: Seq<char>, i: int) -> bool {
    &&& 0 <= i
    &&& i + 1 < s.len()
    &&& s[i] == '/'
    &&& crate::text::spec_is_ascii_lower(s[i + 1])
    &&& kw_end(s, i + 1) < s.len()
    &&& s[kw_end(s, i + 1)] == '/'
}

/// End of a quoted literal whose text continues at `j`, and whether the
/// closing quote `q` was found.
pub open spec fn quoted_end(s: Seq<char>, j: int, q: char) -> (int, bool)
    decreases s.len() - j,
{
    if j < 0 || j >= s.len() {
        (j, false)
    } else if s[j] == '\\' && j + 1 < s.len() {
        quoted_end(s, j + 2, q)
    } else if s[j] == q {
        (j + 1, true)
    } else {
        quoted_end(s, j + 1, q)
    }
}

pub open spec fn hex_end(s: Seq<char>, j: int) -> int
    decreases s.len() - j,
{
    if 0 <= j < s.len() && crate::text::spec_is_ascii_hexdigit(s[j]) { hex_end(s, j + 1) } else { j }
}

pub open spec fn dec_end(s: Seq<char>, j: int) -> int
    decreases s.len() - j,
{
    if 0 <= j < s.len() && crate::text::spec_is_ascii_digit(s[j]) { dec_end(s, j + 1) } else { j }
}

pub open spec fn suffix_end(s: Seq<char>, j: int) -> int
    decreases s.len() - j,
{
    if 0 <= j < s.len() && (s[j] == 'u' || s[j] == 'U' || s[j] == 'l' || s[j] == 'L') { suffix_end(s, j + 1) } else { j }
}

/// End of the number that starts at `i`: hex digits after `0x`, decimal
/// digits otherwise, then integer suffixes.
pub open spec fn num_end(s: Seq<char>, i: int) -> int {
    if s[i] == '0' && i + 1 < s.len() && (s[i + 1] == 'x' || s[i + 1] == 'X') {
        suffix_end(s, hex_end(s, i + 2))
    } else {
        suffix_end(s, dec_end(s, i))
    }
}

pub proof fn lemma_comment_close(s: Seq<char>, j: int)
    requires
        0 <= j,
    ensures
        comment_close(s, j) matches Some(k) ==> j <= k && k + 1 < s.len(),
    decreases s.len() - j,
{
    if j + 1 < s.len() && !(s[j] == '*' && s[j + 1] == '/') {
        lemma_comment_close(s, j + 1);
    }
}

pub proof fn lemma_kw_end(s: Seq<char>, j: int)
    requires
        0 <= j <= s.len(),
    ensures
        j <= kw_end(s, j) <= s.len(),
    decreases s.len() - j,
{
    if j < s.len() && is_kw_char(s[j]) {
        lemma_kw_end(s, j + 1);
    }
}

pub proof fn lemma_quoted_end(s: Seq<char>, j: int, q: char)
    requires
        0 <= j <= s.len(),
    ensures
        j <= quoted_end(s, j, q).0 <= s.len(),
    decreases s.len() - j,
{
    if j < s.len() {
        if s[j] == '\\' && j + 1 < s.len() {
            lemma_quoted_end(s, j + 2, q);
        } else if s[j] != q {
            lemma_quoted_end(s, j + 1, q);
        }
    }
}

pub proof fn lemma_num_end(s: Seq<char>, i: int)
    requires
        0 <= i < s.len(),
        crate::text::spec_is_ascii_digit(s[i]),
    ensures
        i < num_end(s, i) <= s.len(),
{
    lemma_hex_end(s, i + 1);
    lemma_dec_end(s, i);
    if s[i] == '0' && i + 1 < s.len() && (s[i + 1] == 'x' || s[i + 1] == 'X') {
        lemma_hex_end(s, i + 2);
        lemma_suffix_end(s, hex_end(s, i + 2));
    } else {
        lemma_dec_end(s, i + 1);
        lemma_suffix_end(s, dec_end(s, i));
    }
}

pub proof fn lemma_hex_end(s: Seq<char>, j: int)
    requires
        0 <= j <= s.len(),
    ensures
        j <= hex_end(s, j) <= s.len(),
    decreases s.len() - j,
{
    if j < s.len() && crate::text::spec_is_ascii_hexdigit(s[j]) {
        lemma_hex_end(s, j + 1);
    }
}

pub proof fn lemma_dec_end(s: Seq<char>, j: int)
    requires
        0 <= j <= s.len(),
    ensures
        j <= dec_end(s, j) <= s.len(),
    decreases s.len() - j,
{
    if j < s.len() && crate::text::spec_is_ascii_digit(s[j]) {
        lemma_dec_end(s, j + 1);
    }
}

pub proof fn lemma_suffix_end(s: Seq<char>, j: int)
    requires
        0 <= j <= s.len(),
    ensures
        j <= suffix_end(s, j) <= s.len(),
    decreases s.len() - j,
{
    if j < s.len() && (s[j] == 'u' || s[j] == 'U' || s[j] == 'l' || s[j] == 'L') {
        lemma_suffix_end(s, j + 1);
    }
}

pub proof fn lemma_args_scan(cs: Seq<char>, j: int, depth: int, in_str: bool, args: Seq<Seq<char>>, cur: Seq<char>)
    requires
        0 <= j,
    ensures
        args_scan(cs, j, depth, in_str, args, cur) matches Some((_, after)) ==> j < after <= cs.len(),
    decreases cs.len() - j,
{
    if j < cs.len() {
        let c = cs[j];
        if in_str {
            if c == '\\' && j + 1 < cs.len() {
                lemma_args_scan(cs, j + 2, depth, true, args, cur.push(c).push(cs[j + 1]));
            } else if c == '"' {
                lemma_args_scan(cs, j + 1, depth, false, args, cur.push(c));
            } else {
                lemma_args_scan(cs, j + 1, depth, true, args, cur.push(c));
            }
        } else if c == '"' {
            lemma_args_scan(cs, j + 1, depth, true, args, cur.push(c));
        } else if c == '(' {
            lemma_args_scan(cs, j + 1, depth + 1, false, args, if depth + 1 > 1 { cur.push(c) } else { cur });
        } else if c == ')' {
            if depth - 1 != 0 {
                lemma_args_scan(cs, j + 1, depth - 1, false, args, cur.push(c));
            }
        } else if c == ',' && depth == 1 {
            lemma_args_scan(cs, j + 1, depth, false, args.push(trimmed(cur)), Seq::empty());
        } else {
            lemma_args_scan(cs, j + 1, depth, false, args, cur.push(c));
        }
    }
}

pub proof fn lemma_first_index(s: Seq<char>, lo: int, c: char)
    requires
        0 <= lo,
    ensures
        first_index(s, lo, c) matches Some(k) ==> lo <= k < s.len() && s[k] == c,
    decreases s.len() - lo,
{
    if lo < s.len() && s[lo] != c {
        lemma_first_index(s, lo + 1, c);
    }
}

/// What lexing `s` from `i` gives at macro depth `depth` with macros `m`,
/// up to the first `/include/` at depth 0, where `rest` says how the line
/// goes on.
pub open spec fn line_scan(s: Seq<char>, i: int, in_comment: bool, glued: bool, m: Map<Seq<char>, MacroDef>, depth: int)
    -> Option<LineScan>
    decreases MAX_MACRO_DEPTH - depth, s.len() - i,
{
    if i < 0 || i >= s.len() {
        Some(scan_done(in_comment))
    } else if in_comment {
        proof { lemma_comment_close(s, i); }
        match comment_close(s, i) {
            Some(j) => line_scan(s, j + 2, false, false, m, depth),
            None => Some(scan_done(true)),
        }
    } else {
        let c = s[i];
        if spec_is_whitespace(c) {
            line_scan(s, i + 1, false, false, m, depth)
        } else if c == '/' && i + 1 < s.len() && s[i + 1] == '/' {
            Some(scan_done(false))
        } else if c == '/' && i + 1 < s.len() && s[i + 1] == '*' {
            line_scan(s, i + 2, true, glued, m, depth)
        } else if slash_kw_at(s, i) {
            let j = kw_end(s, i + 1);
            proof { lemma_kw_end(s, i + 1); }
            let kw = s.subrange(i + 1, j);
            if kw == "include"@ && depth == 0 {
                Some(LineScan { toks: Seq::empty(), in_comment: false, warnings: Seq::empty(), rest: Some((j + 1, glued)) })
            } else {
                scan_emit((TokKind::SlashKw, kw, glued), Seq::empty(), line_scan(s, j + 1, false, true, m, depth))
            }
        } else if c == '"' || c == '\'' {
            let (e, closed) = quoted_end(s, i + 1, c);
            proof { lemma_quoted_end(s, i + 1, c); }
            let text = if closed { s.subrange(i, e) } else { s.subrange(i, e).push(c) };
            let kind = if c == '"' { TokKind::Str } else { TokKind::CharLit };
            let w: Seq<Seq<char>> = if closed {
                Seq::empty()
            } else if c == '"' {
                seq!["unterminated string literal"@]
            } else {
                seq!["unterminated char literal"@]
            };
            scan_emit((kind, text, glued), w, line_scan(s, e, false, true, m, depth))
        } else if crate::text::spec_is_ascii_alpha(c) || c == '_' {
            let j = ident_end(s, i);
            proof { lemma_ident_end(s, i + 1); }
            let name = s.subrange(i, j);
            let plain = scan_emit((TokKind::Ident, name, glued), Seq::empty(), line_scan(s, j, false, true, m, depth));
            if depth < MAX_MACRO_DEPTH && m.contains_key(name) {
                match m[name] {
                    MacroDef::Object(body) => match line_scan(body, 0, false, glued, m, depth + 1) {
                        Some(inner) => if inner.rest is None { scan_then(inner, line_scan(s, j, false, true, m, depth)) } else { None },
                        None => None,
                    },
                    MacroDef::Func(params, body) => {
                        let k = skip_ws(s, j);
                        proof { lemma_skip_ws(s, j); lemma_args_scan(s, k, 0, false, Seq::empty(), Seq::empty()); }
                        if k < s.len() && s[k] == '(' {
                            match args_scan(s, k, 0, false, Seq::empty(), Seq::empty()) {
                                Some((args, after)) => match line_scan(substituted(body, 0, params, args), 0, false, glued, m, depth + 1) {
                                    Some(inner) => if inner.rest is None {
                                        scan_then(inner, line_scan(s, after, false, true, m, depth))
                                    } else {
                                        None
                                    },
                                    None => None,
                                },
                                None => scan_emit((TokKind::Ident, name, glued),
                                    seq!["unclosed arguments for macro "@ + name], line_scan(s, j, false, true, m, depth)),
                            }
                        } else {
                            plain
                        }
                    },
                }
            } else {
                plain
            }
        } else if crate::text::spec_is_ascii_digit(c) {
            let e = num_end(s, i);
            proof { lemma_num_end(s, i); }
            scan_emit((TokKind::Num, s.subrange(i, e), glued), Seq::empty(), line_scan(s, e, false, true, m, depth))
        } else if c == '&' && i + 1 < s.len() && s[i + 1] == '{' {
            proof { lemma_first_index(s, i + 2, '}'); }
            let (e, w) = match first_index(s, i + 2, '}') {
                Some(k) => (k + 1, Seq::<Seq<char>>::empty()),
                None => (s.len() as int, seq!["unterminated &{...} reference"@]),
            };
            scan_emit((TokKind::PathRef, s.subrange(i, e), glued), w, line_scan(s, e, false, true, m, depth))
        } else {
            scan_emit((TokKind::Punct, seq![c], glued), Seq::empty(), line_scan(s, i + 1, false, true, m, depth))
        }
    }
}

/// Scanning a line always gives an answer. Inside a macro expansion it never
/// stops at an `/include/`; where it stops at one, the line goes on after
/// where the scan began and within the line.
pub proof fn lemma_line_scan_some(s: Seq<char>, i: int, ic: bool, g: bool, m: Map<Seq<char>, MacroDef>, depth: int)
    requires
        0 <= i,
        0 <= depth <= MAX_MACRO_DEPTH,
    ensures
        line_scan(s, i, ic, g, m, depth) matches Some(sc)
            && (sc.rest matches Some((j, _)) ==> depth == 0 && i < j <= s.len()),
    decreases MAX_MACRO_DEPTH - depth, s.len() - i,
{
    if i >= s.len() {
    } else if ic {
        lemma_comment_close(s, i);
        match comment_close(s, i) {
            Some(j) => lemma_line_scan_some(s, j + 2, false, false, m, depth),
            None => {},
        }
    } else {
        let c = s[i];
        if spec_is_whitespace(c) {
            lemma_line_scan_some(s, i + 1, false, false, m, depth);
        } else if c == '/' && i + 1 < s.len() && s[i + 1] == '/' {
        } else if c == '/' && i + 1 < s.len() && s[i + 1] == '*' {
            lemma_line_scan_some(s, i + 2, true, g, m, depth);
        } else if slash_kw_at(s, i) {
            let j = kw_end(s, i + 1);
            lemma_kw_end(s, i + 1);
            if !(s.subrange(i + 1, j) == "include"@ && depth == 0) {
                lemma_line_scan_some(s, j + 1, false, true, m, depth);
            }
        } else if c == '"' || c == '\'' {
            lemma_quoted_end(s, i + 1, c);
            lemma_line_scan_some(s, quoted_end(s, i + 1, c).0, false, true, m, depth);
        } else if crate::text::spec_is_ascii_alpha(c) || c == '_' {
            let j = ident_end(s, i);
            lemma_ident_end(s, i + 1);
            let name = s.subrange(i, j);
            lemma_line_scan_some(s, j, false, true, m, depth);
            if depth < MAX_MACRO_DEPTH && m.contains_key(name) {
                match m[name] {
                    MacroDef::Object(body) => {
                        lemma_line_scan_some(body, 0, false, g, m, depth + 1);
                    },
                    MacroDef::Func(params, body) => {
                        let k = skip_ws(s, j);
                        lemma_skip_ws(s, j);
                        if k < s.len() && s[k] == '(' {
                            lemma_args_scan(s, k, 0, false, Seq::empty(), Seq::empty());
                            match args_scan(s, k, 0, false, Seq::empty(), Seq::empty()) {
                                Some((args, after)) => {
                                    lemma_line_scan_some(substituted(body, 0, params, args), 0, false, g, m, depth + 1);
                                    lemma_line_scan_some(s, after, false, true, m, depth);
                                },
                                None => {},
                            }
                        }
                    },
                }
            }
        } else if crate::text::spec_is_ascii_digit(c) {
            lemma_num_end(s, i);
            lemma_line_scan_some(s, num_end(s, i), false, true, m, depth);
        } else if c == '&' && i + 1 < s.len() && s[i + 1] == '{' {
            lemma_first_index(s, i + 2, '}');
            let e = match first_index(s, i + 2, '}') {
                Some(k) => k + 1,
                None => s.len() as int,
            };
            lemma_line_scan_some(s, e, false, true, m, depth);
        } else {
            lemma_line_scan_some(s, i + 1, false, true, m, depth);
        }
    }
}

/// `new` is `old` with the tokens `add` of line `line` in file `fidx`
/// appended.
pub open spec fn toks_added(old: Seq<Tok>, new: Seq<Tok>, add: Seq<(TokKind, Seq<char>, bool)>, fidx: usize, line: u32) -> bool {
    &&& new.len() == old.len() + add.len()
    &&& forall|k: int| 0 <= k < old.len() ==> new[k] == old[k]
    &&& forall|k: int| 0 <= k < add.len() ==> {
        let t = #[trigger] new[old.len() + k];
        &&& t.kind == add[k].0
        &&& t.text@ == add[k].1
        &&& t.glued == add[k].2
        &&& t.file == fidx
        &&& t.line == line
    }
}

/// `new` is `old` with the warnings `add`, reported at `fidx:line`,
/// appended.
pub open spec fn warns_added(files: Seq<String>, old: Seq<String>, new: Seq<String>, add: Seq<Seq<char>>, fidx: usize, line: u32) -> bool {
    &&& new.len() == old.len() + add.len()
    &&& forall|k: int| 0 <= k < old.len() ==> new[k] == old[k]
    &&& forall|k: int| 0 <= k < add.len() ==> (#[trigger] new[old.len() + k])@ == warn_text(files, fidx as int, line, add[k])
}

fn emit(ctx: &mut LexCtx, glued: &mut bool, kind: TokKind, text: Vec<char>, fidx: usize, line: u32)
    requires
        lex_wf(*old(ctx)),
    ensures
        lex_wf(*final(ctx)),
        lex_grows(*old(ctx), *final(ctx)),
        *final(glued),
        final(ctx).toks@ == old(ctx).toks@.push(Tok { kind, text, file: fidx, line, glued: *old(glued) }),
        final(ctx).stack == old(ctx).stack,
        final(ctx).files == old(ctx).files,
        final(ctx).macros == old(ctx).macros,
        final(ctx).warnings == old(ctx).warnings,
        final(ctx).edges == old(ctx).edges,
{
    ctx.toks.push(Tok { kind, text, file: fidx, line, glued: *glued });
    *glued = true;
}

/// `a` followed by `b`.
pub open spec fn scan_join(a: LineScan, b: LineScan) -> LineScan {
    LineScan { toks: a.toks + b.toks, in_comment: b.in_comment, warnings: a.warnings + b.warnings, rest: b.rest }
}

pub proof fn lemma_scan_assoc(a: LineScan, b: LineScan, r: Option<LineScan>)
    ensures
        scan_then(a, scan_then(b, r)) == scan_then(scan_join(a, b), r),
{
    match r {
        Some(x) => {
            assert(a.toks + (b.toks + x.toks) =~= (a.toks + b.toks) + x.toks);
            assert(a.warnings + (b.warnings + x.warnings) =~= (a.warnings + b.warnings) + x.warnings);
        },
        None => {},
    }
}

proof fn lemma_toks_trans(o: Seq<Tok>, n: Seq<Tok>, n2: Seq<Tok>, a1: Seq<(TokKind, Seq<char>, bool)>,
    a2: Seq<(TokKind, Seq<char>, bool)>, fidx: usize, line: u32)
    requires
        toks_added(o, n, a1, fidx, line),
        toks_added(n, n2, a2, fidx, line),
    ensures
        toks_added(o, n2, a1 + a2, fidx, line),
{
    let a = a1 + a2;
    assert forall|k: int| 0 <= k < a.len() implies {
        let t = #[trigger] n2[o.len() + k];
        &&& t.kind == a[k].0
        &&& t.text@ == a[k].1
        &&& t.glued == a[k].2
        &&& t.file == fidx
        &&& t.line == line
    } by {
        if k < a1.len() {
            assert(n2[o.len() + k] == n[o.len() + k]);
        } else {
            assert(n2[n.len() + (k - a1.len())] == n2[o.len() + k]);
        }
    }
}

proof fn lemma_warns_trans(files: Seq<String>, o: Seq<String>, n: Seq<String>, n2: Seq<String>,
    a1: Seq<Seq<char>>, a2: Seq<Seq<char>>, fidx: usize, line: u32)
    requires
        warns_added(files, o, n, a1, fidx, line),
        warns_added(files, n, n2, a2, fidx, line),
    ensures
        warns_added(files, o, n2, a1 + a2, fidx, line),
{
    let a = a1 + a2;
    assert forall|k: int| 0 <= k < a.len() implies (#[trigger] n2[o.len() + k])@
        == warn_text(files, fidx as int, line, a[k]) by {
        if k < a1.len() {
            assert(n2[o.len() + k] == n[o.len() + k]);
        } else {
            assert(n2[n.len() + (k - a1.len())] == n2[o.len() + k]);
        }
    }
}

proof fn lemma_added_refl(files: Seq<String>, t: Seq<Tok>, w: Seq<String>, fidx: usize, line: u32)
    ensures
        toks_added(t, t, Seq::empty(), fidx, line),
        warns_added(files, w, w, Seq::empty(), fidx, line),
{
}

proof fn lemma_tok_one(o: Seq<Tok>, n: Seq<Tok>, t: (TokKind, Seq<char>, bool), fidx: usize, line: u32)
    requires
        n.len() == o.len() + 1,
        forall|k: int| 0 <= k < o.len() ==> n[k] == o[k],
        n.last().kind == t.0,
        n.last().text@ == t.1,
        n.last().glued == t.2,
        n.last().file == fidx,
        n.last().line == line,
    ensures
        toks_added(o, n, seq![t], fidx, line),
{
    assert forall|k: int| 0 <= k < 1 implies {
        let x = #[trigger] n[o.len() + k];
        &&& x.kind == seq![t][k].0
        &&& x.text@ == seq![t][k].1
        &&& x.glued == seq![t][k].2
        &&& x.file == fidx
        &&& x.line == line
    } by {
        assert(k == 0);
        assert(n[o.len() + k] == n.last());
    }
}

proof fn lemma_warn_one(files: Seq<String>, o: Seq<String>, n: Seq<String>, msg: Seq<char>, fidx: usize, line: u32)
    requires
        n.len() == o.len() + 1,
        forall|k: int| 0 <= k < o.len() ==> n[k] == o[k],
        n.last()@ == warn_text(files, fidx as int, line, msg),
    ensures
        warns_added(files, o, n, seq![msg], fidx, line),
{
    assert forall|k: int| 0 <= k < 1 implies (#[trigger] n[o.len() + k])@ == warn_text(files, fidx as int, line, seq![msg][k]) by {
        assert(k == 0);
        assert(n[o.len() + k] == n.last());
    }
}

/// One more step of a scan, accounted for.
proof fn lemma_step(sc0: Option<LineScan>, acc: LineScan, step: LineScan, rest: Option<LineScan>,
    files: Seq<String>, o_t: Seq<Tok>, c_t: Seq<Tok>, n_t: Seq<Tok>, o_w: Seq<String>, c_w: Seq<String>, n_w: Seq<String>,
    fidx: usize, line: u32)
    requires
        sc0 == scan_then(acc, scan_then(step, rest)),
        toks_added(o_t, c_t, acc.toks, fidx, line),
        toks_added(c_t, n_t, step.toks, fidx, line),
        warns_added(files, o_w, c_w, acc.warnings, fidx, line),
        warns_added(files, c_w, n_w, step.warnings, fidx, line),
    ensures
        sc0 == scan_then(scan_join(acc, step), rest),
        toks_added(o_t, n_t, scan_join(acc, step).toks, fidx, line),
        warns_added(files, o_w, n_w, scan_join(acc, step).warnings, fidx, line),
{
    lemma_scan_assoc(acc, step, rest);
    lemma_toks_trans(o_t, c_t, n_t, acc.toks, step.toks, fidx, line);
    lemma_warns_trans(files, o_w, c_w, n_w, acc.warnings, step.warnings, fidx, line);
}

/// The token (kind, text, glued), the warnings and the position after it,
/// for a quoted literal, a number, a `&{...}` reference or a punctuation
/// character at `i`.
pub open spec fn simple_step(s: Seq<char>, i: int, glued: bool) -> ((TokKind, Seq<char>, bool), Seq<Seq<char>>, int) {
    let c = s[i];
    if c == '"' || c == '\'' {
        let (e, closed) = quoted_end(s, i + 1, c);
        let text = if closed { s.subrange(i, e) } else { s.subrange(i, e).push(c) };
        let kind = if c == '"' { TokKind::Str } else { TokKind::CharLit };
        let w: Seq<Seq<char>> = if closed {
            Seq::empty()
        } else if c == '"' {
            seq!["unterminated string literal"@]
        } else {
            seq!["unterminated char literal"@]
        };
        ((kind, text, glued), w, e)
    } else if crate::text::spec_is_ascii_digit(c) {
        let e = num_end(s, i);
        ((TokKind::Num, s.subrange(i, e), glued), Seq::empty(), e)
    } else if c == '&' && i + 1 < s.len() && s[i + 1] == '{' {
        let (e, w) = match first_index(s, i + 2, '}') {
            Some(k) => (k + 1, Seq::<Seq<char>>::empty()),
            None => (s.len() as int, seq!["unterminated &{...} reference"@]),
        };
        ((TokKind::PathRef, s.subrange(i, e), glued), w, e)
    } else {
        ((TokKind::Punct, seq![c], glued), Seq::empty(), i + 1)
    }
}

/// Lexes the literal, number, reference or punctuation at `i`.
fn lex_simple(ctx: &mut LexCtx, glued: &mut bool, s: &[char], i: usize, fidx: usize, line: u32,
    Ghost(m): Ghost<Map<Seq<char>, MacroDef>>, Ghost(depth): Ghost<int>) -> (j: usize)
    requires
        lex_wf(*old(ctx)),
        i < s@.len(),
        !spec_is_whitespace(s@[i as int]),
        !(s@[i as int] == '/' && i + 1 < s@.len() && (s@[i + 1] == '/' || s@[i + 1] == '*')),
        !slash_kw_at(s@, i as int),
        !(crate::text::spec_is_ascii_alpha(s@[i as int]) || s@[i as int] == '_'),
    ensures
        lex_wf(*final(ctx)),
        lex_grows(*old(ctx), *final(ctx)),
        i < j <= s@.len(),
        *final(glued),
        ({
            let (t, w, e) = simple_step(s@, i as int, *old(glued));
            &&& j == e
            &&& line_scan(s@, i as int, false, *old(glued), m, depth)
                == scan_emit(t, w, line_scan(s@, e, false, true, m, depth))
            &&& toks_added(old(ctx).toks@, final(ctx).toks@, seq![t], fidx, line)
            &&& warns_added(old(ctx).files@, old(ctx).warnings@, final(ctx).warnings@, w, fidx, line)
        }),
        final(ctx).stack == old(ctx).stack,
        final(ctx).files == old(ctx).files,
        final(ctx).macros == old(ctx).macros,
        final(ctx).edges == old(ctx).edges,
{
    let len = s.len();
    let c = s[i];
    let ghost g0 = *glued;
    let ghost c0 = *ctx;
    if c == '"' || c == '\'' {
        let q = c;
        let mut text: Vec<char> = Vec::new();
        text.push(q);
        let mut j: usize = i + 1;
        let mut closed = false;
        proof { lemma_quoted_end(s@, i + 1, q); }
        while j < len
            invariant_except_break
                !closed,
                quoted_end(s@, i + 1, q) == quoted_end(s@, j as int, q),
            invariant
                i < j <= len,
                len == s@.len(),
                text@ == s@.subrange(i as int, j as int),
            ensures
                (j as int, closed) == quoted_end(s@, i + 1, q),
                text@ == s@.subrange(i as int, j as int),
                i < j <= len,
            decreases len - j,
        {
            let cj = s[j];
            text.push(cj);
            j += 1;
            if cj == '\\' && j < len {
                text.push(s[j]);
                j += 1;
            } else if cj == q {
                closed = true;
                assert(text@ =~= s@.subrange(i as int, j as int));
                break;
            }
            assert(text@ =~= s@.subrange(i as int, j as int));
        }
        if !closed {
            let msg = if q == '"' { "unterminated string literal" } else { "unterminated char literal" };
            ctx.warn(fidx, line, String::from_str(msg));
            proof { lemma_warn_one(c0.files@, c0.warnings@, ctx.warnings@, msg@, fidx, line); }
            text.push(q);
        }
        let kind = if q == '"' { TokKind::Str } else { TokKind::CharLit };
        let ghost c1 = *ctx;
        let ghost t = (kind, text@, g0);
        emit(ctx, glued, kind, text, fidx, line);
        proof {
            lemma_tok_one(c1.toks@, ctx.toks@, t, fidx, line);
            lemma_grows_trans(c0, c1, *ctx);
        }
        return j;
    }
    if is_ascii_digit(c) {
        let mut j: usize = i;
        if c == '0' && i + 1 < len && (s[i + 1] == 'x' || s[i + 1] == 'X') {
            j = i + 2;
            while j < len && is_ascii_hexdigit(s[j])
                invariant
                    i + 2 <= j <= len,
                    len == s@.len(),
                    hex_end(s@, i + 2) == hex_end(s@, j as int),
                decreases len - j,
            {
                j += 1;
            }
        } else {
            while j < len && is_ascii_digit(s[j])
                invariant
                    i <= j <= len,
                    len == s@.len(),
                    dec_end(s@, i as int) == dec_end(s@, j as int),
                decreases len - j,
            {
                j += 1;
            }
        }
        let ghost j0 = j as int;
        while j < len && (s[j] == 'u' || s[j] == 'U' || s[j] == 'l' || s[j] == 'L')
            invariant
                j0 <= j <= len,
                len == s@.len(),
                suffix_end(s@, j0) == suffix_end(s@, j as int),
            decreases len - j,
        {
            j += 1;
        }
        proof { lemma_num_end(s@, i as int); }
        assert(j == num_end(s@, i as int));
        let text = copy_chars(s, i, j);
        let ghost t = (TokKind::Num, text@, g0);
        emit(ctx, glued, TokKind::Num, text, fidx, line);
        proof { lemma_tok_one(c0.toks@, ctx.toks@, t, fidx, line); }
        return j;
    }
    if c == '&' && i + 1 < len && s[i + 1] == '{' {
        let mut j: usize = i + 2;
        while j < len && s[j] != '}'
            invariant
                i + 2 <= j <= len,
                len == s@.len(),
                first_index(s@, i + 2, '}') == first_index(s@, j as int, '}'),
            decreases len - j,
        {
            j += 1;
        }
        if j >= len {
            let msg = String::from_str("unterminated &{...} reference");
            ctx.warn(fidx, line, msg);
            proof { lemma_warn_one(c0.files@, c0.warnings@, ctx.warnings@, "unterminated &{...} reference"@, fidx, line); }
        }
        let end: usize = if j < len { j + 1 } else { len };
        let text = copy_chars(s, i, end);
        let ghost c1 = *ctx;
        let ghost t = (TokKind::PathRef, text@, g0);
        emit(ctx, glued, TokKind::PathRef, text, fidx, line);
        proof {
            lemma_tok_one(c1.toks@, ctx.toks@, t, fidx, line);
            lemma_grows_trans(c0, c1, *ctx);
        }
        return end;
    }
    let mut text: Vec<char> = Vec::new();
    text.push(c);
    assert(text@ =~= seq![c]);
    let ghost t = (TokKind::Punct, text@, g0);
    emit(ctx, glued, TokKind::Punct, text, fidx, line);
    proof { lemma_tok_one(c0.toks@, ctx.toks@, t, fidx, line); }
    i + 1
}

/// The rest of an `/include/` that ends at `j`: lexes the file that the
/// quoted name after it names in place (or warns that there is none, or
/// that the name is missing), and gives where the line goes on and whether
/// the next token is glued.
fn run_slash_include(ctx: &mut LexCtx, fs: &[FileAnswer], s: &[char], j: usize, glued: bool, fidx: usize, line: u32,
    cur_dir: &String) -> (r: Result<(usize, bool), LexStop>)
    requires
        lex_wf(*old(ctx)),
        fidx < old(ctx).files@.len(),
        j <= s@.len(),
    ensures
        lex_step(fs@, *old(ctx), *final(ctx)),
        need_ok(fs@, r),
        r is Ok ==> final(ctx).stack@ == old(ctx).stack@,
        !(r matches Err(LexStop::Fatal(_))),
        r matches Ok((k, _)) ==> j <= k <= s@.len(),
        match include_after(fs@, string_views(old(ctx).include_dirs@), cur_dir@, string_views(old(ctx).stack@), s@, j as int,
            glued, fidx, line, lex_view(*old(ctx))) {
            Some((LexOut::Done(v), k, g)) => r matches Ok((k2, g2)) && k2 == k && g2 == g && lex_view(*final(ctx)) == v,
            Some((LexOut::Need(p), _, _)) => r matches Err(LexStop::Need(q)) && q@ == p,
            Some((LexOut::Fatal(m), _, _)) => r matches Err(LexStop::Fatal(q)) && q@ == m,
            None => true,
        },
    decreases unvisited(fs@, old(ctx).stack@) as int, 0int, 2int,
{
    proof { reveal_with_fuel(include_after, 1); }
    let i = skip_whitespace(s, j);
    if i < s.len() && s[i] == '"' {
        let mut k: usize = i + 1;
        proof { lemma_first_index(s@, i + 1, '"'); }
        while k < s.len() && s[k] != '"'
            invariant
                i + 1 <= k <= s@.len(),
                first_index(s@, i + 1, '"') == first_index(s@, k as int, '"'),
            decreases s@.len() - k,
        {
            k += 1;
        }
        let spec = copy_chars(s, i + 1, k);
        let after = if k < s.len() { k + 1 } else { s.len() };
        let ghost v0 = lex_view(*ctx);
        let ghost dirs = string_views(ctx.include_dirs@);
        let ghost stk = string_views(ctx.stack@);
        proof {
            if k < s.len() {
                assert(first_index(s@, k as int, '"') == Some(k as int));
            } else {
                assert(first_index(s@, k as int, '"') is None);
            }
        }
        let r = run_include(ctx, fs, spec.as_slice(), false, cur_dir, fidx, line, "/include/");
        proof {
            let out = include_after(fs@, dirs, cur_dir@, stk, s@, j as int, glued, fidx, line, v0);
            match include_search(fs@, include_candidates(cur_dir@, dirs, spec@, false), 0) {
                Err(p) => {
                    assert(out == Some((LexOut::Need(p), after as int, false)));
                },
                Ok(None) => {
                    assert(out == Some((LexOut::Done(warned(v0, fidx as int, line, "include not found: "@ + spec@)), after as int, false)));
                },
                Ok(Some(p)) => {
                    reveal_with_fuel(lex_spec, 1);
                    let ls = lex_spec(fs@, dirs, p, Some((fidx, line, "/include/"@)), stk, v0);
                    match ls {
                        Some(o) => { assert(out == Some((o, after as int, false))); },
                        None => { assert(out is None); },
                    }
                },
            }
        }
        match r {
            Ok(()) => {},
            Err(e) => return Err(e),
        }
        Ok((after, false))
    } else {
        let ghost v0 = lex_view(*ctx);
        let msg = String::from_str("malformed /include/ directive");
        proof { assert(msg@ == "malformed /include/ directive"@); }
        ctx.warn(fidx, line, msg);
        Ok((i, glued))
    }
}

/// Tokenizes one line (or a macro expansion at `depth`), expanding macros
/// and inlining `/include/` files: what `line_spec` says (at depth 0), and
/// what `line_scan` says (in a macro expansion).
/// Any file index is taken (warnings name an unknown file `?`) unless the
/// line holds an `/include/`, whose include edge names the including file.
#[verifier::rlimit(100)]
#[verifier::spinoff_prover]
pub fn tokenize_line(
    ctx: &mut LexCtx,
    fs: &[FileAnswer],
    in_comment: &mut bool,
    s: &[char],
    fidx: usize,
    line: u32,
    cur_dir: &String,
    depth: usize,
    start_glued: bool,
) -> (r: Result<(), LexStop>)
    requires
        lex_wf(*old(ctx)),
        depth <= MAX_MACRO_DEPTH,
        fidx < old(ctx).files@.len() || depth > 0
            || (line_scan(s@, 0, *old(in_comment), start_glued, macro_map(old(ctx).macros@), 0) matches Some(sc) && sc.rest is None),
    ensures
        lex_step(fs@, *old(ctx), *final(ctx)),
        need_ok(fs@, r),
        r is Ok ==> final(ctx).stack@ == old(ctx).stack@,
        !(r matches Err(LexStop::Fatal(_))),
        depth > 0 ==> (line_scan(s@, 0, *old(in_comment), start_glued, macro_map(old(ctx).macros@), depth as int) matches Some(sc) && {
            &&& r is Ok
            &&& toks_added(old(ctx).toks@, final(ctx).toks@, sc.toks, fidx, line)
            &&& warns_added(old(ctx).files@, old(ctx).warnings@, final(ctx).warnings@, sc.warnings, fidx, line)
            &&& *final(in_comment) == sc.in_comment
            &&& final(ctx).macros@ == old(ctx).macros@
            &&& final(ctx).files@ == old(ctx).files@
            &&& final(ctx).edges@ == old(ctx).edges@
        }),
        depth == 0 ==> line_matches(line_spec(fs@, string_views(old(ctx).include_dirs@), cur_dir@, string_views(old(ctx).stack@),
            s@, 0, *old(in_comment), start_glued, fidx, line, lex_view(*old(ctx))), *final(ctx), *final(in_comment), r),
    decreases unvisited(fs@, old(ctx).stack@) as int, 1int, MAX_MACRO_DEPTH + 1 - depth,
{
    let ghost dirs = string_views(ctx.include_dirs@);
    let ghost stk = string_views(ctx.stack@);
    let ghost total = line_spec(fs@, dirs, cur_dir@, stk, s@, 0, *in_comment, start_glued, fidx, line, lex_view(*ctx));
    let ghost sc0 = line_scan(s@, 0, *in_comment, start_glued, macro_map(ctx.macros@), depth as int);
    proof { lemma_line_scan_some(s@, 0, *in_comment, start_glued, macro_map(ctx.macros@), depth as int); }
    let ghost mut cs = *ctx;
    let ghost mut seg_i: int = 0;
    let ghost mut seg_ic = *in_comment;
    let ghost mut seg_g = start_glued;
    let ghost mut m0 = macro_map(ctx.macros@);
    let ghost mut scs = sc0;
    let ghost mut acc = scan_done(*in_comment);
    let ghost mut plain = true;
    let len = s.len();
    let mut i: usize = 0;
    let mut glued = start_glued;
    proof {
        lemma_added_refl(ctx.files@, ctx.toks@, ctx.warnings@, fidx, line);
        match sc0 {
            Some(x) => {
                assert(acc.toks + x.toks =~= x.toks);
                assert(acc.warnings + x.warnings =~= x.warnings);
            },
            None => {},
        }
        lemma_view_parts(*ctx);
    }
    while i < len
        invariant
            len == s@.len(),
            0 <= i <= len,
            lex_wf(*ctx),
            lex_grows(*old(ctx), *ctx),
            ctx.stack@ == old(ctx).stack@,
            depth <= MAX_MACRO_DEPTH,
            dirs == string_views(old(ctx).include_dirs@),
            stk == string_views(old(ctx).stack@),
            total == line_spec(fs@, dirs, cur_dir@, stk, s@, 0, *old(in_comment), start_glued, fidx, line, lex_view(*old(ctx))),
            sc0 == line_scan(s@, 0, *old(in_comment), start_glued, macro_map(old(ctx).macros@), depth as int),
            sc0 is Some,
            lex_grows(*old(ctx), cs),
            0 <= seg_i <= i,
            m0 == macro_map(cs.macros@),
            scs == line_scan(s@, seg_i, seg_ic, seg_g, m0, depth as int),
            depth > 0 ==> cs == *old(ctx) && seg_i == 0 && seg_ic == *old(in_comment) && seg_g == start_glued,
            plain ==> {
                &&& scs == scan_then(acc, line_scan(s@, i as int, *in_comment, glued, m0, depth as int))
                &&& toks_added(cs.toks@, ctx.toks@, acc.toks, fidx, line)
                &&& warns_added(cs.files@, cs.warnings@, ctx.warnings@, acc.warnings, fidx, line)
                &&& ctx.macros@ == cs.macros@
                &&& ctx.files@ == cs.files@
                &&& ctx.edges@ == cs.edges@
                &&& depth == 0 ==> total == line_spec(fs@, dirs, cur_dir@, stk, s@, seg_i, seg_ic, seg_g, fidx, line, lex_view(cs))
            },
            !plain ==> (depth > 0 ==> sc0 is None) && (depth == 0 ==> total is None),
            edge_words(*old(ctx)) ==> edge_words(*ctx),
            fidx < old(ctx).files@.len() || depth > 0 || (plain && scs == sc0 && (sc0 matches Some(x) && x.rest is None)),
        decreases len - i,
    {
        let ghost c0 = *ctx;
        let ghost i0 = i as int;
        let ghost g0 = glued;
        let ghost rest0 = line_scan(s@, i0, *in_comment, glued, m0, depth as int);
        if *in_comment {
            let mut j: usize = i;
            while j < len && len - j >= 2 && !(s[j] == '*' && s[j + 1] == '/')
                invariant
                    i <= j <= len,
                    len == s@.len(),
                    comment_close(s@, i as int) == comment_close(s@, j as int),
                decreases len - j,
            {
                j += 1;
            }
            if j < len && len - j >= 2 {
                i = j + 2;
                *in_comment = false;
                glued = false;
                continue;
            }
            proof {
                if depth == 0 && plain {
                    lemma_line_end(fs@, dirs, cur_dir@, stk, s@, seg_i, seg_ic, seg_g, fidx, line, cs, *ctx, acc, true);
                }
                if depth == 0 {
                    lemma_line_matches(total, *ctx, *in_comment, Ok::<(), LexStop>(()));
                }
            }
            return Ok(()); // comment continues on next line
        }
        let c = s[i];
        if is_whitespace(c) {
            glued = false;
            i += 1;
            continue;
        }
        if c == '/' && i + 1 < len && s[i + 1] == '/' {
            proof {
                if depth == 0 && plain {
                    lemma_line_end(fs@, dirs, cur_dir@, stk, s@, seg_i, seg_ic, seg_g, fidx, line, cs, *ctx, acc, false);
                }
                if depth == 0 {
                    lemma_line_matches(total, *ctx, *in_comment, Ok::<(), LexStop>(()));
                }
            }
            return Ok(());
        }
        if c == '/' && i + 1 < len && s[i + 1] == '*' {
            *in_comment = true;
            i += 2;
            continue;
        }
        // /keyword/ (slash keywords: /dts-v1/, /include/, /delete-node/, ...)
        if c == '/' && i + 1 < len && is_ascii_lower(s[i + 1]) {
            let mut j: usize = i + 1;
            while j < len && (is_ascii_lower(s[j]) || is_ascii_digit(s[j]) || s[j] == '-')
                invariant
                    i + 1 <= j <= len,
                    len == s@.len(),
                    kw_end(s@, i + 1) == kw_end(s@, j as int),
                decreases len - j,
            {
                j += 1;
            }
            if j < len && s[j] == '/' {
                assert(slash_kw_at(s@, i as int));
                let kw = copy_chars(s, i + 1, j);
                i = j + 1;
                if word_is(kw.as_slice(), "include") && depth == 0 {
                    // The tokens so far, then the included file, then the
                    // rest of the line as a new stretch.
                    let ghost j1 = i as int;
                    let ghost st1 = lex_view(*ctx);
                    let ghost out = include_after(fs@, dirs, cur_dir@, stk, s@, j1, g0, fidx, line, st1);
                    proof {
                        if plain {
                            let stop = LineScan { toks: Seq::empty(), in_comment: false, warnings: Seq::empty(), rest: Some((j1, g0)) };
                            assert(rest0 == Some(stop));
                            lemma_line_include(fs@, dirs, cur_dir@, stk, s@, seg_i, seg_ic, seg_g, fidx, line, cs, *ctx, acc, j1, g0);
                        }
                    }
                    proof {
                        if !(fidx < old(ctx).files@.len()) {
                            assert(rest0 == Some(LineScan { toks: Seq::empty(), in_comment: false, warnings: Seq::empty(), rest: Some((j1, g0)) }));
                            assert(scs matches Some(x) && x.rest is Some);
                            assert(false);
                        }
                        assert(old(ctx).files@.is_prefix_of(ctx.files@));
                    }
                    let res = run_slash_include(ctx, fs, s, i, glued, fidx, line, cur_dir);
                    proof { lemma_grows_trans(*old(ctx), c0, *ctx); }
                    proof {
                        if depth == 0 && res is Err {
                            if plain {
                                match out {
                                    Some((LexOut::Need(p), _, _)) => {
                                        assert(total == Some((LexOut::Need(p), false)));
                                    },
                                    _ => {},
                                }
                            }
                            lemma_line_matches(total, *ctx, *in_comment, unit_result(res));
                        }
                    }
                    let (k, g) = match res {
                        Ok(x) => x,
                        Err(e) => {
                            return Err(e);
                        },
                    };
                    proof {
                        if plain {
                            match out {
                                Some((LexOut::Done(v), k2, g2)) => {
                                    assert(k == k2 && g == g2);
                                    assert(lex_view(*ctx) == v);
                                },
                                _ => {
                                    plain = false;
                                },
                            }
                        }
                    }
                    i = k;
                    glued = g;
                    proof {
                        cs = *ctx;
                        seg_i = i as int;
                        seg_ic = false;
                        seg_g = glued;
                        m0 = macro_map(ctx.macros@);
                        scs = line_scan(s@, seg_i, seg_ic, seg_g, m0, depth as int);
                        acc = scan_done(false);
                        lemma_added_refl(ctx.files@, ctx.toks@, ctx.warnings@, fidx, line);
                        match scs {
                            Some(x) => {
                                assert(acc.toks + x.toks =~= x.toks);
                                assert(acc.warnings + x.warnings =~= x.warnings);
                            },
                            None => {},
                        }
                    }
                } else {
                    let ghost t = (TokKind::SlashKw, kw@, glued);
                    emit(ctx, &mut glued, TokKind::SlashKw, kw, fidx, line);
                    proof {
                        lemma_grows_trans(*old(ctx), c0, *ctx);
                        if plain {
                            lemma_tok_one(c0.toks@, ctx.toks@, t, fidx, line);
                            lemma_added_refl(c0.files@, c0.toks@, c0.warnings@, fidx, line);
                            let step = LineScan { toks: seq![t], in_comment: false, warnings: Seq::empty(), rest: None };
                            lemma_step(scs, acc, step, line_scan(s@, i as int, false, true, m0, depth as int),
                                cs.files@, cs.toks@, c0.toks@, ctx.toks@, cs.warnings@, c0.warnings@, ctx.warnings@, fidx, line);
                            acc = scan_join(acc, step);
                        }
                    }
                }
                continue;
            }
        }
        if is_ascii_alpha(c) || c == '_' {
            let mut j: usize = i;
            while j < len && (is_ascii_alnum(s[j]) || s[j] == '_')
                invariant
                    i <= j <= len,
                    len == s@.len(),
                    ident_end(s@, i as int) == ident_end(s@, j as int),
                decreases len - j,
            {
                j += 1;
            }
            assert(j > i);
            let name = copy_chars(s, i, j);
            i = j;
            let ghost w: Seq<Seq<char>> = Seq::empty();
            if depth < MAX_MACRO_DEPTH {
                let mac = match find_macro(&ctx.macros, name.as_slice()) {
                    Some(m) => Some(clone_macro(m)),
                    None => None,
                };
                match mac {
                    Some(Macro::Object(body)) => {
                        let mut bc = false;
                        let ghost inner = line_scan(body@, 0, false, glued, macro_map(ctx.macros@), depth + 1);
                        proof { lemma_line_scan_some(body@, 0, false, glued, macro_map(ctx.macros@), depth + 1); }
                        let res = tokenize_line(ctx, fs, &mut bc, body.as_slice(), fidx, line, cur_dir, depth + 1, glued);
                        proof {
                            lemma_grows_trans(*old(ctx), c0, *ctx);
                            if plain {
                                match inner {
                                    Some(x) if x.rest is None => {
                                        lemma_step(scs, acc, x, line_scan(s@, i as int, false, true, m0, depth as int),
                                            cs.files@, cs.toks@, c0.toks@, ctx.toks@, cs.warnings@, c0.warnings@, ctx.warnings@, fidx, line);
                                        acc = scan_join(acc, x);
                                    },
                                    _ => {
                                        plain = false;
                                        if depth == 0 {
                                            lemma_line_none(fs@, dirs, cur_dir@, stk, s@, seg_i, seg_ic, seg_g, fidx, line, cs);
                                        }
                                    },
                                }
                            }
                        }
                        proof {
                            if depth == 0 && res is Err {
                                lemma_line_matches(total, *ctx, *in_comment, res);
                            }
                        }
                        match res {
                            Ok(()) => {},
                            Err(e) => return Err(e),
                        }
                        // Whatever directly follows the macro use is glued
                        // to the end of its expansion.
                        glued = true;
                        continue;
                    },
                    Some(Macro::Func { params, body }) => {
                        // Only expand when a '(' follows on the same line.
                        let k = skip_whitespace(s, i);
                        if k < len && s[k] == '(' {
                            match collect_macro_args(s, k) {
                                Some((args, after)) => {
                                    i = after;
                                    let expanded = substitute_params(body.as_slice(), &params, &args);
                                    let mut bc = false;
                                    let ghost inner = line_scan(expanded@, 0, false, glued, macro_map(ctx.macros@), depth + 1);
                                    proof { lemma_line_scan_some(expanded@, 0, false, glued, macro_map(ctx.macros@), depth + 1); }
                                    let res = tokenize_line(ctx, fs, &mut bc, expanded.as_slice(), fidx, line, cur_dir, depth + 1, glued);
                                    proof {
                                        lemma_grows_trans(*old(ctx), c0, *ctx);
                                        if plain {
                                            match inner {
                                                Some(x) if x.rest is None => {
                                                    lemma_step(scs, acc, x, line_scan(s@, i as int, false, true, m0, depth as int),
                                                        cs.files@, cs.toks@, c0.toks@, ctx.toks@, cs.warnings@, c0.warnings@, ctx.warnings@, fidx, line);
                                                    acc = scan_join(acc, x);
                                                },
                                                _ => {
                                                    plain = false;
                                                    if depth == 0 {
                                                        lemma_line_none(fs@, dirs, cur_dir@, stk, s@, seg_i, seg_ic, seg_g, fidx, line, cs);
                                                    }
                                                },
                                            }
                                        }
                                    }
                                    proof {
                                        if depth == 0 && res is Err {
                                            lemma_line_matches(total, *ctx, *in_comment, res);
                                        }
                                    }
                                    match res {
                                        Ok(()) => {},
                                        Err(e) => return Err(e),
                                    }
                                    glued = true;
                                    continue;
                                },
                                None => {
                                    let msg = message("unclosed arguments for macro ", name.as_slice());
                                    proof { w = seq![msg@]; }
                                    ctx.warn(fidx, line, msg);
                                },
                            }
                        }
                    },
                    None => {},
                }
            }
            let ghost t = (TokKind::Ident, name@, glued);
            let ghost c1 = *ctx;
            emit(ctx, &mut glued, TokKind::Ident, name, fidx, line);
            proof {
                lemma_grows_trans(c0, c1, *ctx);
                lemma_grows_trans(*old(ctx), c0, *ctx);
                if plain {
                    lemma_tok_one(c1.toks@, ctx.toks@, t, fidx, line);
                    if w.len() == 0 {
                        assert(c1.warnings@ == c0.warnings@);
                        lemma_added_refl(c0.files@, c0.toks@, c0.warnings@, fidx, line);
                    } else {
                        lemma_warn_one(c0.files@, c0.warnings@, c1.warnings@, w[0], fidx, line);
                        assert(w =~= seq![w[0]]);
                    }
                    let step = LineScan { toks: seq![t], in_comment: false, warnings: w, rest: None };
                    lemma_step(scs, acc, step, line_scan(s@, i as int, false, true, m0, depth as int),
                        cs.files@, cs.toks@, c0.toks@, ctx.toks@, cs.warnings@, c0.warnings@, ctx.warnings@, fidx, line);
                    acc = scan_join(acc, step);
                }
            }
            continue;
        }
        assert(!slash_kw_at(s@, i as int));
        let ghost st = simple_step(s@, i as int, glued);
        let ghost c1 = *ctx;
        let j = lex_simple(ctx, &mut glued, s, i, fidx, line, Ghost(m0), Ghost(depth as int));
        proof {
            lemma_grows_trans(*old(ctx), c0, *ctx);
            if plain {
                let step = LineScan { toks: seq![st.0], in_comment: false, warnings: st.1, rest: None };
                lemma_step(scs, acc, step, line_scan(s@, j as int, false, true, m0, depth as int),
                    cs.files@, cs.toks@, c0.toks@, ctx.toks@, cs.warnings@, c0.warnings@, ctx.warnings@, fidx, line);
                acc = scan_join(acc, step);
            }
        }
        i = j;
    }
    proof {
        if depth == 0 && plain {
            lemma_line_end(fs@, dirs, cur_dir@, stk, s@, seg_i, seg_ic, seg_g, fidx, line, cs, *ctx, acc, *in_comment);
        }
        if depth == 0 {
            lemma_line_matches(total, *ctx, *in_comment, Ok::<(), LexStop>(()));
        }
    }
    Ok(())
}

} // verus!
