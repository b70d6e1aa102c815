//! Laws of `#if`/`#ifdef`/`#ifndef`, `#elif`, `#else` and `#endif` chains:
//! at most one branch of a chain is active.
use vstd::prelude::*;
use crate::dts_lex::{Cond, directive_fn, directive_spec, skip_ws, all_active};
use crate::pp_expr::MacroDef;

verus! {

/// A conditional's state is consistent: an active branch has been taken
/// under an active parent, and under an inactive parent every branch counts
/// as taken.
pub open spec fn cond_ok(c: Cond) -> bool {
    &&& c.active ==> c.taken && c.parent_active
    &&& !c.parent_active ==> c.taken
}

/// The directive word of line `l`, when it is a directive line.
pub open spec fn directive_word_of(l: Seq<char>) -> Option<Seq<char>> {
    match directive_spec(l, skip_ws(l, 0)) {
        Some((a, b)) => Some(l.subrange(a, b)),
        None => None,
    }
}

/// `l` opens a conditional.
pub open spec fn opening_line(l: Seq<char>) -> bool {
    directive_word_of(l) == Some("if"@) || directive_word_of(l) == Some("ifdef"@) || directive_word_of(l) == Some("ifndef"@)
}

/// `l` starts another branch of the innermost conditional.
pub open spec fn branch_line(l: Seq<char>) -> bool {
    directive_word_of(l) == Some("elif"@) || directive_word_of(l) == Some("else"@)
}

/// `l` closes the innermost conditional.
pub open spec fn closing_line(l: Seq<char>) -> bool {
    directive_word_of(l) == Some("endif"@)
}

/// The directive words are distinct.
proof fn lemma_words_differ()
    ensures
        "include"@ != "define"@,
        "include"@ != "undef"@,
        "include"@ != "ifdef"@,
        "include"@ != "ifndef"@,
        "include"@ != "if"@,
        "include"@ != "elif"@,
        "include"@ != "else"@,
        "include"@ != "endif"@,
        "include"@ != "error"@,
        "include"@ != "warning"@,
        "define"@ != "undef"@,
        "define"@ != "ifdef"@,
        "define"@ != "ifndef"@,
        "define"@ != "if"@,
        "define"@ != "elif"@,
        "define"@ != "else"@,
        "define"@ != "endif"@,
        "define"@ != "error"@,
        "define"@ != "warning"@,
        "undef"@ != "ifdef"@,
        "undef"@ != "ifndef"@,
        "undef"@ != "if"@,
        "undef"@ != "elif"@,
        "undef"@ != "else"@,
        "undef"@ != "endif"@,
        "undef"@ != "error"@,
        "undef"@ != "warning"@,
        "ifdef"@ != "ifndef"@,
        "ifdef"@ != "if"@,
        "ifdef"@ != "elif"@,
        "ifdef"@ != "else"@,
        "ifdef"@ != "endif"@,
        "ifdef"@ != "error"@,
        "ifdef"@ != "warning"@,
        "ifndef"@ != "if"@,
        "ifndef"@ != "elif"@,
        "ifndef"@ != "else"@,
        "ifndef"@ != "endif"@,
        "ifndef"@ != "error"@,
        "ifndef"@ != "warning"@,
        "if"@ != "elif"@,
        "if"@ != "else"@,
        "if"@ != "endif"@,
        "if"@ != "error"@,
        "if"@ != "warning"@,
        "elif"@ != "else"@,
        "elif"@ != "endif"@,
        "elif"@ != "error"@,
        "elif"@ != "warning"@,
        "else"@ != "endif"@,
        "else"@ != "error"@,
        "else"@ != "warning"@,
        "endif"@ != "error"@,
        "endif"@ != "warning"@,
        "error"@ != "warning"@,
{
    reveal_strlit("include");
    reveal_strlit("define");
    reveal_strlit("undef");
    reveal_strlit("ifdef");
    reveal_strlit("ifndef");
    reveal_strlit("if");
    reveal_strlit("elif");
    reveal_strlit("else");
    reveal_strlit("endif");
    reveal_strlit("error");
    reveal_strlit("warning");
    assert("include"@.len() == 7);
    assert("define"@.len() == 6);
    assert("undef"@.len() == 5);
    assert("ifdef"@.len() == 5);
    assert("ifndef"@.len() == 6);
    assert("if"@.len() == 2);
    assert("elif"@.len() == 4);
    assert("else"@.len() == 4);
    assert("endif"@.len() == 5);
    assert("error"@.len() == 5);
    assert("warning"@.len() == 7);
    assert("include"@[0] != "warning"@[0]);
    assert("define"@[0] != "ifndef"@[0]);
    assert("undef"@[0] != "ifdef"@[0]);
    assert("undef"@[0] != "endif"@[0]);
    assert("undef"@[0] != "error"@[0]);
    assert("ifdef"@[0] != "endif"@[0]);
    assert("ifdef"@[0] != "error"@[0]);
    assert("elif"@[2] != "else"@[2]);
    assert("endif"@[1] != "error"@[1]);
}

/// Opening a conditional pushes a consistent one, active only when every
/// enclosing conditional is, and leaves the macros alone.
pub proof fn law_opening_pushes(l: Seq<char>, oc: Seq<Cond>, m: Map<Seq<char>, MacroDef>)
    requires
        opening_line(l),
    ensures
        directive_fn(l, oc, m) matches Some((nc, m2, _)) && {
            &&& m2 == m
            &&& nc.len() == oc.len() + 1
            &&& nc.drop_last() == oc
            &&& cond_ok(nc.last())
            &&& nc.last().parent_active == all_active(oc)
        },
{
    lemma_words_differ();
    let r = directive_fn(l, oc, m);
    assert(r matches Some((nc, _, _)) && nc.drop_last() =~= oc);
}

/// An `#elif` or `#else` keeps the innermost conditional consistent: its
/// branch becomes active only when no earlier branch was taken, and once a
/// branch is taken the conditional stays taken.
pub proof fn law_branch_step(l: Seq<char>, oc: Seq<Cond>, m: Map<Seq<char>, MacroDef>)
    requires
        branch_line(l),
        oc.len() > 0,
        cond_ok(oc.last()),
    ensures
        directive_fn(l, oc, m) matches Some((nc, m2, _)) && {
            &&& m2 == m
            &&& nc.len() == oc.len()
            &&& nc.drop_last() == oc.drop_last()
            &&& cond_ok(nc.last())
            &&& nc.last().parent_active == oc.last().parent_active
            &&& nc.last().active ==> !oc.last().taken
            &&& nc.last().taken == (oc.last().taken || nc.last().active)
        },
{
    lemma_words_differ();
    let r = directive_fn(l, oc, m);
    assert(r matches Some((nc, _, _)) && nc.drop_last() =~= oc.drop_last());
}

/// An `#endif` pops just the innermost conditional.
pub proof fn law_closing_pops(l: Seq<char>, oc: Seq<Cond>, m: Map<Seq<char>, MacroDef>)
    requires
        closing_line(l),
        oc.len() > 0,
    ensures
        directive_fn(l, oc, m) matches Some((nc, m2, _)) && nc == oc.drop_last() && m2 == m,
{
    lemma_words_differ();
}

/// An `#elif`, `#else` or `#endif` outside any conditional changes nothing
/// and is warned about.
pub proof fn law_stray_branch_warns(l: Seq<char>, oc: Seq<Cond>, m: Map<Seq<char>, MacroDef>)
    requires
        oc.len() == 0,
        branch_line(l) || closing_line(l),
    ensures
        directive_fn(l, oc, m) == Some((oc, m, seq![
            if directive_word_of(l) == Some("elif"@) {
                "#elif without #if"@
            } else if directive_word_of(l) == Some("else"@) {
                "#else without #if"@
            } else {
                "#endif without #if"@
            }])),
{
    lemma_words_differ();
}

/// `l` defines or removes a macro, includes a file, or reports an error or
/// a warning.
pub open spec fn effect_line(l: Seq<char>) -> bool {
    ||| directive_word_of(l) == Some("define"@)
    ||| directive_word_of(l) == Some("undef"@)
    ||| directive_word_of(l) == Some("include"@)
    ||| directive_word_of(l) == Some("error"@)
    ||| directive_word_of(l) == Some("warning"@)
}

/// Inside an inactive region, `#define`, `#undef`, `#include`, `#error` and
/// `#warning` have no effect: the conditionals and macros stay and nothing
/// is warned about.
pub proof fn law_inactive_region_ignored(l: Seq<char>, oc: Seq<Cond>, m: Map<Seq<char>, MacroDef>)
    requires
        !all_active(oc),
        effect_line(l),
    ensures
        directive_fn(l, oc, m) == Some((oc, m, Seq::<Seq<char>>::empty())),
{
    lemma_words_differ();
}

/// The innermost conditional after the opening branch and after each of the
/// branch lines `ls`, applied in order from the conditionals `oc`.
pub open spec fn chain_tops(oc: Seq<Cond>, m: Map<Seq<char>, MacroDef>, ls: Seq<Seq<char>>) -> Seq<Cond>
    decreases ls.len(),
{
    if ls.len() == 0 {
        seq![oc.last()]
    } else {
        match directive_fn(ls[0], oc, m) {
            Some((nc, _, _)) => seq![oc.last()] + chain_tops(nc, m, ls.drop_first()),
            None => seq![oc.last()],
        }
    }
}

/// Once a consistent conditional has been taken, no later branch is active
/// and it stays taken.
proof fn lemma_taken_stays(oc: Seq<Cond>, m: Map<Seq<char>, MacroDef>, ls: Seq<Seq<char>>)
    requires
        oc.len() > 0,
        cond_ok(oc.last()),
        oc.last().taken,
        forall|i: int| 0 <= i < ls.len() ==> branch_line(#[trigger] ls[i]),
    ensures
        forall|k: int| 0 <= k < chain_tops(oc, m, ls).len() ==> (#[trigger] chain_tops(oc, m, ls)[k]).taken
            && (k > 0 ==> !chain_tops(oc, m, ls)[k].active),
    decreases ls.len(),
{
    if ls.len() > 0 {
        assert(branch_line(ls[0]));
        law_branch_step(ls[0], oc, m);
        let nc = (directive_fn(ls[0], oc, m)->0).0;
        let rest = ls.drop_first();
        assert forall|i: int| 0 <= i < rest.len() implies branch_line(#[trigger] rest[i]) by {
            assert(rest[i] == ls[i + 1]);
        }
        lemma_taken_stays(nc, m, rest);
        let t = chain_tops(oc, m, ls);
        let tr = chain_tops(nc, m, rest);
        assert(t == seq![oc.last()] + tr);
        assert forall|k: int| 0 <= k < t.len() implies (#[trigger] t[k]).taken && (k > 0 ==> !t[k].active) by {
            if k > 0 {
                assert(t[k] == tr[k - 1]);
                if k == 1 {
                    assert(tr[0] == nc.last());
                }
            }
        }
    }
}

/// At most one branch of a conditional chain is active: after an opening
/// line (or any consistent state of the innermost conditional) and any
/// number of `#elif`/`#else` lines, no two of the states it passes through
/// are active.
pub proof fn law_at_most_one_branch_active(oc: Seq<Cond>, m: Map<Seq<char>, MacroDef>, ls: Seq<Seq<char>>)
    requires
        oc.len() > 0,
        cond_ok(oc.last()),
        forall|i: int| 0 <= i < ls.len() ==> branch_line(#[trigger] ls[i]),
    ensures
        forall|i: int, j: int| 0 <= i < j < chain_tops(oc, m, ls).len() ==>
            !(#[trigger] chain_tops(oc, m, ls)[i].active && #[trigger] chain_tops(oc, m, ls)[j].active),
    decreases ls.len(),
{
    if ls.len() > 0 {
        assert(branch_line(ls[0]));
        law_branch_step(ls[0], oc, m);
        let nc = (directive_fn(ls[0], oc, m)->0).0;
        let rest = ls.drop_first();
        assert forall|i: int| 0 <= i < rest.len() implies branch_line(#[trigger] rest[i]) by {
            assert(rest[i] == ls[i + 1]);
        }
        law_at_most_one_branch_active(nc, m, rest);
        let t = chain_tops(oc, m, ls);
        let tr = chain_tops(nc, m, rest);
        assert(t == seq![oc.last()] + tr);
        if oc.last().active {
            lemma_taken_stays(oc, m, ls);
        }
        assert forall|i: int, j: int| 0 <= i < j < t.len() implies !(#[trigger] t[i].active && #[trigger] t[j].active) by {
            if i == 0 {
                if oc.last().active {
                    assert(t[0] == oc.last());
                }
            } else {
                assert(t[i] == tr[i - 1]);
                assert(t[j] == tr[j - 1]);
            }
        }
    }
}

} // verus!
