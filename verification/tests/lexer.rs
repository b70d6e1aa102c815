use miru_dt::dts_lex::{handle_directive, tokenize_line, LexCtx, TokKind};
use miru_dt::pp_expr::Macro;

fn chars(s: &str) -> Vec<char> {
    s.chars().collect()
}

fn toks(ctx: &LexCtx) -> Vec<(TokKind, String, bool)> {
    ctx.toks
        .iter()
        .map(|t| (t.kind, t.text.iter().collect::<String>(), t.glued))
        .collect()
}

fn lex(ctx: &mut LexCtx, in_comment: &mut bool, s: &str, line: u32) {
    let dir = "/t".to_string();
    assert!(tokenize_line(ctx, &[], in_comment, &chars(s), 0, line, &dir, 0, false).is_ok());
}

#[test]
fn a_double_slash_inside_a_string_is_not_a_comment() {
    let mut ctx = LexCtx::new(&[]);
    let mut c = false;
    lex(&mut ctx, &mut c, "s = \"http://x\";", 1);
    assert_eq!(
        toks(&ctx),
        vec![
            (TokKind::Ident, "s".to_string(), false),
            (TokKind::Punct, "=".to_string(), false),
            (TokKind::Str, "\"http://x\"".to_string(), false),
            (TokKind::Punct, ";".to_string(), true),
        ]
    );
    assert!(ctx.toks.iter().all(|t| t.file == 0 && t.line == 1));
    assert!(ctx.warnings.is_empty());
    assert!(!c);
}

#[test]
fn tokens_are_glued_where_no_whitespace_precedes_them() {
    let mut ctx = LexCtx::new(&[]);
    let mut c = false;
    lex(&mut ctx, &mut c, "#size-cells = <0x1>; cpu@0 {", 3);
    let texts: Vec<String> = toks(&ctx).into_iter().map(|t| t.1).collect();
    assert_eq!(texts, vec!["#", "size", "-", "cells", "=", "<", "0x1", ">", ";", "cpu", "@", "0", "{"]);
    let glued: Vec<bool> = ctx.toks.iter().map(|t| t.glued).collect();
    assert_eq!(glued, vec![false, true, true, true, false, false, true, true, true, false, true, true, false]);
}

#[test]
fn a_block_comment_runs_across_lines() {
    let mut ctx = LexCtx::new(&[]);
    let mut c = false;
    lex(&mut ctx, &mut c, "a /* b", 1);
    assert!(c);
    lex(&mut ctx, &mut c, "c */ d", 2);
    assert!(!c);
    let texts: Vec<String> = toks(&ctx).into_iter().map(|t| t.1).collect();
    assert_eq!(texts, vec!["a", "d"]);
    assert_eq!(ctx.toks[1].line, 2);
    assert!(!ctx.toks[1].glued);
}

#[test]
fn slash_keywords_and_a_bare_slash_lex_as_written() {
    let mut ctx = LexCtx::new(&[]);
    let mut c = false;
    lex(&mut ctx, &mut c, "/delete-node/ &uart0; / {", 5);
    assert_eq!(
        toks(&ctx),
        vec![
            (TokKind::SlashKw, "delete-node".to_string(), false),
            (TokKind::Punct, "&".to_string(), false),
            (TokKind::Ident, "uart0".to_string(), true),
            (TokKind::Punct, ";".to_string(), true),
            (TokKind::Punct, "/".to_string(), false),
            (TokKind::Punct, "{".to_string(), false),
        ]
    );
}

#[test]
fn macros_expand_in_place() {
    let mut ctx = LexCtx::new(&[]);
    ctx.macros.push((chars("GPIO_ACTIVE_LOW"), Some(Macro::Object(chars("1")))));
    ctx.macros.push((chars("MK_FLAGS"), Some(Macro::Func { params: vec![chars("x")], body: chars("(x + 1)") })));
    let mut c = false;
    lex(&mut ctx, &mut c, "<5 GPIO_ACTIVE_LOW> <MK_FLAGS(2)>", 1);
    let texts: Vec<String> = toks(&ctx).into_iter().map(|t| t.1).collect();
    assert_eq!(texts, vec!["<", "5", "1", ">", "<", "(", "2", "+", "1", ")", ">"]);
    let glued: Vec<bool> = ctx.toks.iter().map(|t| t.glued).collect();
    assert_eq!(glued, vec![false, true, false, true, false, true, true, false, false, true, true]);
    assert!(ctx.warnings.is_empty());
}

#[test]
fn a_function_like_define_needs_a_paren_right_after_the_name() {
    let dir = "/t".to_string();
    let mut ctx = LexCtx::new(&[]);
    let mut conds = Vec::new();
    assert!(handle_directive(&mut ctx, &[], &mut conds, &chars("#define MK_FLAGS(x) (x + 1)"), &dir, 0, 1).is_ok());
    assert!(handle_directive(&mut ctx, &[], &mut conds, &chars("#define F (y)"), &dir, 0, 2).is_ok());
    assert!(conds.is_empty());
    assert!(ctx.warnings.is_empty());
    assert!(ctx.toks.is_empty() && ctx.edges.is_empty());
    match &ctx.macros[0].1 {
        Some(Macro::Func { params, body }) => {
            assert_eq!(params, &vec![chars("x")]);
            assert_eq!(body, &chars("(x + 1)"));
        }
        _ => panic!("expected a function-like macro"),
    }
    match &ctx.macros[1].1 {
        Some(Macro::Object(body)) => assert_eq!(body, &chars("(y)")),
        _ => panic!("expected an object-like macro"),
    }
}

#[test]
fn a_stray_else_is_warned_with_an_unknown_file() {
    let dir = "/t".to_string();
    let mut ctx = LexCtx::new(&[]);
    let mut conds = Vec::new();
    assert!(handle_directive(&mut ctx, &[], &mut conds, &chars("#else"), &dir, 0, 7).is_ok());
    assert!(conds.is_empty());
    assert_eq!(ctx.warnings, vec!["?:7: #else without #if".to_string()]);
}
