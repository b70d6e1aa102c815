use miru_dt::dts_lex::{collect_macro_args, substitute_params};
use miru_dt::pp_expr::{eval_pp_expr, Macro};

fn chars(s: &str) -> Vec<char> {
    s.chars().collect()
}

fn eval(macros: &Vec<(Vec<char>, Option<Macro>)>, s: &str) -> Option<i64> {
    eval_pp_expr(macros, &chars(s), 0)
}

#[test]
fn undefined_identifiers_are_zero() {
    let none = Vec::new();
    assert_eq!(eval(&none, "FOO"), Some(0));
    assert_eq!(eval(&none, "defined(FOO)"), Some(0));
    assert_eq!(eval(&none, "!FOO"), Some(1));
}

#[test]
fn defined_and_object_macros() {
    let macros = vec![(chars("FOO"), Some(Macro::Object(chars("3"))))];
    assert_eq!(eval(&macros, "defined(FOO)"), Some(1));
    assert_eq!(eval(&macros, "defined FOO"), Some(1));
    assert_eq!(eval(&macros, "FOO + 1"), Some(4));
}

#[test]
fn undef_hides_an_earlier_define() {
    let macros = vec![(chars("FOO"), Some(Macro::Object(chars("3")))), (chars("FOO"), None)];
    assert_eq!(eval(&macros, "defined(FOO)"), Some(0));
    assert_eq!(eval(&macros, "FOO"), Some(0));
}

#[test]
fn precedence_and_operators() {
    let none = Vec::new();
    assert_eq!(eval(&none, "1 + 2 * 3"), Some(7));
    assert_eq!(eval(&none, "(1 + 2) * 3"), Some(9));
    assert_eq!(eval(&none, "1 << 4 | 1"), Some(17));
    assert_eq!(eval(&none, "0x10 == 16 && 3 > 2"), Some(1));
    assert_eq!(eval(&none, "-5 % 3"), Some(-2));
    assert_eq!(eval(&none, "~0"), Some(-1));
}

#[test]
fn failures_give_nothing() {
    let none = Vec::new();
    assert_eq!(eval(&none, "10 / 0"), None);
    assert_eq!(eval(&none, "1 +"), None);
    assert_eq!(eval(&none, "1 2"), None);
    assert_eq!(eval(&none, "$"), None);
}

#[test]
fn macro_arguments_are_split_at_top_level_commas() {
    let s = chars("F(a, (b, c), \"d,e\") tail");
    let (args, after) = collect_macro_args(&s, 1).unwrap();
    let args: Vec<String> = args.iter().map(|a| a.iter().collect()).collect();
    assert_eq!(args, vec!["a", "(b, c)", "\"d,e\""]);
    assert_eq!(after, 19);
    assert!(collect_macro_args(&chars("(a, b"), 0).is_none());
    let (empty, _) = collect_macro_args(&chars("( )"), 0).unwrap();
    assert!(empty.is_empty());
}

#[test]
fn parameters_are_replaced_as_whole_words_outside_strings() {
    let body = chars("x + xy \"x\" y");
    let params = vec![chars("x"), chars("y")];
    let args = vec![chars("1")];
    let out: String = substitute_params(&body, &params, &args).iter().collect();
    assert_eq!(out, "1 + xy \"x\" ");
}
