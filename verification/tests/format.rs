use washi::format::{is_numeric, minify_wgsl_source, parens_are_balanced};

#[test]
fn whitespace_kept_only_between_identifier_characters() {
    assert_eq!(
        minify_wgsl_source("fn main() {\n    let x = a + b;\n}\n"),
        "fn main(){let x=a+b;}"
    );
}

#[test]
fn whitespace_kept_between_minus_and_number() {
    // the space right before the digit is the one kept
    assert_eq!(minify_wgsl_source("let x = -  1;"), "let x=- 1;");
    assert_eq!(minify_wgsl_source("let y = - .5;"), "let y=- .5;");
    assert_eq!(minify_wgsl_source("let z = - w;"), "let z=-w;");
}

#[test]
fn unicode_identifiers_stay_apart() {
    assert_eq!(minify_wgsl_source("let \u{e9}t\u{e9} = 1;"), "let \u{e9}t\u{e9}=1;");
    // a non-breaking space is whitespace too
    assert_eq!(minify_wgsl_source("let\u{a0}x=1;"), "let x=1;");
}

#[test]
fn trailing_commas_dropped() {
    assert_eq!(minify_wgsl_source("f(a, b,)"), "f(a,b)");
    assert_eq!(minify_wgsl_source("struct S { a: f32, b: f32, }"), "struct S{a:f32,b:f32}");
    assert_eq!(minify_wgsl_source("array(1, 2, )[0]"), "array(1,2)[0]");
    // only before a closing bracket
    assert_eq!(minify_wgsl_source("array<f32, 4,>"), "array<f32,4,>");
}

#[test]
fn double_parentheses_dropped() {
    assert_eq!(minify_wgsl_source("x = ((a + b));"), "x=(a+b);");
    assert_eq!(minify_wgsl_source("(((x)))"), "(x)");
    // not a redundant pair: the inner pair does not end where the outer one does
    assert_eq!(minify_wgsl_source("((a)(b))"), "((a)(b))");
    assert_eq!(minify_wgsl_source("f((a))"), "f(a)");
}

#[test]
fn empty_source_stays_empty() {
    assert_eq!(minify_wgsl_source(""), "");
    assert_eq!(minify_wgsl_source(" \n\t "), "");
}

#[test]
fn minified_source_is_not_longer() {
    for src in ["fn  main ( ) { }", "f(a,)", "((x))", "a - 1", "x"] {
        assert!(minify_wgsl_source(src).chars().count() <= src.chars().count());
    }
}

#[test]
fn numeric_characters() {
    assert!(is_numeric('0'));
    assert!(is_numeric('9'));
    assert!(!is_numeric('a'));
    assert!(!is_numeric('.'));
    assert!(!is_numeric('\u{663}'));
}

#[test]
fn balanced_parentheses() {
    assert!(parens_are_balanced(""));
    assert!(parens_are_balanced("(a(b)c)"));
    assert!(!parens_are_balanced("(()"));
    assert!(!parens_are_balanced("())("));
    assert!(!parens_are_balanced(")"));
}

#[test]
fn minifying_again_changes_nothing() {
    let sources = [
        "fn f( a : i32 , b : i32 , ) -> i32 {\n  return ( ( a + b ) ) ;\n}\n",
        "let x = - 1 ;  let y = vec3 ( 1 , 2 , 3 , ) ;",
        "struct S {\n\ta : f32 ,\n\tb : array < u32 , 4 > ,\n}",
        "x = (((a)) * ((b), c));",
    ];
    for src in sources {
        let once = minify_wgsl_source(src);
        assert_eq!(minify_wgsl_source(&once), once);
    }
}

#[test]
fn second_pass_only_drops_doubled_parentheses() {
    let once = minify_wgsl_source("f( ( ( x ) ) , y , )");
    assert_eq!(once, "f((x),y)");
    assert_eq!(minify_wgsl_source(&once), "f((x),y)");
}

#[test]
fn unicode_whitespace_is_one_space_between_identifiers() {
    // an em space and an ideographic space separate identifiers; next to a bracket they go
    assert_eq!(minify_wgsl_source("let\u{2003}x\u{3000}=\u{2003}( y );"), "let x=(y);");
    assert_eq!(minify_wgsl_source("a\u{2028}\u{2029}b"), "a b");
}

#[test]
fn doubled_comma_can_need_a_second_run() {
    // the comma pass uncovers a new trailing comma: the one case minifying again changes
    let once = minify_wgsl_source("f(a, ,)");
    assert_eq!(once, "f(a,)");
    assert_eq!(minify_wgsl_source(&once), "f(a)");
}
