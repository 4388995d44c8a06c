use washi::minifier::Minifier;
use washi::wgsl::{minify_text, MinifyTextError};

fn strip(s: &str) -> String {
    s.chars().filter(|c| !c.is_ascii_whitespace()).collect()
}

fn minify_one(src: &str) -> (Minifier, String) {
    let mut m = Minifier::default();
    let out = minify_text(&mut m, src).expect("minifies");
    (m, out)
}

#[test]
fn text_locals_restart_in_each_function() {
    let src = "fn foo(p: f32) -> f32 { let q = p; return q; }\nfn qux(p: f32) -> f32 { let q = p * p; return q; }\n";
    let (_, out) = minify_one(src);
    assert_eq!(
        strip(&out),
        strip("fn c(e:f32)->f32{let f=e;return f;}fn d(e:f32)->f32{let f=e*e;return f;}")
    );
}

#[test]
fn text_entry_points_and_map() {
    let src = "var<private> counter: f32;\nfn helper(v: f32) -> f32 { let t = v + counter; return t; }\n@fragment fn main() -> @location(0) vec4f { return vec4f(helper(counter)); }\n";
    let (m, out) = minify_one(src);
    let out = strip(&out);
    assert!(out.contains("fnmain("));
    assert!(out.contains("var<private>c:f32;"));
    assert!(out.contains("fnd(e:f32)->f32{letf=e+c;returnf;}"));
    assert_eq!(m.write_map(), "counter,c\r\nhelper,d\r\n");
}

#[test]
fn text_renamed_global_avoids_entry_point_name() {
    let src = "@compute @workgroup_size(1) fn c() {}\nconst foo = 1;\n";
    let (_, out) = minify_one(src);
    assert!(out.contains("fn c()"));
    assert!(out.contains("const d=1;"));
}

#[test]
fn text_same_renaming_across_files() {
    let mut m = Minifier::default();
    let a = minify_text(&mut m, "var<private> light: f32;\n").unwrap();
    let b = minify_text(&mut m, "@fragment fn main() -> @location(0) f32 { return light; }\n").unwrap();
    assert_eq!(strip(&a), "var<private>c:f32;");
    assert!(b.contains("return c;"));
}

#[test]
fn text_not_wgsl_is_refused() {
    let mut m = Minifier::default();
    assert_eq!(minify_text(&mut m, "fn (("), Err(MinifyTextError::Unparsable));
}
