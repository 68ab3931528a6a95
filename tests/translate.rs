use cmacros::{
    CMacro, ConstDecl, TranslateAction, generate_rust_src, guess_type, render_actions,
    translate_macro,
};

#[test]
fn test_generate_rust_src() {
    let macros: Vec<CMacro> = vec![
        CMacro::new("USED_CONST", Some("1")),
        CMacro::new("USED_CONST_2", Some("2")),
        CMacro::new("SKIPPED_CONST", Some("3")),
    ];
    let src = generate_rust_src(&macros, |def: &CMacro| {
        if def.name.starts_with("USED") {
            TranslateAction::TypedConst(ConstDecl {
                name: def.name.clone(),
                const_type: guess_type(&def.body.as_ref().unwrap()).to_string(),
                expr: def.body.as_ref().unwrap().clone(),
            })
        } else {
            TranslateAction::Skip
        }
    });
    assert_eq!(
        src,
        vec!["pub const USED_CONST: i32 = 1;", "pub const USED_CONST_2: i32 = 2;"].join("\n")
    )
}

#[test]
fn guess_type_picks_by_literal_form() {
    assert_eq!(guess_type("\"hi\""), "&'static str");
    assert_eq!(guess_type("0x10"), "u32");
    assert_eq!(guess_type("42"), "i32");
    assert_eq!(guess_type("(1 << 0x4)"), "u32");
    assert_eq!(guess_type("\"0x1\""), "&'static str");
    assert_eq!(guess_type(""), "i32");
    assert_eq!(guess_type("0X10"), "i32");
    assert_eq!(guess_type("x0"), "i32");
}

#[test]
fn default_policy_over_two_constants() {
    let defs = vec![CMacro::new("CONST_1", Some("1")), CMacro::new("CONST_2", Some("2"))];
    let src = generate_rust_src(&defs, translate_macro);
    assert_eq!(src, "pub const CONST_1: i32 = 1;\npub const CONST_2: i32 = 2;");
}

#[test]
fn skipping_policy_gives_empty_text() {
    let defs: Vec<CMacro> =
        (0..50).map(|i| CMacro::new(&format!("C{}", i), Some("1"))).collect();
    assert_eq!(generate_rust_src(&defs, |_: &CMacro| TranslateAction::Skip), "");
    assert_eq!(generate_rust_src(&[], translate_macro), "");
}

#[test]
fn default_policy_skips_function_like_and_empty() {
    let f = CMacro::new_with_args("F", vec!["a"], "a");
    let e = CMacro::new("E", None);
    assert!(matches!(translate_macro(&f), TranslateAction::Skip));
    assert!(matches!(translate_macro(&e), TranslateAction::Skip));
    match translate_macro(&CMacro::new("H", Some("0xff"))) {
        TranslateAction::TypedConst(d) => {
            assert_eq!(d.name, "H");
            assert_eq!(d.const_type, "u32");
            assert_eq!(d.expr, "0xff");
        }
        TranslateAction::Skip => panic!("expected a constant"),
    }
}

#[test]
fn render_actions_joins_declarations() {
    let acts = vec![
        TranslateAction::Skip,
        TranslateAction::TypedConst(ConstDecl {
            name: "A".to_string(),
            const_type: "u8".to_string(),
            expr: "1".to_string(),
        }),
        TranslateAction::Skip,
        TranslateAction::TypedConst(ConstDecl {
            name: "S".to_string(),
            const_type: "&'static str".to_string(),
            expr: "\"s\"".to_string(),
        }),
    ];
    assert_eq!(
        render_actions(&acts),
        "pub const A: u8 = 1;\npub const S: &'static str = \"s\";"
    );
    assert_eq!(render_actions(&[]), "");
}

#[test]
fn constructors_build_fields() {
    let m = CMacro::new("N", Some("v"));
    assert_eq!(m.name, "N");
    assert_eq!(m.args, None);
    assert_eq!(m.body, Some("v".to_string()));
    let f = CMacro::new_with_args("F", vec!["x", "y"], "x");
    assert_eq!(f.args, Some(vec!["x".to_string(), "y".to_string()]));
    assert_eq!(f.body, Some("x".to_string()));
}
