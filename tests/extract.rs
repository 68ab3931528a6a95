use cmacros::{CMacro, ParseError, extract_macros};

#[test]
fn test_extract_macros() {
    let src = r"
#define CONST_1 1
#define CONST_2 2
#define CONST_3 3
#define NO_BODY
#define EXTRA_SPACES   4
#define MACRO_WITH_ARGS(a,b,c) ((a) + (b) + (c))
#define MACRO_WITH_ARGS_2( a , b , c ) ((a) + (b) + (c))

// commented out macros
//#define IGNORE_ME_2

#define MULTI_LINE_MACRO(a,b) \
        a + b

  #define PRECEDING_SPACES

# define SPACE_AFTER_HASH
";
    let expected_macros: Vec<CMacro> = vec![
        CMacro::new("CONST_1", Some("1")),
        CMacro::new("CONST_2", Some("2")),
        CMacro::new("CONST_3", Some("3")),
        CMacro::new("NO_BODY", None),
        CMacro::new("EXTRA_SPACES", Some("4")),
        CMacro::new_with_args("MACRO_WITH_ARGS", vec!["a", "b", "c"], "((a) + (b) + (c))"),
        CMacro::new_with_args("MACRO_WITH_ARGS_2", vec!["a", "b", "c"], "((a) + (b) + (c))"),
        CMacro::new_with_args("MULTI_LINE_MACRO", vec!["a", "b"], "a + b"),
        CMacro::new("PRECEDING_SPACES", None),
        CMacro::new("SPACE_AFTER_HASH", None),
    ];
    let actual_macros = extract_macros(src).unwrap();

    let expected_macro_names: Vec<&str> = expected_macros.iter().map(|m| &m.name[..]).collect();
    let actual_macro_names: Vec<&str> = actual_macros.iter().map(|m| &m.name[..]).collect();

    assert_eq!(expected_macro_names, actual_macro_names);
    for (actual, expected) in expected_macros.iter().zip(actual_macros.iter()) {
        assert_eq!(actual, expected);
    }
}

#[test]
fn no_define_lines_give_no_macros() {
    let src = "#include <stdio.h>\n#ifdef X\nint x;\n// #define Y 1\n#endif\n";
    assert_eq!(extract_macros(src).unwrap(), vec![]);
    assert_eq!(extract_macros("").unwrap(), vec![]);
    assert_eq!(extract_macros("   \n\n\t").unwrap(), vec![]);
}

#[test]
fn macros_keep_source_order() {
    let src = "#define B 2\nint y;\n#define A 1\n#define C 3";
    let names: Vec<String> = extract_macros(src).unwrap().into_iter().map(|m| m.name).collect();
    assert_eq!(names, vec!["B", "A", "C"]);
}

#[test]
fn continued_line_parses_as_one_line() {
    let joined = extract_macros("#define M(a,b) \\\n  a + b\n").unwrap();
    let single = extract_macros("#define M(a,b) a + b\n").unwrap();
    assert_eq!(joined, single);
    assert_eq!(joined, vec![CMacro::new_with_args("M", vec!["a", "b"], "a + b")]);
}

#[test]
fn extra_whitespace_is_ignored() {
    let spaced = extract_macros("#   define    F(  x ,   y  )    x * y   ").unwrap();
    let tight = extract_macros("#define F(x,y) x * y").unwrap();
    assert_eq!(spaced, tight);
}

#[test]
fn empty_argument_list_is_kept() {
    let ms = extract_macros("#define F() 1\n#define G 1\n").unwrap();
    assert_eq!(ms[0].args, Some(vec![]));
    assert_eq!(ms[1].args, None);
}

#[test]
fn missing_body_is_none() {
    let ms = extract_macros("#define A\n#define B    \n#define C(x)\n#define D  d  \n").unwrap();
    assert_eq!(ms[0].body, None);
    assert_eq!(ms[1].body, None);
    assert_eq!(ms[2].body, None);
    assert_eq!(ms[3].body, Some("d".to_string()));
}

#[test]
fn extraction_is_deterministic() {
    let src = "#define A 1\n#define F(a) (a)\n";
    assert_eq!(extract_macros(src).unwrap(), extract_macros(src).unwrap());
}

#[test]
fn other_directives_are_not_macros() {
    let ms = extract_macros("#ifdef X\n#definex Y\n#define\n##define Z 1\n#undef A\n").unwrap();
    assert_eq!(ms, vec![]);
}

#[test]
fn missing_name_is_an_error() {
    assert_eq!(extract_macros("#define 1abc").map(|_| ()), Ok(()));
    assert_eq!(
        extract_macros("#define A 1\n#define (x) y\n#define B(\n"),
        Err(ParseError::MissingName("(x) y".to_string()))
    );
}

#[test]
fn bad_argument_char_is_an_error() {
    assert_eq!(extract_macros("#define F(a; b) a"), Err(ParseError::UnexpectedChar(';')));
    assert_eq!(extract_macros("#define F(a, b"), Err(ParseError::UnexpectedChar('\0')));
}

#[test]
fn tabs_and_unicode_spaces_are_whitespace() {
    let ms = extract_macros("#\tdefine\u{3000}X\u{a0}7\u{2003}").unwrap();
    assert_eq!(ms, vec![CMacro::new("X", Some("7"))]);
}

#[test]
fn backslash_without_newline_stays() {
    let ms = extract_macros("#define S \"a\\\\b\"\\").unwrap();
    assert_eq!(ms, vec![CMacro::new("S", Some("\"a\\\\b\"\\"))]);
}

#[test]
fn continuation_after_earlier_lines() {
    let joined = extract_macros("#define A 1\n\n#define M(a) (a \\\n + 1)\n#define B 2").unwrap();
    let single = extract_macros("#define A 1\n\n#define M(a) (a  + 1)\n#define B 2").unwrap();
    assert_eq!(joined, single);
    assert_eq!(joined[1], CMacro::new_with_args("M", vec!["a"], "(a  + 1)"));
}
