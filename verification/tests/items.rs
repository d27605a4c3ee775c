use dart2csharp::funcs::param_item::{
    append_default_value, create_function_action, delegate, delegate_from, drop_names,
    null_default_from, types_from, FUNCTION_PATTERN, LAST_PATTERN, PAIR_PATTERN,
};
use dart2csharp::funcs::pieces::{split_at_commas, split_pieces};
use dart2csharp::matcher::find_all;
use regex::Regex;

#[test]
fn delegate_for_each_shape() {
    assert_eq!(delegate("", "void", "f", "", ""), "Action f");
    assert_eq!(delegate("", "void", "f", "int, float", ""), "Action<int, float> f");
    assert_eq!(delegate("", "int", "f", "", ""), "Function<int> f");
    assert_eq!(delegate("", "int", "f", "int", ""), "Function<int, int> f");
    assert_eq!(delegate(" \n", "String", "cb", "A, B", "\t"), " \nFunction<A, B, String> cb\t");
    assert_eq!(delegate("  ", "Void", "f", "", " "), "  Function<Void> f ");
}

#[test]
fn function_items_become_delegates() {
    assert_eq!(create_function_action("void f(int a, float b)"), "Action<int, float> f");
    assert_eq!(create_function_action("void f()"), "Action f");
    assert_eq!(create_function_action("int f(int a)"), "Function<int, int> f");
    assert_eq!(create_function_action("int f()"), "Function<int> f");
    assert_eq!(create_function_action("int f(int a, int b) "), "Function<int, int, int> f ");
    assert_eq!(create_function_action("void  f ( A a , B b )"), "Action<A , B> f");
    assert_eq!(create_function_action("void f(int a, int b, int c)"), "Action<int, int, int> f");
    assert_eq!(create_function_action("int f(A a,B b,C c, D d)"), "Function<A,B,C, D, int> f");
    assert_eq!(
        create_function_action(" void f( int a , int b , int c ) "),
        " Action<int , int , int> f "
    );
}

#[test]
fn other_items_pass_through() {
    for item in [
        "",
        "  ",
        "int a",
        "this.a",
        "Iterable<String> xs",
        "int a = f(1)",
        "f()",
        "void",
        "void f(int)",
        "void f(List<int> a)",
        "void f() x",
        "void f(void g())",
    ] {
        assert_eq!(create_function_action(item), item);
    }
}

#[test]
fn drop_names_keeps_the_types() {
    assert_eq!(drop_names(""), "");
    assert_eq!(drop_names("int a"), "int");
    assert_eq!(drop_names("int a, float b"), "int, float");
    assert_eq!(drop_names("A a , B b"), "A , B");
    assert_eq!(drop_names("int"), "int");
}

#[test]
fn types_from_given_pairs() {
    let params = "int a, float b";
    assert_eq!(types_from(params, &find_all(PAIR_PATTERN, params)), "int, float");
    assert_eq!(types_from(params, &vec![]), params);
    let by_hand = vec![vec![Some((0, 5)), Some((4, 5))], vec![Some((7, 14))]];
    assert_eq!(types_from(params, &by_hand), "a, ");
}

#[test]
fn delegate_from_given_matches() {
    let item = " void f(int a) ";
    assert_eq!(
        delegate_from(item, &find_all(FUNCTION_PATTERN, item)),
        Some(String::from(" Action<int> f "))
    );
    assert_eq!(delegate_from(item, &vec![]), None);
    assert_eq!(delegate_from(item, &vec![vec![Some((0, 15))]]), None);
    let no_params = vec![vec![
        Some((0, 15)),
        Some((0, 1)),
        Some((1, 5)),
        Some((6, 7)),
        None,
        None,
        None,
        Some((14, 15)),
    ]];
    assert_eq!(delegate_from(item, &no_params), Some(String::from(" Action f ")));
    let no_name = vec![vec![
        Some((0, 15)),
        Some((0, 1)),
        Some((1, 5)),
        None,
        Some((8, 13)),
        None,
        None,
        Some((14, 15)),
    ]];
    assert_eq!(delegate_from(item, &no_name), None);
}

#[test]
fn default_edge_cases() {
    assert_eq!(append_default_value(""), "");
    assert_eq!(append_default_value("  "), "  ");
    assert_eq!(append_default_value("\n\u{3000}"), "\n\u{3000}");
    assert_eq!(append_default_value("a"), "a = null");
    assert_eq!(append_default_value("\u{3000}a\u{a0}"), "\u{3000}a = null\u{a0}");
    assert_eq!(append_default_value("="), "=");
    assert_eq!(append_default_value("a == b"), "a == b");
}

#[test]
fn required_is_resolved() {
    assert_eq!(append_default_value("@required int a"), "/* TODO: check null */ int a = null");
    assert_eq!(append_default_value("@required int a = 1"), "/* TODO: check null */ int a = 1");
    assert_eq!(
        append_default_value("@required a = @required"),
        "/* TODO: check null */ a = /* TODO: check null */"
    );
    assert_eq!(append_default_value("x @requiredy"), "x /* TODO: check null */y = null");
    assert_eq!(append_default_value("@required"), "/* TODO: check null */ = null");
    assert_eq!(append_default_value("@require d"), "@require d = null");
}

#[test]
fn default_goes_behind_the_last_character_that_is_no_white_space() {
    let last = Regex::new(r"(?P<nospace>\S)(?P<trailing>\s*)$").unwrap();
    for item in [
        "",
        " ",
        "a",
        " a",
        "a ",
        "int a\n",
        "int a \t\r\n",
        "\u{a0}int\u{2003}a\u{3000}",
        "a\u{200b}",
        "a\u{85}",
        "\u{1f600}\n\n",
        "x\u{180e} ",
        "int a\n b \n",
    ] {
        let expected = last.replace_all(item, "$nospace = null$trailing").to_string();
        assert_eq!(append_default_value(item), expected);
    }
}

#[test]
fn white_space_in_items_is_white_space_in_patterns() {
    let last = Regex::new(r"(?P<nospace>\S)(?P<trailing>\s*)$").unwrap();
    let mut code: u32 = 0;
    while code <= 0xffff {
        if let Some(c) = char::from_u32(code) {
            if c != '=' && (c.is_whitespace() || code % 251 == 0) {
                let item = format!("a{}", c);
                let expected = last.replace_all(&item, "$nospace = null$trailing").to_string();
                assert_eq!(append_default_value(&item), expected, "U+{:04X}", code);
            }
        }
        code += 1;
    }
}

#[test]
fn null_default_from_given_matches() {
    let item = " int a \n";
    assert_eq!(null_default_from(item, &find_all(LAST_PATTERN, item)), " int a = null \n");
    assert_eq!(null_default_from(item, &vec![]), item);
    let found = vec![vec![Some((5, 8)), Some((5, 6)), Some((6, 8))]];
    assert_eq!(null_default_from(item, &found), " int a = null \n");
    let too_early = vec![vec![Some((3, 8)), Some((3, 4)), Some((4, 8))]];
    assert_eq!(null_default_from(item, &too_early), item);
    let white_space = vec![vec![Some((6, 8)), Some((6, 7)), Some((7, 8))]];
    assert_eq!(null_default_from(item, &white_space), item);
    let not_to_the_end = vec![vec![Some((5, 7)), Some((5, 6)), Some((6, 7))]];
    assert_eq!(null_default_from(item, &not_to_the_end), item);
    let apart = vec![vec![Some((5, 8)), Some((5, 6)), Some((7, 8))]];
    assert_eq!(null_default_from(item, &apart), item);
    let no_space_group = vec![vec![Some((5, 8)), Some((5, 6))]];
    assert_eq!(null_default_from(item, &no_space_group), item);
}

#[test]
fn pieces_between_commas_outside_brackets() {
    assert_eq!(split_at_commas(""), Vec::<String>::new());
    assert_eq!(split_at_commas(" , ,"), Vec::<String>::new());
    assert_eq!(split_at_commas("a, b"), vec!["a", "b"]);
    assert_eq!(split_at_commas(" a ,\n b ,"), vec!["a", "b"]);
    assert_eq!(split_at_commas("f(a, b), c"), vec!["f(a, b)", "c"]);
    assert_eq!(split_at_commas("Map<K, V> m, x"), vec!["Map<K, V> m", "x"]);
    assert_eq!(split_at_commas("a), b"), vec!["a)", "b"]);
    assert_eq!(split_at_commas("f(a, <b, c>, d), e)), g"), vec!["f(a, <b, c>, d)", "e))", "g"]);
    assert_eq!(split_at_commas("f(a, b"), vec!["f(a", "b"]);
    assert_eq!(split_at_commas("x, f(a, g(b, c), d"), vec!["x", "f(a", "g(b", "c)", "d"]);
    assert_eq!(split_at_commas("a > b, c"), vec!["a > b", "c"]);
    assert_eq!(split_at_commas("[a, b]"), vec!["[a", "b]"]);
}

#[test]
fn pieces_and_what_is_left_over() {
    assert_eq!(split_pieces("", true), (vec![], "", true));
    assert_eq!(
        split_pieces("a, b ,  c ", true),
        (vec![String::from("a"), String::from("b")], "  c ", true)
    );
    assert_eq!(
        split_pieces("a, f(b, c),", true),
        (vec![String::from("a"), String::from("f(b, c)")], "", true)
    );
    assert_eq!(split_pieces(" @required ", true), (vec![], " @required ", true));
    assert_eq!(split_pieces("a, f(b, c", true), (vec![String::from("a")], " f(b, c", false));
    assert_eq!(
        split_pieces("a, f(b, c", false),
        (vec![String::from("a"), String::from("f(b")], " c", false)
    );
    assert_eq!(split_pieces("a), (b)", true), (vec![String::from("a)")], " (b)", true));
}
