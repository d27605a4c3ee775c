use dart2csharp::cleanup::{remove_from, remove_import, IMPORT_PATTERN};
use dart2csharp::funcs::{
    accept_header, assemble_header, rewrite_from, rewrite_header, transpile_func_head, HeaderMatch,
    HEADER_PATTERN,
};
use dart2csharp::matcher::find_all;

fn parts<'a>(header: Option<HeaderMatch<'a>>) -> Option<(&'a str, Option<&'a str>, &'a str, &'a str, &'a str)> {
    header.map(|h| (h.leading_space(), h.return_type(), h.name(), h.raw_params(), h.trailing()))
}

#[test]
fn accept_header_reads_the_groups() {
    let text = "  void run(int a) =>";
    let matches = find_all(HEADER_PATTERN, text);
    assert_eq!(matches.len(), 1);
    assert_eq!(
        parts(accept_header(text, &matches[0])),
        Some(("  ", Some("void"), "run", "int a", " =>"))
    );
    let text = "Point(this.x) :";
    let matches = find_all(HEADER_PATTERN, text);
    assert_eq!(parts(accept_header(text, &matches[0])), Some(("", None, "Point", "this.x", " :")));
}

#[test]
fn accept_header_turns_down() {
    let text = "if (a) {";
    let matches = find_all(HEADER_PATTERN, text);
    assert_eq!(matches.len(), 1);
    assert!(accept_header(text, &matches[0]).is_none());

    let text = "void run(a) ;";
    let whole = Some((0, 13));
    let all = vec![whole, Some((0, 0)), Some((0, 4)), Some((5, 8)), Some((9, 10)), Some((11, 13))];
    assert!(accept_header(text, &all).is_none());
    let text = "void run(a) {";
    assert_eq!(parts(accept_header(text, &all)), Some(("", Some("void"), "run", "a", " {")));
    let no_name = vec![whole, Some((0, 0)), Some((0, 4)), None, Some((9, 10)), Some((11, 13))];
    assert!(accept_header(text, &no_name).is_none());
    let no_params = vec![whole, Some((0, 0)), Some((0, 4)), Some((5, 8)), None, Some((11, 13))];
    assert!(accept_header(text, &no_params).is_none());
    let no_marker = vec![whole, Some((0, 0)), Some((0, 4)), Some((5, 8)), Some((9, 10))];
    assert!(accept_header(text, &no_marker).is_none());
    let no_space = vec![whole, None, Some((0, 4)), Some((5, 8)), Some((9, 10)), Some((11, 13))];
    assert!(accept_header(text, &no_space).is_none());
    assert!(accept_header(text, &vec![whole]).is_none());
    let part_of_a_word =
        vec![whole, Some((0, 0)), Some((0, 4)), Some((6, 8)), Some((9, 10)), Some((11, 13))];
    assert!(accept_header(text, &part_of_a_word).is_none());
    let with_a_space =
        vec![whole, Some((0, 0)), None, Some((0, 8)), Some((9, 10)), Some((11, 13))];
    assert!(accept_header(text, &with_a_space).is_none());
    let empty_name =
        vec![whole, Some((0, 0)), Some((0, 4)), Some((5, 5)), Some((9, 10)), Some((11, 13))];
    assert!(accept_header(text, &empty_name).is_none());
    let not_opened =
        vec![whole, Some((0, 0)), Some((0, 4)), Some((5, 8)), Some((8, 10)), Some((11, 13))];
    assert!(accept_header(text, &not_opened).is_none());
    let not_closed =
        vec![whole, Some((0, 0)), Some((0, 4)), Some((5, 8)), Some((9, 11)), Some((11, 13))];
    assert!(accept_header(text, &not_closed).is_none());
}

#[test]
fn header_of_its_parts() {
    assert_eq!(
        parts(HeaderMatch::new(" ", Some("int"), "size", "int a", " {")),
        Some((" ", Some("int"), "size", "int a", " {"))
    );
    assert_eq!(parts(HeaderMatch::new("", None, "Size", "", "\n=>")), Some(("", None, "Size", "", "\n=>")));
    assert_eq!(parts(HeaderMatch::new("", None, "_", "", ":")), Some(("", None, "_", "", ":")));
}

#[test]
fn no_header_with_a_reserved_name() {
    for keyword in ["if", "while", "for", "final", "class"] {
        assert!(HeaderMatch::new("", None, keyword, "", " {").is_none());
        assert!(HeaderMatch::new("  ", Some("void"), keyword, "int a", " =>").is_none());
    }
    assert!(HeaderMatch::new("", None, "If", "", " {").is_some());
    assert!(HeaderMatch::new("", None, "iff", "", " {").is_some());
}

#[test]
fn no_header_without_a_marker() {
    for trailing in ["", " ", ";", " ;", "=", "=>x", "{ }", "::", "= >", "\n"] {
        assert!(HeaderMatch::new("", Some("void"), "run", "", trailing).is_none());
    }
    for trailing in [":", "=>", "{", " :", ": ", "\n\n  =>", "\t{", "\u{3000}{\n"] {
        assert!(HeaderMatch::new("", Some("void"), "run", "", trailing).is_some());
    }
}

#[test]
fn assemble_header_each_part() {
    let header = HeaderMatch::new("\n  ", Some("int"), "size", "ignored", " =>").unwrap();
    assert_eq!(assemble_header(&header, "int a,\nint b = null"), "\n  public int size(int a,\nint b = null) =>");
    let hidden = HeaderMatch::new("\n  ", Some("int"), "_size", "ignored", " =>").unwrap();
    assert_eq!(assemble_header(&hidden, ""), "\n  int _size() =>");
    let plain = HeaderMatch::new("", None, "Size", "", "{").unwrap();
    assert_eq!(assemble_header(&plain, "this.a"), "public Size(this.a){");
    let unnamed = HeaderMatch::new("", None, "", "", ":").unwrap();
    assert_eq!(assemble_header(&unnamed, ""), "public ():");
}

#[test]
fn rewrite_header_rewrites_the_parameters() {
    let header =
        HeaderMatch::new("", Some("void"), "each", "void f(String key), {int from}", " {").unwrap();
    assert_eq!(rewrite_header(&header), "public void each(Action<String> f,\nint from = null) {");
}

#[test]
fn rewrite_from_given_matches() {
    let text = "a() {\nif (b) {\n_c(int d) =>";
    assert_eq!(
        rewrite_from(text, &find_all(HEADER_PATTERN, text)),
        "public a() {\nif (b) {\n_c(int d) =>"
    );
    assert_eq!(rewrite_from(text, &vec![]), text);
    let second = vec![vec![
        Some((6, 14)),
        Some((6, 6)),
        None,
        Some((6, 8)),
        Some((10, 11)),
        Some((12, 14)),
    ]];
    assert_eq!(rewrite_from(text, &second), text);
    let third = vec![vec![
        Some((15, 27)),
        Some((15, 15)),
        None,
        Some((16, 17)),
        Some((18, 23)),
        Some((24, 27)),
    ]];
    assert_eq!(rewrite_from(text, &third), text);
    let first = vec![vec![
        Some((0, 5)),
        Some((0, 0)),
        None,
        Some((0, 1)),
        Some((2, 2)),
        Some((3, 5)),
    ]];
    assert_eq!(rewrite_from(text, &first), "public a() {\nif (b) {\n_c(int d) =>");
}

#[test]
fn headers_over_several_lines() {
    assert_eq!(
        transpile_func_head("  Widget build(\n    BuildContext context, {\n    Key key,\n  }) {\n    return null;\n  }\n"),
        "  public Widget build(BuildContext context,\nKey key = null) {\n    return null;\n  }\n"
    );
}

#[test]
fn several_headers() {
    assert_eq!(
        transpile_func_head("class A {\n  A(this.x);\n  int get(int i) => x;\n  void _set(int v) {\n    x = v;\n  }\n}\n"),
        "class A {\n  A(this.x);\n  public int get(int i) => x;\n  void _set(int v) {\n    x = v;\n  }\n}\n"
    );
}

#[test]
fn remove_from_given_matches() {
    let text = "import 'a';\nclass A {}\n";
    assert_eq!(remove_from(text, &find_all(IMPORT_PATTERN, text)), "class A {}\n");
    assert_eq!(remove_from(text, &vec![]), text);
    assert_eq!(remove_from(text, &vec![vec![Some((0, 6))], vec![Some((11, 12)), None]]), " 'a';class A {}\n");
}

#[test]
fn imports_are_removed() {
    assert_eq!(remove_import(""), "");
    assert_eq!(remove_import("important"), "important");
    assert_eq!(remove_import("import 'a';\nfoo"), "foo");
    assert_eq!(remove_import("x\nimport 'a';\n\n\ny"), "x\ny");
    assert_eq!(remove_import("no import"), "no import");
}
