use dart2csharp::funcs::param_list::{
    split_parameter_list, split_positioned_named, split_single_parameter_list, transpile_params,
};


#[test]
fn single_parameter_list_splitted_1() {
    assert_eq!(
        split_single_parameter_list(
            r"
  NodeMetadata meta,
  BuildOp buildOp,
  Iterable<String> stylesPrepend,
			"),
        (
            vec![
                "NodeMetadata meta",
                "BuildOp buildOp",
                "Iterable<String> stylesPrepend"]
        )
    );
}

#[test]
fn single_parameter_list_splitted_2() {
    assert_eq!(
        split_single_parameter_list(
            r"
  void f(),
  BuildOp buildOp,
  Iterable<String> stylesPrepend,
			"),
        (
            vec![
                "void f()",
                "BuildOp buildOp",
                "Iterable<String> stylesPrepend"]
        )
    );
}

#[test]
fn single_parameter_list_splitted_3() {
    assert_eq!(
        split_single_parameter_list(
            r"
  void f(int a, float b),
  BuildOp buildOp,
  Iterable<String> stylesPrepend
			"),
        (
            vec![
                "void f(int a, float b)",
                "BuildOp buildOp",
                "Iterable<String> stylesPrepend"]
        )
    );
}

#[test]
fn single_parameter_list_splitted_4() {
    assert_eq!(
        split_single_parameter_list(
            r"
  void f(int a, float b),
  BuildOp buildOp,
  this.styles,
  Iterable<String> stylesPrepend
			"),
        (
            vec![
                "void f(int a, float b)",
                "BuildOp buildOp",
                "this.styles",
                "Iterable<String> stylesPrepend"]
        )
    );
}

#[test]
fn single_parameter_list_splitted_5() {
    assert_eq!(
        split_single_parameter_list(
            r"
  BuildOp buildOp,
  Iterable<String> stylesPrepend,
  void f(int a, float b),
  this.styles
			"),
        (
            vec![
                "BuildOp buildOp",
                "Iterable<String> stylesPrepend",
                "void f(int a, float b)",
                "this.styles"]
        )
    );
}

#[test]
fn parameter_list_splitted_1() {
    assert_eq!(
        split_parameter_list(
            r"
  NodeMetadata meta, {
  BuildOp buildOp,
  Iterable<String> stylesPrepend,
}
			"),
        (
            vec![String::from("NodeMetadata meta")],
            vec![String::from("BuildOp buildOp"), String::from("Iterable<String> stylesPrepend")]
        )
    );
}

#[test]
fn positional_named_splitted_1() {
    assert_eq!(
        split_positioned_named(
            r"
  NodeMetadata meta, {
  BuildOp buildOp,
  Iterable<String> stylesPrepend,
}
			"),
        (Option::Some("NodeMetadata meta,"), Option::Some("BuildOp buildOp,
  Iterable<String> stylesPrepend,"))
    );
}

#[test]
fn params_transpiled_1() {
    assert_eq!(
        transpile_params(
            r"
  NodeMetadata meta, {
  BuildOp buildOp,
  Iterable<String> stylesPrepend,
}
			"),
        "NodeMetadata meta,
BuildOp buildOp = null,
Iterable<String> stylesPrepend = null"
    );
}

#[test]
fn parameter_list_splitted_2() {
    assert_eq!(
        split_parameter_list(
            r"{
    this.block,
    this.widgets
  }
			"),
        (
            vec![],
            vec![String::from("this.block"), String::from("this.widgets")]
        )
    );
}

#[test]
fn positional_named_splitted_2() {
    assert_eq!(
        split_positioned_named(
            r"{
    this.block,
    this.widgets
  }
			"),
        (Option::None, Option::Some("this.block,
    this.widgets"))
    );
}

#[test]
fn params_transpiled_2() {
    assert_eq!(
        transpile_params(
            r"{
    this.block,
    this.widgets
  }
			"),
        "this.block = null,
this.widgets = null"
    );
}

#[test]
fn parameter_list_splitted_3() {
    assert_eq!(
        split_parameter_list(
            r"{
    CssLength bottom,
    CssLength left,
    CssLength right,
    CssLength top,
  }
			"),
        (
            vec![],
            vec![
                String::from("CssLength bottom"),
                String::from("CssLength left"),
                String::from("CssLength right"),
                String::from("CssLength top")]
        )
    );
}

#[test]
fn positional_named_splitted_3() {
    assert_eq!(
        split_positioned_named(
            r"{
    CssLength bottom,
    CssLength left,
    CssLength right,
    CssLength top,
  }
			"),
        (Option::None, Option::Some("CssLength bottom,
    CssLength left,
    CssLength right,
    CssLength top,"))
    );
}

#[test]
fn params_transpiled_3() {
    assert_eq!(
        transpile_params(
            r"{
    CssLength bottom,
    CssLength left,
    CssLength right,
    CssLength top,
  }
			"),
        "CssLength bottom = null,
CssLength left = null,
CssLength right = null,
CssLength top = null"
    );
}

#[test]
fn parameter_list_splitted_4() {
    assert_eq!(
        split_parameter_list(
            r"this.block, this.data, this.tsb, {this.onTap}"),
        (
            vec![
                String::from("this.block"),
                String::from("this.data"),
                String::from("this.tsb")],
            vec![String::from("this.onTap")]
        )
    );
}

#[test]
fn positional_named_splitted_4() {
    assert_eq!(
        split_positioned_named(
            r"this.block, this.data, this.tsb, {this.onTap}"),
        (Option::Some("this.block, this.data, this.tsb,"), Option::Some("this.onTap"))
    );
}

#[test]
fn params_transpiled_4() {
    assert_eq!(
        transpile_params(
            r"this.block, this.data, this.tsb, {this.onTap}"),
        "this.block,
this.data,
this.tsb,
this.onTap = null"
    );
}

#[test]
fn parameter_list_splitted_5() {
    assert_eq!(
        split_parameter_list(
            r"void f(String key, String value)"),
        (
            vec![String::from("void f(String key, String value)")],
            vec![]
        )
    );
}

#[test]
fn positional_named_splitted_5() {
    assert_eq!(
        split_positioned_named(
            r"void f(String key, String value)"),
        (Option::Some("void f(String key, String value)"), Option::None)
    );
}

#[test]
fn params_transpiled_5() {
    assert_eq!(
        transpile_params(
            r"void f(String key, String value)"),
        "Action<String, String> f"
    );
}

#[test]
fn parameter_list_splitted_6() {
    assert_eq!(
        split_parameter_list(
            r""),
        (
            vec![],
            vec![]
        )
    );
}

#[test]
fn positional_named_splitted_6() {
    assert_eq!(
        split_positioned_named(
            r""),
        (Option::None, Option::None)
    );
}

#[test]
fn params_transpiled_6() {
    assert_eq!(
        transpile_params(
            r""),
        ""
    );
}
