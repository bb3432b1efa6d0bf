use helix::migrate::type_infer::{
    generate_rust_type_decls, infer_types, BindingKind, InferredType,
};

#[test]
fn infers_literal_initializers() {
    let src = r#"
        const name = "helix";
        let count = 42;
        var ratio = 3.14;
        let active = true;
        const items = [1, 2, 3];
        let cfg = { a: 1 };
    "#;
    let types = infer_types(src);
    let get = |n: &str| types.iter().find(|b| b.name == n).map(|b| b.ty);
    assert_eq!(get("name"), Some(InferredType::Str));
    assert_eq!(get("count"), Some(InferredType::Int));
    assert_eq!(get("ratio"), Some(InferredType::Float));
    assert_eq!(get("active"), Some(InferredType::Bool));
    assert_eq!(get("items"), Some(InferredType::Array));
    assert_eq!(get("cfg"), Some(InferredType::Object));
}

#[test]
fn honors_ts_annotations_over_literals() {
    let src = r#"
        let explicit: number = "not really a number";
        const flag: boolean = 1;
    "#;
    let types = infer_types(src);
    let get = |n: &str| types.iter().find(|b| b.name == n).map(|b| b.ty);
    assert_eq!(get("explicit"), Some(InferredType::Float));
    assert_eq!(get("flag"), Some(InferredType::Bool));
}

#[test]
fn infers_function_return_literals() {
    let src = r#"
        function greeting() {
            return "hi";
        }
        function answer() {
            return 42;
        }
    "#;
    let types = infer_types(src);
    let get = |n: &str| types.iter().find(|b| b.name == n).map(|b| b.ty);
    assert_eq!(get("greeting"), Some(InferredType::Str));
    assert_eq!(get("answer"), Some(InferredType::Int));
}

#[test]
fn generates_rust_type_decls() {
    let src = r#"const name = "x"; let n = 1;"#;
    let decls = generate_rust_type_decls(&infer_types(src));
    assert!(decls.contains("pub mod inferred {"));
    assert!(decls.contains("pub type name_t = String;"));
    assert!(decls.contains("pub type n_t = i64;"));
}

#[test]
fn a_returned_value_ends_with_its_statement() {
    let types = infer_types("function answer() { return 42; }");
    assert_eq!(types.len(), 1);
    assert_eq!(types[0].name, "answer");
    assert_eq!(types[0].ty, InferredType::Int);
    assert_eq!(types[0].kind, BindingKind::Return);
}

#[test]
fn annotations_of_parameters_are_not_those_of_the_function() {
    let types = infer_types("function f(a: string) { return 1; }\nfunction g(a: number = h(')')): string {\n}");
    let get = |n: &str| types.iter().find(|b| b.name == n).map(|b| b.ty);
    assert_eq!(get("f"), Some(InferredType::Int));
    assert_eq!(get("g"), Some(InferredType::Str));
}

#[test]
fn a_function_takes_no_return_of_a_later_one() {
    let types = infer_types("function f() {\n  log(\"}\");\n}\nfunction g() {\n  return true;\n}");
    assert_eq!(types.len(), 1);
    assert_eq!(types[0].name, "g");
    assert_eq!(types[0].ty, InferredType::Bool);
}
