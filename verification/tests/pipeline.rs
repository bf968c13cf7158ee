use pure_lang::ast::{Declaration, Expr, AST};
use pure_lang::bytecode;
use pure_lang::def;
use pure_lang::driver::{self, Artifact};
use pure_lang::js;
use pure_lang::parser::{Node, Rule};
use pure_lang::valid::Valid;

fn leaf(rule: Rule, text: &str) -> Node {
    Node { rule, text: text.to_string(), children: vec![] }
}

fn branch(rule: Rule, text: &str, children: Vec<Node>) -> Node {
    Node { rule, text: text.to_string(), children }
}

fn decl(name: &str, body: Node) -> Node {
    let text = format!("{} = {}", name, body.text);
    branch(Rule::Decl, &text, vec![leaf(Rule::Uid, name), body])
}

fn param(name: &str) -> Node {
    branch(Rule::Param, name, vec![leaf(Rule::Name, name)])
}

fn eoi() -> Node {
    leaf(Rule::Eoi, "")
}

// main = 42
fn minimal() -> Vec<Node> {
    vec![decl("main", leaf(Rule::Int, "42")), eoi()]
}

// main = std.add 1 2
fn standard_call() -> Vec<Node> {
    let call = branch(
        Rule::Call,
        "std.add 1 2",
        vec![leaf(Rule::Id, "std.add"), leaf(Rule::Int, "1"), leaf(Rule::Int, "2")],
    );
    vec![decl("main", call), eoi()]
}

// inc = x -> std.add x 1
// main = inc 41
fn user_binding() -> Vec<Node> {
    let body = branch(
        Rule::Call,
        "std.add x 1",
        vec![leaf(Rule::Id, "std.add"), leaf(Rule::Name, "x"), leaf(Rule::Int, "1")],
    );
    let func = branch(Rule::Func, "x -> std.add x 1", vec![param("x"), body]);
    let call = branch(Rule::Call, "inc 41", vec![leaf(Rule::Id, "inc"), leaf(Rule::Int, "41")]);
    vec![decl("inc", func), decl("main", call), eoi()]
}

// forty_two = 42
// main = forty_two
fn nullary_forcing() -> Vec<Node> {
    vec![
        decl("forty_two", leaf(Rule::Int, "42")),
        decl("main", leaf(Rule::Id, "forty_two")),
        eoi(),
    ]
}

fn image(outcome: Result<Artifact, String>) -> Vec<u8> {
    match outcome {
        Ok(Artifact::Image(bytes)) => bytes,
        other => panic!("no image: {:?}", other),
    }
}

fn script(outcome: Result<Artifact, String>) -> String {
    match outcome {
        Ok(Artifact::Script(text)) => text,
        other => panic!("no script: {:?}", other),
    }
}

fn op(tag: u8, payload: u32) -> Vec<u8> {
    let mut bytes = vec![tag, 0, 0, 0];
    bytes.extend_from_slice(&payload.to_le_bytes());
    bytes
}

#[test]
fn minimal_entrypoint_image() {
    let bytes = image(driver::compile("vm", &minimal()));
    let mut expected = vec![0u8; 8];
    expected.extend(op(0, 0));
    expected.extend(op(4, 42));
    expected.extend(op(11, 0));
    assert_eq!(bytes, expected);
    assert_eq!(bytes.len() - 8, 24);
    assert_eq!(&bytes[..8], &0u64.to_le_bytes());
}

#[test]
fn minimal_entrypoint_script() {
    let text = script(driver::compile("node", &minimal()));
    assert!(text.contains("const main = 42;"));
    assert!(text.ends_with("main();"));
    assert_eq!(text, "const std = require(\"./std\");\n\nconst main = 42;\n\nmain();");
}

#[test]
fn standard_call_lowers_to_six_ops() {
    let ast = AST::try_from(&standard_call()).unwrap();
    let program = def::Program::from(ast);
    assert_eq!(program.definitions.len(), 1);
    assert_eq!(
        program.definitions[0].code,
        vec![
            def::Op::ARGC(0),
            def::Op::PUSH_FN("std.add".to_string()),
            def::Op::PUSH_I32(1),
            def::Op::PUSH_I32(2),
            def::Op::FEED(2),
            def::Op::RETURN,
        ]
    );
    let bytes = program.link().as_vec();
    assert_eq!(bytes.len() - 8, 6 * 8);
    let mut expected = vec![0u8; 8];
    expected.extend(op(0, 0));
    expected.extend(op(5, 2));
    expected.extend(op(4, 1));
    expected.extend(op(4, 2));
    expected.extend(op(9, 2));
    expected.extend(op(11, 0));
    assert_eq!(bytes, expected);
}

#[test]
fn standard_call_script() {
    let text = script(driver::compile("node", &standard_call()));
    assert_eq!(
        text,
        "const std = require(\"./std\");\n\nconst main = std.add (1) (2);\n\nmain();"
    );
}

#[test]
fn user_binding_validates_and_main_is_lowered() {
    let ast = AST::try_from(&user_binding()).unwrap();
    assert!(ast.is_valid());
    let declarations = ast.get_declarations();
    assert_eq!(declarations[0].id, "main");
    assert_eq!(declarations[1].id, "inc");
    let main = def::Definition::from(&ast, &declarations[0]);
    assert_eq!(
        main.code,
        vec![
            def::Op::ARGC(0),
            def::Op::PUSH_CMD("inc".to_string()),
            def::Op::PUSH_I32(41),
            def::Op::FEED(1),
            def::Op::RETURN,
        ]
    );
}

#[test]
fn user_binding_with_a_local_name_has_no_image() {
    let ast = AST::try_from(&user_binding()).unwrap();
    assert!(!ast.is_nameless());
    assert!(def::Program::try_from(ast).is_none());
    assert_eq!(
        driver::compile("vm", &user_binding()),
        Err("Internal compiler error: locally bound names have no lowering".to_string())
    );
}

#[test]
fn user_binding_script() {
    let text = script(driver::compile("node", &user_binding()));
    assert_eq!(
        text,
        "const std = require(\"./std\");\n\nconst main = inc (41);\n\nconst inc = x => std.add (x) (1);\n\nmain();"
    );
}

#[test]
fn user_binding_offsets() {
    // inc = x -> std.add 41 1, so that the whole program lowers
    let body = branch(
        Rule::Call,
        "std.add 41 1",
        vec![leaf(Rule::Id, "std.add"), leaf(Rule::Int, "41"), leaf(Rule::Int, "1")],
    );
    let func = branch(Rule::Func, "x -> std.add 41 1", vec![param("x"), body]);
    let call = branch(Rule::Call, "inc 41", vec![leaf(Rule::Id, "inc"), leaf(Rule::Int, "41")]);
    let nodes = vec![decl("inc", func), decl("main", call), eoi()];
    let ast = AST::try_from(&nodes).unwrap();
    let program = def::Program::from(ast);
    assert_eq!(program.get_id(&"main".to_string()), 0);
    let main_len = program.definitions[0].code.len();
    assert_eq!(main_len, 5);
    assert_eq!(program.get_id(&"inc".to_string()), 8 * main_len);
    assert_eq!(program.definitions[1].code[0], def::Op::ARGC(1));
    let bytes = program.link().as_vec();
    let mut expected = vec![0u8; 8];
    expected.extend(op(0, 0));
    expected.extend(op(6, 40));
    expected.extend(op(4, 41));
    expected.extend(op(9, 1));
    expected.extend(op(11, 0));
    expected.extend(op(0, 1));
    expected.extend(op(5, 2));
    expected.extend(op(4, 41));
    expected.extend(op(4, 1));
    expected.extend(op(9, 2));
    expected.extend(op(11, 0));
    assert_eq!(bytes, expected);
}

#[test]
fn nullary_forcing_feeds_unit() {
    let ast = AST::try_from(&nullary_forcing()).unwrap();
    let program = def::Program::from(ast);
    assert_eq!(
        program.definitions[0].code,
        vec![
            def::Op::ARGC(0),
            def::Op::PUSH_CMD("forty_two".to_string()),
            def::Op::PUSH_UNIT,
            def::Op::FEED(1),
            def::Op::RETURN,
        ]
    );
    let offset = program.get_id(&"forty_two".to_string());
    assert_eq!(offset, 40);
    let bytes = image(driver::compile("vm", &nullary_forcing()));
    let mut expected = vec![0u8; 8];
    expected.extend(op(0, 0));
    expected.extend(op(6, 40));
    expected.extend(op(1, 0));
    expected.extend(op(9, 1));
    expected.extend(op(11, 0));
    expected.extend(op(0, 0));
    expected.extend(op(4, 42));
    expected.extend(op(11, 0));
    assert_eq!(bytes, expected);
}

#[test]
fn reference_to_a_lambda_is_pushed_alone() {
    // id = x -> 1 ; main = id
    let func = branch(Rule::Func, "x -> 1", vec![param("x"), leaf(Rule::Int, "1")]);
    let nodes = vec![decl("id", func), decl("main", leaf(Rule::Id, "id")), eoi()];
    let ast = AST::try_from(&nodes).unwrap();
    let program = def::Program::from(ast);
    assert_eq!(
        program.definitions[0].code,
        vec![def::Op::ARGC(0), def::Op::PUSH_CMD("id".to_string()), def::Op::RETURN]
    );
    assert_eq!(
        program.definitions[1].code,
        vec![def::Op::ARGC(1), def::Op::PUSH_I32(1), def::Op::RETURN]
    );
}

#[test]
fn missing_entrypoint_is_a_semantic_error() {
    let nodes = vec![decl("foo", leaf(Rule::Int, "1")), eoi()];
    assert_eq!(
        driver::compile("vm", &nodes),
        Err("Semantic error:\nMissing entrypoint: main".to_string())
    );
    assert_eq!(AST::try_from(&nodes), Err("Missing entrypoint: main".to_string()));
    assert_eq!(
        driver::compile("node", &nodes),
        Err("Semantic error:\nMissing entrypoint: main".to_string())
    );
}

#[test]
fn unknown_reference_is_a_semantic_error() {
    let call = branch(
        Rule::Call,
        "std.ad 1 2",
        vec![leaf(Rule::Id, "std.ad"), leaf(Rule::Int, "1"), leaf(Rule::Int, "2")],
    );
    let nodes = vec![decl("main", call), eoi()];
    let error = driver::compile("vm", &nodes).unwrap_err();
    assert!(error.contains("Unknown references found: std.ad"));
    assert_eq!(error, "Semantic error:\nUnknown references found: std.ad");
}

#[test]
fn unknown_standard_name_is_listed() {
    let nodes = vec![decl("main", leaf(Rule::Id, "std.unknown")), eoi()];
    let error = AST::try_from(&nodes).unwrap_err();
    assert!(error.starts_with("Unknown references found:"));
    assert!(error.contains("std.unknown"));
}

#[test]
fn unknown_references_are_listed_once_in_order() {
    let call = branch(
        Rule::Call,
        "b a b std.add",
        vec![
            leaf(Rule::Id, "b"),
            leaf(Rule::Id, "a"),
            leaf(Rule::Id, "b"),
            leaf(Rule::Id, "std.add"),
        ],
    );
    let nodes = vec![decl("main", call), decl("other", leaf(Rule::Id, "c")), eoi()];
    assert_eq!(
        AST::try_from(&nodes),
        Err("Unknown references found: b, a, c".to_string())
    );
}

#[test]
fn missing_entrypoint_comes_before_unknown_references() {
    let nodes = vec![decl("foo", leaf(Rule::Id, "bar")), eoi()];
    assert_eq!(AST::try_from(&nodes), Err("Missing entrypoint: main".to_string()));
    let mut ast = AST::new();
    ast.insert(Declaration { id: "foo".to_string(), expr: Expr::ID("bar".to_string()) });
    assert_eq!(ast.check_undef_ids(), Err("Unknown references found: bar, main".to_string()));
    assert_eq!(ast.check_entrypoint_present(), Err("Missing entrypoint: main".to_string()));
    assert!(!ast.is_valid());
}

#[test]
fn unknown_arch_is_reported() {
    assert_eq!(driver::compile("wasm", &minimal()), Err("Unknown arch 'wasm'".to_string()));
}

#[test]
fn compilation_is_deterministic() {
    for arch in ["vm", "node"] {
        let first = driver::compile(arch, &nullary_forcing());
        let second = driver::compile(arch, &nullary_forcing());
        assert!(first.is_ok());
        assert_eq!(first, second);
    }
}

#[test]
fn validation_is_idempotent() {
    let ast = AST::try_from(&nullary_forcing()).unwrap();
    let again = ast.clone().valid().unwrap();
    assert_eq!(again, ast);
    assert_eq!(again.validate(), Ok(()));
    let once_more = again.valid().unwrap();
    assert_eq!(once_more, ast);
}

#[test]
fn nodes_after_the_end_marker_are_ignored() {
    let nodes = vec![
        decl("main", leaf(Rule::Int, "1")),
        eoi(),
        decl("ghost", leaf(Rule::Id, "nowhere")),
    ];
    let ast = AST::try_from(&nodes).unwrap();
    assert_eq!(ast.len(), 1);
}

#[test]
fn a_later_declaration_replaces_an_earlier_one_in_place() {
    let nodes = vec![
        decl("a", leaf(Rule::Int, "1")),
        decl("main", leaf(Rule::Id, "a")),
        decl("a", leaf(Rule::Int, "2")),
        eoi(),
    ];
    let ast = AST::try_from(&nodes).unwrap();
    assert_eq!(ast.len(), 2);
    assert_eq!(ast.get_declaration(&"a".to_string()).expr, Expr::Int(2));
    let ids: Vec<String> = ast.get_declarations().into_iter().map(|d| d.id).collect();
    assert_eq!(ids, vec!["main".to_string(), "a".to_string()]);
}

#[test]
fn the_entrypoint_comes_first_and_the_rest_keep_their_order() {
    let nodes = vec![
        decl("b", leaf(Rule::Int, "1")),
        decl("a", leaf(Rule::Int, "2")),
        decl("main", leaf(Rule::Int, "3")),
        decl("c", leaf(Rule::Int, "4")),
        eoi(),
    ];
    let ast = AST::try_from(&nodes).unwrap();
    let ids: Vec<String> = ast.get_declarations().into_iter().map(|d| d.id).collect();
    assert_eq!(ids, vec!["main", "b", "a", "c"]);
    let program = def::Program::from(ast);
    assert_eq!(program.get_id(&"main".to_string()), 0);
    assert_eq!(program.get_id(&"b".to_string()), 24);
    assert_eq!(program.get_id(&"a".to_string()), 48);
    assert_eq!(program.get_id(&"c".to_string()), 72);
    assert_eq!(program.get_id(&"std.prints".to_string()), 6);
}

#[test]
fn expressions_are_built_from_nodes() {
    let body = branch(
        Rule::Call,
        "f a -7",
        vec![leaf(Rule::Name, "f"), leaf(Rule::Id, "main.a"), leaf(Rule::Int, "-7")],
    );
    let func = branch(Rule::Func, "f -> g -> f a -7", vec![param("f"), param("g"), body]);
    assert_eq!(
        Expr::from(&func),
        Expr::Func(
            Box::new(vec!["f".to_string(), "g".to_string()]),
            Box::new(Expr::Call(
                Box::new(Expr::Name("f".to_string())),
                Box::new(vec![Expr::ID("main.a".to_string()), Expr::Int(-7)]),
            )),
        )
    );
    assert_eq!(Expr::integer(&leaf(Rule::Int, "-2147483648")), Expr::Int(i32::MIN));
    assert_eq!(Expr::name(&leaf(Rule::Name, "x")), Expr::Name("x".to_string()));
    assert_eq!(Expr::id(&leaf(Rule::Id, "std.id")), Expr::ID("std.id".to_string()));
    assert_eq!(Expr::param(&param("p")), "p");
    assert_eq!(Expr::string(&leaf(Rule::Uid, "main")), "main");
    let no_params = branch(Rule::Func, "7", vec![leaf(Rule::Int, "7")]);
    assert_eq!(Expr::from(&no_params), Expr::Func(Box::new(vec![]), Box::new(Expr::Int(7))));
}

#[test]
fn referenced_ids_are_collected_left_to_right() {
    let expr = Expr::Call(
        Box::new(Expr::ID("f".to_string())),
        Box::new(vec![
            Expr::Func(Box::new(vec!["x".to_string()]), Box::new(Expr::ID("g".to_string()))),
            Expr::Name("x".to_string()),
            Expr::Int(1),
            Expr::ID("f".to_string()),
        ]),
    );
    assert_eq!(expr.get_ids(), vec!["f", "g", "f"]);
    assert!(!expr.is_nameless());
    assert!(Expr::ID("f".to_string()).is_nameless());
}

#[test]
fn nested_lambdas_collapse_into_the_definition() {
    // main = std.id (y -> 5)
    let inner = branch(Rule::Func, "y -> 5", vec![param("y"), leaf(Rule::Int, "5")]);
    let call = branch(Rule::Call, "std.id (y -> 5)", vec![leaf(Rule::Id, "std.id"), inner]);
    let nodes = vec![decl("main", call), eoi()];
    let ast = AST::try_from(&nodes).unwrap();
    let program = def::Program::from(ast);
    assert_eq!(
        program.definitions[0].code,
        vec![
            def::Op::ARGC(0),
            def::Op::PUSH_FN("std.id".to_string()),
            def::Op::PUSH_I32(5),
            def::Op::FEED(1),
            def::Op::RETURN,
        ]
    );
    let linked = program.link();
    assert_eq!(linked.as_vec().len(), 8 + 5 * 8);
}

#[test]
fn every_definition_opens_with_argc_and_closes_with_return() {
    let nodes = vec![
        decl("k", branch(Rule::Func, "a -> b -> 1", vec![param("a"), param("b"), leaf(Rule::Int, "1")])),
        decl("main", leaf(Rule::Id, "k")),
        eoi(),
    ];
    let bytes = image(driver::compile("vm", &nodes));
    let code = &bytes[8..];
    assert_eq!(code.len() % 8, 0);
    // main: ARGC(0) PUSH_CMD RETURN; k: ARGC(2) PUSH_I32 RETURN
    assert_eq!(&code[0..8], &op(0, 0)[..]);
    assert_eq!(&code[8..16], &op(6, 24)[..]);
    assert_eq!(&code[16..24], &op(11, 0)[..]);
    assert_eq!(&code[24..32], &op(0, 2)[..]);
    assert_eq!(&code[40..48], &op(11, 0)[..]);
}

#[test]
fn script_parenthesises_a_lambda_in_head_position() {
    let head = Expr::Func(Box::new(vec!["x".to_string()]), Box::new(Expr::Name("x".to_string())));
    let call = Expr::Call(Box::new(head), Box::new(vec![Expr::Int(-3)]));
    assert_eq!(js::JS::from_expr(&call).render(), "(x => x) (-3)");
    let nullary = Expr::Call(Box::new(Expr::ID("std.id".to_string())), Box::new(vec![]));
    assert_eq!(js::JS::from_expr(&nullary).render(), "std.id ()");
    let curried = Expr::Func(
        Box::new(vec!["a".to_string(), "b".to_string()]),
        Box::new(Expr::Int(0)),
    );
    assert_eq!(js::JS::from_expr(&curried).render(), "a => b => 0");
}

#[test]
fn linked_program_has_no_data() {
    let ast = AST::try_from(&minimal()).unwrap();
    let linked: bytecode::Program = def::Program::from(ast).link();
    assert!(linked.encodable());
    assert_eq!(linked.data_vec(), vec![0u8; 8]);
    assert_eq!(linked.aligned_data_length(), 0);
}
