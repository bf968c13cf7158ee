use pure_lang::ast::{self, Declaration, Expr, AST};
use pure_lang::def;
use pure_lang::driver::{self, Artifact};
use pure_lang::js;
use pure_lang::parser::{Node, Rule};
use pure_lang::valid::Valid;

fn leaf(rule: Rule, text: &str) -> Node {
    Node { rule, text: text.to_string(), children: vec![] }
}

fn branch(rule: Rule, children: Vec<Node>) -> Node {
    Node { rule, text: String::new(), children }
}

fn decl(name: &str, body: Node) -> Node {
    branch(Rule::Decl, vec![leaf(Rule::Uid, name), body])
}

fn call(children: Vec<Node>) -> Node {
    branch(Rule::Call, children)
}

fn declaration(id: &str, expr: Expr) -> Declaration {
    Declaration { id: id.to_string(), expr }
}

fn id(name: &str) -> Expr {
    Expr::ID(name.to_string())
}

fn words(bytes: &[u8]) -> Vec<(u32, u32)> {
    bytes
        .chunks(8)
        .map(|op| {
            (
                u32::from_le_bytes([op[0], op[1], op[2], op[3]]),
                u32::from_le_bytes([op[4], op[5], op[6], op[7]]),
            )
        })
        .collect()
}

#[test]
fn operands_are_registry_indices_or_offsets_of_definitions() {
    // main = std.prints (std.add one (twice one)); one = 1; twice = x -> std.mul 2 2
    let nodes = vec![
        decl("one", leaf(Rule::Int, "1")),
        decl(
            "main",
            call(vec![
                leaf(Rule::Id, "std.prints"),
                call(vec![
                    leaf(Rule::Id, "std.add"),
                    leaf(Rule::Id, "one"),
                    call(vec![leaf(Rule::Id, "twice"), leaf(Rule::Id, "one")]),
                ]),
            ]),
        ),
        decl(
            "twice",
            branch(
                Rule::Func,
                vec![
                    branch(Rule::Param, vec![leaf(Rule::Name, "x")]),
                    call(vec![leaf(Rule::Id, "std.mul"), leaf(Rule::Int, "2"), leaf(Rule::Int, "2")]),
                ],
            ),
        ),
        leaf(Rule::Eoi, ""),
    ];
    let ast = AST::try_from(&nodes).unwrap();
    let program = def::Program::from(ast);
    let mut offsets = vec![];
    let mut offset = 0usize;
    for definition in program.definitions.iter() {
        assert_eq!(program.get_id(&definition.id), offset);
        offsets.push(offset as u32);
        offset += 8 * definition.code.len();
    }
    let bytes = program.link().as_vec();
    assert_eq!(bytes.len(), 8 + offset);
    let code = words(&bytes[8..]);
    let mut functions = 0;
    let mut commands = 0;
    for (tag, payload) in code.iter() {
        if *tag == 5 {
            functions += 1;
            assert!(*payload <= 6);
        }
        if *tag == 6 {
            commands += 1;
            assert!(offsets.contains(payload));
        }
    }
    assert_eq!(functions, 3);
    assert_eq!(commands, 3);
    for start in offsets.iter() {
        assert_eq!(code[(*start / 8) as usize].0, 0);
    }
    assert_eq!(code[(offsets[1] / 8 - 1) as usize], (11, 0));
    assert_eq!(code[(offsets[2] / 8 - 1) as usize], (11, 0));
    assert_eq!(code[code.len() - 1], (11, 0));
}

#[test]
fn a_declared_reserved_name_is_pushed_as_a_function_at_its_offset() {
    let mut ast = AST::new();
    ast.insert(declaration("std.foo", Expr::Int(1)));
    ast.insert(declaration("main", id("std.foo")));
    assert!(ast.is_valid());
    let program = def::Program::from(ast);
    assert_eq!(
        program.definitions[0].code,
        vec![def::Op::ARGC(0), def::Op::PUSH_FN("std.foo".to_string()), def::Op::RETURN]
    );
    let bytes = program.link().as_vec();
    assert_eq!(words(&bytes[8..])[1], (5, 24));
}

#[test]
fn a_declaration_may_shadow_the_registry() {
    let mut ast = AST::new();
    ast.insert(declaration("main", id("std.add")));
    ast.insert(declaration("std.add", Expr::Int(1)));
    let program = def::Program::from(ast);
    assert_eq!(program.get_id(&"std.add".to_string()), 24);
    assert_eq!(program.get_id(&"std.sub".to_string()), 3);
}

#[test]
fn reports_carry_their_heading() {
    assert_eq!(driver::syntax_error_message("1:1 expected decl"), "Syntax error:\n1:1 expected decl");
    assert_eq!(driver::semantic_error_message("Missing entrypoint: main"), "Semantic error:\nMissing entrypoint: main");
    let nodes = vec![decl("foo", leaf(Rule::Int, "1")), leaf(Rule::Eoi, "")];
    assert_eq!(
        driver::form_ast(&nodes),
        Err("Semantic error:\nMissing entrypoint: main".to_string())
    );
    let nodes = vec![decl("main", leaf(Rule::Int, "1")), leaf(Rule::Eoi, "")];
    let ast = driver::form_ast(&nodes).unwrap();
    assert_eq!(ast.len(), 1);
    assert_eq!(
        driver::generate_executable_code("x86", ast.clone()),
        Err("Unknown arch 'x86'".to_string())
    );
    assert_eq!(
        driver::generate_executable_code("", ast.clone()),
        Err("Unknown arch ''".to_string())
    );
    match driver::generate_executable_code("node", ast.clone()) {
        Ok(Artifact::Script(text)) => assert!(text.starts_with("const std = require(\"./std\");\n\n")),
        other => panic!("no script: {:?}", other),
    }
    match driver::generate_executable_code("vm", ast) {
        Ok(Artifact::Image(bytes)) => assert_eq!(bytes.len(), 8 + 3 * 8),
        other => panic!("no image: {:?}", other),
    }
}

#[test]
fn the_shape_of_a_parse_is_checked() {
    let good = vec![decl("main", leaf(Rule::Int, "1")), leaf(Rule::Eoi, "")];
    assert!(ast::is_tree_shaped(&good));
    assert!(ast::is_tree_shaped(&vec![]));
    assert!(ast::is_tree_shaped(&vec![leaf(Rule::Eoi, "")]));
    let no_body = vec![branch(Rule::Decl, vec![leaf(Rule::Uid, "main")]), leaf(Rule::Eoi, "")];
    assert!(!ast::is_tree_shaped(&no_body));
    let bad_literal = vec![decl("main", leaf(Rule::Int, "12x")), leaf(Rule::Eoi, "")];
    assert!(!ast::is_tree_shaped(&bad_literal));
    let too_large = vec![decl("main", leaf(Rule::Int, "2147483648")), leaf(Rule::Eoi, "")];
    assert!(!ast::is_tree_shaped(&too_large));
    let after_the_end = vec![leaf(Rule::Eoi, ""), decl("main", leaf(Rule::Int, "x"))];
    assert!(ast::is_tree_shaped(&after_the_end));
    let body_is_a_name = vec![decl("main", leaf(Rule::Uid, "x")), leaf(Rule::Eoi, "")];
    assert!(!ast::is_tree_shaped(&body_is_a_name));

    assert!(ast::is_well_formed(&leaf(Rule::Name, "x")));
    assert!(ast::is_well_formed(&leaf(Rule::Id, "a.b")));
    assert!(ast::is_well_formed(&leaf(Rule::Int, "-5")));
    assert!(!ast::is_well_formed(&leaf(Rule::Int, "")));
    assert!(!ast::is_well_formed(&leaf(Rule::Param, "x")));
    assert!(!ast::is_well_formed(&leaf(Rule::Eoi, "")));
    assert!(!ast::is_well_formed(&call(vec![])));
    assert!(ast::is_well_formed(&call(vec![leaf(Rule::Name, "f")])));
    assert!(!ast::is_well_formed(&call(vec![leaf(Rule::Name, "f"), leaf(Rule::Decl, "")])));
    assert!(!ast::is_well_formed(&branch(Rule::Func, vec![])));
    assert!(ast::is_well_formed(&branch(Rule::Func, vec![leaf(Rule::Int, "1")])));
    let param = || branch(Rule::Param, vec![leaf(Rule::Name, "x")]);
    assert!(ast::is_well_formed(&branch(Rule::Func, vec![param(), param(), leaf(Rule::Int, "1")])));
    assert!(!ast::is_well_formed(&branch(Rule::Func, vec![param(), param()])));
    assert!(!ast::is_well_formed(&branch(Rule::Func, vec![leaf(Rule::Int, "1"), leaf(Rule::Int, "1")])));
    assert!(!ast::is_well_formed(&branch(Rule::Func, vec![leaf(Rule::Param, "x"), leaf(Rule::Int, "1")])));
}

#[test]
fn trees_are_built_by_binding_declarations() {
    let mut ast = AST::default();
    assert_eq!(ast.len(), 0);
    assert_eq!(ast, AST::new());
    ast.insert(declaration("a", Expr::Int(1)));
    ast.insert(declaration("main", id("a")));
    ast.insert(declaration("a", id("std.id")));
    assert_eq!(ast.len(), 2);
    let mut known = ast.get_known_ids();
    known.sort();
    assert_eq!(
        known,
        vec!["a", "main", "std.add", "std.div", "std.id", "std.iff", "std.mul", "std.prints", "std.sub"]
    );
    assert_eq!(ast.get_ref_ids(), vec!["std.id", "a", "main"]);
    assert_eq!(ast.get_undef_ids(), Vec::<String>::new());
    assert_eq!(ast.check_undef_ids(), Ok(()));
    assert_eq!(ast.check_entrypoint_present(), Ok(()));
    assert_eq!(ast.validate(), Ok(()));
    assert_eq!(ast.get_declaration(&"a".to_string()), declaration("a", id("std.id")));
    assert_eq!(
        ast.get_declarations(),
        vec![declaration("main", id("a")), declaration("a", id("std.id"))]
    );
    assert!(ast.is_nameless());
    ast.insert(declaration("b", Expr::Name("x".to_string())));
    assert!(!ast.is_nameless());
    assert!(ast.is_valid());
}

#[test]
fn an_invalid_tree_is_not_handed_on() {
    let mut ast = AST::new();
    ast.insert(declaration("main", id("nowhere")));
    assert!(!ast.is_valid());
    assert_eq!(ast.validate(), Err("Unknown references found: nowhere".to_string()));
    assert_eq!(ast.valid(), Err("Unknown references found: nowhere".to_string()));
    assert_eq!(AST::new().valid(), Err("Missing entrypoint: main".to_string()));
}

#[test]
fn cyclic_references_pass_validation() {
    let mut ast = AST::new();
    ast.insert(declaration("main", id("main")));
    assert!(ast.is_valid());
}

#[test]
fn strings_are_found_and_copied() {
    let strings = vec!["a".to_string(), "b".to_string()];
    assert!(ast::contains_string(&strings, &"b".to_string()));
    assert!(!ast::contains_string(&strings, &"c".to_string()));
    assert!(!ast::contains_string(&vec![], &"a".to_string()));
    assert_eq!(ast::clone_strings(&strings), strings);
}

#[test]
fn declarations_are_written_as_constants() {
    let decls = vec![
        declaration("main", Expr::Call(Box::new(id("f")), Box::new(vec![Expr::Int(1)]))),
        declaration(
            "f",
            Expr::Func(Box::new(vec!["x".to_string(), "y".to_string()]), Box::new(Expr::Name("x".to_string()))),
        ),
    ];
    assert_eq!(js::JS::from_declaration(&decls[0]).render(), "const main = f (1);");
    assert_eq!(js::JS::from_declaration(&decls[1]).render(), "const f = x => y => x;");
    assert_eq!(
        js::JS::from_declarations(&decls).render(),
        "{ const main = f (1); const f = x => y => x; }"
    );
    let mut ast = AST::new();
    ast.insert(decls[1].clone());
    ast.insert(decls[0].clone());
    let program = js::Program::from(ast);
    assert_eq!(program.0.len(), 2);
    assert_eq!(
        program.into_string(),
        "const std = require(\"./std\");\n\nconst main = f (1);\n\nconst f = x => y => x;\n\nmain();"
    );
    assert_eq!(js::Program(vec![]).into_string(), "const std = require(\"./std\");\n\nmain();");
}

#[test]
fn definitions_open_with_the_arity_of_the_outermost_lambda() {
    let nested = Expr::Func(
        Box::new(vec!["a".to_string(), "b".to_string(), "c".to_string()]),
        Box::new(Expr::Func(Box::new(vec!["d".to_string()]), Box::new(Expr::Int(0)))),
    );
    assert_eq!(def::Definition::argc(&nested), vec![def::Op::ARGC(3)]);
    assert_eq!(def::Definition::argc(&Expr::Int(0)), vec![def::Op::ARGC(0)]);
    assert_eq!(
        def::Definition::argc(&Expr::Func(Box::new(vec![]), Box::new(Expr::Int(0)))),
        vec![def::Op::ARGC(0)]
    );
    let mut ast = AST::new();
    ast.insert(declaration("main", nested.clone()));
    assert_eq!(def::Definition::expand(&ast, &nested), vec![def::Op::PUSH_I32(0)]);
    let definition = def::Definition::from(&ast, &declaration("main", nested));
    assert_eq!(definition.id, "main");
    assert_eq!(
        definition.code,
        vec![def::Op::ARGC(3), def::Op::PUSH_I32(0), def::Op::RETURN]
    );
    assert_eq!(definition.clone(), definition);
    let definitions = def::Program::definitions(&ast);
    assert_eq!(def::Program::measure(&definitions), Some(24));
    assert_eq!(def::Program::measure(&vec![]), Some(0));
}

#[test]
fn unused_declarations_are_dropped() {
    let mut ast = AST::new();
    ast.insert(declaration("unused", Expr::Int(0)));
    ast.insert(declaration("a", id("b")));
    ast.insert(declaration("main", id("a")));
    ast.insert(declaration("b", Expr::Int(1)));
    ast.insert(declaration("also_unused", id("a")));
    let pruned = ast.without_unused_declarations();
    let ids: Vec<String> = pruned.get_declarations().into_iter().map(|d| d.id).collect();
    assert_eq!(ids, vec!["main", "a", "b"]);
    let mut lonely = AST::new();
    lonely.insert(declaration("x", Expr::Int(0)));
    assert_eq!(lonely.without_unused_declarations().len(), 0);
}
