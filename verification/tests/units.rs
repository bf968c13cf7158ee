use pure_lang::ast::Expr;
use pure_lang::bytecode::{Op, Opcode, Program};
use pure_lang::js::{self, JS};
use pure_lang::parser::{is_not_eoi, is_param, Node, Rule};
use pure_lang::stdlib::{self, StdLib};
use pure_lang::table::Table;
use pure_lang::text;

#[test]
fn empty_data_segment_is_a_zero_header() {
    let program = Program::new(vec![]);
    assert_eq!(program.as_vec(), vec![0u8; 8]);
    assert_eq!(program.data_vec(), 0u64.to_le_bytes().to_vec());
}

#[test]
fn data_is_padded_to_a_multiple_of_eight() {
    let program = Program::from(vec![1, 2, 3], vec![Op::RETURN]);
    assert_eq!(program.aligned_data_length(), 8);
    assert_eq!(
        program.as_vec(),
        vec![8, 0, 0, 0, 0, 0, 0, 0, 1, 2, 3, 0, 0, 0, 0, 0, 11, 0, 0, 0, 0, 0, 0, 0]
    );
    let exact = Program::from(vec![9; 16], vec![]);
    assert_eq!(exact.aligned_data_length(), 16);
    assert_eq!(exact.data_vec().len(), 24);
    let nine = Program::from(vec![7; 9], vec![]);
    assert_eq!(nine.aligned_data_length(), 16);
    let bytes = nine.data_vec();
    assert_eq!(&bytes[..8], &16u64.to_le_bytes());
    assert_eq!(&bytes[8..17], &[7u8; 9]);
    assert_eq!(&bytes[17..], &[0u8; 7]);
}

#[test]
fn each_op_is_a_tag_and_a_payload() {
    assert_eq!(Op::NOP.as_vec(), vec![0, 0, 0, 0, 0, 0, 0, 0]);
    assert_eq!(Op::ARGC(3).as_vec(), vec![0, 0, 0, 0, 3, 0, 0, 0]);
    assert_eq!(Op::PUSH_UNIT.as_vec(), vec![1, 0, 0, 0, 0, 0, 0, 0]);
    assert_eq!(Op::PUSH_BOOL(true).as_vec(), vec![2, 0, 0, 0, 1, 0, 0, 0]);
    assert_eq!(Op::PUSH_BOOL(false).as_vec(), vec![2, 0, 0, 0, 0, 0, 0, 0]);
    assert_eq!(Op::PUSH_U8(255).as_vec(), vec![3, 0, 0, 0, 255, 0, 0, 0]);
    assert_eq!(Op::PUSH_I32(42).as_vec(), vec![4, 0, 0, 0, 42, 0, 0, 0]);
    assert_eq!(Op::PUSH_I32(-1).as_vec(), vec![4, 0, 0, 0, 255, 255, 255, 255]);
    assert_eq!(Op::PUSH_I32(-2).as_vec(), vec![4, 0, 0, 0, 254, 255, 255, 255]);
    assert_eq!(Op::PUSH_I32(i32::MIN).as_vec(), vec![4, 0, 0, 0, 0, 0, 0, 128]);
    assert_eq!(Op::PUSH_I32(i32::MAX).as_vec(), vec![4, 0, 0, 0, 255, 255, 255, 127]);
    assert_eq!(Op::PUSH_FN(6).as_vec(), vec![5, 0, 0, 0, 6, 0, 0, 0]);
    assert_eq!(Op::PUSH_CMD(0x01020304).as_vec(), vec![6, 0, 0, 0, 4, 3, 2, 1]);
    assert_eq!(Op::PUSH_ARG(1).as_vec(), vec![7, 0, 0, 0, 1, 0, 0, 0]);
    assert_eq!(Op::DROP(256).as_vec(), vec![8, 0, 0, 0, 0, 1, 0, 0]);
    assert_eq!(Op::FEED(u32::MAX).as_vec(), vec![9, 0, 0, 0, 255, 255, 255, 255]);
    assert_eq!(Op::BRANCH.as_vec(), vec![10, 0, 0, 0, 0, 0, 0, 0]);
    assert_eq!(Op::RETURN.as_vec(), vec![11, 0, 0, 0, 0, 0, 0, 0]);
}

#[test]
fn opcode_tags_count_up_from_zero() {
    assert_eq!(Opcode::NOP.as_vec(), vec![0, 0, 0, 0]);
    assert_eq!(Opcode::PUSH_UNIT.as_vec(), vec![1, 0, 0, 0]);
    assert_eq!(Opcode::PUSH_BOOL.as_vec(), vec![2, 0, 0, 0]);
    assert_eq!(Opcode::PUSH_U8.as_vec(), vec![3, 0, 0, 0]);
    assert_eq!(Opcode::PUSH_I32.as_vec(), vec![4, 0, 0, 0]);
    assert_eq!(Opcode::PUSH_FN.as_vec(), vec![5, 0, 0, 0]);
    assert_eq!(Opcode::PUSH_CMD.as_vec(), vec![6, 0, 0, 0]);
    assert_eq!(Opcode::PUSH_ARG.as_vec(), vec![7, 0, 0, 0]);
    assert_eq!(Opcode::DROP.as_vec(), vec![8, 0, 0, 0]);
    assert_eq!(Opcode::FEED.as_vec(), vec![9, 0, 0, 0]);
    assert_eq!(Opcode::BRANCH.as_vec(), vec![10, 0, 0, 0]);
    assert_eq!(Opcode::RETURN.as_vec(), vec![11, 0, 0, 0]);
    assert_eq!(Op::just(Opcode::BRANCH), vec![10, 0, 0, 0, 0, 0, 0, 0]);
    assert_eq!(Op::join(Opcode::DROP, &[1, 2, 3, 4]), vec![8, 0, 0, 0, 1, 2, 3, 4]);
}

#[test]
fn code_segment_is_eight_bytes_per_op() {
    let code = vec![Op::ARGC(0), Op::PUSH_I32(1), Op::PUSH_I32(2), Op::FEED(1), Op::RETURN];
    let program = Program::from(vec![1], code);
    let bytes = program.as_vec();
    assert_eq!(bytes.len(), 8 + 8 + 5 * 8);
    assert_eq!((bytes.len() - 16) % 8, 0);
}

#[test]
fn integers_are_written_in_decimal() {
    assert_eq!(text::integer_to_string(0), "0");
    assert_eq!(text::integer_to_string(7), "7");
    assert_eq!(text::integer_to_string(-42), "-42");
    assert_eq!(text::integer_to_string(1200), "1200");
    assert_eq!(text::integer_to_string(i32::MAX), "2147483647");
    assert_eq!(text::integer_to_string(i32::MIN), "-2147483648");
    assert_eq!(text::natural_to_string(u64::MAX), "18446744073709551615");
    assert_eq!(text::natural_to_string(10), "10");
}

#[test]
fn numerals_are_read_as_signed_32_bit() {
    assert_eq!(text::parse_i32("0"), Some(0));
    assert_eq!(text::parse_i32("42"), Some(42));
    assert_eq!(text::parse_i32("-42"), Some(-42));
    assert_eq!(text::parse_i32("+42"), Some(42));
    assert_eq!(text::parse_i32("007"), Some(7));
    assert_eq!(text::parse_i32("-0"), Some(0));
    assert_eq!(text::parse_i32("2147483647"), Some(i32::MAX));
    assert_eq!(text::parse_i32("-2147483648"), Some(i32::MIN));
    assert_eq!(text::parse_i32("2147483648"), None);
    assert_eq!(text::parse_i32("-2147483649"), None);
    assert_eq!(text::parse_i32("99999999999999999999999"), None);
    assert_eq!(text::parse_i32("0000000000000000000000012"), Some(12));
    assert_eq!(text::parse_i32(""), None);
    assert_eq!(text::parse_i32("-"), None);
    assert_eq!(text::parse_i32("+"), None);
    assert_eq!(text::parse_i32("1a"), None);
    assert_eq!(text::parse_i32("a1"), None);
    assert_eq!(text::parse_i32(" 1"), None);
    assert_eq!(text::parse_i32("--1"), None);
    assert_eq!(text::parse_i32("1-"), None);
    for n in [-100000, -11, -1, 0, 5, 10, 99, 123456789] {
        assert_eq!(text::parse_i32(&text::integer_to_string(n)), Some(n));
        assert_eq!(text::parse_i32(&n.to_string()), Some(n));
        assert_eq!(text::integer_to_string(n), n.to_string());
    }
}

#[test]
fn prefixes_and_joins() {
    assert!(text::starts_with("std.add", "std."));
    assert!(text::starts_with("std.", "std."));
    assert!(!text::starts_with("std", "std."));
    assert!(!text::starts_with("main.std.x", "std."));
    assert!(text::starts_with("anything", ""));
    assert!(!text::starts_with("stdx", "std."));
    assert!(text::starts_with("é.x", "é."));
    let parts = vec!["a".to_string(), "bc".to_string(), "".to_string(), "d".to_string()];
    assert_eq!(text::join(&parts, ", "), "a, bc, , d");
    assert_eq!(text::join(&vec![], ", "), "");
    assert_eq!(text::join(&vec!["x".to_string()], ", "), "x");
    assert_eq!(text::join(&parts, ""), "abcd");
}

#[test]
fn the_registry_holds_seven_names() {
    let index = stdlib::index();
    let expected = [
        ("std.id", 0usize),
        ("std.iff", 1),
        ("std.add", 2),
        ("std.sub", 3),
        ("std.mul", 4),
        ("std.div", 5),
        ("std.prints", 6),
    ];
    for (name, slot) in expected {
        assert_eq!(index.get(&name.to_string()), Some(slot));
        assert!(index.contains_key(&name.to_string()));
    }
    assert_eq!(index.get(&"std.unknown".to_string()), None);
    assert_eq!(index.get(&"main".to_string()), None);
    assert_eq!(StdLib::ID.position(), 0);
    assert_eq!(StdLib::Iff.position(), 1);
    assert_eq!(StdLib::Add_I32.position(), 2);
    assert_eq!(StdLib::Sub_I32.position(), 3);
    assert_eq!(StdLib::Mul_I32.position(), 4);
    assert_eq!(StdLib::Div_I32.position(), 5);
    assert_eq!(StdLib::Prints.position(), 6);
}

#[test]
fn a_later_entry_of_a_table_replaces_an_earlier_one() {
    let mut table = Table::new();
    assert_eq!(table.get(&"a".to_string()), None);
    table.insert("a".to_string(), 1);
    table.insert("b".to_string(), 2);
    assert_eq!(table.get(&"a".to_string()), Some(1));
    table.insert("a".to_string(), 3);
    assert_eq!(table.get(&"a".to_string()), Some(3));
    assert_eq!(table.get(&"b".to_string()), Some(2));
    assert!(!table.contains_key(&"c".to_string()));
    assert_eq!(table.keys(), vec!["a", "b", "a"]);
    assert_eq!(Table::new().keys(), Vec::<String>::new());
}

#[test]
fn nodes_are_told_apart_by_their_rule() {
    let end = Node { rule: Rule::Eoi, text: String::new(), children: vec![] };
    let p = Node { rule: Rule::Param, text: "x".to_string(), children: vec![] };
    assert!(!is_not_eoi(&end));
    assert!(is_not_eoi(&p));
    assert!(is_param(&p));
    assert!(!is_param(&end));
}

#[test]
fn every_piece_of_syntax_has_its_text() {
    let x = || JS::name("x");
    assert_eq!(JS::Int(-42).render(), "-42");
    assert_eq!(JS::str("hello").render(), "\"hello\"");
    assert_eq!(x().constt("y").render(), "const y = x;");
    assert_eq!(x().this("y").render(), "this.y = x;");
    assert_eq!(x().exports().render(), "module.exports = x;");
    assert_eq!(x().returning().render(), "return x");
    assert_eq!(JS::new("Thing", vec![x()]).render(), "new Thing ()");
    assert_eq!(x().call(vec![JS::Int(1), JS::Int(2)]).render(), "x (1) (2)");
    assert_eq!(x().call(vec![]).render(), "x ()");
    assert_eq!(js::require("./std").render(), "require (\"./std\")");
    assert_eq!(JS::Func(vec![], Box::new(x())).render(), " => x");
    assert_eq!(
        JS::Func(vec!["a".to_string(), "b".to_string()], Box::new(x())).render(),
        "a => b => x"
    );
    assert_eq!(JS::Proc(vec![]).render(), "{  }");
    assert_eq!(
        JS::Proc(vec![x().constt("a"), x().returning()]).render(),
        "{ const a = x; return x }"
    );
    assert_eq!(
        JS::Proc(vec![x().returning()]).function("f", vec!["a", "b"]).render(),
        "function f(a, b) { return x }"
    );
    assert_eq!(
        JS::Object(vec![("x".to_string(), JS::Int(1)), ("y".to_string(), JS::str("hello"))])
            .render(),
        "{x: 1,y: \"hello\"}"
    );
    assert_eq!(JS::Func(vec!["a".to_string()], Box::new(x())).bracketed_func(), "(a => x)");
    assert_eq!(x().bracketed_func(), "x");
}

#[test]
fn a_lambda_loses_its_first_parameter() {
    let body = || Expr::Int(1);
    assert_eq!(js::reduce_func(vec!["a".to_string()], body()), body());
    assert_eq!(
        js::reduce_func(vec!["a".to_string(), "b".to_string(), "c".to_string()], body()),
        Expr::Func(Box::new(vec!["b".to_string(), "c".to_string()]), Box::new(body()))
    );
}
