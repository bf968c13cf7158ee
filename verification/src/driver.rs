//! The compiler as one function from a parse to an artifact: the tree is built
//! and checked, and the backend that the caller names turns it into a byte
//! image or into script text.

use crate::ast::{
    declared_by, entrypoint_first, nameless_program, report, tree_shaped, valid_program,
    DeclarationView, AST,
};
use crate::bytecode;
use crate::def;
use crate::js;
use crate::parser::{node_views, Node};
use vstd::prelude::*;

verus! {

/// What a compilation produces.
#[derive(Debug, PartialEq)]
pub enum Artifact {
    /// The byte image for the virtual machine.
    Image(Vec<u8>),
    /// The text of the script.
    Script(String),
}

/// The name of the backend that emits the byte image.
pub open spec fn vm_arch() -> Seq<char> {
    "vm"@
}

/// The name of the backend that emits script text.
pub open spec fn node_arch() -> Seq<char> {
    "node"@
}

/// The report of a parse failure: the parser's message under its heading.
pub open spec fn syntax_error(message: Seq<char>) -> Seq<char> {
    "Syntax error:\n"@ + message
}

/// The report of a tree that is not valid: the message under its heading.
pub open spec fn semantic_error(message: Seq<char>) -> Seq<char> {
    "Semantic error:\n"@ + message
}

/// The report of a backend that is not known.
pub open spec fn unknown_arch(arch: Seq<char>) -> Seq<char> {
    "Unknown arch '"@ + arch + "'"@
}

/// The report of a program that mentions locally bound names, which have no
/// lowering to bytecode.
pub open spec fn names_error() -> Seq<char> {
    "Internal compiler error: locally bound names have no lowering"@
}

/// The report of a program whose code cannot be addressed or held.
pub open spec fn size_error() -> Seq<char> {
    "Internal compiler error: the code segment is too large"@
}

/// Whether the code of the program can be addressed by 32-bit operands and its
/// image held in memory.
pub open spec fn encodable(declarations: Seq<DeclarationView>) -> bool {
    &&& def::addressable(def::definitions_of(declarations))
    &&& 8 + def::code_size(def::definitions_of(declarations)) <= usize::MAX
}

/// What the named backend makes of a valid tree.
pub open spec fn generated(arch: Seq<char>, declarations: Seq<DeclarationView>) -> Result<
    ArtifactView,
    Seq<char>,
> {
    if arch == vm_arch() {
        if !nameless_program(declarations) {
            Err(names_error())
        } else if !encodable(declarations) {
            Err(size_error())
        } else {
            Ok(
                ArtifactView::Image(
                    bytecode::image(Seq::empty(), def::program_of(declarations).linked()),
                ),
            )
        }
    } else if arch == node_arch() {
        Ok(ArtifactView::Script(js::script(js::statements_of(declarations))))
    } else {
        Err(unknown_arch(arch))
    }
}

/// What the named backend makes of a parse: the report of the tree if it is not
/// valid, and what the backend makes of the tree otherwise.
pub open spec fn compiled(arch: Seq<char>, declarations: Seq<DeclarationView>) -> Result<
    ArtifactView,
    Seq<char>,
> {
    if valid_program(declarations) {
        generated(arch, declarations)
    } else {
        Err(semantic_error(report(declarations)))
    }
}

/// An artifact as a mathematical value.
pub enum ArtifactView {
    Image(Seq<u8>),
    Script(Seq<char>),
}

impl View for Artifact {
    type V = ArtifactView;

    open spec fn view(&self) -> ArtifactView {
        match self {
            Artifact::Image(bytes) => ArtifactView::Image(bytes@),
            Artifact::Script(text) => ArtifactView::Script(text@),
        }
    }
}

/// The view of an outcome: that of the artifact, or that of the report.
pub open spec fn outcome_view(outcome: Result<Artifact, String>) -> Result<
    ArtifactView,
    Seq<char>,
> {
    match outcome {
        Ok(artifact) => Ok(artifact@),
        Err(message) => Err(message@),
    }
}

/// The report of a parse failure.
pub fn syntax_error_message(message: &str) -> (report: String)
    ensures
        report@ == syntax_error(message@),
{
    let mut report = String::from_str("Syntax error:\n");
    report.append(message);
    report
}

/// The report of a tree that is not valid.
pub fn semantic_error_message(message: &str) -> (report: String)
    ensures
        report@ == semantic_error(message@),
{
    let mut report = String::from_str("Semantic error:\n");
    report.append(message);
    report
}

/// Builds the tree of a parse and checks it; a tree that is not valid is reported
/// under the heading of semantic errors.
pub fn form_ast(pairs: &Vec<Node>) -> (outcome: Result<AST, String>)
    requires
        tree_shaped(node_views(pairs@)),
    ensures
        outcome is Ok <==> valid_program(declared_by(node_views(pairs@))),
        outcome matches Ok(ast) ==> ast@ == declared_by(node_views(pairs@)) && ast.wf(),
        outcome matches Err(message) ==> message@ == semantic_error(
            report(declared_by(node_views(pairs@))),
        ),
{
    match AST::try_from(pairs) {
        Ok(ast) => Ok(ast),
        Err(message) => Err(semantic_error_message(message.as_str())),
    }
}

/// Hands a valid tree to the backend that `arch` names: `vm` lowers, links and
/// encodes it, `node` renders it as a script, and any other name is reported.
pub fn generate_executable_code(arch: &str, ast: AST) -> (outcome: Result<Artifact, String>)
    requires
        ast.wf(),
        valid_program(ast@),
    ensures
        outcome_view(outcome) == generated(arch@, ast@),
{
    let ghost declarations = ast@;
    let name = String::from_str(arch);
    if name == String::from_str("vm") {
        if !ast.is_nameless() {
            return Err(String::from_str("Internal compiler error: locally bound names have no lowering"));
        }
        match def::Program::try_from(ast) {
            None => Err(String::from_str("Internal compiler error: the code segment is too large")),
            Some(program) => {
                let image = program.link();
                proof {
                    def::lemma_flattened_len(
                        def::definitions_of(declarations),
                        def::definitions_of(declarations).len(),
                    );
                }
                if !image.encodable() {
                    return Err(
                        String::from_str("Internal compiler error: the code segment is too large"),
                    );
                }
                Ok(Artifact::Image(image.as_vec()))
            },
        }
    } else if name == String::from_str("node") {
        proof {
            js::lemma_statements_renderable(ast@);
        }
        let program = js::Program::from(ast);
        Ok(Artifact::Script(program.into_string()))
    } else {
        let mut message = String::from_str("Unknown arch '");
        message.append(arch);
        message.append("'");
        Err(message)
    }
}

/// Compiles a parse for the backend that `arch` names.
pub fn compile(arch: &str, pairs: &Vec<Node>) -> (outcome: Result<Artifact, String>)
    requires
        tree_shaped(node_views(pairs@)),
    ensures
        outcome_view(outcome) == compiled(arch@, declared_by(node_views(pairs@))),
{
    match form_ast(pairs) {
        Ok(ast) => generate_executable_code(arch, ast),
        Err(message) => Err(message),
    }
}

/// Compilation is a function of its input: two parses that hold the same nodes
/// compile, for the same backend, to the same artifact or to the same report,
/// whatever run produced either outcome.
pub proof fn lemma_compile_is_deterministic(
    arch: Seq<char>,
    first: Vec<Node>,
    second: Vec<Node>,
    one: Result<Artifact, String>,
    other: Result<Artifact, String>,
)
    requires
        node_views(first@) == node_views(second@),
        outcome_view(one) == compiled(arch, declared_by(node_views(first@))),
        outcome_view(other) == compiled(arch, declared_by(node_views(second@))),
    ensures
        outcome_view(one) == outcome_view(other),
{
}

/// The image of a program that the `vm` backend accepts: the data segment is a
/// header of zero and no payload; the code segment is eight bytes for each
/// instruction, a multiple of eight; and in it each definition begins, at its
/// offset, with `ARGC` of its arity under the tag of `NOP`, and ends, before the
/// next offset, with `RETURN`.
pub proof fn lemma_image_layout(declarations: Seq<DeclarationView>, d: int)
    requires
        0 <= d < def::definitions_of(declarations).len(),
    ensures
        ({
            let definitions = def::definitions_of(declarations);
            let bytes = bytecode::image(Seq::empty(), def::program_of(declarations).linked());
            let start = 8 + def::offset(definitions, d as nat) as int;
            let end = 8 + def::offset(definitions, (d + 1) as nat) as int;
            &&& bytes.len() == 8 + def::code_size(definitions)
            &&& (bytes.len() - 8) % 8 == 0
            &&& bytes.subrange(0, 8) == bytecode::le_bytes_u64(0)
            &&& start + 8 <= end <= bytes.len()
            &&& bytes.subrange(start, start + 8) == bytecode::Op::ARGC(
                def::arity(entrypoint_first(declarations)[d].expr),
            ).bytes()
            &&& bytes.subrange(end - 8, end) == bytecode::Op::RETURN.bytes()
        }),
{
    let definitions = def::definitions_of(declarations);
    let code = def::program_of(declarations).linked();
    let data = bytecode::data_segment(Seq::empty());
    let segment = bytecode::code_segment(code);
    let bytes = bytecode::image(Seq::empty(), code);
    let first = def::offset(definitions, d as nat) as int / 8;
    let last = def::offset(definitions, (d + 1) as nat) as int / 8 - 1;
    def::lemma_definition_frame(declarations, d);
    def::lemma_flattened_len(definitions, definitions.len());
    def::lemma_offset_grows(definitions, (d + 1) as nat, definitions.len());
    bytecode::lemma_data_segment_len(Seq::empty());
    bytecode::lemma_code_segment_len(code);
    bytecode::lemma_code_segment_at(code, first);
    bytecode::lemma_code_segment_at(code, last);
    assert(data.len() == 8);
    assert(bytes.subrange(0, 8) =~= data.subrange(0, 8));
    assert(bytes.subrange(8 + 8 * first, 8 + 8 * first + 8) =~= segment.subrange(
        8 * first,
        8 * first + 8,
    ));
    assert(bytes.subrange(8 + 8 * last, 8 + 8 * last + 8) =~= segment.subrange(
        8 * last,
        8 * last + 8,
    ));
}

} // verus!
