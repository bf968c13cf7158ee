//! The linear form between the tree and the byte image: each declaration
//! lowered to a run of stack-machine instructions whose references are still
//! names, the layout that gives each definition its offset, and the pass that
//! puts the numbers in.

#![allow(non_camel_case_types)]

use crate::ast::{
    declaration_named, declaration_views, declares, distinct_ids, entrypoint, entrypoint_first,
    index_of, known, lemma_entrypoint_first, lemma_index_of, lemma_valid_program, nameless,
    nameless_program, resolves, valid_program, Declaration, DeclarationView, Expr, ExprView, AST,
};
use crate::bytecode;
use crate::stdlib;
use crate::table::Table;
use crate::text;
use vstd::prelude::*;

verus! {

/// An instruction whose references are names.
#[derive(Debug, PartialEq)]
pub enum Op {
    /// Do nothing.
    NOP,
    /// The number of arguments that the enclosing definition takes.
    ARGC(u32),
    /// Push unit.
    PUSH_UNIT,
    /// Push a boolean.
    PUSH_BOOL(bool),
    /// Push a byte.
    PUSH_U8(u8),
    /// Push a signed 32-bit integer.
    PUSH_I32(i32),
    /// Push the standard-library function of that name.
    PUSH_FN(String),
    /// Push the user definition of that name.
    PUSH_CMD(String),
    /// Push an argument of the enclosing definition, by its position.
    PUSH_ARG(u32),
    /// Pop that many values.
    DROP(u32),
    /// Apply the function beneath the topmost values to that many of them.
    FEED(u32),
    /// Select one of two arms by a condition on the stack.
    BRANCH,
    /// Leave the current routine.
    RETURN,
}

/// An instruction with symbolic references, as a mathematical value.
pub enum OpView {
    NOP,
    ARGC(u32),
    PUSH_UNIT,
    PUSH_BOOL(bool),
    PUSH_U8(u8),
    PUSH_I32(i32),
    PUSH_FN(Seq<char>),
    PUSH_CMD(Seq<char>),
    PUSH_ARG(u32),
    DROP(u32),
    FEED(u32),
    BRANCH,
    RETURN,
}

impl View for Op {
    type V = OpView;

    open spec fn view(&self) -> OpView {
        match self {
            Op::NOP => OpView::NOP,
            Op::ARGC(n) => OpView::ARGC(*n),
            Op::PUSH_UNIT => OpView::PUSH_UNIT,
            Op::PUSH_BOOL(b) => OpView::PUSH_BOOL(*b),
            Op::PUSH_U8(u) => OpView::PUSH_U8(*u),
            Op::PUSH_I32(i) => OpView::PUSH_I32(*i),
            Op::PUSH_FN(name) => OpView::PUSH_FN(name@),
            Op::PUSH_CMD(name) => OpView::PUSH_CMD(name@),
            Op::PUSH_ARG(k) => OpView::PUSH_ARG(*k),
            Op::DROP(n) => OpView::DROP(*n),
            Op::FEED(n) => OpView::FEED(*n),
            Op::BRANCH => OpView::BRANCH,
            Op::RETURN => OpView::RETURN,
        }
    }
}

impl Clone for Op {
    fn clone(&self) -> (copy: Self)
        ensures
            copy@ == self@,
    {
        match self {
            Op::NOP => Op::NOP,
            Op::ARGC(n) => Op::ARGC(*n),
            Op::PUSH_UNIT => Op::PUSH_UNIT,
            Op::PUSH_BOOL(b) => Op::PUSH_BOOL(*b),
            Op::PUSH_U8(u) => Op::PUSH_U8(*u),
            Op::PUSH_I32(i) => Op::PUSH_I32(*i),
            Op::PUSH_FN(name) => Op::PUSH_FN(name.clone()),
            Op::PUSH_CMD(name) => Op::PUSH_CMD(name.clone()),
            Op::PUSH_ARG(k) => Op::PUSH_ARG(*k),
            Op::DROP(n) => Op::DROP(*n),
            Op::FEED(n) => Op::FEED(*n),
            Op::BRANCH => Op::BRANCH,
            Op::RETURN => Op::RETURN,
        }
    }
}

/// The views of a run of instructions.
pub open spec fn op_views(ops: Seq<Op>) -> Seq<OpView> {
    Seq::new(ops.len(), |i: int| ops[i]@)
}

/// Whether the name is reserved for the standard library.
pub open spec fn reserved(id: Seq<char>) -> bool {
    "std."@.is_prefix_of(id)
}

/// The arity that a definition declares: the number of parameters of its
/// outermost lambda, as far as 32 bits hold it, and zero for any other body.
pub open spec fn arity(expr: ExprView) -> u32 {
    match expr {
        ExprView::Func(params, _) => params.len() as u32,
        _ => 0,
    }
}

/// The instructions that push the value of a reference: a reserved name is a
/// function of the standard library; the name of a lambda is pushed as it is;
/// the name of anything else is pushed and forced by feeding it unit.
pub open spec fn lowered_id(declarations: Seq<DeclarationView>, id: Seq<char>) -> Seq<OpView> {
    if reserved(id) {
        seq![OpView::PUSH_FN(id)]
    } else if declaration_named(declarations, id).expr is Func {
        seq![OpView::PUSH_CMD(id)]
    } else {
        seq![OpView::PUSH_CMD(id), OpView::PUSH_UNIT, OpView::FEED(1)]
    }
}

/// The instructions that an expression lowers to. A literal is pushed; a call
/// pushes its head, then its arguments from left to right, and feeds them in
/// one step; a lambda lowers to its body. A locally bound name has no lowering.
pub open spec fn lowered(declarations: Seq<DeclarationView>, expr: ExprView) -> Seq<OpView>
    decreases expr,
{
    match expr {
        ExprView::Int(i) => seq![OpView::PUSH_I32(i)],
        ExprView::Name(_) => Seq::empty(),
        ExprView::ID(id) => lowered_id(declarations, id),
        ExprView::Call(f, args) => lowered(declarations, *f) + lowered_list(
            declarations,
            args,
            args.len(),
        ) + seq![OpView::FEED(args.len() as u32)],
        ExprView::Func(_, body) => lowered(declarations, *body),
    }
}

/// The instructions that the first `n` of the expressions lower to, one run
/// after the other.
pub open spec fn lowered_list(
    declarations: Seq<DeclarationView>,
    exprs: Seq<ExprView>,
    n: nat,
) -> Seq<OpView>
    decreases exprs, n,
{
    if n == 0 || n > exprs.len() {
        Seq::empty()
    } else {
        lowered_list(declarations, exprs, (n - 1) as nat) + lowered(declarations, exprs[n - 1])
    }
}

/// A definition: a name and the instructions of its body.
#[derive(Debug, PartialEq)]
pub struct Definition {
    pub id: String,
    pub code: Vec<Op>,
}

/// A definition as a mathematical value.
pub struct DefinitionView {
    pub id: Seq<char>,
    pub code: Seq<OpView>,
}

impl View for Definition {
    type V = DefinitionView;

    open spec fn view(&self) -> DefinitionView {
        DefinitionView { id: self.id@, code: op_views(self.code@) }
    }
}

/// The views of a run of definitions.
pub open spec fn definition_views(definitions: Seq<Definition>) -> Seq<DefinitionView> {
    Seq::new(definitions.len(), |i: int| definitions[i]@)
}

/// The definition that a declaration lowers to: the arity, the lowered body,
/// and the return.
pub open spec fn definition_of(
    declarations: Seq<DeclarationView>,
    declaration: DeclarationView,
) -> DefinitionView {
    DefinitionView {
        id: declaration.id,
        code: seq![OpView::ARGC(arity(declaration.expr))] + lowered(
            declarations,
            declaration.expr,
        ) + seq![OpView::RETURN],
    }
}

/// The definitions of a program: one for each declaration, the entrypoint
/// first.
pub open spec fn definitions_of(declarations: Seq<DeclarationView>) -> Seq<DefinitionView> {
    Seq::new(
        entrypoint_first(declarations).len(),
        |i: int| definition_of(declarations, entrypoint_first(declarations)[i]),
    )
}

impl Clone for Definition {
    fn clone(&self) -> (copy: Self)
        ensures
            copy@ == self@,
    {
        let mut code: Vec<Op> = Vec::new();
        let mut i: usize = 0;
        while i < self.code.len()
            invariant
                i <= self.code.len(),
                code@.len() == i,
                forall|k: int| 0 <= k < i ==> code@[k]@ == self.code@[k]@,
            decreases self.code.len() - i,
        {
            code.push(self.code[i].clone());
            i += 1;
        }
        let copy = Definition { id: self.id.clone(), code };
        assert(copy@.code =~= self@.code);
        copy
    }
}

impl Definition {
    /// Lowers a declaration of the program to its definition.
    pub fn from(ast: &AST, declaration: &Declaration) -> (definition: Self)
        requires
            resolves(ast@, declaration@.expr),
            nameless(declaration@.expr),
        ensures
            definition@ == definition_of(ast@, declaration@),
    {
        let expr = &declaration.expr;
        let mut code = Self::argc(expr);
        let mut body = Self::expand(ast, expr);
        let mut end: Vec<Op> = Vec::new();
        end.push(Op::RETURN);
        let ghost head = code@;
        let ghost middle = body@;
        code.append(&mut body);
        code.append(&mut end);
        let definition = Definition { id: declaration.id.clone(), code };
        proof {
            assert(op_views(definition.code@) =~= op_views(head) + op_views(middle) + seq![
                OpView::RETURN,
            ]);
        }
        definition
    }

    /// The instruction that opens a definition: the arity of its body.
    pub fn argc(expr: &Expr) -> (code: Vec<Op>)
        ensures
            op_views(code@) == seq![OpView::ARGC(arity(expr@))],
    {
        let count: u32 = match expr {
            Expr::Func(params, _) => {
                assert(expr@->Func_0.len() == params@.len());
                #[verifier::truncate]
                (params.len() as u32)
            },
            _ => 0,
        };
        let mut code: Vec<Op> = Vec::new();
        code.push(Op::ARGC(count));
        assert(op_views(code@) =~= seq![OpView::ARGC(arity(expr@))]);
        code
    }

    /// Lowers an expression of the program.
    #[verifier::loop_isolation(false)]
    pub fn expand(ast: &AST, expr: &Expr) -> (code: Vec<Op>)
        requires
            resolves(ast@, expr@),
            nameless(expr@),
        ensures
            op_views(code@) == lowered(ast@, expr@),
        decreases expr,
    {
        match expr {
            Expr::Int(i) => {
                let mut code: Vec<Op> = Vec::new();
                code.push(Op::PUSH_I32(*i));
                assert(op_views(code@) =~= lowered(ast@, expr@));
                code
            },
            // the precondition leaves local names out
            Expr::Name(_) => Vec::new(),
            Expr::ID(id) => {
                let mut code: Vec<Op> = Vec::new();
                if text::starts_with(id.as_str(), "std.") {
                    code.push(Op::PUSH_FN(id.clone()));
                } else {
                    proof {
                        if stdlib::registry().contains_key(id@) {
                            stdlib::lemma_registry_names(id@);
                        }
                    }
                    match ast.get_declaration(id).expr {
                        Expr::Func(_, _) => {
                            code.push(Op::PUSH_CMD(id.clone()));
                        },
                        _ => {
                            code.push(Op::PUSH_CMD(id.clone()));
                            code.push(Op::PUSH_UNIT);
                            code.push(Op::FEED(1));
                        },
                    }
                }
                assert(op_views(code@) =~= lowered(ast@, expr@));
                code
            },
            Expr::Call(f, args) => {
                let ghost arguments = expr@->Call_1;
                let mut code = Self::expand(ast, &**f);
                let mut i: usize = 0;
                while i < args.len()
                    invariant
                        i <= args.len(),
                        op_views(code@) == lowered(ast@, (**f)@) + lowered_list(
                            ast@,
                            arguments,
                            i as nat,
                        ),
                    decreases args.len() - i,
                {
                    let ghost before = code@;
                    assert(arguments[i as int] == args@[i as int]@);
                    let mut more = Self::expand(ast, &args[i]);
                    let ghost added = more@;
                    code.append(&mut more);
                    proof {
                        assert(op_views(code@) =~= op_views(before) + op_views(added));
                    }
                    i += 1;
                }
                let ghost before = code@;
                code.push(
                    Op::FEED(
                        #[verifier::truncate]
                        (args.len() as u32),
                    ),
                );
                proof {
                    assert(op_views(code@) =~= op_views(before) + seq![
                        OpView::FEED(arguments.len() as u32),
                    ]);
                }
                code
            },
            Expr::Func(_, body) => Self::expand(ast, &**body),
        }
    }
}

/// The offset in the code segment of the definition at `n`: eight bytes for each
/// instruction of the definitions before it.
pub open spec fn offset(definitions: Seq<DefinitionView>, n: nat) -> nat
    decreases n,
{
    if n == 0 || n > definitions.len() {
        0
    } else {
        offset(definitions, (n - 1) as nat) + 8 * definitions[n - 1].code.len()
    }
}

/// The length of the code segment in bytes.
pub open spec fn code_size(definitions: Seq<DefinitionView>) -> nat {
    offset(definitions, definitions.len())
}

/// Whether every offset of the code segment fits the 32-bit operand of an
/// instruction.
pub open spec fn addressable(definitions: Seq<DefinitionView>) -> bool {
    code_size(definitions) <= u32::MAX
}

/// The index extended with the first `n` definitions, each bound to its offset;
/// a later binding of a name replaces an earlier one.
pub open spec fn laid_out(
    index: Map<Seq<char>, usize>,
    definitions: Seq<DefinitionView>,
    n: nat,
) -> Map<Seq<char>, usize>
    decreases n,
{
    if n == 0 || n > definitions.len() {
        index
    } else {
        laid_out(index, definitions, (n - 1) as nat).insert(
            definitions[n - 1].id,
            offset(definitions, (n - 1) as nat) as usize,
        )
    }
}

/// The symbol index of a program: the registry of the standard library, extended
/// with every definition at its offset.
pub open spec fn layout(definitions: Seq<DefinitionView>) -> Map<Seq<char>, usize> {
    laid_out(stdlib::registry(), definitions, definitions.len())
}

/// The instructions of the first `n` definitions, one run after the other.
pub open spec fn flattened(definitions: Seq<DefinitionView>, n: nat) -> Seq<OpView>
    decreases n,
{
    if n == 0 || n > definitions.len() {
        Seq::empty()
    } else {
        flattened(definitions, (n - 1) as nat) + definitions[n - 1].code
    }
}

/// Whether the index has a number for the reference of the instruction, if it
/// has one, and the number fits the 32-bit operand.
pub open spec fn bound(index: Map<Seq<char>, usize>, op: OpView) -> bool {
    match op {
        OpView::PUSH_FN(name) => index.contains_key(name) && index[name] <= u32::MAX,
        OpView::PUSH_CMD(name) => index.contains_key(name) && index[name] <= u32::MAX,
        _ => true,
    }
}

/// The instruction with the number of its reference in place of the name.
pub open spec fn resolved(index: Map<Seq<char>, usize>, op: OpView) -> bytecode::Op {
    match op {
        OpView::NOP => bytecode::Op::NOP,
        OpView::ARGC(n) => bytecode::Op::ARGC(n),
        OpView::PUSH_UNIT => bytecode::Op::PUSH_UNIT,
        OpView::PUSH_BOOL(b) => bytecode::Op::PUSH_BOOL(b),
        OpView::PUSH_U8(u) => bytecode::Op::PUSH_U8(u),
        OpView::PUSH_I32(i) => bytecode::Op::PUSH_I32(i),
        OpView::PUSH_FN(name) => bytecode::Op::PUSH_FN(index[name] as u32),
        OpView::PUSH_CMD(name) => bytecode::Op::PUSH_CMD(index[name] as u32),
        OpView::PUSH_ARG(k) => bytecode::Op::PUSH_ARG(k),
        OpView::DROP(n) => bytecode::Op::DROP(n),
        OpView::FEED(n) => bytecode::Op::FEED(n),
        OpView::BRANCH => bytecode::Op::BRANCH,
        OpView::RETURN => bytecode::Op::RETURN,
    }
}

/// The instructions with the numbers of their references in place of the names.
pub open spec fn resolved_all(index: Map<Seq<char>, usize>, ops: Seq<OpView>) -> Seq<
    bytecode::Op,
> {
    Seq::new(ops.len(), |i: int| resolved(index, ops[i]))
}

/// A lowered program: its definitions in the order of emission, and the symbol
/// index that numbers its references.
#[derive(Debug)]
pub struct Program {
    pub definitions: Vec<Definition>,
    pub index: Table,
}

/// A lowered program as a mathematical value.
pub struct ProgramView {
    pub definitions: Seq<DefinitionView>,
    pub index: Map<Seq<char>, usize>,
}

impl View for Program {
    type V = ProgramView;

    open spec fn view(&self) -> ProgramView {
        ProgramView { definitions: definition_views(self.definitions@), index: self.index@ }
    }
}

impl ProgramView {
    /// Whether the index numbers every reference of the program within 32 bits.
    pub open spec fn linkable(self) -> bool {
        forall|d: int, k: int|
            0 <= d < self.definitions.len() && 0 <= k < self.definitions[d].code.len() ==> bound(
                self.index,
                #[trigger] self.definitions[d].code[k],
            )
    }

    /// The instructions of the linked program: those of all definitions in
    /// order, with numbers in place of names.
    pub open spec fn linked(self) -> Seq<bytecode::Op> {
        resolved_all(self.index, flattened(self.definitions, self.definitions.len()))
    }
}

/// The program that a tree lowers to: its definitions, and their layout as the
/// index.
pub open spec fn program_of(declarations: Seq<DeclarationView>) -> ProgramView {
    ProgramView {
        definitions: definitions_of(declarations),
        index: layout(definitions_of(declarations)),
    }
}

/// Offsets grow with the position.
pub proof fn lemma_offset_grows(definitions: Seq<DefinitionView>, i: nat, n: nat)
    requires
        i <= n <= definitions.len(),
    ensures
        offset(definitions, i) <= offset(definitions, n),
    decreases n,
{
    if i < n {
        lemma_offset_grows(definitions, i, (n - 1) as nat);
    }
}

/// The code before a definition is one instruction for each eight bytes of its
/// offset.
pub proof fn lemma_flattened_len(definitions: Seq<DefinitionView>, n: nat)
    requires
        n <= definitions.len(),
    ensures
        8 * flattened(definitions, n).len() == offset(definitions, n),
    decreases n,
{
    if n > 0 {
        lemma_flattened_len(definitions, (n - 1) as nat);
    }
}

/// The instructions of a definition stand in the flattened code from the
/// definition's offset on.
pub proof fn lemma_flattened_at(definitions: Seq<DefinitionView>, n: nat, d: int, k: int)
    requires
        n <= definitions.len(),
        0 <= d < n,
        0 <= k < definitions[d].code.len(),
    ensures
        flattened(definitions, d as nat).len() + k < flattened(definitions, n).len(),
        flattened(definitions, n)[flattened(definitions, d as nat).len() + k]
            == definitions[d].code[k],
    decreases n,
{
    if d < n - 1 {
        lemma_flattened_at(definitions, (n - 1) as nat, d, k);
    }
}

/// Every instruction of the flattened code belongs to one of the definitions.
pub proof fn lemma_flattened_from(definitions: Seq<DefinitionView>, n: nat, i: int) -> (at: (
    int,
    int,
))
    requires
        n <= definitions.len(),
        0 <= i < flattened(definitions, n).len(),
    ensures
        0 <= at.0 < n,
        0 <= at.1 < definitions[at.0].code.len(),
        flattened(definitions, n)[i] == definitions[at.0].code[at.1],
    decreases n,
{
    let before = flattened(definitions, (n - 1) as nat);
    if i < before.len() {
        lemma_flattened_from(definitions, (n - 1) as nat, i)
    } else {
        (n - 1, i - before.len())
    }
}

/// What the layout binds: every name that the index had stays bound; each of
/// the first `n` definitions is bound; and where the definitions bear distinct
/// names, each is bound to its own offset, and the names of the index that no
/// definition bears keep their numbers.
pub proof fn lemma_laid_out(index: Map<Seq<char>, usize>, definitions: Seq<DefinitionView>, n: nat)
    requires
        n <= definitions.len(),
    ensures
        forall|name: Seq<char>|
            index.contains_key(name) ==> #[trigger] laid_out(index, definitions, n).contains_key(
                name,
            ),
        forall|name: Seq<char>| #[trigger]
            laid_out(index, definitions, n).contains_key(name) ==> index.contains_key(name) || (
            exists|d: int| 0 <= d < n && definitions[d].id == name),
        forall|name: Seq<char>|
            (forall|d: int| 0 <= d < n ==> definitions[d].id != name) ==> #[trigger] laid_out(
                index,
                definitions,
                n,
            )[name] == index[name],
        forall|d: int|
            0 <= d < n ==> #[trigger] laid_out(index, definitions, n).contains_key(
                definitions[d].id,
            ),
        (forall|i: int, j: int|
            0 <= i < j < definitions.len() ==> definitions[i].id != definitions[j].id) ==> forall|
            d: int,
        |
            0 <= d < n ==> laid_out(index, definitions, n)[#[trigger] definitions[d].id] == offset(
                definitions,
                d as nat,
            ) as usize,
    decreases n,
{
    if n > 0 {
        lemma_laid_out(index, definitions, (n - 1) as nat);
        let earlier = laid_out(index, definitions, (n - 1) as nat);
        let now = laid_out(index, definitions, n);
        assert forall|name: Seq<char>| #[trigger] now.contains_key(name) implies index.contains_key(
            name,
        ) || (exists|d: int| 0 <= d < n && definitions[d].id == name) by {
            if name == definitions[n - 1].id {
                assert(definitions[n - 1].id == name);
            } else {
                assert(earlier.contains_key(name));
                if !index.contains_key(name) {
                    let d = choose|d: int| 0 <= d < n - 1 && definitions[d].id == name;
                    assert(definitions[d].id == name);
                }
            }
        }
        assert forall|d: int| 0 <= d < n implies #[trigger] now.contains_key(
            definitions[d].id,
        ) by {
            if d < n - 1 {
                assert(earlier.contains_key(definitions[d].id));
            }
        }
    }
}

/// Distinct declarations give definitions under distinct names: the names of
/// the definitions are those of the declarations in the order of emission.
pub proof fn lemma_definition_ids(declarations: Seq<DeclarationView>)
    requires
        distinct_ids(declarations),
        declares(declarations, entrypoint()),
    ensures
        definitions_of(declarations).len() == entrypoint_first(declarations).len(),
        definitions_of(declarations).len() >= 1,
        definitions_of(declarations)[0].id == entrypoint(),
        forall|i: int, j: int|
            0 <= i < j < definitions_of(declarations).len() ==> definitions_of(declarations)[i].id
                != definitions_of(declarations)[j].id,
        forall|id: Seq<char>|
            declares(declarations, id) ==> exists|d: int|
                0 <= d < definitions_of(declarations).len() && #[trigger] definitions_of(
                    declarations,
                )[d].id == id,
        forall|d: int|
            0 <= d < definitions_of(declarations).len() ==> declares(
                declarations,
                #[trigger] definitions_of(declarations)[d].id,
            ),
{
    let first = entrypoint_first(declarations);
    let definitions = definitions_of(declarations);
    lemma_entrypoint_first(declarations);
    assert forall|i: int, j: int| 0 <= i < j < definitions.len() implies definitions[i].id
        != definitions[j].id by {
        assert(first[i].id != first[j].id);
    }
    assert forall|id: Seq<char>| declares(declarations, id) implies exists|d: int|
        0 <= d < definitions.len() && #[trigger] definitions[d].id == id by {
        lemma_index_of(declarations, id);
        let j = index_of(declarations, id);
        assert(first.contains(declarations[j]));
        let d = choose|d: int| 0 <= d < first.len() && first[d] == declarations[j];
        assert(definitions[d].id == id);
    }
    assert forall|d: int| 0 <= d < definitions.len() implies declares(
        declarations,
        #[trigger] definitions[d].id,
    ) by {
        assert(declarations.contains(first[d]));
        let j = choose|j: int| 0 <= j < declarations.len() && declarations[j] == first[d];
        lemma_declares(declarations, j);
    }
}

/// A name that stands at some place is declared.
pub proof fn lemma_declares(declarations: Seq<DeclarationView>, j: int)
    requires
        0 <= j < declarations.len(),
    ensures
        declares(declarations, declarations[j].id),
{
    lemma_index_of(declarations, declarations[j].id);
    if !declares(declarations, declarations[j].id) {
        assert(declarations[j].id != declarations[j].id);
    }
}

/// Whether the reference of the instruction, if it has one, is of the right
/// kind: a function is a reserved name that is known, a command is the name of
/// a declaration and not reserved.
pub open spec fn well_referenced(declarations: Seq<DeclarationView>, op: OpView) -> bool {
    match op {
        OpView::PUSH_FN(name) => reserved(name) && known(declarations, name),
        OpView::PUSH_CMD(name) => !reserved(name) && declares(declarations, name),
        _ => true,
    }
}

/// Whether every instruction is well referenced.
pub open spec fn all_well_referenced(declarations: Seq<DeclarationView>, ops: Seq<OpView>) -> bool {
    forall|k: int| 0 <= k < ops.len() ==> well_referenced(declarations, #[trigger] ops[k])
}

/// Two runs of well-referenced instructions make one.
pub proof fn lemma_well_referenced_concat(
    declarations: Seq<DeclarationView>,
    left: Seq<OpView>,
    right: Seq<OpView>,
)
    requires
        all_well_referenced(declarations, left),
        all_well_referenced(declarations, right),
    ensures
        all_well_referenced(declarations, left + right),
{
    let both = left + right;
    assert forall|k: int| 0 <= k < both.len() implies well_referenced(
        declarations,
        #[trigger] both[k],
    ) by {
        if k < left.len() {
            assert(both[k] == left[k]);
        } else {
            assert(both[k] == right[k - left.len()]);
        }
    }
}

/// What an expression that resolves lowers to is well referenced.
pub proof fn lemma_lowered_well_referenced(declarations: Seq<DeclarationView>, expr: ExprView)
    requires
        resolves(declarations, expr),
    ensures
        all_well_referenced(declarations, lowered(declarations, expr)),
    decreases expr, 0nat,
{
    match expr {
        ExprView::ID(id) => {
            if !reserved(id) && stdlib::registry().contains_key(id) {
                stdlib::lemma_registry_names(id);
            }
        },
        ExprView::Call(f, args) => {
            lemma_lowered_well_referenced(declarations, *f);
            lemma_lowered_list_well_referenced(declarations, args, args.len());
            lemma_well_referenced_concat(
                declarations,
                lowered(declarations, *f),
                lowered_list(declarations, args, args.len()),
            );
            lemma_well_referenced_concat(
                declarations,
                lowered(declarations, *f) + lowered_list(declarations, args, args.len()),
                seq![OpView::FEED(args.len() as u32)],
            );
        },
        ExprView::Func(_, body) => {
            lemma_lowered_well_referenced(declarations, *body);
        },
        _ => {},
    }
}

/// What expressions that resolve lower to is well referenced.
pub proof fn lemma_lowered_list_well_referenced(
    declarations: Seq<DeclarationView>,
    exprs: Seq<ExprView>,
    n: nat,
)
    requires
        n <= exprs.len(),
        forall|i: int| 0 <= i < exprs.len() ==> resolves(declarations, #[trigger] exprs[i]),
    ensures
        all_well_referenced(declarations, lowered_list(declarations, exprs, n)),
    decreases exprs, n,
{
    if n > 0 {
        lemma_lowered_list_well_referenced(declarations, exprs, (n - 1) as nat);
        lemma_lowered_well_referenced(declarations, exprs[n - 1]);
        lemma_well_referenced_concat(
            declarations,
            lowered_list(declarations, exprs, (n - 1) as nat),
            lowered(declarations, exprs[n - 1]),
        );
    }
}

/// Every instruction of a valid program is well referenced.
pub proof fn lemma_program_well_referenced(declarations: Seq<DeclarationView>)
    requires
        distinct_ids(declarations),
        valid_program(declarations),
    ensures
        forall|d: int|
            0 <= d < definitions_of(declarations).len() ==> all_well_referenced(
                declarations,
                (#[trigger] definitions_of(declarations)[d]).code,
            ),
{
    lemma_valid_program(declarations);
    lemma_entrypoint_first(declarations);
    let first = entrypoint_first(declarations);
    assert forall|d: int| 0 <= d < definitions_of(declarations).len() implies all_well_referenced(
        declarations,
        (#[trigger] definitions_of(declarations)[d]).code,
    ) by {
        assert(declarations.contains(first[d]));
        let j = choose|j: int| 0 <= j < declarations.len() && declarations[j] == first[d];
        assert(resolves(declarations, declarations[j].expr));
        lemma_lowered_well_referenced(declarations, first[d].expr);
        lemma_well_referenced_concat(
            declarations,
            seq![OpView::ARGC(arity(first[d].expr))],
            lowered(declarations, first[d].expr),
        );
        lemma_well_referenced_concat(
            declarations,
            seq![OpView::ARGC(arity(first[d].expr))] + lowered(declarations, first[d].expr),
            seq![OpView::RETURN],
        );
    }
}

/// The layout of a valid program whose code is addressable numbers every
/// reference within 32 bits.
pub proof fn lemma_program_linkable(declarations: Seq<DeclarationView>)
    requires
        distinct_ids(declarations),
        valid_program(declarations),
        addressable(definitions_of(declarations)),
    ensures
        program_of(declarations).linkable(),
{
    let definitions = definitions_of(declarations);
    let index = layout(definitions);
    lemma_program_well_referenced(declarations);
    lemma_definition_ids(declarations);
    lemma_laid_out(stdlib::registry(), definitions, definitions.len());
    assert forall|d: int, k: int|
        0 <= d < definitions.len() && 0 <= k < definitions[d].code.len() implies bound(
        index,
        #[trigger] definitions[d].code[k],
    ) by {
        let op = definitions[d].code[k];
        assert(all_well_referenced(declarations, definitions[d].code));
        assert(well_referenced(declarations, op));
        match op {
            OpView::PUSH_FN(name) => {
                lemma_symbol_bound(declarations, name);
            },
            OpView::PUSH_CMD(name) => {
                lemma_symbol_bound(declarations, name);
            },
            _ => {},
        }
    }
}

/// The layout of a valid, addressable program binds every known name: a declared
/// one to the offset of its definition, any other to its index in the registry.
pub proof fn lemma_symbol_bound(declarations: Seq<DeclarationView>, name: Seq<char>)
    requires
        distinct_ids(declarations),
        valid_program(declarations),
        addressable(definitions_of(declarations)),
        known(declarations, name),
    ensures
        layout(definitions_of(declarations)).contains_key(name),
        layout(definitions_of(declarations))[name] <= u32::MAX,
        declares(declarations, name) ==> exists|d: int|
            0 <= d < definitions_of(declarations).len() && #[trigger] definitions_of(
                declarations,
            )[d].id == name && layout(definitions_of(declarations))[name] == offset(
                definitions_of(declarations),
                d as nat,
            ),
        !declares(declarations, name) ==> layout(definitions_of(declarations))[name]
            == stdlib::registry()[name],
{
    let definitions = definitions_of(declarations);
    lemma_definition_ids(declarations);
    lemma_laid_out(stdlib::registry(), definitions, definitions.len());
    if declares(declarations, name) {
        let d = choose|d: int| 0 <= d < definitions.len() && #[trigger] definitions[d].id == name;
        lemma_offset_grows(definitions, d as nat, definitions.len());
        assert(layout(definitions)[definitions[d].id] == offset(definitions, d as nat) as usize);
    } else {
        stdlib::lemma_registry_names(name);
        assert forall|d: int| 0 <= d < definitions.len() implies definitions[d].id != name by {
            assert(declares(declarations, definitions[d].id));
        }
    }
}

impl Program {
    /// The definitions of a tree, the entrypoint first.
    pub fn definitions(ast: &AST) -> (definitions: Vec<Definition>)
        requires
            ast.wf(),
            valid_program(ast@),
            nameless_program(ast@),
        ensures
            definition_views(definitions@) == definitions_of(ast@),
    {
        let declarations = ast.get_declarations();
        let ghost first = entrypoint_first(ast@);
        proof {
            lemma_valid_program(ast@);
            lemma_entrypoint_first(ast@);
        }
        let mut definitions: Vec<Definition> = Vec::new();
        let mut i: usize = 0;
        while i < declarations.len()
            invariant
                i <= declarations.len(),
                first == entrypoint_first(ast@),
                declaration_views(declarations@) == first,
                forall|k: int| 0 <= k < first.len() ==> ast@.contains(#[trigger] first[k]),
                forall|j: int| 0 <= j < ast@.len() ==> resolves(ast@, (#[trigger] ast@[j]).expr),
                nameless_program(ast@),
                definitions@.len() == i,
                forall|k: int|
                    0 <= k < i ==> (#[trigger] definitions@[k])@ == definition_of(ast@, first[k]),
            decreases declarations.len() - i,
        {
            proof {
                assert(declarations@[i as int]@ == first[i as int]);
                assert(ast@.contains(first[i as int]));
                let j = choose|j: int| 0 <= j < ast@.len() && ast@[j] == first[i as int];
                assert(resolves(ast@, ast@[j].expr));
                assert(nameless(ast@[j].expr));
            }
            definitions.push(Definition::from(ast, &declarations[i]));
            i += 1;
        }
        assert(definition_views(definitions@) =~= definitions_of(ast@));
        definitions
    }

    /// The length of the code segment in bytes, if it is addressable.
    pub fn measure(definitions: &Vec<Definition>) -> (size: Option<usize>)
        ensures
            size is Some <==> addressable(definition_views(definitions@)),
            size matches Some(bytes) ==> bytes == code_size(definition_views(definitions@)),
    {
        let ghost views = definition_views(definitions@);
        let mut total: usize = 0;
        let mut i: usize = 0;
        while i < definitions.len()
            invariant
                i <= definitions.len(),
                views == definition_views(definitions@),
                total == offset(views, i as nat),
                total <= u32::MAX,
            decreases definitions.len() - i,
        {
            let length = definitions[i].code.len();
            assert(views[i as int].code.len() == length);
            proof {
                lemma_offset_grows(views, (i + 1) as nat, views.len());
            }
            if length > 0x1fff_ffff {
                return None;
            }
            let bytes = length * 8;
            if bytes > 0xffff_ffff - total {
                return None;
            }
            total = total + bytes;
            i += 1;
        }
        Some(total)
    }

    /// Lays the definitions out: each is bound in the index to its offset, in
    /// order.
    pub fn indexed(self) -> (program: Self)
        requires
            addressable(self@.definitions),
        ensures
            program@.definitions == self@.definitions,
            program@.index == laid_out(self@.index, self@.definitions, self@.definitions.len()),
    {
        let ghost start = self@;
        let mut program = self;
        let mut offset_now: usize = 0;
        let mut i: usize = 0;
        while i < program.definitions.len()
            invariant
                i <= program.definitions.len(),
                program@.definitions == start.definitions,
                addressable(start.definitions),
                offset_now == offset(start.definitions, i as nat),
                program@.index == laid_out(start.index, start.definitions, i as nat),
            decreases program.definitions.len() - i,
        {
            proof {
                lemma_offset_grows(
                    start.definitions,
                    (i + 1) as nat,
                    start.definitions.len(),
                );
                assert(start.definitions[i as int].code.len()
                    == program.definitions@[i as int].code@.len());
                assert(start.definitions[i as int].id == program.definitions@[i as int].id@);
            }
            let id = program.definitions[i].id.clone();
            let length = program.definitions[i].code.len();
            program.index.insert(id, offset_now);
            offset_now = offset_now + length * 8;
            i += 1;
        }
        program
    }

    /// Lowers a valid tree and lays it out.
    pub fn from(ast: AST) -> (program: Self)
        requires
            ast.wf(),
            valid_program(ast@),
            nameless_program(ast@),
            addressable(definitions_of(ast@)),
        ensures
            program@ == program_of(ast@),
            program@.linkable(),
    {
        let definitions = Self::definitions(&ast);
        proof {
            lemma_program_linkable(ast@);
        }
        let program = Program { definitions, index: stdlib::index() }.indexed();
        assert(program@.definitions == definitions_of(ast@));
        assert(program@.index == layout(definitions_of(ast@)));
        program
    }

    /// Lowers a valid tree and lays it out, where that can be done: where no
    /// body mentions a locally bound name and the code is addressable.
    pub fn try_from(ast: AST) -> (program: Option<Self>)
        requires
            ast.wf(),
            valid_program(ast@),
        ensures
            program is Some <==> nameless_program(ast@) && addressable(definitions_of(ast@)),
            program matches Some(lowered) ==> lowered@ == program_of(ast@) && lowered@.linkable(),
    {
        if !ast.is_nameless() {
            return None;
        }
        let definitions = Self::definitions(&ast);
        if Self::measure(&definitions).is_none() {
            return None;
        }
        proof {
            lemma_program_linkable(ast@);
        }
        let program = Program { definitions, index: stdlib::index() }.indexed();
        assert(program@.definitions == definitions_of(ast@));
        assert(program@.index == layout(definitions_of(ast@)));
        Some(program)
    }

    /// The number that the index binds `id` to.
    pub fn get_id(&self, id: &String) -> (number: usize)
        requires
            self@.index.contains_key(id@),
        ensures
            number == self@.index[id@],
    {
        self.index.get(id).unwrap()
    }

    /// The linked program: every instruction in order, each reference replaced by
    /// the number that the index binds it to, and no data.
    pub fn link(&self) -> (image: bytecode::Program)
        requires
            self@.linkable(),
        ensures
            image.data() == Seq::<u8>::empty(),
            image.code() == self@.linked(),
    {
        let ghost definitions = self@.definitions;
        let mut code: Vec<bytecode::Op> = Vec::new();
        let mut d: usize = 0;
        assert(code@ =~= resolved_all(self@.index, flattened(definitions, 0)));
        while d < self.definitions.len()
            invariant
                d <= self.definitions.len(),
                definitions == self@.definitions,
                self@.linkable(),
                code@ == resolved_all(self@.index, flattened(definitions, d as nat)),
            decreases self.definitions.len() - d,
        {
            let ops = &self.definitions[d].code;
            let ghost before = code@;
            let ghost these = definitions[d as int].code;
            assert(these == op_views(ops@));
            let mut k: usize = 0;
            while k < ops.len()
                invariant
                    k <= ops.len(),
                    d < self.definitions.len(),
                    definitions == self@.definitions,
                    self@.linkable(),
                    these == definitions[d as int].code,
                    these == op_views(ops@),
                    code@ == before + resolved_all(self@.index, these.take(k as int)),
                decreases ops.len() - k,
            {
                assert(bound(self@.index, self@.definitions[d as int].code[k as int]));
                assert(these[k as int] == ops@[k as int]@);
                let op = self.resolve(&ops[k]);
                code.push(op);
                proof {
                    assert(these.take(k + 1) =~= these.take(k as int).push(these[k as int]));
                    assert(resolved_all(self@.index, these.take(k + 1)) =~= resolved_all(
                        self@.index,
                        these.take(k as int),
                    ).push(resolved(self@.index, these[k as int])));
                }
                k += 1;
            }
            proof {
                assert(these.take(k as int) =~= these);
                assert(flattened(definitions, (d + 1) as nat) == flattened(definitions, d as nat)
                    + these);
                assert(code@ =~= resolved_all(
                    self@.index,
                    flattened(definitions, (d + 1) as nat),
                ));
            }
            d += 1;
        }
        bytecode::Program::new(code)
    }

    /// The instruction with the number of its reference in place of the name.
    pub fn resolve(&self, op: &Op) -> (numeric: bytecode::Op)
        requires
            bound(self@.index, op@),
        ensures
            numeric == resolved(self@.index, op@),
    {
        match op {
            Op::NOP => bytecode::Op::NOP,
            Op::ARGC(n) => bytecode::Op::ARGC(*n),
            Op::PUSH_UNIT => bytecode::Op::PUSH_UNIT,
            Op::PUSH_BOOL(b) => bytecode::Op::PUSH_BOOL(*b),
            Op::PUSH_U8(u) => bytecode::Op::PUSH_U8(*u),
            Op::PUSH_I32(i) => bytecode::Op::PUSH_I32(*i),
            Op::PUSH_FN(name) => bytecode::Op::PUSH_FN(self.get_id(name) as u32),
            Op::PUSH_CMD(name) => bytecode::Op::PUSH_CMD(self.get_id(name) as u32),
            Op::PUSH_ARG(k) => bytecode::Op::PUSH_ARG(*k),
            Op::DROP(n) => bytecode::Op::DROP(*n),
            Op::FEED(n) => bytecode::Op::FEED(*n),
            Op::BRANCH => bytecode::Op::BRANCH,
            Op::RETURN => bytecode::Op::RETURN,
        }
    }
}

/// The entrypoint is the first definition, and the layout binds it to offset 0.
pub proof fn lemma_entrypoint_at_zero(declarations: Seq<DeclarationView>)
    requires
        distinct_ids(declarations),
        declares(declarations, entrypoint()),
    ensures
        definitions_of(declarations)[0].id == entrypoint(),
        offset(definitions_of(declarations), 0) == 0,
        program_of(declarations).index.contains_key(entrypoint()),
        program_of(declarations).index[entrypoint()] == 0,
{
    let definitions = definitions_of(declarations);
    lemma_definition_ids(declarations);
    lemma_laid_out(stdlib::registry(), definitions, definitions.len());
    assert(layout(definitions)[definitions[0].id] == offset(definitions, 0) as usize);
}

/// Each definition begins at the next offset after the one before it: the
/// offset of a definition is eight bytes for each instruction of those that
/// precede it in the linked code.
pub proof fn lemma_offsets(declarations: Seq<DeclarationView>, d: int)
    requires
        0 <= d < definitions_of(declarations).len(),
    ensures
        offset(definitions_of(declarations), (d + 1) as nat) == offset(
            definitions_of(declarations),
            d as nat,
        ) + 8 * definitions_of(declarations)[d].code.len(),
        offset(definitions_of(declarations), d as nat) == 8 * flattened(
            definitions_of(declarations),
            d as nat,
        ).len(),
        program_of(declarations).linked().len() == flattened(
            definitions_of(declarations),
            definitions_of(declarations).len(),
        ).len(),
{
    lemma_flattened_len(definitions_of(declarations), d as nat);
}

/// In the linked code, the instruction at the offset of each definition is
/// `ARGC` with the arity of its declaration, and the last instruction of each
/// definition, the one before the next offset, is `RETURN`.
pub proof fn lemma_definition_frame(declarations: Seq<DeclarationView>, d: int)
    requires
        0 <= d < definitions_of(declarations).len(),
    ensures
        ({
            let definitions = definitions_of(declarations);
            let code = program_of(declarations).linked();
            let start = offset(definitions, d as nat) as int / 8;
            let end = offset(definitions, (d + 1) as nat) as int / 8;
            &&& offset(definitions, d as nat) % 8 == 0
            &&& offset(definitions, (d + 1) as nat) % 8 == 0
            &&& 0 <= start < end <= code.len()
            &&& code[start] == bytecode::Op::ARGC(arity(entrypoint_first(declarations)[d].expr))
            &&& code[end - 1] == bytecode::Op::RETURN
        }),
{
    let definitions = definitions_of(declarations);
    let index = program_of(declarations).index;
    let flat = flattened(definitions, definitions.len());
    let code = program_of(declarations).linked();
    let body = definitions[d].code;
    let before = flattened(definitions, d as nat);
    lemma_flattened_len(definitions, d as nat);
    lemma_flattened_len(definitions, (d + 1) as nat);
    lemma_flattened_at(definitions, definitions.len(), d, 0);
    lemma_flattened_at(definitions, definitions.len(), d, body.len() - 1);
    assert(flat[before.len() as int] == body[0]);
    assert(flat[before.len() + body.len() - 1] == body[body.len() - 1]);
    assert(flattened(definitions, (d + 1) as nat).len() == before.len() + body.len());
    assert(code[before.len() as int] == resolved(index, flat[before.len() as int]));
    assert(code[before.len() + body.len() - 1] == resolved(
        index,
        flat[before.len() + body.len() - 1],
    ));
}

/// In the linked code of a valid program, the operand of every `PUSH_CMD` is
/// the offset of a definition, and the symbol index binds the name of that
/// definition to it.
pub proof fn lemma_command_operands(declarations: Seq<DeclarationView>, i: int)
    requires
        distinct_ids(declarations),
        valid_program(declarations),
        addressable(definitions_of(declarations)),
        0 <= i < program_of(declarations).linked().len(),
        program_of(declarations).linked()[i] is PUSH_CMD,
    ensures
        exists|d: int|
            {
                &&& 0 <= d < definitions_of(declarations).len()
                &&& program_of(declarations).index.contains_key(
                    #[trigger] definitions_of(declarations)[d].id,
                )
                &&& program_of(declarations).index[definitions_of(declarations)[d].id] == offset(
                    definitions_of(declarations),
                    d as nat,
                )
                &&& program_of(declarations).linked()[i]->PUSH_CMD_0 == offset(
                    definitions_of(declarations),
                    d as nat,
                )
            },
{
    let definitions = definitions_of(declarations);
    let index = program_of(declarations).index;
    let flat = flattened(definitions, definitions.len());
    let at = lemma_flattened_from(definitions, definitions.len(), i);
    let op = flat[i];
    assert(program_of(declarations).linked()[i] == resolved(index, op));
    lemma_program_well_referenced(declarations);
    assert(all_well_referenced(declarations, definitions[at.0].code));
    assert(well_referenced(declarations, definitions[at.0].code[at.1]));
    let name = op->PUSH_CMD_0;
    lemma_symbol_bound(declarations, name);
    let d = choose|d: int|
        0 <= d < definitions.len() && #[trigger] definitions[d].id == name && layout(
            definitions,
        )[name] == offset(definitions, d as nat);
    assert(definitions[d].id == name);
}

/// In the linked code of a valid program, the operand of every `PUSH_FN` is an
/// index of the standard library, from 0 to 6, unless the program declares the
/// name that the instruction refers to.
pub proof fn lemma_function_operands(declarations: Seq<DeclarationView>, i: int)
    requires
        distinct_ids(declarations),
        valid_program(declarations),
        addressable(definitions_of(declarations)),
        0 <= i < program_of(declarations).linked().len(),
        program_of(declarations).linked()[i] is PUSH_FN,
        forall|d: int, k: int|
            0 <= d < definitions_of(declarations).len() && 0 <= k < definitions_of(
                declarations,
            )[d].code.len() ==> (#[trigger] definitions_of(declarations)[d].code[k] matches OpView::PUSH_FN(
                name,
            ) ==> !declares(declarations, name)),
    ensures
        program_of(declarations).linked()[i]->PUSH_FN_0 <= 6,
        exists|name: Seq<char>|
            stdlib::registry().contains_key(name) && #[trigger] stdlib::registry()[name]
                == program_of(declarations).linked()[i]->PUSH_FN_0,
{
    let definitions = definitions_of(declarations);
    let index = program_of(declarations).index;
    let flat = flattened(definitions, definitions.len());
    let at = lemma_flattened_from(definitions, definitions.len(), i);
    let op = flat[i];
    assert(program_of(declarations).linked()[i] == resolved(index, op));
    lemma_program_well_referenced(declarations);
    assert(all_well_referenced(declarations, definitions[at.0].code));
    assert(well_referenced(declarations, definitions[at.0].code[at.1]));
    let name = op->PUSH_FN_0;
    assert(!declares(declarations, name));
    lemma_symbol_bound(declarations, name);
    stdlib::lemma_registry_names(name);
    assert(stdlib::registry()[name] == program_of(declarations).linked()[i]->PUSH_FN_0);
}

/// Where no declaration bears a reserved name, no `PUSH_FN` of the program
/// refers to a declaration.
pub proof fn lemma_functions_undeclared(declarations: Seq<DeclarationView>)
    requires
        distinct_ids(declarations),
        valid_program(declarations),
        forall|j: int| 0 <= j < declarations.len() ==> !reserved((#[trigger] declarations[j]).id),
    ensures
        forall|d: int, k: int|
            0 <= d < definitions_of(declarations).len() && 0 <= k < definitions_of(
                declarations,
            )[d].code.len() ==> (#[trigger] definitions_of(declarations)[d].code[k] matches OpView::PUSH_FN(
                name,
            ) ==> !declares(declarations, name)),
{
    let definitions = definitions_of(declarations);
    lemma_program_well_referenced(declarations);
    assert forall|d: int, k: int|
        0 <= d < definitions.len() && 0 <= k < definitions[d].code.len() implies (
    #[trigger] definitions[d].code[k] matches OpView::PUSH_FN(name) ==> !declares(
        declarations,
        name,
    )) by {
        assert(all_well_referenced(declarations, definitions[d].code));
        assert(well_referenced(declarations, definitions[d].code[k]));
        if let OpView::PUSH_FN(name) = definitions[d].code[k] {
            lemma_index_of(declarations, name);
        }
    }
}

/// A declaration whose body is nothing but a reference to a declaration that is
/// not a lambda lowers to `ARGC(0)`, `PUSH_CMD`, `PUSH_UNIT`, `FEED(1)` and
/// `RETURN`; one whose body is nothing but a reference to a lambda lowers to
/// `ARGC(0)`, `PUSH_CMD` and `RETURN`. This is so where the name referred to is
/// not reserved.
pub proof fn lemma_bare_reference(
    declarations: Seq<DeclarationView>,
    declaration: DeclarationView,
    id: Seq<char>,
)
    requires
        declaration.expr == ExprView::ID(id),
        declares(declarations, id),
        !reserved(id),
    ensures
        !(declaration_named(declarations, id).expr is Func) ==> definition_of(
            declarations,
            declaration,
        ).code == seq![
            OpView::ARGC(0),
            OpView::PUSH_CMD(id),
            OpView::PUSH_UNIT,
            OpView::FEED(1),
            OpView::RETURN,
        ],
        declaration_named(declarations, id).expr is Func ==> definition_of(
            declarations,
            declaration,
        ).code == seq![OpView::ARGC(0), OpView::PUSH_CMD(id), OpView::RETURN],
{
    let code = definition_of(declarations, declaration).code;
    if declaration_named(declarations, id).expr is Func {
        assert(code =~= seq![OpView::ARGC(0), OpView::PUSH_CMD(id), OpView::RETURN]);
    } else {
        assert(code =~= seq![
            OpView::ARGC(0),
            OpView::PUSH_CMD(id),
            OpView::PUSH_UNIT,
            OpView::FEED(1),
            OpView::RETURN,
        ]);
    }
}

} // verus!
