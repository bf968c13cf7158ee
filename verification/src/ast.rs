//! The abstract syntax tree: expressions, top-level declarations, and the tree
//! of a whole program with the checks that make it valid.

use crate::parser::{lemma_node_view, node_views, Node, NodeView, Rule};
use crate::stdlib;
use crate::text;
use crate::valid::Valid;
use vstd::prelude::*;

verus! {

/// An expression.
#[derive(Debug, PartialEq)]
pub enum Expr {
    /// A signed 32-bit literal.
    Int(i32),
    /// A locally bound parameter name.
    Name(String),
    /// A qualified reference to a declaration or to the standard library.
    ID(String),
    /// The application of a function to its arguments, in order.
    Call(Box<Self>, Box<Vec<Self>>),
    /// A lambda: its parameters in order, and its body.
    Func(Box<Vec<String>>, Box<Self>),
}

/// An expression as a mathematical value.
pub enum ExprView {
    Int(i32),
    Name(Seq<char>),
    ID(Seq<char>),
    Call(Box<ExprView>, Seq<ExprView>),
    Func(Seq<Seq<char>>, Box<ExprView>),
}

/// The mathematical value of an expression.
pub open spec fn expr_view(expr: Expr) -> ExprView
    decreases expr,
{
    match expr {
        Expr::Int(i) => ExprView::Int(i),
        Expr::Name(name) => ExprView::Name(name@),
        Expr::ID(id) => ExprView::ID(id@),
        Expr::Call(f, args) => ExprView::Call(
            Box::new(expr_view(*f)),
            Seq::new(
                (*args)@.len(),
                |i: int|
                    if 0 <= i < (*args)@.len() {
                        expr_view((*args)@[i])
                    } else {
                        arbitrary()
                    },
            ),
        ),
        Expr::Func(params, body) => ExprView::Func(
            text::views((*params)@),
            Box::new(expr_view(*body)),
        ),
    }
}

impl View for Expr {
    type V = ExprView;

    open spec fn view(&self) -> ExprView {
        expr_view(*self)
    }
}

/// The views of a run of expressions.
pub open spec fn expr_views(exprs: Seq<Expr>) -> Seq<ExprView> {
    Seq::new(exprs.len(), |i: int| exprs[i]@)
}

/// A copy of the strings, each equal to the one it copies.
pub fn clone_strings(strings: &Vec<String>) -> (copy: Vec<String>)
    ensures
        text::views(copy@) == text::views(strings@),
{
    let mut copy: Vec<String> = Vec::new();
    let mut i: usize = 0;
    while i < strings.len()
        invariant
            i <= strings.len(),
            copy@.len() == i,
            forall|k: int| 0 <= k < i ==> copy@[k]@ == strings@[k]@,
        decreases strings.len() - i,
    {
        copy.push(strings[i].clone());
        i += 1;
    }
    assert(text::views(copy@) =~= text::views(strings@));
    copy
}

impl Clone for Expr {
    #[verifier::loop_isolation(false)]
    fn clone(&self) -> (copy: Self)
        ensures
            copy@ == self@,
        decreases self,
    {
        match self {
            Expr::Int(i) => Expr::Int(*i),
            Expr::Name(name) => Expr::Name(name.clone()),
            Expr::ID(id) => Expr::ID(id.clone()),
            Expr::Call(f, args) => {
                let head = (&**f).clone();
                let mut copies: Vec<Expr> = Vec::new();
                let mut i: usize = 0;
                while i < args.len()
                    invariant
                        i <= args.len(),
                        copies@.len() == i,
                        forall|k: int| 0 <= k < i ==> copies@[k]@ == args@[k]@,
                    decreases args.len() - i,
                {
                    copies.push(args[i].clone());
                    i += 1;
                }
                let copy = Expr::Call(Box::new(head), Box::new(copies));
                assert(copy@->Call_1 =~= self@->Call_1);
                copy
            },
            Expr::Func(params, body) => {
                Expr::Func(Box::new(clone_strings(params)), Box::new((&**body).clone()))
            },
        }
    }
}

/// A top-level binding of a name to an expression.
#[derive(Debug, PartialEq)]
pub struct Declaration {
    pub id: String,
    pub expr: Expr,
}

/// A declaration as a mathematical value.
pub struct DeclarationView {
    pub id: Seq<char>,
    pub expr: ExprView,
}

impl View for Declaration {
    type V = DeclarationView;

    open spec fn view(&self) -> DeclarationView {
        DeclarationView { id: self.id@, expr: self.expr@ }
    }
}

impl Clone for Declaration {
    fn clone(&self) -> (copy: Self)
        ensures
            copy@ == self@,
    {
        Declaration { id: self.id.clone(), expr: self.expr.clone() }
    }
}

/// The views of a run of declarations.
pub open spec fn declaration_views(declarations: Seq<Declaration>) -> Seq<DeclarationView> {
    Seq::new(declarations.len(), |i: int| declarations[i]@)
}

/// Whether the node is a parameter that carries its name in a child.
pub open spec fn is_param_node(node: NodeView) -> bool {
    node.rule == Rule::Param && node.children.len() >= 1
}

/// Whether the children are those of a lambda: parameters, then one body that is
/// a well-formed expression.
pub open spec fn func_shaped(children: Seq<NodeView>) -> bool {
    &&& children.len() >= 1
    &&& forall|i: int| 0 <= i < children.len() - 1 ==> is_param_node(#[trigger] children[i])
    &&& well_formed(children.last())
}

/// Whether the children are those of an application: a head and its arguments,
/// each a well-formed expression.
pub open spec fn call_shaped(children: Seq<NodeView>) -> bool {
    &&& children.len() >= 1
    &&& forall|i: int| 0 <= i < children.len() ==> well_formed(#[trigger] children[i])
}

/// Whether the node has the shape of an expression: a literal whose text is a
/// numeral of a signed 32-bit integer, a name, a qualified name, an application
/// with a head, or a lambda whose children are parameters followed by one body.
pub open spec fn well_formed(node: NodeView) -> bool
    decreases node,
{
    match node.rule {
        Rule::Int => text::numeral_i32(node.text) is Some,
        Rule::Name => true,
        Rule::Id => true,
        Rule::Call => {
            &&& node.children.len() >= 1
            &&& forall|i: int|
                0 <= i < node.children.len() ==> well_formed(#[trigger] node.children[i])
        },
        Rule::Func => {
            &&& node.children.len() >= 1
            &&& forall|i: int|
                0 <= i < node.children.len() - 1 ==> is_param_node(#[trigger] node.children[i])
            &&& well_formed(node.children.last())
        },
        _ => false,
    }
}

/// The names that the parameter nodes carry, in order: each is the text of the
/// parameter's first child.
pub open spec fn param_names(params: Seq<NodeView>) -> Seq<Seq<char>> {
    Seq::new(params.len(), |i: int| params[i].children[0].text)
}

/// The expression that a well-formed node stands for.
pub open spec fn expr_of(node: NodeView) -> ExprView
    decreases node,
{
    match node.rule {
        Rule::Int => ExprView::Int(text::numeral_i32(node.text)->0),
        Rule::Name => ExprView::Name(node.text),
        Rule::Id => ExprView::ID(node.text),
        Rule::Call => if node.children.len() >= 1 {
            ExprView::Call(
                Box::new(expr_of(node.children[0])),
                Seq::new(
                    (node.children.len() - 1) as nat,
                    |i: int|
                        if 0 <= i < node.children.len() - 1 {
                            expr_of(node.children[i + 1])
                        } else {
                            arbitrary()
                        },
                ),
            )
        } else {
            arbitrary()
        },
        Rule::Func => if node.children.len() >= 1 {
            ExprView::Func(
                param_names(node.children.drop_last()),
                Box::new(expr_of(node.children.last())),
            )
        } else {
            arbitrary()
        },
        _ => arbitrary(),
    }
}

/// The application that the children of a call node stand for: the first is the
/// head, the others are the arguments in order.
pub open spec fn call_of(children: Seq<NodeView>) -> ExprView {
    ExprView::Call(
        Box::new(expr_of(children[0])),
        Seq::new((children.len() - 1) as nat, |i: int| expr_of(children[i + 1])),
    )
}

/// The lambda that the children of a func node stand for: the last is the body,
/// the others are the parameters in order.
pub open spec fn func_of(children: Seq<NodeView>) -> ExprView {
    ExprView::Func(param_names(children.drop_last()), Box::new(expr_of(children.last())))
}

/// Whether the children are those of a declaration: the name, then a body that
/// is a well-formed expression.
pub open spec fn decl_shaped(children: Seq<NodeView>) -> bool {
    children.len() >= 2 && well_formed(children[1])
}

/// The declaration that the children of a declaration node stand for: the text
/// of the first names it, the second is its body.
pub open spec fn declaration_of(children: Seq<NodeView>) -> DeclarationView {
    DeclarationView { id: children[0].text, expr: expr_of(children[1]) }
}

/// The number of nodes before the first end-of-input marker.
pub open spec fn leading(nodes: Seq<NodeView>) -> int
    decreases nodes.len(),
{
    if nodes.len() == 0 || nodes[0].rule == Rule::Eoi {
        0
    } else {
        1 + leading(nodes.drop_first())
    }
}

/// Whether every node before the first end-of-input marker has the shape of a
/// declaration.
pub open spec fn tree_shaped(nodes: Seq<NodeView>) -> bool {
    forall|i: int| 0 <= i < leading(nodes) ==> decl_shaped((#[trigger] nodes[i]).children)
}

/// What `leading` counts: the nodes up to the first marker, or all of them.
pub proof fn lemma_leading_is(nodes: Seq<NodeView>, i: int)
    requires
        0 <= i <= nodes.len(),
        forall|k: int| 0 <= k < i ==> nodes[k].rule != Rule::Eoi,
        i < nodes.len() ==> nodes[i].rule == Rule::Eoi,
    ensures
        leading(nodes) == i,
    decreases nodes.len(),
{
    if i > 0 {
        assert(nodes[0].rule != Rule::Eoi);
        let rest = nodes.drop_first();
        assert forall|k: int| 0 <= k < i - 1 implies rest[k].rule != Rule::Eoi by {
            assert(rest[k] == nodes[k + 1]);
        }
        lemma_leading_is(rest, i - 1);
    }
}

/// At least the nodes before any place that no marker precedes are leading.
pub proof fn lemma_leading_at_least(nodes: Seq<NodeView>, i: int)
    requires
        0 <= i <= nodes.len(),
        forall|k: int| 0 <= k < i ==> nodes[k].rule != Rule::Eoi,
    ensures
        i <= leading(nodes) <= nodes.len(),
    decreases nodes.len(),
{
    if nodes.len() > 0 && nodes[0].rule != Rule::Eoi {
        let rest = nodes.drop_first();
        if i > 0 {
            assert forall|k: int| 0 <= k < i - 1 implies rest[k].rule != Rule::Eoi by {
                assert(rest[k] == nodes[k + 1]);
            }
            lemma_leading_at_least(rest, i - 1);
        } else {
            lemma_leading_at_least(rest, 0);
        }
    }
}

impl Expr {
    /// The literal that an `Int` node stands for.
    pub fn integer(pair: &Node) -> (expr: Self)
        requires
            text::numeral_i32(pair@.text) is Some,
        ensures
            expr@ == ExprView::Int(text::numeral_i32(pair@.text)->0),
    {
        Expr::Int(text::parse_i32(pair.text.as_str()).unwrap())
    }

    /// The local name that a `Name` node stands for.
    pub fn name(pair: &Node) -> (expr: Self)
        ensures
            expr@ == ExprView::Name(pair@.text),
    {
        Expr::Name(Self::string(pair))
    }

    /// The qualified reference that an `Id` node stands for.
    pub fn id(pair: &Node) -> (expr: Self)
        ensures
            expr@ == ExprView::ID(pair@.text),
    {
        Expr::ID(Self::string(pair))
    }

    /// The application that the children of a call node stand for.
    pub fn call(pairs: &Vec<Node>) -> (expr: Self)
        requires
            call_shaped(node_views(pairs@)),
        ensures
            expr@ == call_of(node_views(pairs@)),
        decreases pairs, 0int,
    {
        let ghost children = node_views(pairs@);
        assert(well_formed(children[0]));
        let f = Self::from(&pairs[0]);
        let mut args: Vec<Expr> = Vec::new();
        let mut i: usize = 1;
        while i < pairs.len()
            invariant
                1 <= i <= pairs.len(),
                children == node_views(pairs@),
                call_shaped(children),
                args@.len() == i - 1,
                forall|k: int| 0 <= k < i - 1 ==> args@[k]@ == expr_of(children[k + 1]),
            decreases pairs.len() - i,
        {
            assert(well_formed(children[i as int]));
            args.push(Self::from(&pairs[i]));
            i += 1;
        }
        let expr = Expr::Call(Box::new(f), Box::new(args));
        assert(expr@->Call_1 =~= call_of(children)->Call_1);
        expr
    }

    /// The lambda that the children of a func node stand for.
    pub fn func(pairs: &Vec<Node>) -> (expr: Self)
        requires
            func_shaped(node_views(pairs@)),
        ensures
            expr@ == func_of(node_views(pairs@)),
        decreases pairs, 0int,
    {
        let ghost children = node_views(pairs@);
        let last = pairs.len() - 1;
        let mut params: Vec<String> = Vec::new();
        let mut i: usize = 0;
        while i < last
            invariant
                i <= last,
                last == pairs.len() - 1,
                children == node_views(pairs@),
                func_shaped(children),
                params@.len() == i,
                forall|k: int| 0 <= k < i ==> params@[k]@ == children[k].children[0].text,
            decreases last - i,
        {
            assert(is_param_node(children[i as int]));
            params.push(Self::param(&pairs[i]));
            i += 1;
        }
        assert(children.last() == pairs@[last as int]@);
        let body = Self::from(&pairs[last]);
        let expr = Expr::Func(Box::new(params), Box::new(body));
        assert(expr@->Func_0 =~= func_of(children)->Func_0);
        expr
    }

    /// The name that a parameter node carries.
    pub fn param(pair: &Node) -> (name: String)
        requires
            pair@.children.len() >= 1,
        ensures
            name@ == pair@.children[0].text,
    {
        proof {
            lemma_node_view(*pair);
        }
        Self::string(&pair.children[0])
    }

    /// The text that the node matched.
    pub fn string(pair: &Node) -> (s: String)
        ensures
            s@ == pair@.text,
    {
        pair.text.clone()
    }

    /// The expression that a well-formed node stands for.
    pub fn from(pair: &Node) -> (expr: Self)
        requires
            well_formed(pair@),
        ensures
            expr@ == expr_of(pair@),
        decreases pair, 1int,
    {
        match pair.rule {
            Rule::Int => Self::integer(pair),
            Rule::Name => Self::name(pair),
            Rule::Id => Self::id(pair),
            Rule::Call => {
                proof {
                    lemma_node_view(*pair);
                }
                let expr = Self::call(&pair.children);
                assert(expr@->Call_1 =~= expr_of(pair@)->Call_1);
                expr
            },
            _ => {
                proof {
                    lemma_node_view(*pair);
                }
                Self::func(&pair.children)
            },
        }
    }
}

impl Declaration {
    /// The declaration that the children of a declaration node stand for.
    pub fn from(pairs: &Vec<Node>) -> (declaration: Self)
        requires
            decl_shaped(node_views(pairs@)),
        ensures
            declaration@ == declaration_of(node_views(pairs@)),
    {
        let id = Expr::string(&pairs[0]);
        let expr = Expr::from(&pairs[1]);
        Declaration { id, expr }
    }
}

/// Tests whether the node has the shape of an expression.
#[verifier::loop_isolation(false)]
pub fn is_well_formed(node: &Node) -> (b: bool)
    ensures
        b == well_formed(node@),
    decreases node,
{
    proof {
        lemma_node_view(*node);
    }
    let ghost children = node@.children;
    match node.rule {
        Rule::Int => text::parse_i32(node.text.as_str()).is_some(),
        Rule::Name => true,
        Rule::Id => true,
        Rule::Call => {
            if node.children.len() == 0 {
                return false;
            }
            let mut i: usize = 0;
            while i < node.children.len()
                invariant
                    i <= node.children.len(),
                    forall|k: int| 0 <= k < i ==> well_formed(#[trigger] children[k]),
                decreases node.children.len() - i,
            {
                assert(children[i as int] == node.children@[i as int]@);
                if !is_well_formed(&node.children[i]) {
                    return false;
                }
                i += 1;
            }
            true
        },
        Rule::Func => {
            if node.children.len() == 0 {
                return false;
            }
            let last = node.children.len() - 1;
            let mut i: usize = 0;
            while i < last
                invariant
                    i <= last,
                    last == node.children.len() - 1,
                    forall|k: int| 0 <= k < i ==> is_param_node(#[trigger] children[k]),
                decreases last - i,
            {
                assert(children[i as int] == node.children@[i as int]@);
                proof {
                    lemma_node_view(node.children@[i as int]);
                }
                if !(crate::parser::is_param(&node.children[i]) && node.children[i].children.len()
                    >= 1) {
                    return false;
                }
                i += 1;
            }
            assert(children.last() == node.children@[last as int]@);
            is_well_formed(&node.children[last])
        },
        _ => false,
    }
}

/// Tests whether every node before the first end-of-input marker has the shape
/// of a declaration.
pub fn is_tree_shaped(pairs: &Vec<Node>) -> (b: bool)
    ensures
        b == tree_shaped(node_views(pairs@)),
{
    let ghost nodes = node_views(pairs@);
    let mut i: usize = 0;
    while i < pairs.len() && crate::parser::is_not_eoi(&pairs[i])
        invariant
            i <= pairs.len(),
            nodes == node_views(pairs@),
            forall|k: int| 0 <= k < i ==> nodes[k].rule != Rule::Eoi,
            forall|k: int| 0 <= k < i ==> decl_shaped((#[trigger] nodes[k]).children),
        decreases pairs.len() - i,
    {
        proof {
            lemma_leading_at_least(nodes, i as int + 1);
            lemma_node_view(pairs@[i as int]);
        }
        let children = &pairs[i].children;
        if children.len() < 2 {
            assert(!decl_shaped(nodes[i as int].children));
            return false;
        }
        assert(nodes[i as int].children[1] == children@[1]@);
        if !is_well_formed(&children[1]) {
            assert(!decl_shaped(nodes[i as int].children));
            return false;
        }
        i += 1;
    }
    proof {
        lemma_leading_is(nodes, i as int);
    }
    true
}

/// The name of the declaration at which execution begins.
pub open spec fn entrypoint() -> Seq<char> {
    "main"@
}

/// The index of the first declaration named `id`, or the number of declarations
/// if none bears that name.
pub open spec fn index_of(declarations: Seq<DeclarationView>, id: Seq<char>) -> int
    decreases declarations.len(),
{
    if declarations.len() == 0 {
        0
    } else if declarations[0].id == id {
        0
    } else {
        1 + index_of(declarations.drop_first(), id)
    }
}

/// Whether some declaration is named `id`.
pub open spec fn declares(declarations: Seq<DeclarationView>, id: Seq<char>) -> bool {
    index_of(declarations, id) < declarations.len()
}

/// The first declaration named `id`.
pub open spec fn declaration_named(
    declarations: Seq<DeclarationView>,
    id: Seq<char>,
) -> DeclarationView {
    declarations[index_of(declarations, id)]
}

/// Whether no two declarations share a name.
pub open spec fn distinct_ids(declarations: Seq<DeclarationView>) -> bool {
    forall|i: int, j: int|
        0 <= i < j < declarations.len() ==> (#[trigger] declarations[i]).id != (
        #[trigger] declarations[j]).id
}

/// The declarations with `declaration` bound under its name: in the place of the
/// declaration that bore the name before, or at the end if none did.
pub open spec fn inserted(
    declarations: Seq<DeclarationView>,
    declaration: DeclarationView,
) -> Seq<DeclarationView> {
    if declares(declarations, declaration.id) {
        declarations.update(index_of(declarations, declaration.id), declaration)
    } else {
        declarations.push(declaration)
    }
}

/// The declarations that the first `n` nodes make, bound one after the other.
pub open spec fn collected(nodes: Seq<NodeView>, n: nat) -> Seq<DeclarationView>
    decreases n,
{
    if n == 0 || n > nodes.len() {
        Seq::empty()
    } else {
        inserted(collected(nodes, (n - 1) as nat), declaration_of(nodes[n - 1].children))
    }
}

/// The declarations of a parse: those of the nodes before the first
/// end-of-input marker.
pub open spec fn declared_by(nodes: Seq<NodeView>) -> Seq<DeclarationView> {
    collected(nodes, leading(nodes) as nat)
}

/// The declarations other than the entrypoint, in their order.
pub open spec fn without_entrypoint(declarations: Seq<DeclarationView>) -> Seq<DeclarationView>
    decreases declarations.len(),
{
    if declarations.len() == 0 {
        Seq::empty()
    } else if declarations.last().id == entrypoint() {
        without_entrypoint(declarations.drop_last())
    } else {
        without_entrypoint(declarations.drop_last()).push(declarations.last())
    }
}

/// The declarations in the order of emission: the entrypoint first, then the
/// others in their order.
pub open spec fn entrypoint_first(declarations: Seq<DeclarationView>) -> Seq<DeclarationView> {
    seq![declaration_named(declarations, entrypoint())] + without_entrypoint(declarations)
}

/// What `index_of` finds: nothing before it bears the name, and the declaration
/// at it does, if there is one.
pub proof fn lemma_index_of(declarations: Seq<DeclarationView>, id: Seq<char>)
    ensures
        0 <= index_of(declarations, id) <= declarations.len(),
        forall|k: int| 0 <= k < index_of(declarations, id) ==> declarations[k].id != id,
        declares(declarations, id) ==> declaration_named(declarations, id).id == id,
    decreases declarations.len(),
{
    if declarations.len() > 0 && declarations[0].id != id {
        let rest = declarations.drop_first();
        lemma_index_of(rest, id);
        assert forall|k: int| 0 <= k < index_of(declarations, id) implies declarations[k].id
            != id by {
            if k > 0 {
                assert(declarations[k] == rest[k - 1]);
            }
        }
        if declares(declarations, id) {
            assert(declarations[index_of(declarations, id)] == rest[index_of(rest, id)]);
        }
    }
}

/// The first place at which the name stands is what `index_of` finds.
pub proof fn lemma_index_of_is(declarations: Seq<DeclarationView>, id: Seq<char>, i: int)
    requires
        0 <= i <= declarations.len(),
        forall|k: int| 0 <= k < i ==> declarations[k].id != id,
        i < declarations.len() ==> declarations[i].id == id,
    ensures
        index_of(declarations, id) == i,
{
    lemma_index_of(declarations, id);
    let found = index_of(declarations, id);
    if found < i {
        assert(declarations[found].id == id);
    } else if found > i {
        assert(declarations[i].id != id);
    }
}

/// Binding a declaration keeps the names distinct.
pub proof fn lemma_inserted_distinct(
    declarations: Seq<DeclarationView>,
    declaration: DeclarationView,
)
    requires
        distinct_ids(declarations),
    ensures
        distinct_ids(inserted(declarations, declaration)),
{
    lemma_index_of(declarations, declaration.id);
    let after = inserted(declarations, declaration);
    assert forall|i: int, j: int| 0 <= i < j < after.len() implies (#[trigger] after[i]).id != (
    #[trigger] after[j]).id by {
        if declares(declarations, declaration.id) {
            assert(after[i].id == declarations[i].id);
            assert(after[j].id == declarations[j].id);
        } else {
            if j < declarations.len() {
                assert(after[i] == declarations[i]);
                assert(after[j] == declarations[j]);
            } else {
                assert(after[i] == declarations[i]);
                lemma_index_of_is(declarations, declaration.id, declarations.len() as int);
            }
        }
    }
}

/// The declarations of a parse bear distinct names.
pub proof fn lemma_collected_distinct(nodes: Seq<NodeView>, n: nat)
    ensures
        distinct_ids(collected(nodes, n)),
    decreases n,
{
    if n > 0 && n <= nodes.len() {
        lemma_collected_distinct(nodes, (n - 1) as nat);
        lemma_inserted_distinct(
            collected(nodes, (n - 1) as nat),
            declaration_of(nodes[n - 1].children),
        );
    }
}

/// What is left without the entrypoint: the declarations under other names, and
/// only those, still under distinct names if they were.
pub proof fn lemma_without_entrypoint(declarations: Seq<DeclarationView>)
    ensures
        without_entrypoint(declarations).len() <= declarations.len(),
        forall|k: int|
            0 <= k < without_entrypoint(declarations).len() ==> {
                &&& declarations.contains(#[trigger] without_entrypoint(declarations)[k])
                &&& without_entrypoint(declarations)[k].id != entrypoint()
            },
        forall|j: int|
            0 <= j < declarations.len() && (#[trigger] declarations[j]).id != entrypoint()
                ==> without_entrypoint(declarations).contains(declarations[j]),
        distinct_ids(declarations) ==> distinct_ids(without_entrypoint(declarations)),
    decreases declarations.len(),
{
    if declarations.len() > 0 {
        let shorter = declarations.drop_last();
        let last = declarations.last();
        let rest = without_entrypoint(shorter);
        let all = without_entrypoint(declarations);
        lemma_without_entrypoint(shorter);
        assert forall|k: int| 0 <= k < all.len() implies {
            &&& declarations.contains(#[trigger] all[k])
            &&& all[k].id != entrypoint()
        } by {
            if k < rest.len() {
                assert(all[k] == rest[k]);
                let j = choose|j: int| 0 <= j < shorter.len() && shorter[j] == rest[k];
                assert(declarations[j] == rest[k]);
            } else {
                assert(all[k] == last);
                assert(declarations[declarations.len() - 1] == last);
            }
        }
        assert forall|j: int|
            0 <= j < declarations.len() && (#[trigger] declarations[j]).id
                != entrypoint() implies all.contains(declarations[j]) by {
            if j < shorter.len() {
                assert(shorter[j] == declarations[j]);
                let k = choose|k: int| 0 <= k < rest.len() && rest[k] == shorter[j];
                assert(all[k] == declarations[j]);
            } else {
                assert(all[all.len() - 1] == declarations[j]);
            }
        }
        if distinct_ids(declarations) {
            assert(distinct_ids(shorter)) by {
                assert forall|i: int, j: int| 0 <= i < j < shorter.len() implies (
                #[trigger] shorter[i]).id != (#[trigger] shorter[j]).id by {
                    assert(shorter[i] == declarations[i]);
                    assert(shorter[j] == declarations[j]);
                }
            }
            assert forall|i: int, j: int| 0 <= i < j < all.len() implies (#[trigger] all[i]).id != (
            #[trigger] all[j]).id by {
                if j < rest.len() {
                    assert(all[i] == rest[i]);
                    assert(all[j] == rest[j]);
                } else {
                    assert(all[i] == rest[i]);
                    let m = choose|m: int| 0 <= m < shorter.len() && shorter[m] == rest[i];
                    assert(declarations[m] == rest[i]);
                    assert(declarations[declarations.len() - 1] == all[j]);
                }
            }
        }
    }
}

/// The order of emission holds the entrypoint first, and then exactly the
/// declarations of the program, each once.
pub proof fn lemma_entrypoint_first(declarations: Seq<DeclarationView>)
    requires
        distinct_ids(declarations),
        declares(declarations, entrypoint()),
    ensures
        entrypoint_first(declarations).len() >= 1,
        entrypoint_first(declarations)[0].id == entrypoint(),
        distinct_ids(entrypoint_first(declarations)),
        forall|k: int|
            0 <= k < entrypoint_first(declarations).len() ==> declarations.contains(
                #[trigger] entrypoint_first(declarations)[k],
            ),
        forall|j: int|
            0 <= j < declarations.len() ==> entrypoint_first(declarations).contains(
                #[trigger] declarations[j],
            ),
{
    let first = entrypoint_first(declarations);
    let rest = without_entrypoint(declarations);
    let at = index_of(declarations, entrypoint());
    lemma_index_of(declarations, entrypoint());
    lemma_without_entrypoint(declarations);
    assert(first[0] == declarations[at]);
    assert forall|k: int| 0 <= k < first.len() implies declarations.contains(
        #[trigger] first[k],
    ) by {
        if k > 0 {
            assert(first[k] == rest[k - 1]);
        }
    }
    assert forall|j: int| 0 <= j < declarations.len() implies first.contains(
        #[trigger] declarations[j],
    ) by {
        if declarations[j].id == entrypoint() {
            if j != at {
                if j < at {
                    assert(declarations[j].id != declarations[at].id);
                } else {
                    assert(declarations[at].id != declarations[j].id);
                }
            }
            assert(first[0] == declarations[j]);
        } else {
            let k = choose|k: int| 0 <= k < rest.len() && rest[k] == declarations[j];
            assert(first[k + 1] == declarations[j]);
        }
    }
    assert forall|i: int, j: int| 0 <= i < j < first.len() implies (#[trigger] first[i]).id != (
    #[trigger] first[j]).id by {
        assert(first[j] == rest[j - 1]);
        if i > 0 {
            assert(first[i] == rest[i - 1]);
        }
    }
}

/// The qualified names that the expression refers to, from left to right, each
/// as often as it occurs.
pub open spec fn expr_ids(expr: ExprView) -> Seq<Seq<char>>
    decreases expr,
{
    match expr {
        ExprView::ID(id) => seq![id],
        ExprView::Call(f, args) => expr_ids(*f) + list_ids(args, args.len()),
        ExprView::Func(_, body) => expr_ids(*body),
        _ => Seq::empty(),
    }
}

/// The qualified names that the first `n` of the expressions refer to.
pub open spec fn list_ids(exprs: Seq<ExprView>, n: nat) -> Seq<Seq<char>>
    decreases exprs, n,
{
    if n == 0 || n > exprs.len() {
        Seq::empty()
    } else {
        list_ids(exprs, (n - 1) as nat) + expr_ids(exprs[n - 1])
    }
}

/// The qualified names that the bodies of the first `n` declarations refer to.
pub open spec fn body_ids(declarations: Seq<DeclarationView>, n: nat) -> Seq<Seq<char>>
    decreases n,
{
    if n == 0 || n > declarations.len() {
        Seq::empty()
    } else {
        body_ids(declarations, (n - 1) as nat) + expr_ids(declarations[n - 1].expr)
    }
}

/// Every name that must resolve: those that the bodies refer to, and the
/// entrypoint.
pub open spec fn ref_ids(declarations: Seq<DeclarationView>) -> Seq<Seq<char>> {
    body_ids(declarations, declarations.len()).push(entrypoint())
}

/// Whether `id` names a declaration or a function of the standard library.
pub open spec fn known(declarations: Seq<DeclarationView>, id: Seq<char>) -> bool {
    declares(declarations, id) || stdlib::registry().contains_key(id)
}

/// The names among the first `n` of `ids` that are not known, each once, in the
/// order in which they first occur.
pub open spec fn unknown_among(
    declarations: Seq<DeclarationView>,
    ids: Seq<Seq<char>>,
    n: nat,
) -> Seq<Seq<char>>
    decreases n,
{
    if n == 0 || n > ids.len() {
        Seq::empty()
    } else {
        let earlier = unknown_among(declarations, ids, (n - 1) as nat);
        if known(declarations, ids[n - 1]) || earlier.contains(ids[n - 1]) {
            earlier
        } else {
            earlier.push(ids[n - 1])
        }
    }
}

/// The names that the program refers to and that are not known, each once, in
/// the order in which they first occur.
pub open spec fn undef_ids(declarations: Seq<DeclarationView>) -> Seq<Seq<char>> {
    unknown_among(declarations, ref_ids(declarations), ref_ids(declarations).len())
}

/// Whether every qualified name in the expression is known.
pub open spec fn resolves(declarations: Seq<DeclarationView>, expr: ExprView) -> bool
    decreases expr,
{
    match expr {
        ExprView::ID(id) => known(declarations, id),
        ExprView::Call(f, args) => {
            &&& resolves(declarations, *f)
            &&& forall|i: int| 0 <= i < args.len() ==> resolves(declarations, #[trigger] args[i])
        },
        ExprView::Func(_, body) => resolves(declarations, *body),
        _ => true,
    }
}

/// Whether the program is valid: it declares the entrypoint, and every name it
/// refers to is known.
pub open spec fn valid_program(declarations: Seq<DeclarationView>) -> bool {
    declares(declarations, entrypoint()) && undef_ids(declarations).len() == 0
}

/// The report that is owed for a program that is not valid: the missing
/// entrypoint first, the unknown references otherwise.
pub open spec fn report(declarations: Seq<DeclarationView>) -> Seq<char> {
    if !declares(declarations, entrypoint()) {
        "Missing entrypoint: "@ + entrypoint()
    } else {
        "Unknown references found: "@ + text::joined(undef_ids(declarations), ", "@)
    }
}

/// Whether the expression mentions no locally bound name.
pub open spec fn nameless(expr: ExprView) -> bool
    decreases expr,
{
    match expr {
        ExprView::Name(_) => false,
        ExprView::Call(f, args) => {
            &&& nameless(*f)
            &&& forall|i: int| 0 <= i < args.len() ==> nameless(#[trigger] args[i])
        },
        ExprView::Func(_, body) => nameless(*body),
        _ => true,
    }
}

/// Whether no body of the program mentions a locally bound name.
pub open spec fn nameless_program(declarations: Seq<DeclarationView>) -> bool {
    forall|i: int| 0 <= i < declarations.len() ==> nameless((#[trigger] declarations[i]).expr)
}

/// Those of the first `n` declarations whose names are among `refs`, in their
/// order.
pub open spec fn referenced_among(
    declarations: Seq<DeclarationView>,
    refs: Seq<Seq<char>>,
    n: nat,
) -> Seq<DeclarationView>
    decreases n,
{
    if n == 0 || n > declarations.len() {
        Seq::empty()
    } else if refs.contains(declarations[n - 1].id) {
        referenced_among(declarations, refs, (n - 1) as nat).push(declarations[n - 1])
    } else {
        referenced_among(declarations, refs, (n - 1) as nat)
    }
}

/// The declarations that the program refers to, the entrypoint among them, in
/// their order.
pub open spec fn used_declarations(declarations: Seq<DeclarationView>) -> Seq<DeclarationView> {
    referenced_among(declarations, ref_ids(declarations), declarations.len())
}

/// What is picked from declarations comes from among them, and bears distinct
/// names if they do.
pub proof fn lemma_referenced_among(
    declarations: Seq<DeclarationView>,
    refs: Seq<Seq<char>>,
    n: nat,
)
    requires
        n <= declarations.len(),
    ensures
        forall|k: int|
            0 <= k < referenced_among(declarations, refs, n).len() ==> exists|j: int|
                0 <= j < n && declarations[j] == #[trigger] referenced_among(
                    declarations,
                    refs,
                    n,
                )[k],
        distinct_ids(declarations) ==> distinct_ids(referenced_among(declarations, refs, n)),
    decreases n,
{
    if n > 0 {
        lemma_referenced_among(declarations, refs, (n - 1) as nat);
        let earlier = referenced_among(declarations, refs, (n - 1) as nat);
        let now = referenced_among(declarations, refs, n);
        assert forall|k: int| 0 <= k < now.len() implies exists|j: int|
            0 <= j < n && declarations[j] == #[trigger] now[k] by {
            if k < earlier.len() {
                let j = choose|j: int| 0 <= j < n - 1 && declarations[j] == earlier[k];
                assert(declarations[j] == now[k]);
            } else {
                assert(declarations[n - 1] == now[k]);
            }
        }
        if distinct_ids(declarations) {
            assert forall|i: int, j: int| 0 <= i < j < now.len() implies (#[trigger] now[i]).id != (
            #[trigger] now[j]).id by {
                if j < earlier.len() {
                    assert(now[i] == earlier[i]);
                    assert(now[j] == earlier[j]);
                } else {
                    let m = choose|m: int| 0 <= m < n - 1 && declarations[m] == earlier[i];
                    assert(now[i] == declarations[m]);
                    assert(now[j] == declarations[n - 1]);
                }
            }
        }
    }
}

/// Whether every one of the names is known.
pub open spec fn all_known(declarations: Seq<DeclarationView>, ids: Seq<Seq<char>>) -> bool {
    forall|k: int| 0 <= k < ids.len() ==> known(declarations, #[trigger] ids[k])
}

/// Names are all known exactly when those of each part are.
pub proof fn lemma_all_known_concat(
    declarations: Seq<DeclarationView>,
    left: Seq<Seq<char>>,
    right: Seq<Seq<char>>,
)
    ensures
        all_known(declarations, left + right) <==> all_known(declarations, left) && all_known(
            declarations,
            right,
        ),
{
    let both = left + right;
    if all_known(declarations, both) {
        assert forall|k: int| 0 <= k < left.len() implies known(declarations, #[trigger] left[k]) by {
            assert(both[k] == left[k]);
        }
        assert forall|k: int| 0 <= k < right.len() implies known(
            declarations,
            #[trigger] right[k],
        ) by {
            assert(both[left.len() + k] == right[k]);
        }
    }
    if all_known(declarations, left) && all_known(declarations, right) {
        assert forall|k: int| 0 <= k < both.len() implies known(declarations, #[trigger] both[k]) by {
            if k < left.len() {
                assert(both[k] == left[k]);
            } else {
                assert(both[k] == right[k - left.len()]);
            }
        }
    }
}

/// Nothing of the first `n` names is reported exactly when each of them is
/// known.
pub proof fn lemma_unknown_among_empty(
    declarations: Seq<DeclarationView>,
    ids: Seq<Seq<char>>,
    n: nat,
)
    requires
        n <= ids.len(),
    ensures
        unknown_among(declarations, ids, n).len() == 0 <==> all_known(declarations, ids.take(n as int)),
    decreases n,
{
    if n > 0 {
        lemma_unknown_among_empty(declarations, ids, (n - 1) as nat);
        let shorter = ids.take(n - 1);
        let longer = ids.take(n as int);
        assert(longer =~= shorter + seq![ids[n - 1]]);
        lemma_all_known_concat(declarations, shorter, seq![ids[n - 1]]);
        assert(seq![ids[n - 1]][0] == ids[n - 1]);
    }
}

/// If all the names of a list of expressions are known, so are those of each.
pub proof fn lemma_list_ids_known(
    declarations: Seq<DeclarationView>,
    exprs: Seq<ExprView>,
    n: nat,
    i: int,
)
    requires
        n <= exprs.len(),
        0 <= i < n,
        all_known(declarations, list_ids(exprs, n)),
    ensures
        all_known(declarations, expr_ids(exprs[i])),
    decreases n,
{
    lemma_all_known_concat(
        declarations,
        list_ids(exprs, (n - 1) as nat),
        expr_ids(exprs[n - 1]),
    );
    if i < n - 1 {
        lemma_list_ids_known(declarations, exprs, (n - 1) as nat, i);
    }
}

/// If each expression of a list has only known names, so has the list.
pub proof fn lemma_list_ids_known_back(
    declarations: Seq<DeclarationView>,
    exprs: Seq<ExprView>,
    n: nat,
)
    requires
        n <= exprs.len(),
        forall|i: int| 0 <= i < n ==> all_known(declarations, expr_ids(#[trigger] exprs[i])),
    ensures
        all_known(declarations, list_ids(exprs, n)),
    decreases n,
{
    if n > 0 {
        lemma_list_ids_known_back(declarations, exprs, (n - 1) as nat);
        lemma_all_known_concat(
            declarations,
            list_ids(exprs, (n - 1) as nat),
            expr_ids(exprs[n - 1]),
        );
    }
}

/// An expression resolves exactly when every name it refers to is known.
pub proof fn lemma_resolves_iff_known(declarations: Seq<DeclarationView>, expr: ExprView)
    ensures
        resolves(declarations, expr) <==> all_known(declarations, expr_ids(expr)),
    decreases expr,
{
    match expr {
        ExprView::ID(id) => {
            assert(expr_ids(expr)[0] == id);
        },
        ExprView::Call(f, args) => {
            lemma_resolves_iff_known(declarations, *f);
            lemma_all_known_concat(declarations, expr_ids(*f), list_ids(args, args.len()));
            assert forall|i: int| 0 <= i < args.len() implies (resolves(
                declarations,
                #[trigger] args[i],
            ) <==> all_known(declarations, expr_ids(args[i]))) by {
                lemma_resolves_iff_known(declarations, args[i]);
            }
            if all_known(declarations, list_ids(args, args.len())) {
                assert forall|i: int| 0 <= i < args.len() implies resolves(
                    declarations,
                    #[trigger] args[i],
                ) by {
                    lemma_list_ids_known(declarations, args, args.len(), i);
                }
            }
            if forall|i: int| 0 <= i < args.len() ==> resolves(declarations, #[trigger] args[i]) {
                lemma_list_ids_known_back(declarations, args, args.len());
            }
        },
        ExprView::Func(_, body) => {
            lemma_resolves_iff_known(declarations, *body);
        },
        _ => {},
    }
}

/// The names of the first `n` bodies are all known exactly when each of those
/// bodies resolves.
pub proof fn lemma_body_ids_known(declarations: Seq<DeclarationView>, n: nat)
    requires
        n <= declarations.len(),
    ensures
        all_known(declarations, body_ids(declarations, n)) <==> forall|i: int|
            0 <= i < n ==> resolves(declarations, (#[trigger] declarations[i]).expr),
    decreases n,
{
    if n > 0 {
        lemma_body_ids_known(declarations, (n - 1) as nat);
        lemma_all_known_concat(
            declarations,
            body_ids(declarations, (n - 1) as nat),
            expr_ids(declarations[n - 1].expr),
        );
        lemma_resolves_iff_known(declarations, declarations[n - 1].expr);
    }
}

/// A program is valid exactly when it declares the entrypoint and every body
/// resolves.
pub proof fn lemma_valid_program(declarations: Seq<DeclarationView>)
    ensures
        valid_program(declarations) <==> {
            &&& declares(declarations, entrypoint())
            &&& forall|i: int|
                0 <= i < declarations.len() ==> resolves(
                    declarations,
                    (#[trigger] declarations[i]).expr,
                )
        },
{
    let refs = ref_ids(declarations);
    let bodies = body_ids(declarations, declarations.len());
    lemma_unknown_among_empty(declarations, refs, refs.len());
    assert(refs.take(refs.len() as int) =~= refs);
    assert(refs =~= bodies + seq![entrypoint()]);
    lemma_all_known_concat(declarations, bodies, seq![entrypoint()]);
    lemma_body_ids_known(declarations, declarations.len());
    assert(seq![entrypoint()][0] == entrypoint());
    if declares(declarations, entrypoint()) {
        assert(all_known(declarations, seq![entrypoint()]));
    }
}

impl Expr {
    /// The qualified names that the expression refers to, from left to right.
    #[verifier::loop_isolation(false)]
    pub fn get_ids(&self) -> (ids: Vec<String>)
        ensures
            text::views(ids@) == expr_ids(self@),
        decreases self,
    {
        match self {
            Expr::ID(id) => {
                let mut ids: Vec<String> = Vec::new();
                ids.push(id.clone());
                assert(text::views(ids@) =~= expr_ids(self@));
                ids
            },
            Expr::Call(f, args) => {
                let mut ids = (&**f).get_ids();
                let ghost arguments = self@->Call_1;
                let mut i: usize = 0;
                while i < args.len()
                    invariant
                        i <= args.len(),
                        text::views(ids@) == expr_ids((**f)@) + list_ids(arguments, i as nat),
                    decreases args.len() - i,
                {
                    let ghost before = ids@;
                    let mut more = args[i].get_ids();
                    let ghost added = more@;
                    ids.append(&mut more);
                    proof {
                        assert(arguments[i as int] == args@[i as int]@);
                        assert(text::views(ids@) =~= text::views(before) + text::views(added));
                    }
                    i += 1;
                }
                ids
            },
            Expr::Func(_, body) => (&**body).get_ids(),
            Expr::Int(_) => Vec::new(),
            Expr::Name(_) => Vec::new(),
        }
    }

    /// Whether the expression mentions no locally bound name.
    #[verifier::loop_isolation(false)]
    pub fn is_nameless(&self) -> (b: bool)
        ensures
            b == nameless(self@),
        decreases self,
    {
        match self {
            Expr::Name(_) => false,
            Expr::Call(f, args) => {
                if !(&**f).is_nameless() {
                    return false;
                }
                let ghost arguments = self@->Call_1;
                let mut i: usize = 0;
                while i < args.len()
                    invariant
                        i <= args.len(),
                        forall|k: int| 0 <= k < i ==> nameless(#[trigger] arguments[k]),
                    decreases args.len() - i,
                {
                    assert(arguments[i as int] == args@[i as int]@);
                    if !args[i].is_nameless() {
                        return false;
                    }
                    i += 1;
                }
                true
            },
            Expr::Func(_, body) => (&**body).is_nameless(),
            Expr::Int(_) => true,
            Expr::ID(_) => true,
        }
    }
}

/// Whether one of the strings equals `s`.
pub fn contains_string(strings: &Vec<String>, s: &String) -> (b: bool)
    ensures
        b == text::views(strings@).contains(s@),
{
    let mut i: usize = 0;
    while i < strings.len()
        invariant
            i <= strings.len(),
            forall|k: int| 0 <= k < i ==> strings@[k]@ != s@,
        decreases strings.len() - i,
    {
        if strings[i] == *s {
            assert(text::views(strings@)[i as int] == s@);
            return true;
        }
        i += 1;
    }
    assert forall|k: int| 0 <= k < text::views(strings@).len() implies text::views(strings@)[k]
        != s@ by {
        assert(text::views(strings@)[k] == strings@[k]@);
    }
    false
}

/// The tree of a whole program: its declarations, no two under one name, in the
/// order in which their names were first bound.
#[derive(Debug, PartialEq)]
pub struct AST {
    declarations: Vec<Declaration>,
}

impl View for AST {
    type V = Seq<DeclarationView>;

    closed spec fn view(&self) -> Seq<DeclarationView> {
        declaration_views(self.declarations@)
    }
}

impl Clone for AST {
    fn clone(&self) -> (copy: Self)
        ensures
            copy@ == self@,
    {
        let mut declarations: Vec<Declaration> = Vec::new();
        let mut i: usize = 0;
        while i < self.declarations.len()
            invariant
                i <= self.declarations.len(),
                declarations@.len() == i,
                forall|k: int| 0 <= k < i ==> declarations@[k]@ == self.declarations@[k]@,
            decreases self.declarations.len() - i,
        {
            declarations.push(self.declarations[i].clone());
            i += 1;
        }
        let copy = AST { declarations };
        assert(copy@ =~= self@);
        copy
    }
}

impl Default for AST {
    fn default() -> (ast: Self)
        ensures
            ast@ == Seq::<DeclarationView>::empty(),
            ast.wf(),
    {
        AST::new()
    }
}

impl AST {
    /// Whether the tree is well formed: no two declarations share a name.
    pub open spec fn wf(&self) -> bool {
        distinct_ids(self@)
    }

    /// The tree without declarations.
    pub fn new() -> (ast: Self)
        ensures
            ast@ == Seq::<DeclarationView>::empty(),
            ast.wf(),
    {
        let declarations: Vec<Declaration> = Vec::new();
        assert(declaration_views(declarations@) =~= Seq::<DeclarationView>::empty());
        AST { declarations }
    }

    /// The number of declarations.
    pub fn len(&self) -> (n: usize)
        ensures
            n == self@.len(),
    {
        self.declarations.len()
    }

    fn position(&self, id: &String) -> (found: Option<usize>)
        ensures
            found is Some <==> declares(self@, id@),
            found matches Some(i) ==> i == index_of(self@, id@),
    {
        let mut i: usize = 0;
        while i < self.declarations.len()
            invariant
                i <= self.declarations.len(),
                forall|k: int| 0 <= k < i ==> self@[k].id != id@,
            decreases self.declarations.len() - i,
        {
            if self.declarations[i].id == *id {
                proof {
                    lemma_index_of_is(self@, id@, i as int);
                }
                return Some(i);
            }
            i += 1;
        }
        proof {
            lemma_index_of_is(self@, id@, i as int);
        }
        None
    }

    /// Binds the declaration under its name: in the place of the declaration that
    /// bore the name before, or at the end if none did.
    pub fn insert(&mut self, declaration: Declaration)
        requires
            old(self).wf(),
        ensures
            final(self)@ == inserted(old(self)@, declaration@),
            final(self).wf(),
    {
        proof {
            lemma_inserted_distinct(self@, declaration@);
            lemma_index_of(self@, declaration.id@);
        }
        let ghost before = self@;
        match self.position(&declaration.id) {
            Some(i) => {
                self.declarations.set(i, declaration);
                assert(self@ =~= inserted(before, declaration@));
            },
            None => {
                self.declarations.push(declaration);
                assert(self@ =~= inserted(before, declaration@));
            },
        }
    }

    /// Builds the tree of a parse and checks it: the nodes up to the first
    /// end-of-input marker are the declarations, and only a valid tree is
    /// returned.
    pub fn try_from(pairs: &Vec<Node>) -> (outcome: Result<Self, String>)
        requires
            tree_shaped(node_views(pairs@)),
        ensures
            outcome is Ok <==> valid_program(declared_by(node_views(pairs@))),
            outcome matches Ok(ast) ==> ast@ == declared_by(node_views(pairs@)) && ast.wf(),
            outcome matches Err(error) ==> error@ == report(declared_by(node_views(pairs@))),
    {
        let ghost nodes = node_views(pairs@);
        let mut ast = AST::new();
        let mut i: usize = 0;
        while i < pairs.len() && crate::parser::is_not_eoi(&pairs[i])
            invariant
                i <= pairs.len(),
                nodes == node_views(pairs@),
                tree_shaped(nodes),
                forall|k: int| 0 <= k < i ==> nodes[k].rule != Rule::Eoi,
                ast@ == collected(nodes, i as nat),
                ast.wf(),
            decreases pairs.len() - i,
        {
            proof {
                lemma_leading_at_least(nodes, i as int + 1);
                lemma_node_view(pairs@[i as int]);
                assert(decl_shaped(nodes[i as int].children));
            }
            ast.insert(Declaration::from(&pairs[i].children));
            i += 1;
        }
        proof {
            lemma_leading_is(nodes, i as int);
        }
        ast.valid()
    }

    /// The declarations in the order of emission: the entrypoint first, then the
    /// others in the order in which their names were first bound.
    pub fn get_declarations(&self) -> (list: Vec<Declaration>)
        requires
            declares(self@, entrypoint()),
        ensures
            declaration_views(list@) == entrypoint_first(self@),
    {
        let main = String::from_str("main");
        let at = self.position(&main).unwrap();
        let mut list: Vec<Declaration> = Vec::new();
        list.push(self.declarations[at].clone());
        let mut i: usize = 0;
        assert(declaration_views(list@) =~= seq![declaration_named(self@, entrypoint())]
            + without_entrypoint(self@.take(0)));
        while i < self.declarations.len()
            invariant
                i <= self.declarations.len(),
                main@ == entrypoint(),
                declaration_views(list@) == seq![declaration_named(self@, entrypoint())]
                    + without_entrypoint(self@.take(i as int)),
            decreases self.declarations.len() - i,
        {
            let ghost before = declaration_views(list@);
            proof {
                let next = self@.take(i + 1);
                assert(next.drop_last() =~= self@.take(i as int));
                assert(next.last() == self@[i as int]);
            }
            if !(self.declarations[i].id == main) {
                list.push(self.declarations[i].clone());
                assert(declaration_views(list@) =~= before.push(self@[i as int]));
            }
            i += 1;
        }
        proof {
            assert(self@.take(i as int) =~= self@);
        }
        list
    }

    /// The declaration named `id`.
    pub fn get_declaration(&self, id: &String) -> (declaration: Declaration)
        requires
            declares(self@, id@),
        ensures
            declaration@ == declaration_named(self@, id@),
    {
        let at = self.position(id).unwrap();
        self.declarations[at].clone()
    }

    /// The tree without the declarations that nothing refers to; the entrypoint
    /// stays.
    pub fn without_unused_declarations(self) -> (ast: Self)
        requires
            self.wf(),
        ensures
            ast@ == used_declarations(self@),
            ast.wf(),
    {
        let referenced = self.get_ref_ids();
        let mut kept: Vec<Declaration> = Vec::new();
        let mut i: usize = 0;
        assert(declaration_views(kept@) =~= referenced_among(self@, ref_ids(self@), 0));
        while i < self.declarations.len()
            invariant
                i <= self.declarations.len(),
                text::views(referenced@) == ref_ids(self@),
                declaration_views(kept@) == referenced_among(self@, ref_ids(self@), i as nat),
            decreases self.declarations.len() - i,
        {
            let ghost before = declaration_views(kept@);
            if contains_string(&referenced, &self.declarations[i].id) {
                kept.push(self.declarations[i].clone());
                assert(declaration_views(kept@) =~= before.push(self@[i as int]));
            }
            i += 1;
        }
        proof {
            lemma_referenced_among(self@, ref_ids(self@), self@.len());
        }
        AST { declarations: kept }
    }

    /// Every name that must resolve: those that the bodies refer to, declaration
    /// by declaration, and the entrypoint.
    pub fn get_ref_ids(&self) -> (ids: Vec<String>)
        ensures
            text::views(ids@) == ref_ids(self@),
    {
        let mut ids: Vec<String> = Vec::new();
        let mut i: usize = 0;
        assert(text::views(ids@) =~= body_ids(self@, 0));
        while i < self.declarations.len()
            invariant
                i <= self.declarations.len(),
                text::views(ids@) == body_ids(self@, i as nat),
            decreases self.declarations.len() - i,
        {
            let ghost before = ids@;
            let mut more = self.declarations[i].expr.get_ids();
            let ghost added = more@;
            ids.append(&mut more);
            proof {
                assert(text::views(ids@) =~= text::views(before) + text::views(added));
            }
            i += 1;
        }
        let ghost before = ids@;
        ids.push(String::from_str("main"));
        assert(text::views(ids@) =~= text::views(before).push(entrypoint()));
        ids
    }

    /// The names that are known: those of the declarations and those of the
    /// standard library.
    pub fn get_known_ids(&self) -> (ids: Vec<String>)
        ensures
            forall|id: Seq<char>| text::views(ids@).contains(id) <==> #[trigger] known(self@, id),
    {
        let mut ids: Vec<String> = Vec::new();
        let mut i: usize = 0;
        while i < self.declarations.len()
            invariant
                i <= self.declarations.len(),
                ids@.len() == i,
                forall|k: int| 0 <= k < i ==> ids@[k]@ == self@[k].id,
            decreases self.declarations.len() - i,
        {
            ids.push(self.declarations[i].id.clone());
            i += 1;
        }
        let ghost declared = text::views(ids@);
        let mut names = stdlib::index().keys();
        let ghost standard = text::views(names@);
        ids.append(&mut names);
        proof {
            let all = text::views(ids@);
            assert(all =~= declared + standard);
            assert forall|id: Seq<char>| all.contains(id) <==> #[trigger] known(self@, id) by {
                lemma_index_of(self@, id);
                if all.contains(id) {
                    let k = choose|k: int| 0 <= k < all.len() && all[k] == id;
                    if k < declared.len() {
                        assert(self@[k].id == id);
                        if !declares(self@, id) {
                            lemma_index_of_is(self@, id, self@.len() as int);
                        }
                    } else {
                        assert(standard[k - declared.len()] == id);
                        assert(standard.contains(id));
                    }
                }
                if declares(self@, id) {
                    assert(all[index_of(self@, id)] == id);
                }
                if stdlib::registry().contains_key(id) {
                    assert(standard.contains(id));
                    let k = choose|k: int| 0 <= k < standard.len() && standard[k] == id;
                    assert(all[declared.len() + k] == id);
                }
            }
        }
        ids
    }

    /// The names that the program refers to and that are not known, each once, in
    /// the order in which they first occur.
    pub fn get_undef_ids(&self) -> (ids: Vec<String>)
        ensures
            text::views(ids@) == undef_ids(self@),
    {
        let refs = self.get_ref_ids();
        let known_ids = self.get_known_ids();
        let mut ids: Vec<String> = Vec::new();
        let mut i: usize = 0;
        assert(text::views(ids@) =~= unknown_among(self@, ref_ids(self@), 0));
        while i < refs.len()
            invariant
                i <= refs.len(),
                forall|id: Seq<char>|
                    text::views(known_ids@).contains(id) <==> #[trigger] known(self@, id),
                text::views(refs@) == ref_ids(self@),
                text::views(ids@) == unknown_among(self@, ref_ids(self@), i as nat),
            decreases refs.len() - i,
        {
            let ghost before = ids@;
            assert(ref_ids(self@)[i as int] == refs@[i as int]@);
            if !contains_string(&known_ids, &refs[i]) && !contains_string(&ids, &refs[i]) {
                ids.push(refs[i].clone());
                assert(text::views(ids@) =~= text::views(before).push(refs@[i as int]@));
            }
            i += 1;
        }
        ids
    }

    /// Checks that every name the program refers to is known.
    pub fn check_undef_ids(&self) -> (outcome: Result<(), String>)
        ensures
            outcome is Ok <==> undef_ids(self@).len() == 0,
            outcome matches Err(error) ==> error@ == "Unknown references found: "@ + text::joined(
                undef_ids(self@),
                ", "@,
            ),
    {
        let diff = self.get_undef_ids();
        if diff.len() == 0 {
            Ok(())
        } else {
            let mut message = String::from_str("Unknown references found: ");
            let list = text::join(&diff, ", ");
            message.append(list.as_str());
            Err(message)
        }
    }

    /// Checks that the program declares the entrypoint.
    pub fn check_entrypoint_present(&self) -> (outcome: Result<(), String>)
        ensures
            outcome is Ok <==> declares(self@, entrypoint()),
            outcome matches Err(error) ==> error@ == "Missing entrypoint: "@ + entrypoint(),
    {
        let main = String::from_str("main");
        match self.position(&main) {
            None => {
                let mut message = String::from_str("Missing entrypoint: ");
                message.append("main");
                Err(message)
            },
            _ => Ok(()),
        }
    }

    /// Whether no body of the program mentions a locally bound name.
    pub fn is_nameless(&self) -> (b: bool)
        ensures
            b == nameless_program(self@),
    {
        let mut i: usize = 0;
        while i < self.declarations.len()
            invariant
                i <= self.declarations.len(),
                forall|k: int| 0 <= k < i ==> nameless((#[trigger] self@[k]).expr),
            decreases self.declarations.len() - i,
        {
            if !self.declarations[i].expr.is_nameless() {
                assert(!nameless(self@[i as int].expr));
                return false;
            }
            i += 1;
        }
        true
    }
}

impl Valid for AST {
    type Error = String;

    open spec fn sound(&self) -> bool {
        valid_program(self@)
    }

    open spec fn fault(&self, error: String) -> bool {
        error@ == report(self@)
    }

    fn validate(&self) -> (outcome: Result<(), String>) {
        match self.check_entrypoint_present() {
            Err(error) => Err(error),
            Ok(_) => match self.check_undef_ids() {
                Err(error) => Err(error),
                Ok(_) => Ok(()),
            },
        }
    }
}

} // verus!
