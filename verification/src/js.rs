//! The script backend: the tree rendered as curried source text in a scripting
//! language, by way of a small model of that language's syntax.

use crate::ast::{
    declaration_views, declares, entrypoint, entrypoint_first, Declaration, DeclarationView, Expr,
    ExprView, AST,
};
use crate::text;
use vstd::prelude::*;

verus! {

/// A piece of script syntax.
#[derive(Debug, PartialEq)]
pub enum JS {
    /// `left = body;`
    Assign(String, Box<Self>),
    /// `f (x) (y) (z)`
    Call(Box<Self>, Vec<Self>),
    /// A keyword before an expression, as in `return x`.
    Kw(String, Box<Self>),
    /// `function name(x, y, z) { body }`
    Function(String, Vec<String>, Box<Self>),
    /// `x => y => z => body`
    Func(Vec<String>, Box<Self>),
    /// `{ a; list; of; statements; }`
    Proc(Vec<Self>),
    /// `{x: 1,y: "hello"}`, the fields in the order given.
    Object(Vec<(String, Self)>),
    /// `x`
    Name(String),
    /// `"hello"`
    Str(String),
    /// `-42`
    Int(i32),
}

/// A piece of script syntax as a mathematical value.
pub enum JSView {
    Assign(Seq<char>, Box<JSView>),
    Call(Box<JSView>, Seq<JSView>),
    Kw(Seq<char>, Box<JSView>),
    Function(Seq<char>, Seq<Seq<char>>, Box<JSView>),
    Func(Seq<Seq<char>>, Box<JSView>),
    Proc(Seq<JSView>),
    Object(Seq<(Seq<char>, JSView)>),
    Name(Seq<char>),
    Str(Seq<char>),
    Int(i32),
}

/// The mathematical value of a piece of syntax.
pub open spec fn js_view(js: JS) -> JSView
    decreases js,
{
    match js {
        JS::Assign(left, body) => JSView::Assign(left@, Box::new(js_view(*body))),
        JS::Call(f, args) => JSView::Call(
            Box::new(js_view(*f)),
            Seq::new(
                args@.len(),
                |i: int|
                    if 0 <= i < args@.len() {
                        js_view(args@[i])
                    } else {
                        arbitrary()
                    },
            ),
        ),
        JS::Kw(kw, body) => JSView::Kw(kw@, Box::new(js_view(*body))),
        JS::Function(name, params, body) => JSView::Function(
            name@,
            text::views(params@),
            Box::new(js_view(*body)),
        ),
        JS::Func(params, body) => JSView::Func(text::views(params@), Box::new(js_view(*body))),
        JS::Proc(statements) => JSView::Proc(
            Seq::new(
                statements@.len(),
                |i: int|
                    if 0 <= i < statements@.len() {
                        js_view(statements@[i])
                    } else {
                        arbitrary()
                    },
            ),
        ),
        JS::Object(fields) => JSView::Object(
            Seq::new(
                fields@.len(),
                |i: int|
                    if 0 <= i < fields@.len() {
                        (fields@[i].0@, js_view(fields@[i].1))
                    } else {
                        arbitrary()
                    },
            ),
        ),
        JS::Name(name) => JSView::Name(name@),
        JS::Str(s) => JSView::Str(s@),
        JS::Int(i) => JSView::Int(i),
    }
}

impl View for JS {
    type V = JSView;

    open spec fn view(&self) -> JSView {
        js_view(*self)
    }
}

/// The views of a run of pieces.
pub open spec fn js_views(pieces: Seq<JS>) -> Seq<JSView> {
    Seq::new(pieces.len(), |i: int| pieces[i]@)
}

/// Whether the piece can be rendered: the body of every `Function` in it is a
/// `Proc`.
pub open spec fn renderable(js: JSView) -> bool
    decreases js,
{
    match js {
        JSView::Assign(_, body) => renderable(*body),
        JSView::Call(f, args) => {
            &&& renderable(*f)
            &&& forall|i: int| 0 <= i < args.len() ==> renderable(#[trigger] args[i])
        },
        JSView::Kw(_, body) => renderable(*body),
        JSView::Function(_, _, body) => *body is Proc && renderable(*body),
        JSView::Func(_, body) => renderable(*body),
        JSView::Proc(statements) => forall|i: int|
            0 <= i < statements.len() ==> renderable(#[trigger] statements[i]),
        JSView::Object(fields) => forall|i: int|
            0 <= i < fields.len() ==> renderable((#[trigger] fields[i]).1),
        _ => true,
    }
}

/// The text of a piece of syntax.
pub open spec fn rendered(js: JSView) -> Seq<char>
    decreases js, 0nat,
{
    match js {
        JSView::Call(f, args) => bracketed(*f) + " "@ + (if args.len() == 0 {
            "()"@
        } else {
            text::joined(rendered_arguments(args, args.len()), " "@)
        }),
        JSView::Func(params, body) => text::joined(params, " => "@) + " => "@ + rendered(*body),
        JSView::Name(name) => name,
        JSView::Int(i) => text::decimal(i as int),
        JSView::Assign(left, body) => left + " = "@ + rendered(*body) + ";"@,
        JSView::Kw(kw, body) => kw + " "@ + rendered(*body),
        JSView::Function(name, params, body) => "function "@ + name + "("@ + text::joined(
            params,
            ", "@,
        ) + ") "@ + rendered(*body),
        JSView::Proc(statements) => "{ "@ + text::joined(
            rendered_each(statements, statements.len()),
            " "@,
        ) + " }"@,
        JSView::Object(fields) => "{"@ + text::joined(rendered_fields(fields, fields.len()), ","@)
            + "}"@,
        JSView::Str(s) => "\""@ + s + "\""@,
    }
}

/// The text of the head of a call: a lambda goes in parentheses, anything else
/// stands as it is.
pub open spec fn bracketed(js: JSView) -> Seq<char>
    decreases js, 1nat,
{
    if js is Func {
        "("@ + rendered(js) + ")"@
    } else {
        rendered(js)
    }
}

/// The texts of the first `n` pieces.
pub open spec fn rendered_each(pieces: Seq<JSView>, n: nat) -> Seq<Seq<char>>
    decreases pieces, n,
{
    if n == 0 || n > pieces.len() {
        Seq::empty()
    } else {
        rendered_each(pieces, (n - 1) as nat).push(rendered(pieces[n - 1]))
    }
}

/// The texts of the first `n` arguments of a call, each in parentheses.
pub open spec fn rendered_arguments(pieces: Seq<JSView>, n: nat) -> Seq<Seq<char>>
    decreases pieces, n,
{
    if n == 0 || n > pieces.len() {
        Seq::empty()
    } else {
        rendered_arguments(pieces, (n - 1) as nat).push("("@ + rendered(pieces[n - 1]) + ")"@)
    }
}

/// The texts of the first `n` fields of an object: the key, a colon and the
/// value.
pub open spec fn rendered_fields(fields: Seq<(Seq<char>, JSView)>, n: nat) -> Seq<Seq<char>>
    decreases fields, n,
{
    if n == 0 || n > fields.len() {
        Seq::empty()
    } else {
        rendered_fields(fields, (n - 1) as nat).push(
            fields[n - 1].0 + ": "@ + rendered(fields[n - 1].1),
        )
    }
}

/// The piece of syntax that an expression is written as: a literal as itself, a
/// name of either kind as an identifier, a call as a call, a lambda as a
/// lambda.
pub open spec fn script_of(expr: ExprView) -> JSView
    decreases expr,
{
    match expr {
        ExprView::Int(i) => JSView::Int(i),
        ExprView::Name(name) => JSView::Name(name),
        ExprView::ID(name) => JSView::Name(name),
        ExprView::Call(f, args) => JSView::Call(
            Box::new(script_of(*f)),
            Seq::new(
                args.len(),
                |i: int|
                    if 0 <= i < args.len() {
                        script_of(args[i])
                    } else {
                        arbitrary()
                    },
            ),
        ),
        ExprView::Func(params, body) => JSView::Func(params, Box::new(script_of(*body))),
    }
}

/// The statement that a declaration is written as: a constant of its name,
/// bound to its body.
pub open spec fn statement_of(declaration: DeclarationView) -> JSView {
    JSView::Assign("const "@ + declaration.id, Box::new(script_of(declaration.expr)))
}

/// The statements of a program: one for each declaration, the entrypoint first.
pub open spec fn statements_of(declarations: Seq<DeclarationView>) -> Seq<JSView> {
    Seq::new(
        entrypoint_first(declarations).len(),
        |i: int| statement_of(entrypoint_first(declarations)[i]),
    )
}

/// The line that opens every script: it brings in the standard library.
pub open spec fn prelude() -> Seq<char> {
    "const std = require(\"./std\");"@
}

/// The line that closes every script: it evaluates the entrypoint.
pub open spec fn trailer() -> Seq<char> {
    "main();"@
}

/// The text of a script: the prelude, the statements and the trailer, with a
/// blank line between each two.
pub open spec fn script(statements: Seq<JSView>) -> Seq<char> {
    text::joined(
        seq![prelude()] + rendered_each(statements, statements.len()) + seq![trailer()],
        "\n\n"@,
    )
}

/// What an expression is written as can be rendered.
pub proof fn lemma_script_renderable(expr: ExprView)
    ensures
        renderable(script_of(expr)),
    decreases expr,
{
    match expr {
        ExprView::Call(f, args) => {
            lemma_script_renderable(*f);
            let written = script_of(expr)->Call_1;
            assert forall|i: int| 0 <= i < written.len() implies renderable(
                #[trigger] written[i],
            ) by {
                lemma_script_renderable(args[i]);
            }
        },
        ExprView::Func(_, body) => {
            lemma_script_renderable(*body);
        },
        _ => {},
    }
}

/// Every statement of a program can be rendered.
pub proof fn lemma_statements_renderable(declarations: Seq<DeclarationView>)
    ensures
        forall|i: int|
            0 <= i < statements_of(declarations).len() ==> renderable(
                #[trigger] statements_of(declarations)[i],
            ),
{
    assert forall|i: int| 0 <= i < statements_of(declarations).len() implies renderable(
        #[trigger] statements_of(declarations)[i],
    ) by {
        lemma_script_renderable(entrypoint_first(declarations)[i].expr);
    }
}

/// The call of `require` on a path.
pub fn require(path: &str) -> (js: JS)
    ensures
        js@ == JSView::Call(Box::new(JSView::Name("require"@)), seq![JSView::Str(path@)]),
{
    let mut args: Vec<JS> = Vec::new();
    args.push(JS::Str(String::from_str(path)));
    assert(args@[0]@ == JSView::Str(path@));
    let head = JS::Name(String::from_str("require"));
    assert(head@ == JSView::Name("require"@));
    let js = JS::Call(Box::new(head), args);
    assert(js@->Call_1 =~= seq![JSView::Str(path@)]);
    js
}

/// The lambda without its first parameter: the body itself if that was the only
/// one, and the lambda of the other parameters otherwise.
pub fn reduce_func(ps: Vec<String>, expr: Expr) -> (reduced: Expr)
    requires
        ps@.len() >= 1,
    ensures
        reduced@ == if ps@.len() == 1 {
            expr@
        } else {
            ExprView::Func(text::views(ps@).skip(1), Box::new(expr@))
        },
{
    if ps.len() == 1 {
        expr
    } else {
        let mut rest: Vec<String> = Vec::new();
        let mut i: usize = 1;
        while i < ps.len()
            invariant
                1 <= i <= ps.len(),
                rest@.len() == i - 1,
                forall|k: int| 0 <= k < i - 1 ==> rest@[k]@ == ps@[k + 1]@,
            decreases ps.len() - i,
        {
            rest.push(ps[i].clone());
            i += 1;
        }
        let reduced = Expr::Func(Box::new(rest), Box::new(expr));
        assert(reduced@->Func_0 =~= text::views(ps@).skip(1));
        reduced
    }
}

impl JS {
    /// The piece bound to a constant of the given name.
    pub fn constt(self, name: &str) -> (js: Self)
        ensures
            js@ == JSView::Assign("const "@ + name@, Box::new(self@)),
    {
        let mut left = String::from_str("const ");
        left.append(name);
        JS::Assign(left, Box::new(self))
    }

    /// The piece bound to a member of `this`.
    pub fn this(self, name: &str) -> (js: Self)
        ensures
            js@ == JSView::Assign("this."@ + name@, Box::new(self@)),
    {
        let mut left = String::from_str("this.");
        left.append(name);
        JS::Assign(left, Box::new(self))
    }

    /// The piece bound to the module's exports.
    pub fn exports(self) -> (js: Self)
        ensures
            js@ == JSView::Assign("module.exports"@, Box::new(self@)),
    {
        JS::Assign(String::from_str("module.exports"), Box::new(self))
    }

    /// The construction of an object of the named class, without arguments.
    pub fn new(name: &str, args: Vec<Self>) -> (js: Self)
        ensures
            js@ == JSView::Kw(
                "new"@,
                Box::new(JSView::Call(Box::new(JSView::Name(name@)), Seq::empty())),
            ),
    {
        let call = Self::name(name).call(Vec::new());
        assert(call@->Call_1 =~= Seq::<JSView>::empty());
        JS::Kw(String::from_str("new"), Box::new(call))
    }

    /// The piece as the value that a routine returns.
    pub fn returning(self) -> (js: Self)
        ensures
            js@ == JSView::Kw("return"@, Box::new(self@)),
    {
        JS::Kw(String::from_str("return"), Box::new(self))
    }

    /// The piece applied to the arguments.
    pub fn call(self, args: Vec<Self>) -> (js: Self)
        ensures
            js@ == JSView::Call(Box::new(self@), js_views(args@)),
    {
        let js = JS::Call(Box::new(self), args);
        assert(js@->Call_1 =~= js_views(args@));
        js
    }

    /// An identifier.
    pub fn name(name: &str) -> (js: Self)
        ensures
            js@ == JSView::Name(name@),
    {
        JS::Name(String::from_str(name))
    }

    /// The piece as the body of a named function of the given parameters.
    pub fn function(self, name: &str, params: Vec<&str>) -> (js: Self)
        ensures
            js@ == JSView::Function(
                name@,
                Seq::new(params@.len(), |i: int| params@[i]@),
                Box::new(self@),
            ),
    {
        let mut owned: Vec<String> = Vec::new();
        let mut i: usize = 0;
        while i < params.len()
            invariant
                i <= params.len(),
                owned@.len() == i,
                forall|k: int| 0 <= k < i ==> owned@[k]@ == params@[k]@,
            decreases params.len() - i,
        {
            owned.push(String::from_str(params[i]));
            i += 1;
        }
        let js = JS::Function(String::from_str(name), owned, Box::new(self));
        assert(js@->Function_1 =~= Seq::new(params@.len(), |i: int| params@[i]@));
        js
    }

    /// A string literal.
    pub fn str(s: &str) -> (js: Self)
        ensures
            js@ == JSView::Str(s@),
    {
        JS::Str(String::from_str(s))
    }

    /// The piece of syntax that an expression is written as.
    #[verifier::loop_isolation(false)]
    pub fn from_expr(expr: &Expr) -> (js: Self)
        ensures
            js@ == script_of(expr@),
        decreases expr,
    {
        match expr {
            Expr::Int(i) => JS::Int(*i),
            Expr::Name(name) => JS::Name(name.clone()),
            Expr::ID(name) => JS::Name(name.clone()),
            Expr::Call(f, args) => {
                let head = Self::from_expr(&**f);
                let ghost arguments = expr@->Call_1;
                let mut written: Vec<JS> = Vec::new();
                let mut i: usize = 0;
                while i < args.len()
                    invariant
                        i <= args.len(),
                        written@.len() == i,
                        forall|k: int| 0 <= k < i ==> written@[k]@ == script_of(arguments[k]),
                    decreases args.len() - i,
                {
                    assert(arguments[i as int] == args@[i as int]@);
                    written.push(Self::from_expr(&args[i]));
                    i += 1;
                }
                let js = JS::Call(Box::new(head), written);
                assert(js@->Call_1 =~= script_of(expr@)->Call_1);
                js
            },
            Expr::Func(params, body) => {
                let js = JS::Func(
                    crate::ast::clone_strings(params),
                    Box::new(Self::from_expr(&**body)),
                );
                js
            },
        }
    }

    /// The statement that a declaration is written as.
    pub fn from_declaration(decl: &Declaration) -> (js: Self)
        ensures
            js@ == statement_of(decl@),
    {
        Self::from_expr(&decl.expr).constt(decl.id.as_str())
    }

    /// The block that a list of declarations is written as.
    pub fn from_declarations(decls: &Vec<Declaration>) -> (js: Self)
        ensures
            js@ == JSView::Proc(
                Seq::new(decls@.len(), |i: int| statement_of(decls@[i]@)),
            ),
    {
        let mut statements: Vec<JS> = Vec::new();
        let mut i: usize = 0;
        while i < decls.len()
            invariant
                i <= decls.len(),
                statements@.len() == i,
                forall|k: int| 0 <= k < i ==> statements@[k]@ == statement_of(decls@[k]@),
            decreases decls.len() - i,
        {
            statements.push(Self::from_declaration(&decls[i]));
            i += 1;
        }
        let js = JS::Proc(statements);
        assert(js@->Proc_0 =~= Seq::new(decls@.len(), |i: int| statement_of(decls@[i]@)));
        js
    }

    /// The text of the piece.
    #[verifier::loop_isolation(false)]
    pub fn render(&self) -> (s: String)
        requires
            renderable(self@),
        ensures
            s@ == rendered(self@),
        decreases self, 0nat,
    {
        match self {
            JS::Call(f, args) => {
                let ghost arguments = self@->Call_1;
                let mut parts: Vec<String> = Vec::new();
                let mut i: usize = 0;
                assert(text::views(parts@) =~= rendered_arguments(arguments, 0));
                while i < args.len()
                    invariant
                        i <= args.len(),
                        text::views(parts@) == rendered_arguments(arguments, i as nat),
                    decreases args.len() - i,
                {
                    assert(arguments[i as int] == args@[i as int]@);
                    let inner = args[i].render();
                    let mut part = String::from_str("(");
                    part.append(inner.as_str());
                    part.append(")");
                    let ghost before = parts@;
                    parts.push(part);
                    assert(text::views(parts@) =~= text::views(before).push(part@));
                    i += 1;
                }
                let fargs = if parts.len() == 0 {
                    String::from_str("()")
                } else {
                    text::join(&parts, " ")
                };
                let mut s = (&**f).bracketed_func();
                s.append(" ");
                s.append(fargs.as_str());
                s
            },
            JS::Func(params, body) => {
                let mut s = text::join(params, " => ");
                s.append(" => ");
                let inner = (&**body).render();
                s.append(inner.as_str());
                s
            },
            JS::Name(name) => name.clone(),
            JS::Int(i) => text::integer_to_string(*i),
            JS::Assign(left, body) => {
                let mut s = left.clone();
                s.append(" = ");
                let inner = (&**body).render();
                s.append(inner.as_str());
                s.append(";");
                s
            },
            JS::Kw(kw, body) => {
                let mut s = kw.clone();
                s.append(" ");
                let inner = (&**body).render();
                s.append(inner.as_str());
                s
            },
            JS::Function(name, params, body) => {
                let mut s = String::from_str("function ");
                s.append(name.as_str());
                s.append("(");
                let list = text::join(params, ", ");
                s.append(list.as_str());
                s.append(") ");
                let inner = (&**body).render();
                s.append(inner.as_str());
                s
            },
            JS::Proc(statements) => {
                let ghost pieces = self@->Proc_0;
                let mut parts: Vec<String> = Vec::new();
                let mut i: usize = 0;
                assert(text::views(parts@) =~= rendered_each(pieces, 0));
                while i < statements.len()
                    invariant
                        i <= statements.len(),
                        text::views(parts@) == rendered_each(pieces, i as nat),
                    decreases statements.len() - i,
                {
                    assert(pieces[i as int] == statements@[i as int]@);
                    let part = statements[i].render();
                    let ghost before = parts@;
                    parts.push(part);
                    assert(text::views(parts@) =~= text::views(before).push(part@));
                    i += 1;
                }
                let mut s = String::from_str("{ ");
                let list = text::join(&parts, " ");
                s.append(list.as_str());
                s.append(" }");
                s
            },
            JS::Object(fields) => {
                let ghost pieces = self@->Object_0;
                let mut parts: Vec<String> = Vec::new();
                let mut i: usize = 0;
                assert(text::views(parts@) =~= rendered_fields(pieces, 0));
                while i < fields.len()
                    invariant
                        i <= fields.len(),
                        text::views(parts@) == rendered_fields(pieces, i as nat),
                    decreases fields.len() - i,
                {
                    assert(pieces[i as int] == (fields@[i as int].0@, fields@[i as int].1@));
                    let mut part = fields[i].0.clone();
                    part.append(": ");
                    let inner = fields[i].1.render();
                    part.append(inner.as_str());
                    let ghost before = parts@;
                    parts.push(part);
                    assert(text::views(parts@) =~= text::views(before).push(part@));
                    i += 1;
                }
                let mut s = String::from_str("{");
                let list = text::join(&parts, ",");
                s.append(list.as_str());
                s.append("}");
                s
            },
            JS::Str(text) => {
                let mut s = String::from_str("\"");
                s.append(text.as_str());
                s.append("\"");
                s
            },
        }
    }

    /// The text of the head of a call: a lambda goes in parentheses.
    pub fn bracketed_func(&self) -> (s: String)
        requires
            renderable(self@),
        ensures
            s@ == bracketed(self@),
        decreases self, 1nat,
    {
        match self {
            JS::Func(_, _) => {
                let inner = self.render();
                let mut s = String::from_str("(");
                s.append(inner.as_str());
                s.append(")");
                s
            },
            _ => self.render(),
        }
    }
}

/// A script: the statements of a program, in the order of emission.
#[derive(Debug, PartialEq)]
pub struct Program(pub Vec<JS>);

impl View for Program {
    type V = Seq<JSView>;

    open spec fn view(&self) -> Seq<JSView> {
        js_views(self.0@)
    }
}

impl Program {
    /// The script of a tree: one statement for each declaration, the entrypoint
    /// first.
    pub fn from(ast: AST) -> (program: Self)
        requires
            declares(ast@, entrypoint()),
        ensures
            program@ == statements_of(ast@),
    {
        let declarations = ast.get_declarations();
        let mut module: Vec<JS> = Vec::new();
        let mut i: usize = 0;
        while i < declarations.len()
            invariant
                i <= declarations.len(),
                declaration_views(declarations@) == entrypoint_first(ast@),
                module@.len() == i,
                forall|k: int|
                    0 <= k < i ==> module@[k]@ == statement_of(entrypoint_first(ast@)[k]),
            decreases declarations.len() - i,
        {
            assert(declarations@[i as int]@ == entrypoint_first(ast@)[i as int]);
            module.push(JS::from_declaration(&declarations[i]));
            i += 1;
        }
        let program = Program(module);
        assert(program@ =~= statements_of(ast@));
        program
    }

    /// The text of the script: the prelude, the statements and the trailer, with
    /// a blank line between each two.
    pub fn into_string(self) -> (s: String)
        requires
            forall|i: int| 0 <= i < self@.len() ==> renderable(#[trigger] self@[i]),
        ensures
            s@ == script(self@),
    {
        let ghost statements = self@;
        let mut defs: Vec<String> = Vec::new();
        defs.push(String::from_str("const std = require(\"./std\");"));
        let mut i: usize = 0;
        assert(text::views(defs@) =~= seq![prelude()] + rendered_each(statements, 0));
        while i < self.0.len()
            invariant
                i <= self.0.len(),
                statements == self@,
                forall|k: int| 0 <= k < statements.len() ==> renderable(#[trigger] statements[k]),
                text::views(defs@) == seq![prelude()] + rendered_each(statements, i as nat),
            decreases self.0.len() - i,
        {
            assert(statements[i as int] == self.0@[i as int]@);
            let part = self.0[i].render();
            let ghost before = defs@;
            defs.push(part);
            assert(text::views(defs@) =~= text::views(before).push(part@));
            i += 1;
        }
        let ghost before = defs@;
        defs.push(String::from_str("main();"));
        assert(text::views(defs@) =~= text::views(before).push(trailer()));
        assert(text::views(defs@) =~= seq![prelude()] + rendered_each(
            statements,
            statements.len(),
        ) + seq![trailer()]);
        text::join(&defs, "\n\n")
    }
}

} // verus!
