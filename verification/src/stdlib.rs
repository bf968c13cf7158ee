//! The registry of the standard library: the built-in functions and the small
//! numbers under which emitted code refers to them.

#![allow(non_camel_case_types)]

use crate::table::Table;
use crate::text;
use crate::types::{arrow, Scheme, SchemeView, Type, TypeView};
use vstd::prelude::*;

verus! {

/// The built-in functions, in the order of their indices.
#[derive(Clone, Copy, Debug, PartialEq, Eq)]
pub enum StdLib {
    ID,
    Iff,
    Add_I32,
    Sub_I32,
    Mul_I32,
    Div_I32,
    Prints,
}

impl StdLib {
    /// The index of the function: its place in the enumeration, from zero.
    pub open spec fn slot(self) -> usize {
        match self {
            StdLib::ID => 0,
            StdLib::Iff => 1,
            StdLib::Add_I32 => 2,
            StdLib::Sub_I32 => 3,
            StdLib::Mul_I32 => 4,
            StdLib::Div_I32 => 5,
            StdLib::Prints => 6,
        }
    }

    /// The qualified name under which programs refer to the function.
    pub open spec fn name(self) -> Seq<char> {
        match self {
            StdLib::ID => "std.id"@,
            StdLib::Iff => "std.iff"@,
            StdLib::Add_I32 => "std.add"@,
            StdLib::Sub_I32 => "std.sub"@,
            StdLib::Mul_I32 => "std.mul"@,
            StdLib::Div_I32 => "std.div"@,
            StdLib::Prints => "std.prints"@,
        }
    }

    /// Computes the index of the function.
    pub fn position(self) -> (n: usize)
        ensures
            n == self.slot(),
    {
        match self {
            StdLib::ID => 0,
            StdLib::Iff => 1,
            StdLib::Add_I32 => 2,
            StdLib::Sub_I32 => 3,
            StdLib::Mul_I32 => 4,
            StdLib::Div_I32 => 5,
            StdLib::Prints => 6,
        }
    }
}

/// The registry: each recognised name with its index.
pub open spec fn registry() -> Map<Seq<char>, usize> {
    Map::<Seq<char>, usize>::empty().insert(StdLib::ID.name(), StdLib::ID.slot()).insert(
        StdLib::Iff.name(),
        StdLib::Iff.slot(),
    ).insert(StdLib::Add_I32.name(), StdLib::Add_I32.slot()).insert(
        StdLib::Sub_I32.name(),
        StdLib::Sub_I32.slot(),
    ).insert(StdLib::Mul_I32.name(), StdLib::Mul_I32.slot()).insert(
        StdLib::Div_I32.name(),
        StdLib::Div_I32.slot(),
    ).insert(StdLib::Prints.name(), StdLib::Prints.slot())
}

/// Every name of the registry begins with `std.`, and its index is at most 6.
pub proof fn lemma_registry_names(name: Seq<char>)
    requires
        registry().contains_key(name),
    ensures
        "std."@.is_prefix_of(name),
        registry()[name] <= 6,
{
    reveal_strlit("std.");
    reveal_strlit("std.id");
    reveal_strlit("std.iff");
    reveal_strlit("std.add");
    reveal_strlit("std.sub");
    reveal_strlit("std.mul");
    reveal_strlit("std.div");
    reveal_strlit("std.prints");
    assert("std."@ =~= name.subrange(0, 4));
}

/// The registry as a table.
pub fn index() -> (table: Table)
    ensures
        table@ == registry(),
{
    let mut table = Table::new();
    table.insert(String::from_str("std.id"), StdLib::ID.position());
    table.insert(String::from_str("std.iff"), StdLib::Iff.position());
    table.insert(String::from_str("std.add"), StdLib::Add_I32.position());
    table.insert(String::from_str("std.sub"), StdLib::Sub_I32.position());
    table.insert(String::from_str("std.mul"), StdLib::Mul_I32.position());
    table.insert(String::from_str("std.div"), StdLib::Div_I32.position());
    table.insert(String::from_str("std.prints"), StdLib::Prints.position());
    table
}

/// A function of the standard library: its index and its type.
pub struct Function {
    pub index: usize,
    pub t: Scheme,
}

/// A function of the standard library as a mathematical value.
pub struct FunctionView {
    pub index: usize,
    pub t: SchemeView,
}

impl View for Function {
    type V = FunctionView;

    open spec fn view(&self) -> FunctionView {
        FunctionView { index: self.index, t: self.t@ }
    }
}

/// The type of a function that takes any value and gives a result of the given
/// type: it is quantified over the type of its argument, `a`.
pub open spec fn from_any(result: TypeView) -> SchemeView {
    SchemeView {
        guards: set!["a"@],
        body: TypeView::Func(Box::new(TypeView::Var("a"@)), Box::new(result)),
    }
}

/// The type of the arithmetic functions: two integers to an integer.
pub open spec fn arithmetic() -> SchemeView {
    SchemeView {
        guards: Set::empty(),
        body: arrow(seq![TypeView::Int, TypeView::Int], TypeView::Int),
    }
}

/// The functions of the standard library whose type the type language can
/// state, each with its index: the identity gives back what it takes, the
/// arithmetic functions take two integers to an integer, and printing takes any
/// value to unit. The conditional has no entry, for want of a type of booleans.
pub open spec fn signature(name: Seq<char>) -> Option<FunctionView> {
    if name == StdLib::ID.name() {
        Some(FunctionView { index: StdLib::ID.slot(), t: from_any(TypeView::Var("a"@)) })
    } else if name == StdLib::Add_I32.name() {
        Some(FunctionView { index: StdLib::Add_I32.slot(), t: arithmetic() })
    } else if name == StdLib::Sub_I32.name() {
        Some(FunctionView { index: StdLib::Sub_I32.slot(), t: arithmetic() })
    } else if name == StdLib::Mul_I32.name() {
        Some(FunctionView { index: StdLib::Mul_I32.slot(), t: arithmetic() })
    } else if name == StdLib::Div_I32.name() {
        Some(FunctionView { index: StdLib::Div_I32.slot(), t: arithmetic() })
    } else if name == StdLib::Prints.name() {
        Some(FunctionView { index: StdLib::Prints.slot(), t: from_any(TypeView::Unit) })
    } else {
        None
    }
}

fn any_to(result: Type) -> (scheme: Scheme)
    ensures
        scheme@ == from_any(result@),
{
    let argument = Type::Var(String::from_str("a"));
    assert(argument@ == TypeView::Var("a"@));
    let body = Type::Func(Box::new(argument), Box::new(result));
    assert(body@ == TypeView::Func(Box::new(TypeView::Var("a"@)), Box::new(result@)));
    Scheme::for_all(String::from_str("a"), body)
}

fn binary_arithmetic() -> (scheme: Scheme)
    ensures
        scheme@ == arithmetic(),
{
    let mut params: Vec<Type> = Vec::new();
    params.push(Type::Int);
    params.push(Type::Int);
    proof {
        assert(crate::types::type_views(params@) =~= seq![TypeView::Int, TypeView::Int]);
    }
    Scheme::concrete(Type::func(params, Type::Int))
}

/// The function of the standard library that `name` names, if its type can be
/// stated.
pub fn function(name: &str) -> (found: Option<Function>)
    ensures
        found is Some <==> signature(name@) is Some,
        found matches Some(f) ==> f@ == signature(name@)->0,
{
    if text::equal(name, "std.id") {
        Some(
            Function {
                index: StdLib::ID.position(),
                t: any_to(Type::Var(String::from_str("a"))),
            },
        )
    } else if text::equal(name, "std.add") {
        Some(Function { index: StdLib::Add_I32.position(), t: binary_arithmetic() })
    } else if text::equal(name, "std.sub") {
        Some(Function { index: StdLib::Sub_I32.position(), t: binary_arithmetic() })
    } else if text::equal(name, "std.mul") {
        Some(Function { index: StdLib::Mul_I32.position(), t: binary_arithmetic() })
    } else if text::equal(name, "std.div") {
        Some(Function { index: StdLib::Div_I32.position(), t: binary_arithmetic() })
    } else if text::equal(name, "std.prints") {
        Some(Function { index: StdLib::Prints.position(), t: any_to(Type::Unit) })
    } else {
        None
    }
}

} // verus!
