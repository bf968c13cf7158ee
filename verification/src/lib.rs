//! A compiler for a small pure, expression-oriented functional language.
//!
//! A parse tree is turned into an abstract syntax tree, validated, lowered to a
//! linear stack-machine form, laid out, and encoded as a byte image for a stack
//! virtual machine; alternatively the tree is rendered as curried script text.
//! Beside the pipeline stands a type inference for a calculus of one-argument
//! calls and lambdas, which the pipeline does not consult.
//!
//! Every function is verified against the contract it carries. The persistent
//! sets and maps of `im_rc`, which the type language and the inference hold,
//! are reached through the wrappers of `store`, whose contracts are taken on
//! trust.

pub mod ast;
pub mod bytecode;
pub mod def;
pub mod driver;
pub mod infer;
pub mod js;
pub mod parser;
pub mod stdlib;
pub mod store;
pub mod table;
pub mod text;
pub mod types;
pub mod valid;
