//! Expressions of the Common Expression Language, parsed and run by the `cel`
//! crate.
//!
//! What the crate computes is trusted to be what the contracts here say of it.
//! The tree of a parsed expression is converted into [`Expr`], which the
//! library reads.

use cel::common::ast::{Expr as Node, LiteralValue};
use cel::{Context, IdedExpr, Program, Value};
use vstd::prelude::*;

verus! {

/// The longest source that is handed to the parser, in characters.
pub const MAX_CONDITION_CHARS: usize = 512;

/// The deepest tree that is handed to the interpreter, in levels.
pub const MAX_CONDITION_DEPTH: usize = 24;

/// The operators that a condition may use.
pub const ALLOWED_OPERATORS: [&'static str; 16] = [
    "_&&_",
    "_||_",
    "!_",
    "-_",
    "_==_",
    "_!=_",
    "_<_",
    "_<=_",
    "_>_",
    "_>=_",
    "_+_",
    "_-_",
    "_*_",
    "_/_",
    "_%_",
    "_?_:_",
];

/// A parsed expression.
#[verifier::external_type_specification]
#[verifier::external_body]
pub struct ExProgram(cel::Program);

/// A node of a parsed expression, with what hangs below it.
#[verifier::external_type_specification]
#[verifier::external_body]
pub struct ExIdedExpr(cel::IdedExpr);

/// A literal of a parsed expression.
#[verifier::external_type_specification]
#[verifier::external_body]
pub struct ExLiteralValue(cel::common::ast::LiteralValue);

/// The variables that an expression is run with.
#[verifier::external_type_specification]
#[verifier::external_body]
pub struct ExContext<'p, 'v>(cel::Context<'p, 'v>);

/// Type of a literal.
#[derive(Debug, Clone, Copy, PartialEq, Eq, Structural)]
pub enum LiteralKind {
    Boolean,
    Bytes,
    Double,
    Int,
    Null,
    Text,
    UInt,
}

/// An expression, as far as the library reads it.
#[derive(Debug)]
pub enum Expr {
    Ident(String),
    Literal(LiteralKind),
    Call { on_target: bool, func: String, args: Vec<Expr> },
    Select,
    Comprehension,
    ListLiteral,
    MapLiteral,
    StructLiteral,
    Unspecified,
}

/// The content of an [`Expr`].
pub enum Tree {
    Ident(Seq<char>),
    Literal(LiteralKind),
    Call { on_target: bool, func: Seq<char>, args: Seq<Tree> },
    Select,
    Comprehension,
    ListLiteral,
    MapLiteral,
    StructLiteral,
    Unspecified,
}

pub open spec fn tree(e: Expr) -> Tree
    decreases e,
{
    match e {
        Expr::Ident(name) => Tree::Ident(name@),
        Expr::Literal(kind) => Tree::Literal(kind),
        Expr::Call { on_target, func, args } => Tree::Call {
            on_target,
            func: func@,
            args: Seq::new(
                args@.len(),
                |i: int|
                    if 0 <= i < args@.len() {
                        tree(args@[i])
                    } else {
                        Tree::Unspecified
                    },
            ),
        },
        Expr::Select => Tree::Select,
        Expr::Comprehension => Tree::Comprehension,
        Expr::ListLiteral => Tree::ListLiteral,
        Expr::MapLiteral => Tree::MapLiteral,
        Expr::StructLiteral => Tree::StructLiteral,
        Expr::Unspecified => Tree::Unspecified,
    }
}

impl View for Expr {
    type V = Tree;

    open spec fn view(&self) -> Tree {
        tree(*self)
    }
}

/// A value that an expression is run with. A number is written out in decimal.
#[derive(Debug)]
pub enum Argument {
    Bool(bool),
    Number(String),
    Text(String),
}

/// The content of an [`Argument`].
pub enum ArgumentModel {
    Bool(bool),
    Number(Seq<char>),
    Text(Seq<char>),
}

impl View for Argument {
    type V = ArgumentModel;

    open spec fn view(&self) -> ArgumentModel {
        match self {
            Argument::Bool(b) => ArgumentModel::Bool(*b),
            Argument::Number(t) => ArgumentModel::Number(t@),
            Argument::Text(t) => ArgumentModel::Text(t@),
        }
    }
}

/// What running an expression gives: a bool, another value in words, or an
/// error in words.
#[derive(Debug)]
pub enum Outcome {
    Bool(bool),
    Other(String),
    Failed(String),
}

/// The content of an [`Outcome`].
pub enum OutcomeModel {
    Bool(bool),
    Other(Seq<char>),
    Failed(Seq<char>),
}

impl View for Outcome {
    type V = OutcomeModel;

    open spec fn view(&self) -> OutcomeModel {
        match self {
            Outcome::Bool(b) => OutcomeModel::Bool(*b),
            Outcome::Other(t) => OutcomeModel::Other(t@),
            Outcome::Failed(t) => OutcomeModel::Failed(t@),
        }
    }
}

/// Whether a tree holds nothing but identifiers, scalar literals and allowed
/// operators, at most `levels` deep.
pub open spec fn harmless(t: Tree, levels: nat) -> bool
    decreases t,
{
    levels > 0 && match t {
        Tree::Ident(_) => true,
        Tree::Literal(kind) => !(kind is Bytes) && !(kind is Null),
        Tree::Call { on_target, func, args } => {
            &&& !on_target
            &&& is_allowed(func)
            &&& forall|i: int|
                0 <= i < args.len() ==> harmless(#[trigger] args[i], (levels - 1) as nat)
        },
        _ => false,
    }
}

/// Whether `func` is an operator that a condition may use.
pub open spec fn is_allowed(func: Seq<char>) -> bool {
    exists|i: int| 0 <= i < 16 && (#[trigger] ALLOWED_OPERATORS[i])@ == func
}

/// Whether a text is a number in decimal: an optional sign, then digits with
/// an optional negative power of ten, `inf` or `NaN`.
pub open spec fn spells_number(t: Seq<char>) -> bool {
    exists|d: crate::double::Double| t == #[trigger] crate::decimal::number_text(d)
}

pub open spec fn no_variables() -> Map<Seq<char>, ArgumentModel> {
    Map::empty()
}

/// The source that a program was compiled from.
pub uninterp spec fn program_source(program: cel::Program) -> Seq<char>;

/// The tree that the parser makes of a source, or why it rejects it, in words.
pub uninterp spec fn parsed(source: Seq<char>) -> Result<Tree, Seq<char>>;

/// What a node of a parsed expression holds.
pub uninterp spec fn node_tree(node: cel::IdedExpr) -> Tree;

/// The type of a literal of a parsed expression.
pub uninterp spec fn kind_of_literal(value: cel::common::ast::LiteralValue) -> LiteralKind;

/// What a context holds: its variables, by name.
pub uninterp spec fn variables(context: cel::Context<'_, '_>) -> Map<Seq<char>, ArgumentModel>;

/// What running an expression with variables gives.
pub uninterp spec fn executed(
    source: Seq<char>,
    variables: Map<Seq<char>, ArgumentModel>,
) -> OutcomeModel;

/// `cel::Program::compile`: parses a source, or says in words why it cannot.
/// Either depends on the source alone, and the program stands for the source
/// and for nothing else. The parser goes one level of the call stack down for
/// each level of nesting, so the caller gives it a stack that is large enough
/// for the nesting that it lets through.
#[verifier::external_body]
pub(crate) fn compile(source: &str) -> (r: Result<Program, String>)
    requires
        source@.len() <= MAX_CONDITION_CHARS,
    ensures
        r is Ok <==> parsed(source@) is Ok,
        r matches Ok(program) ==> program_source(program) == source@,
        r matches Err(words) ==> words@ == parsed(source@)->Err_0,
{
    Program::compile(source).map_err(|e| e.to_string())
}

/// `cel::Program::expression`: the root of what a source was parsed into.
pub assume_specification[ cel::Program::expression ](program: &cel::Program) -> (r:
    &cel::IdedExpr)
    ensures
        node_tree(*r) == parsed(program_source(*program))->Ok_0,
;

/// A node of a parsed expression, with the nodes right below it.
pub enum Part<'a> {
    Ident(&'a String),
    Literal(&'a LiteralValue),
    Call { on_target: bool, func: &'a String, args: &'a Vec<IdedExpr> },
    Select,
    Comprehension,
    ListLiteral,
    MapLiteral,
    StructLiteral,
    Unspecified,
}

impl<'a> Part<'a> {
    /// The tree that the node and what hangs below it make up.
    pub open spec fn tree(self) -> Tree {
        match self {
            Part::Ident(name) => Tree::Ident(name@),
            Part::Literal(value) => Tree::Literal(kind_of_literal(*value)),
            Part::Call { on_target, func, args } => Tree::Call {
                on_target,
                func: func@,
                args: args@.map_values(|arg: IdedExpr| node_tree(arg)),
            },
            Part::Select => Tree::Select,
            Part::Comprehension => Tree::Comprehension,
            Part::ListLiteral => Tree::ListLiteral,
            Part::MapLiteral => Tree::MapLiteral,
            Part::StructLiteral => Tree::StructLiteral,
            Part::Unspecified => Tree::Unspecified,
        }
    }
}

/// Tells the variants of `cel::common::ast::Expr` apart, which `cel::IdedExpr`
/// holds in a public field, and hands out the fields that the library reads.
#[verifier::external_body]
fn part(node: &IdedExpr) -> (r: Part<'_>)
    ensures
        r.tree() == node_tree(*node),
{
    match &node.expr {
        Node::Ident(name) => Part::Ident(name),
        Node::Literal(value) => Part::Literal(value),
        Node::Call(call) => Part::Call {
            on_target: call.target.is_some(),
            func: &call.func_name,
            args: &call.args,
        },
        Node::Select(_) => Part::Select,
        Node::Comprehension(_) => Part::Comprehension,
        Node::List(_) => Part::ListLiteral,
        Node::Map(_) => Part::MapLiteral,
        Node::Struct(_) => Part::StructLiteral,
        Node::Unspecified => Part::Unspecified,
    }
}

/// Tells the variants of `cel::common::ast::LiteralValue` apart.
#[verifier::external_body]
fn literal_kind(value: &LiteralValue) -> (r: LiteralKind)
    ensures
        r == kind_of_literal(*value),
{
    match value {
        LiteralValue::Boolean(_) => LiteralKind::Boolean,
        LiteralValue::Bytes(_) => LiteralKind::Bytes,
        LiteralValue::Double(_) => LiteralKind::Double,
        LiteralValue::Int(_) => LiteralKind::Int,
        LiteralValue::Null => LiteralKind::Null,
        LiteralValue::String(_) => LiteralKind::Text,
        LiteralValue::UInt(_) => LiteralKind::UInt,
    }
}

/// Converts a parsed expression, one node for one node, and drops what hangs
/// below the nodes that no condition may hold.
pub(crate) fn converted(node: &IdedExpr) -> (r: Expr)
    ensures
        r@ == node_tree(*node),
    decreases node_tree(*node),
{
    match part(node) {
        Part::Ident(name) => Expr::Ident(name.clone()),
        Part::Literal(value) => Expr::Literal(literal_kind(value)),
        Part::Call { on_target, func, args: nodes } => {
            let ghost trees = node_tree(*node)->args;
            let mut args: Vec<Expr> = Vec::new();
            let mut i: usize = 0;
            while i < nodes.len()
                invariant
                    i <= nodes@.len(),
                    args@.len() == i,
                    node_tree(*node) is Call,
                    trees == node_tree(*node)->args,
                    trees == nodes@.map_values(|arg: IdedExpr| node_tree(arg)),
                    forall|j: int| 0 <= j < i ==> (#[trigger] args@[j])@ == trees[j],
                decreases nodes.len() - i,
            {
                assert(trees[i as int] == node_tree(nodes@[i as int]));
                args.push(converted(&nodes[i]));
                i = i + 1;
            }
            let r = Expr::Call { on_target, func: func.clone(), args };
            assert(r@->args =~= trees);
            r
        },
        Part::Select => Expr::Select,
        Part::Comprehension => Expr::Comprehension,
        Part::ListLiteral => Expr::ListLiteral,
        Part::MapLiteral => Expr::MapLiteral,
        Part::StructLiteral => Expr::StructLiteral,
        Part::Unspecified => Expr::Unspecified,
    }
}

/// `cel::Context::empty`: a context without variables or functions.
pub assume_specification<'p, 'v>[ cel::Context::<'p, 'v>::empty ]() -> (r: cel::Context<'p, 'v>)
    ensures
        variables(r) == no_variables(),
;

/// `cel::Context::add_variable_from_value`: binds a variable, or binds it anew.
/// A number is read from its decimal text, which gives the nearest double, and
/// so the one whose exact text it is.
#[verifier::external_body]
pub(crate) fn bind(context: &mut Context<'_, '_>, name: &str, value: &Argument)
    requires
        value@ matches ArgumentModel::Number(t) ==> spells_number(t),
    ensures
        variables(*final(context)) == variables(*old(context)).insert(name@, value@),
{
    let value = match value {
        Argument::Bool(b) => Value::Bool(*b),
        Argument::Number(text) => Value::Float(text.parse().unwrap()),
        Argument::Text(text) => Value::String(text.clone().into()),
    };
    context.add_variable_from_value(name, value);
}

/// `cel::Program::execute`, on a program of scalars and operators alone, whose
/// result depends on nothing but the source and the variables. A value that is
/// not a bool is put into words as `Debug` shows it, an error as `Display`
/// does.
#[verifier::external_body]
pub(crate) fn execute(program: &Program, context: &Context<'_, '_>) -> (r: Outcome)
    requires
        parsed(program_source(*program)) matches Ok(t) && harmless(
            t,
            MAX_CONDITION_DEPTH as nat,
        ),
    ensures
        r@ == executed(program_source(*program), variables(*context)),
{
    match program.execute(context) {
        Ok(Value::Bool(b)) => Outcome::Bool(b),
        Ok(other) => Outcome::Other(format!("{other:?}")),
        Err(e) => Outcome::Failed(e.to_string()),
    }
}

} // verus!
