//! Rule conditions: a restricted subset of the Common Expression Language.
//!
//! Rules arrive over the network, so conditions are treated as untrusted:
//! - at most [`MAX_CONDITION_CHARS`] characters;
//! - only signal identifiers, scalar literals and the operators in
//!   [`ALLOWED_OPERATORS`] (no functions, macros, lists, maps or field access);
//! - nesting depth at most [`MAX_CONDITION_DEPTH`], which bounds the
//!   interpreter's recursion at evaluation time.
//!
//! The parser recurses deeply on nested input, so [`Condition::compile`] is to
//! run on a thread with a large stack.

use crate::catalog::{Catalog, CatalogModel};
use crate::decimal::{exact_text, number_text};
use crate::expression::{
    bind, compile, converted, execute, executed, harmless, is_allowed, parsed, program_source,
    variables, Argument, ArgumentModel, Expr, LiteralKind, Outcome, OutcomeModel, Tree,
};
use crate::name_set::{ascending, insert_name, texts};
use crate::text::{blank, decimal, decimal_text, is_blank, join, same_text};
use crate::text_map::TextMap;
use crate::value::{SignalValue, ValueModel};
use cel::{Context, Program};
use vstd::prelude::*;

pub use crate::expression::{ALLOWED_OPERATORS, MAX_CONDITION_CHARS, MAX_CONDITION_DEPTH};

verus! {

/// What is wrong with a tree whose root is at `depth`, if anything: with the
/// root itself, or with the arguments of a call, the last one first.
pub open spec fn tree_fault(t: Tree, depth: nat, catalog: CatalogModel) -> Option<Seq<char>>
    decreases t, 0nat,
{
    if depth > MAX_CONDITION_DEPTH {
        Some("condition is nested too deeply (limit 24)"@)
    } else {
        match t {
            Tree::Ident(name) => if catalog.find_name(name) is None {
                Some("unknown signal '"@ + name + "'"@)
            } else {
                None
            },
            Tree::Literal(kind) => if kind is Bytes || kind is Null {
                Some("bytes and null literals are not allowed"@)
            } else {
                None
            },
            Tree::Call { on_target, func, args } => if on_target || !is_allowed(func) {
                Some(
                    "'"@ + func
                        + "' is not allowed; only comparison, logical and arithmetic operators"@,
                )
            } else {
                args_fault(args, args.len(), depth + 1, catalog)
            },
            Tree::Select => Some("field access is not allowed"@),
            Tree::Comprehension => Some("macros are not allowed"@),
            Tree::ListLiteral | Tree::MapLiteral | Tree::StructLiteral => Some(
                "list, map and struct literals are not allowed"@,
            ),
            Tree::Unspecified => Some("unsupported expression"@),
        }
    }
}

/// What is wrong with the first `n` arguments of a call, if anything.
pub open spec fn args_fault(
    args: Seq<Tree>,
    n: nat,
    depth: nat,
    catalog: CatalogModel,
) -> Option<Seq<char>>
    decreases args, n,
{
    if n == 0 || n > args.len() {
        None
    } else {
        match tree_fault(args[n - 1], depth, catalog) {
            Some(fault) => Some(fault),
            None => args_fault(args, (n - 1) as nat, depth, catalog),
        }
    }
}

/// Whether a name occurs in a tree.
pub open spec fn mentions(t: Tree, name: Seq<char>) -> bool
    decreases t,
{
    match t {
        Tree::Ident(n) => n == name,
        Tree::Call { on_target, func, args } => exists|i: int|
            0 <= i < args.len() && mentions(#[trigger] args[i], name),
        _ => false,
    }
}

/// Whether a name occurs in the arguments from number `n` on.
pub open spec fn args_mention(args: Seq<Tree>, n: int, name: Seq<char>) -> bool {
    exists|i: int| n <= i < args.len() && mentions(#[trigger] args[i], name)
}

proof fn lemma_sound_args(args: Seq<Tree>, n: nat, depth: nat, catalog: CatalogModel)
    requires
        n <= args.len(),
        args_fault(args, n, depth, catalog) is None,
    ensures
        forall|i: int| 0 <= i < n ==> tree_fault(#[trigger] args[i], depth, catalog) is None,
    decreases n,
{
    if n > 0 {
        lemma_sound_args(args, (n - 1) as nat, depth, catalog);
    }
}

/// A tree that nothing is wrong with is safe to run, and mentions signals of
/// the catalog alone.
pub proof fn law_sound_tree_is_harmless(t: Tree, depth: nat, catalog: CatalogModel)
    requires
        tree_fault(t, depth, catalog) is None,
    ensures
        depth <= MAX_CONDITION_DEPTH,
        harmless(t, (MAX_CONDITION_DEPTH + 1 - depth) as nat),
        forall|name: Seq<char>| #[trigger] mentions(t, name) ==> catalog.find_name(name) is Some,
    decreases t,
{
    match t {
        Tree::Call { on_target, func, args } => {
            lemma_sound_args(args, args.len(), depth + 1, catalog);
            assert forall|i: int| 0 <= i < args.len() implies harmless(
                #[trigger] args[i],
                (MAX_CONDITION_DEPTH - depth) as nat,
            ) by {
                law_sound_tree_is_harmless(args[i], depth + 1, catalog);
            }
            assert forall|name: Seq<char>| #[trigger] mentions(t, name) implies catalog.find_name(
                name,
            ) is Some by {
                let i = choose|i: int| 0 <= i < args.len() && mentions(#[trigger] args[i], name);
                law_sound_tree_is_harmless(args[i], depth + 1, catalog);
            }
        },
        _ => {},
    }
}

/// Whether `func` is an operator that a condition may use.
fn is_allowed_operator(func: &str) -> (r: bool)
    ensures
        r == is_allowed(func@),
{
    let mut i: usize = 0;
    while i < 16
        invariant
            i <= 16,
            forall|j: int| 0 <= j < i ==> (#[trigger] ALLOWED_OPERATORS[j])@ != func@,
        decreases 16 - i,
    {
        if same_text(ALLOWED_OPERATORS[i], func) {
            return true;
        }
        i = i + 1;
    }
    false
}

/// Checks a node and everything below it, and collects the names.
fn check_node(
    node: &Expr,
    depth: usize,
    catalog: &Catalog,
    signals: &mut Vec<String>,
) -> (r: Result<(), String>)
    requires
        1 <= depth <= MAX_CONDITION_DEPTH + 1,
        ascending(texts(old(signals)@)),
    ensures
        match r {
            Ok(_) => {
                &&& tree_fault(node@, depth as nat, catalog@) is None
                &&& forall|t: Seq<char>| #[trigger]
                    texts(final(signals)@).contains(t) <==> texts(old(signals)@).contains(t)
                        || mentions(node@, t)
            },
            Err(reason) => tree_fault(node@, depth as nat, catalog@) == Some(reason@),
        },
        ascending(texts(final(signals)@)),
    decreases MAX_CONDITION_DEPTH + 1 - depth,
{
    if depth > MAX_CONDITION_DEPTH {
        return Err("condition is nested too deeply (limit 24)".to_owned());
    }
    match node {
        Expr::Ident(name) => {
            if catalog.by_name(name.as_str()).is_none() {
                return Err(join("unknown signal '", name.as_str(), "'"));
            }
            insert_name(signals, name);
            Ok(())
        },
        Expr::Literal(kind) => match kind {
            LiteralKind::Boolean
            | LiteralKind::Double
            | LiteralKind::Int
            | LiteralKind::UInt
            | LiteralKind::Text => Ok(()),
            LiteralKind::Bytes | LiteralKind::Null => Err(
                "bytes and null literals are not allowed".to_owned(),
            ),
        },
        Expr::Call { on_target, func, args } => {
            if *on_target || !is_allowed_operator(func.as_str()) {
                return Err(
                    join(
                        "'",
                        func.as_str(),
                        "' is not allowed; only comparison, logical and arithmetic operators",
                    ),
                );
            }
            let ghost trees = node@->args;
            let ghost before = texts(signals@);
            let mut n: usize = args.len();
            while n > 0
                invariant
                    n <= args@.len(),
                    trees.len() == args@.len(),
                    forall|i: int| 0 <= i < trees.len() ==> #[trigger] trees[i] == args@[i]@,
                    1 <= depth <= MAX_CONDITION_DEPTH,
                    ascending(texts(signals@)),
                    args_fault(trees, n as nat, depth as nat + 1, catalog@) == args_fault(
                        trees,
                        trees.len(),
                        depth as nat + 1,
                        catalog@,
                    ),
                    forall|t: Seq<char>| #[trigger]
                        texts(signals@).contains(t) <==> before.contains(t) || args_mention(
                            trees,
                            n as int,
                            t,
                        ),
                    tree_fault(node@, depth as nat, catalog@) == args_fault(
                        trees,
                        trees.len(),
                        depth as nat + 1,
                        catalog@,
                    ),
                decreases n,
            {
                let ghost so_far = texts(signals@);
                n = n - 1;
                assert(trees[n as int] == args@[n as int]@);
                match check_node(&args[n], depth + 1, catalog, signals) {
                    Ok(_) => {},
                    Err(reason) => {
                        return Err(reason);
                    },
                }
                proof {
                    assert forall|t: Seq<char>| #[trigger]
                        texts(signals@).contains(t) <==> before.contains(t) || args_mention(
                            trees,
                            n as int,
                            t,
                        ) by {
                        assert(so_far.contains(t) <==> before.contains(t) || args_mention(
                            trees,
                            n + 1,
                            t,
                        ));
                        if args_mention(trees, n as int, t) {
                            let i = choose|i: int|
                                n <= i < trees.len() && mentions(#[trigger] trees[i], t);
                            if i > n {
                                assert(args_mention(trees, n + 1, t));
                            }
                        }
                    }
                }
            }
            proof {
                assert forall|t: Seq<char>| args_mention(trees, 0, t) == #[trigger] mentions(
                    node@,
                    t,
                ) by {}
            }
            Ok(())
        },
        Expr::Select => Err("field access is not allowed".to_owned()),
        Expr::Comprehension => Err("macros are not allowed".to_owned()),
        Expr::ListLiteral | Expr::MapLiteral | Expr::StructLiteral => Err(
            "list, map and struct literals are not allowed".to_owned(),
        ),
        Expr::Unspecified => Err("unsupported expression".to_owned()),
    }
}

/// Walks the tree, enforcing the allowlist and depth limit. Returns the
/// referenced signal names, sorted, each once.
pub fn check_ast(root: &Expr, catalog: &Catalog) -> (r: Result<Vec<String>, String>)
    ensures
        match r {
            Ok(signals) => {
                &&& tree_fault(root@, 1, catalog@) is None
                &&& ascending(texts(signals@))
                &&& forall|name: Seq<char>| #[trigger]
                    texts(signals@).contains(name) <==> mentions(root@, name)
            },
            Err(reason) => tree_fault(root@, 1, catalog@) == Some(reason@),
        },
{
    let mut signals: Vec<String> = Vec::new();
    match check_node(root, 1, catalog, &mut signals) {
        Ok(_) => Ok(signals),
        Err(reason) => Err(reason),
    }
}

/// Why a source is rejected as a condition, if it is.
pub open spec fn condition_fault(source: Seq<char>, catalog: CatalogModel) -> Option<Seq<char>> {
    if source.len() > MAX_CONDITION_CHARS {
        Some("condition is "@ + decimal(source.len() as int) + " characters, limit is 512"@)
    } else if blank(source) {
        Some("condition is empty"@)
    } else {
        match parsed(source) {
            Err(words) => Some("syntax error: "@ + words),
            Ok(tree) => tree_fault(tree, 1, catalog),
        }
    }
}

/// Why a condition has no truth value.
#[derive(Debug, Clone, PartialEq, Eq)]
pub enum EvalError {
    Execution(String),
    NotBool(String),
}

/// The content of an [`EvalError`].
pub enum EvalFault {
    Execution(Seq<char>),
    NotBool(Seq<char>),
}

impl View for EvalError {
    type V = EvalFault;

    open spec fn view(&self) -> EvalFault {
        match self {
            EvalError::Execution(t) => EvalFault::Execution(t@),
            EvalError::NotBool(t) => EvalFault::NotBool(t@),
        }
    }
}

impl EvalFault {
    /// The fault in words.
    pub open spec fn words(self) -> Seq<char> {
        match self {
            EvalFault::Execution(t) => "evaluation failed: "@ + t,
            EvalFault::NotBool(t) => "condition returned a non-boolean value: "@ + t,
        }
    }
}

impl EvalError {
    /// The error in words.
    pub fn message(&self) -> (r: String)
        ensures
            r@ == self@.words(),
    {
        let mut r: String = String::new();
        match self {
            EvalError::Execution(t) => {
                r.append("evaluation failed: ");
                r.append(t.as_str());
            },
            EvalError::NotBool(t) => {
                r.append("condition returned a non-boolean value: ");
                r.append(t.as_str());
            },
        }
        assert(r@ =~= self@.words());
        r
    }
}

/// The value that stands for a signal's value in an expression.
pub open spec fn argument(value: ValueModel) -> ArgumentModel {
    match value {
        ValueModel::Bool(b) => ArgumentModel::Bool(b),
        ValueModel::Num(d) => ArgumentModel::Number(number_text(d)),
        ValueModel::Enum(label) => ArgumentModel::Text(label),
    }
}

/// The variables that an expression is run with: the named signals' values.
pub open spec fn arguments(
    names: Seq<Seq<char>>,
    values: Map<Seq<char>, SignalValue>,
) -> Map<Seq<char>, ArgumentModel> {
    Map::new(|name: Seq<char>| names.contains(name), |name: Seq<char>| argument(values[name]@))
}

/// What an outcome says of a condition.
pub open spec fn judged(outcome: OutcomeModel) -> Result<bool, EvalFault> {
    match outcome {
        OutcomeModel::Bool(b) => Ok(b),
        OutcomeModel::Other(t) => Err(EvalFault::NotBool(t)),
        OutcomeModel::Failed(t) => Err(EvalFault::Execution(t)),
    }
}

/// The content of a [`Condition`].
pub struct ConditionModel {
    pub source: Seq<char>,
    /// The signals that it refers to, in ascending order.
    pub signals: Seq<Seq<char>>,
}

impl ConditionModel {
    /// The condition's value for the given signal values: false where one of
    /// its signals has none.
    pub open spec fn value(self, values: Map<Seq<char>, SignalValue>) -> Result<bool, EvalFault> {
        if exists|i: int|
            0 <= i < self.signals.len() && !values.contains_key(#[trigger] self.signals[i]) {
            Ok(false)
        } else {
            judged(executed(self.source, arguments(self.signals, values)))
        }
    }
}

/// What an outcome says of a condition.
pub fn verdict(outcome: Outcome) -> (r: Result<bool, EvalError>)
    ensures
        match r {
            Ok(b) => judged(outcome@) == Ok::<bool, EvalFault>(b),
            Err(e) => judged(outcome@) == Err::<bool, EvalFault>(e@),
        },
{
    match outcome {
        Outcome::Bool(b) => Ok(b),
        Outcome::Other(t) => Err(EvalError::NotBool(t)),
        Outcome::Failed(t) => Err(EvalError::Execution(t)),
    }
}

/// A compiled, validated condition.
#[derive(Debug)]
pub struct Condition {
    program: Program,
    signals: Vec<String>,
}

impl View for Condition {
    type V = ConditionModel;

    closed spec fn view(&self) -> ConditionModel {
        ConditionModel { source: program_source(self.program), signals: texts(self.signals@) }
    }
}

/// What an accepted condition consists of.
pub open spec fn accepted(condition: ConditionModel, catalog: CatalogModel) -> bool {
    &&& condition_fault(condition.source, catalog) is None
    &&& ascending(condition.signals)
    &&& forall|name: Seq<char>| #[trigger]
        condition.signals.contains(name) <==> mentions(parsed(condition.source)->Ok_0, name)
}

impl Condition {
    #[verifier::type_invariant]
    spec fn valid(self) -> bool {
        &&& parsed(program_source(self.program)) matches Ok(t) && harmless(
            t,
            MAX_CONDITION_DEPTH as nat,
        )
        &&& ascending(texts(self.signals@))
    }

    /// Parses and validates `source` against `catalog`.
    pub fn compile(source: &str, catalog: &Catalog) -> (r: Result<Condition, String>)
        ensures
            match r {
                Ok(condition) => condition@.source == source@ && accepted(condition@, catalog@),
                Err(reason) => condition_fault(source@, catalog@) == Some(reason@),
            },
    {
        let chars: usize = source.unicode_len();
        if chars > MAX_CONDITION_CHARS {
            return Err(
                join(
                    "condition is ",
                    decimal_text(chars as i128).as_str(),
                    " characters, limit is 512",
                ),
            );
        }
        if is_blank(source) {
            return Err("condition is empty".to_owned());
        }
        let program: Program = match compile(source) {
            Ok(program) => program,
            Err(words) => {
                let mut reason: String = String::new();
                reason.append("syntax error: ");
                reason.append(words.as_str());
                assert(reason@ =~= "syntax error: "@ + words@);
                return Err(reason);
            },
        };
        let root: Expr = converted(program.expression());
        let signals: Vec<String> = match check_ast(&root, catalog) {
            Ok(signals) => signals,
            Err(reason) => {
                return Err(reason);
            },
        };
        proof {
            law_sound_tree_is_harmless(root@, 1, catalog@);
        }
        Ok(Condition { program, signals })
    }

    /// Catalog signals referenced by the condition, sorted, each once.
    pub fn signals(&self) -> (r: &[String])
        ensures
            texts(r@) == self@.signals,
            ascending(texts(r@)),
    {
        proof {
            use_type_invariant(self);
        }
        self.signals.as_slice()
    }

    /// Evaluates against the latest signal values. A referenced signal with
    /// no value yet makes the condition `false` (not an error).
    pub fn evaluate(&self, values: &TextMap<SignalValue>) -> (r: Result<bool, EvalError>)
        ensures
            match r {
                Ok(b) => self@.value(values@) == Ok::<bool, EvalFault>(b),
                Err(e) => self@.value(values@) == Err::<bool, EvalFault>(e@),
            },
    {
        proof {
            use_type_invariant(self);
        }
        let ghost names = self@.signals;
        let mut context: Context = Context::empty();
        let mut i: usize = 0;
        proof {
            assert(variables(context) =~= arguments(names.take(0), values@));
        }
        while i < self.signals.len()
            invariant
                i <= self.signals@.len(),
                names == texts(self.signals@),
                names == self@.signals,
                variables(context) == arguments(names.take(i as int), values@),
                forall|j: int| 0 <= j < i ==> values@.contains_key(#[trigger] names[j]),
            decreases self.signals@.len() - i,
        {
            let name: &str = self.signals[i].as_str();
            assert(names[i as int] == name@);
            let value: &SignalValue = match values.get(name) {
                Some(value) => value,
                None => {
                    return Ok(false);
                },
            };
            let arg: Argument = match value {
                SignalValue::Bool(b) => Argument::Bool(*b),
                SignalValue::Num(n) => Argument::Number(exact_text(*n)),
                SignalValue::Enum(s) => Argument::Text(s.clone()),
            };
            assert(arg@ == argument(values@[name@]@));
            bind(&mut context, name, &arg);
            proof {
                let (less, more) = (names.take(i as int), names.take(i + 1));
                assert(more =~= less.push(name@));
                assert forall|t: Seq<char>| more.contains(t) <==> less.contains(t) || t
                    == name@ by {
                    if less.contains(t) {
                        let j = choose|j: int| 0 <= j < less.len() && less[j] == t;
                        assert(more[j] == t);
                    }
                    assert(more[i as int] == name@);
                    if more.contains(t) {
                        let j = choose|j: int| 0 <= j < more.len() && more[j] == t;
                        if j < i {
                            assert(less[j] == t);
                        }
                    }
                }
                assert(variables(context) =~= arguments(more, values@));
            }
            i = i + 1;
        }
        assert(names.take(i as int) =~= names);
        verdict(execute(&self.program, &context))
    }
}

} // verus!
