//! The syntax tree and the precedence scale of its operators.
pub mod function;

pub use function::Function;

use crate::ast::function::{is_identifier, is_registered};
use crate::text::is_decimal_literal;
use vstd::prelude::*;
use vstd::string::StringExecFns;

verus! {

/// Binding strength of an operator, from the loosest (`L6`) to the tightest
/// (`L1`). The variants are declared loosest first, so the derived order
/// agrees with [`Precedence::tightness`].
#[derive(Clone, Copy, Debug, PartialEq, Eq, PartialOrd, Ord, Structural)]
pub enum Precedence {
    /// `||`
    L6,
    /// `&&`, `^^`
    L5,
    /// `==`, `!=`, `<`, `<=`, `>`, `>=`
    L4,
    /// `+`, `-`
    L3,
    /// `*`, `/`, `%`
    L2,
    /// `^`, routines, unary operators, variables, literals
    L1,
}

impl Precedence {
    /// Position on the scale: 0 for the loosest level, 5 for the tightest.
    pub open spec fn spec_tightness(self) -> u8 {
        match self {
            Precedence::L6 => 0,
            Precedence::L5 => 1,
            Precedence::L4 => 2,
            Precedence::L3 => 3,
            Precedence::L2 => 4,
            Precedence::L1 => 5,
        }
    }

    /// Position on the scale: 0 for the loosest level, 5 for the tightest.
    #[verifier::when_used_as_spec(spec_tightness)]
    pub fn tightness(self) -> (level: u8)
        ensures
            level == self.spec_tightness(),
    {
        match self {
            Precedence::L6 => 0,
            Precedence::L5 => 1,
            Precedence::L4 => 2,
            Precedence::L3 => 3,
            Precedence::L2 => 4,
            Precedence::L1 => 5,
        }
    }
}

/// A node of the syntax tree.
///
/// A tree is well formed where [`Tree::well_formed`] holds of its view:
/// every call has as many arguments as its function takes.
#[derive(Debug, PartialEq)]
pub enum Expression {
    /// A number, kept as the decimal text it was written with. With
    /// `as_bool` it stands for `true` where it is not zero, else for `false`.
    Literal { as_bool: bool, value: String },
    /// A function of the table applied to arguments.
    FunctionCall { function: &'static Function, args: Vec<Expression> },
    /// A name that the table does not know.
    Variable { identifier: String },
}

/// The mathematical content of an [`Expression`].
pub ghost enum Tree {
    Literal { as_bool: bool, value: Seq<char> },
    FunctionCall { function: Function, args: Seq<Tree> },
    Variable { identifier: Seq<char> },
}

impl View for Expression {
    type V = Tree;

    open spec fn view(&self) -> Tree
        decreases self,
    {
        match self {
            Expression::Literal { as_bool, value } => Tree::Literal { as_bool: *as_bool, value: value@ },
            Expression::FunctionCall { function, args } => Tree::FunctionCall {
                function: **function,
                args: trees_of(args@),
            },
            Expression::Variable { identifier } => Tree::Variable { identifier: identifier@ },
        }
    }
}

/// The views of `expressions`, in order.
pub open spec fn trees_of(expressions: Seq<Expression>) -> Seq<Tree>
    decreases expressions,
{
    if expressions.len() == 0 {
        Seq::empty()
    } else {
        trees_of(expressions.drop_last()).push(expressions.last().view())
    }
}

/// [`trees_of`] keeps the length and takes the view place by place.
pub proof fn lemma_trees_of(expressions: Seq<Expression>)
    ensures
        trees_of(expressions).len() == expressions.len(),
        forall|i: int| 0 <= i < expressions.len() ==> #[trigger] trees_of(expressions)[i] == expressions[i]@,
    decreases expressions.len(),
{
    if expressions.len() > 0 {
        lemma_trees_of(expressions.drop_last());
        assert(trees_of(expressions) == trees_of(expressions.drop_last()).push(expressions.last()@));
    }
}

/// Whether a decimal text has a digit other than `0`, that is, whether the
/// number it writes is not zero.
pub open spec fn is_nonzero(value: Seq<char>) -> bool {
    exists|i: int| 0 <= i < value.len() && '1' <= #[trigger] value[i] <= '9'
}

impl Tree {
    /// Whether the tree is one that the grammar can give: each literal is a
    /// decimal number, each call is of a function of the table with exactly
    /// as many arguments as it takes, and no variable bears the name of a
    /// function.
    pub open spec fn well_formed(self) -> bool
        decreases self,
    {
        match self {
            Tree::Literal { as_bool, value } => is_decimal_literal(value),
            Tree::FunctionCall { function, args } => {
                &&& is_registered(function)
                &&& args.len() == function.arity
                &&& forall|i: int| 0 <= i < args.len() ==> (#[trigger] args[i]).well_formed()
            },
            Tree::Variable { identifier } => !is_identifier(identifier),
        }
    }

    /// The precedence of the function of a call; the tightest level for a
    /// literal or a variable.
    pub open spec fn precedence(self) -> Precedence {
        match self {
            Tree::FunctionCall { function, args } => function.precedence,
            _ => Precedence::L1,
        }
    }

    /// The tree as text, every call written as `name(argument, argument)`,
    /// also where the function is an operator.
    pub open spec fn render(self) -> Seq<char>
        decreases self, 0nat,
    {
        match self {
            Tree::Literal { as_bool, value } => if !as_bool {
                value
            } else if is_nonzero(value) {
                seq!['t', 'r', 'u', 'e']
            } else {
                seq!['f', 'a', 'l', 's', 'e']
            },
            Tree::FunctionCall { function, args } => function.identifier@ + seq!['('] + Tree::render_list(
                args,
                args.len(),
            ) + seq![')'],
            Tree::Variable { identifier } => identifier,
        }
    }

    /// The first `count` of `args` as text, with `, ` between two of them.
    pub open spec fn render_list(args: Seq<Tree>, count: nat) -> Seq<char>
        decreases args, count,
    {
        if count == 0 || count > args.len() {
            Seq::empty()
        } else if count == 1 {
            args[0].render()
        } else {
            Tree::render_list(args, (count - 1) as nat) + seq![',', ' '] + args[count - 1].render()
        }
    }
}

/// Whether the decimal text `value` has a digit other than `0`.
pub fn has_nonzero_digit(value: &str) -> (nonzero: bool)
    ensures
        nonzero == is_nonzero(value@),
{
    for c in chars: value.chars()
        invariant
            chars.seq() == value@,
            forall|i: int| 0 <= i < chars.index() ==> !('1' <= #[trigger] value@[i] <= '9'),
    {
        let ghost at = chars.index();
        assert(value@[at] == c);
        if '1' <= c && c <= '9' {
            return true;
        }
    }
    false
}

impl Expression {
    /// The precedence of the function of a call; the tightest level for a
    /// literal or a variable.
    pub fn precedence(&self) -> (precedence: Precedence)
        ensures
            precedence == self@.precedence(),
    {
        match self {
            Expression::FunctionCall { function, .. } => function.precedence,
            _ => Precedence::L1,
        }
    }

    /// The expression as text, every call written as
    /// `name(argument, argument)`, also where the function is an operator.
    /// A literal is written as it is held; one that stands for a truth
    /// value is written `true` or `false`.
    pub fn to_string(&self) -> (text: String)
        ensures
            text@ == self@.render(),
        decreases self,
    {
        match self {
            Expression::Literal { as_bool, value } => {
                if !*as_bool {
                    value.clone()
                } else if has_nonzero_digit(value.as_str()) {
                    proof {
                        reveal_strlit("true");
                    }
                    let text = "true".to_owned();
                    assert(text@ =~= seq!['t', 'r', 'u', 'e']);
                    text
                } else {
                    proof {
                        reveal_strlit("false");
                    }
                    let text = "false".to_owned();
                    assert(text@ =~= seq!['f', 'a', 'l', 's', 'e']);
                    text
                }
            },
            Expression::FunctionCall { function, args } => {
                proof {
                    reveal_strlit("(");
                    reveal_strlit(", ");
                    reveal_strlit(")");
                }
                let ghost trees = self@->args;
                proof {
                    lemma_trees_of(args@);
                }
                let mut text = function.identifier.to_owned();
                text.append("(");
                let ghost head = function.identifier@ + seq!['('];
                assert(text@ =~= head + Tree::render_list(trees, 0));
                let mut i: usize = 0;
                while i < args.len()
                    invariant
                        i <= args.len(),
                        trees.len() == args.len(),
                        forall|k: int| 0 <= k < args.len() ==> #[trigger] trees[k] == args[k]@,
                        forall|k: int| 0 <= k < args.len() ==> decreases_to!(self => #[trigger] args[k]),
                        text@ == head + Tree::render_list(trees, i as nat),
                        "("@ == seq!['('],
                        ", "@ == seq![',', ' '],
                    decreases args.len() - i,
                {
                    if i > 0 {
                        text.append(", ");
                    }
                    let piece = args[i].to_string();
                    text.append(piece.as_str());
                    assert(text@ =~= head + Tree::render_list(trees, (i + 1) as nat));
                    i += 1;
                }
                text.append(")");
                assert("("@ =~= seq!['(']);
                assert(")"@ =~= seq![')']);
                text
            },
            Expression::Variable { identifier } => identifier.clone(),
        }
    }
}

} // verus!
