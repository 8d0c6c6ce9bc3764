//! The table of built-in operators and routines.
use crate::ast::Precedence;
use crate::text::{contains_str, str_eq, texts};
use vstd::prelude::*;

verus! {

/// How repeated uses of a binary operator at one precedence level group.
#[derive(Clone, Copy, Debug, PartialEq, Eq, Structural)]
pub enum Associativity {
    Left,
    Right,
}

/// How a function is usually written. It has no effect on what it computes.
#[derive(Clone, Copy, Debug, PartialEq, Eq, Structural)]
pub enum Variant {
    Routine,
    Operator,
}

/// The description of one operator or routine.
///
/// A function is identified by its `identifier` together with its `arity`:
/// `-` exists both with one argument and with two.
#[derive(Clone, Copy, Debug, PartialEq, Eq)]
pub struct Function {
    pub identifier: &'static str,
    pub variant: Variant,
    pub arity: u8,
    pub precedence: Precedence,
    pub is_commutative: bool,
    pub associativity: Associativity,
}

/// Number of entries in the table.
pub const FUNCTION_COUNT: usize = 21;

/// The table, in its fixed order.
pub open spec fn functions() -> Seq<Function> {
    seq![
        Function { identifier: "-", variant: Variant::Operator, arity: 1, precedence: Precedence::L1, is_commutative: true, associativity: Associativity::Left },
        Function { identifier: "^", variant: Variant::Operator, arity: 2, precedence: Precedence::L1, is_commutative: false, associativity: Associativity::Right },
        Function { identifier: "*", variant: Variant::Operator, arity: 2, precedence: Precedence::L2, is_commutative: true, associativity: Associativity::Left },
        Function { identifier: "/", variant: Variant::Operator, arity: 2, precedence: Precedence::L2, is_commutative: false, associativity: Associativity::Left },
        Function { identifier: "%", variant: Variant::Operator, arity: 2, precedence: Precedence::L2, is_commutative: false, associativity: Associativity::Left },
        Function { identifier: "+", variant: Variant::Operator, arity: 2, precedence: Precedence::L3, is_commutative: true, associativity: Associativity::Left },
        Function { identifier: "-", variant: Variant::Operator, arity: 2, precedence: Precedence::L3, is_commutative: false, associativity: Associativity::Left },
        Function { identifier: "!", variant: Variant::Operator, arity: 1, precedence: Precedence::L1, is_commutative: true, associativity: Associativity::Left },
        Function { identifier: "==", variant: Variant::Operator, arity: 2, precedence: Precedence::L4, is_commutative: true, associativity: Associativity::Left },
        Function { identifier: "!=", variant: Variant::Operator, arity: 2, precedence: Precedence::L4, is_commutative: true, associativity: Associativity::Left },
        Function { identifier: "<", variant: Variant::Operator, arity: 2, precedence: Precedence::L4, is_commutative: false, associativity: Associativity::Left },
        Function { identifier: "<=", variant: Variant::Operator, arity: 2, precedence: Precedence::L4, is_commutative: false, associativity: Associativity::Left },
        Function { identifier: ">", variant: Variant::Operator, arity: 2, precedence: Precedence::L4, is_commutative: false, associativity: Associativity::Left },
        Function { identifier: ">=", variant: Variant::Operator, arity: 2, precedence: Precedence::L4, is_commutative: false, associativity: Associativity::Left },
        Function { identifier: "&&", variant: Variant::Operator, arity: 2, precedence: Precedence::L5, is_commutative: false, associativity: Associativity::Left },
        Function { identifier: "^^", variant: Variant::Operator, arity: 2, precedence: Precedence::L5, is_commutative: false, associativity: Associativity::Left },
        Function { identifier: "||", variant: Variant::Operator, arity: 2, precedence: Precedence::L6, is_commutative: false, associativity: Associativity::Left },
        Function { identifier: "sqrt", variant: Variant::Routine, arity: 1, precedence: Precedence::L1, is_commutative: true, associativity: Associativity::Left },
        Function { identifier: "abs", variant: Variant::Routine, arity: 1, precedence: Precedence::L1, is_commutative: true, associativity: Associativity::Left },
        Function { identifier: "min", variant: Variant::Routine, arity: 2, precedence: Precedence::L1, is_commutative: true, associativity: Associativity::Left },
        Function { identifier: "max", variant: Variant::Routine, arity: 2, precedence: Precedence::L1, is_commutative: true, associativity: Associativity::Left },
    ]
}

/// The entry of the table at `index`.
pub fn entry(index: usize) -> (function: &'static Function)
    requires
        index < FUNCTION_COUNT,
    ensures
        *function == functions()[index as int],
{
    match index {
        0 => &Function { identifier: "-", variant: Variant::Operator, arity: 1, precedence: Precedence::L1, is_commutative: true, associativity: Associativity::Left },
        1 => &Function { identifier: "^", variant: Variant::Operator, arity: 2, precedence: Precedence::L1, is_commutative: false, associativity: Associativity::Right },
        2 => &Function { identifier: "*", variant: Variant::Operator, arity: 2, precedence: Precedence::L2, is_commutative: true, associativity: Associativity::Left },
        3 => &Function { identifier: "/", variant: Variant::Operator, arity: 2, precedence: Precedence::L2, is_commutative: false, associativity: Associativity::Left },
        4 => &Function { identifier: "%", variant: Variant::Operator, arity: 2, precedence: Precedence::L2, is_commutative: false, associativity: Associativity::Left },
        5 => &Function { identifier: "+", variant: Variant::Operator, arity: 2, precedence: Precedence::L3, is_commutative: true, associativity: Associativity::Left },
        6 => &Function { identifier: "-", variant: Variant::Operator, arity: 2, precedence: Precedence::L3, is_commutative: false, associativity: Associativity::Left },
        7 => &Function { identifier: "!", variant: Variant::Operator, arity: 1, precedence: Precedence::L1, is_commutative: true, associativity: Associativity::Left },
        8 => &Function { identifier: "==", variant: Variant::Operator, arity: 2, precedence: Precedence::L4, is_commutative: true, associativity: Associativity::Left },
        9 => &Function { identifier: "!=", variant: Variant::Operator, arity: 2, precedence: Precedence::L4, is_commutative: true, associativity: Associativity::Left },
        10 => &Function { identifier: "<", variant: Variant::Operator, arity: 2, precedence: Precedence::L4, is_commutative: false, associativity: Associativity::Left },
        11 => &Function { identifier: "<=", variant: Variant::Operator, arity: 2, precedence: Precedence::L4, is_commutative: false, associativity: Associativity::Left },
        12 => &Function { identifier: ">", variant: Variant::Operator, arity: 2, precedence: Precedence::L4, is_commutative: false, associativity: Associativity::Left },
        13 => &Function { identifier: ">=", variant: Variant::Operator, arity: 2, precedence: Precedence::L4, is_commutative: false, associativity: Associativity::Left },
        14 => &Function { identifier: "&&", variant: Variant::Operator, arity: 2, precedence: Precedence::L5, is_commutative: false, associativity: Associativity::Left },
        15 => &Function { identifier: "^^", variant: Variant::Operator, arity: 2, precedence: Precedence::L5, is_commutative: false, associativity: Associativity::Left },
        16 => &Function { identifier: "||", variant: Variant::Operator, arity: 2, precedence: Precedence::L6, is_commutative: false, associativity: Associativity::Left },
        17 => &Function { identifier: "sqrt", variant: Variant::Routine, arity: 1, precedence: Precedence::L1, is_commutative: true, associativity: Associativity::Left },
        18 => &Function { identifier: "abs", variant: Variant::Routine, arity: 1, precedence: Precedence::L1, is_commutative: true, associativity: Associativity::Left },
        19 => &Function { identifier: "min", variant: Variant::Routine, arity: 2, precedence: Precedence::L1, is_commutative: true, associativity: Associativity::Left },
        _ => &Function { identifier: "max", variant: Variant::Routine, arity: 2, precedence: Precedence::L1, is_commutative: true, associativity: Associativity::Left },
    }
}

/// Whether `function` goes by `identifier` and takes `arity` arguments.
pub open spec fn answers_to(function: Function, identifier: Seq<char>, arity: int) -> bool {
    function.identifier@ == identifier && function.arity == arity
}

/// Whether `function` is an entry of the table.
pub open spec fn is_registered(function: Function) -> bool {
    exists|i: int| 0 <= i < functions().len() && #[trigger] functions()[i] == function
}

/// Whether some entry of the table, of any arity, goes by `identifier`.
pub open spec fn is_identifier(identifier: Seq<char>) -> bool {
    exists|i: int| 0 <= i < functions().len() && (#[trigger] functions()[i]).identifier@ == identifier
}

/// The entry that goes by `identifier` with exactly `arity` arguments, if
/// there is one. [`lemma_keys_are_unique`] shows that there is at most one.
pub open spec fn lookup(identifier: Seq<char>, arity: int) -> Option<Function> {
    if exists|i: int| 0 <= i < functions().len() && answers_to(#[trigger] functions()[i], identifier, arity) {
        Some(
            functions()[choose|i: int|
                0 <= i < functions().len() && answers_to(#[trigger] functions()[i], identifier, arity)],
        )
    } else {
        None
    }
}

/// The identifiers of the table, spelled out.
pub proof fn lemma_spellings()
    ensures
        functions().len() == FUNCTION_COUNT,
        functions()[0].identifier@ == seq!['-'],
        functions()[1].identifier@ == seq!['^'],
        functions()[2].identifier@ == seq!['*'],
        functions()[3].identifier@ == seq!['/'],
        functions()[4].identifier@ == seq!['%'],
        functions()[5].identifier@ == seq!['+'],
        functions()[6].identifier@ == seq!['-'],
        functions()[7].identifier@ == seq!['!'],
        functions()[8].identifier@ == seq!['=', '='],
        functions()[9].identifier@ == seq!['!', '='],
        functions()[10].identifier@ == seq!['<'],
        functions()[11].identifier@ == seq!['<', '='],
        functions()[12].identifier@ == seq!['>'],
        functions()[13].identifier@ == seq!['>', '='],
        functions()[14].identifier@ == seq!['&', '&'],
        functions()[15].identifier@ == seq!['^', '^'],
        functions()[16].identifier@ == seq!['|', '|'],
        functions()[17].identifier@ == seq!['s', 'q', 'r', 't'],
        functions()[18].identifier@ == seq!['a', 'b', 's'],
        functions()[19].identifier@ == seq!['m', 'i', 'n'],
        functions()[20].identifier@ == seq!['m', 'a', 'x'],
{
    reveal_strlit("-");
    reveal_strlit("^");
    reveal_strlit("*");
    reveal_strlit("/");
    reveal_strlit("%");
    reveal_strlit("+");
    reveal_strlit("!");
    reveal_strlit("==");
    reveal_strlit("!=");
    reveal_strlit("<");
    reveal_strlit("<=");
    reveal_strlit(">");
    reveal_strlit(">=");
    reveal_strlit("&&");
    reveal_strlit("^^");
    reveal_strlit("||");
    reveal_strlit("sqrt");
    reveal_strlit("abs");
    reveal_strlit("min");
    reveal_strlit("max");
    assert(functions()[0].identifier@ =~= seq!['-']);
    assert(functions()[1].identifier@ =~= seq!['^']);
    assert(functions()[2].identifier@ =~= seq!['*']);
    assert(functions()[3].identifier@ =~= seq!['/']);
    assert(functions()[4].identifier@ =~= seq!['%']);
    assert(functions()[5].identifier@ =~= seq!['+']);
    assert(functions()[6].identifier@ =~= seq!['-']);
    assert(functions()[7].identifier@ =~= seq!['!']);
    assert(functions()[8].identifier@ =~= seq!['=', '=']);
    assert(functions()[9].identifier@ =~= seq!['!', '=']);
    assert(functions()[10].identifier@ =~= seq!['<']);
    assert(functions()[11].identifier@ =~= seq!['<', '=']);
    assert(functions()[12].identifier@ =~= seq!['>']);
    assert(functions()[13].identifier@ =~= seq!['>', '=']);
    assert(functions()[14].identifier@ =~= seq!['&', '&']);
    assert(functions()[15].identifier@ =~= seq!['^', '^']);
    assert(functions()[16].identifier@ =~= seq!['|', '|']);
    assert(functions()[17].identifier@ =~= seq!['s', 'q', 'r', 't']);
    assert(functions()[18].identifier@ =~= seq!['a', 'b', 's']);
    assert(functions()[19].identifier@ =~= seq!['m', 'i', 'n']);
    assert(functions()[20].identifier@ =~= seq!['m', 'a', 'x']);
}

/// No two entries of the table share both identifier and arity.
pub proof fn lemma_keys_are_unique(i: int, j: int)
    requires
        0 <= i < functions().len(),
        0 <= j < functions().len(),
        functions()[i].identifier@ == functions()[j].identifier@,
        functions()[i].arity == functions()[j].arity,
    ensures
        i == j,
{
    lemma_spellings();
    let a = functions()[i].identifier@;
    let b = functions()[j].identifier@;
    assert(a.len() == b.len());
    assert(a[0] == b[0]);
    if a.len() > 1 {
        assert(a[1] == b[1]);
    }
}

/// What the table gives for an identifier and an arity is the one entry
/// with that identifier and that arity; it gives nothing only where no
/// entry has both.
pub proof fn lemma_lookup_is_exact(identifier: Seq<char>, arity: int)
    ensures
        match lookup(identifier, arity) {
            Some(function) => {
                &&& is_registered(function)
                &&& answers_to(function, identifier, arity)
                &&& forall|i: int|
                    0 <= i < functions().len() && answers_to(#[trigger] functions()[i], identifier, arity)
                        ==> functions()[i] == function
            },
            None => forall|i: int|
                0 <= i < functions().len() ==> !answers_to(#[trigger] functions()[i], identifier, arity),
        },
{
    if let Some(function) = lookup(identifier, arity) {
        let j = choose|j: int|
            0 <= j < functions().len() && answers_to(#[trigger] functions()[j], identifier, arity);
        assert(functions()[j] == function);
        assert forall|i: int|
            0 <= i < functions().len() && answers_to(#[trigger] functions()[i], identifier, arity) implies functions()[i]
            == function by {
            lemma_keys_are_unique(i, j);
        }
    }
}

/// A function of the table is what the table gives for its own identifier
/// and arity.
pub proof fn lemma_lookup_finds_registered(function: Function)
    requires
        is_registered(function),
    ensures
        lookup(function.identifier@, function.arity as int) == Some(function),
{
    let i = choose|i: int| 0 <= i < functions().len() && #[trigger] functions()[i] == function;
    assert(answers_to(functions()[i], function.identifier@, function.arity as int));
    let j = choose|j: int|
        0 <= j < functions().len() && answers_to(
            #[trigger] functions()[j],
            function.identifier@,
            function.arity as int,
        );
    lemma_keys_are_unique(i, j);
}

/// What the table gives for a name is one of its entries, of that name.
pub proof fn lemma_lookup_is_identifier(name: Seq<char>, arity: int)
    ensures
        lookup(name, arity) is Some ==> is_identifier(name),
{
    if lookup(name, arity) is Some {
        let i = choose|i: int| 0 <= i < functions().len() && answers_to(#[trigger] functions()[i], name, arity);
        assert(functions()[i].identifier@ == name);
    }
}

/// Every function of the table takes at least one argument.
pub proof fn lemma_function_takes_arguments(function: Function)
    requires
        is_registered(function),
    ensures
        function.arity >= 1,
{
}

/// The function that goes by `identifier` and takes exactly `arity`
/// arguments, or `None` where the table has no such entry.
pub fn get(identifier: &str, arity: u8) -> (found: Option<&'static Function>)
    ensures
        match lookup(identifier@, arity as int) {
            Some(function) => found == Some(&function),
            None => found.is_none(),
        },
{
    let mut i: usize = 0;
    while i < FUNCTION_COUNT
        invariant
            i <= FUNCTION_COUNT,
            functions().len() == FUNCTION_COUNT,
            forall|k: int| 0 <= k < i ==> !answers_to(#[trigger] functions()[k], identifier@, arity as int),
        decreases FUNCTION_COUNT - i,
    {
        let function = entry(i);
        if function.arity == arity && str_eq(function.identifier, identifier) {
            proof {
                assert(answers_to(functions()[i as int], identifier@, arity as int));
                let j = choose|j: int|
                    0 <= j < functions().len() && answers_to(#[trigger] functions()[j], identifier@, arity as int);
                lemma_keys_are_unique(i as int, j);
            }
            return Some(function);
        }
        i += 1;
    }
    None
}

/// Every identifier of the table, each once, whatever its arity.
pub fn identifiers() -> (names: Vec<&'static str>)
    ensures
        forall|text: Seq<char>| texts(names@).contains(text) <==> is_identifier(text),
        forall|i: int, j: int| 0 <= i < j < names.len() ==> (#[trigger] names[i])@ != (#[trigger] names[j])@,
{
    let mut names: Vec<&'static str> = Vec::new();
    let mut i: usize = 0;
    while i < FUNCTION_COUNT
        invariant
            i <= FUNCTION_COUNT,
            functions().len() == FUNCTION_COUNT,
            forall|k: int| 0 <= k < i ==> texts(names@).contains((#[trigger] functions()[k]).identifier@),
            forall|n: int| 0 <= n < names.len() ==> is_identifier((#[trigger] names[n])@),
            forall|m: int, n: int| 0 <= m < n < names.len() ==> (#[trigger] names[m])@ != (#[trigger] names[n])@,
        decreases FUNCTION_COUNT - i,
    {
        let name = entry(i).identifier;
        if !contains_str(names.as_slice(), name) {
            let ghost before = names@;
            names.push(name);
            proof {
                assert(names@[before.len() as int]@ == name@);
                assert forall|k: int| 0 <= k < i + 1 implies texts(names@).contains(
                    (#[trigger] functions()[k]).identifier@,
                ) by {
                    if k < i {
                        let n = choose|n: int| 0 <= n < before.len() && (#[trigger] before[n])@ == functions()[k].identifier@;
                        assert(names@[n]@ == functions()[k].identifier@);
                    }
                }
            }
        }
        i += 1;
    }
    names
}

/// Whether the table has a function that goes by `identifier`, whatever
/// its arity.
pub fn is_known(identifier: &str) -> (known: bool)
    ensures
        known == is_identifier(identifier@),
{
    let mut i: usize = 0;
    while i < FUNCTION_COUNT
        invariant
            i <= FUNCTION_COUNT,
            functions().len() == FUNCTION_COUNT,
            forall|k: int| 0 <= k < i ==> (#[trigger] functions()[k]).identifier@ != identifier@,
        decreases FUNCTION_COUNT - i,
    {
        if str_eq(entry(i).identifier, identifier) {
            return true;
        }
        i += 1;
    }
    false
}

} // verus!
