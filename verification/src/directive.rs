//! The directive list: which operation to apply to which column, read from
//! the command-line arguments.

use crate::decimal::{decimal_usize, parse_usize};
use crate::error::{ArgumentFault, Fault, PivotError};
use vstd::prelude::*;
use vstd::string::StrSliceExecFns;

verus! {

/// The operations on a column.
#[derive(Clone, Copy, Debug, PartialEq, Eq, Structural)]
pub enum Op {
    Sum,
    Max,
    Min,
    Avg,
}

/// One output column: `op` applied to the input column `col`, counted
/// from zero.
#[derive(Clone, Copy, Debug, PartialEq, Eq, Structural)]
pub struct Directive {
    pub op: Op,
    pub col: usize,
}

/// The operation that `name` stands for; the match is exact.
pub open spec fn op_named(name: Seq<char>) -> Option<Op> {
    if name == "sum"@ {
        Some(Op::Sum)
    } else if name == "max"@ {
        Some(Op::Max)
    } else if name == "min"@ {
        Some(Op::Min)
    } else if name == "avg"@ {
        Some(Op::Avg)
    } else {
        None
    }
}

/// `token` holds exactly one colon, at position `at`.
pub open spec fn sole_colon(token: Seq<char>, at: int) -> bool {
    &&& 0 <= at < token.len()
    &&& forall|i: int| 0 <= i < token.len() ==> (#[trigger] token[i] == ':' <==> i == at)
}

/// The directive that `token` writes, or the rule that it breaks: it must
/// fall into two parts at a single colon, the second part must be a
/// column index, and the first the name of an operation, checked in this
/// order.
pub open spec fn directive_of(token: Seq<char>) -> Result<Directive, Fault> {
    if exists|at: int| sole_colon(token, at) {
        let at = choose|at: int| sole_colon(token, at);
        let name = token.take(at);
        match decimal_usize(token.skip(at + 1)) {
            None => Err(
                Fault::ArgumentParseError { fault: ArgumentFault::DirectiveForm, token },
            ),
            Some(col) => match op_named(name) {
                None => Err(
                    Fault::ArgumentParseError { fault: ArgumentFault::Operator, token: name },
                ),
                Some(op) => Ok(Directive { op, col }),
            },
        }
    } else {
        Err(Fault::ArgumentParseError { fault: ArgumentFault::DirectiveForm, token })
    }
}

/// The directives that `tokens` write, in their order, or the failure of
/// the first token that breaks a rule.
pub open spec fn directives_of(tokens: Seq<Seq<char>>) -> Result<Seq<Directive>, Fault>
    decreases tokens.len(),
{
    if tokens.len() == 0 {
        Ok(Seq::empty())
    } else {
        match directives_of(tokens.drop_last()) {
            Err(fault) => Err(fault),
            Ok(directives) => match directive_of(tokens.last()) {
                Err(fault) => Err(fault),
                Ok(directive) => Ok(directives.push(directive)),
            },
        }
    }
}

/// What the arguments ask for: the pivot column and the directive list.
/// There must be at least two arguments, the first a column index and
/// each of the others a directive; the first rule broken, in this order,
/// is the failure.
pub open spec fn parsed(args: Seq<Seq<char>>) -> Result<(usize, Seq<Directive>), Fault> {
    if args.len() < 2 {
        Err(Fault::ArgumentCountError { given: args.len() as int })
    } else {
        match decimal_usize(args[0]) {
            None => Err(
                Fault::ArgumentParseError { fault: ArgumentFault::PivotIndex, token: args[0] },
            ),
            Some(pivot) => match directives_of(args.skip(1)) {
                Err(fault) => Err(fault),
                Ok(directives) => Ok((pivot, directives)),
            },
        }
    }
}

/// Whether two texts are the same, character by character.
fn same_text(a: &str, b: &str) -> (same: bool)
    ensures
        same == (a@ == b@),
{
    a.to_owned() == b.to_owned()
}

/// Reads the name of an operation.
pub fn parse_op(name: &str) -> (op: Option<Op>)
    ensures
        op == op_named(name@),
{
    if same_text(name, "sum") {
        Some(Op::Sum)
    } else if same_text(name, "max") {
        Some(Op::Max)
    } else if same_text(name, "min") {
        Some(Op::Min)
    } else if same_text(name, "avg") {
        Some(Op::Avg)
    } else {
        None
    }
}

/// Reads one `operation:column` argument.
pub fn parse_directive(token: &str) -> (res: Result<Directive, PivotError>)
    ensures
        match res {
            Ok(directive) => directive_of(token@) == Ok::<Directive, Fault>(directive),
            Err(e) => directive_of(token@) == Err::<Directive, Fault>(e@),
        },
{
    let n: usize = token.unicode_len();
    let mut at: usize = n;
    let mut colons: usize = 0;
    let mut i: usize = 0;
    while i < n
        invariant
            n == token@.len(),
            0 <= i <= n,
            colons <= i,
            colons == 0 ==> at == n && forall|j: int| 0 <= j < i ==> token@[j] != ':',
            colons >= 1 ==> at < i && token@[at as int] == ':' && forall|j: int|
                0 <= j < at ==> token@[j] != ':',
            colons == 1 ==> forall|j: int| at < j < i ==> token@[j] != ':',
            colons >= 2 ==> exists|j: int| at < j < i && token@[j] == ':',
        decreases n - i,
    {
        if token.get_char(i) == ':' {
            if colons == 0 {
                at = i;
            }
            colons = colons + 1;
        }
        i = i + 1;
    }
    if colons != 1 {
        proof {
            assert forall|p: int| !sole_colon(token@, p) by {
                if sole_colon(token@, p) {
                    if colons == 0 {
                        assert(token@[p] == ':');
                    } else {
                        let j = choose|j: int| at < j < n && token@[j] == ':';
                        assert(token@[at as int] == ':');
                        assert(token@[j] == ':');
                    }
                }
            }
        }
        return Err(
            PivotError::ArgumentParseError {
                fault: ArgumentFault::DirectiveForm,
                token: token.to_owned(),
            },
        );
    }
    proof {
        assert(sole_colon(token@, at as int));
        let chosen = choose|p: int| sole_colon(token@, p);
        assert(token@[at as int] == ':');
        assert(chosen == at);
    }
    let name = token.substring_char(0, at);
    let index = token.substring_char(at + 1, n);
    assert(name@ =~= token@.take(at as int));
    assert(index@ =~= token@.skip(at + 1));
    match parse_usize(index) {
        None => Err(
            PivotError::ArgumentParseError {
                fault: ArgumentFault::DirectiveForm,
                token: token.to_owned(),
            },
        ),
        Some(col) => match parse_op(name) {
            None => Err(
                PivotError::ArgumentParseError {
                    fault: ArgumentFault::Operator,
                    token: name.to_owned(),
                },
            ),
            Some(op) => Ok(Directive { op, col }),
        },
    }
}

/// Reads the arguments that follow the program's name: the pivot column,
/// then one directive or more.
pub fn parse(args: &Vec<String>) -> (res: Result<(usize, Vec<Directive>), PivotError>)
    ensures
        match res {
            Ok((pivot, directives)) => parsed(args.deep_view()) == Ok::<
                (usize, Seq<Directive>),
                Fault,
            >((pivot, directives@)),
            Err(e) => parsed(args.deep_view()) == Err::<(usize, Seq<Directive>), Fault>(e@),
        },
{
    let ghost texts = args.deep_view();
    if args.len() < 2 {
        return Err(PivotError::ArgumentCountError { given: args.len() });
    }
    assert(texts[0] == args[0]@);
    let pivot: usize = match parse_usize(args[0].as_str()) {
        None => {
            return Err(
                PivotError::ArgumentParseError {
                    fault: ArgumentFault::PivotIndex,
                    token: args[0].clone(),
                },
            );
        },
        Some(pivot) => pivot,
    };
    let ghost tokens = texts.skip(1);
    let mut directives: Vec<Directive> = Vec::new();
    let mut i: usize = 1;
    assert(tokens.take(0) =~= Seq::<Seq<char>>::empty());
    while i < args.len()
        invariant
            1 <= i <= args.len(),
            texts == args.deep_view(),
            tokens == texts.skip(1),
            decimal_usize(texts[0]) == Some(pivot),
            directives_of(tokens.take(i - 1)) == Ok::<Seq<Directive>, Fault>(directives@),
        decreases args.len() - i,
    {
        let ghost done = tokens.take(i - 1);
        let ghost next = tokens.take(i as int);
        assert(next.drop_last() =~= done);
        assert(next.last() == args[i as int]@);
        match parse_directive(args[i].as_str()) {
            Err(e) => {
                proof {
                    assert(directives_of(next) == Err::<Seq<Directive>, Fault>(e@));
                    lemma_failure_stays(tokens, i as int);
                }
                return Err(e);
            },
            Ok(directive) => {
                directives.push(directive);
            },
        }
        i = i + 1;
    }
    assert(tokens.take(i - 1) =~= tokens);
    Ok((pivot, directives))
}

/// Once a token has failed, the tokens after it change nothing.
proof fn lemma_failure_stays(tokens: Seq<Seq<char>>, n: int)
    requires
        0 <= n <= tokens.len(),
        directives_of(tokens.take(n)) is Err,
    ensures
        directives_of(tokens) == directives_of(tokens.take(n)),
    decreases tokens.len() - n,
{
    if n == tokens.len() {
        assert(tokens.take(n) =~= tokens);
    } else {
        assert(tokens.take(n + 1).drop_last() =~= tokens.take(n));
        lemma_failure_stays(tokens, n + 1);
    }
}

} // verus!
