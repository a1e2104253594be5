//! Evaluation of call expressions against an environment of named values.
//!
//! The meaning of a program is given by `eval_spec` and its companions,
//! functions from a state (the bindings and the lines printed so far), an
//! expression and a depth allowance to a result and a new state. The
//! executable evaluator is proved to compute exactly that. Nesting deeper
//! than the allowance is an error, `DepthExceeded`. `run` allows as much
//! nesting as the machine can count, so that only the stack bounds
//! recursion; `run_with_depth` takes the allowance from its caller.

use crate::bignat::Order;
use crate::decimal::{double_digits, format_double, format_long, integer_digits};
use crate::double::{
    clamped, comparison, difference_bits, integer_bits, product_bits, quotient_bits, sum_bits,
    truncated, Double,
};
use crate::parse::{terms_of, Expr, Term};
use crate::text::{chars_of, same_text, string_of_bytes};
use vstd::prelude::*;

verus! {

/// Why a program stopped.
#[derive(Debug, PartialEq, Eq, Clone, Copy, Structural)]
pub enum RuntimeError {
    /// A top-level expression is not a call.
    UnsupportedOperation,
    /// A name is read that is bound to nothing.
    UndeclaredVariable,
    /// A call names neither a bound value nor a built-in.
    UndeclaredFunction,
    /// A call has the wrong number of arguments.
    ArityMismatch,
    /// A value is not of the kind that its place asks for.
    TypeMismatch,
    /// A value that is no function is called.
    NotAFunction,
    /// Values are compared that have no order.
    IncomparableTypes,
    /// Calls are nested deeper than the allowance.
    DepthExceeded,
}

/// The built-in operators.
#[derive(Debug, PartialEq, Eq, Clone, Copy, Structural)]
pub enum Builtin {
    Assign,
    Func,
    Print,
    Times,
    Divide,
    Plus,
    Minus,
    Equal,
    Greater,
    Less,
    IfElse,
}

/// The kinds of number, from the narrowest to the widest.
#[derive(Debug, PartialEq, Eq, Clone, Copy, Structural)]
pub enum Kind {
    Int,
    Long,
    Double,
}

/// The bindings and the lines printed so far.
pub struct State {
    pub vars: Map<Seq<char>, Term>,
    pub output: Seq<Seq<char>>,
}

/// What an evaluation gives and the state that it leaves.
pub struct Outcome {
    pub result: Result<Term, RuntimeError>,
    pub state: State,
}

/// What binding the parameters of a call gives: an error or none, the
/// bindings for the body, and the state of the caller.
pub struct Bound {
    pub error: Option<RuntimeError>,
    pub vars: Map<Seq<char>, Term>,
    pub caller: State,
}

/// The nesting that `run` allows: as much as the machine can count.
pub const DEFAULT_DEPTH: usize = usize::MAX;

/// The outcome that is the error `e` in the state `st`.
pub open spec fn failure(st: State, e: RuntimeError) -> Outcome {
    Outcome { result: Err(e), state: st }
}

/// The outcome that is the value `t` in the state `st`.
pub open spec fn success(st: State, t: Term) -> Outcome {
    Outcome { result: Ok(t), state: st }
}

/// The built-in that a name stands for.
pub open spec fn builtin_named(name: Seq<char>) -> Option<Builtin> {
    if name == "="@ {
        Some(Builtin::Assign)
    } else if name == "func"@ {
        Some(Builtin::Func)
    } else if name == "print"@ {
        Some(Builtin::Print)
    } else if name == "*"@ {
        Some(Builtin::Times)
    } else if name == "/"@ {
        Some(Builtin::Divide)
    } else if name == "+"@ {
        Some(Builtin::Plus)
    } else if name == "-"@ {
        Some(Builtin::Minus)
    } else if name == "=="@ {
        Some(Builtin::Equal)
    } else if name == ">"@ {
        Some(Builtin::Greater)
    } else if name == "<"@ {
        Some(Builtin::Less)
    } else if name == "ifElse"@ {
        Some(Builtin::IfElse)
    } else {
        None
    }
}

/// The wider of two kinds.
pub open spec fn wider(a: Kind, b: Kind) -> Kind {
    if a == Kind::Double || b == Kind::Double {
        Kind::Double
    } else if a == Kind::Long || b == Kind::Long {
        Kind::Long
    } else {
        Kind::Int
    }
}

/// The kind of a number; nothing for what is no number.
pub open spec fn kind_of(t: Term) -> Option<Kind> {
    match t {
        Term::IntLiteral(_) => Some(Kind::Int),
        Term::LongLiteral(_) => Some(Kind::Long),
        Term::DoubleLiteral(_) => Some(Kind::Double),
        _ => None,
    }
}

/// A number as a double: arithmetic is done on doubles whatever the kind.
pub open spec fn double_of(t: Term) -> u64 {
    match t {
        Term::IntLiteral(v) => integer_bits(v as int),
        Term::LongLiteral(v) => integer_bits(v as int),
        Term::DoubleLiteral(d) => d,
        _ => 0,
    }
}

/// A double as a number of the given kind: integers by cutting off the
/// fraction, held to the range of the kind.
pub open spec fn narrowed(kind: Kind, bits: u64) -> Term {
    match kind {
        Kind::Int => Term::IntLiteral(
            clamped(truncated(bits), i32::MIN as int, i32::MAX as int) as i32,
        ),
        Kind::Long => Term::LongLiteral(
            clamped(truncated(bits), i64::MIN as int, i64::MAX as int) as i64,
        ),
        Kind::Double => Term::DoubleLiteral(bits),
    }
}

/// One step of an arithmetic operator on doubles.
pub open spec fn combined(op: Builtin, acc: u64, operand: u64) -> u64 {
    match op {
        Builtin::Plus => sum_bits(acc, operand),
        Builtin::Minus => difference_bits(acc, operand),
        Builtin::Times => product_bits(acc, operand),
        _ => quotient_bits(acc, operand),
    }
}

/// The integer in an integer literal.
pub open spec fn integer_of(t: Term) -> int {
    match t {
        Term::IntLiteral(v) => v as int,
        Term::LongLiteral(v) => v as int,
        _ => 0,
    }
}

/// How the number `a` stands to the number `b`: integers are compared as
/// integers, any other pair as doubles, where a NaN has no order.
pub open spec fn number_order(a: Term, b: Term) -> Option<Order> {
    if kind_of(a) != Some(Kind::Double) && kind_of(b) != Some(Kind::Double) {
        Some(crate::bignat::order_of(integer_of(a), integer_of(b)))
    } else {
        comparison(double_of(a), double_of(b))
    }
}

/// Whether one pair of neighbours lets a comparison chain go on.
///
/// Numbers: `==` asks that they are equal; `>` that the right one is not
/// greater than or equal to the left one; `<` that it is not less than or
/// equal to it. Strings: `==` and `<` both ask that they are the same, `>`
/// has no order for them. A left value that is a boolean or a function is
/// of the wrong kind for `==` and has no order for `>` and `<`.
pub open spec fn pair_holds(op: Builtin, left: Term, right: Term) -> Result<bool, RuntimeError> {
    if kind_of(left) is Some {
        if kind_of(right) is Some {
            let back = number_order(right, left);
            Ok(
                match op {
                    Builtin::Equal => back == Some(Order::Same),
                    Builtin::Greater => !(back == Some(Order::Same) || back == Some(Order::Above)),
                    _ => !(back == Some(Order::Same) || back == Some(Order::Below)),
                },
            )
        } else {
            Err(RuntimeError::TypeMismatch)
        }
    } else if left is StringLiteral && op != Builtin::Greater {
        if right is StringLiteral {
            Ok(left->StringLiteral_0 == right->StringLiteral_0)
        } else {
            Err(RuntimeError::TypeMismatch)
        }
    } else if op == Builtin::Equal {
        Err(RuntimeError::TypeMismatch)
    } else {
        Err(RuntimeError::IncomparableTypes)
    }
}

/// The text of a literal; nothing for a name or a call.
pub open spec fn text_of(t: Term) -> Option<Seq<char>> {
    match t {
        Term::StringLiteral(s) => Some(s),
        Term::IntLiteral(v) => Some(chars_of(integer_digits(v as int))),
        Term::LongLiteral(v) => Some(chars_of(integer_digits(v as int))),
        Term::DoubleLiteral(d) => Some(chars_of(double_digits(d))),
        Term::BooleanLiteral(b) => Some(
            if b {
                "true"@
            } else {
                "false"@
            },
        ),
        _ => None,
    }
}

/// The value of an expression.
///
/// A literal is its own value, and so is a call of `func`. A name stands
/// for the value of what it is bound to. A call of a bound name is a call
/// of a function value; a call of any other name is a call of a built-in,
/// whose result is evaluated once more.
pub open spec fn eval_spec(st: State, e: Term, depth: nat) -> Outcome
    decreases depth, 0nat,
{
    match e {
        Term::Identifier(name) => if !st.vars.contains_key(name) {
            failure(st, RuntimeError::UndeclaredVariable)
        } else if depth == 0 {
            failure(st, RuntimeError::DepthExceeded)
        } else {
            eval_spec(st, st.vars[name], (depth - 1) as nat)
        },
        Term::FuncCall(name, args) => if name == "func"@ {
            success(st, e)
        } else if st.vars.contains_key(name) {
            if depth == 0 {
                failure(st, RuntimeError::DepthExceeded)
            } else {
                call_spec(st, st.vars[name], args, (depth - 1) as nat)
            }
        } else {
            match builtin_named(name) {
                Some(op) => if depth == 0 {
                    failure(st, RuntimeError::DepthExceeded)
                } else {
                    let r = apply_spec(st, op, args, (depth - 1) as nat);
                    match r.result {
                        Ok(t) => eval_spec(r.state, t, (depth - 1) as nat),
                        Err(_) => r,
                    }
                },
                None => failure(st, RuntimeError::UndeclaredFunction),
            }
        },
        _ => success(st, e),
    }
}

/// The call of a bound value with arguments.
///
/// The value must be a call of `func` with one parameter for each
/// argument, followed by the body. The arguments are evaluated in the
/// state of the caller, from left to right; the body is evaluated with the
/// bindings that the caller had before that, and the parameters. Of what
/// the body does, only the printing reaches the caller.
pub open spec fn call_spec(st: State, f: Term, args: Seq<Term>, depth: nat) -> Outcome
    decreases depth, args.len() + 2,
{
    match f {
        Term::FuncCall(name, params) => if name != "func"@ {
            failure(st, RuntimeError::NotAFunction)
        } else if params.len() != args.len() + 1 {
            failure(st, RuntimeError::ArityMismatch)
        } else {
            let b = bind_spec(st, st.vars, params, args, 0, depth);
            match b.error {
                Some(e) => failure(b.caller, e),
                None => {
                    let r = eval_spec(
                        State { vars: b.vars, output: b.caller.output },
                        params.last(),
                        depth,
                    );
                    Outcome {
                        result: r.result,
                        state: State { vars: b.caller.vars, output: r.state.output },
                    }
                },
            }
        },
        _ => failure(st, RuntimeError::NotAFunction),
    }
}

/// Binds the parameters from the `i`-th on to the values of the arguments.
/// A parameter that is no name binds nothing, and its argument is not
/// evaluated.
pub open spec fn bind_spec(
    caller: State,
    vars: Map<Seq<char>, Term>,
    params: Seq<Term>,
    args: Seq<Term>,
    i: int,
    depth: nat,
) -> Bound
    decreases depth, args.len() - i + 1,
{
    if i < 0 || i >= args.len() || i >= params.len() {
        Bound { error: None, vars: vars, caller: caller }
    } else {
        match params[i] {
            Term::Identifier(name) => {
                let r = eval_spec(caller, args[i], depth);
                match r.result {
                    Err(e) => Bound { error: Some(e), vars: vars, caller: r.state },
                    Ok(v) => bind_spec(r.state, vars.insert(name, v), params, args, i + 1, depth),
                }
            },
            _ => bind_spec(caller, vars, params, args, i + 1, depth),
        }
    }
}

/// Whether all the terms are names.
pub open spec fn all_names(terms: Seq<Term>) -> bool {
    forall|i: int| 0 <= i < terms.len() ==> (#[trigger] terms[i]) is Identifier
}

/// What a built-in does with its unevaluated arguments.
pub open spec fn apply_spec(st: State, op: Builtin, args: Seq<Term>, depth: nat) -> Outcome
    decreases depth, args.len() + 3,
{
    match op {
        Builtin::Assign => if args.len() != 2 {
            failure(st, RuntimeError::ArityMismatch)
        } else if !(args[0] is Identifier) {
            failure(st, RuntimeError::TypeMismatch)
        } else {
            let r = eval_spec(st, args[1], depth);
            match r.result {
                Ok(v) => success(
                    State {
                        vars: r.state.vars.insert(args[0]->Identifier_0, v),
                        output: r.state.output,
                    },
                    v,
                ),
                Err(_) => r,
            }
        },
        Builtin::Func => if args.len() < 1 {
            failure(st, RuntimeError::ArityMismatch)
        } else if !all_names(args.drop_last()) || !(args.last() is FuncCall) {
            failure(st, RuntimeError::TypeMismatch)
        } else {
            success(st, Term::FuncCall("func"@, args))
        },
        Builtin::Print => if args.len() != 1 {
            failure(st, RuntimeError::ArityMismatch)
        } else {
            let r = eval_spec(st, args[0], depth);
            match r.result {
                Ok(v) => match text_of(v) {
                    Some(text) => success(
                        State { vars: r.state.vars, output: r.state.output.push(text) },
                        Term::StringLiteral(text),
                    ),
                    None => failure(r.state, RuntimeError::TypeMismatch),
                },
                Err(_) => r,
            }
        },
        Builtin::Plus => if args.len() < 1 {
            failure(st, RuntimeError::ArityMismatch)
        } else {
            fold_spec(st, op, args, 0, integer_bits(0), Kind::Int, depth)
        },
        Builtin::Times => if args.len() < 1 {
            failure(st, RuntimeError::ArityMismatch)
        } else {
            fold_spec(st, op, args, 0, integer_bits(1), Kind::Int, depth)
        },
        Builtin::Minus | Builtin::Divide => if args.len() < 1 {
            failure(st, RuntimeError::ArityMismatch)
        } else {
            let r = eval_spec(st, args[0], depth);
            match r.result {
                Ok(v) => match kind_of(v) {
                    Some(kind) => fold_spec(r.state, op, args, 1, double_of(v), kind, depth),
                    None => failure(r.state, RuntimeError::TypeMismatch),
                },
                Err(_) => r,
            }
        },
        Builtin::Equal | Builtin::Greater | Builtin::Less => if args.len() < 1 {
            failure(st, RuntimeError::ArityMismatch)
        } else {
            chain_spec(st, op, args, 0, depth)
        },
        Builtin::IfElse => if args.len() != 3 {
            failure(st, RuntimeError::ArityMismatch)
        } else {
            let r = eval_spec(st, args[0], depth);
            match r.result {
                Ok(v) => match v {
                    Term::BooleanLiteral(b) => success(
                        r.state,
                        if b {
                            args[1]
                        } else {
                            args[2]
                        },
                    ),
                    _ => failure(r.state, RuntimeError::TypeMismatch),
                },
                Err(_) => r,
            }
        },
    }
}

/// An arithmetic operator on the arguments from the `i`-th on: each is
/// evaluated and combined, as a double, with what the earlier ones gave;
/// the result has the widest kind among the operands.
pub open spec fn fold_spec(
    st: State,
    op: Builtin,
    args: Seq<Term>,
    i: int,
    acc: u64,
    kind: Kind,
    depth: nat,
) -> Outcome
    decreases depth, args.len() - i + 1,
{
    if i < 0 || i >= args.len() {
        success(st, narrowed(kind, acc))
    } else {
        let r = eval_spec(st, args[i], depth);
        match r.result {
            Ok(v) => match kind_of(v) {
                Some(k) => fold_spec(
                    r.state,
                    op,
                    args,
                    i + 1,
                    combined(op, acc, double_of(v)),
                    wider(kind, k),
                    depth,
                ),
                None => failure(r.state, RuntimeError::TypeMismatch),
            },
            Err(_) => r,
        }
    }
}

/// A comparison on each pair of neighbours from the `i`-th argument on.
/// Both values of a pair are evaluated for that pair.
pub open spec fn chain_spec(st: State, op: Builtin, args: Seq<Term>, i: int, depth: nat) -> Outcome
    decreases depth, args.len() - i + 1,
{
    if i < 0 || i + 1 >= args.len() {
        success(st, Term::BooleanLiteral(true))
    } else {
        let l = eval_spec(st, args[i], depth);
        match l.result {
            Ok(left) => {
                let r = eval_spec(l.state, args[i + 1], depth);
                match r.result {
                    Ok(right) => match pair_holds(op, left, right) {
                        Ok(holds) => if holds {
                            chain_spec(r.state, op, args, i + 1, depth)
                        } else {
                            success(r.state, Term::BooleanLiteral(false))
                        },
                        Err(e) => failure(r.state, e),
                    },
                    Err(_) => r,
                }
            },
            Err(_) => l,
        }
    }
}

/// One top-level statement: a call, evaluated as any call is. Anything
/// else is no statement.
pub open spec fn statement_spec(st: State, e: Term, depth: nat) -> Outcome {
    match e {
        Term::FuncCall(_, _) => eval_spec(st, e, depth),
        _ => failure(st, RuntimeError::UnsupportedOperation),
    }
}

/// The statements from the `i`-th on, in order, until one fails.
pub open spec fn program_spec(st: State, program: Seq<Term>, i: int, depth: nat) -> (Result<
    (),
    RuntimeError,
>, State)
    decreases program.len() - i,
{
    if i < 0 || i >= program.len() {
        (Ok(()), st)
    } else {
        let r = statement_spec(st, program[i], depth);
        match r.result {
            Ok(_) => program_spec(r.state, program, i + 1, depth),
            Err(e) => (Err(e), r.state),
        }
    }
}

/// One name with its value.
pub struct Binding {
    pub name: String,
    pub value: Expr,
}

/// The mapping that a list of bindings stands for: a later binding of a
/// name hides an earlier one.
pub open spec fn bindings_map(b: Seq<Binding>) -> Map<Seq<char>, Term>
    decreases b.len(),
{
    if b.len() == 0 {
        Map::empty()
    } else {
        bindings_map(b.drop_last()).insert(b.last().name@, b.last().value@)
    }
}

/// Bindings after the `i`-th that do not name `name` do not matter to it.
proof fn lemma_bindings_tail(b: Seq<Binding>, name: Seq<char>, i: int)
    requires
        0 <= i <= b.len(),
        forall|j: int| i <= j < b.len() ==> b[j].name@ != name,
    ensures
        bindings_map(b).contains_key(name) == bindings_map(b.take(i)).contains_key(name),
        bindings_map(b).contains_key(name) ==> bindings_map(b)[name] == bindings_map(
            b.take(i),
        )[name],
    decreases b.len() - i,
{
    if i == b.len() {
        assert(b.take(i) =~= b);
    } else {
        let shorter = b.drop_last();
        assert(shorter.take(i) =~= b.take(i));
        lemma_bindings_tail(shorter, name, i);
    }
}

/// The lines that a list of strings holds.
pub open spec fn lines_of(lines: Seq<String>) -> Seq<Seq<char>> {
    Seq::new(lines.len(), |i: int| lines[i]@)
}

/// Whether no name occurs twice in a list of bindings.
pub open spec fn distinct_names(b: Seq<Binding>) -> bool {
    forall|i: int, j: int| 0 <= i < j < b.len() ==> b[i].name@ != b[j].name@
}

/// Putting a new value in the place of a binding binds its name anew and
/// leaves the other names as they are.
proof fn lemma_bindings_update(b: Seq<Binding>, i: int, binding: Binding)
    requires
        0 <= i < b.len(),
        binding.name@ == b[i].name@,
        distinct_names(b),
    ensures
        bindings_map(b.update(i, binding)) == bindings_map(b).insert(
            binding.name@,
            binding.value@,
        ),
        distinct_names(b.update(i, binding)),
    decreases b.len(),
{
    let u = b.update(i, binding);
    let shorter = b.drop_last();
    if i == b.len() - 1 {
        assert(u.drop_last() =~= shorter);
        assert(bindings_map(u) =~= bindings_map(b).insert(binding.name@, binding.value@));
    } else {
        assert(u.drop_last() =~= shorter.update(i, binding));
        assert(u.last() == b.last());
        assert(b[i].name@ != b[b.len() - 1].name@);
        lemma_bindings_update(shorter, i, binding);
        assert(bindings_map(u) =~= bindings_map(b).insert(binding.name@, binding.value@));
    }
}

/// The mutable state of a run: a mapping from names to values, held as
/// one binding for each name that is bound.
pub struct Environment {
    vars: Vec<Binding>,
}

impl View for Environment {
    type V = Map<Seq<char>, Term>;

    closed spec fn view(&self) -> Map<Seq<char>, Term> {
        bindings_map(self.vars@)
    }
}

impl Clone for Environment {
    fn clone(&self) -> (r: Self)
        ensures
            r@ == self@,
    {
        proof {
            use_type_invariant(self);
        }
        let mut out: Vec<Binding> = Vec::new();
        let mut i: usize = 0;
        proof {
            assert(self.vars@.take(0) =~= out@);
        }
        while i < self.vars.len()
            invariant
                i <= self.vars.len(),
                out.len() == i,
                forall|j: int| 0 <= j < i ==> out@[j].name@ == self.vars@[j].name@,
                bindings_map(out@) == bindings_map(self.vars@.take(i as int)),
            decreases self.vars.len() - i,
        {
            let b = &self.vars[i];
            let copy = Binding { name: b.name.clone(), value: b.value.clone() };
            proof {
                assert(out@.push(copy).drop_last() =~= out@);
                assert(self.vars@.take(i + 1).drop_last() =~= self.vars@.take(i as int));
            }
            out.push(copy);
            i = i + 1;
        }
        proof {
            assert(self.vars@.take(self.vars.len() as int) =~= self.vars@);
        }
        Environment { vars: out }
    }
}

impl Environment {
    /// No name occurs twice.
    #[verifier::type_invariant]
    spec fn well_formed(self) -> bool {
        distinct_names(self.vars@)
    }

    /// The environment at the start of a run: nothing is bound.
    pub fn new() -> (r: Environment)
        ensures
            r@ == Map::<Seq<char>, Term>::empty(),
    {
        Environment { vars: Vec::new() }
    }

    /// How many names are bound.
    pub fn len(&self) -> (n: usize)
        ensures
            n == self@.dom().len(),
            self@.dom().finite(),
    {
        proof {
            use_type_invariant(self);
            lemma_bindings_count(self.vars@);
        }
        self.vars.len()
    }

    /// The value bound to a name, if there is one.
    pub fn lookup(&self, name: &String) -> (r: Option<Expr>)
        ensures
            r is Some <==> self@.contains_key(name@),
            r matches Some(e) ==> e@ == self@[name@],
    {
        let mut i: usize = self.vars.len();
        proof {
            assert(self.vars@.take(0).len() == 0);
        }
        while i > 0
            invariant
                i <= self.vars.len(),
                forall|j: int| i <= j < self.vars.len() ==> self.vars@[j].name@ != name@,
            decreases i,
        {
            i = i - 1;
            if self.vars[i].name == *name {
                proof {
                    lemma_bindings_tail(self.vars@, name@, i + 1);
                    assert(self.vars@.take(i + 1).drop_last() =~= self.vars@.take(i as int));
                }
                return Some(self.vars[i].value.clone());
            }
        }
        proof {
            lemma_bindings_tail(self.vars@, name@, 0);
        }
        None
    }

    /// Binds a name to a value; an earlier binding of the name is replaced.
    pub fn insert(&mut self, name: String, value: Expr)
        ensures
            final(self)@ == old(self)@.insert(name@, value@),
    {
        proof {
            use_type_invariant(&*self);
        }
        let mut vars: Vec<Binding> = Vec::new();
        core::mem::swap(&mut self.vars, &mut vars);
        let binding = Binding { name, value };
        let mut i: usize = 0;
        while i < vars.len() && !(vars[i].name == binding.name)
            invariant
                i <= vars.len(),
                vars@ == old(self).vars@,
                forall|j: int| 0 <= j < i ==> vars@[j].name@ != binding.name@,
            decreases vars.len() - i,
        {
            i = i + 1;
        }
        if i < vars.len() {
            proof {
                lemma_bindings_update(vars@, i as int, binding);
            }
            vars.set(i, binding);
        } else {
            proof {
                assert(vars@.push(binding).drop_last() =~= vars@);
            }
            vars.push(binding);
        }
        self.vars = vars;
    }
}

/// As many names are bound as there are bindings, where no name occurs twice.
proof fn lemma_bindings_count(b: Seq<Binding>)
    requires
        distinct_names(b),
    ensures
        bindings_map(b).dom().finite(),
        bindings_map(b).dom().len() == b.len(),
        forall|k: Seq<char>|
            bindings_map(b).contains_key(k) ==> exists|i: int|
                0 <= i < b.len() && (#[trigger] b[i]).name@ == k,
    decreases b.len(),
{
    if b.len() > 0 {
        let shorter = b.drop_last();
        lemma_bindings_count(shorter);
        let k = b.last().name@;
        if bindings_map(shorter).contains_key(k) {
            let i = choose|i: int| 0 <= i < shorter.len() && (#[trigger] shorter[i]).name@ == k;
            assert(b[i].name@ == b[b.len() - 1].name@);
        }
        assert forall|key: Seq<char>| bindings_map(b).contains_key(key) implies exists|i: int|
            0 <= i < b.len() && (#[trigger] b[i]).name@ == key by {
            if key == k {
                assert(b[b.len() - 1].name@ == key);
            } else {
                let i = choose|i: int|
                    0 <= i < shorter.len() && (#[trigger] shorter[i]).name@ == key;
                assert(b[i].name@ == key);
            }
        }
    }
}

/// What a run printed and how it ended.
pub struct Report {
    pub output: Vec<String>,
    pub result: Result<(), RuntimeError>,
}

/// The state that an environment and the lines printed make.
pub open spec fn state_of(env: Environment, out: Vec<String>) -> State {
    State { vars: env@, output: lines_of(out@) }
}

/// Whether a result, an environment and the lines printed are what an
/// outcome says.
pub open spec fn agrees(
    r: Result<Expr, RuntimeError>,
    env: Environment,
    out: Vec<String>,
    o: Outcome,
) -> bool {
    &&& state_of(env, out) == o.state
    &&& match o.result {
        Ok(t) => r is Ok && r->Ok_0@ == t,
        Err(e) => r is Err && r->Err_0 == e,
    }
}

/// The built-in that a name stands for.
pub fn find_builtin(name: &String) -> (r: Option<Builtin>)
    ensures
        r == builtin_named(name@),
{
    if same_text(name, "=") {
        Some(Builtin::Assign)
    } else if same_text(name, "func") {
        Some(Builtin::Func)
    } else if same_text(name, "print") {
        Some(Builtin::Print)
    } else if same_text(name, "*") {
        Some(Builtin::Times)
    } else if same_text(name, "/") {
        Some(Builtin::Divide)
    } else if same_text(name, "+") {
        Some(Builtin::Plus)
    } else if same_text(name, "-") {
        Some(Builtin::Minus)
    } else if same_text(name, "==") {
        Some(Builtin::Equal)
    } else if same_text(name, ">") {
        Some(Builtin::Greater)
    } else if same_text(name, "<") {
        Some(Builtin::Less)
    } else if same_text(name, "ifElse") {
        Some(Builtin::IfElse)
    } else {
        None
    }
}

/// The text of a literal. A name or a call has none.
pub fn to_string(expr: &Expr) -> (r: Result<String, RuntimeError>)
    ensures
        match text_of(expr@) {
            Some(text) => r is Ok && r->Ok_0@ == text,
            None => r == Err::<String, RuntimeError>(RuntimeError::TypeMismatch),
        },
{
    match expr {
        Expr::StringLiteral(s) => Ok(s.clone()),
        Expr::IntLiteral(v) => Ok(string_of_bytes(&format_long(*v as i64))),
        Expr::LongLiteral(v) => Ok(string_of_bytes(&format_long(*v))),
        Expr::DoubleLiteral(d) => Ok(string_of_bytes(&format_double(d))),
        Expr::BooleanLiteral(b) => Ok(
            if *b {
                String::from_str("true")
            } else {
                String::from_str("false")
            },
        ),
        _ => Err(RuntimeError::TypeMismatch),
    }
}

/// The kind of a number and the number as a double.
fn number_of(expr: &Expr) -> (r: Option<(Kind, Double)>)
    ensures
        kind_of(expr@) is Some <==> r is Some,
        r matches Some(pair) ==> Some(pair.0) == kind_of(expr@) && pair.1@ == double_of(expr@),
{
    match expr {
        Expr::IntLiteral(v) => Some((Kind::Int, Double::from_i32(*v))),
        Expr::LongLiteral(v) => Some((Kind::Long, Double::from_i64(*v))),
        Expr::DoubleLiteral(d) => Some((Kind::Double, *d)),
        _ => None,
    }
}

/// The wider of two kinds.
fn widen(a: Kind, b: Kind) -> (r: Kind)
    ensures
        r == wider(a, b),
{
    match (a, b) {
        (Kind::Double, _) => Kind::Double,
        (_, Kind::Double) => Kind::Double,
        (Kind::Long, _) => Kind::Long,
        (_, Kind::Long) => Kind::Long,
        _ => Kind::Int,
    }
}

/// A double as a number of the given kind.
fn narrow(kind: Kind, value: &Double) -> (r: Expr)
    ensures
        r@ == narrowed(kind, value@),
{
    match kind {
        Kind::Int => Expr::IntLiteral(value.to_i32()),
        Kind::Long => Expr::LongLiteral(value.to_i64()),
        Kind::Double => Expr::DoubleLiteral(*value),
    }
}

/// One step of an arithmetic operator.
fn combine(op: Builtin, acc: &Double, operand: &Double) -> (r: Double)
    ensures
        r@ == combined(op, acc@, operand@),
{
    match op {
        Builtin::Plus => acc.add(operand),
        Builtin::Minus => acc.sub(operand),
        Builtin::Times => acc.mul(operand),
        _ => acc.div(operand),
    }
}

/// How one integer stands to another.
fn order_integers(a: i64, b: i64) -> (r: Order)
    ensures
        r == crate::bignat::order_of(a as int, b as int),
{
    if a < b {
        Order::Below
    } else if a == b {
        Order::Same
    } else {
        Order::Above
    }
}

/// How one number stands to another.
fn order_numbers(a: &Expr, b: &Expr) -> (r: Option<Order>)
    requires
        kind_of(a@) is Some,
        kind_of(b@) is Some,
    ensures
        r == number_order(a@, b@),
{
    match (a, b) {
        (Expr::IntLiteral(x), Expr::IntLiteral(y)) => Some(order_integers(*x as i64, *y as i64)),
        (Expr::IntLiteral(x), Expr::LongLiteral(y)) => Some(order_integers(*x as i64, *y)),
        (Expr::LongLiteral(x), Expr::IntLiteral(y)) => Some(order_integers(*x, *y as i64)),
        (Expr::LongLiteral(x), Expr::LongLiteral(y)) => Some(order_integers(*x, *y)),
        _ => {
            let x = number_of(a);
            let y = number_of(b);
            x.unwrap().1.compare(&y.unwrap().1)
        },
    }
}

/// Whether one pair of neighbours lets a comparison chain go on.
pub fn check_pair(op: Builtin, left: &Expr, right: &Expr) -> (r: Result<bool, RuntimeError>)
    ensures
        r == pair_holds(op, left@, right@),
{
    let numeric_left = number_of(left).is_some();
    let numeric_right = number_of(right).is_some();
    if numeric_left {
        if numeric_right {
            let back = order_numbers(right, left);
            Ok(
                match op {
                    Builtin::Equal => match back {
                        Some(Order::Same) => true,
                        _ => false,
                    },
                    Builtin::Greater => match back {
                        Some(Order::Same) => false,
                        Some(Order::Above) => false,
                        _ => true,
                    },
                    _ => match back {
                        Some(Order::Same) => false,
                        Some(Order::Below) => false,
                        _ => true,
                    },
                },
            )
        } else {
            Err(RuntimeError::TypeMismatch)
        }
    } else {
        let greater = match op {
            Builtin::Greater => true,
            _ => false,
        };
        let equal = match op {
            Builtin::Equal => true,
            _ => false,
        };
        match left {
            Expr::StringLiteral(s) => if greater {
                Err(RuntimeError::IncomparableTypes)
            } else {
                match right {
                    Expr::StringLiteral(t) => Ok(*s == *t),
                    _ => Err(RuntimeError::TypeMismatch),
                }
            },
            _ => if equal {
                Err(RuntimeError::TypeMismatch)
            } else {
                Err(RuntimeError::IncomparableTypes)
            },
        }
    }
}

fn is_name(expr: &Expr) -> (r: bool)
    ensures
        r == (expr@ is Identifier),
{
    match expr {
        Expr::Identifier(_) => true,
        _ => false,
    }
}

fn is_call(expr: &Expr) -> (r: bool)
    ensures
        r == (expr@ is FuncCall),
{
    match expr {
        Expr::FuncCall(_, _) => true,
        _ => false,
    }
}

/// Evaluates an expression: see `eval_spec`.
pub fn eval(env: &mut Environment, out: &mut Vec<String>, expr: &Expr, depth: usize) -> (r: Result<
    Expr,
    RuntimeError,
>)
    ensures
        agrees(r, *final(env), *final(out), eval_spec(state_of(*old(env), *old(out)), expr@, depth as nat)),
    decreases depth, 0nat,
{
    match expr {
        Expr::Identifier(name) => {
            match env.lookup(name) {
                None => Err(RuntimeError::UndeclaredVariable),
                Some(value) => {
                    if depth == 0 {
                        Err(RuntimeError::DepthExceeded)
                    } else {
                        eval(env, out, &value, depth - 1)
                    }
                },
            }
        },
        Expr::FuncCall(name, args) => {
            if same_text(name, "func") {
                return Ok(expr.clone());
            }
            match env.lookup(name) {
                Some(function) => {
                    if depth == 0 {
                        Err(RuntimeError::DepthExceeded)
                    } else {
                        call(env, out, &function, args, depth - 1)
                    }
                },
                None => match find_builtin(name) {
                    None => Err(RuntimeError::UndeclaredFunction),
                    Some(op) => {
                        if depth == 0 {
                            return Err(RuntimeError::DepthExceeded);
                        }
                        match apply(env, out, op, args, depth - 1) {
                            Ok(value) => eval(env, out, &value, depth - 1),
                            Err(e) => Err(e),
                        }
                    },
                },
            }
        },
        _ => Ok(expr.clone()),
    }
}

/// Calls a bound value: see `call_spec`.
pub fn call(
    env: &mut Environment,
    out: &mut Vec<String>,
    function: &Expr,
    args: &Vec<Expr>,
    depth: usize,
) -> (r: Result<Expr, RuntimeError>)
    ensures
        agrees(
            r,
            *final(env),
            *final(out),
            call_spec(state_of(*old(env), *old(out)), function@, terms_of(args@), depth as nat),
        ),
    decreases depth, args.len() + 2,
{
    match function {
        Expr::FuncCall(name, params) => {
            if !same_text(name, "func") {
                return Err(RuntimeError::NotAFunction);
            }
            if params.len() == 0 || params.len() - 1 != args.len() {
                return Err(RuntimeError::ArityMismatch);
            }
            let mut inner = env.clone();
            let ghost start = state_of(*env, *out);
            let mut i: usize = 0;
            while i < args.len()
                invariant
                    i <= args.len(),
                    params.len() == args.len() + 1,
                    function@ == Term::FuncCall("func"@, terms_of(params@)),
                    start == state_of(*old(env), *old(out)),
                    bind_spec(start, start.vars, terms_of(params@), terms_of(args@), 0, depth as nat)
                        == bind_spec(
                        state_of(*env, *out),
                        inner@,
                        terms_of(params@),
                        terms_of(args@),
                        i as int,
                        depth as nat,
                    ),
                decreases args.len() - i,
            {
                proof {
                    assert(terms_of(args@)[i as int] == args@[i as int]@);
                    assert(terms_of(params@)[i as int] == params@[i as int]@);
                }
                match &params[i] {
                    Expr::Identifier(parameter) => {
                        match eval(env, out, &args[i], depth) {
                            Ok(value) => {
                                inner.insert(parameter.clone(), value);
                            },
                            Err(e) => {
                                return Err(e);
                            },
                        }
                    },
                    _ => {},
                }
                i = i + 1;
            }
            proof {
                assert(terms_of(params@).last() == params@[params.len() - 1]@);
            }
            eval(&mut inner, out, &params[params.len() - 1], depth)
        },
        _ => Err(RuntimeError::NotAFunction),
    }
}

/// Applies a built-in to its unevaluated arguments: see `apply_spec`.
pub fn apply(
    env: &mut Environment,
    out: &mut Vec<String>,
    op: Builtin,
    args: &Vec<Expr>,
    depth: usize,
) -> (r: Result<Expr, RuntimeError>)
    ensures
        agrees(
            r,
            *final(env),
            *final(out),
            apply_spec(state_of(*old(env), *old(out)), op, terms_of(args@), depth as nat),
        ),
    decreases depth, args.len() + 3,
{
    match op {
        Builtin::Assign => {
            if args.len() != 2 {
                return Err(RuntimeError::ArityMismatch);
            }
            match &args[0] {
                Expr::Identifier(name) => {
                    match eval(env, out, &args[1], depth) {
                        Ok(value) => {
                            env.insert(name.clone(), value.clone());
                            Ok(value)
                        },
                        Err(e) => Err(e),
                    }
                },
                _ => Err(RuntimeError::TypeMismatch),
            }
        },
        Builtin::Func => {
            if args.len() < 1 {
                return Err(RuntimeError::ArityMismatch);
            }
            let mut i: usize = 0;
            while i < args.len() - 1
                invariant
                    i <= args.len() - 1,
                    args.len() >= 1,
                    op == Builtin::Func,
                    *env == *old(env),
                    *out == *old(out),
                    forall|j: int| 0 <= j < i ==> (#[trigger] terms_of(args@)[j]) is Identifier,
                decreases args.len() - i,
            {
                proof {
                    assert(terms_of(args@)[i as int] == args@[i as int]@);
                }
                if !is_name(&args[i]) {
                    proof {
                        assert(terms_of(args@).drop_last()[i as int] == args@[i as int]@);
                    }
                    return Err(RuntimeError::TypeMismatch);
                }
                i = i + 1;
            }
            proof {
                let names = terms_of(args@).drop_last();
                assert forall|j: int| 0 <= j < names.len() implies (#[trigger] names[j]) is Identifier by {
                    assert(names[j] == terms_of(args@)[j]);
                }
            }
            if !is_call(&args[args.len() - 1]) {
                return Err(RuntimeError::TypeMismatch);
            }
            let mut copy: Vec<Expr> = Vec::new();
            let mut k: usize = 0;
            while k < args.len()
                invariant
                    k <= args.len(),
                    copy.len() == k,
                    forall|j: int| 0 <= j < k ==> copy@[j]@ == args@[j]@,
                decreases args.len() - k,
            {
                copy.push(args[k].clone());
                k = k + 1;
            }
            proof {
                assert(terms_of(copy@) =~= terms_of(args@));
            }
            Ok(Expr::FuncCall(String::from_str("func"), copy))
        },
        Builtin::Print => {
            if args.len() != 1 {
                return Err(RuntimeError::ArityMismatch);
            }
            match eval(env, out, &args[0], depth) {
                Ok(value) => match to_string(&value) {
                    Ok(text) => {
                        let line = text.clone();
                        proof {
                            assert(lines_of(out@.push(line)) =~= lines_of(out@).push(text@));
                        }
                        out.push(line);
                        Ok(Expr::StringLiteral(text))
                    },
                    Err(e) => Err(e),
                },
                Err(e) => Err(e),
            }
        },
        Builtin::Plus => {
            if args.len() < 1 {
                return Err(RuntimeError::ArityMismatch);
            }
            fold(env, out, op, args, 0, Double::from_i32(0), Kind::Int, depth)
        },
        Builtin::Times => {
            if args.len() < 1 {
                return Err(RuntimeError::ArityMismatch);
            }
            fold(env, out, op, args, 0, Double::from_i32(1), Kind::Int, depth)
        },
        Builtin::Minus | Builtin::Divide => {
            if args.len() < 1 {
                return Err(RuntimeError::ArityMismatch);
            }
            match eval(env, out, &args[0], depth) {
                Ok(value) => match number_of(&value) {
                    Some((kind, seed)) => fold(env, out, op, args, 1, seed, kind, depth),
                    None => Err(RuntimeError::TypeMismatch),
                },
                Err(e) => Err(e),
            }
        },
        Builtin::Equal | Builtin::Greater | Builtin::Less => {
            if args.len() < 1 {
                return Err(RuntimeError::ArityMismatch);
            }
            chain(env, out, op, args, depth)
        },
        Builtin::IfElse => {
            if args.len() != 3 {
                return Err(RuntimeError::ArityMismatch);
            }
            match eval(env, out, &args[0], depth) {
                Ok(value) => match value {
                    Expr::BooleanLiteral(b) => Ok(
                        if b {
                            args[1].clone()
                        } else {
                            args[2].clone()
                        },
                    ),
                    _ => Err(RuntimeError::TypeMismatch),
                },
                Err(e) => Err(e),
            }
        },
    }
}

/// Folds an arithmetic operator over the arguments from `from` on: see
/// `fold_spec`.
pub fn fold(
    env: &mut Environment,
    out: &mut Vec<String>,
    op: Builtin,
    args: &Vec<Expr>,
    from: usize,
    seed: Double,
    seed_kind: Kind,
    depth: usize,
) -> (r: Result<Expr, RuntimeError>)
    ensures
        agrees(
            r,
            *final(env),
            *final(out),
            fold_spec(
                state_of(*old(env), *old(out)),
                op,
                terms_of(args@),
                from as int,
                seed@,
                seed_kind,
                depth as nat,
            ),
        ),
    decreases depth, args.len() + 1,
{
    let ghost start = state_of(*env, *out);
    let mut acc = seed;
    let mut kind = seed_kind;
    let mut i: usize = from;
    while i < args.len()
        invariant
            from <= i,
            start == state_of(*old(env), *old(out)),
            fold_spec(start, op, terms_of(args@), from as int, seed@, seed_kind, depth as nat)
                == fold_spec(
                state_of(*env, *out),
                op,
                terms_of(args@),
                i as int,
                acc@,
                kind,
                depth as nat,
            ),
        decreases args.len() - i,
    {
        proof {
            assert(terms_of(args@)[i as int] == args@[i as int]@);
        }
        match eval(env, out, &args[i], depth) {
            Ok(value) => match number_of(&value) {
                Some((k, operand)) => {
                    acc = combine(op, &acc, &operand);
                    kind = widen(kind, k);
                },
                None => {
                    return Err(RuntimeError::TypeMismatch);
                },
            },
            Err(e) => {
                return Err(e);
            },
        }
        i = i + 1;
    }
    Ok(narrow(kind, &acc))
}

/// Runs a comparison over each pair of neighbours: see `chain_spec`.
pub fn chain(
    env: &mut Environment,
    out: &mut Vec<String>,
    op: Builtin,
    args: &Vec<Expr>,
    depth: usize,
) -> (r: Result<Expr, RuntimeError>)
    ensures
        agrees(
            r,
            *final(env),
            *final(out),
            chain_spec(state_of(*old(env), *old(out)), op, terms_of(args@), 0, depth as nat),
        ),
    decreases depth, args.len() + 1,
{
    let ghost start = state_of(*env, *out);
    let mut i: usize = 0;
    while i < args.len() && i + 1 < args.len()
        invariant
            i <= args.len(),
            start == state_of(*old(env), *old(out)),
            chain_spec(start, op, terms_of(args@), 0, depth as nat) == chain_spec(
                state_of(*env, *out),
                op,
                terms_of(args@),
                i as int,
                depth as nat,
            ),
        decreases args.len() - i,
    {
        proof {
            assert(terms_of(args@)[i as int] == args@[i as int]@);
            assert(terms_of(args@)[i + 1] == args@[i + 1]@);
        }
        let left = match eval(env, out, &args[i], depth) {
            Ok(value) => value,
            Err(e) => {
                return Err(e);
            },
        };
        let right = match eval(env, out, &args[i + 1], depth) {
            Ok(value) => value,
            Err(e) => {
                return Err(e);
            },
        };
        match check_pair(op, &left, &right) {
            Ok(holds) => {
                if !holds {
                    return Ok(Expr::BooleanLiteral(false));
                }
            },
            Err(e) => {
                return Err(e);
            },
        }
        i = i + 1;
    }
    Ok(Expr::BooleanLiteral(true))
}

/// Runs one top-level statement: see `statement_spec`.
pub fn execute(env: &mut Environment, out: &mut Vec<String>, expr: &Expr, depth: usize) -> (r:
    Result<Expr, RuntimeError>)
    ensures
        agrees(
            r,
            *final(env),
            *final(out),
            statement_spec(state_of(*old(env), *old(out)), expr@, depth as nat),
        ),
{
    match expr {
        Expr::FuncCall(_, _) => eval(env, out, expr, depth),
        _ => Err(RuntimeError::UnsupportedOperation),
    }
}

/// The state before anything ran.
pub open spec fn initial_state() -> State {
    State { vars: Map::empty(), output: Seq::empty() }
}

/// Runs a program with the given allowance of nesting: the statements in
/// order, in one environment that starts empty, until the first error.
pub fn run_with_depth(exprs: Vec<Expr>, depth: usize) -> (r: Report)
    ensures
        r.result == program_spec(initial_state(), terms_of(exprs@), 0, depth as nat).0,
        lines_of(r.output@) == program_spec(
            initial_state(),
            terms_of(exprs@),
            0,
            depth as nat,
        ).1.output,
{
    let mut env = Environment::new();
    let mut out: Vec<String> = Vec::new();
    let mut i: usize = 0;
    proof {
        assert(lines_of(out@) =~= Seq::<Seq<char>>::empty());
    }
    while i < exprs.len()
        invariant
            i <= exprs.len(),
            program_spec(initial_state(), terms_of(exprs@), 0, depth as nat) == program_spec(
                state_of(env, out),
                terms_of(exprs@),
                i as int,
                depth as nat,
            ),
        decreases exprs.len() - i,
    {
        match execute(&mut env, &mut out, &exprs[i], depth) {
            Ok(_) => {},
            Err(e) => {
                return Report { output: out, result: Err(e) };
            },
        }
        i = i + 1;
    }
    Report { output: out, result: Ok(()) }
}

/// Runs a program: see `run_with_depth`; the allowance is `DEFAULT_DEPTH`.
pub fn run(exprs: Vec<Expr>) -> (r: Report)
    ensures
        r.result == program_spec(initial_state(), terms_of(exprs@), 0, DEFAULT_DEPTH as nat).0,
        lines_of(r.output@) == program_spec(
            initial_state(),
            terms_of(exprs@),
            0,
            DEFAULT_DEPTH as nat,
        ).1.output,
{
    run_with_depth(exprs, DEFAULT_DEPTH)
}

} // verus!
