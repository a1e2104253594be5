//! Laws of the language, proved from its definitions.

use crate::decimal::{
    decimal_digits, digit_run, double_text, fraction_digits, has_point, int_text, integer_digits, integer_text, is_digit, lemma_decimal_digits, long_text, lowered,
    mantissa_end, number_text, special_text, whole_digits, word_inf, word_infinity, word_nan,
};
use crate::interpreter::{
    apply_spec, bind_spec, builtin_named, call_spec, combined, double_of, eval_spec, failure,
    fold_spec, kind_of, narrowed, statement_spec, success, text_of, wider, Builtin, Kind,
    RuntimeError, State,
};
use crate::parse::{
    classify, flushed, is_quoted, lexemes, parses_to, scan, terms_of, word_false, word_true, Expr,
    Lexeme, ParseError, Term,
};
use crate::text::chars_of;
use vstd::prelude::*;
use vstd::utf8::{encode_utf8, is_ascii_chars, is_ascii_chars_encode_utf8};

verus! {

/// A byte that neither ends a word nor opens a string.
pub open spec fn is_plain(b: u8) -> bool {
    b != 34 && b != 40 && b != 41 && b != 32 && b != 10
}

pub open spec fn all_plain(word: Seq<u8>) -> bool {
    forall|i: int| 0 <= i < word.len() ==> is_plain(#[trigger] word[i])
}

pub open spec fn all_ascii(word: Seq<u8>) -> bool {
    forall|i: int| 0 <= i < word.len() ==> (#[trigger] word[i]) < 128
}

/// Reading on through plain bytes only lengthens the pending word.
pub proof fn lemma_scan_word(bytes: Seq<u8>, i: int, word: Seq<u8>, done: Seq<Lexeme>)
    requires
        0 <= i <= bytes.len(),
        forall|j: int| i <= j < bytes.len() ==> is_plain(#[trigger] bytes[j]),
    ensures
        scan(bytes, i, word, false, done) == flushed(done, word + bytes.skip(i)),
    decreases bytes.len() - i,
{
    if i >= bytes.len() {
        assert(word + bytes.skip(i) =~= word);
    } else {
        lemma_scan_word(bytes, i + 1, word.push(bytes[i]), done);
        assert(word.push(bytes[i]) + bytes.skip(i + 1) =~= word + bytes.skip(i));
    }
}

/// A text of plain bytes is one token: what the whole text is as a word.
pub proof fn law_one_word(word: Seq<u8>)
    requires
        word.len() > 0,
        all_plain(word),
    ensures
        lexemes(word) == seq![classify(word)],
{
    lemma_scan_word(word, 0, Seq::empty(), Seq::empty());
    assert(Seq::<u8>::empty() + word.skip(0) =~= word);
    assert(Seq::<Lexeme>::empty().push(classify(word)) =~= seq![classify(word)]);
}

/// The bytes of a text of ASCII characters are the codes of its characters.
pub proof fn lemma_ascii_bytes(word: Seq<u8>)
    requires
        all_ascii(word),
    ensures
        encode_utf8(chars_of(word)) == word,
{
    let chars = chars_of(word);
    assert(is_ascii_chars(chars)) by {
        assert forall|i: int| 0 <= i < chars.len() implies '\0' <= #[trigger] chars[i]
            <= '\u{7f}' by {
            assert(chars[i] == word[i] as char);
            assert(word[i] < 128);
        }
    }
    is_ascii_chars_encode_utf8(chars);
    assert(encode_utf8(chars) =~= word) by {
        assert forall|i: int| 0 <= i < word.len() implies encode_utf8(chars)[i] == word[i] by {
            assert(chars[i] == word[i] as char);
            assert(chars[i] as u8 == encode_utf8(chars)[i]);
        }
    }
}

/// The digits of an integer denote that integer, and are one word of ASCII.
pub proof fn lemma_integer_reads_back(v: int)
    ensures
        integer_text(integer_digits(v)) == Some(v),
        all_plain(integer_digits(v)),
        all_ascii(integer_digits(v)),
        integer_digits(v).len() > 0,
{
    let s = integer_digits(v);
    if v < 0 {
        let d = decimal_digits((-v) as nat);
        lemma_decimal_digits((-v) as nat);
        assert(s[0] == 45);
        assert(s.skip(1) =~= d);
        assert forall|i: int| 0 <= i < s.len() implies is_plain(#[trigger] s[i]) && s[i] < 128 by {
            if i > 0 {
                assert(s[i] == d[i - 1]);
                assert(is_digit(d[i - 1]));
            }
        }
    } else {
        lemma_decimal_digits(v as nat);
        assert(is_digit(s[0]));
        assert forall|i: int| 0 <= i < s.len() implies is_plain(#[trigger] s[i]) && s[i] < 128 by {
            assert(is_digit(s[i]));
        }
    }
}

/// A 32-bit integer, written and read again, is the same 32-bit integer.
pub proof fn law_int_reads_back(v: i32)
    ensures
        text_of(Term::IntLiteral(v)) == Some(chars_of(integer_digits(v as int))),
        lexemes(encode_utf8(chars_of(integer_digits(v as int)))) == seq![Lexeme::IntLiteral(v)],
{
    lemma_integer_reads_back(v as int);
    lemma_ascii_bytes(integer_digits(v as int));
    law_one_word(integer_digits(v as int));
}

/// A 64-bit integer outside the 32-bit range, written and read again, is
/// the same 64-bit integer. (One inside that range reads back as a 32-bit
/// integer.)
pub proof fn law_long_reads_back(v: i64)
    requires
        v < i32::MIN || v > i32::MAX,
    ensures
        text_of(Term::LongLiteral(v)) == Some(chars_of(integer_digits(v as int))),
        lexemes(encode_utf8(chars_of(integer_digits(v as int)))) == seq![Lexeme::LongLiteral(v)],
{
    lemma_integer_reads_back(v as int);
    lemma_ascii_bytes(integer_digits(v as int));
    law_one_word(integer_digits(v as int));
}

/// A word that starts with a letter other than `i` and `n` is no number.
proof fn lemma_not_a_number(word: Seq<u8>)
    requires
        word.len() > 0,
        97 <= word[0] <= 122,
        word[0] != 105,
        word[0] != 110,
    ensures
        int_text(word) is None,
        long_text(word) is None,
        double_text(word) is None,
        !is_quoted(word),
{
    assert(!is_digit(word[0]));
    assert(digit_run(word, 0) == 0);
    assert(!has_point(word));
    assert(mantissa_end(word) == 0);
    assert((whole_digits(word) + fraction_digits(word)).len() == 0);
    assert(number_text(word) is None);
    let low = lowered(word);
    assert(low[0] == word[0]);
    assert(word_inf()[0] == 105);
    assert(word_infinity()[0] == 105);
    assert(word_nan()[0] == 110);
    assert(special_text(word) is None);
}

/// A boolean, written and read again, is the same boolean.
pub proof fn law_boolean_reads_back(b: bool)
    ensures
        text_of(Term::BooleanLiteral(b)) == Some(
            chars_of(
                if b {
                    word_true()
                } else {
                    word_false()
                },
            ),
        ),
        lexemes(
            encode_utf8(
                chars_of(
                    if b {
                        word_true()
                    } else {
                        word_false()
                    },
                ),
            ),
        ) == seq![Lexeme::BooleanLiteral(b)],
{
    reveal_strlit("true");
    reveal_strlit("false");
    let word = if b {
        word_true()
    } else {
        word_false()
    };
    assert("true"@ =~= chars_of(word_true()));
    assert("false"@ =~= chars_of(word_false()));
    lemma_not_a_number(word);
    assert(all_plain(word));
    assert(all_ascii(word));
    assert(word_true().len() != word_false().len());
    lemma_ascii_bytes(word);
    law_one_word(word);
}

/// A word of plain ASCII bytes that is no literal, written as it is and
/// read again, is the identifier of that word.
pub proof fn law_identifier_reads_back(word: Seq<u8>)
    requires
        word.len() > 0,
        all_plain(word),
        all_ascii(word),
        classify(word) is Identifier,
    ensures
        lexemes(encode_utf8(chars_of(word))) == seq![Lexeme::Identifier(chars_of(word))],
{
    lemma_ascii_bytes(word);
    law_one_word(word);
}

/// Reading is deterministic: whatever reading one text gives twice, both
/// times it is the same error or the same tree.
pub proof fn law_parse_is_deterministic(
    text: Seq<char>,
    first: Result<Vec<Expr>, ParseError>,
    second: Result<Vec<Expr>, ParseError>,
)
    requires
        parses_to(text, first),
        parses_to(text, second),
    ensures
        first is Ok <==> second is Ok,
        first is Ok ==> terms_of(first->Ok_0@) == terms_of(second->Ok_0@),
        first is Err ==> first->Err_0 == second->Err_0,
{
}

/// What evaluation can give: a literal or a function.
pub open spec fn is_value(t: Term) -> bool {
    match t {
        Term::Identifier(_) => false,
        Term::FuncCall(name, _) => name == "func"@,
        _ => true,
    }
}

/// Evaluation never gives a name or an unresolved call.
pub proof fn law_eval_gives_value(st: State, e: Term, depth: nat)
    ensures
        eval_spec(st, e, depth).result matches Ok(v) ==> is_value(v),
    decreases depth, 0nat,
{
    match e {
        Term::Identifier(name) => {
            if st.vars.contains_key(name) && depth > 0 {
                law_eval_gives_value(st, st.vars[name], (depth - 1) as nat);
            }
        },
        Term::FuncCall(name, args) => {
            if name == "func"@ {
            } else if st.vars.contains_key(name) {
                if depth > 0 {
                    law_call_gives_value(st, st.vars[name], args, (depth - 1) as nat);
                }
            } else {
                match builtin_named(name) {
                    Some(op) => {
                        if depth > 0 {
                            let r = apply_spec(st, op, args, (depth - 1) as nat);
                            match r.result {
                                Ok(t) => {
                                    law_eval_gives_value(r.state, t, (depth - 1) as nat);
                                },
                                Err(_) => {},
                            }
                        }
                    },
                    None => {},
                }
            }
        },
        _ => {},
    }
}

/// A call never gives a name or an unresolved call.
pub proof fn law_call_gives_value(st: State, f: Term, args: Seq<Term>, depth: nat)
    ensures
        call_spec(st, f, args, depth).result matches Ok(v) ==> is_value(v),
    decreases depth, 1nat,
{
    match f {
        Term::FuncCall(name, params) => {
            if name == "func"@ && params.len() == args.len() + 1 {
                let b = bind_spec(st, st.vars, params, args, 0, depth);
                if b.error is None {
                    law_eval_gives_value(
                        State { vars: b.vars, output: b.caller.output },
                        params.last(),
                        depth,
                    );
                }
            }
        },
        _ => {},
    }
}

/// A value is its own value, and evaluating it changes nothing.
pub proof fn law_value_is_fixed(st: State, v: Term, depth: nat)
    requires
        is_value(v),
    ensures
        eval_spec(st, v, depth) == success(st, v),
{
}

/// After an assignment the name is bound to the value that the assignment
/// gave, and reading the name gives that value and changes nothing. This
/// holds of a second assignment to the same name as of the first.
pub proof fn law_assignment_is_read_back(
    st: State,
    name: Seq<char>,
    e: Term,
    depth: nat,
    later: nat,
)
    requires
        later > 0,
    ensures
        ({
            let r = apply_spec(st, Builtin::Assign, seq![Term::Identifier(name), e], depth);
            r.result matches Ok(v) ==> {
                &&& r.state.vars.contains_key(name)
                &&& r.state.vars[name] == v
                &&& eval_spec(r.state, Term::Identifier(name), later) == success(r.state, v)
            }
        }),
{
    let args = seq![Term::Identifier(name), e];
    assert(args[0] == Term::Identifier(name));
    assert(args[1] == e);
    let inner = eval_spec(st, e, depth);
    law_eval_gives_value(st, e, depth);
    let r = apply_spec(st, Builtin::Assign, args, depth);
    match inner.result {
        Ok(v) => {
            law_value_is_fixed(r.state, v, (later - 1) as nat);
        },
        Err(_) => {},
    }
}

pub open spec fn all_values(terms: Seq<Term>) -> bool {
    forall|i: int| 0 <= i < terms.len() ==> is_value(#[trigger] terms[i])
}

/// Binding parameters to values changes nothing for the caller.
pub proof fn lemma_bind_values(
    caller: State,
    vars: Map<Seq<char>, Term>,
    params: Seq<Term>,
    args: Seq<Term>,
    i: int,
    depth: nat,
)
    requires
        all_values(args),
        0 <= i,
    ensures
        bind_spec(caller, vars, params, args, i, depth).caller == caller,
        bind_spec(caller, vars, params, args, i, depth).error is None,
    decreases args.len() - i,
{
    if i < args.len() && i < params.len() {
        match params[i] {
            Term::Identifier(name) => {
                assert(is_value(args[i]));
                law_value_is_fixed(caller, args[i], depth);
                lemma_bind_values(caller, vars.insert(name, args[i]), params, args, i + 1, depth);
            },
            _ => {
                lemma_bind_values(caller, vars, params, args, i + 1, depth);
            },
        }
    }
}

/// A call with values for arguments leaves the bindings of the caller as
/// they were, whatever the body binds.
pub proof fn law_call_keeps_bindings(st: State, f: Term, args: Seq<Term>, depth: nat)
    requires
        all_values(args),
    ensures
        call_spec(st, f, args, depth).state.vars == st.vars,
{
    match f {
        Term::FuncCall(name, params) => {
            lemma_bind_values(st, st.vars, params, args, 0, depth);
        },
        _ => {},
    }
}

/// A function called with more or fewer arguments than it has parameters
/// fails with `ArityMismatch`, and nothing is evaluated.
pub proof fn law_wrong_arity(st: State, params: Seq<Term>, args: Seq<Term>, depth: nat)
    requires
        params.len() != args.len() + 1,
    ensures
        call_spec(st, Term::FuncCall("func"@, params), args, depth) == failure(
            st,
            RuntimeError::ArityMismatch,
        ),
{
}

/// The names of the built-ins are distinct.
pub proof fn lemma_builtin_names()
    ensures
        builtin_named("="@) == Some(Builtin::Assign),
        builtin_named("func"@) == Some(Builtin::Func),
        builtin_named("print"@) == Some(Builtin::Print),
        builtin_named("*"@) == Some(Builtin::Times),
        builtin_named("/"@) == Some(Builtin::Divide),
        builtin_named("+"@) == Some(Builtin::Plus),
        builtin_named("-"@) == Some(Builtin::Minus),
        builtin_named("=="@) == Some(Builtin::Equal),
        builtin_named(">"@) == Some(Builtin::Greater),
        builtin_named("<"@) == Some(Builtin::Less),
        builtin_named("ifElse"@) == Some(Builtin::IfElse),
        "ifElse"@ != "func"@,
{
    reveal_strlit("=");
    reveal_strlit("func");
    reveal_strlit("print");
    reveal_strlit("*");
    reveal_strlit("/");
    reveal_strlit("+");
    reveal_strlit("-");
    reveal_strlit("==");
    reveal_strlit(">");
    reveal_strlit("<");
    reveal_strlit("ifElse");
    assert("="@.len() == 1 && "="@[0] == '=');
    assert("func"@.len() == 4 && "func"@[0] == 'f');
    assert("print"@.len() == 5);
    assert("*"@.len() == 1 && "*"@[0] == '*');
    assert("/"@.len() == 1 && "/"@[0] == '/');
    assert("+"@.len() == 1 && "+"@[0] == '+');
    assert("-"@.len() == 1 && "-"@[0] == '-');
    assert("=="@.len() == 2);
    assert(">"@.len() == 1 && ">"@[0] == '>');
    assert("<"@.len() == 1 && "<"@[0] == '<');
    assert("ifElse"@.len() == 6);
}

/// `ifElse` whose condition is true gives the value of its second
/// argument, evaluated after the condition, whatever its third argument
/// is: the third argument is not evaluated.
pub proof fn law_branch_not_taken(st: State, c: Term, a: Term, b: Term, depth: nat)
    requires
        !st.vars.contains_key("ifElse"@),
        eval_spec(st, c, depth).result == Ok::<Term, RuntimeError>(Term::BooleanLiteral(true)),
    ensures
        eval_spec(st, Term::FuncCall("ifElse"@, seq![c, a, b]), depth + 1) == eval_spec(
            eval_spec(st, c, depth).state,
            a,
            depth,
        ),
{
    lemma_builtin_names();
    let args = seq![c, a, b];
    assert(args[0] == c);
    assert(args[1] == a);
    assert(args[2] == b);
    assert(args.len() == 3);
    assert((depth + 1 - 1) as nat == depth);
    let after = eval_spec(st, c, depth).state;
    let r = apply_spec(st, Builtin::IfElse, args, depth);
    assert(r == success(after, a));
    let whole = eval_spec(st, Term::FuncCall("ifElse"@, args), depth + 1);
    assert(builtin_named("ifElse"@) == Some(Builtin::IfElse));
    assert(whole == eval_spec(r.state, a, depth));
}

/// A call that stands as a statement is evaluated as a call is anywhere:
/// a bound function is called, and what a built-in hands back is
/// evaluated.
pub proof fn law_statement_is_a_call(st: State, name: Seq<char>, args: Seq<Term>, depth: nat)
    ensures
        statement_spec(st, Term::FuncCall(name, args), depth) == eval_spec(
            st,
            Term::FuncCall(name, args),
            depth,
        ),
{
}

/// As a statement too, `ifElse` whose condition is true evaluates its
/// second argument and not its third.
pub proof fn law_branch_not_taken_in_a_statement(
    st: State,
    c: Term,
    a: Term,
    b: Term,
    depth: nat,
)
    requires
        !st.vars.contains_key("ifElse"@),
        eval_spec(st, c, depth).result == Ok::<Term, RuntimeError>(Term::BooleanLiteral(true)),
    ensures
        statement_spec(st, Term::FuncCall("ifElse"@, seq![c, a, b]), depth + 1) == eval_spec(
            eval_spec(st, c, depth).state,
            a,
            depth,
        ),
{
    law_branch_not_taken(st, c, a, b, depth);
}

/// Reading a name that is bound to nothing fails with `UndeclaredVariable`.
pub proof fn law_undeclared_variable(st: State, name: Seq<char>, depth: nat)
    requires
        !st.vars.contains_key(name),
    ensures
        eval_spec(st, Term::Identifier(name), depth) == failure(
            st,
            RuntimeError::UndeclaredVariable,
        ),
{
}

/// Calling a name that is neither bound nor a built-in fails with
/// `UndeclaredFunction`, and no argument is evaluated.
pub proof fn law_undeclared_function(st: State, name: Seq<char>, args: Seq<Term>, depth: nat)
    requires
        !st.vars.contains_key(name),
        builtin_named(name) is None,
    ensures
        eval_spec(st, Term::FuncCall(name, args), depth) == failure(
            st,
            RuntimeError::UndeclaredFunction,
        ),
{
}

/// The widest kind among `kind` and the kinds of the numbers from the `i`-th on.
pub open spec fn widest_from(kind: Kind, numbers: Seq<Term>, i: int) -> Kind
    decreases numbers.len() - i,
{
    if i < 0 || i >= numbers.len() {
        kind
    } else {
        widest_from(wider(kind, kind_of(numbers[i])->0), numbers, i + 1)
    }
}

/// The numbers from the `i`-th on combined, one after another, with `acc`.
pub open spec fn combined_from(op: Builtin, acc: u64, numbers: Seq<Term>, i: int) -> u64
    decreases numbers.len() - i,
{
    if i < 0 || i >= numbers.len() {
        acc
    } else {
        combined_from(op, combined(op, acc, double_of(numbers[i])), numbers, i + 1)
    }
}

pub open spec fn all_numbers(terms: Seq<Term>) -> bool {
    forall|i: int| 0 <= i < terms.len() ==> kind_of(#[trigger] terms[i]) is Some
}

/// Promotion: an arithmetic operator on number literals gives a number of
/// the widest kind among its operands, computed on doubles, and changes
/// nothing.
pub proof fn law_promotion(
    st: State,
    op: Builtin,
    numbers: Seq<Term>,
    i: int,
    acc: u64,
    kind: Kind,
    depth: nat,
)
    requires
        all_numbers(numbers),
        0 <= i,
    ensures
        fold_spec(st, op, numbers, i, acc, kind, depth) == success(
            st,
            narrowed(widest_from(kind, numbers, i), combined_from(op, acc, numbers, i)),
        ),
        kind_of(narrowed(widest_from(kind, numbers, i), combined_from(op, acc, numbers, i)))
            == Some(widest_from(kind, numbers, i)),
    decreases numbers.len() - i,
{
    if i < numbers.len() {
        let v = numbers[i];
        assert(kind_of(v) is Some);
        assert(eval_spec(st, v, depth) == success(st, v));
        law_promotion(
            st,
            op,
            numbers,
            i + 1,
            combined(op, acc, double_of(v)),
            wider(kind, kind_of(v)->0),
            depth,
        );
    }
}

} // verus!
