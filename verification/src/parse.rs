//! From program text to tokens, and from tokens to call expressions.
//!
//! A program is a sequence of calls. A call is an identifier, `(`, any
//! number of values, and `)`. A value is a literal, a bare identifier, or a
//! call. Text is read byte by byte; `(`, `)`, space and newline separate
//! words except between double quotes.

use crate::decimal::{double_text, int_text, long_text, parse_double, parse_int, parse_long};
use crate::double::Double;
use crate::text::{chars_of, string_of, string_of_bytes};
use vstd::prelude::*;
use vstd::string::StrSliceExecFns;
use vstd::utf8::encode_utf8;

verus! {

/// One lexical unit of a program.
#[derive(Debug, PartialEq)]
pub enum Token {
    GroupLeft,
    GroupRight,
    Identifier(String),
    StringLiteral(String),
    IntLiteral(i32),
    LongLiteral(i64),
    DoubleLiteral(Double),
    BooleanLiteral(bool),
}

/// A node of a program: a literal, a name, or a call with its arguments in order.
#[derive(Debug, PartialEq)]
pub enum Expr {
    Identifier(String),
    StringLiteral(String),
    IntLiteral(i32),
    LongLiteral(i64),
    DoubleLiteral(Double),
    BooleanLiteral(bool),
    FuncCall(String, Vec<Expr>),
}

/// What a token is, as a mathematical value; a double stands as its bit pattern.
pub enum Lexeme {
    GroupLeft,
    GroupRight,
    Identifier(Seq<char>),
    StringLiteral(Seq<char>),
    IntLiteral(i32),
    LongLiteral(i64),
    DoubleLiteral(u64),
    BooleanLiteral(bool),
}

/// What an expression is, as a mathematical value.
pub enum Term {
    Identifier(Seq<char>),
    StringLiteral(Seq<char>),
    IntLiteral(i32),
    LongLiteral(i64),
    DoubleLiteral(u64),
    BooleanLiteral(bool),
    FuncCall(Seq<char>, Seq<Term>),
}

/// The lexer has no failure of its own: every word is at least an identifier.
#[derive(Debug, PartialEq, Eq, Clone, Copy, Structural)]
pub enum LexError {
    ClassificationImpossible,
}

/// What is wrong with the structure of a program.
#[derive(Debug, PartialEq, Eq, Clone, Copy, Structural)]
pub enum ParseErrorKind {
    /// A call does not start with an identifier.
    ExpectedIdentifier,
    /// The identifier of a call is not followed by `(`.
    MissingOpen,
    /// A call is not closed by `)`.
    MissingClose,
    /// A token stands where a value is expected and is none.
    UnexpectedToken,
}

/// A structural error and the index of the token at which it was found.
#[derive(Debug, PartialEq, Eq, Clone, Copy, Structural)]
pub struct ParseError {
    pub kind: ParseErrorKind,
    pub position: usize,
}

impl View for Token {
    type V = Lexeme;

    open spec fn view(&self) -> Lexeme {
        match self {
            Token::GroupLeft => Lexeme::GroupLeft,
            Token::GroupRight => Lexeme::GroupRight,
            Token::Identifier(s) => Lexeme::Identifier(s@),
            Token::StringLiteral(s) => Lexeme::StringLiteral(s@),
            Token::IntLiteral(v) => Lexeme::IntLiteral(*v),
            Token::LongLiteral(v) => Lexeme::LongLiteral(*v),
            Token::DoubleLiteral(d) => Lexeme::DoubleLiteral(d@),
            Token::BooleanLiteral(b) => Lexeme::BooleanLiteral(*b),
        }
    }
}

impl View for Expr {
    type V = Term;

    open spec fn view(&self) -> Term
        decreases self,
    {
        match self {
            Expr::Identifier(s) => Term::Identifier(s@),
            Expr::StringLiteral(s) => Term::StringLiteral(s@),
            Expr::IntLiteral(v) => Term::IntLiteral(*v),
            Expr::LongLiteral(v) => Term::LongLiteral(*v),
            Expr::DoubleLiteral(d) => Term::DoubleLiteral(d@),
            Expr::BooleanLiteral(b) => Term::BooleanLiteral(*b),
            Expr::FuncCall(name, args) => Term::FuncCall(name@, terms_of(args@)),
        }
    }
}

/// The values of a sequence of tokens.
pub open spec fn lexemes_of(tokens: Seq<Token>) -> Seq<Lexeme> {
    Seq::new(tokens.len(), |i: int| tokens[i]@)
}

/// The values of a sequence of expressions.
pub open spec fn terms_of(exprs: Seq<Expr>) -> Seq<Term>
    decreases exprs,
{
    Seq::new(
        exprs.len(),
        |i: int|
            if 0 <= i < exprs.len() {
                exprs[i]@
            } else {
                Term::BooleanLiteral(false)
            },
    )
}

pub proof fn lemma_terms_push(exprs: Seq<Expr>, e: Expr)
    ensures
        terms_of(exprs.push(e)) == terms_of(exprs).push(e@),
{
    assert(terms_of(exprs.push(e)) =~= terms_of(exprs).push(e@));
}

pub proof fn lemma_lexemes_push(tokens: Seq<Token>, t: Token)
    ensures
        lexemes_of(tokens.push(t)) == lexemes_of(tokens).push(t@),
{
    assert(lexemes_of(tokens.push(t)) =~= lexemes_of(tokens).push(t@));
}

impl Clone for Expr {
    fn clone(&self) -> (r: Self)
        ensures
            r@ == self@,
        decreases self,
    {
        match self {
            Expr::Identifier(s) => Expr::Identifier(s.clone()),
            Expr::StringLiteral(s) => Expr::StringLiteral(s.clone()),
            Expr::IntLiteral(v) => Expr::IntLiteral(*v),
            Expr::LongLiteral(v) => Expr::LongLiteral(*v),
            Expr::DoubleLiteral(d) => Expr::DoubleLiteral(*d),
            Expr::BooleanLiteral(b) => Expr::BooleanLiteral(*b),
            Expr::FuncCall(name, args) => {
                let mut out: Vec<Expr> = Vec::new();
                let mut i: usize = 0;
                #[verifier::loop_isolation(false)]
                while i < args.len()
                    invariant
                        i <= args.len(),
                        out.len() == i,
                        forall|j: int| 0 <= j < i ==> out@[j]@ == args@[j]@,
                    decreases args.len() - i,
                {
                    out.push(args[i].clone());
                    i = i + 1;
                }
                let r = Expr::FuncCall(name.clone(), out);
                proof {
                    assert(terms_of(out@) =~= terms_of(args@));
                }
                r
            },
        }
    }
}

pub open spec fn word_true() -> Seq<u8> {
    seq![116u8, 114u8, 117u8, 101u8]
}

pub open spec fn word_false() -> Seq<u8> {
    seq![102u8, 97u8, 108u8, 115u8, 101u8]
}

/// Whether a word has a double quote at both ends.
pub open spec fn is_quoted(word: Seq<u8>) -> bool {
    word.len() >= 2 && word[0] == 34 && word.last() == 34
}

/// What a word is, in this order of preference: a 32-bit integer, a 64-bit
/// integer, a double, a string between quotes, a boolean, an identifier.
pub open spec fn classify(word: Seq<u8>) -> Lexeme {
    if int_text(word) is Some {
        Lexeme::IntLiteral(int_text(word)->0)
    } else if long_text(word) is Some {
        Lexeme::LongLiteral(long_text(word)->0)
    } else if double_text(word) is Some {
        Lexeme::DoubleLiteral(double_text(word)->0)
    } else if is_quoted(word) {
        Lexeme::StringLiteral(chars_of(word.subrange(1, word.len() - 1)))
    } else if word == word_true() {
        Lexeme::BooleanLiteral(true)
    } else if word == word_false() {
        Lexeme::BooleanLiteral(false)
    } else {
        Lexeme::Identifier(chars_of(word))
    }
}

/// The tokens so far, with the pending word, if there is one, at their end.
pub open spec fn flushed(tokens: Seq<Lexeme>, word: Seq<u8>) -> Seq<Lexeme> {
    if word.len() == 0 {
        tokens
    } else {
        tokens.push(classify(word))
    }
}

/// The tokens of `bytes`, read on from position `i` with a pending `word`,
/// inside a string or not, after the tokens `done`.
pub open spec fn scan(
    bytes: Seq<u8>,
    i: int,
    word: Seq<u8>,
    in_string: bool,
    done: Seq<Lexeme>,
) -> Seq<Lexeme>
    decreases bytes.len() - i,
{
    if i < 0 || i >= bytes.len() {
        flushed(done, word)
    } else {
        let b = bytes[i];
        if b == 34 {
            scan(bytes, i + 1, word.push(b), !in_string, done)
        } else if in_string {
            scan(bytes, i + 1, word.push(b), in_string, done)
        } else if b == 40 {
            scan(bytes, i + 1, Seq::empty(), in_string, flushed(done, word).push(Lexeme::GroupLeft))
        } else if b == 41 {
            scan(
                bytes,
                i + 1,
                Seq::empty(),
                in_string,
                flushed(done, word).push(Lexeme::GroupRight),
            )
        } else if b == 32 || b == 10 {
            scan(bytes, i + 1, Seq::empty(), in_string, flushed(done, word))
        } else {
            scan(bytes, i + 1, word.push(b), in_string, done)
        }
    }
}

/// The tokens of a program text.
pub open spec fn lexemes(bytes: Seq<u8>) -> Seq<Lexeme> {
    scan(bytes, 0, Seq::empty(), false, Seq::empty())
}

/// A call that is being read: its name and the arguments read so far.
pub struct Frame {
    pub name: Seq<char>,
    pub args: Seq<Term>,
}

/// The literal or the name that a token in the place of a value stands for.
pub open spec fn value_of(token: Lexeme) -> Term {
    match token {
        Lexeme::Identifier(s) => Term::Identifier(s),
        Lexeme::StringLiteral(s) => Term::StringLiteral(s),
        Lexeme::IntLiteral(v) => Term::IntLiteral(v),
        Lexeme::LongLiteral(v) => Term::LongLiteral(v),
        Lexeme::DoubleLiteral(d) => Term::DoubleLiteral(d),
        Lexeme::BooleanLiteral(b) => Term::BooleanLiteral(b),
        _ => Term::BooleanLiteral(false),
    }
}

/// Whether a call starts at `i`: an identifier with `(` right behind it.
pub open spec fn call_starts(tokens: Seq<Lexeme>, i: int) -> bool {
    0 <= i && i + 1 < tokens.len() && tokens[i] is Identifier && tokens[i + 1] is GroupLeft
}

/// The open calls with `value` added to the arguments of the innermost.
pub open spec fn with_argument(open: Seq<Frame>, value: Term) -> Seq<Frame> {
    open.drop_last().push(
        (Frame { name: open.last().name, args: open.last().args.push(value) }),
    )
}

/// The program that the tokens from `i` on complete, given the calls that
/// are open at `i`, innermost last, and the top-level calls read so far.
///
/// Outside any call only the start of a call may stand, and the whole text
/// must then end in `)`. Inside a call, `)` closes the innermost call, the
/// start of a call opens one, any other token but `(` is a value.
pub open spec fn assemble(tokens: Seq<Lexeme>, i: int, open: Seq<Frame>, done: Seq<Term>) -> Result<
    Seq<Term>,
    ParseError,
>
    decreases tokens.len() - i,
{
    if i < 0 || i >= tokens.len() {
        if open.len() == 0 {
            Ok(done)
        } else {
            Err(ParseError { kind: ParseErrorKind::MissingClose, position: tokens.len() as usize })
        }
    } else if open.len() == 0 {
        if !(tokens[i] is Identifier) {
            Err(ParseError { kind: ParseErrorKind::ExpectedIdentifier, position: i as usize })
        } else if !call_starts(tokens, i) {
            Err(ParseError { kind: ParseErrorKind::MissingOpen, position: (i + 1) as usize })
        } else if !(tokens.last() is GroupRight) {
            Err(ParseError { kind: ParseErrorKind::MissingClose, position: tokens.len() as usize })
        } else {
            assemble(
                tokens,
                i + 2,
                seq![(Frame { name: tokens[i]->Identifier_0, args: Seq::empty() })],
                done,
            )
        }
    } else {
        match tokens[i] {
            Lexeme::GroupRight => {
                let call = Term::FuncCall(open.last().name, open.last().args);
                if open.len() == 1 {
                    assemble(tokens, i + 1, Seq::empty(), done.push(call))
                } else {
                    assemble(tokens, i + 1, with_argument(open.drop_last(), call), done)
                }
            },
            Lexeme::GroupLeft => Err(
                ParseError { kind: ParseErrorKind::UnexpectedToken, position: i as usize },
            ),
            Lexeme::Identifier(name) => if call_starts(tokens, i) {
                assemble(tokens, i + 2, open.push((Frame { name: name, args: Seq::empty() })), done)
            } else {
                assemble(tokens, i + 1, with_argument(open, value_of(tokens[i])), done)
            },
            _ => assemble(tokens, i + 1, with_argument(open, value_of(tokens[i])), done),
        }
    }
}

/// The program that a sequence of tokens forms.
pub open spec fn program_of(tokens: Seq<Lexeme>) -> Result<Seq<Term>, ParseError> {
    assemble(tokens, 0, Seq::empty(), Seq::empty())
}

fn same_bytes(a: &Vec<u8>, b: &Vec<u8>) -> (r: bool)
    ensures
        r == (a@ == b@),
{
    if a.len() != b.len() {
        return false;
    }
    let mut i: usize = 0;
    while i < a.len()
        invariant
            a.len() == b.len(),
            i <= a.len(),
            forall|j: int| 0 <= j < i ==> a@[j] == b@[j],
        decreases a.len() - i,
    {
        if a[i] != b[i] {
            return false;
        }
        i = i + 1;
    }
    proof {
        assert(a@ =~= b@);
    }
    true
}

/// Classifies one word.
pub fn classify_word(word: &Vec<u8>) -> (t: Token)
    ensures
        t@ == classify(word@),
{
    match parse_int(word) {
        Some(v) => {
            return Token::IntLiteral(v);
        },
        None => {},
    }
    match parse_long(word) {
        Some(v) => {
            return Token::LongLiteral(v);
        },
        None => {},
    }
    match parse_double(word) {
        Some(d) => {
            return Token::DoubleLiteral(d);
        },
        None => {},
    }
    let n = word.len();
    if n >= 2 && word[0] == 34 && word[n - 1] == 34 {
        return Token::StringLiteral(string_of(word, 1, n - 1));
    }
    let yes = vec![116u8, 114u8, 117u8, 101u8];
    let no = vec![102u8, 97u8, 108u8, 115u8, 101u8];
    proof {
        assert(yes@ =~= word_true());
        assert(no@ =~= word_false());
    }
    if same_bytes(word, &yes) {
        Token::BooleanLiteral(true)
    } else if same_bytes(word, &no) {
        Token::BooleanLiteral(false)
    } else {
        Token::Identifier(string_of_bytes(word))
    }
}

fn flush(tokens: &mut Vec<Token>, word: &Vec<u8>)
    ensures
        lexemes_of(final(tokens)@) == flushed(lexemes_of(old(tokens)@), word@),
{
    if word.len() > 0 {
        let t = classify_word(word);
        proof {
            lemma_lexemes_push(tokens@, t);
        }
        tokens.push(t);
    }
}

/// Splits program bytes into tokens.
pub fn tokenize_bytes(bytes: &Vec<u8>) -> (tokens: Vec<Token>)
    ensures
        lexemes_of(tokens@) == lexemes(bytes@),
{
    let mut tokens: Vec<Token> = Vec::new();
    let mut word: Vec<u8> = Vec::new();
    let mut in_string = false;
    let mut i: usize = 0;
    proof {
        assert(lexemes_of(tokens@) =~= Seq::<Lexeme>::empty());
        assert(word@ =~= Seq::<u8>::empty());
    }
    while i < bytes.len()
        invariant
            i <= bytes.len(),
            lexemes(bytes@) == scan(bytes@, i as int, word@, in_string, lexemes_of(tokens@)),
        decreases bytes.len() - i,
    {
        let b = bytes[i];
        if b == 34 {
            in_string = !in_string;
            word.push(b);
        } else if in_string {
            word.push(b);
        } else if b == 40 {
            flush(&mut tokens, &word);
            proof {
                lemma_lexemes_push(tokens@, Token::GroupLeft);
            }
            tokens.push(Token::GroupLeft);
            word = Vec::new();
            proof {
                assert(word@ =~= Seq::<u8>::empty());
            }
        } else if b == 41 {
            flush(&mut tokens, &word);
            proof {
                lemma_lexemes_push(tokens@, Token::GroupRight);
            }
            tokens.push(Token::GroupRight);
            word = Vec::new();
            proof {
                assert(word@ =~= Seq::<u8>::empty());
            }
        } else if b == 32 || b == 10 {
            flush(&mut tokens, &word);
            word = Vec::new();
            proof {
                assert(word@ =~= Seq::<u8>::empty());
            }
        } else {
            word.push(b);
        }
        i = i + 1;
    }
    flush(&mut tokens, &word);
    tokens
}

/// Splits a program text into tokens. Never fails.
pub fn tokenize(prog: String) -> (r: Result<Vec<Token>, LexError>)
    ensures
        r is Ok,
        lexemes_of(r->Ok_0@) == lexemes(encode_utf8(prog@)),
{
    let bytes = prog.as_str().as_bytes_vec();
    Ok(tokenize_bytes(&bytes))
}

/// A call that is being read, with what has been read of it.
pub struct OpenCall {
    pub name: String,
    pub args: Vec<Expr>,
}

impl View for OpenCall {
    type V = Frame;

    open spec fn view(&self) -> Frame {
        Frame { name: self.name@, args: terms_of(self.args@) }
    }
}

pub open spec fn frames_of(open: Seq<OpenCall>) -> Seq<Frame> {
    Seq::new(open.len(), |i: int| open[i]@)
}

fn is_group_left(token: &Token) -> (r: bool)
    ensures
        r == (token@ is GroupLeft),
{
    match token {
        Token::GroupLeft => true,
        _ => false,
    }
}

fn is_group_right(token: &Token) -> (r: bool)
    ensures
        r == (token@ is GroupRight),
{
    match token {
        Token::GroupRight => true,
        _ => false,
    }
}

/// Adds one argument to the innermost open call.
fn add_argument(open: &mut Vec<OpenCall>, value: Expr)
    requires
        old(open).len() > 0,
    ensures
        frames_of(final(open)@) == with_argument(frames_of(old(open)@), value@),
        final(open).len() == old(open).len(),
{
    let mut top = open.pop().unwrap();
    proof {
        lemma_terms_push(top.args@, value);
    }
    top.args.push(value);
    open.push(top);
    proof {
        assert(frames_of(open@) =~= with_argument(frames_of(old(open)@), value@));
    }
}

/// Opens a call with no argument yet.
fn open_call(open: &mut Vec<OpenCall>, name: &String)
    ensures
        frames_of(final(open)@) == frames_of(old(open)@).push(
            (Frame { name: name@, args: Seq::empty() }),
        ),
        final(open).len() == old(open).len() + 1,
{
    let call = OpenCall { name: name.clone(), args: Vec::new() };
    proof {
        assert(terms_of(call.args@) =~= Seq::<Term>::empty());
    }
    open.push(call);
    proof {
        assert(frames_of(open@) =~= frames_of(old(open)@).push(
            (Frame { name: name@, args: Seq::empty() }),
        ));
    }
}

/// The expression for a token that stands as a value.
fn value_expr(token: &Token) -> (e: Expr)
    requires
        !(token@ is GroupLeft),
        !(token@ is GroupRight),
    ensures
        e@ == value_of(token@),
{
    match token {
        Token::Identifier(s) => Expr::Identifier(s.clone()),
        Token::StringLiteral(s) => Expr::StringLiteral(s.clone()),
        Token::IntLiteral(v) => Expr::IntLiteral(*v),
        Token::LongLiteral(v) => Expr::LongLiteral(*v),
        Token::DoubleLiteral(d) => Expr::DoubleLiteral(*d),
        Token::BooleanLiteral(b) => Expr::BooleanLiteral(*b),
        _ => Expr::BooleanLiteral(false),
    }
}

/// Builds the calls of a program from its tokens. The first structural
/// error ends the work; nothing is returned of a program that has one.
pub fn parse_tokens(tokens: &Vec<Token>) -> (r: Result<Vec<Expr>, ParseError>)
    ensures
        match program_of(lexemes_of(tokens@)) {
            Ok(program) => r is Ok && terms_of(r->Ok_0@) == program,
            Err(e) => r is Err && r->Err_0 == e,
        },
{
    let ghost lex = lexemes_of(tokens@);
    let n = tokens.len();
    let mut open: Vec<OpenCall> = Vec::new();
    let mut done: Vec<Expr> = Vec::new();
    let mut i: usize = 0;
    proof {
        assert(frames_of(open@) =~= Seq::<Frame>::empty());
        assert(terms_of(done@) =~= Seq::<Term>::empty());
    }
    while i < n
        invariant
            i <= n,
            n == tokens.len(),
            lex == lexemes_of(tokens@),
            program_of(lex) == assemble(lex, i as int, frames_of(open@), terms_of(done@)),
        decreases n - i,
    {
        let token = &tokens[i];
        proof {
            assert(lex[i as int] == token@);
            if i + 1 < n {
                assert(lex[i + 1] == tokens@[i + 1]@);
            }
            assert(lex.last() == tokens@[n - 1]@);
            assert(frames_of(open@).len() == open.len());
        }
        let starts = i + 1 < n && is_group_left(&tokens[i + 1]);
        if open.len() == 0 {
            match token {
                Token::Identifier(name) => {
                    if !starts {
                        return Err(
                            ParseError { kind: ParseErrorKind::MissingOpen, position: i + 1 },
                        );
                    }
                    if !is_group_right(&tokens[n - 1]) {
                        return Err(ParseError { kind: ParseErrorKind::MissingClose, position: n });
                    }
                    open_call(&mut open, name);
                    proof {
                        assert(frames_of(open@) =~= seq![
                            (Frame { name: name@, args: Seq::empty() }),
                        ]);
                    }
                    i = i + 2;
                },
                _ => {
                    return Err(
                        ParseError { kind: ParseErrorKind::ExpectedIdentifier, position: i },
                    );
                },
            }
        } else {
            match token {
                Token::GroupRight => {
                    let ghost before = frames_of(open@);
                    let top = open.pop().unwrap();
                    let call = Expr::FuncCall(top.name, top.args);
                    proof {
                        assert(call@ == Term::FuncCall(before.last().name, before.last().args));
                        assert(frames_of(open@) =~= before.drop_last());
                    }
                    if open.len() == 0 {
                        proof {
                            lemma_terms_push(done@, call);
                            assert(frames_of(open@) =~= Seq::<Frame>::empty());
                        }
                        done.push(call);
                    } else {
                        add_argument(&mut open, call);
                    }
                    i = i + 1;
                },
                Token::GroupLeft => {
                    return Err(ParseError { kind: ParseErrorKind::UnexpectedToken, position: i });
                },
                Token::Identifier(name) => {
                    if starts {
                        open_call(&mut open, name);
                        i = i + 2;
                    } else {
                        add_argument(&mut open, value_expr(token));
                        i = i + 1;
                    }
                },
                _ => {
                    add_argument(&mut open, value_expr(token));
                    i = i + 1;
                },
            }
        }
    }
    proof {
        assert(frames_of(open@).len() == open.len());
    }
    if open.len() == 0 {
        Ok(done)
    } else {
        Err(ParseError { kind: ParseErrorKind::MissingClose, position: n })
    }
}

/// Whether `r` is what reading the program `text` gives.
pub open spec fn parses_to(text: Seq<char>, r: Result<Vec<Expr>, ParseError>) -> bool {
    match program_of(lexemes(encode_utf8(text))) {
        Ok(program) => r is Ok && terms_of(r->Ok_0@) == program,
        Err(e) => r is Err && r->Err_0 == e,
    }
}

/// Reads a program: its top-level calls in order, or the first structural
/// error. The result is a function of the text alone.
pub fn parse(prog: String) -> (r: Result<Vec<Expr>, ParseError>)
    ensures
        parses_to(prog@, r),
{
    let bytes = prog.as_str().as_bytes_vec();
    let tokens = tokenize_bytes(&bytes);
    parse_tokens(&tokens)
}

} // verus!
