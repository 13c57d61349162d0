//! The streaming flattening engine.
//!
//! A push-down state machine consumes a token stream and emits one
//! `(path, scalar)` pair per scalar leaf, in document order. It keeps only a
//! stack of open-container contexts and a single reusable path buffer, so
//! memory use is bounded by the nesting depth, never by the document size.
//!
//! The whole observable behaviour is pinned down by the ghost function
//! [`run`]: from a context stack, a path buffer and the remaining tokens it
//! yields the exact sequence of pairs still to be emitted and the error, if
//! any, that ends the run.

use vstd::prelude::*;
use vstd::string::StrSliceExecFns;
use vstd::string::StringExecFns;
use crate::lexer;
use crate::lexer::push_char;
use crate::lexer::Token;
use crate::lexer::ValueModel;

verus! {

/// A scalar leaf value as it appears in an emitted pair.
#[derive(Debug, PartialEq)]
pub enum Value {
    Text(String),
    Number(String),
    True,
    False,
    Null,
}

impl View for Value {
    type V = ValueModel;

    open spec fn view(&self) -> ValueModel {
        match self {
            Value::Text(s) => ValueModel::Text(s@),
            Value::Number(s) => ValueModel::Number(s@),
            Value::True => ValueModel::True,
            Value::False => ValueModel::False,
            Value::Null => ValueModel::Null,
        }
    }
}

/// One entry of the engine's context stack.
///
/// `Array(next_index, base_length)` and `Object(base_length)` record the
/// path-buffer length at the moment the container was entered; truncating
/// back to a recorded `base_length` is the only way path segments are ever
/// removed. `ExpectObjectValue` marks that a key has just been appended and
/// the next token must supply its value.
#[derive(Clone, Copy, Debug, PartialEq, Eq, Structural)]
pub enum State {
    Array(usize, usize),
    Object(usize),
    ExpectObjectValue,
}

/// The structural-parse failures the engine can detect. None is
/// recoverable: the run that hit one is over.
#[derive(Clone, Copy, Debug, PartialEq, Eq, Structural)]
pub enum ErrorKind {
    /// `]` or `}` with no open container, or one of the wrong kind.
    UnbalancedClose,
    /// `,` outside any open container, or right after a key with no value.
    MisplacedComma,
    /// `:` anywhere but between an object key and its value.
    MisplacedColon,
    /// The token source ended with containers still open, or handed the
    /// engine an error token.
    UnterminatedDocument,
}

/// What one run of the engine produces from a given state: the pairs still
/// to be emitted, in order, and the error that ends the run, if one does.
#[verifier::ext_equal]
pub struct RunOut {
    pub pairs: Seq<(Seq<char>, ValueModel)>,
    pub err: Option<ErrorKind>,
}

/// The decimal digit `n`, for `n < 10`.
pub open spec fn dec_digit(n: nat) -> char {
    if n == 0 {
        '0'
    } else if n == 1 {
        '1'
    } else if n == 2 {
        '2'
    } else if n == 3 {
        '3'
    } else if n == 4 {
        '4'
    } else if n == 5 {
        '5'
    } else if n == 6 {
        '6'
    } else if n == 7 {
        '7'
    } else if n == 8 {
        '8'
    } else {
        '9'
    }
}

/// The decimal digits of `n`, most significant first, no leading zeros.
pub open spec fn dec_chars(n: nat) -> Seq<char>
    decreases n,
{
    if n < 10 {
        seq![dec_digit(n)]
    } else {
        dec_chars(n / 10).push(dec_digit(n % 10))
    }
}

pub open spec fn fail(k: ErrorKind) -> RunOut {
    RunOut { pairs: Seq::empty(), err: Some(k) }
}

pub open spec fn emit(pair: (Seq<char>, ValueModel), rest: RunOut) -> RunOut {
    RunOut { pairs: seq![pair] + rest.pairs, err: rest.err }
}

/// Stack and path just before a token opens a new container: an element of
/// an array first takes the array's next index as a path segment, and a
/// container standing as an object value replaces the pending-value marker.
pub open spec fn open_at(stack: Seq<State>, path: Seq<char>) -> (Seq<State>, Seq<char>) {
    if stack.len() == 0 {
        (stack, path)
    } else {
        match stack.last() {
            State::Array(i, b) => (stack, path + dec_chars(i as nat)),
            State::Object(b) => (stack, path),
            State::ExpectObjectValue => (stack.drop_last(), path),
        }
    }
}

/// The engine's whole behaviour: from a context stack, a path buffer and
/// the remaining tokens, the pairs still to be emitted and the error, if
/// any, that ends the run. Pairs emitted before a failure stand; the run
/// stops at the first structural violation.
pub open spec fn run(stack: Seq<State>, path: Seq<char>, toks: Seq<Token>) -> RunOut
    decreases toks.len(),
{
    if toks.len() == 0 {
        RunOut {
            pairs: Seq::empty(),
            err: if stack.len() == 0 {
                None
            } else {
                Some(ErrorKind::UnterminatedDocument)
            },
        }
    } else {
        let rest = toks.drop_first();
        match toks[0] {
            Token::LBracket => {
                let sp = open_at(stack, path);
                run(sp.0.push(State::Array(0, sp.1.len() as usize)), sp.1.push('_'), rest)
            },
            Token::LBrace => {
                let sp = open_at(stack, path);
                run(sp.0.push(State::Object(sp.1.len() as usize)), sp.1.push('_'), rest)
            },
            Token::RBracket => {
                if stack.len() == 0 {
                    fail(ErrorKind::UnbalancedClose)
                } else {
                    match stack.last() {
                        State::Array(i, b) => {
                            let s1 = stack.drop_last();
                            let s2 = if s1.len() > 0 && (s1.last() matches State::ExpectObjectValue) {
                                s1.drop_last()
                            } else {
                                s1
                            };
                            run(s2, path.take(b as int), rest)
                        },
                        _ => fail(ErrorKind::UnbalancedClose),
                    }
                }
            },
            Token::RBrace => {
                if stack.len() == 0 {
                    fail(ErrorKind::UnbalancedClose)
                } else {
                    match stack.last() {
                        State::Object(b) => run(stack.drop_last(), path.take(b as int), rest),
                        _ => fail(ErrorKind::UnbalancedClose),
                    }
                }
            },
            Token::Comma => {
                if stack.len() == 0 {
                    fail(ErrorKind::MisplacedComma)
                } else {
                    match stack.last() {
                        State::Array(i, b) => run(
                            stack.drop_last().push(State::Array((i + 1) as usize, b)),
                            path.take(b + 1),
                            rest,
                        ),
                        State::Object(b) => run(stack, path.take(b + 1), rest),
                        State::ExpectObjectValue => fail(ErrorKind::MisplacedComma),
                    }
                }
            },
            Token::Colon => {
                if stack.len() > 0 && (stack.last() matches State::ExpectObjectValue) {
                    run(stack, path, rest)
                } else {
                    fail(ErrorKind::MisplacedColon)
                }
            },
            Token::Value(v) => {
                if stack.len() == 0 {
                    emit((path, v@), run(stack, path, rest))
                } else {
                    match stack.last() {
                        State::Array(i, b) => {
                            let p1 = path + dec_chars(i as nat);
                            emit((p1, v@), run(stack, p1, rest))
                        },
                        State::Object(b) => match v {
                            lexer::Value::Text(s) => run(
                                stack.push(State::ExpectObjectValue),
                                path.take(b + 1) + s@,
                                rest,
                            ),
                            _ => emit((path, v@), run(stack, path, rest)),
                        },
                        State::ExpectObjectValue => emit(
                            (path, v@),
                            run(stack.drop_last(), path, rest),
                        ),
                    }
                }
            },
            Token::Illegal(_) => fail(ErrorKind::UnterminatedDocument),
        }
    }
}

/// The recorded base lengths fit the path buffer: each context's anchor is
/// strictly below the buffer's length, and anchors shrink toward the bottom
/// of the stack.
pub open spec fn wf_stack(stack: Seq<State>, plen: nat) -> bool
    decreases stack.len(),
{
    stack.len() == 0 || match stack.last() {
        State::Array(i, b) => b + 1 <= plen && wf_stack(stack.drop_last(), b as nat),
        State::Object(b) => b + 1 <= plen && wf_stack(stack.drop_last(), b as nat),
        State::ExpectObjectValue => wf_stack(stack.drop_last(), plen),
    }
}

/// Every array index on the stack is bounded by `n` (in the engine, by the
/// number of tokens consumed so far, which keeps the counters from ever
/// overflowing).
pub open spec fn idx_bound(stack: Seq<State>, n: nat) -> bool {
    forall|j: int|
        0 <= j < stack.len() ==> (#[trigger] stack[j] matches State::Array(i, b) ==> i <= n)
}

pub proof fn lemma_wf_stack_widen(stack: Seq<State>, p: nat, q: nat)
    requires
        wf_stack(stack, p),
        p <= q,
    ensures
        wf_stack(stack, q),
    decreases stack.len(),
{
    if stack.len() > 0 {
        match stack.last() {
            State::ExpectObjectValue => {
                lemma_wf_stack_widen(stack.drop_last(), p, q);
            },
            _ => {},
        }
    }
}

/// Builds the string holding exactly the given characters.
fn string_of_chars(chars: &Vec<char>) -> (r: String)
    ensures
        r@ == chars@,
{
    let mut s = String::new();
    let mut i: usize = 0;
    while i < chars.len()
        invariant
            i <= chars@.len(),
            s@ == chars@.take(i as int),
        decreases chars@.len() - i,
    {
        push_char(&mut s, chars[i]);
        proof {
            assert(s@ =~= chars@.take(i + 1));
        }
        i = i + 1;
    }
    proof {
        assert(s@ =~= chars@);
    }
    s
}

fn digit_char(d: usize) -> (c: char)
    requires
        d < 10,
    ensures
        c == dec_digit(d as nat),
{
    if d == 0 {
        '0'
    } else if d == 1 {
        '1'
    } else if d == 2 {
        '2'
    } else if d == 3 {
        '3'
    } else if d == 4 {
        '4'
    } else if d == 5 {
        '5'
    } else if d == 6 {
        '6'
    } else if d == 7 {
        '7'
    } else if d == 8 {
        '8'
    } else {
        '9'
    }
}

/// Appends the decimal digits of `n` to the buffer.
fn push_decimal(path: &mut Vec<char>, n: usize)
    ensures
        final(path)@ == old(path)@ + dec_chars(n as nat),
    decreases n,
{
    if n >= 10 {
        push_decimal(path, n / 10);
    }
    path.push(digit_char(n % 10));
    proof {
        if n >= 10 {
            assert(final(path)@ =~= old(path)@ + dec_chars(n as nat));
        } else {
            assert(final(path)@ =~= old(path)@ + dec_chars(n as nat));
        }
    }
}

/// Appends the characters of `s` to the buffer.
fn push_str_chars(path: &mut Vec<char>, s: &str)
    ensures
        final(path)@ == old(path)@ + s@,
{
    let n = s.unicode_len();
    let mut i: usize = 0;
    while i < n
        invariant
            n == s@.len(),
            i <= n,
            path@ == old(path)@ + s@.take(i as int),
        decreases n - i,
    {
        path.push(s.get_char(i));
        proof {
            assert(path@ =~= old(path)@ + s@.take(i + 1));
        }
        i = i + 1;
    }
    proof {
        assert(path@ =~= old(path)@ + s@);
    }
}

/// Carries a token's scalar payload over into an emitted value, text kept
/// character for character.
fn value_of_token(v: &lexer::Value) -> (r: Value)
    ensures
        r@ == v@,
{
    match v {
        lexer::Value::True => Value::True,
        lexer::Value::False => Value::False,
        lexer::Value::Null => Value::Null,
        lexer::Value::Text(s) => Value::Text(s.clone()),
        lexer::Value::Number(s) => Value::Number(s.clone()),
    }
}

proof fn lemma_idx_push(stack: Seq<State>, n: nat, x: State)
    requires
        idx_bound(stack, n),
        x matches State::Array(ai, ab) ==> ai <= n,
    ensures
        idx_bound(stack.push(x), n),
{
    assert forall|j: int|
        0 <= j < stack.push(x).len() implies (#[trigger] stack.push(x)[j] matches State::Array(
        ai,
        ab,
    ) ==> ai <= n) by {
        if j < stack.len() {
            assert(stack.push(x)[j] == stack[j]);
        } else {
            assert(stack.push(x)[j] == x);
        }
    }
}

proof fn lemma_idx_drop_last(stack: Seq<State>, n: nat)
    requires
        idx_bound(stack, n),
        stack.len() > 0,
    ensures
        idx_bound(stack.drop_last(), n),
{
    assert forall|j: int|
        0 <= j < stack.drop_last().len() implies (#[trigger] stack.drop_last()[j] matches State::Array(
        ai,
        ab,
    ) ==> ai <= n) by {
        assert(stack.drop_last()[j] == stack[j]);
    }
}

proof fn lemma_idx_mono(stack: Seq<State>, n: nat, m: nat)
    requires
        idx_bound(stack, n),
        n <= m,
    ensures
        idx_bound(stack, m),
{
    assert forall|j: int|
        0 <= j < stack.len() implies (#[trigger] stack[j] matches State::Array(ai, ab) ==> ai
        <= m) by {
        assert(stack[j] matches State::Array(ai, ab) ==> ai <= n);
    }
}

/// The engine. It owns the token stream, the context stack and the one
/// reusable path buffer; each call of [`Parser::next`] consumes structural
/// tokens until a pair is ready, the source is exhausted, or a structural
/// violation is found.
pub struct Parser {
    tokens: Vec<Token>,
    pos: usize,
    state: Vec<State>,
    path: Vec<char>,
    curr: (String, Value),
    ended: bool,
    err: Option<ErrorKind>,
}

impl Parser {
    /// The tokens not yet consumed.
    pub closed spec fn rem(&self) -> Seq<Token> {
        self.tokens@.skip(self.pos as int)
    }

    /// Everything the engine will still produce: the remaining pairs and
    /// the error, if any, that will end the run.
    pub closed spec fn out(&self) -> RunOut {
        run(self.state@, self.path@, self.rem())
    }

    /// False once the source is exhausted or a failure was found.
    pub closed spec fn live(&self) -> bool {
        !self.ended
    }

    /// The failure that ended the run, if one did.
    pub closed spec fn failure(&self) -> Option<ErrorKind> {
        self.err
    }

    /// The pair produced by the latest advance.
    pub closed spec fn current(&self) -> (Seq<char>, ValueModel) {
        (self.curr.0@, self.curr.1@)
    }

    pub closed spec fn wf(&self) -> bool {
        &&& self.pos <= self.tokens@.len()
        &&& wf_stack(self.state@, self.path@.len() as nat)
        &&& idx_bound(self.state@, self.pos as nat)
        &&& (self.err is Some ==> self.ended)
    }

    /// A fresh engine over the given token stream, its path buffer holding
    /// the caller-chosen root name and its context stack empty. No token
    /// is consumed before the first advance.
    pub fn new(tokens: Vec<Token>, root: &str) -> (r: Parser)
        ensures
            r.wf(),
            r.live(),
            r.failure() is None,
            r.out() == run(Seq::<State>::empty(), root@, tokens@),
            r.current() == (root@, ValueModel::Null),
    {
        let mut path: Vec<char> = Vec::new();
        push_str_chars(&mut path, root);
        let dummy = String::from_str(root);
        let r = Parser {
            tokens,
            pos: 0,
            state: Vec::new(),
            path,
            curr: (dummy, Value::Null),
            ended: false,
            err: None,
        };
        proof {
            assert(r.path@ =~= root@);
            assert(r.rem() =~= r.tokens@);
        }
        r
    }

    /// Takes the array index as a path segment when the next element of an
    /// array begins, and retires the pending-value marker when an object
    /// value turns out to be a container.
    fn enter_element(&mut self)
        requires
            old(self).wf(),
        ensures
            final(self).state@ == open_at(old(self).state@, old(self).path@).0,
            final(self).path@ == open_at(old(self).state@, old(self).path@).1,
            final(self).tokens == old(self).tokens,
            final(self).pos == old(self).pos,
            final(self).curr == old(self).curr,
            final(self).ended == old(self).ended,
            final(self).err == old(self).err,
            wf_stack(final(self).state@, final(self).path@.len() as nat),
            idx_bound(final(self).state@, final(self).pos as nat),
            old(self).path@.len() <= final(self).path@.len(),
    {
        let n = self.state.len();
        if n > 0 {
            let top = self.state[n - 1];
            match top {
                State::Array(i, _b) => {
                    push_decimal(&mut self.path, i);
                    proof {
                        lemma_wf_stack_widen(
                            self.state@,
                            old(self).path@.len() as nat,
                            self.path@.len() as nat,
                        );
                    }
                },
                State::Object(_b) => {},
                State::ExpectObjectValue => {
                    let _m = self.state.pop();
                    proof {
                        lemma_idx_drop_last(old(self).state@, self.pos as nat);
                    }
                },
            }
        }
    }

    fn step_lbracket(&mut self)
        requires
            old(self).wf(),
            old(self).live(),
            old(self).failure() is None,
            old(self).pos < old(self).tokens@.len(),
            old(self).tokens@[old(self).pos as int] matches Token::LBracket,
        ensures
            final(self).wf(),
            final(self).live(),
            final(self).failure() is None,
            final(self).tokens == old(self).tokens,
            final(self).pos == old(self).pos + 1,
            final(self).out().pairs == old(self).out().pairs,
            final(self).out().err == old(self).out().err,
            final(self).curr == old(self).curr,
    {
        let ghost st0 = self.state@;
        let ghost p0 = self.path@;
        let ghost rem0 = self.rem();
        let ghost pos0 = self.pos;
        proof {
            assert(self.tokens.len() == self.tokens@.len());
        }
        self.enter_element();
        let b = self.path.len();
        self.state.push(State::Array(0, b));
        self.path.push('_');
        self.pos = self.pos + 1;
        proof {
            assert(rem0[0] == self.tokens@[pos0 as int]);
            assert(self.rem() =~= rem0.drop_first());
            assert(self.state@.drop_last() =~= open_at(st0, p0).0);
            assert(self.state@.last() == State::Array(0, b));
            assert(b == open_at(st0, p0).1.len());
            assert(wf_stack(self.state@, self.path@.len() as nat));
            lemma_idx_push(open_at(st0, p0).0, pos0 as nat, State::Array(0, b));
            lemma_idx_mono(self.state@, pos0 as nat, self.pos as nat);
            assert(run(st0, p0, rem0) == run(self.state@, self.path@, self.rem()));
        }
    }

    fn step_lbrace(&mut self)
        requires
            old(self).wf(),
            old(self).live(),
            old(self).failure() is None,
            old(self).pos < old(self).tokens@.len(),
            old(self).tokens@[old(self).pos as int] matches Token::LBrace,
        ensures
            final(self).wf(),
            final(self).live(),
            final(self).failure() is None,
            final(self).tokens == old(self).tokens,
            final(self).pos == old(self).pos + 1,
            final(self).out().pairs == old(self).out().pairs,
            final(self).out().err == old(self).out().err,
            final(self).curr == old(self).curr,
    {
        let ghost st0 = self.state@;
        let ghost p0 = self.path@;
        let ghost rem0 = self.rem();
        let ghost pos0 = self.pos;
        proof {
            assert(self.tokens.len() == self.tokens@.len());
        }
        self.enter_element();
        let b = self.path.len();
        self.state.push(State::Object(b));
        self.path.push('_');
        self.pos = self.pos + 1;
        proof {
            assert(rem0[0] == self.tokens@[pos0 as int]);
            assert(self.rem() =~= rem0.drop_first());
            assert(self.state@.drop_last() =~= open_at(st0, p0).0);
            assert(self.state@.last() == State::Object(b));
            assert(b == open_at(st0, p0).1.len());
            assert(wf_stack(self.state@, self.path@.len() as nat));
            lemma_idx_push(open_at(st0, p0).0, pos0 as nat, State::Object(b));
            lemma_idx_mono(self.state@, pos0 as nat, self.pos as nat);
            assert(run(st0, p0, rem0) == run(self.state@, self.path@, self.rem()));
        }
    }

    fn step_rbracket(&mut self) -> (r: Option<ErrorKind>)
        requires
            old(self).wf(),
            old(self).live(),
            old(self).failure() is None,
            old(self).pos < old(self).tokens@.len(),
            old(self).tokens@[old(self).pos as int] matches Token::RBracket,
        ensures
            final(self).wf(),
            final(self).tokens == old(self).tokens,
            final(self).curr == old(self).curr,
            match r {
                None => {
                    &&& final(self).live()
                    &&& final(self).failure() is None
                    &&& final(self).pos == old(self).pos + 1
                    &&& final(self).out().pairs == old(self).out().pairs
                    &&& final(self).out().err == old(self).out().err
                },
                Some(k) => {
                    &&& !final(self).live()
                    &&& final(self).failure() == Some(k)
                    &&& old(self).out().pairs.len() == 0
                    &&& old(self).out().err == Some(k)
                },
            },
    {
        let ghost st0 = self.state@;
        let ghost p0 = self.path@;
        let ghost rem0 = self.rem();
        let ghost pos0 = self.pos;
        proof {
            assert(self.tokens.len() == self.tokens@.len());
            assert(rem0[0] == self.tokens@[pos0 as int]);
        }
        let n = self.state.len();
        if n == 0 {
            self.ended = true;
            self.err = Some(ErrorKind::UnbalancedClose);
            return Some(ErrorKind::UnbalancedClose);
        }
        let top = self.state[n - 1];
        match top {
            State::Array(_i, b) => {
                proof {
                    assert(b + 1 <= p0.len());
                }
                let _p = self.state.pop();
                self.path.truncate(b);
                let m = self.state.len();
                if m > 0 {
                    let under = self.state[m - 1];
                    if matches!(under, State::ExpectObjectValue) {
                        let _m2 = self.state.pop();
                        proof {
                            lemma_idx_drop_last(st0.drop_last(), pos0 as nat);
                        }
                    }
                }
                self.pos = self.pos + 1;
                proof {
                    lemma_idx_drop_last(st0, pos0 as nat);
                    lemma_idx_mono(self.state@, pos0 as nat, self.pos as nat);
                    assert(wf_stack(st0.drop_last(), b as nat));
                    assert(self.path@.len() == b);
                    if self.state@.len() < st0.drop_last().len() {
                        assert(st0.drop_last().last() matches State::ExpectObjectValue);
                        assert(wf_stack(st0.drop_last().drop_last(), b as nat));
                    }
                    assert(wf_stack(self.state@, self.path@.len() as nat));
                    assert(self.rem() =~= rem0.drop_first());
                    assert(run(st0, p0, rem0) == run(self.state@, self.path@, self.rem()));
                }
                None
            },
            _ => {
                self.ended = true;
                self.err = Some(ErrorKind::UnbalancedClose);
                Some(ErrorKind::UnbalancedClose)
            },
        }
    }

    fn step_rbrace(&mut self) -> (r: Option<ErrorKind>)
        requires
            old(self).wf(),
            old(self).live(),
            old(self).failure() is None,
            old(self).pos < old(self).tokens@.len(),
            old(self).tokens@[old(self).pos as int] matches Token::RBrace,
        ensures
            final(self).wf(),
            final(self).tokens == old(self).tokens,
            final(self).curr == old(self).curr,
            match r {
                None => {
                    &&& final(self).live()
                    &&& final(self).failure() is None
                    &&& final(self).pos == old(self).pos + 1
                    &&& final(self).out().pairs == old(self).out().pairs
                    &&& final(self).out().err == old(self).out().err
                },
                Some(k) => {
                    &&& !final(self).live()
                    &&& final(self).failure() == Some(k)
                    &&& old(self).out().pairs.len() == 0
                    &&& old(self).out().err == Some(k)
                },
            },
    {
        let ghost st0 = self.state@;
        let ghost p0 = self.path@;
        let ghost rem0 = self.rem();
        let ghost pos0 = self.pos;
        proof {
            assert(self.tokens.len() == self.tokens@.len());
            assert(rem0[0] == self.tokens@[pos0 as int]);
        }
        let n = self.state.len();
        if n == 0 {
            self.ended = true;
            self.err = Some(ErrorKind::UnbalancedClose);
            return Some(ErrorKind::UnbalancedClose);
        }
        let top = self.state[n - 1];
        match top {
            State::Object(b) => {
                proof {
                    assert(b + 1 <= p0.len());
                }
                let _p = self.state.pop();
                self.path.truncate(b);
                self.pos = self.pos + 1;
                proof {
                    lemma_idx_drop_last(st0, pos0 as nat);
                    lemma_idx_mono(self.state@, pos0 as nat, self.pos as nat);
                    assert(wf_stack(self.state@, self.path@.len() as nat));
                    assert(self.rem() =~= rem0.drop_first());
                    assert(run(st0, p0, rem0) == run(self.state@, self.path@, self.rem()));
                }
                None
            },
            _ => {
                self.ended = true;
                self.err = Some(ErrorKind::UnbalancedClose);
                Some(ErrorKind::UnbalancedClose)
            },
        }
    }

    fn step_comma(&mut self) -> (r: Option<ErrorKind>)
        requires
            old(self).wf(),
            old(self).live(),
            old(self).failure() is None,
            old(self).pos < old(self).tokens@.len(),
            old(self).tokens@[old(self).pos as int] matches Token::Comma,
        ensures
            final(self).wf(),
            final(self).tokens == old(self).tokens,
            final(self).curr == old(self).curr,
            match r {
                None => {
                    &&& final(self).live()
                    &&& final(self).failure() is None
                    &&& final(self).pos == old(self).pos + 1
                    &&& final(self).out().pairs == old(self).out().pairs
                    &&& final(self).out().err == old(self).out().err
                },
                Some(k) => {
                    &&& !final(self).live()
                    &&& final(self).failure() == Some(k)
                    &&& old(self).out().pairs.len() == 0
                    &&& old(self).out().err == Some(k)
                },
            },
    {
        let ghost st0 = self.state@;
        let ghost p0 = self.path@;
        let ghost rem0 = self.rem();
        let ghost pos0 = self.pos;
        proof {
            assert(self.tokens.len() == self.tokens@.len());
            assert(rem0[0] == self.tokens@[pos0 as int]);
        }
        let n = self.state.len();
        if n == 0 {
            self.ended = true;
            self.err = Some(ErrorKind::MisplacedComma);
            return Some(ErrorKind::MisplacedComma);
        }
        let top = self.state[n - 1];
        match top {
            State::Array(i, b) => {
                proof {
                    assert(st0[n - 1] matches State::Array(ai, ab) ==> ai <= pos0 as nat);
                    assert(self.path.len() == self.path@.len());
                    assert(b + 1 <= p0.len());
                }
                let _p = self.state.pop();
                self.state.push(State::Array(i + 1, b));
                self.path.truncate(b + 1);
                self.pos = self.pos + 1;
                proof {
                    assert(self.state@.drop_last() =~= st0.drop_last());
                    assert(self.state@.last() == State::Array((i + 1) as usize, b));
                    lemma_idx_drop_last(st0, pos0 as nat);
                    lemma_idx_mono(st0.drop_last(), pos0 as nat, self.pos as nat);
                    lemma_idx_push(st0.drop_last(), self.pos as nat, State::Array((i + 1) as usize, b));
                    assert(wf_stack(self.state@, self.path@.len() as nat));
                    assert(self.rem() =~= rem0.drop_first());
                    assert(run(st0, p0, rem0) == run(self.state@, self.path@, self.rem()));
                }
                None
            },
            State::Object(b) => {
                proof {
                    assert(self.path.len() == self.path@.len());
                    assert(b + 1 <= p0.len());
                }
                self.path.truncate(b + 1);
                self.pos = self.pos + 1;
                proof {
                    lemma_idx_mono(self.state@, pos0 as nat, self.pos as nat);
                    assert(wf_stack(self.state@, self.path@.len() as nat));
                    assert(self.rem() =~= rem0.drop_first());
                    assert(run(st0, p0, rem0) == run(self.state@, self.path@, self.rem()));
                }
                None
            },
            State::ExpectObjectValue => {
                self.ended = true;
                self.err = Some(ErrorKind::MisplacedComma);
                Some(ErrorKind::MisplacedComma)
            },
        }
    }

    fn step_colon(&mut self) -> (r: Option<ErrorKind>)
        requires
            old(self).wf(),
            old(self).live(),
            old(self).failure() is None,
            old(self).pos < old(self).tokens@.len(),
            old(self).tokens@[old(self).pos as int] matches Token::Colon,
        ensures
            final(self).wf(),
            final(self).tokens == old(self).tokens,
            final(self).curr == old(self).curr,
            match r {
                None => {
                    &&& final(self).live()
                    &&& final(self).failure() is None
                    &&& final(self).pos == old(self).pos + 1
                    &&& final(self).out().pairs == old(self).out().pairs
                    &&& final(self).out().err == old(self).out().err
                },
                Some(k) => {
                    &&& !final(self).live()
                    &&& final(self).failure() == Some(k)
                    &&& old(self).out().pairs.len() == 0
                    &&& old(self).out().err == Some(k)
                },
            },
    {
        let ghost rem0 = self.rem();
        let ghost pos0 = self.pos;
        proof {
            assert(self.tokens.len() == self.tokens@.len());
            assert(rem0[0] == self.tokens@[pos0 as int]);
        }
        let n = self.state.len();
        let mut marker = false;
        if n > 0 {
            let top = self.state[n - 1];
            marker = matches!(top, State::ExpectObjectValue);
        }
        if marker {
            self.pos = self.pos + 1;
            proof {
                lemma_idx_mono(self.state@, pos0 as nat, self.pos as nat);
                assert(self.rem() =~= rem0.drop_first());
            }
            None
        } else {
            self.ended = true;
            self.err = Some(ErrorKind::MisplacedColon);
            Some(ErrorKind::MisplacedColon)
        }
    }

    fn step_value(&mut self) -> (r: Option<(String, Value)>)
        requires
            old(self).wf(),
            old(self).live(),
            old(self).failure() is None,
            old(self).pos < old(self).tokens@.len(),
            old(self).tokens@[old(self).pos as int] matches Token::Value(_),
        ensures
            final(self).wf(),
            final(self).live(),
            final(self).failure() is None,
            final(self).tokens == old(self).tokens,
            final(self).pos == old(self).pos + 1,
            match r {
                Some(p) => {
                    &&& old(self).out().pairs.len() > 0
                    &&& (p.0@, p.1@) == old(self).out().pairs[0]
                    &&& final(self).out().pairs == old(self).out().pairs.drop_first()
                    &&& final(self).out().err == old(self).out().err
                    &&& final(self).current() == (p.0@, p.1@)
                },
                None => {
                    &&& final(self).out().pairs == old(self).out().pairs
                    &&& final(self).out().err == old(self).out().err
                    &&& final(self).curr == old(self).curr
                },
            },
    {
        let ghost st0 = self.state@;
        let ghost p0 = self.path@;
        let ghost rem0 = self.rem();
        let ghost pos0 = self.pos;
        proof {
            assert(self.tokens.len() == self.tokens@.len());
            assert(rem0[0] == self.tokens@[pos0 as int]);
        }
        match &self.tokens[self.pos] {
            Token::Value(v) => {
                let n = self.state.len();
                if n == 0 {
                    let val = value_of_token(v);
                    let val2 = value_of_token(v);
                    self.pos = self.pos + 1;
                    let ps = string_of_chars(&self.path);
                    let ps2 = ps.clone();
                    self.curr = (ps, val);
                    proof {
                        lemma_idx_mono(self.state@, pos0 as nat, self.pos as nat);
                        assert(self.rem() =~= rem0.drop_first());
                        let pm = (self.path@, val@);
                        let nxt = run(self.state@, self.path@, self.rem());
                        assert(run(st0, p0, rem0) == emit(pm, nxt));
                        assert(emit(pm, nxt).pairs[0] == pm);
                        assert(emit(pm, nxt).pairs.drop_first() =~= nxt.pairs);
                    }
                    return Some((ps2, val2));
                }
                let top = self.state[n - 1];
                match top {
                    State::Array(i, _b) => {
                        push_decimal(&mut self.path, i);
                        let val = value_of_token(v);
                        let val2 = value_of_token(v);
                        self.pos = self.pos + 1;
                        let ps = string_of_chars(&self.path);
                        let ps2 = ps.clone();
                        self.curr = (ps, val);
                        proof {
                            lemma_wf_stack_widen(self.state@, p0.len() as nat, self.path@.len() as nat);
                            lemma_idx_mono(self.state@, pos0 as nat, self.pos as nat);
                            assert(self.rem() =~= rem0.drop_first());
                            let pm = (self.path@, val@);
                            let nxt = run(self.state@, self.path@, self.rem());
                            assert(run(st0, p0, rem0) == emit(pm, nxt));
                            assert(emit(pm, nxt).pairs[0] == pm);
                            assert(emit(pm, nxt).pairs.drop_first() =~= nxt.pairs);
                        }
                        return Some((ps2, val2));
                    },
                    State::Object(b) => {
                        match v {
                            lexer::Value::Text(s) => {
                                proof {
                                    assert(self.path.len() == self.path@.len());
                                    assert(b + 1 <= p0.len());
                                }
                                self.path.truncate(b + 1);
                                push_str_chars(&mut self.path, s.as_str());
                                self.state.push(State::ExpectObjectValue);
                                self.pos = self.pos + 1;
                                proof {
                                    assert(self.state@.drop_last() =~= st0);
                                    assert(self.state@.last() == State::ExpectObjectValue);
                                    assert(wf_stack(st0, (b + 1) as nat));
                                    lemma_wf_stack_widen(st0, (b + 1) as nat, self.path@.len() as nat);
                                    assert(wf_stack(self.state@, self.path@.len() as nat));
                                    lemma_idx_push(st0, pos0 as nat, State::ExpectObjectValue);
                                    lemma_idx_mono(self.state@, pos0 as nat, self.pos as nat);
                                    assert(self.rem() =~= rem0.drop_first());
                                    assert(run(st0, p0, rem0) == run(self.state@, self.path@, self.rem()));
                                }
                                None
                            },
                            _ => {
                                let val = value_of_token(v);
                                let val2 = value_of_token(v);
                                self.pos = self.pos + 1;
                                let ps = string_of_chars(&self.path);
                                let ps2 = ps.clone();
                                self.curr = (ps, val);
                                proof {
                                    lemma_idx_mono(self.state@, pos0 as nat, self.pos as nat);
                                    assert(self.rem() =~= rem0.drop_first());
                                    let pm = (self.path@, val@);
                                    let nxt = run(self.state@, self.path@, self.rem());
                                    assert(run(st0, p0, rem0) == emit(pm, nxt));
                                    assert(emit(pm, nxt).pairs[0] == pm);
                                    assert(emit(pm, nxt).pairs.drop_first() =~= nxt.pairs);
                                }
                                Some((ps2, val2))
                            },
                        }
                    },
                    State::ExpectObjectValue => {
                        let val = value_of_token(v);
                        let val2 = value_of_token(v);
                        let _m = self.state.pop();
                        self.pos = self.pos + 1;
                        let ps = string_of_chars(&self.path);
                        let ps2 = ps.clone();
                        self.curr = (ps, val);
                        proof {
                            lemma_idx_drop_last(st0, pos0 as nat);
                            lemma_idx_mono(self.state@, pos0 as nat, self.pos as nat);
                            assert(wf_stack(self.state@, self.path@.len() as nat));
                            assert(self.rem() =~= rem0.drop_first());
                            let pm = (self.path@, val@);
                            let nxt = run(self.state@, self.path@, self.rem());
                            assert(run(st0, p0, rem0) == emit(pm, nxt));
                            assert(emit(pm, nxt).pairs[0] == pm);
                            assert(emit(pm, nxt).pairs.drop_first() =~= nxt.pairs);
                        }
                        Some((ps2, val2))
                    },
                }
            },
            _ => {
                proof {
                    assert(false);
                }
                None
            },
        }
    }

    /// Pulls tokens until one pair is ready (`Ok(Some(pair))`), the source
    /// is cleanly exhausted (`Ok(None)`), or a structural violation is
    /// found (`Err(kind)`). Across calls the pairs handed out are exactly
    /// `self.out().pairs`, in order, and the run ends as `self.out().err`
    /// says.
    pub fn next(&mut self) -> (r: Result<Option<(String, Value)>, ErrorKind>)
        requires
            old(self).wf(),
        ensures
            final(self).wf(),
            !old(self).live() ==> *final(self) == *old(self),
            match r {
                Ok(Some(p)) => {
                    &&& old(self).live()
                    &&& old(self).out().pairs.len() > 0
                    &&& (p.0@, p.1@) == old(self).out().pairs[0]
                    &&& final(self).live()
                    &&& final(self).failure() is None
                    &&& final(self).out().pairs == old(self).out().pairs.drop_first()
                    &&& final(self).out().err == old(self).out().err
                    &&& final(self).current() == (p.0@, p.1@)
                },
                Ok(None) => {
                    &&& !final(self).live()
                    &&& final(self).failure() is None
                    &&& (old(self).live() ==> old(self).out().pairs.len() == 0 && old(
                        self,
                    ).out().err is None)
                },
                Err(k) => {
                    &&& !final(self).live()
                    &&& final(self).failure() == Some(k)
                    &&& (old(self).live() ==> old(self).out().pairs.len() == 0 && old(
                        self,
                    ).out().err == Some(k))
                },
            },
    {
        if self.ended {
            return match self.err {
                None => Ok(None),
                Some(k) => Err(k),
            };
        }
        loop
            invariant
                self.wf(),
                self.live(),
                self.failure() is None,
                old(self).live(),
                self.out().pairs == old(self).out().pairs,
                self.out().err == old(self).out().err,
            decreases self.tokens@.len() - self.pos,
        {
            if self.pos == self.tokens.len() {
                proof {
                    assert(self.rem() =~= Seq::<Token>::empty());
                }
                self.ended = true;
                if self.state.len() == 0 {
                    return Ok(None);
                } else {
                    self.err = Some(ErrorKind::UnterminatedDocument);
                    return Err(ErrorKind::UnterminatedDocument);
                }
            }
            let tag: u8 = match &self.tokens[self.pos] {
                Token::LBracket => 0,
                Token::LBrace => 1,
                Token::RBracket => 2,
                Token::RBrace => 3,
                Token::Comma => 4,
                Token::Colon => 5,
                Token::Value(_) => 6,
                Token::Illegal(_) => 7,
            };
            if tag == 0 {
                self.step_lbracket();
            } else if tag == 1 {
                self.step_lbrace();
            } else if tag == 2 {
                if let Some(k) = self.step_rbracket() {
                    return Err(k);
                }
            } else if tag == 3 {
                if let Some(k) = self.step_rbrace() {
                    return Err(k);
                }
            } else if tag == 4 {
                if let Some(k) = self.step_comma() {
                    return Err(k);
                }
            } else if tag == 5 {
                if let Some(k) = self.step_colon() {
                    return Err(k);
                }
            } else if tag == 6 {
                if let Some(pair) = self.step_value() {
                    return Ok(Some(pair));
                }
            } else {
                proof {
                    let ghost rem0 = self.rem();
                    assert(rem0[0] == self.tokens@[self.pos as int]);
                }
                self.ended = true;
                self.err = Some(ErrorKind::UnterminatedDocument);
                return Err(ErrorKind::UnterminatedDocument);
            }
        }
    }

    /// Advances to the next pair, if any: the first half of the two-step
    /// protocol. [`Parser::get`] then hands the pair out, or nothing once
    /// the run is over.
    pub fn advance(&mut self)
        requires
            old(self).wf(),
        ensures
            final(self).wf(),
            !old(self).live() ==> *final(self) == *old(self),
            old(self).live() && old(self).out().pairs.len() > 0 ==> {
                &&& final(self).live()
                &&& final(self).failure() is None
                &&& final(self).current() == old(self).out().pairs[0]
                &&& final(self).out().pairs == old(self).out().pairs.drop_first()
                &&& final(self).out().err == old(self).out().err
            },
            old(self).live() && old(self).out().pairs.len() == 0 ==> {
                &&& !final(self).live()
                &&& final(self).failure() == old(self).out().err
            },
    {
        let _r = self.next();
    }

    /// The pair the latest advance produced: the second half of the
    /// two-step protocol. Before the first advance it holds the root name
    /// and a null.
    pub fn get(&self) -> (r: Option<&(String, Value)>)
        ensures
            match r {
                Some(p) => self.live() && (p.0@, p.1@) == self.current(),
                None => !self.live(),
            },
    {
        if self.ended {
            None
        } else {
            Some(&self.curr)
        }
    }
}

/// The ghost shape of a sequence of emitted pairs.
pub open spec fn pairs_view(s: Seq<(String, Value)>) -> Seq<(Seq<char>, ValueModel)> {
    s.map_values(|p: (String, Value)| (p.0@, p.1@))
}

/// Flattens a whole token stream under the caller-chosen root name:
/// every pair the engine emits for it, in document order, and the error
/// that stopped the run, if one did. Pairs emitted before a failure
/// stand.
#[verifier::loop_isolation(false)]
pub fn flatten(tokens: Vec<Token>, root: &str) -> (r: (
    Vec<(String, Value)>,
    Option<ErrorKind>,
))
    ensures
        pairs_view(r.0@) == run(Seq::<State>::empty(), root@, tokens@).pairs,
        r.1 == run(Seq::<State>::empty(), root@, tokens@).err,
{
    let ghost out0 = run(Seq::<State>::empty(), root@, tokens@);
    let mut p = Parser::new(tokens, root);
    let mut acc: Vec<(String, Value)> = Vec::new();
    proof {
        assert(pairs_view(acc@) + p.out().pairs =~= out0.pairs);
    }
    loop
        invariant
            p.wf(),
            p.live(),
            p.failure() is None,
            p.out().err == out0.err,
            pairs_view(acc@) + p.out().pairs == out0.pairs,
        decreases p.out().pairs.len(),
    {
        let ghost a0 = acc@;
        let ghost pre = p.out().pairs;
        match p.next() {
            Ok(Some(pair)) => {
                let ghost pm = (pair.0@, pair.1@);
                acc.push(pair);
                proof {
                    assert(pairs_view(acc@) =~= pairs_view(a0).push(pm));
                    assert(seq![pm] + pre.drop_first() =~= pre);
                    assert(pairs_view(acc@) + p.out().pairs =~= pairs_view(a0) + pre);
                }
            },
            Ok(None) => {
                proof {
                    assert(pairs_view(a0) + pre =~= pairs_view(a0));
                }
                return (acc, None);
            },
            Err(k) => {
                proof {
                    assert(pairs_view(a0) + pre =~= pairs_view(a0));
                }
                return (acc, Some(k));
            },
        }
    }
}

/// How a scalar renders: `true`, `false` or `null`, text verbatim, or the
/// number's decimal text.
pub open spec fn render_spec(v: ValueModel) -> Seq<char> {
    match v {
        ValueModel::True => "true"@,
        ValueModel::False => "false"@,
        ValueModel::Null => "null"@,
        ValueModel::Text(s) => s,
        ValueModel::Number(s) => s,
    }
}

impl Value {
    /// The scalar's rendering, as the reference output writes it between
    /// the quotes.
    pub fn render(&self) -> (r: String)
        ensures
            r@ == render_spec(self@),
    {
        match self {
            Value::True => String::from_str("true"),
            Value::False => String::from_str("false"),
            Value::Null => String::from_str("null"),
            Value::Text(s) => s.clone(),
            Value::Number(s) => s.clone(),
        }
    }
}

/// A character the reference output keeps in a name: an ASCII letter, a
/// digit or the underscore.
pub open spec fn is_name_char(c: char) -> bool {
    ||| ('A' as u32) <= (c as u32) && (c as u32) <= ('Z' as u32)
    ||| ('a' as u32) <= (c as u32) && (c as u32) <= ('z' as u32)
    ||| ('0' as u32) <= (c as u32) && (c as u32) <= ('9' as u32)
    ||| c == '_'
}

/// The name with every character outside `[A-Za-z0-9_]` stripped.
pub open spec fn sanitized(s: Seq<char>) -> Seq<char>
    decreases s.len(),
{
    if s.len() == 0 {
        Seq::empty()
    } else if is_name_char(s[0]) {
        seq![s[0]] + sanitized(s.drop_first())
    } else {
        sanitized(s.drop_first())
    }
}

/// Strips from a pair's name every character the reference output does not
/// keep.
pub fn sanitize_name(s: &str) -> (r: String)
    ensures
        r@ == sanitized(s@),
{
    let n = s.unicode_len();
    let mut out = String::new();
    let mut i: usize = 0;
    proof {
        assert(s@.skip(0) =~= s@);
        assert(out@ + sanitized(s@) =~= sanitized(s@));
    }
    while i < n
        invariant
            n == s@.len(),
            i <= n,
            out@ + sanitized(s@.skip(i as int)) == sanitized(s@),
        decreases n - i,
    {
        let c = s.get_char(i);
        proof {
            assert(s@.skip(i as int)[0] == c);
            assert(s@.skip(i as int).drop_first() =~= s@.skip(i + 1));
        }
        let ghost o0 = out@;
        let keep = ((c as u32) >= ('A' as u32) && (c as u32) <= ('Z' as u32)) || ((c as u32)
            >= ('a' as u32) && (c as u32) <= ('z' as u32)) || ((c as u32) >= ('0' as u32) && (c
            as u32) <= ('9' as u32)) || c == '_';
        if keep {
            push_char(&mut out, c);
            proof {
                assert(out@ + sanitized(s@.skip(i + 1)) =~= o0 + sanitized(s@.skip(i as int)));
            }
        } else {
            proof {
                assert(out@ + sanitized(s@.skip(i + 1)) =~= o0 + sanitized(s@.skip(i as int)));
            }
        }
        i = i + 1;
    }
    proof {
        assert(s@.skip(n as int) =~= Seq::<char>::empty());
        assert(out@ + sanitized(s@.skip(n as int)) =~= out@);
    }
    out
}

/// One reference output line, without its terminator: the stripped name,
/// an equals sign, then the scalar's rendering between double quotes.
pub fn render_line(path: &str, v: &Value) -> (r: String)
    ensures
        r@ == sanitized(path@) + seq!['=', '\u{0022}'] + render_spec(v@) + seq!['\u{0022}'],
{
    let mut out = sanitize_name(path);
    push_char(&mut out, '=');
    push_char(&mut out, '\u{0022}');
    let val = v.render();
    out.append(val.as_str());
    push_char(&mut out, '\u{0022}');
    proof {
        assert(out@ =~= sanitized(path@) + seq!['=', '\u{0022}'] + render_spec(v@) + seq![
            '\u{0022}',
        ]);
    }
    out
}

} // verus!
