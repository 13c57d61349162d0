//! Tokenizer: turns source text into a stream of lexical tokens.
//!
//! Text scalars carry fully decoded content (escape sequences resolved);
//! number tokens carry the number's source text, already checked against
//! the decimal float grammar, so consumers can render it without
//! re-parsing. The ghost function [`spec_next`] pins down, for any
//! remaining input, which token one pull produces and how many characters
//! it consumes.

use vstd::prelude::*;
use vstd::string::StrSliceExecFns;

verus! {

/// A scalar payload carried by a value token: one of the five JSON leaf
/// kinds.
#[derive(Debug, PartialEq)]
pub enum Value {
    True,
    False,
    Null,
    Text(String),
    Number(String),
}

/// The ghost shape of a [`Value`]: its text abstracted to a character
/// sequence.
pub enum ValueModel {
    True,
    False,
    Null,
    Text(Seq<char>),
    Number(Seq<char>),
}

impl View for Value {
    type V = ValueModel;

    open spec fn view(&self) -> ValueModel {
        match self {
            Value::True => ValueModel::True,
            Value::False => ValueModel::False,
            Value::Null => ValueModel::Null,
            Value::Text(s) => ValueModel::Text(s@),
            Value::Number(s) => ValueModel::Number(s@),
        }
    }
}

/// One lexical token of a JSON document.
#[derive(Debug, PartialEq)]
pub enum Token {
    Illegal(String),
    LBrace,
    RBrace,
    LBracket,
    RBracket,
    Colon,
    Comma,
    Value(Value),
}

/// The ghost shape of a [`Token`].
pub enum TokenModel {
    Illegal(Seq<char>),
    LBrace,
    RBrace,
    LBracket,
    RBracket,
    Colon,
    Comma,
    Value(ValueModel),
}

impl View for Token {
    type V = TokenModel;

    open spec fn view(&self) -> TokenModel {
        match self {
            Token::Illegal(s) => TokenModel::Illegal(s@),
            Token::LBrace => TokenModel::LBrace,
            Token::RBrace => TokenModel::RBrace,
            Token::LBracket => TokenModel::LBracket,
            Token::RBracket => TokenModel::RBracket,
            Token::Colon => TokenModel::Colon,
            Token::Comma => TokenModel::Comma,
            Token::Value(v) => TokenModel::Value(v@),
        }
    }
}

/// The whitespace the tokenizer skips.
pub open spec fn is_ws(c: char) -> bool {
    c == ' ' || c == '\t' || c == '\n'
}

pub open spec fn is_digit(c: char) -> bool {
    ('0' as u32) <= (c as u32) && (c as u32) <= ('9' as u32)
}

pub open spec fn is_sign(c: char) -> bool {
    c == '-' || c == '+'
}

/// A character that can continue a number token.
pub open spec fn is_number_char(c: char) -> bool {
    is_digit(c) || c == '.' || c == 'e' || c == '-' || c == '+'
}

/// How many leading characters of `s` are decimal digits.
pub open spec fn digit_run(s: Seq<char>) -> nat
    decreases s.len(),
{
    if s.len() == 0 || !is_digit(s[0]) {
        0
    } else {
        1 + digit_run(s.drop_first())
    }
}

/// How many leading characters of `s` can belong to a number token.
pub open spec fn number_run(s: Seq<char>) -> nat
    decreases s.len(),
{
    if s.len() == 0 || !is_number_char(s[0]) {
        0
    } else {
        1 + number_run(s.drop_first())
    }
}

/// An exponent part closing a number: `e`, an optional sign, then at
/// least one digit, and nothing after it.
pub open spec fn is_exponent(s: Seq<char>) -> bool {
    s.len() >= 2 && s[0] == 'e' && {
        let d = if is_sign(s[1]) {
            s.skip(2)
        } else {
            s.skip(1)
        };
        d.len() > 0 && digit_run(d) == d.len()
    }
}

/// Text the decimal float grammar accepts: an optional sign, then either
/// digits with an optional fraction or a bare fraction with digits, then
/// an optional exponent.
pub open spec fn is_number_text(s: Seq<char>) -> bool {
    s.len() > 0 && {
        let b = if is_sign(s[0]) {
            s.skip(1)
        } else {
            s
        };
        let n = digit_run(b);
        if n == 0 {
            b.len() > 0 && b[0] == '.' && {
                let m = digit_run(b.skip(1));
                m > 0 && {
                    let r = b.skip(1 + m as int);
                    r.len() == 0 || is_exponent(r)
                }
            }
        } else {
            let after = b.skip(n as int);
            if after.len() > 0 && after[0] == '.' {
                let m = digit_run(after.skip(1));
                let r = after.skip(1 + m as int);
                r.len() == 0 || is_exponent(r)
            } else {
                after.len() == 0 || is_exponent(after)
            }
        }
    }
}

/// The value of one hexadecimal digit, or 16 for any other character.
pub open spec fn hex_val(c: char) -> nat {
    if is_digit(c) {
        ((c as u32) - ('0' as u32)) as nat
    } else if ('a' as u32) <= (c as u32) && (c as u32) <= ('f' as u32) {
        ((c as u32) - ('a' as u32) + 10) as nat
    } else if ('A' as u32) <= (c as u32) && (c as u32) <= ('F' as u32) {
        ((c as u32) - ('A' as u32) + 10) as nat
    } else {
        16
    }
}

pub open spec fn is_hex(c: char) -> bool {
    hex_val(c) < 16
}

/// The value of a hexadecimal digit sequence, read left to right.
pub open spec fn hex_seq_val(s: Seq<char>) -> nat
    decreases s.len(),
{
    if s.len() == 0 {
        0
    } else {
        hex_seq_val(s.drop_last()) * 16 + hex_val(s.last())
    }
}

pub open spec fn all_hex(s: Seq<char>) -> bool {
    forall|i: int| 0 <= i < s.len() ==> is_hex(#[trigger] s[i])
}

/// What parsing `s` as a base-16 byte yields: an optional leading plus
/// sign, then at least one hexadecimal digit, with a value of at most 255;
/// anything else fails.
pub open spec fn hex_parse_u8(s: Seq<char>) -> Option<nat> {
    let d = if s.len() > 0 && s[0] == '+' {
        s.skip(1)
    } else {
        s
    };
    if d.len() >= 1 && all_hex(d) && hex_seq_val(d) <= 255 {
        Some(hex_seq_val(d))
    } else {
        None
    }
}

/// One decoded escape character, or nothing for an escape the tokenizer
/// ignores. The unicode escape is handled separately.
pub open spec fn escape_piece(e: char) -> Seq<char> {
    if e == '\\' {
        seq!['\\']
    } else if e == '/' {
        seq!['/']
    } else if e == '"' {
        seq!['"']
    } else if e == 'n' {
        seq!['\n']
    } else if e == 't' {
        seq!['\t']
    } else if e == 'b' {
        seq!['\u{8}']
    } else if e == 'f' {
        seq!['\u{c}']
    } else if e == 'r' {
        seq!['\r']
    } else {
        Seq::empty()
    }
}

/// The ghost result of scanning a text scalar's content after its opening
/// quote: the decoded text, how many characters were consumed, and whether
/// the scan succeeded. The input ending before a closing quote still
/// succeeds with what was read; it fails only when the input ends right
/// after a backslash.
#[verifier::ext_equal]
pub struct StrScan {
    pub text: Seq<char>,
    pub used: nat,
    pub ok: bool,
}

pub open spec fn scan_string(s: Seq<char>) -> StrScan
    decreases s.len(),
{
    if s.len() == 0 {
        StrScan { text: Seq::empty(), used: 0, ok: true }
    } else if s[0] == '"' {
        StrScan { text: Seq::empty(), used: 1, ok: true }
    } else if s[0] == '\\' {
        if s.len() == 1 {
            StrScan { text: Seq::empty(), used: 1, ok: false }
        } else {
            let e = s[1];
            if e == 'u' {
                let k: int = if s.len() - 2 < 4 {
                    s.len() - 2
                } else {
                    4
                };
                let hx = s.subrange(2, 2 + k);
                let piece = match hex_parse_u8(hx) {
                    Some(v) => seq![((v as u8) as char)],
                    None => Seq::empty(),
                };
                let t = scan_string(s.skip(2 + k));
                StrScan { text: piece + t.text, used: 2 + k as nat + t.used, ok: t.ok }
            } else {
                let t = scan_string(s.skip(2));
                StrScan { text: escape_piece(e) + t.text, used: 2 + t.used, ok: t.ok }
            }
        }
    } else {
        let t = scan_string(s.skip(1));
        StrScan { text: seq![s[0]] + t.text, used: 1 + t.used, ok: t.ok }
    }
}

/// The ghost result of one pull on the tokenizer: the token produced, if
/// any, and how many characters were consumed. No token with characters
/// left means the input was cut short or a number failed the grammar.
#[verifier::ext_equal]
pub struct LexStep {
    pub tok: Option<TokenModel>,
    pub used: nat,
}

/// The tokenizer's whole behaviour on the remaining input: whitespace is
/// skipped; brackets, braces, colon and comma stand alone; `t`, `f` and
/// `n` take the literal's full width on trust; a quote opens a text
/// scalar; a sign or digit opens a number; anything else is an illegal
/// token carrying the offending character.
pub open spec fn spec_next(s: Seq<char>) -> LexStep
    decreases s.len(),
{
    if s.len() == 0 {
        LexStep { tok: None, used: 0 }
    } else {
        let c = s[0];
        if is_ws(c) {
            let t = spec_next(s.drop_first());
            LexStep { tok: t.tok, used: 1 + t.used }
        } else if c == '[' {
            LexStep { tok: Some(TokenModel::LBracket), used: 1 }
        } else if c == ']' {
            LexStep { tok: Some(TokenModel::RBracket), used: 1 }
        } else if c == '{' {
            LexStep { tok: Some(TokenModel::LBrace), used: 1 }
        } else if c == '}' {
            LexStep { tok: Some(TokenModel::RBrace), used: 1 }
        } else if c == ':' {
            LexStep { tok: Some(TokenModel::Colon), used: 1 }
        } else if c == ',' {
            LexStep { tok: Some(TokenModel::Comma), used: 1 }
        } else if c == 't' {
            LexStep {
                tok: Some(TokenModel::Value(ValueModel::True)),
                used: if s.len() < 4 {
                    s.len()
                } else {
                    4
                },
            }
        } else if c == 'f' {
            LexStep {
                tok: Some(TokenModel::Value(ValueModel::False)),
                used: if s.len() < 5 {
                    s.len()
                } else {
                    5
                },
            }
        } else if c == 'n' {
            LexStep {
                tok: Some(TokenModel::Value(ValueModel::Null)),
                used: if s.len() < 4 {
                    s.len()
                } else {
                    4
                },
            }
        } else if c == '"' {
            let sc = scan_string(s.drop_first());
            LexStep {
                tok: if sc.ok {
                    Some(TokenModel::Value(ValueModel::Text(sc.text)))
                } else {
                    None
                },
                used: 1 + sc.used,
            }
        } else if c == '-' || is_digit(c) {
            let n = number_run(s);
            LexStep {
                tok: if is_number_text(s.take(n as int)) {
                    Some(TokenModel::Value(ValueModel::Number(s.take(n as int))))
                } else {
                    None
                },
                used: n,
            }
        } else {
            LexStep { tok: Some(TokenModel::Illegal(seq![c])), used: 1 }
        }
    }
}

/// Relies on std's `String::push`: appends exactly the one character.
#[verifier::external_body]
pub(crate) fn push_char(s: &mut String, c: char)
    ensures
        final(s)@ == old(s)@.push(c),
{
    s.push(c);
}

/// Tokenizer over a fully buffered source text.
pub struct Lexer {
    chars: Vec<char>,
    pos: usize,
}

impl Lexer {
    /// The characters of the source text.
    pub closed spec fn text(&self) -> Seq<char> {
        self.chars@
    }

    /// How many characters have been consumed so far.
    pub closed spec fn at(&self) -> nat {
        self.pos as nat
    }

    pub closed spec fn wf(&self) -> bool {
        self.pos <= self.chars@.len()
    }

    pub fn new(input: &str) -> (r: Lexer)
        ensures
            r.text() == input@,
            r.at() == 0,
            r.wf(),
    {
        let n = input.unicode_len();
        let mut chars: Vec<char> = Vec::new();
        let mut i: usize = 0;
        while i < n
            invariant
                n == input@.len(),
                i <= n,
                chars@ == input@.take(i as int),
            decreases n - i,
        {
            chars.push(input.get_char(i));
            proof {
                assert(chars@ =~= input@.take(i + 1));
            }
            i = i + 1;
        }
        proof {
            assert(chars@ =~= input@);
        }
        Lexer { chars, pos: 0 }
    }

    /// Produces the next token, if the remaining input yields one, and
    /// consumes exactly the characters [`spec_next`] says.
    #[verifier::loop_isolation(false)]
    pub fn next(&mut self) -> (r: Option<Token>)
        requires
            old(self).wf(),
        ensures
            final(self).wf(),
            final(self).text() == old(self).text(),
            final(self).at() == old(self).at() + spec_next(
                old(self).text().skip(old(self).at() as int),
            ).used,
            match r {
                Some(t) => spec_next(old(self).text().skip(old(self).at() as int)).tok == Some(
                    t@,
                ),
                None => spec_next(old(self).text().skip(old(self).at() as int)).tok is None,
            },
    {
        loop
            invariant
                self.pos <= self.chars@.len(),
                self.chars@ == old(self).chars@,
                old(self).pos <= self.pos,
                spec_next(old(self).chars@.skip(old(self).pos as int)).tok == spec_next(
                    self.chars@.skip(self.pos as int),
                ).tok,
                spec_next(old(self).chars@.skip(old(self).pos as int)).used == (self.pos - old(
                    self,
                ).pos) + spec_next(self.chars@.skip(self.pos as int)).used,
            decreases self.chars@.len() - self.pos,
        {
            let ghost rem0 = self.chars@.skip(self.pos as int);
            let ghost pos0 = self.pos;
            if self.pos == self.chars.len() {
                proof {
                    assert(rem0 =~= Seq::<char>::empty());
                }
                return None;
            }
            let c = self.chars[self.pos];
            proof {
                assert(rem0[0] == c);
            }
            if c == ' ' || c == '\t' || c == '\n' {
                self.pos = self.pos + 1;
                proof {
                    assert(rem0.drop_first() =~= self.chars@.skip(self.pos as int));
                }
            } else if c == '[' {
                self.pos = self.pos + 1;
                return Some(Token::LBracket);
            } else if c == ']' {
                self.pos = self.pos + 1;
                return Some(Token::RBracket);
            } else if c == '{' {
                self.pos = self.pos + 1;
                return Some(Token::LBrace);
            } else if c == '}' {
                self.pos = self.pos + 1;
                return Some(Token::RBrace);
            } else if c == ':' {
                self.pos = self.pos + 1;
                return Some(Token::Colon);
            } else if c == ',' {
                self.pos = self.pos + 1;
                return Some(Token::Comma);
            } else if c == 't' {
                let rem = self.chars.len() - self.pos;
                let step = if rem < 4 {
                    rem
                } else {
                    4
                };
                self.pos = self.pos + step;
                return Some(Token::Value(Value::True));
            } else if c == 'f' {
                let rem = self.chars.len() - self.pos;
                let step = if rem < 5 {
                    rem
                } else {
                    5
                };
                self.pos = self.pos + step;
                return Some(Token::Value(Value::False));
            } else if c == 'n' {
                let rem = self.chars.len() - self.pos;
                let step = if rem < 4 {
                    rem
                } else {
                    4
                };
                self.pos = self.pos + step;
                return Some(Token::Value(Value::Null));
            } else if c == '"' {
                let scanned = eat_string(&self.chars, self.pos + 1);
                proof {
                    assert(rem0.drop_first() =~= self.chars@.skip(pos0 + 1));
                }
                self.pos = scanned.1;
                match scanned.0 {
                    Some(text) => {
                        return Some(Token::Value(Value::Text(text)));
                    },
                    None => {
                        return None;
                    },
                }
            } else if c == '-' || (('0' as u32) <= (c as u32) && (c as u32) <= ('9' as u32)) {
                let scanned = eat_number(&self.chars, self.pos);
                self.pos = scanned.1;
                match scanned.0 {
                    Some(text) => {
                        return Some(Token::Value(Value::Number(text)));
                    },
                    None => {
                        return None;
                    },
                }
            } else {
                let mut s = String::new();
                push_char(&mut s, c);
                self.pos = self.pos + 1;
                proof {
                    assert(s@ =~= seq![c]);
                }
                return Some(Token::Illegal(s));
            }
        }
    }
}

/// Scans a text scalar's content from `start`, just past the opening
/// quote: the decoded text and the position after the scan, exactly as
/// [`scan_string`] says. Nothing comes back only when the input ends right
/// after a backslash.
#[verifier::loop_isolation(false)]
pub fn eat_string(chars: &Vec<char>, start: usize) -> (r: (Option<String>, usize))
    requires
        start <= chars@.len(),
    ensures
        start <= r.1 <= chars@.len(),
        r.1 == start + scan_string(chars@.skip(start as int)).used,
        match r.0 {
            Some(text) => scan_string(chars@.skip(start as int)).ok && text@ == scan_string(
                chars@.skip(start as int),
            ).text,
            None => !scan_string(chars@.skip(start as int)).ok,
        },
{
    let mut text = String::new();
    let mut i = start;
    loop
        invariant
            start <= i <= chars@.len(),
            scan_string(chars@.skip(start as int)).ok == scan_string(
                chars@.skip(i as int),
            ).ok,
            scan_string(chars@.skip(start as int)).text == text@ + scan_string(
                chars@.skip(i as int),
            ).text,
            scan_string(chars@.skip(start as int)).used == (i - start) + scan_string(
                chars@.skip(i as int),
            ).used,
        decreases chars@.len() - i,
    {
        let ghost rem = chars@.skip(i as int);
        let ghost t0 = text@;
        if i == chars.len() {
            proof {
                assert(rem =~= Seq::<char>::empty());
                assert(t0 + scan_string(rem).text =~= t0);
            }
            return (Some(text), i);
        }
        let c = chars[i];
        proof {
            assert(rem[0] == c);
        }
        if c == '"' {
            proof {
                assert(t0 + scan_string(rem).text =~= t0);
            }
            return (Some(text), i + 1);
        } else if c == '\\' {
            if i + 1 == chars.len() {
                proof {
                    assert(rem.len() == 1);
                }
                return (None, i + 1);
            }
            let e = chars[i + 1];
            proof {
                assert(rem[1] == e);
            }
            if e == 'u' {
                let avail = chars.len() - (i + 2);
                let k = if avail < 4 {
                    avail
                } else {
                    4
                };
                proof {
                    assert(chars@.skip(i as int).subrange(2, 2 + k) =~= chars@.subrange(
                        i + 2,
                        i + 2 + k,
                    ));
                }
                let parsed = parse_hex_u8(chars, i + 2, k);
                match parsed {
                    Some(v) => {
                        push_char(&mut text, v as char);
                    },
                    None => {},
                }
                i = i + 2 + k;
                proof {
                    assert(rem.skip(2 + k) =~= chars@.skip(i as int));
                    assert(text@ + scan_string(chars@.skip(i as int)).text =~= t0 + scan_string(
                        rem,
                    ).text);
                }
            } else {
                if e == '\\' {
                    push_char(&mut text, '\\');
                } else if e == '/' {
                    push_char(&mut text, '/');
                } else if e == '"' {
                    push_char(&mut text, '"');
                } else if e == 'n' {
                    push_char(&mut text, '\n');
                } else if e == 't' {
                    push_char(&mut text, '\t');
                } else if e == 'b' {
                    push_char(&mut text, '\u{8}');
                } else if e == 'f' {
                    push_char(&mut text, '\u{c}');
                } else if e == 'r' {
                    push_char(&mut text, '\r');
                }
                i = i + 2;
                proof {
                    assert(rem.skip(2) =~= chars@.skip(i as int));
                    assert(text@ =~= t0 + escape_piece(e));
                    assert(text@ + scan_string(chars@.skip(i as int)).text =~= t0 + scan_string(
                        rem,
                    ).text);
                }
            }
        } else {
            push_char(&mut text, c);
            i = i + 1;
            proof {
                assert(rem.skip(1) =~= chars@.skip(i as int));
                assert(rem.drop_first() == rem.skip(1));
                assert(text@ + scan_string(chars@.skip(i as int)).text =~= t0 + scan_string(
                    rem,
                ).text);
            }
        }
    }
}

pub open spec fn pow16(n: nat) -> nat
    decreases n,
{
    if n == 0 {
        1
    } else {
        16 * pow16((n - 1) as nat)
    }
}

/// Parses the `k` characters at `lo` as a base-16 byte, exactly as
/// [`hex_parse_u8`] says.
#[verifier::loop_isolation(false)]
fn parse_hex_u8(chars: &Vec<char>, lo: usize, k: usize) -> (r: Option<u8>)
    requires
        lo + k <= chars@.len(),
        k <= 4,
    ensures
        match r {
            Some(v) => hex_parse_u8(chars@.subrange(lo as int, lo + k)) == Some(v as nat),
            None => hex_parse_u8(chars@.subrange(lo as int, lo + k)) is None,
        },
{
    proof {
        assert(chars.len() == chars@.len());
    }
    let ghost hx = chars@.subrange(lo as int, lo + k);
    let mut j = lo;
    if k > 0 {
        let c0 = chars[lo];
        if c0 == '+' {
            j = lo + 1;
        }
    }
    let ghost d = chars@.subrange(j as int, lo + k);
    proof {
        if j == lo {
            assert(d =~= hx);
        } else {
            assert(d =~= hx.skip(1));
        }
    }
    if j == lo + k {
        proof {
            assert(d.len() == 0);
        }
        return None;
    }
    let mut val: u32 = 0;
    let mut m = j;
    loop
        invariant
            j <= m <= lo + k,
            val == hex_seq_val(chars@.subrange(j as int, m as int)),
            val < pow16((m - j) as nat),
            all_hex(chars@.subrange(j as int, m as int)),
        decreases lo + k - m,
    {
        if m == lo + k {
            proof {
                assert(chars@.subrange(j as int, m as int) =~= d);
                assert(pow16((m - j) as nat) <= pow16(4)) by {
                    if m - j < 4 {
                        assert(pow16(0) == 1 && pow16(1) == 16 && pow16(2) == 256 && pow16(3)
                            == 4096 && pow16(4) == 65536);
                    }
                };
            }
            if val > 255 {
                return None;
            }
            return Some(val as u8);
        }
        let c = chars[m];
        let cv = c as u32;
        let dv: u32;
        if cv >= ('0' as u32) && cv <= ('9' as u32) {
            dv = cv - ('0' as u32);
        } else if cv >= ('a' as u32) && cv <= ('f' as u32) {
            dv = cv - ('a' as u32) + 10;
        } else if cv >= ('A' as u32) && cv <= ('F' as u32) {
            dv = cv - ('A' as u32) + 10;
        } else {
            proof {
                assert(d[m - j] == c);
                assert(!is_hex(c));
                assert(!all_hex(d));
            }
            return None;
        }
        proof {
            assert(dv == hex_val(c));
            assert(pow16(((m + 1) - j) as nat) == 16 * pow16((m - j) as nat));
            assert(pow16((m - j) as nat) <= pow16(3)) by {
                assert(pow16(0) == 1 && pow16(1) == 16 && pow16(2) == 256 && pow16(3) == 4096);
            };
        }
        val = val * 16 + dv;
        m = m + 1;
        proof {
            assert(chars@.subrange(j as int, m as int).drop_last() =~= chars@.subrange(
                j as int,
                m - 1,
            ));
            assert(chars@.subrange(j as int, m as int).last() == c);
            assert(all_hex(chars@.subrange(j as int, m as int)));
        }
    }
}

/// Counts the decimal digits standing at `from`, exactly as [`digit_run`]
/// says.
#[verifier::loop_isolation(false)]
fn digit_run_from(chars: &Vec<char>, from: usize) -> (m: usize)
    requires
        from <= chars@.len(),
    ensures
        from + m <= chars@.len(),
        m as nat == digit_run(chars@.skip(from as int)),
{
    let mut i = from;
    loop
        invariant
            from <= i <= chars@.len(),
            digit_run(chars@.skip(from as int)) == (i - from) + digit_run(
                chars@.skip(i as int),
            ),
        decreases chars@.len() - i,
    {
        let ghost rem = chars@.skip(i as int);
        if i == chars.len() {
            proof {
                assert(rem =~= Seq::<char>::empty());
            }
            return i - from;
        }
        let c = chars[i];
        proof {
            assert(rem[0] == c);
        }
        if (c as u32) >= ('0' as u32) && (c as u32) <= ('9' as u32) {
            i = i + 1;
            proof {
                assert(rem.drop_first() =~= chars@.skip(i as int));
            }
        } else {
            return i - from;
        }
    }
}

/// Decides whether the digits at `from` reach the end of the input after
/// a well-formed exponent, exactly as [`is_exponent`] says of the
/// remaining characters.
fn check_exponent(chars: &Vec<char>, from: usize) -> (b: bool)
    requires
        from <= chars@.len(),
    ensures
        b == is_exponent(chars@.skip(from as int)),
{
    let ghost s = chars@.skip(from as int);
    let len = chars.len();
    if len - from < 2 {
        return false;
    }
    if chars[from] != 'e' {
        proof {
            assert(s[0] == chars@[from as int]);
        }
        return false;
    }
    let c1 = chars[from + 1];
    proof {
        assert(s[1] == c1);
    }
    let mut q = from + 1;
    if c1 == '-' || c1 == '+' {
        q = from + 2;
    }
    let m = digit_run_from(chars, q);
    proof {
        if is_sign(c1) {
            assert(s.skip(2) =~= chars@.skip(q as int));
        } else {
            assert(s.skip(1) =~= chars@.skip(q as int));
        }
    }
    m > 0 && q + m == len
}

/// Decides whether the whole character sequence is text the decimal float
/// grammar accepts, exactly as [`is_number_text`] says.
fn check_number(chars: &Vec<char>) -> (b: bool)
    ensures
        b == is_number_text(chars@),
{
    let len = chars.len();
    if len == 0 {
        return false;
    }
    let c0 = chars[0];
    let p: usize = if c0 == '-' || c0 == '+' {
        1
    } else {
        0
    };
    let ghost bseq = chars@.skip(p as int);
    proof {
        if p == 0 {
            assert(bseq =~= chars@);
        }
    }
    let n = digit_run_from(chars, p);
    if n == 0 {
        if p >= len {
            return false;
        }
        if chars[p] != '.' {
            proof {
                assert(bseq[0] == chars@[p as int]);
            }
            return false;
        }
        proof {
            assert(bseq[0] == chars@[p as int]);
            assert(bseq.skip(1) =~= chars@.skip(p + 1));
        }
        let m = digit_run_from(chars, p + 1);
        if m == 0 {
            return false;
        }
        let q = p + 1 + m;
        proof {
            assert(bseq.skip(1 + m as int) =~= chars@.skip(q as int));
        }
        if q == len {
            proof {
                assert(chars@.skip(q as int).len() == 0);
            }
            return true;
        }
        return check_exponent(chars, q);
    } else {
        let q0 = p + n;
        proof {
            assert(bseq.skip(n as int) =~= chars@.skip(q0 as int));
        }
        if q0 < len && chars[q0] == '.' {
            proof {
                assert(chars@.skip(q0 as int)[0] == chars@[q0 as int]);
                assert(chars@.skip(q0 as int).skip(1) =~= chars@.skip(q0 + 1));
            }
            let m = digit_run_from(chars, q0 + 1);
            let q = q0 + 1 + m;
            proof {
                assert(chars@.skip(q0 as int).skip(1 + m as int) =~= chars@.skip(q as int));
            }
            if q == len {
                return true;
            }
            return check_exponent(chars, q);
        } else {
            proof {
                if q0 < len {
                    assert(chars@.skip(q0 as int)[0] == chars@[q0 as int]);
                }
            }
            if q0 == len {
                return true;
            }
            return check_exponent(chars, q0);
        }
    }
}

/// Scans the number token standing at `start`: its source text when the
/// decimal float grammar accepts it, nothing otherwise, and in either case
/// the position after the token's characters.
#[verifier::loop_isolation(false)]
pub fn eat_number(chars: &Vec<char>, start: usize) -> (r: (Option<String>, usize))
    requires
        start <= chars@.len(),
    ensures
        start <= r.1 <= chars@.len(),
        r.1 == start + number_run(chars@.skip(start as int)),
        match r.0 {
            Some(text) => is_number_text(
                chars@.skip(start as int).take(number_run(chars@.skip(start as int)) as int),
            ) && text@ == chars@.skip(start as int).take(
                number_run(chars@.skip(start as int)) as int,
            ),
            None => !is_number_text(
                chars@.skip(start as int).take(number_run(chars@.skip(start as int)) as int),
            ),
        },
{
    let mut text = String::new();
    let mut collected: Vec<char> = Vec::new();
    let mut i = start;
    loop
        invariant
            start <= i <= chars@.len(),
            number_run(chars@.skip(start as int)) == (i - start) + number_run(
                chars@.skip(i as int),
            ),
            collected@ == chars@.subrange(start as int, i as int),
            text@ == collected@,
        decreases chars@.len() - i,
    {
        let ghost rem = chars@.skip(i as int);
        if i == chars.len() {
            proof {
                assert(rem =~= Seq::<char>::empty());
            }
            break;
        }
        let c = chars[i];
        proof {
            assert(rem[0] == c);
        }
        let cv = c as u32;
        let is_num = (cv >= ('0' as u32) && cv <= ('9' as u32)) || c == '.' || c == 'e' || c
            == '-' || c == '+';
        if !is_num {
            break;
        }
        push_char(&mut text, c);
        collected.push(c);
        i = i + 1;
        proof {
            assert(rem.drop_first() =~= chars@.skip(i as int));
            assert(collected@ =~= chars@.subrange(start as int, i as int));
        }
    }
    proof {
        assert(number_run(chars@.skip(i as int)) == 0);
        assert(collected@ =~= chars@.skip(start as int).take(
            number_run(chars@.skip(start as int)) as int,
        ));
    }
    if check_number(&collected) {
        (Some(text), i)
    } else {
        (None, i)
    }
}

} // verus!
