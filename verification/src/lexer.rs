use vstd::prelude::*;

verus! {

/// A lexical token: a single decimal digit, an identifier, or one of the
/// fixed symbol characters.
#[derive(Debug, PartialEq)]
pub enum Token {
    Identifier(Vec<char>),
    Number(u64),
    Symbol(char),
}

/// The mathematical shape of a token, used by the specification functions.
pub enum TokenModel {
    Identifier(Seq<char>),
    Number(u64),
    Symbol(char),
}

impl View for Token {
    type V = TokenModel;

    open spec fn view(&self) -> TokenModel {
        match self {
            Token::Identifier(s) => TokenModel::Identifier(s@),
            Token::Number(n) => TokenModel::Number(*n),
            Token::Symbol(c) => TokenModel::Symbol(*c),
        }
    }
}

/// The token models of a token sequence.
pub open spec fn toks(ts: Seq<Token>) -> Seq<TokenModel> {
    ts.map_values(|t: Token| t@)
}

pub broadcast proof fn lemma_toks_push(ts: Seq<Token>, t: Token)
    ensures
        #[trigger] toks(ts.push(t)) == toks(ts).push(t@),
{
    assert(toks(ts.push(t)) =~= toks(ts).push(t@));
}

impl Token {
    /// True exactly for the four arithmetic operator symbols.
    #[allow(dead_code)]
    pub(crate) fn is_term_symbol(&self) -> (r: bool)
        ensures
            r == (self@ is Symbol && (self@->Symbol_0 == '+' || self@->Symbol_0 == '-'
                || self@->Symbol_0 == '*' || self@->Symbol_0 == '/')),
    {
        match self {
            Token::Symbol(s) => *s == '+' || *s == '-' || *s == '*' || *s == '/',
            _ => false,
        }
    }
}

/// The characters lexed as stand-alone symbol tokens.
pub open spec fn is_symbol_char(c: char) -> bool {
    c == '+' || c == '-' || c == '*' || c == '/' || c == '(' || c == ')' || c == '^' || c == '='
        || c == '|'
}

/// Whitespace characters, which the lexer skips: the White_Space code
/// points.
pub open spec fn is_space_char(c: char) -> bool {
    ('\u{9}' <= c && c <= '\u{d}') || c == ' ' || c == '\u{85}' || c == '\u{a0}' || c
        == '\u{1680}' || ('\u{2000}' <= c && c <= '\u{200a}') || c == '\u{2028}' || c == '\u{2029}'
        || c == '\u{202f}' || c == '\u{205f}' || c == '\u{3000}'
}

/// Decimal digit characters.
pub open spec fn is_digit_char(c: char) -> bool {
    '0' as u32 <= c as u32 <= '9' as u32
}

/// The numeric value of a digit character.
pub open spec fn digit_val(c: char) -> u64
    recommends
        is_digit_char(c),
{
    (c as u32 - '0' as u32) as u64
}

/// The keyword strings the lexer recognizes. A pending identifier equal to a
/// keyword is flushed before the next non-symbol character is read.
pub open spec fn is_keyword(s: Seq<char>) -> bool {
    s == seq!['a', 'b', 's'] || s == seq!['s', 'q', 'r', 't'] || s == seq!['p', 'o', 'w'] || s
        == seq!['p', 'i'] || s == seq!['e']
}

/// The tokens flushed for a pending identifier: one identifier token when the
/// pending text is non-empty, nothing otherwise.
pub open spec fn flush(pending: Seq<char>) -> Seq<TokenModel> {
    if pending.len() > 0 {
        seq![TokenModel::Identifier(pending)]
    } else {
        Seq::<TokenModel>::empty()
    }
}

/// The token sequence lexed from `s`, given the identifier text already
/// pending. Whitespace is skipped and does not flush the pending identifier;
/// a symbol or digit flushes it and becomes its own token; a pending keyword
/// is flushed before any other character is appended to it.
pub open spec fn spec_lex(s: Seq<char>, pending: Seq<char>) -> Seq<TokenModel>
    decreases s.len(),
{
    if s.len() == 0 {
        flush(pending)
    } else {
        let c = s[0];
        let rest = s.drop_first();
        if is_space_char(c) {
            spec_lex(rest, pending)
        } else if is_symbol_char(c) {
            flush(pending) + seq![TokenModel::Symbol(c)] + spec_lex(rest, Seq::<char>::empty())
        } else if is_keyword(pending) {
            flush(pending) + spec_lex(rest, seq![c])
        } else if is_digit_char(c) {
            flush(pending) + seq![TokenModel::Number(digit_val(c))] + spec_lex(
                rest,
                Seq::<char>::empty(),
            )
        } else {
            spec_lex(rest, pending.push(c))
        }
    }
}

fn is_space(c: char) -> (r: bool)
    ensures
        r == is_space_char(c),
{
    ('\u{9}' <= c && c <= '\u{d}') || c == ' ' || c == '\u{85}' || c == '\u{a0}' || c
        == '\u{1680}' || ('\u{2000}' <= c && c <= '\u{200a}') || c == '\u{2028}' || c == '\u{2029}'
        || c == '\u{202f}' || c == '\u{205f}' || c == '\u{3000}'
}

fn is_symbol(c: char) -> (r: bool)
    ensures
        r == is_symbol_char(c),
{
    c == '+' || c == '-' || c == '*' || c == '/' || c == '(' || c == ')' || c == '^' || c == '='
        || c == '|'
}

fn is_digit(c: char) -> (r: bool)
    ensures
        r == is_digit_char(c),
{
    (c as u32) >= ('0' as u32) && (c as u32) <= ('9' as u32)
}

fn is_keyword_vec(v: &Vec<char>) -> (r: bool)
    ensures
        r == is_keyword(v@),
{
    let r_abs = v.len() == 3 && v[0] == 'a' && v[1] == 'b' && v[2] == 's';
    let r_sqrt = v.len() == 4 && v[0] == 's' && v[1] == 'q' && v[2] == 'r' && v[3] == 't';
    let r_pow = v.len() == 3 && v[0] == 'p' && v[1] == 'o' && v[2] == 'w';
    let r_pi = v.len() == 2 && v[0] == 'p' && v[1] == 'i';
    let r_e = v.len() == 1 && v[0] == 'e';
    proof {
        if r_abs {
            assert(v@ =~= seq!['a', 'b', 's']);
        }
        if r_sqrt {
            assert(v@ =~= seq!['s', 'q', 'r', 't']);
        }
        if r_pow {
            assert(v@ =~= seq!['p', 'o', 'w']);
        }
        if r_pi {
            assert(v@ =~= seq!['p', 'i']);
        }
        if r_e {
            assert(v@ =~= seq!['e']);
        }
    }
    r_abs || r_sqrt || r_pow || r_pi || r_e
}

/// Turns an input string into tokens. It keeps the last input it was given.
pub struct Lexer {
    pub input: String,
}

impl Lexer {
    pub fn new() -> (l: Lexer)
        ensures
            l.input@ == Seq::<char>::empty(),
    {
        Lexer { input: String::new() }
    }

    /// Lexes `arg` into tokens. Lexing never fails.
    pub fn lex(&mut self, arg: &str) -> (res: Result<
        Vec<Token>,
        crate::errors::InterpreterError,
    >)
        ensures
            final(self).input@ == arg@,
            res is Ok,
            toks(res->Ok_0@) == spec_lex(arg@, Seq::<char>::empty()),
    {
        broadcast use lemma_toks_push;

        self.input = arg.to_owned();
        let n = arg.unicode_len();
        let mut tokens: Vec<Token> = Vec::new();
        let mut pending: Vec<char> = Vec::new();
        let mut i: usize = 0;
        proof {
            assert(arg@.skip(0) =~= arg@);
            assert(spec_lex(arg@, Seq::<char>::empty()) =~= toks(tokens@) + spec_lex(
                arg@.skip(0),
                pending@,
            ));
        }
        while i < n
            invariant
                i <= n,
                n == arg@.len(),
                spec_lex(arg@, Seq::<char>::empty()) == toks(tokens@) + spec_lex(
                    arg@.skip(i as int),
                    pending@,
                ),
            decreases n - i,
        {
            broadcast use lemma_toks_push;

            let ghost suffix = arg@.skip(i as int);
            let ghost toks0 = toks(tokens@);
            let ghost p0 = pending@;
            let c = arg.get_char(i);
            proof {
                assert(suffix[0] == c);
                assert(suffix.drop_first() =~= arg@.skip(i + 1));
            }
            if is_space(c) {
                proof {
                    assert(spec_lex(suffix, p0) == spec_lex(arg@.skip(i + 1), p0));
                }
            } else if is_symbol(c) {
                if pending.len() > 0 {
                    tokens.push(Token::Identifier(pending));
                    pending = Vec::new();
                }
                tokens.push(Token::Symbol(c));
                proof {
                    assert(pending@ =~= Seq::<char>::empty());
                    assert(toks(tokens@) =~= toks0 + flush(p0) + seq![TokenModel::Symbol(c)]);
                    assert(spec_lex(suffix, p0) == flush(p0) + seq![TokenModel::Symbol(c)]
                        + spec_lex(arg@.skip(i + 1), Seq::<char>::empty()));
                    assert(toks(tokens@) + spec_lex(arg@.skip(i + 1), pending@) =~= toks0
                        + spec_lex(suffix, p0));
                }
            } else if is_keyword_vec(&pending) {
                tokens.push(Token::Identifier(pending));
                pending = Vec::new();
                pending.push(c);
                proof {
                    assert(toks(tokens@) =~= toks0 + flush(p0));
                    assert(pending@ =~= seq![c]);
                    assert(spec_lex(suffix, p0) == flush(p0) + spec_lex(arg@.skip(i + 1), seq![c]));
                    assert(toks(tokens@) + spec_lex(arg@.skip(i + 1), pending@) =~= toks0
                        + spec_lex(suffix, p0));
                }
            } else if is_digit(c) {
                if pending.len() > 0 {
                    tokens.push(Token::Identifier(pending));
                    pending = Vec::new();
                }
                let v: u64 = ((c as u32) - ('0' as u32)) as u64;
                tokens.push(Token::Number(v));
                proof {
                    assert(pending@ =~= Seq::<char>::empty());
                    assert(v == digit_val(c));
                    assert(toks(tokens@) =~= toks0 + flush(p0) + seq![TokenModel::Number(v)]);
                    assert(spec_lex(suffix, p0) == flush(p0) + seq![TokenModel::Number(
                        digit_val(c),
                    )] + spec_lex(arg@.skip(i + 1), Seq::<char>::empty()));
                    assert(toks(tokens@) + spec_lex(arg@.skip(i + 1), pending@) =~= toks0
                        + spec_lex(suffix, p0));
                }
            } else {
                pending.push(c);
                proof {
                    assert(pending@ =~= p0.push(c));
                    assert(spec_lex(suffix, p0) == spec_lex(arg@.skip(i + 1), p0.push(c)));
                }
            }
            i = i + 1;
        }
        proof {
            assert(arg@.skip(n as int) =~= Seq::<char>::empty());
            assert(spec_lex(arg@.skip(n as int), pending@) == flush(pending@));
        }
        if pending.len() > 0 {
            tokens.push(Token::Identifier(pending));
            proof {
                assert(spec_lex(arg@, Seq::<char>::empty()) =~= toks(tokens@));
            }
        } else {
            proof {
                assert(spec_lex(arg@, Seq::<char>::empty()) =~= toks(tokens@));
            }
        }
        Ok(tokens)
    }
}

} // verus!
