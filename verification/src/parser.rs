use vstd::prelude::*;

use crate::errors::InterpreterError;
use crate::lexer::Token;
use crate::lexer::TokenModel;
use crate::lexer::toks;

verus! {

/// An abstract syntax tree node. A parsed input is an `Expression` holding
/// `Term` nodes; each term holds a `Number` coefficient and a list of
/// `Variable` nodes whose exponents are `Number` nodes.
#[derive(Debug, PartialEq)]
pub enum ASTNode {
    Number(i64),
    Variable(char, Box<ASTNode>),
    Term(Box<ASTNode>, Vec<ASTNode>),
    Expression(Vec<ASTNode>),
}

/// The mathematical shape of one additive term: a coefficient and the
/// (name, exponent) pair of each variable, in parse order.
pub struct TermModel {
    pub coeff: i64,
    pub vars: Seq<(char, i64)>,
}

/// The numeric value of a node used as a coefficient or exponent; any
/// non-`Number` node counts as zero.
pub open spec fn num_val(n: ASTNode) -> i64 {
    match n {
        ASTNode::Number(v) => v,
        _ => 0,
    }
}

/// The (name, exponent) pair a node contributes to a monomial signature.
/// A non-`Variable` node in a term's variable list contributes a blank
/// placeholder name with exponent one.
pub open spec fn var_pair(n: ASTNode) -> (char, i64) {
    match n {
        ASTNode::Variable(name, e) => (name, num_val(*e)),
        _ => (' ', 1),
    }
}

/// The (name, exponent) pairs of a term's variable node list.
pub open spec fn var_pairs(vs: Seq<ASTNode>) -> Seq<(char, i64)> {
    vs.map_values(|v: ASTNode| var_pair(v))
}

pub broadcast proof fn lemma_var_pairs_push(vs: Seq<ASTNode>, n: ASTNode)
    ensures
        #[trigger] var_pairs(vs.push(n)) == var_pairs(vs).push(var_pair(n)),
{
    assert(var_pairs(vs.push(n)) =~= var_pairs(vs).push(var_pair(n)));
}

/// The model of a `Term` node.
pub open spec fn term_model(n: ASTNode) -> TermModel
    recommends
        n is Term,
{
    TermModel {
        coeff: num_val(*n->Term_0),
        vars: var_pairs(n->Term_1@),
    }
}

/// The models of the `Term` nodes of a node list, in order; other nodes are
/// passed over.
pub open spec fn term_models(ns: Seq<ASTNode>) -> Seq<TermModel>
    decreases ns.len(),
{
    if ns.len() == 0 {
        Seq::<TermModel>::empty()
    } else {
        term_models(ns.drop_last()) + (if ns.last() is Term {
            seq![term_model(ns.last())]
        } else {
            Seq::<TermModel>::empty()
        })
    }
}

pub broadcast proof fn lemma_term_models_push(ns: Seq<ASTNode>, n: ASTNode)
    ensures
        #[trigger] term_models(ns.push(n)) == term_models(ns) + (if n is Term {
            seq![term_model(n)]
        } else {
            Seq::<TermModel>::empty()
        }),
{
    assert(ns.push(n).drop_last() =~= ns);
    assert(ns.push(n).last() == n);
}

/// The largest accumulator a numeral parse may still extend with one more
/// digit (one tenth of the largest supported value); at or past it the parse
/// fails rather than overflow.
pub const NUMERAL_LIMIT: i64 = 922337203685477580;

/// Folds a maximal run of leading sign symbols into one sign (true meaning
/// positive) by parity of the minus count, returning the remaining tokens.
pub open spec fn spec_get_sign(ts: Seq<TokenModel>) -> (bool, Seq<TokenModel>)
    decreases ts.len(),
{
    if ts.len() > 0 && ts[0] is Symbol && (ts[0]->Symbol_0 == '+' || ts[0]->Symbol_0 == '-') {
        let (s, r) = spec_get_sign(ts.drop_first());
        if ts[0]->Symbol_0 == '-' {
            (!s, r)
        } else {
            (s, r)
        }
    } else {
        (true, ts)
    }
}

/// Consumes a maximal run of digit tokens, accumulating their decimal value
/// onto `acc`. Fails (None) when the accumulator has reached
/// `NUMERAL_LIMIT` and a digit follows, or when a number token does not hold
/// a single decimal digit.
pub open spec fn spec_digits(ts: Seq<TokenModel>, acc: i64) -> Option<(i64, Seq<TokenModel>)>
    recommends
        0 <= acc,
    decreases ts.len(),
{
    if ts.len() > 0 && ts[0] is Number {
        let n = ts[0]->Number_0;
        if acc >= NUMERAL_LIMIT || n > 9 {
            None::<(i64, Seq<TokenModel>)>
        } else {
            spec_digits(ts.drop_first(), (10 * acc + n) as i64)
        }
    } else {
        Some((acc, ts))
    }
}

/// Parses a signed constant: a sign run followed by a digit run. The third
/// component says whether any digit token was consumed.
pub open spec fn spec_constant(ts: Seq<TokenModel>) -> Option<(i64, Seq<TokenModel>, bool)> {
    let (sign, ts1) = spec_get_sign(ts);
    match spec_digits(ts1, 0) {
        None => None::<(i64, Seq<TokenModel>, bool)>,
        Some((mag, ts2)) => Some(
            ((if sign {
                mag
            } else {
                (-mag) as i64
            }), ts2, ts2.len() != ts1.len()),
        ),
    }
}

/// Parses an exponent if a caret follows, and otherwise yields one.
pub open spec fn spec_exponent(ts: Seq<TokenModel>) -> Option<(i64, Seq<TokenModel>)> {
    if ts.len() > 0 && ts[0] is Symbol && ts[0]->Symbol_0 == '^' {
        match spec_constant(ts.drop_first()) {
            None => None::<(i64, Seq<TokenModel>)>,
            Some((e, rest, _gd)) => Some((e, rest)),
        }
    } else {
        Some((1, ts))
    }
}

/// Parses an optional variable group from one identifier token. Every
/// character but the last becomes a variable with exponent one; the last
/// carries the optional caret exponent. An empty identifier contributes no
/// variable.
pub open spec fn spec_variables(ts: Seq<TokenModel>) -> Option<
    (Seq<(char, i64)>, Seq<TokenModel>),
> {
    if ts.len() > 0 && ts[0] is Identifier {
        let name = ts[0]->Identifier_0;
        let rest = ts.drop_first();
        match spec_exponent(rest) {
            None => None::<(Seq<(char, i64)>, Seq<TokenModel>)>,
            Some((e, rest2)) => {
                if name.len() == 0 {
                    Some((Seq::<(char, i64)>::empty(), rest2))
                } else {
                    Some(
                        (name.take(name.len() - 1).map_values(|ch: char| (ch, 1i64)).push(
                            (name.last(), e),
                        ), rest2),
                    )
                }
            },
        }
    } else {
        Some((Seq::<(char, i64)>::empty(), ts))
    }
}

/// Parses one additive term: sign run, digit run, optional variable group,
/// and one trailing plus separator. Fails (None) on numeral overflow or when
/// the next token cannot begin a term. A term with variables, a zero
/// constant value and no sign or digit tokens gets the implicit coefficient
/// one; a run of only signs yields a zero constant term.
pub open spec fn spec_term(ts: Seq<TokenModel>) -> Option<(TermModel, Seq<TokenModel>)> {
    match spec_constant(ts) {
        None => None::<(TermModel, Seq<TokenModel>)>,
        Some((value, ts1, _got_digits)) => match spec_variables(ts1) {
            None => None::<(TermModel, Seq<TokenModel>)>,
            Some((vars, ts2)) => {
                let ts3 = if ts2.len() > 0 && ts2[0] is Symbol && ts2[0]->Symbol_0 == '+' {
                    ts2.drop_first()
                } else {
                    ts2
                };
                if ts3.len() == ts.len() {
                    None::<(TermModel, Seq<TokenModel>)>
                } else {
                    let coeff: i64 = if vars.len() > 0 && value == 0 && ts1.len() == ts.len() {
                        1
                    } else {
                        value
                    };
                    Some((TermModel { coeff, vars }, ts3))
                }
            },
        },
    }
}

/// Parses a whole token sequence into the models of its terms, or fails.
pub open spec fn spec_parse_terms(ts: Seq<TokenModel>) -> Option<Seq<TermModel>>
    decreases ts.len(),
{
    if ts.len() == 0 {
        Some(Seq::<TermModel>::empty())
    } else {
        match spec_term(ts) {
            None => None::<Seq<TermModel>>,
            Some((t, rest)) => {
                if rest.len() < ts.len() {
                    match spec_parse_terms(rest) {
                        None => None::<Seq<TermModel>>,
                        Some(more) => Some(seq![t] + more),
                    }
                } else {
                    None::<Seq<TermModel>>
                }
            },
        }
    }
}

/// A variable node as the parser builds it: a `Variable` whose exponent is
/// resolved to a `Number` literal.
pub open spec fn well_formed_var(n: ASTNode) -> bool {
    n is Variable && *n->Variable_1 is Number
}

/// A term node as the parser builds it: a `Term` whose coefficient is a
/// `Number` literal and whose variable list holds only well-formed
/// `Variable` nodes.
pub open spec fn well_formed_term(n: ASTNode) -> bool {
    &&& n is Term
    &&& *n->Term_0 is Number
    &&& forall|k: int| 0 <= k < n->Term_1@.len() ==> well_formed_var(#[trigger] n->Term_1@[k])
}

/// True when every node of the list is a `Term`.
pub open spec fn all_terms(ns: Seq<ASTNode>) -> bool {
    forall|k: int| 0 <= k < ns.len() ==> ns[k] is Term
}

/// True when every node of the list is a well-formed `Term`.
pub open spec fn all_well_formed_terms(ns: Seq<ASTNode>) -> bool {
    forall|k: int| 0 <= k < ns.len() ==> well_formed_term(#[trigger] ns[k])
}

/// What `Parser::parse` promises: on success, an `Expression` holding only
/// well-formed `Term` nodes (numeric-literal coefficients and exponents)
/// whose models are exactly what `spec_parse_terms` yields; an error exactly
/// when `spec_parse_terms` fails.
pub open spec fn parse_post(res: Result<ASTNode, InterpreterError>, ts: Seq<TokenModel>) -> bool {
    match res {
        Ok(node) => {
            &&& node is Expression
            &&& all_terms(node->Expression_0@)
            &&& all_well_formed_terms(node->Expression_0@)
            &&& spec_parse_terms(ts) == Some(term_models(node->Expression_0@))
        },
        Err(_) => spec_parse_terms(ts) is None,
    }
}

proof fn lemma_skip_step(s: Seq<TokenModel>, i: int)
    requires
        0 <= i < s.len(),
    ensures
        s.skip(i).drop_first() =~= s.skip(i + 1),
        s.skip(i)[0] == s[i],
        s.skip(i).len() == s.len() - i,
{
}

fn get_sign(tokens: &Vec<Token>, i: usize) -> (res: (bool, usize))
    requires
        i <= tokens.len(),
    ensures
        i <= res.1 <= tokens.len(),
        spec_get_sign(toks(tokens@).skip(i as int)) == (res.0, toks(tokens@).skip(res.1 as int)),
    decreases tokens.len() - i,
{
    if i < tokens.len() {
        proof {
            lemma_skip_step(toks(tokens@), i as int);
        }
        match &tokens[i] {
            Token::Symbol(c) => {
                if *c == '+' {
                    get_sign(tokens, i + 1)
                } else if *c == '-' {
                    let r = get_sign(tokens, i + 1);
                    (!r.0, r.1)
                } else {
                    (true, i)
                }
            },
            _ => (true, i),
        }
    } else {
        proof {
            assert(toks(tokens@).skip(i as int).len() == 0);
        }
        (true, i)
    }
}

fn parse_digits(tokens: &Vec<Token>, i: usize, acc: i64) -> (res: Result<
    (i64, usize),
    InterpreterError,
>)
    requires
        i <= tokens.len(),
        0 <= acc,
    ensures
        match res {
            Ok(r) => {
                &&& i <= r.1 <= tokens.len()
                &&& 0 <= r.0
                &&& spec_digits(toks(tokens@).skip(i as int), acc) == Some(
                    (r.0, toks(tokens@).skip(r.1 as int)),
                )
            },
            Err(_) => spec_digits(toks(tokens@).skip(i as int), acc) is None,
        },
    decreases tokens.len() - i,
{
    if i < tokens.len() {
        proof {
            lemma_skip_step(toks(tokens@), i as int);
        }
        match &tokens[i] {
            Token::Number(n) => {
                if acc >= NUMERAL_LIMIT || *n > 9 {
                    Err(InterpreterError::unsupported_number(acc, *n))
                } else {
                    parse_digits(tokens, i + 1, 10 * acc + (*n as i64))
                }
            },
            _ => Ok((acc, i)),
        }
    } else {
        Ok((acc, i))
    }
}

fn parse_constant(tokens: &Vec<Token>, i: usize) -> (res: Result<
    (i64, usize, bool),
    InterpreterError,
>)
    requires
        i <= tokens.len(),
    ensures
        match res {
            Ok(r) => {
                &&& i <= r.1 <= tokens.len()
                &&& spec_constant(toks(tokens@).skip(i as int)) == Some(
                    (r.0, toks(tokens@).skip(r.1 as int), r.2),
                )
            },
            Err(_) => spec_constant(toks(tokens@).skip(i as int)) is None,
        },
{
    let (sign, i1) = get_sign(tokens, i);
    match parse_digits(tokens, i1, 0) {
        Err(e) => Err(e),
        Ok((mag, i2)) => {
            let v: i64 = if sign {
                mag
            } else {
                -mag
            };
            proof {
                assert(toks(tokens@).skip(i1 as int).len() == tokens@.len() - i1);
                assert(toks(tokens@).skip(i2 as int).len() == tokens@.len() - i2);
            }
            Ok((v, i2, i2 != i1))
        },
    }
}

fn parse_optional_exponent(tokens: &Vec<Token>, i: usize) -> (res: Result<
    (i64, usize),
    InterpreterError,
>)
    requires
        i <= tokens.len(),
    ensures
        match res {
            Ok(r) => {
                &&& i <= r.1 <= tokens.len()
                &&& spec_exponent(toks(tokens@).skip(i as int)) == Some(
                    (r.0, toks(tokens@).skip(r.1 as int)),
                )
            },
            Err(_) => spec_exponent(toks(tokens@).skip(i as int)) is None,
        },
{
    if i < tokens.len() {
        proof {
            lemma_skip_step(toks(tokens@), i as int);
        }
        let caret = match &tokens[i] {
            Token::Symbol(c) => *c == '^',
            _ => false,
        };
        if caret {
            return match parse_constant(tokens, i + 1) {
                Ok((v, j, _gd)) => Ok((v, j)),
                Err(e) => Err(e),
            };
        }
    }
    Ok((1, i))
}

fn parse_optional_variables(tokens: &Vec<Token>, i: usize) -> (res: Result<
    (Vec<ASTNode>, usize),
    InterpreterError,
>)
    requires
        i <= tokens.len(),
    ensures
        match res {
            Ok(r) => {
                &&& i <= r.1 <= tokens.len()
                &&& forall|k: int| 0 <= k < r.0@.len() ==> well_formed_var(#[trigger] r.0@[k])
                &&& spec_variables(toks(tokens@).skip(i as int)) == Some(
                    (var_pairs(r.0@), toks(tokens@).skip(r.1 as int)),
                )
            },
            Err(_) => spec_variables(toks(tokens@).skip(i as int)) is None,
        },
{
    if i < tokens.len() {
        proof {
            lemma_skip_step(toks(tokens@), i as int);
        }
        let is_ident = match &tokens[i] {
            Token::Identifier(_) => true,
            _ => false,
        };
        if is_ident {
            let name_len = match &tokens[i] {
                Token::Identifier(s) => s.len(),
                _ => 0,
            };
            match parse_optional_exponent(tokens, i + 1) {
                Err(e) => {
                    return Err(e);
                },
                Ok((e, j)) => {
                    let ghost name = toks(tokens@).skip(i as int)[0]->Identifier_0;
                    if name_len == 0 {
                        let vars: Vec<ASTNode> = Vec::new();
                        proof {
                            assert(var_pairs(vars@) =~= Seq::<
                                (char, i64),
                            >::empty());
                        }
                        return Ok((vars, j));
                    }
                    let mut vars: Vec<ASTNode> = Vec::new();
                    proof {
                        assert(var_pairs(vars@) =~= name.take(
                            0,
                        ).map_values(|ch: char| (ch, 1i64)));
                    }
                    let mut k: usize = 0;
                    while k < name_len - 1
                        invariant
                            k <= name_len - 1,
                            1 <= name_len,
                            i < tokens.len(),
                            tokens@[i as int]@ is Identifier,
                            name == tokens@[i as int]@->Identifier_0,
                            name_len == name.len(),
                            var_pairs(vars@) == name.take(
                                k as int,
                            ).map_values(|ch: char| (ch, 1i64)),
                        forall|q: int| 0 <= q < vars@.len() ==> well_formed_var(#[trigger] vars@[q]),
                        decreases name_len - 1 - k,
                    {
                        let c: char = match &tokens[i] {
                            Token::Identifier(s) => s[k],
                            _ => ' ',
                        };
                        let ghost vs0 = vars@;
                        let node = ASTNode::Variable(c, Box::new(ASTNode::Number(1)));
                        let ghost gnode = node;
                        vars.push(node);
                        proof {
                            assert(c == name[k as int]);
                            lemma_var_pairs_push(vs0, gnode);
                            assert(var_pair(gnode) == (c, 1i64));
                            assert(var_pairs(vars@) =~= var_pairs(vs0).push((c, 1i64)));
                            assert(name.take(k + 1) =~= name.take(k as int).push(name[k as int]));
                            assert(name.take(k + 1).map_values(|ch: char| (ch, 1i64)) =~= name.take(
                                k as int,
                            ).map_values(|ch: char| (ch, 1i64)).push((name[k as int], 1i64)));
                            assert(well_formed_var(gnode));
                            assert forall|q: int|
                                0 <= q < vars@.len() implies well_formed_var(
                                #[trigger] vars@[q],
                            ) by {
                                assert(vars@ == vs0.push(gnode));
                                assert(vars@.len() == vs0.len() + 1);
                                lemma_node_push_index(vs0, gnode, q);
                                if q < vs0.len() {
                                    assert(vars@[q] == vs0[q]);
                                } else {
                                    assert(vars@[q] == gnode);
                                }
                            }
                        }
                        k = k + 1;
                    }
                    let last: char = match &tokens[i] {
                        Token::Identifier(s) => s[name_len - 1],
                        _ => ' ',
                    };
                    let ghost vs0 = vars@;
                    let node = ASTNode::Variable(last, Box::new(ASTNode::Number(e)));
                    let ghost gnode = node;
                    vars.push(node);
                    proof {
                        assert(last == name.last());
                        assert(name.take(name_len - 1) =~= name.take(name.len() - 1));
                        lemma_var_pairs_push(vs0, gnode);
                        assert(var_pair(gnode) == (name.last(), e));
                        assert(var_pairs(vars@) =~= var_pairs(vs0).push((name.last(), e)));
                        assert(well_formed_var(gnode));
                        assert forall|q: int|
                            0 <= q < vars@.len() implies well_formed_var(
                            #[trigger] vars@[q],
                        ) by {
                            assert(vars@ == vs0.push(gnode));
                            assert(vars@.len() == vs0.len() + 1);
                            lemma_node_push_index(vs0, gnode, q);
                            if q < vs0.len() {
                                assert(vars@[q] == vs0[q]);
                            } else {
                                assert(vars@[q] == gnode);
                            }
                        }
                    }
                    return Ok((vars, j));
                },
            }
        }
    }
    let vars: Vec<ASTNode> = Vec::new();
    proof {
        assert(var_pairs(vars@) =~= Seq::<(char, i64)>::empty());
    }
    Ok((vars, i))
}

fn parse_term(tokens: &Vec<Token>, i: usize) -> (res: Result<(ASTNode, usize), InterpreterError>)
    requires
        i < tokens.len(),
    ensures
        match res {
            Ok(r) => {
                &&& i < r.1 <= tokens.len()
                &&& well_formed_term(r.0)
                &&& spec_term(toks(tokens@).skip(i as int)) == Some(
                    (term_model(r.0), toks(tokens@).skip(r.1 as int)),
                )
            },
            Err(_) => spec_term(toks(tokens@).skip(i as int)) is None,
        },
{
    match parse_constant(tokens, i) {
        Err(e) => Err(e),
        Ok((value, i1, _got_digits)) => match parse_optional_variables(tokens, i1) {
            Err(e) => Err(e),
            Ok((vars, i2)) => {
                let mut i3 = i2;
                if i2 < tokens.len() {
                    proof {
                        lemma_skip_step(toks(tokens@), i2 as int);
                    }
                    let plus = match &tokens[i2] {
                        Token::Symbol(c) => *c == '+',
                        _ => false,
                    };
                    if plus {
                        i3 = i2 + 1;
                    }
                }
                proof {
                    assert(toks(tokens@).skip(i as int).len() == tokens@.len() - i);
                    assert(toks(tokens@).skip(i1 as int).len() == tokens@.len() - i1);
                    assert(toks(tokens@).skip(i2 as int).len() == tokens@.len() - i2);
                    assert(toks(tokens@).skip(i3 as int).len() == tokens@.len() - i3);
                }
                if i3 == i {
                    Err(InterpreterError::unexpected_token())
                } else {
                    let coeff: i64 = if vars.len() > 0 && value == 0 && i1 == i {
                        1
                    } else {
                        value
                    };
                    let node = ASTNode::Term(Box::new(ASTNode::Number(coeff)), vars);
                    proof {
                        assert(term_model(node) == TermModel {
                            coeff,
                            vars: var_pairs(node->Term_1@),
                        });
                        assert(well_formed_term(node));
                    }
                    Ok((node, i3))
                }
            },
        },
    }
}

/// The parser: turns a token sequence into an `Expression` AST.
pub struct Parser {}

impl Parser {
    pub(crate) fn new() -> (p: Parser) {
        Parser {  }
    }

    /// Parses the whole token sequence; see `parse_post`.
    pub fn parse(&mut self, tokens: Vec<Token>) -> (res: Result<ASTNode, InterpreterError>)
        ensures
            parse_post(res, toks(tokens@)),
    {
        self.parse_expression(&tokens)
    }

    /// Parses the whole token sequence; see `parse_post`.
    pub fn parse_expression(&mut self, tokens: &Vec<Token>) -> (res: Result<
        ASTNode,
        InterpreterError,
    >)
        ensures
            parse_post(res, toks(tokens@)),
    {
        broadcast use lemma_term_models_push;

        let ghost all = toks(tokens@);
        let mut terms: Vec<ASTNode> = Vec::new();
        let mut i: usize = 0;
        proof {
            assert(all.skip(0) =~= all);
            assert(term_models(terms@) =~= Seq::<TermModel>::empty());
        }
        while i < tokens.len()
            invariant
                i <= tokens.len(),
                all == toks(tokens@),
                all.len() == tokens@.len(),
                all_terms(terms@),
                all_well_formed_terms(terms@),
                spec_parse_terms(all) == (match spec_parse_terms(all.skip(i as int)) {
                    None => None::<Seq<TermModel>>,
                    Some(more) => Some(term_models(terms@) + more),
                }),
            decreases tokens.len() - i,
        {
            broadcast use lemma_term_models_push;

            let ghost terms0 = terms@;
            proof {
                assert(all.skip(i as int).len() == all.len() - i);
            }
            match parse_term(tokens, i) {
                Err(e) => {
                    proof {
                        assert(spec_parse_terms(all.skip(i as int)) is None);
                    }
                    return Err(e);
                },
                Ok((node, j)) => {
                    proof {
                        assert(all.skip(j as int).len() == all.len() - j);
                        assert(spec_parse_terms(all.skip(i as int)) == (
                        match spec_parse_terms(all.skip(j as int)) {
                            None => None::<Seq<TermModel>>,
                            Some(m2) => Some(seq![term_model(node)] + m2),
                        }));
                    }
                    let ghost gnode = node;
                    terms.push(node);
                    proof {
                        assert(term_models(terms@) == term_models(terms0) + seq![
                            term_model(gnode),
                        ]);
                        assert forall|m2: Seq<TermModel>|
                            term_models(terms0) + (seq![term_model(gnode)] + m2) =~= term_models(
                            terms@,
                        ) + m2 by {}
                        assert forall|k: int|
                            0 <= k < terms@.len() implies well_formed_term(
                            #[trigger] terms@[k],
                        ) by {
                            if k < terms0.len() {
                                assert(terms@[k] == terms0[k]);
                            } else {
                                assert(terms@[k] == gnode);
                            }
                        }
                    }
                    i = j;
                },
            }
        }
        proof {
            assert(all.skip(i as int) =~= Seq::<TokenModel>::empty());
            assert(spec_parse_terms(all.skip(i as int)) == Some(Seq::<TermModel>::empty()));
            assert(term_models(terms@) + Seq::<TermModel>::empty() =~= term_models(terms@));
        }
        Ok(ASTNode::Expression(terms))
    }
}

proof fn lemma_node_push_index(vs: Seq<ASTNode>, g: ASTNode, q: int)
    requires
        0 <= q <= vs.len(),
    ensures
        q < vs.len() ==> vs.push(g)[q] == vs[q],
        q == vs.len() ==> vs.push(g)[q] == g,
{
}

} // verus!
