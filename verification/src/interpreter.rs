use vstd::prelude::*;

use crate::errors::InterpreterError;
use crate::expression::ParsedExpression;
use crate::expression::lemma_sorted_sigs;
use crate::expression::sorted_sigs;
use crate::expression::spec_add;
use crate::expression::var_order;
use crate::expression::clone_sig;
use crate::expression::sort_vars;
use crate::lexer::Lexer;
use crate::lexer::Token;
use crate::lexer::spec_lex;
use crate::lexer::toks;
use crate::numerals::int_chars;
use crate::numerals::push_i128_chars;
use crate::numerals::push_i64_chars;
use crate::parser::ASTNode;
use crate::parser::Parser;
use crate::parser::TermModel;
use crate::parser::lemma_term_models_push;
use crate::parser::parse_post;
use crate::parser::term_models;
use crate::parser::var_pairs;
use crate::text::chars_to_string;

verus! {

/// The monomial signature of a term: its (name, exponent) pairs sorted by
/// name ascending, then exponent ascending. Two terms fuse exactly when
/// their signatures are equal.
pub open spec fn sig_of(t: TermModel) -> Seq<(char, i64)> {
    t.vars.sort_by(var_order())
}

/// One accumulation step, as a function value for folding.
pub open spec fn acc_step() -> spec_fn(
    Map<Seq<(char, i64)>, int>,
    TermModel,
) -> Map<Seq<(char, i64)>, int> {
    |m: Map<Seq<(char, i64)>, int>, t: TermModel| spec_add(m, sig_of(t), t.coeff as int)
}

/// The canonical map of a term sequence: each term's coefficient added to
/// its signature's entry, left to right.
pub open spec fn spec_accumulate(ts: Seq<TermModel>) -> Map<Seq<(char, i64)>, int> {
    ts.fold_left(Map::<Seq<(char, i64)>, int>::empty(), acc_step())
}

/// One step of the recorded-variables fold: a term that reaches the map
/// records every variable name of its signature.
pub open spec fn vars_step() -> spec_fn(Set<char>, TermModel) -> Set<char> {
    |vs: Set<char>, t: TermModel|
        if t.coeff != 0 {
            vs.union(crate::expression::sig_names(sig_of(t)))
        } else {
            vs
        }
}

/// The set of variable names recorded while accumulating `ts`.
pub open spec fn spec_accumulate_vars(ts: Seq<TermModel>) -> Set<char> {
    ts.fold_left(Set::<char>::empty(), vars_step())
}

/// True when every signature present maps to a zero coefficient.
pub open spec fn all_zero(m: Map<Seq<(char, i64)>, int>) -> bool {
    forall|s: Seq<(char, i64)>| #[trigger] m.dom().contains(s) ==> m[s] == 0
}

/// The text of one signature: each variable name, bare when its exponent is
/// one, else followed by a caret and the exponent.
pub open spec fn render_sig(sig: Seq<(char, i64)>) -> Seq<char>
    decreases sig.len(),
{
    if sig.len() == 0 {
        Seq::<char>::empty()
    } else {
        (if sig[0].1 == 1 {
            seq![sig[0].0]
        } else {
            seq![sig[0].0, '^'] + int_chars(sig[0].1 as int)
        }) + render_sig(sig.drop_first())
    }
}

/// The text of one term: the coefficient, omitted when it is one and the
/// signature is non-empty, then the signature.
pub open spec fn render_entry(sig: Seq<(char, i64)>, c: int) -> Seq<char> {
    (if c != 1 || sig.len() == 0 {
        int_chars(c)
    } else {
        Seq::<char>::empty()
    }) + render_sig(sig)
}

/// The texts of the given signatures joined by " + ".
pub open spec fn render_entries(
    sigs: Seq<Seq<(char, i64)>>,
    m: Map<Seq<(char, i64)>, int>,
) -> Seq<char>
    decreases sigs.len(),
{
    if sigs.len() == 0 {
        Seq::<char>::empty()
    } else if sigs.len() == 1 {
        render_entry(sigs[0], m[sigs[0]])
    } else {
        render_entry(sigs[0], m[sigs[0]]) + seq![' ', '+', ' '] + render_entries(
            sigs.drop_first(),
            m,
        )
    }
}

/// The canonical text of a map: the literal "0" when nothing is present or
/// every coefficient is zero, else its entries in `sig_le` order.
pub open spec fn spec_render(m: Map<Seq<(char, i64)>, int>) -> Seq<char>
    recommends
        m.dom().finite(),
{
    if m.dom().len() == 0 || all_zero(m) {
        seq!['0']
    } else {
        render_entries(sorted_sigs(m), m)
    }
}

/// The output for a parsed term list: empty text for no terms at all, else
/// the rendering of the accumulated map.
pub open spec fn spec_solve(nodes: Seq<ASTNode>) -> Seq<char> {
    if nodes.len() == 0 {
        Seq::<char>::empty()
    } else {
        spec_render(spec_accumulate(term_models(nodes)))
    }
}

/// What interpretation yields for an AST root: the number's text for a bare
/// number, the solved text for an expression, and failure otherwise.
pub open spec fn spec_interpret(ast: ASTNode) -> Option<Seq<char>> {
    match ast {
        ASTNode::Number(n) => Some(int_chars(n as int)),
        ASTNode::Expression(nodes) => Some(spec_solve(nodes@)),
        _ => None::<Seq<char>>,
    }
}

/// The whole pipeline: lexer, parser, term accumulator, renderer.
pub struct Interpreter {
    pub parser: Parser,
    pub lexer: Lexer,
}

impl Interpreter {
    pub fn new() -> (r: Interpreter)
        ensures
            r.lexer.input@ == Seq::<char>::empty(),
    {
        Interpreter { parser: Parser::new(), lexer: Lexer::new() }
    }

    /// Lexes `arg`; never fails.
    pub fn lex(&mut self, arg: &str) -> (res: Result<Vec<Token>, InterpreterError>)
        ensures
            res is Ok,
            toks(res->Ok_0@) == spec_lex(arg@, Seq::<char>::empty()),
            final(self).lexer.input@ == arg@,
    {
        self.lexer.lex(arg)
    }

    /// Parses tokens into an expression AST; see `parse_post`.
    pub fn parse(&mut self, tokens: Vec<Token>) -> (res: Result<ASTNode, InterpreterError>)
        ensures
            parse_post(res, toks(tokens@)),
    {
        self.parser.parse(tokens)
    }

    /// Interprets a parse result: a bare number renders as its text, an
    /// expression is solved, and anything else is rejected.
    pub fn interpret(&self, ast_head: ASTNode) -> (res: Result<String, InterpreterError>)
        ensures
            res is Ok <==> spec_interpret(ast_head) is Some,
            res is Ok ==> res->Ok_0@ == spec_interpret(ast_head)->0,
    {
        match ast_head {
            ASTNode::Number(n) => {
                let mut out: Vec<char> = Vec::new();
                push_i64_chars(&mut out, n);
                proof {
                    assert(out@ =~= int_chars(n as int));
                }
                Ok(chars_to_string(&out))
            },
            ASTNode::Expression(nodes) => match self.solve(nodes) {
                Ok(s) => Ok(s),
                Err(e) => Err(e),
            },
            _ => Err(InterpreterError::invalid_input()),
        }
    }

    /// Folds the coefficients of terms with equal monomial signatures into
    /// one map entry each; a zero coefficient never creates an entry.
    pub fn combine_like_terms(&self, terms: &Vec<ASTNode>) -> (res: Result<
        ParsedExpression,
        InterpreterError,
    >)
        ensures
            res is Ok,
            res->Ok_0.wf(),
            res->Ok_0.map_view() == spec_accumulate(term_models(terms@)),
            res->Ok_0.vars_view() == spec_accumulate_vars(term_models(terms@)),
    {
        broadcast use lemma_term_models_push;

        let mut accumulator = ParsedExpression::new();
        let mut i: usize = 0;
        proof {
            assert(terms@.take(0) =~= Seq::<ASTNode>::empty());
            assert(term_models(terms@.take(0)) =~= Seq::<TermModel>::empty());
        }
        while i < terms.len()
            invariant
                i <= terms@.len(),
                accumulator.wf(),
                accumulator.map_view() == spec_accumulate(term_models(terms@.take(i as int))),
                accumulator.vars_view() == spec_accumulate_vars(
                    term_models(terms@.take(i as int)),
                ),
                forall|s: Seq<(char, i64)>| #[trigger]
                    accumulator.map_view().dom().contains(s) ==> -(i as int) * 0x8000_0000_0000_0000
                        <= accumulator.map_view()[s] <= (i as int) * 0x8000_0000_0000_0000,
            decreases terms@.len() - i,
        {
            broadcast use lemma_term_models_push;

            let ghost ms0 = term_models(terms@.take(i as int));
            let ghost m0 = accumulator.map_view();
            let ghost vs0 = accumulator.vars_view();
            proof {
                assert(terms@.take(i + 1) =~= terms@.take(i as int).push(terms@[i as int]));
            }
            let is_term_node = match &terms[i] {
                ASTNode::Term(_, _) => true,
                _ => false,
            };
            if is_term_node {
                let ghost node = terms@[i as int];
                let ghost tm = crate::parser::term_model(node);
                proof {
                    assert(term_models(terms@.take(i + 1)) =~= ms0.push(tm));
                    assert(ms0.push(tm).drop_last() =~= ms0);
                    assert(spec_accumulate(ms0.push(tm)) == acc_step()(spec_accumulate(ms0), tm));
                    assert(spec_accumulate_vars(ms0.push(tm)) == vars_step()(
                        spec_accumulate_vars(ms0),
                        tm,
                    ));
                }
                let coefficient: i64 = match &terms[i] {
                    ASTNode::Term(c, _) => match &**c {
                        ASTNode::Number(n) => *n,
                        _ => 0,
                    },
                    _ => 0,
                };
                let mut sig: Vec<(char, i64)> = Vec::new();
                let n_vars = match &terms[i] {
                    ASTNode::Term(_, vs) => vs.len(),
                    _ => 0,
                };
                proof {
                    assert(coefficient == tm.coeff);
                    assert(n_vars == tm.vars.len());
                    assert(sig@ =~= tm.vars.take(0));
                }
                let mut k: usize = 0;
                while k < n_vars
                    invariant
                        k <= n_vars,
                        i < terms@.len(),
                        terms@[i as int] is Term,
                        node == terms@[i as int],
                        tm == crate::parser::term_model(node),
                        n_vars == tm.vars.len(),
                        sig@ == tm.vars.take(k as int),
                    decreases n_vars - k,
                {
                    let pair: (char, i64) = match &terms[i] {
                        ASTNode::Term(_, vs) => match &vs[k] {
                            ASTNode::Variable(name, exponent) => (
                                *name,
                                match &**exponent {
                                    ASTNode::Number(x) => *x,
                                    _ => 0,
                                },
                            ),
                            _ => (' ', 1),
                        },
                        _ => (' ', 1),
                    };
                    proof {
                        assert(pair == tm.vars[k as int]) by {
                            assert(tm.vars == var_pairs(node->Term_1@));
                        }
                        assert(tm.vars.take(k + 1) =~= tm.vars.take(k as int).push(
                            tm.vars[k as int],
                        ));
                    }
                    sig.push(pair);
                    k = k + 1;
                }
                proof {
                    assert(tm.vars.take(tm.vars.len() as int) =~= tm.vars);
                }
                if n_vars == 0 {
                    let empty_sig: Vec<(char, i64)> = Vec::new();
                    proof {
                        assert(tm.vars =~= Seq::<(char, i64)>::empty());
                        crate::expression::lemma_var_order_total();
                        tm.vars.lemma_sort_by_ensures(var_order());
                        vstd::seq_lib::to_multiset_len(tm.vars);
                        vstd::seq_lib::to_multiset_len(sig_of(tm));
                        assert(sig_of(tm).len() == 0);
                        assert(sig_of(tm) =~= Seq::<(char, i64)>::empty());
                        assert(empty_sig@ == sig_of(tm));
                        assert(i < terms@.len() && terms@.len() <= usize::MAX);
                        assert((if m0.dom().contains(sig_of(tm)) {
                            m0[sig_of(tm)]
                        } else {
                            0int
                        }) + coefficient <= (i as int) * 0x8000_0000_0000_0000 + 0x8000_0000_0000_0000 - 1);
                        assert((i as int) * 0x8000_0000_0000_0000 + 0x8000_0000_0000_0000 - 1 <= i128::MAX);
                        assert(i128::MIN <= -((i as int) * 0x8000_0000_0000_0000) - 0x8000_0000_0000_0000);
                    }
                    accumulator.add_term(empty_sig, coefficient);
                } else {
                    let sorted = sort_vars(sig);
                    proof {
                        crate::expression::lemma_var_order_total();
                        tm.vars.lemma_sort_by_ensures(var_order());
                        assert(sorted@ == sig_of(tm));
                        vstd::seq_lib::to_multiset_len(tm.vars);
                        vstd::seq_lib::to_multiset_len(sig_of(tm));
                        assert(sig_of(tm).len() == tm.vars.len());
                        assert(i < terms@.len() && terms@.len() <= usize::MAX);
                        assert((if m0.dom().contains(sig_of(tm)) {
                            m0[sig_of(tm)]
                        } else {
                            0int
                        }) + coefficient <= (i as int) * 0x8000_0000_0000_0000 + 0x8000_0000_0000_0000 - 1);
                        assert((i as int) * 0x8000_0000_0000_0000 + 0x8000_0000_0000_0000 - 1 <= i128::MAX);
                        assert(i128::MIN <= -((i as int) * 0x8000_0000_0000_0000) - 0x8000_0000_0000_0000);
                    }
                    accumulator.add_term(sorted, coefficient);
                }
                proof {
                    assert(accumulator.map_view() == spec_add(m0, sig_of(tm), tm.coeff as int));
                    assert(accumulator.map_view() == spec_accumulate(
                        term_models(terms@.take(i + 1)),
                    ));
                    assert(accumulator.vars_view() == spec_accumulate_vars(
                        term_models(terms@.take(i + 1)),
                    ));
                    assert forall|s: Seq<(char, i64)>| #[trigger]
                        accumulator.map_view().dom().contains(s) implies -((i + 1) as int) * 0x8000_0000_0000_0000
                        <= accumulator.map_view()[s] <= ((i + 1) as int) * 0x8000_0000_0000_0000 by {
                        if tm.coeff != 0 && s == sig_of(tm) {
                        } else {
                            assert(m0.dom().contains(s));
                            assert(accumulator.map_view()[s] == m0[s]);
                        }
                    }
                }
            } else {
                proof {
                    assert(term_models(terms@.take(i + 1)) =~= ms0);
                    assert forall|s: Seq<(char, i64)>| #[trigger]
                        accumulator.map_view().dom().contains(s) implies -((i + 1) as int) * 0x8000_0000_0000_0000
                        <= accumulator.map_view()[s] <= ((i + 1) as int) * 0x8000_0000_0000_0000 by {}
                }
            }
            i = i + 1;
        }
        proof {
            assert(terms@.take(terms@.len() as int) =~= terms@);
        }
        Ok(accumulator)
    }

    /// Renders a canonical map; see `spec_render`.
    pub fn print_out_expression(&self, expression: ParsedExpression) -> (out: String)
        requires
            expression.wf(),
        ensures
            out@ == spec_render(expression.map_view()),
    {
        let ghost m = expression.map_view();
        let keys = expression.get_sorted_term_sigs();
        let ghost ks = sorted_sigs(m);
        proof {
            crate::expression::lemma_map_view_finite(&expression);
            lemma_sorted_sigs(m);
            assert(keys@.map_values(|v: Vec<(char, i64)>| v@) == ks);
            assert(keys@.len() == ks.len());
        }
        let mut zero_flag = false;
        let mut found_nonzero = false;
        let mut j: usize = 0;
        while j < keys.len() && !found_nonzero
            invariant
                expression.wf(),
                m == expression.map_view(),
                ks == sorted_sigs(m),
                ks.to_set() == m.dom(),
                keys@.map_values(|v: Vec<(char, i64)>| v@) == ks,
                keys@.len() == ks.len(),
                j <= keys@.len(),
                !found_nonzero ==> zero_flag == (j > 0),
                !found_nonzero ==> forall|p: int| 0 <= p < j ==> m[#[trigger] ks[p]] == 0,
                found_nonzero ==> !all_zero(m) && !zero_flag,
            decreases keys@.len() - j + (if found_nonzero { 0int } else { 1int }),
        {
            proof {
                assert(keys@[j as int]@ == ks[j as int]);
                assert(ks.to_set().contains(ks[j as int]));
            }
            let coefficient = match expression.get_term(clone_sig(&keys[j])) {
                Some(c) => c,
                None => {
                    proof {
                        assert(false);
                    }
                    0
                },
            };
            if coefficient != 0 {
                found_nonzero = true;
                zero_flag = false;
                proof {
                    assert(m.dom().contains(ks[j as int]) && m[ks[j as int]] != 0);
                }
            } else {
                zero_flag = true;
                j = j + 1;
            }
        }
        if keys.len() == 0 || zero_flag {
            proof {
                if keys@.len() == 0 {
                    assert(ks.len() == 0);
                    assert(m.dom().len() == 0);
                } else {
                    assert(!found_nonzero);
                    assert(j == keys@.len());
                    assert forall|s: Seq<(char, i64)>| #[trigger]
                        m.dom().contains(s) implies m[s] == 0 by {
                        assert(ks.to_set().contains(s));
                        let p = choose|p: int| 0 <= p < ks.len() && ks[p] == s;
                        assert(m[ks[p]] == 0);
                    }
                    assert(all_zero(m));
                }
            }
            let mut zv: Vec<char> = Vec::new();
            zv.push('0');
            proof {
                assert(zv@ =~= seq!['0']);
            }
            return chars_to_string(&zv);
        }
        proof {
            assert(found_nonzero);
            assert(!all_zero(m));
            assert(m.dom().len() == ks.len());
            assert(spec_render(m) == render_entries(ks, m));
        }
        let mut outv: Vec<char> = Vec::new();
        let mut t: usize = 0;
        proof {
            assert(ks.skip(0) =~= ks);
            assert(outv@ + render_entries(ks.skip(0), m) =~= render_entries(ks, m));
        }
        while t < keys.len()
            invariant
                expression.wf(),
                m == expression.map_view(),
                ks == sorted_sigs(m),
                ks.to_set() == m.dom(),
                keys@.map_values(|v: Vec<(char, i64)>| v@) == ks,
                keys@.len() == ks.len(),
                t <= keys@.len(),
                render_entries(ks, m) == outv@ + render_entries(ks.skip(t as int), m),
            decreases keys@.len() - t,
        {
            let ghost sigv = ks[t as int];
            proof {
                assert(keys@[t as int]@ == sigv);
                assert(ks.to_set().contains(sigv));
                assert(ks.skip(t as int)[0] == sigv);
                assert(ks.skip(t as int).drop_first() =~= ks.skip(t + 1));
                assert(ks.skip(t as int).len() == ks.len() - t);
            }
            let coefficient = match expression.get_term(clone_sig(&keys[t])) {
                Some(c) => c,
                None => {
                    proof {
                        assert(false);
                    }
                    0
                },
            };
            let ghost out_before = outv@;
            if coefficient != 1 || keys[t].len() == 0 {
                push_i128_chars(&mut outv, coefficient);
                proof {
                    assert(outv@ =~= out_before + int_chars(m[sigv]));
                }
            }
            proof {
                assert(outv@ =~= out_before + (if m[sigv] != 1 || sigv.len() == 0 {
                    int_chars(m[sigv])
                } else {
                    Seq::<char>::empty()
                }));
            }
            let ghost out_coeff = outv@;
            let n_pairs = keys[t].len();
            let mut p: usize = 0;
            proof {
                assert(sigv.skip(0) =~= sigv);
                assert(outv@ + render_sig(sigv.skip(0)) =~= out_coeff + render_sig(sigv));
            }
            while p < n_pairs
                invariant
                    p <= n_pairs,
                    t < keys@.len(),
                    n_pairs == keys@[t as int]@.len(),
                    sigv == keys@[t as int]@,
                    out_coeff + render_sig(sigv) == outv@ + render_sig(sigv.skip(p as int)),
                decreases n_pairs - p,
            {
                let pair = {
                    let sig_ref = &keys[t];
                    sig_ref[p]
                };
                proof {
                    assert(pair == sigv[p as int]);
                    assert(sigv.skip(p as int)[0] == sigv[p as int]);
                    assert(sigv.skip(p as int).drop_first() =~= sigv.skip(p + 1));
                }
                let ghost ob = outv@;
                if pair.1 != 1 {
                    outv.push(pair.0);
                    outv.push('^');
                    push_i64_chars(&mut outv, pair.1);
                    proof {
                        assert(outv@ =~= ob + (seq![pair.0, '^'] + int_chars(pair.1 as int)));
                    }
                } else {
                    outv.push(pair.0);
                    proof {
                        assert(outv@ =~= ob + seq![pair.0]);
                    }
                }
                p = p + 1;
            }
            proof {
                assert(sigv.skip(sigv.len() as int) =~= Seq::<(char, i64)>::empty());
            }
            if t < keys.len() - 1 {
                outv.push(' ');
                outv.push('+');
                outv.push(' ');
            }
            proof {
                if t < keys@.len() - 1 {
                    assert(outv@ =~= out_coeff + render_sig(sigv) + seq![' ', '+', ' ']);
                    assert(render_entries(ks.skip(t as int), m) == render_entry(sigv, m[sigv])
                        + seq![' ', '+', ' '] + render_entries(ks.skip(t + 1), m));
                    assert(outv@ + render_entries(ks.skip(t + 1), m) =~= out_before
                        + render_entries(ks.skip(t as int), m));
                } else {
                    assert(ks.skip(t as int).len() == 1);
                    assert(render_entries(ks.skip(t as int), m) == render_entry(sigv, m[sigv]));
                    assert(ks.skip(t + 1) =~= Seq::<Seq<(char, i64)>>::empty());
                    assert(outv@ + render_entries(ks.skip(t + 1), m) =~= out_before
                        + render_entries(ks.skip(t as int), m));
                }
            }
            t = t + 1;
        }
        proof {
            assert(ks.skip(ks.len() as int) =~= Seq::<Seq<(char, i64)>>::empty());
            assert(outv@ =~= render_entries(ks, m));
        }
        chars_to_string(&outv)
    }

    /// Solves a term list: combines like terms and renders the result; an
    /// empty list yields empty text.
    pub fn solve(&self, terms: Vec<ASTNode>) -> (res: Result<String, InterpreterError>)
        ensures
            res is Ok,
            res->Ok_0@ == spec_solve(terms@),
    {
        if terms.len() == 0 {
            let empty: Vec<char> = Vec::new();
            proof {
                assert(empty@ =~= Seq::<char>::empty());
            }
            return Ok(chars_to_string(&empty));
        }
        match self.combine_like_terms(&terms) {
            Ok(expression) => Ok(self.print_out_expression(expression)),
            Err(e) => Err(e),
        }
    }
}

} // verus!
