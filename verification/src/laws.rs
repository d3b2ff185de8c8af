use vstd::prelude::*;

use vstd::relations::sorted_by;
use vstd::seq_lib::commutative_foldl;
use vstd::seq_lib::lemma_fold_left_permutation;

use crate::expression::lemma_sorted_sigs;
use crate::expression::lemma_var_order_total;
use crate::expression::sig_order;
use crate::expression::sorted_sigs;
use crate::expression::spec_add;
use crate::expression::var_order;
use crate::interpreter::acc_step;
use crate::interpreter::all_zero;
use crate::interpreter::sig_of;
use crate::interpreter::spec_accumulate;
use crate::interpreter::spec_render;
use crate::lexer::TokenModel;
use crate::lexer::spec_lex;
use crate::numerals::dec_digits;
use crate::numerals::digit_char;
use crate::numerals::int_chars;
use crate::parser::NUMERAL_LIMIT;
use crate::parser::TermModel;
use crate::parser::spec_digits;
use crate::parser::spec_get_sign;
use crate::parser::spec_parse_terms;

verus! {

proof fn lemma_acc_step_commutes()
    ensures
        commutative_foldl(acc_step()),
{
    let f = acc_step();
    assert forall|x: TermModel, y: TermModel, v: Map<Seq<(char, i64)>, int>| #[trigger]
        f(f(v, x), y) == f(f(v, y), x) by {
        let m1 = spec_add(spec_add(v, sig_of(x), x.coeff as int), sig_of(y), y.coeff as int);
        let m2 = spec_add(spec_add(v, sig_of(y), y.coeff as int), sig_of(x), x.coeff as int);
        assert(m1 =~= m2);
        assert(f(f(v, x), y) == m1);
        assert(f(f(v, y), x) == m2);
    }
}

/// Order independence: accumulating any rearrangement of the same multiset
/// of terms yields the same canonical map, and so the same rendered text.
pub proof fn lemma_order_independence(t1: Seq<TermModel>, t2: Seq<TermModel>)
    requires
        t1.to_multiset() == t2.to_multiset(),
    ensures
        spec_accumulate(t1) == spec_accumulate(t2),
        spec_render(spec_accumulate(t1)) == spec_render(spec_accumulate(t2)),
{
    lemma_acc_step_commutes();
    lemma_fold_left_permutation(t1, t2, acc_step(), Map::<Seq<(char, i64)>, int>::empty());
}

/// The summed coefficient of every term whose signature is `sig`.
pub open spec fn coeff_sum(ts: Seq<TermModel>, sig: Seq<(char, i64)>) -> int
    decreases ts.len(),
{
    if ts.len() == 0 {
        0
    } else {
        coeff_sum(ts.drop_last(), sig) + (if sig_of(ts.last()) == sig {
            ts.last().coeff as int
        } else {
            0
        })
    }
}

/// Like-term fusion: a signature is present in the accumulated map exactly
/// when some term with it has a nonzero coefficient, and its entry is then
/// the sum of the coefficients of every term with that signature.
pub proof fn lemma_like_term_fusion(ts: Seq<TermModel>, sig: Seq<(char, i64)>)
    ensures
        spec_accumulate(ts).dom().contains(sig) <==> exists|i: int|
            0 <= i < ts.len() && sig_of(#[trigger] ts[i]) == sig && ts[i].coeff != 0,
        spec_accumulate(ts).dom().contains(sig) ==> spec_accumulate(ts)[sig] == coeff_sum(
            ts,
            sig,
        ),
        !spec_accumulate(ts).dom().contains(sig) ==> coeff_sum(ts, sig) == 0,
    decreases ts.len(),
{
    if ts.len() == 0 {
        assert(spec_accumulate(ts) == Map::<Seq<(char, i64)>, int>::empty());
        assert(!spec_accumulate(ts).dom().contains(sig));
    } else {
        let prefix = ts.drop_last();
        let t = ts.last();
        lemma_like_term_fusion(prefix, sig);
        let m0 = spec_accumulate(prefix);
        assert(spec_accumulate(ts) == acc_step()(m0, t));
        let m = spec_accumulate(ts);
        assert(m == spec_add(m0, sig_of(t), t.coeff as int));
        assert forall|i: int| 0 <= i < prefix.len() implies prefix[i] == ts[i] by {}
        if t.coeff != 0 && sig_of(t) == sig {
            assert(m.dom().contains(sig));
            assert(sig_of(ts[ts.len() - 1]) == sig && ts[ts.len() - 1].coeff != 0);
            assert(m[sig] == (if m0.dom().contains(sig) {
                m0[sig]
            } else {
                0int
            }) + t.coeff);
            assert(m[sig] == coeff_sum(ts, sig));
        } else {
            assert(m.dom().contains(sig) <==> m0.dom().contains(sig));
            if m.dom().contains(sig) {
                assert(m[sig] == m0[sig]);
            }
            assert(coeff_sum(ts, sig) == coeff_sum(prefix, sig) + (if sig_of(t) == sig {
                t.coeff as int
            } else {
                0
            }));
            assert((exists|i: int|
                0 <= i < ts.len() && sig_of(#[trigger] ts[i]) == sig && ts[i].coeff != 0)
                <==> (exists|i: int|
                0 <= i < prefix.len() && sig_of(#[trigger] prefix[i]) == sig && prefix[i].coeff
                    != 0)) by {
                if exists|i: int|
                    0 <= i < ts.len() && sig_of(#[trigger] ts[i]) == sig && ts[i].coeff != 0 {
                    let i = choose|i: int|
                        0 <= i < ts.len() && sig_of(#[trigger] ts[i]) == sig && ts[i].coeff != 0;
                    assert(i < prefix.len());
                    assert(sig_of(prefix[i]) == sig && prefix[i].coeff != 0);
                }
            }
        }
    }
}

/// Zero canonicalization: when every signature's coefficients sum to zero
/// (each term zero from the start, or all cancelled), the accumulated map
/// renders exactly as "0".
pub proof fn lemma_zero_renders_zero(ts: Seq<TermModel>)
    requires
        forall|sig: Seq<(char, i64)>| #[trigger] coeff_sum(ts, sig) == 0,
    ensures
        spec_render(spec_accumulate(ts)) == seq!['0'],
{
    let m = spec_accumulate(ts);
    assert forall|s: Seq<(char, i64)>| #[trigger] m.dom().contains(s) implies m[s] == 0 by {
        lemma_like_term_fusion(ts, s);
        assert(coeff_sum(ts, s) == 0);
    }
    assert(all_zero(m));
}

/// The number of minus signs in the leading sign run.
pub open spec fn minus_count(ts: Seq<TokenModel>) -> nat
    decreases ts.len(),
{
    if ts.len() > 0 && ts[0] is Symbol && (ts[0]->Symbol_0 == '+' || ts[0]->Symbol_0 == '-') {
        minus_count(ts.drop_first()) + (if ts[0]->Symbol_0 == '-' {
            1nat
        } else {
            0nat
        })
    } else {
        0
    }
}

/// The length of the maximal leading run of sign symbols.
pub open spec fn sign_run_len(ts: Seq<TokenModel>) -> nat
    decreases ts.len(),
{
    if ts.len() > 0 && ts[0] is Symbol && (ts[0]->Symbol_0 == '+' || ts[0]->Symbol_0 == '-') {
        sign_run_len(ts.drop_first()) + 1
    } else {
        0
    }
}

/// Multi-sign folding: an arbitrary run of consecutive sign symbols before a
/// term folds to a single sign by the parity of its minus count, consuming
/// exactly that run and leaving the rest of the tokens untouched.
pub proof fn lemma_multi_sign_folding(ts: Seq<TokenModel>)
    ensures
        sign_run_len(ts) <= ts.len(),
        spec_get_sign(ts).0 == (minus_count(ts) % 2 == 0),
        spec_get_sign(ts).1 == ts.skip(sign_run_len(ts) as int),
    decreases ts.len(),
{
    if ts.len() > 0 && ts[0] is Symbol && (ts[0]->Symbol_0 == '+' || ts[0]->Symbol_0 == '-') {
        lemma_multi_sign_folding(ts.drop_first());
        assert(ts.drop_first().skip(sign_run_len(ts.drop_first()) as int) =~= ts.skip(
            sign_run_len(ts) as int,
        ));
    } else {
        assert(ts.skip(0) =~= ts);
    }
}

/// Within one term, the monomial signature lists variables sorted by name
/// ascending, then exponent ascending.
pub proof fn lemma_signature_sorted(t: TermModel)
    ensures
        sorted_by(sig_of(t), var_order()),
{
    lemma_var_order_total();
    t.vars.lemma_sort_by_ensures(var_order());
}

/// Across terms, the rendering lists exactly the signatures present, each
/// once, sorted by variable name ascending and exponent descending, with the
/// constant (empty) signature last.
pub proof fn lemma_render_order(m: Map<Seq<(char, i64)>, int>)
    requires
        m.dom().finite(),
    ensures
        sorted_by(sorted_sigs(m), sig_order()),
        sorted_sigs(m).to_set() == m.dom(),
        sorted_sigs(m).no_duplicates(),
        sorted_sigs(m).len() == m.dom().len(),
{
    lemma_sorted_sigs(m);
}

/// Ten to the power `k`.
pub open spec fn pow10(k: nat) -> int
    decreases k,
{
    if k == 0 {
        1
    } else {
        10 * pow10((k - 1) as nat)
    }
}

proof fn lemma_pow10_pos(k: nat)
    ensures
        pow10(k) >= 1,
    decreases k,
{
    if k > 0 {
        lemma_pow10_pos((k - 1) as nat);
    }
}

proof fn lemma_digits_blow_up(ts: Seq<TokenModel>, acc: i64, k: nat)
    requires
        1 <= acc,
        1 <= k <= ts.len(),
        forall|i: int| 0 <= i < k ==> (#[trigger] ts[i]) is Number && ts[i]->Number_0 <= 9,
        pow10((k - 1) as nat) * acc >= NUMERAL_LIMIT,
    ensures
        spec_digits(ts, acc) is None,
    decreases k,
{
    assert(ts[0] is Number && ts[0]->Number_0 <= 9);
    if acc >= NUMERAL_LIMIT {
    } else {
        assert(k >= 2) by {
            if k == 1 {
                assert(pow10(0) == 1);
            }
        }
        let n = ts[0]->Number_0;
        let acc2: i64 = (10 * acc + n) as i64;
        assert(10 * acc + n <= 10 * (NUMERAL_LIMIT - 1) + 9);
        assert(acc2 == 10 * acc + n);
        assert(acc2 >= 10 * acc);
        let p = pow10((k - 2) as nat);
        assert(pow10((k - 1) as nat) == 10 * p);
        lemma_pow10_pos((k - 2) as nat);
        assert(p * acc2 >= p * (10 * acc)) by (nonlinear_arith)
            requires
                acc2 >= 10 * acc,
                p >= 1,
        {
        }
        assert(p * (10 * acc) == (10 * p) * acc) by (nonlinear_arith) {
        }
        assert(p * acc2 >= NUMERAL_LIMIT);
        let rest = ts.drop_first();
        assert forall|i: int|
            0 <= i < k - 1 implies (#[trigger] rest[i]) is Number && rest[i]->Number_0 <= 9 by {
            assert(rest[i] == ts[i + 1]);
        }
        lemma_digits_blow_up(rest, acc2, (k - 1) as nat);
    }
}

/// Overflow failure: a numeral of twenty or more digits whose first digit is
/// nonzero makes the digit parse fail, never wrap around.
pub proof fn lemma_numeral_overflow(ts: Seq<TokenModel>)
    requires
        ts.len() >= 20,
        forall|i: int| 0 <= i < 20 ==> (#[trigger] ts[i]) is Number && ts[i]->Number_0 <= 9,
        ts[0]->Number_0 >= 1,
    ensures
        spec_digits(ts, 0) is None,
{
    assert(0 < NUMERAL_LIMIT);
    let d = ts[0]->Number_0;
    let rest = ts.drop_first();
    assert(spec_digits(ts, 0) == spec_digits(rest, (10 * 0 + d) as i64));
    assert forall|i: int|
        0 <= i < 19 implies (#[trigger] rest[i]) is Number && rest[i]->Number_0 <= 9 by {
        assert(rest[i] == ts[i + 1]);
    }
    assert(pow10(18) >= NUMERAL_LIMIT) by {
        reveal_with_fuel(pow10, 20);
    }
    assert(pow10(18) * (d as int) >= pow10(18) * 1) by (nonlinear_arith)
        requires
            d >= 1,
            pow10(18) >= 1,
    {
    }
    lemma_digits_blow_up(rest, d as i64, 19);
}

/// The whole pipeline over mathematical values: lex, parse, accumulate,
/// render; no terms at all yield empty text.
pub open spec fn spec_pipeline(input: Seq<char>) -> Option<Seq<char>> {
    match spec_parse_terms(spec_lex(input, Seq::<char>::empty())) {
        None => None::<Seq<char>>,
        Some(ms) => Some(
            if ms.len() == 0 {
                Seq::<char>::empty()
            } else {
                spec_render(spec_accumulate(ms))
            },
        ),
    }
}

/// The digit tokens of a run of digit characters.
pub open spec fn num_tokens(s: Seq<char>) -> Seq<TokenModel> {
    s.map_values(|c: char| TokenModel::Number(crate::lexer::digit_val(c)))
}

proof fn lemma_lex_all_digits(s: Seq<char>)
    requires
        forall|i: int| 0 <= i < s.len() ==> crate::lexer::is_digit_char(#[trigger] s[i]),
    ensures
        spec_lex(s, Seq::<char>::empty()) == num_tokens(s),
    decreases s.len(),
{
    if s.len() == 0 {
        assert(spec_lex(s, Seq::<char>::empty()) =~= num_tokens(s));
    } else {
        let c = s[0];
        assert(crate::lexer::is_digit_char(c));
        assert(!crate::lexer::is_space_char(c));
        assert(!crate::lexer::is_symbol_char(c));
        assert(!crate::lexer::is_keyword(Seq::<char>::empty())) by {
            assert(seq!['a', 'b', 's'].len() == 3);
            assert(seq!['s', 'q', 'r', 't'].len() == 4);
            assert(seq!['p', 'o', 'w'].len() == 3);
            assert(seq!['p', 'i'].len() == 2);
            assert(seq!['e'].len() == 1);
        }
        assert forall|i: int|
            0 <= i < s.drop_first().len()
                implies crate::lexer::is_digit_char(#[trigger] s.drop_first()[i]) by {
            assert(s.drop_first()[i] == s[i + 1]);
        }
        lemma_lex_all_digits(s.drop_first());
        assert(spec_lex(s, Seq::<char>::empty()) =~= num_tokens(s));
    }
}

proof fn lemma_dec_digits_are_digits(n: int)
    requires
        0 <= n,
    ensures
        dec_digits(n).len() >= 1,
        forall|i: int|
            0 <= i < dec_digits(n).len() ==> crate::lexer::is_digit_char(
                #[trigger] dec_digits(n)[i],
            ) && crate::lexer::digit_val(dec_digits(n)[i]) < 10,
    decreases n,
{
    if n < 10 {
        assert(dec_digits(n) =~= seq![digit_char(n)]);
        assert(crate::lexer::is_digit_char(digit_char(n)));
        assert(crate::lexer::digit_val(digit_char(n)) == n);
    } else {
        lemma_dec_digits_are_digits(n / 10);
        assert(dec_digits(n) == dec_digits(n / 10).push(digit_char(n % 10)));
        assert(crate::lexer::is_digit_char(digit_char(n % 10)));
        assert(crate::lexer::digit_val(digit_char(n % 10)) == n % 10);
        assert forall|i: int|
            0 <= i < dec_digits(n).len() implies crate::lexer::is_digit_char(
                #[trigger] dec_digits(n)[i],
            ) && crate::lexer::digit_val(dec_digits(n)[i]) < 10 by {
            if i < dec_digits(n / 10).len() {
                assert(dec_digits(n)[i] == dec_digits(n / 10)[i]);
            } else {
                assert(dec_digits(n)[i] == digit_char(n % 10));
            }
        }
    }
}

/// The largest value a digit run may accumulate to without failing.
pub open spec fn max_numeral() -> int {
    10 * (NUMERAL_LIMIT - 1) + 9
}

proof fn lemma_digits_consume(n: int, acc: i64, rest: Seq<TokenModel>)
    requires
        0 <= n,
        0 <= acc,
        acc * pow10(dec_digits(n).len() as nat) + n <= max_numeral(),
    ensures
        0 <= acc * pow10(dec_digits(n).len() as nat) + n,
        spec_digits(num_tokens(dec_digits(n)) + rest, acc) == spec_digits(
            rest,
            (acc * pow10(dec_digits(n).len() as nat) + n) as i64,
        ),
    decreases n,
{
    lemma_dec_digits_are_digits(n);
    let l = dec_digits(n).len() as nat;
    let p = pow10(l);
    lemma_pow10_pos(l);
    assert(0 <= acc * p) by (nonlinear_arith)
        requires
            0 <= acc,
            1 <= p,
    {
    }
    if n < 10 {
        assert(dec_digits(n) =~= seq![digit_char(n)]);
        assert(l == 1);
        assert(p == 10) by {
            assert(pow10(1) == 10 * pow10(0));
        }
        let ts = num_tokens(dec_digits(n)) + rest;
        assert(ts.len() == 1 + rest.len());
        assert(ts[0] == TokenModel::Number(crate::lexer::digit_val(digit_char(n))));
        assert(crate::lexer::digit_val(digit_char(n)) == n);
        assert(acc < NUMERAL_LIMIT) by {
            assert(acc * 10 + n <= max_numeral());
        }
        assert(ts.drop_first() =~= rest);
        assert(spec_digits(ts, acc) == spec_digits(rest, (10 * acc + n) as i64));
        assert(10 * acc + n == acc * p + n);
    } else {
        let m = n / 10;
        let d = n % 10;
        assert(dec_digits(n) == dec_digits(m).push(digit_char(d)));
        let l1 = dec_digits(m).len() as nat;
        assert(l == l1 + 1);
        let p1 = pow10(l1);
        lemma_pow10_pos(l1);
        assert(p == 10 * p1);
        assert(num_tokens(dec_digits(n)) + rest =~= num_tokens(dec_digits(m)) + (seq![
            TokenModel::Number(d as u64),
        ] + rest)) by {
            assert(crate::lexer::digit_val(digit_char(d)) == d);
            assert forall|i: int|
                0 <= i < dec_digits(n).len() implies (#[trigger] num_tokens(dec_digits(n))[i])
                    == (num_tokens(dec_digits(m)) + (seq![TokenModel::Number(d as u64)] + rest))[i] by {
                if i < dec_digits(m).len() {
                    assert(dec_digits(n)[i] == dec_digits(m)[i]);
                } else {
                    assert(dec_digits(n)[i] == digit_char(d));
                }
            }
        }
        let a1 = acc * p1 + m;
        assert(10 * a1 + d == acc * p + n) by (nonlinear_arith)
            requires
                a1 == acc * p1 + m,
                p == 10 * p1,
                n == 10 * m + d,
        {
        }
        assert(a1 * 10 + d <= max_numeral());
        assert(0 <= a1) by (nonlinear_arith)
            requires
                a1 == acc * p1 + m,
                0 <= acc,
                1 <= p1,
                0 <= m,
        {
        }
        assert(acc * p1 + m <= max_numeral()) by {
            assert(10 * a1 <= 10 * a1 + d);
        }
        lemma_digits_consume(m, acc, seq![TokenModel::Number(d as u64)] + rest);
        assert(spec_digits(num_tokens(dec_digits(n)) + rest, acc) == spec_digits(
            seq![TokenModel::Number(d as u64)] + rest,
            a1 as i64,
        ));
        let ts2 = seq![TokenModel::Number(d as u64)] + rest;
        assert(ts2[0] == TokenModel::Number(d as u64));
        assert(a1 < NUMERAL_LIMIT) by {
            assert(10 * a1 + d <= max_numeral());
        }
        assert(ts2.drop_first() =~= rest);
        assert(spec_digits(ts2, a1 as i64) == spec_digits(rest, (10 * a1 + d) as i64));
    }
}

/// Round-trip idempotence for constant expressions: the rendering of any
/// constant within the supported numeral range is a fixed point of the
/// pipeline. (Rendered coefficients past that range re-parse as overflow,
/// and an entry cancelled to zero beside a nonzero one renders with a zero
/// coefficient that a re-parse drops, so the law is stated for constants.)
pub proof fn lemma_constant_round_trip(n: i64)
    requires
        -max_numeral() <= n <= max_numeral(),
    ensures
        spec_pipeline(int_chars(n as int)) == Some(int_chars(n as int)),
{
    let mag: int = if n < 0 { -(n as int) } else { n as int };
    let digits = dec_digits(mag);
    lemma_dec_digits_are_digits(mag);
    let dtoks = num_tokens(digits);
    lemma_lex_all_digits(digits);
    let toks: Seq<TokenModel> = if n < 0 {
        seq![TokenModel::Symbol('-')] + dtoks
    } else {
        dtoks
    };
    assert(spec_lex(int_chars(n as int), Seq::<char>::empty()) == toks) by {
        if n < 0 {
            let text = int_chars(n as int);
            assert(text == seq!['-'] + digits);
            assert(text[0] == '-');
            assert(crate::lexer::is_symbol_char('-'));
            assert(!crate::lexer::is_space_char('-'));
            assert(text.drop_first() =~= digits);
            assert(spec_lex(text, Seq::<char>::empty()) =~= seq![TokenModel::Symbol('-')]
                + spec_lex(digits, Seq::<char>::empty()));
        }
    }
    // the sign run folds to the sign of n
    let (sgn, ts1) = spec_get_sign(toks);
    assert(dtoks.len() == digits.len());
    assert(dtoks[0] is Number);
    assert((sgn, ts1) == ((n >= 0), dtoks)) by {
        if n < 0 {
            assert(toks[0] == TokenModel::Symbol('-'));
            assert(toks.drop_first() =~= dtoks);
            assert(spec_get_sign(dtoks) == (true, dtoks));
        }
    }
    // the digit run accumulates back to the magnitude
    lemma_pow10_pos(digits.len() as nat);
    assert(0 * pow10(digits.len() as nat) == 0) by (nonlinear_arith) {
    }
    lemma_digits_consume(mag, 0, Seq::<TokenModel>::empty());
    assert(dtoks + Seq::<TokenModel>::empty() =~= dtoks);
    assert(spec_digits(dtoks, 0) == Some((mag as i64, Seq::<TokenModel>::empty())));
    // so the constant parse yields n with a digit consumed
    let c = crate::parser::spec_constant(toks);
    assert(c == Some((n, Seq::<TokenModel>::empty(), true))) by {
        if n >= 0 {
            assert(mag == n as int);
        } else {
            assert(-mag == n as int);
        }
        assert(dtoks.len() >= 1);
    }
    // one term, no variables, coefficient n
    let t = TermModel { coeff: n, vars: Seq::<(char, i64)>::empty() };
    assert(crate::parser::spec_term(toks) == Some((t, Seq::<TokenModel>::empty()))) by {
        assert(crate::parser::spec_variables(Seq::<TokenModel>::empty()) == Some(
            (Seq::<(char, i64)>::empty(), Seq::<TokenModel>::empty()),
        ));
        assert(toks.len() >= 1);
    }
    assert(spec_parse_terms(toks) == Some(seq![t])) by {
        assert(spec_parse_terms(Seq::<TokenModel>::empty()) == Some(Seq::<TermModel>::empty()));
        assert(seq![t] + Seq::<TermModel>::empty() =~= seq![t]);
    }
    // accumulate the single term and render it
    let ms = seq![t];
    let m = spec_accumulate(ms);
    assert(ms.drop_last() =~= Seq::<TermModel>::empty());
    assert(ms.last() == t);
    assert(spec_accumulate(Seq::<TermModel>::empty()) == Map::<Seq<(char, i64)>, int>::empty());
    assert(m == acc_step()(spec_accumulate(ms.drop_last()), t));
    assert(m == acc_step()(Map::<Seq<(char, i64)>, int>::empty(), t));
    let esig = Seq::<(char, i64)>::empty();
    assert(sig_of(t) =~= esig) by {
        crate::expression::lemma_var_order_total();
        t.vars.lemma_sort_by_ensures(crate::expression::var_order());
        vstd::seq_lib::to_multiset_len(t.vars);
        vstd::seq_lib::to_multiset_len(sig_of(t));
    }
    if n == 0 {
        assert(m == Map::<Seq<(char, i64)>, int>::empty());
        assert(m.dom() =~= Set::<Seq<(char, i64)>>::empty());
        assert(m.dom().len() == 0);
        assert(spec_render(m) == seq!['0']);
        assert(int_chars(0) == dec_digits(0));
        assert(dec_digits(0) =~= seq![digit_char(0)]);
        assert(digit_char(0) == '0');
        assert(seq!['0'] =~= int_chars(0));
    } else {
        assert(m == Map::<Seq<(char, i64)>, int>::empty().insert(esig, n as int));
        assert(m.dom() =~= Set::<Seq<(char, i64)>>::empty().insert(esig));
        assert(m.dom().finite());
        assert(m.dom().len() == 1);
        assert(!all_zero(m)) by {
            assert(m.dom().contains(esig) && m[esig] == n as int);
        }
        lemma_render_order(m);
        let sigs = crate::expression::sorted_sigs(m);
        assert(sigs.len() == 1);
        assert(sigs[0] == esig) by {
            assert(sigs.contains(sigs[0]));
            assert(sigs.to_set().contains(sigs[0]));
        }
        assert(crate::interpreter::render_entries(sigs, m) == crate::interpreter::render_entry(
            esig,
            n as int,
        ));
        assert(crate::interpreter::render_sig(esig) =~= Seq::<char>::empty());
        assert(crate::interpreter::render_entry(esig, n as int) =~= int_chars(n as int));
        assert(spec_render(m) == int_chars(n as int));
    }
}

} // verus!
