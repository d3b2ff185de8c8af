use vstd::prelude::*;

use vstd::relations::total_ordering;
use vstd::relations::sorted_by;
use vstd::seq_lib::group_to_multiset_ensures;

verus! {

/// The order of the (name, exponent) pairs inside one monomial signature:
/// variable name ascending, then exponent ascending.
pub open spec fn var_le(a: (char, i64), b: (char, i64)) -> bool {
    a.0 < b.0 || (a.0 == b.0 && a.1 <= b.1)
}

pub open spec fn var_order() -> spec_fn((char, i64), (char, i64)) -> bool {
    |a: (char, i64), b: (char, i64)| var_le(a, b)
}

pub proof fn lemma_var_order_total()
    ensures
        total_ordering(var_order()),
{
    let r = var_order();
    assert forall|x: (char, i64)| #[trigger] r(x, x) by {
        assert(var_le(x, x));
    }
    assert forall|x: (char, i64), y: (char, i64)| #[trigger] r(x, y) && #[trigger] r(y, x)
        implies x == y by {
        assert(var_le(x, y) && var_le(y, x));
    }
    assert forall|x: (char, i64), y: (char, i64), z: (char, i64)|
        #[trigger] r(x, y) && #[trigger] r(y, z) implies r(x, z) by {
        assert(var_le(x, y) && var_le(y, z));
        assert(var_le(x, z));
    }
    assert forall|x: (char, i64), y: (char, i64)| #[trigger] r(x, y) || #[trigger] r(y, x) by {
        assert(var_le(x, y) || var_le(y, x));
    }
}

/// Lexicographic comparison of two non-empty signatures, position by
/// position: name ascending, then exponent descending; when one signature is
/// a prefix of the other, the shorter one comes first.
pub open spec fn lex_le(a: Seq<(char, i64)>, b: Seq<(char, i64)>) -> bool
    decreases a.len(),
{
    if a.len() == 0 || b.len() == 0 {
        a.len() <= b.len()
    } else if a[0].0 != b[0].0 {
        a[0].0 < b[0].0
    } else if a[0].1 != b[0].1 {
        b[0].1 < a[0].1
    } else {
        lex_le(a.drop_first(), b.drop_first())
    }
}

/// The order in which signatures are rendered: the empty (constant)
/// signature last, all others lexicographically by `lex_le`.
pub open spec fn sig_le(a: Seq<(char, i64)>, b: Seq<(char, i64)>) -> bool {
    if a.len() == 0 || b.len() == 0 {
        b.len() <= a.len()
    } else {
        lex_le(a, b)
    }
}

pub open spec fn sig_order() -> spec_fn(Seq<(char, i64)>, Seq<(char, i64)>) -> bool {
    |a: Seq<(char, i64)>, b: Seq<(char, i64)>| sig_le(a, b)
}

proof fn lemma_lex_le_refl(a: Seq<(char, i64)>)
    ensures
        lex_le(a, a),
    decreases a.len(),
{
    if a.len() > 0 {
        lemma_lex_le_refl(a.drop_first());
    }
}

proof fn lemma_lex_le_conn(a: Seq<(char, i64)>, b: Seq<(char, i64)>)
    ensures
        lex_le(a, b) || lex_le(b, a),
    decreases a.len(),
{
    if a.len() == 0 || b.len() == 0 {
    } else if a[0].0 != b[0].0 {
    } else if a[0].1 != b[0].1 {
    } else {
        lemma_lex_le_conn(a.drop_first(), b.drop_first());
    }
}

proof fn lemma_lex_le_antisym(a: Seq<(char, i64)>, b: Seq<(char, i64)>)
    requires
        lex_le(a, b),
        lex_le(b, a),
    ensures
        a == b,
    decreases a.len(),
{
    if a.len() == 0 || b.len() == 0 {
        assert(a.len() == b.len());
        assert(a =~= b);
    } else {
        assert(a[0].0 == b[0].0);
        assert(a[0].1 == b[0].1);
        lemma_lex_le_antisym(a.drop_first(), b.drop_first());
        assert forall|k: int| 0 <= k < a.len() implies a[k] == b[k] by {
            if k > 0 {
                assert(a.drop_first()[k - 1] == b.drop_first()[k - 1]);
            }
        }
        assert(a =~= b);
    }
}

proof fn lemma_lex_le_trans(a: Seq<(char, i64)>, b: Seq<(char, i64)>, c: Seq<(char, i64)>)
    requires
        lex_le(a, b),
        lex_le(b, c),
    ensures
        lex_le(a, c),
    decreases a.len(),
{
    if a.len() == 0 {
    } else if b.len() == 0 || c.len() == 0 {
    } else {
        if a[0].0 == b[0].0 && a[0].1 == b[0].1 && b[0].0 == c[0].0 && b[0].1 == c[0].1 {
            lemma_lex_le_trans(a.drop_first(), b.drop_first(), c.drop_first());
        }
    }
}

pub proof fn lemma_sig_le_conn(a: Seq<(char, i64)>, b: Seq<(char, i64)>)
    ensures
        sig_le(a, b) || sig_le(b, a),
{
    if a.len() == 0 || b.len() == 0 {
    } else {
        lemma_lex_le_conn(a, b);
    }
}

pub proof fn lemma_sig_le_trans(a: Seq<(char, i64)>, b: Seq<(char, i64)>, c: Seq<(char, i64)>)
    requires
        sig_le(a, b),
        sig_le(b, c),
    ensures
        sig_le(a, c),
{
    if c.len() == 0 {
    } else if b.len() == 0 {
        assert(c.len() == 0);
    } else if a.len() == 0 {
        assert(b.len() == 0);
    } else {
        lemma_lex_le_trans(a, b, c);
    }
}

pub proof fn lemma_sig_order_total()
    ensures
        total_ordering(sig_order()),
{
    let r = sig_order();
    assert forall|x: Seq<(char, i64)>| #[trigger] r(x, x) by {
        lemma_lex_le_refl(x);
    }
    assert forall|x: Seq<(char, i64)>, y: Seq<(char, i64)>|
        #[trigger] r(x, y) && #[trigger] r(y, x) implies x == y by {
        if x.len() == 0 || y.len() == 0 {
            assert(x.len() == y.len());
            assert(x =~= y);
        } else {
            lemma_lex_le_antisym(x, y);
        }
    }
    assert forall|x: Seq<(char, i64)>, y: Seq<(char, i64)>, z: Seq<(char, i64)>|
        #[trigger] r(x, y) && #[trigger] r(y, z) implies r(x, z) by {
        if z.len() == 0 {
        } else if y.len() == 0 {
            assert(z.len() == 0);
        } else if x.len() == 0 {
            assert(y.len() == 0);
        } else {
            lemma_lex_le_trans(x, y, z);
        }
    }
    assert forall|x: Seq<(char, i64)>, y: Seq<(char, i64)>| #[trigger] r(x, y) || #[trigger] r(
        y,
        x,
    ) by {
        if x.len() == 0 || y.len() == 0 {
        } else {
            lemma_lex_le_conn(x, y);
        }
    }
}

fn var_le_exec(a: (char, i64), b: (char, i64)) -> (r: bool)
    ensures
        r == var_le(a, b),
{
    a.0 < b.0 || (a.0 == b.0 && a.1 <= b.1)
}

fn lex_le_exec(a: &Vec<(char, i64)>, b: &Vec<(char, i64)>, k: usize) -> (r: bool)
    requires
        k <= a.len(),
        k <= b.len(),
    ensures
        r == lex_le(a@.skip(k as int), b@.skip(k as int)),
    decreases a.len() - k,
{
    proof {
        assert(a@.skip(k as int).len() == a@.len() - k);
        assert(b@.skip(k as int).len() == b@.len() - k);
    }
    if k == a.len() || k == b.len() {
        a.len() - k <= b.len() - k
    } else {
        let pa = a[k];
        let pb = b[k];
        proof {
            assert(a@.skip(k as int)[0] == a@[k as int]);
            assert(b@.skip(k as int)[0] == b@[k as int]);
            assert(a@.skip(k as int).drop_first() =~= a@.skip(k + 1));
            assert(b@.skip(k as int).drop_first() =~= b@.skip(k + 1));
        }
        if pa.0 != pb.0 {
            pa.0 < pb.0
        } else if pa.1 != pb.1 {
            pb.1 < pa.1
        } else {
            lex_le_exec(a, b, k + 1)
        }
    }
}

fn sig_le_exec(a: &Vec<(char, i64)>, b: &Vec<(char, i64)>) -> (r: bool)
    ensures
        r == sig_le(a@, b@),
{
    if a.len() == 0 || b.len() == 0 {
        b.len() <= a.len()
    } else {
        proof {
            assert(a@.skip(0) =~= a@);
            assert(b@.skip(0) =~= b@);
        }
        lex_le_exec(a, b, 0)
    }
}

/// Copies a signature.
pub(crate) fn clone_sig(v: &Vec<(char, i64)>) -> (r: Vec<(char, i64)>)
    ensures
        r@ == v@,
{
    let mut r: Vec<(char, i64)> = Vec::new();
    let mut i: usize = 0;
    while i < v.len()
        invariant
            i <= v.len(),
            r@ == v@.take(i as int),
        decreases v.len() - i,
    {
        r.push(v[i]);
        proof {
            assert(v@.take(i + 1) =~= v@.take(i as int).push(v@[i as int]));
        }
        i = i + 1;
    }
    proof {
        assert(v@.take(v@.len() as int) =~= v@);
    }
    r
}

/// Sorts the (name, exponent) pairs of one term by `var_le`, by insertion.
pub(crate) fn sort_vars(input: Vec<(char, i64)>) -> (out: Vec<(char, i64)>)
    ensures
        out@ == input@.sort_by(var_order()),
{
    broadcast use group_to_multiset_ensures;

    proof {
        lemma_var_order_total();
    }
    let mut out: Vec<(char, i64)> = Vec::new();
    let mut i: usize = 0;
    proof {
        assert(input@.take(0) =~= Seq::<(char, i64)>::empty());
        assert(input@.take(0).to_multiset() =~= out@.to_multiset());
    }
    while i < input.len()
        invariant
            i <= input.len(),
            sorted_by(out@, var_order()),
            out@.to_multiset() == input@.take(i as int).to_multiset(),
        decreases input.len() - i,
    {
        broadcast use group_to_multiset_ensures;

        let x = input[i];
        let mut k: usize = 0;
        while k < out.len() && var_le_exec(out[k], x)
            invariant
                k <= out.len(),
                forall|j: int| 0 <= j < k ==> var_le(out@[j], x),
            decreases out.len() - k,
        {
            k = k + 1;
        }
        let ghost out0 = out@;
        out.insert(k, x);
        proof {
            lemma_var_order_total();
            assert forall|p: int, q: int| 0 <= p < q < out@.len() implies var_order()(
                out@[p],
                out@[q],
            ) by {
                if q < k {
                    assert(out@[p] == out0[p] && out@[q] == out0[q]);
                } else if p > k {
                    assert(out@[p] == out0[p - 1] && out@[q] == out0[q - 1]);
                } else if q == k {
                    assert(out@[p] == out0[p]);
                    assert(var_le(out0[p], x));
                } else if p == k {
                    assert(out@[q] == out0[q - 1]);
                    assert(!var_le(out0[k as int], x));
                    assert(var_le(x, out0[k as int]));
                    assert(var_order()(out0[k as int], out0[q - 1]) || k == q - 1);
                    assert(var_le(x, out0[q - 1]));
                } else {
                    assert(out@[p] == out0[p]);
                    assert(out@[q] == out0[q - 1]);
                    assert(var_le(out0[p], x));
                    assert(!var_le(out0[k as int], x));
                    assert(var_le(x, out0[k as int]));
                    assert(var_order()(out0[p], out0[q - 1]) || p == q - 1);
                }
            }
            assert(sorted_by(out@, var_order()));
            assert(input@.take(i + 1) =~= input@.take(i as int).push(input@[i as int]));
            assert(out@.to_multiset() == input@.take(i + 1).to_multiset());
        }
        i = i + 1;
    }
    proof {
        assert(input@.take(input@.len() as int) =~= input@);
        lemma_var_order_total();
        input@.lemma_sort_by_ensures(var_order());
        vstd::seq_lib::lemma_sorted_unique(out@, input@.sort_by(var_order()), var_order());
    }
    out
}

/// Sorts a list of signatures by `sig_le`, by insertion.
pub(crate) fn sort_sigs(input: Vec<Vec<(char, i64)>>) -> (out: Vec<Vec<(char, i64)>>)
    ensures
        out@.map_values(|v: Vec<(char, i64)>| v@) == input@.map_values(|v: Vec<(char, i64)>| v@)
            .sort_by(sig_order()),
{
    broadcast use group_to_multiset_ensures;

    proof {
        lemma_sig_order_total();
    }
    let ghost iview = input@.map_values(|v: Vec<(char, i64)>| v@);
    let mut out: Vec<Vec<(char, i64)>> = Vec::new();
    let mut i: usize = 0;
    proof {
        assert(out@.map_values(|v: Vec<(char, i64)>| v@) =~= Seq::<Seq<(char, i64)>>::empty());
        assert(iview.take(0) =~= Seq::<Seq<(char, i64)>>::empty());
        assert(iview.take(0).to_multiset() =~= out@.map_values(
            |v: Vec<(char, i64)>| v@,
        ).to_multiset());
    }
    while i < input.len()
        invariant
            i <= input.len(),
            iview == input@.map_values(|v: Vec<(char, i64)>| v@),
            iview.len() == input@.len(),
            sorted_by(out@.map_values(|v: Vec<(char, i64)>| v@), sig_order()),
            out@.map_values(|v: Vec<(char, i64)>| v@).to_multiset() == iview.take(
                i as int,
            ).to_multiset(),
        decreases input.len() - i,
    {
        broadcast use group_to_multiset_ensures;

        let ghost oview0 = out@.map_values(|v: Vec<(char, i64)>| v@);
        let x = clone_sig(&input[i]);
        let ghost xv = x@;
        proof {
            assert(xv == iview[i as int]);
        }
        let mut k: usize = 0;
        while k < out.len() && sig_le_exec(&out[k], &x)
            invariant
                k <= out.len(),
                oview0 == out@.map_values(|v: Vec<(char, i64)>| v@),
                forall|j: int| 0 <= j < k ==> sig_le(oview0[j], xv),
                xv == x@,
            decreases out.len() - k,
        {
            proof {
                assert(oview0[k as int] == out@[k as int]@);
            }
            k = k + 1;
        }
        proof {
            if k < out.len() {
                assert(oview0[k as int] == out@[k as int]@);
            }
        }
        out.insert(k, x);
        proof {
            lemma_sig_order_total();
            let oview = out@.map_values(|v: Vec<(char, i64)>| v@);
            assert(oview =~= oview0.insert(k as int, xv));
            assert forall|p: int, q: int| 0 <= p < q < oview.len() implies sig_order()(
                oview[p],
                oview[q],
            ) by {
                if q < k {
                    assert(oview[p] == oview0[p] && oview[q] == oview0[q]);
                } else if p > k {
                    assert(oview[p] == oview0[p - 1] && oview[q] == oview0[q - 1]);
                } else if q == k {
                    assert(oview[p] == oview0[p]);
                    assert(sig_le(oview0[p], xv));
                } else if p == k {
                    assert(oview[q] == oview0[q - 1]);
                    assert(!sig_le(oview0[k as int], xv));
                    lemma_sig_le_conn(oview0[k as int], xv);
                    assert(sig_le(xv, oview0[k as int]));
                    assert(sig_order()(oview0[k as int], oview0[q - 1]) || k == q - 1);
                    lemma_sig_le_trans(xv, oview0[k as int], oview0[q - 1]);
                    assert(sig_le(xv, oview0[q - 1]));
                } else {
                    assert(oview[p] == oview0[p]);
                    assert(oview[q] == oview0[q - 1]);
                    assert(sig_le(oview0[p], xv));
                    assert(!sig_le(oview0[k as int], xv));
                    lemma_sig_le_conn(oview0[k as int], xv);
                    assert(sig_le(xv, oview0[k as int]));
                    assert(sig_order()(oview0[p], oview0[q - 1]) || p == q - 1);
                }
            }
            assert(sorted_by(oview, sig_order()));
            assert(oview.to_multiset() == oview0.to_multiset().insert(xv)) by {
                vstd::seq_lib::to_multiset_insert(oview0, k as int, xv);
            }
            assert(iview.take(i + 1) =~= iview.take(i as int).push(iview[i as int]));
            assert(oview.to_multiset() == iview.take(i + 1).to_multiset());
        }
        i = i + 1;
    }
    proof {
        assert(iview.take(iview.len() as int) =~= iview);
        lemma_sig_order_total();
        iview.lemma_sort_by_ensures(sig_order());
        vstd::seq_lib::lemma_sorted_unique(
            out@.map_values(|v: Vec<(char, i64)>| v@),
            iview.sort_by(sig_order()),
            sig_order(),
        );
    }
    out
}

/// One accumulation step on the canonical map: a zero coefficient changes
/// nothing; otherwise the coefficient is added to the signature's entry,
/// which starts at zero when absent.
pub open spec fn spec_add(
    m: Map<Seq<(char, i64)>, int>,
    sig: Seq<(char, i64)>,
    c: int,
) -> Map<Seq<(char, i64)>, int> {
    if c == 0 {
        m
    } else {
        m.insert(
            sig,
            (if m.dom().contains(sig) {
                m[sig]
            } else {
                0int
            }) + c,
        )
    }
}

/// The signature of each entry of an association list.
pub open spec fn keys_of(s: Seq<(Seq<(char, i64)>, i128)>) -> Seq<Seq<(char, i64)>> {
    s.map_values(|e: (Seq<(char, i64)>, i128)| e.0)
}

/// The map an association list stands for; a later entry for the same key
/// would win, though well-formed lists have no duplicate keys.
pub open spec fn entries_map(s: Seq<(Seq<(char, i64)>, i128)>) -> Map<Seq<(char, i64)>, int>
    decreases s.len(),
{
    if s.len() == 0 {
        Map::<Seq<(char, i64)>, int>::empty()
    } else {
        entries_map(s.drop_last()).insert(s.last().0, s.last().1 as int)
    }
}

/// With no duplicate keys, an association list's map has exactly its keys as
/// domain and each entry's value at its key.
pub proof fn lemma_entries_map(s: Seq<(Seq<(char, i64)>, i128)>)
    requires
        keys_of(s).no_duplicates(),
    ensures
        entries_map(s).dom() == keys_of(s).to_set(),
        forall|i: int|
            0 <= i < s.len() ==> entries_map(s)[(#[trigger] s[i]).0] == s[i].1 as int,
    decreases s.len(),
{
    if s.len() == 0 {
        assert(entries_map(s).dom() =~= keys_of(s).to_set());
    } else {
        let s0 = s.drop_last();
        assert(keys_of(s0) =~= keys_of(s).drop_last());
        assert(keys_of(s0).no_duplicates()) by {
            assert forall|p: int, q: int|
                0 <= p < q < keys_of(s0).len() implies keys_of(s0)[p] != keys_of(s0)[q] by {
                assert(keys_of(s)[p] == keys_of(s0)[p]);
                assert(keys_of(s)[q] == keys_of(s0)[q]);
            }
        }
        lemma_entries_map(s0);
        assert(keys_of(s)[s.len() - 1] == s.last().0);
        assert(entries_map(s).dom() =~= keys_of(s).to_set()) by {
            assert forall|k: Seq<(char, i64)>|
                entries_map(s).dom().contains(k) == keys_of(s).to_set().contains(k) by {
                if keys_of(s).to_set().contains(k) {
                    let i = choose|i: int| 0 <= i < keys_of(s).len() && keys_of(s)[i] == k;
                    if i < s.len() - 1 {
                        assert(keys_of(s0)[i] == k);
                        assert(keys_of(s0).to_set().contains(k));
                        assert(entries_map(s0).dom().contains(k));
                        assert(entries_map(s).dom().contains(k));
                    } else {
                        assert(k == s.last().0);
                        assert(entries_map(s).dom().contains(k));
                    }
                }
                if entries_map(s).dom().contains(k) {
                    if k == s.last().0 {
                        assert(keys_of(s).contains(k));
                        assert(keys_of(s).to_set().contains(k));
                    } else {
                        assert(entries_map(s0).dom().contains(k));
                        assert(keys_of(s0).to_set().contains(k));
                        let i = choose|i: int| 0 <= i < keys_of(s0).len() && keys_of(s0)[i] == k;
                        assert(keys_of(s)[i] == k);
                        assert(keys_of(s).to_set().contains(k));
                    }
                }
            }
        }
        assert forall|i: int|
            0 <= i < s.len() implies entries_map(s)[(#[trigger] s[i]).0] == s[i].1 as int by {
            if i < s.len() - 1 {
                assert(s0[i] == s[i]);
                assert(entries_map(s0)[s0[i].0] == s0[i].1 as int);
                assert(keys_of(s)[i] == s[i].0);
                assert(keys_of(s).last() == s.last().0);
                assert(s[i].0 != s.last().0);
            }
        }
    }
}

/// The signatures of a canonical map, in render order: sorted by `sig_le`.
pub open spec fn sorted_sigs(m: Map<Seq<(char, i64)>, int>) -> Seq<Seq<(char, i64)>> {
    m.dom().to_seq().sort_by(sig_order())
}

/// A finite set's sequence conversion has no duplicates and exactly the
/// set's elements.
proof fn lemma_set_to_seq_props(s: Set<Seq<(char, i64)>>)
    requires
        s.finite(),
    ensures
        s.to_seq().no_duplicates(),
        s.to_seq().to_set() == s,
    decreases s.len(),
{
    broadcast use vstd::set_lib::group_set_lib_default, vstd::set::group_set_axioms;

    if s.len() == 0 {
        assert(s.to_seq() =~= Seq::<Seq<(char, i64)>>::empty());
        assert(s.to_seq().to_set() =~= s);
    } else {
        let x = s.choose();
        lemma_set_to_seq_props(s.remove(x));
        assert(s.to_seq() =~= seq![x] + s.remove(x).to_seq());
        assert forall|k: int|
            0 <= k < s.remove(x).to_seq().len() implies #[trigger] s.to_seq()[k + 1] != x by {
            assert(s.remove(x).to_seq()[k] == s.to_seq()[k + 1]);
            assert(s.remove(x).to_seq().to_set().contains(s.remove(x).to_seq()[k]));
        }
        assert(s.to_seq().no_duplicates()) by {
            assert forall|p: int, q: int|
                0 <= p < q < s.to_seq().len() implies s.to_seq()[p] != s.to_seq()[q] by {
                if p == 0 {
                    assert(s.to_seq()[q] == s.remove(x).to_seq()[q - 1]);
                    assert(s.remove(x).to_seq().to_set().contains(s.to_seq()[q]));
                } else {
                    assert(s.to_seq()[p] == s.remove(x).to_seq()[p - 1]);
                    assert(s.to_seq()[q] == s.remove(x).to_seq()[q - 1]);
                }
            }
        }
        assert(s.to_seq().to_set() =~= s) by {
            assert forall|k: Seq<(char, i64)>|
                s.to_seq().to_set().contains(k) == s.contains(k) by {
                if s.contains(k) {
                    if k == x {
                        assert(s.to_seq()[0] == x);
                        assert(s.to_seq().contains(x));
                    } else {
                        assert(s.remove(x).to_seq().to_set().contains(k));
                        let i = choose|i: int|
                            0 <= i < s.remove(x).to_seq().len() && s.remove(x).to_seq()[i] == k;
                        assert(s.to_seq()[i + 1] == k);
                    }
                }
                if s.to_seq().contains(k) {
                    let i = choose|i: int| 0 <= i < s.to_seq().len() && s.to_seq()[i] == k;
                    if i > 0 {
                        assert(s.remove(x).to_seq()[i - 1] == k);
                        assert(s.remove(x).to_seq().to_set().contains(k));
                    }
                }
            }
        }
    }
}

/// Two duplicate-free sequences over the same element set are equal as
/// multisets.
proof fn lemma_nodup_same_set_multiset(a: Seq<Seq<(char, i64)>>, b: Seq<Seq<(char, i64)>>)
    requires
        a.no_duplicates(),
        b.no_duplicates(),
        a.to_set() == b.to_set(),
    ensures
        a.to_multiset() == b.to_multiset(),
{
    broadcast use group_to_multiset_ensures;

    a.lemma_multiset_has_no_duplicates();
    b.lemma_multiset_has_no_duplicates();
    assert forall|x: Seq<(char, i64)>| a.to_multiset().count(x) == b.to_multiset().count(x) by {
        assert(a.to_multiset().contains(x) == a.contains(x));
        assert(b.to_multiset().contains(x) == b.contains(x));
        assert(a.contains(x) == a.to_set().contains(x));
        assert(b.contains(x) == b.to_set().contains(x));
        if a.to_multiset().count(x) > 0 || b.to_multiset().count(x) > 0 {
            assert(a.to_multiset().count(x) == 1 && b.to_multiset().count(x) == 1);
        }
    }
    assert(a.to_multiset() =~= b.to_multiset());
}

/// What `sorted_sigs` yields: the domain's members, each once, in sorted
/// order.
pub proof fn lemma_sorted_sigs(m: Map<Seq<(char, i64)>, int>)
    requires
        m.dom().finite(),
    ensures
        sorted_by(sorted_sigs(m), sig_order()),
        sorted_sigs(m).to_set() == m.dom(),
        sorted_sigs(m).no_duplicates(),
        sorted_sigs(m).len() == m.dom().len(),
    decreases m.dom().len(),
{
    broadcast use group_to_multiset_ensures;

    lemma_sig_order_total();
    lemma_set_to_seq_props(m.dom());
    m.dom().to_seq().lemma_sort_by_ensures(sig_order());
    let sorted = sorted_sigs(m);
    let base = m.dom().to_seq();
    base.lemma_multiset_has_no_duplicates();
    assert(sorted.no_duplicates()) by {
        sorted.lemma_multiset_has_no_duplicates_conv();
    }
    assert(sorted.to_set() =~= m.dom()) by {
        assert forall|k: Seq<(char, i64)>| sorted.to_set().contains(k) == m.dom().contains(k) by {
            assert(sorted.contains(k) == sorted.to_multiset().contains(k));
            assert(base.contains(k) == base.to_multiset().contains(k));
            assert(base.to_set().contains(k) == base.contains(k));
        }
    }
    assert(sorted.len() == base.len()) by {
        vstd::seq_lib::to_multiset_len(sorted);
        vstd::seq_lib::to_multiset_len(base);
    }
    assert(base.len() == base.to_set().len()) by {
        base.unique_seq_to_set();
    }
}

/// The canonical result of accumulation: a mapping from monomial signature
/// to aggregated coefficient, with the set of variable names seen.
pub struct ParsedExpression {
    pub terms: Vec<(Vec<(char, i64)>, i128)>,
    variables: Vec<char>,
}

impl ParsedExpression {
    /// The association list's entries, as mathematical values.
    pub closed spec fn entries(&self) -> Seq<(Seq<(char, i64)>, i128)> {
        self.terms@.map_values(|e: (Vec<(char, i64)>, i128)| (e.0@, e.1))
    }

    /// Well-formed: no two entries share a signature, and no variable name
    /// is recorded twice.
    pub closed spec fn wf(&self) -> bool {
        keys_of(self.entries()).no_duplicates() && self.variables@.no_duplicates()
    }

    /// The mapping this value stands for.
    pub closed spec fn map_view(&self) -> Map<Seq<(char, i64)>, int> {
        entries_map(self.entries())
    }

    /// The variable names recorded by `add_term`, in the order first seen.
    pub closed spec fn vars_list(&self) -> Seq<char> {
        self.variables@
    }

    /// The set of variable names recorded by `add_term`.
    pub closed spec fn vars_view(&self) -> Set<char> {
        self.variables@.to_set()
    }

    pub fn new() -> (r: ParsedExpression)
        ensures
            r.wf(),
            r.map_view() == Map::<Seq<(char, i64)>, int>::empty(),
            r.vars_view() == Set::<char>::empty(),
    {
        let r = ParsedExpression { terms: Vec::new(), variables: Vec::new() };
        proof {
            assert(r.entries() =~= Seq::<(Seq<(char, i64)>, i128)>::empty());
            assert(r.vars_view() =~= Set::<char>::empty());
        }
        r
    }

    fn find_sig(&self, term: &Vec<(char, i64)>) -> (r: Option<usize>)
        ensures
            match r {
                Some(idx) => idx < self.terms@.len() && self.entries()[idx as int].0 == term@,
                None => !keys_of(self.entries()).contains(term@),
            },
    {
        let mut i: usize = 0;
        while i < self.terms.len()
            invariant
                i <= self.terms@.len(),
                forall|j: int| 0 <= j < i ==> (#[trigger] self.entries()[j]).0 != term@,
            decreases self.terms@.len() - i,
        {
            if sig_eq(&self.terms[i].0, term) {
                return Some(i);
            }
            i = i + 1;
        }
        proof {
            assert forall|j: int|
                0 <= j < keys_of(self.entries()).len()
                    implies keys_of(self.entries())[j] != term@ by {
                assert((self.entries()[j]).0 != term@);
            }
        }
        None
    }

    /// Adds `coefficient` to the entry for `term`, creating it when absent;
    /// a zero coefficient changes nothing. Every variable name of the term
    /// is recorded in the companion set. The bound in `requires` keeps the
    /// aggregated coefficient within its machine type.
    pub fn add_term(&mut self, term: Vec<(char, i64)>, coefficient: i64)
        requires
            old(self).wf(),
            i128::MIN <= (if old(self).map_view().dom().contains(term@) {
                old(self).map_view()[term@]
            } else {
                0int
            }) + coefficient <= i128::MAX,
        ensures
            final(self).wf(),
            final(self).map_view() == spec_add(old(self).map_view(), term@, coefficient as int),
            final(self).vars_view() == (if coefficient != 0 {
                old(self).vars_view().union(sig_names(term@))
            } else {
                old(self).vars_view()
            }),
    {
        if coefficient != 0 {
            record_names(&mut self.variables, &term);
            proof {
                lemma_entries_map(self.entries());
            }
            let found = self.find_sig(&term);
            match found {
                Some(idx) => {
                    let ghost es0 = self.entries();
                    proof {
                        assert(keys_of(es0)[idx as int] == es0[idx as int].0);
                        assert(keys_of(es0).to_set().contains(term@));
                        assert(old(self).map_view().dom().contains(term@));
                        assert(es0[idx as int].1 as int == old(self).map_view()[term@]);
                    }
                    let cur = self.terms[idx].1;
                    let key_copy = clone_sig(&self.terms[idx].0);
                    let newval = cur + (coefficient as i128);
                    self.terms[idx] = (key_copy, newval);
                    proof {
                        let es = self.entries();
                        assert(es =~= es0.update(idx as int, (term@, newval)));
                        assert(keys_of(es) =~= keys_of(es0));
                        lemma_entries_map_update(es0, idx as int, newval);
                        assert(self.map_view() == entries_map(es0).insert(term@, newval as int));
                        assert(self.map_view() =~= spec_add(
                            old(self).map_view(),
                            term@,
                            coefficient as int,
                        ));
                    }
                },
                None => {
                    let ghost es0 = self.entries();
                    proof {
                        assert(!keys_of(es0).to_set().contains(term@));
                        assert(!old(self).map_view().dom().contains(term@));
                    }
                    let ghost tv = term@;
                    self.terms.push((term, coefficient as i128));
                    proof {
                        let es = self.entries();
                        assert(es =~= es0.push((tv, coefficient as i128)));
                        assert(es.drop_last() =~= es0);
                        assert(es.last() == (tv, coefficient as i128));
                        assert(self.map_view() == entries_map(es0).insert(
                            tv,
                            coefficient as i128 as int,
                        ));
                        assert(self.map_view() =~= spec_add(
                            old(self).map_view(),
                            tv,
                            coefficient as int,
                        ));
                        assert(keys_of(es) =~= keys_of(es0).push(tv));
                        assert(keys_of(es).no_duplicates()) by {
                            assert forall|p: int, q: int|
                                0 <= p < q < keys_of(es).len()
                                    implies keys_of(es)[p] != keys_of(es)[q] by {
                                if q == keys_of(es).len() - 1 {
                                    assert(keys_of(es)[p] == keys_of(es0)[p]);
                                    assert(!keys_of(es0).contains(tv));
                                } else {
                                    assert(keys_of(es)[p] == keys_of(es0)[p]);
                                    assert(keys_of(es)[q] == keys_of(es0)[q]);
                                }
                            }
                        }
                    }
                },
            }
        }
    }

    /// Looks up the aggregated coefficient stored for a signature.
    pub fn get_term(&self, term: Vec<(char, i64)>) -> (r: Option<i128>)
        requires
            self.wf(),
        ensures
            r is Some <==> self.map_view().dom().contains(term@),
            r is Some ==> r->0 as int == self.map_view()[term@],
    {
        proof {
            lemma_entries_map(self.entries());
        }
        match self.find_sig(&term) {
            Some(idx) => {
                proof {
                    assert(keys_of(self.entries())[idx as int] == term@);
                    assert(keys_of(self.entries()).to_set().contains(term@));
                }
                Some(self.terms[idx].1)
            },
            None => {
                proof {
                    assert(!keys_of(self.entries()).to_set().contains(term@));
                }
                None
            },
        }
    }

    /// The signatures present, in render order: variable names ascending,
    /// exponents descending, the constant signature last.
    pub fn get_sorted_term_sigs(&self) -> (r: Vec<Vec<(char, i64)>>)
        requires
            self.wf(),
        ensures
            r@.map_values(|v: Vec<(char, i64)>| v@) == sorted_sigs(self.map_view()),
    {
        broadcast use vstd::seq_lib::seq_to_set_is_finite;

        let mut keys: Vec<Vec<(char, i64)>> = Vec::new();
        let mut i: usize = 0;
        proof {
            assert(keys@.map_values(|v: Vec<(char, i64)>| v@) =~= keys_of(self.entries()).take(0));
        }
        while i < self.terms.len()
            invariant
                i <= self.terms@.len(),
                keys@.map_values(|v: Vec<(char, i64)>| v@) == keys_of(self.entries()).take(
                    i as int,
                ),
            decreases self.terms@.len() - i,
        {
            let ghost kv0 = keys@.map_values(|v: Vec<(char, i64)>| v@);
            let k = clone_sig(&self.terms[i].0);
            proof {
                assert(k@ == keys_of(self.entries())[i as int]);
            }
            keys.push(k);
            proof {
                assert(keys@.map_values(|v: Vec<(char, i64)>| v@) =~= kv0.push(
                    keys_of(self.entries())[i as int],
                ));
                assert(keys_of(self.entries()).take(i + 1) =~= keys_of(self.entries()).take(
                    i as int,
                ).push(keys_of(self.entries())[i as int]));
            }
            i = i + 1;
        }
        proof {
            assert(keys_of(self.entries()).take(keys_of(self.entries()).len() as int)
                =~= keys_of(self.entries()));
        }
        let sorted = sort_sigs(keys);
        proof {
            broadcast use group_to_multiset_ensures;

            lemma_sig_order_total();
            lemma_entries_map(self.entries());
            let kv = keys_of(self.entries());
            kv.lemma_sort_by_ensures(sig_order());
            lemma_set_to_seq_props(self.map_view().dom());
            self.map_view().dom().to_seq().lemma_sort_by_ensures(sig_order());
            lemma_nodup_same_set_multiset(kv, self.map_view().dom().to_seq());
            vstd::seq_lib::lemma_sorted_unique(
                kv.sort_by(sig_order()),
                sorted_sigs(self.map_view()),
                sig_order(),
            );
        }
        sorted
    }

    /// The variable names recorded so far.
    pub fn get_variables(&self) -> (r: Vec<char>)
        ensures
            r@ == self.vars_list(),
            r@.to_set() == self.vars_view(),
    {
        let mut r: Vec<char> = Vec::new();
        let mut i: usize = 0;
        while i < self.variables.len()
            invariant
                i <= self.variables@.len(),
                r@ == self.variables@.take(i as int),
            decreases self.variables@.len() - i,
        {
            r.push(self.variables[i]);
            proof {
                assert(self.variables@.take(i + 1) =~= self.variables@.take(i as int).push(
                    self.variables@[i as int],
                ));
            }
            i = i + 1;
        }
        proof {
            assert(self.variables@.take(self.variables@.len() as int) =~= self.variables@);
        }
        r
    }
}

/// Updating one entry's value in an association list with unique keys turns
/// into one map insertion.
proof fn lemma_entries_map_update(s: Seq<(Seq<(char, i64)>, i128)>, idx: int, val: i128)
    requires
        keys_of(s).no_duplicates(),
        0 <= idx < s.len(),
    ensures
        entries_map(s.update(idx, (s[idx].0, val))) == entries_map(s).insert(
            s[idx].0,
            val as int,
        ),
    decreases s.len(),
{
    let su = s.update(idx, (s[idx].0, val));
    if idx == s.len() - 1 {
        assert(su.drop_last() =~= s.drop_last());
        assert(su.last() == (s[idx].0, val));
        assert(entries_map(su) =~= entries_map(s).insert(s[idx].0, val as int));
    } else {
        let s0 = s.drop_last();
        assert(keys_of(s0) =~= keys_of(s).drop_last());
        assert(keys_of(s0).no_duplicates()) by {
            assert forall|p: int, q: int|
                0 <= p < q < keys_of(s0).len() implies keys_of(s0)[p] != keys_of(s0)[q] by {
                assert(keys_of(s)[p] == keys_of(s0)[p]);
                assert(keys_of(s)[q] == keys_of(s0)[q]);
            }
        }
        lemma_entries_map_update(s0, idx, val);
        assert(su.drop_last() =~= s0.update(idx, (s0[idx].0, val)));
        assert(su.last() == s.last());
        assert(keys_of(s)[idx] == s[idx].0);
        assert(keys_of(s).last() == s.last().0);
        assert(s[idx].0 != s.last().0);
        assert(entries_map(su) =~= entries_map(s).insert(s[idx].0, val as int));
    }
}

/// The set of variable names appearing in a signature.
pub open spec fn sig_names(sig: Seq<(char, i64)>) -> Set<char> {
    Set::new(|c: char| exists|i: int| 0 <= i < sig.len() && (#[trigger] sig[i]).0 == c)
}

/// Records every variable name of `term` in `vars`, keeping it free of
/// duplicates.
fn record_names(vars: &mut Vec<char>, term: &Vec<(char, i64)>)
    requires
        old(vars)@.no_duplicates(),
    ensures
        final(vars)@.no_duplicates(),
        final(vars)@.to_set() == old(vars)@.to_set().union(sig_names(term@)),
{
    proof {
        assert(sig_names(term@.take(0)) =~= Set::<char>::empty());
        assert(vars@.to_set() =~= old(vars)@.to_set().union(sig_names(term@.take(0))));
    }
    let mut vi: usize = 0;
    while vi < term.len()
        invariant
            vi <= term@.len(),
            vars@.no_duplicates(),
            vars@.to_set() == old(vars)@.to_set().union(sig_names(term@.take(vi as int))),
        decreases term@.len() - vi,
    {
        let c = term[vi].0;
        let ghost v0 = vars@;
        if !contains_char(vars, c) {
            vars.push(c);
            proof {
                assert(vars@[v0.len() as int] == c);
                assert forall|ch: char|
                    vars@.to_set().contains(ch) == v0.to_set().insert(c).contains(ch) by {
                    if v0.contains(ch) {
                        let j = choose|j: int| 0 <= j < v0.len() && v0[j] == ch;
                        assert(vars@[j] == ch);
                    }
                    if vars@.contains(ch) && ch != c {
                        let j = choose|j: int| 0 <= j < vars@.len() && vars@[j] == ch;
                        assert(j < v0.len());
                        assert(v0[j] == ch);
                    }
                }
                assert(vars@.to_set() =~= v0.to_set().insert(c));
                assert(vars@.no_duplicates()) by {
                    assert forall|p: int, q: int|
                        0 <= p < q < vars@.len() implies vars@[p] != vars@[q] by {
                        if q == v0.len() {
                            assert(v0[p] == vars@[p]);
                            assert(!v0.contains(c));
                        } else {
                            assert(v0[p] == vars@[p]);
                            assert(v0[q] == vars@[q]);
                        }
                    }
                }
            }
        } else {
            proof {
                let j = choose|j: int| 0 <= j < v0.len() && v0[j] == c;
                assert(v0.to_set().contains(c));
                assert(vars@.to_set() =~= v0.to_set().insert(c));
            }
        }
        proof {
            assert(c == term@[vi as int].0);
            assert(sig_names(term@.take(vi + 1)) =~= sig_names(term@.take(vi as int)).insert(
                c,
            )) by {
                assert forall|ch: char|
                    sig_names(term@.take(vi + 1)).contains(ch) == sig_names(
                        term@.take(vi as int),
                    ).insert(c).contains(ch) by {
                    if sig_names(term@.take(vi + 1)).contains(ch) {
                        let j = choose|j: int|
                            0 <= j < term@.take(vi + 1).len() && (#[trigger] term@.take(
                                vi + 1,
                            )[j]).0 == ch;
                        if j < vi {
                            assert(term@.take(vi as int)[j] == term@.take(vi + 1)[j]);
                            assert(sig_names(term@.take(vi as int)).contains(ch));
                        } else {
                            assert(term@.take(vi + 1)[j] == term@[vi as int]);
                            assert(ch == c);
                        }
                    }
                    if sig_names(term@.take(vi as int)).contains(ch) {
                        let j = choose|j: int|
                            0 <= j < term@.take(vi as int).len() && (#[trigger] term@.take(
                                vi as int,
                            )[j]).0 == ch;
                        assert(term@.take(vi + 1)[j] == term@.take(vi as int)[j]);
                        assert(sig_names(term@.take(vi + 1)).contains(ch));
                    }
                    if ch == c {
                        assert(term@.take(vi + 1)[vi as int] == term@[vi as int]);
                        assert(sig_names(term@.take(vi + 1)).contains(ch));
                    }
                }
            }
            assert(vars@.to_set() =~= old(vars)@.to_set().union(
                sig_names(term@.take(vi + 1)),
            ));
        }
        vi = vi + 1;
    }
    proof {
        assert(term@.take(term@.len() as int) =~= term@);
    }
}

fn sig_eq(a: &Vec<(char, i64)>, b: &Vec<(char, i64)>) -> (r: bool)
    ensures
        r == (a@ == b@),
{
    if a.len() != b.len() {
        return false;
    }
    let mut i: usize = 0;
    while i < a.len()
        invariant
            i <= a@.len(),
            a@.len() == b@.len(),
            forall|j: int| 0 <= j < i ==> a@[j] == b@[j],
        decreases a@.len() - i,
    {
        let pa = a[i];
        let pb = b[i];
        if pa.0 != pb.0 || pa.1 != pb.1 {
            proof {
                assert(a@[i as int] != b@[i as int]);
            }
            return false;
        }
        i = i + 1;
    }
    proof {
        assert(a@ =~= b@);
    }
    true
}

fn contains_char(v: &Vec<char>, c: char) -> (r: bool)
    ensures
        r == v@.contains(c),
{
    let mut i: usize = 0;
    while i < v.len()
        invariant
            i <= v@.len(),
            forall|j: int| 0 <= j < i ==> v@[j] != c,
        decreases v@.len() - i,
    {
        if v[i] == c {
            return true;
        }
        i = i + 1;
    }
    false
}


/// An association list's map has a finite domain.
proof fn lemma_entries_map_finite(s: Seq<(Seq<(char, i64)>, i128)>)
    ensures
        entries_map(s).dom().finite(),
    decreases s.len(),
{
    if s.len() > 0 {
        lemma_entries_map_finite(s.drop_last());
    }
}

/// A `ParsedExpression` stands for a map with finitely many signatures.
pub proof fn lemma_map_view_finite(e: &ParsedExpression)
    ensures
        e.map_view().dom().finite(),
{
    lemma_entries_map_finite(e.entries());
}

} // verus!
