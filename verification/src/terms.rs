//! Symbolic multilinear polynomials.
//!
//! A [`PolyExpr`] is a read-only expression tree built at table-construction
//! time; [`MultilinearPolyTerms`] pairs such a tree with the number of
//! variables it may mention, and evaluates it lazily at any point of that
//! length.

use vstd::prelude::*;
use crate::field::{all_wf, fadd, fmul, fpow, fpow2, vals, Fp, P};
use vstd::arithmetic::div_mod::{lemma_mod_bound, lemma_mod_breakdown, lemma_small_mod};
use vstd::arithmetic::power2::{
    lemma2_to64, lemma2_to64_rest, lemma_pow2_strictly_increases, lemma_pow2_unfold, pow2,
};

verus! {

broadcast use vstd::std_specs::vec::group_vec_axioms;

/// A symbolic multilinear expression over field constants and variables.
#[derive(Debug)]
pub enum PolyExpr {
    Const(Fp),
    Var(usize),
    Sum(Vec<PolyExpr>),
    Prod(Vec<PolyExpr>),
    Pow(Box<PolyExpr>, u32),
}

/// The value of an expression at `point`, each operation reduced modulo the
/// field order.
pub open spec fn eval_expr(e: PolyExpr, point: Seq<int>) -> int
    decreases e, 0nat,
{
    match e {
        PolyExpr::Const(c) => c@,
        PolyExpr::Var(i) => point[i as int],
        PolyExpr::Sum(v) => sum_upto(v@, point, v@.len()),
        PolyExpr::Prod(v) => prod_upto(v@, point, v@.len()),
        PolyExpr::Pow(b, ex) => fpow(eval_expr(*b, point), ex as nat),
    }
}

/// The running sum of the first `n` children's values.
pub open spec fn sum_upto(v: Seq<PolyExpr>, point: Seq<int>, n: nat) -> int
    decreases v, n,
{
    if n == 0 || n > v.len() {
        0
    } else {
        fadd(sum_upto(v, point, (n - 1) as nat), eval_expr(v[n - 1], point))
    }
}

/// The running product of the first `n` children's values.
pub open spec fn prod_upto(v: Seq<PolyExpr>, point: Seq<int>, n: nat) -> int
    decreases v, n,
{
    if n == 0 || n > v.len() {
        1
    } else {
        fmul(prod_upto(v, point, (n - 1) as nat), eval_expr(v[n - 1], point))
    }
}

/// Well-formedness of an expression under `num_vars` variables: constants
/// are canonical, every variable index is in range, and every branch of a
/// sum or product is non-empty.
pub open spec fn wf_expr(e: PolyExpr, num_vars: nat) -> bool
    decreases e, 0nat,
{
    match e {
        PolyExpr::Const(c) => c.wf(),
        PolyExpr::Var(i) => (i as nat) < num_vars,
        PolyExpr::Sum(v) => v@.len() > 0 && wf_list(v@, num_vars, v@.len()),
        PolyExpr::Prod(v) => v@.len() > 0 && wf_list(v@, num_vars, v@.len()),
        PolyExpr::Pow(b, _) => wf_expr(*b, num_vars),
    }
}

/// Well-formedness of the first `n` children.
pub open spec fn wf_list(v: Seq<PolyExpr>, num_vars: nat, n: nat) -> bool
    decreases v, n,
{
    if n == 0 || n > v.len() {
        true
    } else {
        wf_list(v, num_vars, (n - 1) as nat) && wf_expr(v[n - 1], num_vars)
    }
}

/// A well-formed child list has well-formed entries.
proof fn lemma_wf_list_index(v: Seq<PolyExpr>, num_vars: nat, n: nat, j: int)
    requires
        wf_list(v, num_vars, n),
        n <= v.len(),
        0 <= j < n,
    ensures
        wf_expr(v[j], num_vars),
    decreases n,
{
    if j < n - 1 {
        lemma_wf_list_index(v, num_vars, (n - 1) as nat, j);
    }
}

/// Evaluates `e` at `point`.
fn eval_rec(e: &PolyExpr, point: &[Fp]) -> (r: Fp)
    requires
        wf_expr(*e, point@.len() as nat),
        all_wf(point@),
    ensures
        r.wf(),
        r@ == eval_expr(*e, vals(point@)),
    decreases e,
{
    match e {
        PolyExpr::Const(c) => *c,
        PolyExpr::Var(i) => point[*i],
        PolyExpr::Sum(v) => {
            let mut acc: Fp = Fp::zero();
            let mut j: usize = 0;
            while j < v.len()
                invariant
                    j <= v@.len(),
                    acc.wf(),
                    all_wf(point@),
                    wf_list(v@, point@.len() as nat, v@.len()),
                    *e == PolyExpr::Sum(*v),
                    acc@ == sum_upto(v@, vals(point@), j as nat),
                decreases v@.len() - j,
            {
                proof {
                    lemma_wf_list_index(v@, point@.len() as nat, v@.len(), j as int);
                    vstd::std_specs::vec::axiom_vec_index_decreases(*v, j as int);
                    assert(decreases_to!(*v => v@[j as int]));
                    assert(decreases_to!(*e => (*e)->Sum_0));
                    assert(decreases_to!(*e => v@[j as int]));
                }
                acc = acc.add(eval_rec(&v[j], point));
                j = j + 1;
            }
            acc
        },
        PolyExpr::Prod(v) => {
            let mut acc: Fp = Fp::one();
            let mut j: usize = 0;
            while j < v.len()
                invariant
                    j <= v@.len(),
                    acc.wf(),
                    all_wf(point@),
                    wf_list(v@, point@.len() as nat, v@.len()),
                    *e == PolyExpr::Prod(*v),
                    acc@ == prod_upto(v@, vals(point@), j as nat),
                decreases v@.len() - j,
            {
                proof {
                    lemma_wf_list_index(v@, point@.len() as nat, v@.len(), j as int);
                    vstd::std_specs::vec::axiom_vec_index_decreases(*v, j as int);
                    assert(decreases_to!(*v => v@[j as int]));
                    assert(decreases_to!(*e => (*e)->Prod_0));
                    assert(decreases_to!(*e => v@[j as int]));
                }
                acc = acc.mul(eval_rec(&v[j], point));
                j = j + 1;
            }
            acc
        },
        PolyExpr::Pow(inner, ex) => {
            let base: Fp = eval_rec(&**inner, point);
            base.pow(*ex)
        },
    }
}

/// `sum_upto` only reads the first `n` children: any extension of the list
/// leaves it unchanged.
pub proof fn lemma_sum_upto_prefix(v1: Seq<PolyExpr>, v2: Seq<PolyExpr>, point: Seq<int>, n: nat)
    requires
        n <= v1.len(),
        n <= v2.len(),
        forall|j: int| 0 <= j < n ==> v1[j] == v2[j],
    ensures
        sum_upto(v1, point, n) == sum_upto(v2, point, n),
    decreases n,
{
    if n > 0 {
        lemma_sum_upto_prefix(v1, v2, point, (n - 1) as nat);
    }
}

/// `wf_list` only reads the first `n` children: any extension of the list
/// leaves it unchanged.
pub proof fn lemma_wf_list_prefix(v1: Seq<PolyExpr>, v2: Seq<PolyExpr>, num_vars: nat, n: nat)
    requires
        n <= v1.len(),
        n <= v2.len(),
        forall|j: int| 0 <= j < n ==> v1[j] == v2[j],
        wf_list(v1, num_vars, n),
    ensures
        wf_list(v2, num_vars, n),
    decreases n,
{
    if n > 0 {
        lemma_wf_list_prefix(v1, v2, num_vars, (n - 1) as nat);
    }
}

/// A multilinear polynomial in `num_vars` variables, held as a symbolic
/// expression and evaluated on demand.
#[derive(Debug)]
pub struct MultilinearPolyTerms {
    pub num_vars: usize,
    pub expression: PolyExpr,
}

impl MultilinearPolyTerms {
    /// The expression mentions only variables below `num_vars`.
    pub open spec fn wf(self) -> bool {
        wf_expr(self.expression, self.num_vars as nat)
    }

    /// Packs a validated expression with its variable count.
    pub fn new(num_vars: usize, expression: PolyExpr) -> (r: MultilinearPolyTerms)
        requires
            wf_expr(expression, num_vars as nat),
        ensures
            r.wf(),
            r.num_vars == num_vars,
            r.expression == expression,
    {
        MultilinearPolyTerms { num_vars, expression }
    }

    /// Evaluates the polynomial at a point of length `num_vars`.
    pub fn evaluate(&self, x: &[Fp]) -> (r: Fp)
        requires
            self.wf(),
            x@.len() == self.num_vars,
            all_wf(x@),
        ensures
            r.wf(),
            r@ == eval_expr(self.expression, vals(x@)),
    {
        eval_rec(&self.expression, x)
    }
}

/// The multilinear extension of integer addressing: `Σᵢ 2^i · point[i]`,
/// reduced modulo the field order.
pub open spec fn id_mle(point: Seq<int>) -> int
    decreases point.len(),
{
    if point.len() == 0 {
        0
    } else {
        fadd(id_mle(point.drop_last()), fmul(fpow2((point.len() - 1) as nat), point.last()))
    }
}

/// Bit `i` of the integer `k`.
pub open spec fn bit_at(k: nat, i: nat) -> int {
    ((k as int) / (pow2(i) as int)) % 2
}

/// The `n` low bits of `k`, least significant first.
pub open spec fn bits_of(k: nat, n: nat) -> Seq<int> {
    Seq::new(n, |i: int| bit_at(k, i as nat))
}

/// On a binary point, `id_mle` reads off the encoded integer modulo `2^n`.
proof fn lemma_id_mle_bits(k: nat, n: nat)
    requires
        n <= 63,
    ensures
        0 <= id_mle(bits_of(k, n)) < pow2(n),
        id_mle(bits_of(k, n)) == k % pow2(n),
    decreases n,
{
    lemma2_to64();
    lemma2_to64_rest();
    if n == 0 {
        assert(bits_of(k, 0) =~= Seq::<int>::empty());
        assert(k % pow2(0) == 0) by {
            lemma_mod_bound(k as int, 1int);
        }
    } else {
        let m: nat = (n - 1) as nat;
        lemma_id_mle_bits(k, m);
        assert(bits_of(k, n).drop_last() =~= bits_of(k, m));
        let b: int = bit_at(k, m);
        assert(bits_of(k, n).last() == b);
        assert(0 <= b < 2) by {
            lemma_mod_bound((k as int) / (pow2(m) as int), 2int);
        }
        if n - 1 < 63 {
            lemma_pow2_strictly_increases(m, 63);
        }
        assert(pow2(m) < P);
        assert(fpow2(m) == pow2(m)) by {
            lemma_small_mod(pow2(m), P as nat);
        }
        assert(fmul(pow2(m) as int, b) == pow2(m) * b) by {
            assert(0 <= pow2(m) * b <= pow2(m)) by (nonlinear_arith)
                requires
                    0 <= b < 2,
                    pow2(m) >= 0,
            {}
            lemma_small_mod((pow2(m) * b) as nat, P as nat);
        }
        lemma_pow2_unfold(n);
        assert(pow2(n) <= pow2(63)) by {
            if n < 63 {
                lemma_pow2_strictly_increases(n, 63);
            }
        }
        assert((k % pow2(m)) + pow2(m) * b < pow2(n)) by (nonlinear_arith)
            requires
                k % pow2(m) < pow2(m),
                0 <= b < 2,
                pow2(n) == 2 * pow2(m),
                pow2(m) >= 1,
        {}
        assert(fadd((k % pow2(m)) as int, pow2(m) * b) == (k % pow2(m)) + pow2(m) * b) by {
            lemma_small_mod(((k % pow2(m)) + pow2(m) * b) as nat, P as nat);
        }
        assert((k as int) % (pow2(m) as int * 2) == pow2(m) * ((k as int / pow2(m) as int) % 2)
            + (k as int) % (pow2(m) as int)) by {
            lemma_mod_breakdown(k as int, pow2(m) as int, 2int);
        }
        assert(pow2(m) as int * 2 == pow2(n) as int);
    }
}

/// Identity-polynomial round trip: for `k < 2^n`, evaluating the identity
/// MLE at the binary expansion of `k` (low bit at position 0) gives back
/// `k`, embedded in the field.
pub proof fn lemma_id_poly_round_trip(k: nat, n: nat)
    requires
        n <= 63,
        k < pow2(n),
    ensures
        id_mle(bits_of(k, n)) == k,
{
    lemma_id_mle_bits(k, n);
    lemma_small_mod(k, pow2(n));
}


/// Evaluates the identity MLE at a point: `Σᵢ 2^i · point[i]`.
pub fn id_poly_eval(point: &[Fp]) -> (r: Fp)
    requires
        all_wf(point@),
    ensures
        r.wf(),
        r@ == id_mle(vals(point@)),
{
    let ghost s: Seq<int> = vals(point@);
    let mut acc: Fp = Fp::zero();
    let mut i: usize = 0;
    while i < point.len()
        invariant
            i <= point@.len(),
            all_wf(point@),
            acc.wf(),
            s == vals(point@),
            acc@ == id_mle(s.take(i as int)),
        decreases point@.len() - i,
    {
        proof {
            assert(s.take(i + 1).drop_last() =~= s.take(i as int));
            assert(s.take(i + 1).last() == s[i as int]);
        }
        acc = acc.add(Fp::two_pow(i).mul(point[i]));
        i = i + 1;
    }
    proof {
        assert(s.take(s.len() as int) =~= s);
    }
    acc
}

} // verus!
