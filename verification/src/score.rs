use vstd::prelude::*;

use vstd::arithmetic::div_mod::lemma_div_is_ordered;
use vstd::arithmetic::div_mod::lemma_div_multiples_vanish;
use vstd::arithmetic::div_mod::lemma_div_pos_is_pos;
use vstd::arithmetic::div_mod::lemma_fundamental_div_mod;
use vstd::arithmetic::div_mod::lemma_multiply_divide_le;
use vstd::arithmetic::div_mod::lemma_multiply_divide_lt;
use vstd::arithmetic::div_mod::lemma_remainder_lower;

use crate::index::has_key;
use crate::index::freq_v;
use crate::index::lemma_lookup_at;
use crate::index::DocV;
use crate::index::Document;
use crate::index::Global;
use crate::index::glob_view;
use crate::scan::total_len;
use crate::scan::lemma_total_len_nonneg;

verus! {

// The scorer. BM25 works on rationals: with k1 = 1.2 and b = 0.75 the
// per-term weight f*(k1+1) / (f + k1*(1 - b + b*dl/avgdl)), with
// avgdl = L/N, equals 22*f*L / (10*f*L + 3*L + 9*dl*N) exactly. The one
// irrational ingredient is the IDF logarithm; it is computed in fixed point,
// digit by digit, to millesimal precision, so every score is an exact
// integer of the spec below and no floating point is involved.

/// The fixed-point scale: values carry 24 fractional bits.
pub const FIX: u64 = 0x100_0000;

/// Ten to the `n`th.
pub open spec fn pow10(n: nat) -> int
    decreases n,
{
    if n == 0 {
        1
    } else {
        10 * pow10((n - 1) as nat)
    }
}

/// How many divisions by ten bring `y` under `10*FIX`: the integer part of
/// the base-10 logarithm of `y/FIX`, for `y >= FIX`.
pub open spec fn div10_count(y: int) -> nat
    decreases y,
{
    if y < 10 * (FIX as int) {
        0
    } else {
        1 + div10_count(y / 10)
    }
}

/// What is left of `y` after those divisions.
pub open spec fn norm10(y: int) -> int
    decreases y,
{
    if y < 10 * (FIX as int) {
        y
    } else {
        norm10(y / 10)
    }
}

/// Fixed-point multiplication, truncating.
pub open spec fn fmul(a: int, b: int) -> int {
    (a * b) / (FIX as int)
}

/// The tenth power in fixed point: square thrice, times the square.
pub open spec fn pow10_fix(x: int) -> int {
    let x2 = fmul(x, x);
    let x4 = fmul(x2, x2);
    let x8 = fmul(x4, x4);
    fmul(x8, x2)
}

/// `1000 * log10(p/q)`, approximately, for `p >= q >= 1`: the integer digit,
/// then three decimal digits, each taken after raising the remainder to the
/// tenth power.
pub open spec fn milli_log10_pos(p: int, q: int) -> int {
    let r0 = (p * (FIX as int)) / q;
    let e = div10_count(r0);
    let r1 = norm10(r0);
    let y1 = pow10_fix(r1);
    let d1 = div10_count(y1);
    let r2 = norm10(y1);
    let y2 = pow10_fix(r2);
    let d2 = div10_count(y2);
    let r3 = norm10(y2);
    let y3 = pow10_fix(r3);
    let d3 = div10_count(y3);
    1000 * (e as int) + 100 * (d1 as int) + 10 * (d2 as int) + (d3 as int)
}

/// `1000 * log10(p/q)`, approximately, for any `p, q >= 1`; antisymmetric in
/// the two arguments.
pub open spec fn milli_log10_v(p: int, q: int) -> int {
    if p >= q {
        milli_log10_pos(p, q)
    } else {
        -milli_log10_pos(q, p)
    }
}

/// `a/d >= b` as soon as `a >= b*d`.
proof fn lemma_div_ge(a: int, b: int, d: int)
    requires
        0 < d,
        0 <= b,
        b * d <= a,
    ensures
        b <= a / d,
{
    lemma_div_is_ordered(b * d, a, d);
    lemma_div_multiples_vanish(b, d);
    assert(b * d == d * b) by (nonlinear_arith);
}

/// At most `n` divisions by ten are needed below `pow10(n) * 10 * FIX`.
proof fn lemma_div10_count_le(y: int, n: nat)
    requires
        0 <= y,
        y < pow10(n) * (10 * (FIX as int)),
    ensures
        div10_count(y) <= n,
    decreases n,
{
    if y < 10 * (FIX as int) {
    } else {
        assert(n >= 1) by {
            if n == 0 {
                assert(pow10(0) == 1);
            }
        }
        assert(pow10(n) == 10 * pow10((n - 1) as nat));
        assert(y < pow10((n - 1) as nat) * (10 * (FIX as int)) * 10) by (nonlinear_arith)
            requires
                y < pow10(n) * (10 * (FIX as int)),
                pow10(n) == 10 * pow10((n - 1) as nat),
        ;
        lemma_fundamental_div_mod(y, 10);
        assert(y / 10 < pow10((n - 1) as nat) * (10 * (FIX as int)));
        lemma_div10_count_le(y / 10, (n - 1) as nat);
    }
}

/// Forty decimal digits are more than any 128-bit value has.
proof fn lemma_pow10_40_large()
    ensures
        pow10(40) * (10 * (FIX as int)) > 0xffffffffffffffffffffffffffffffff,
{
    reveal_with_fuel(pow10, 41);
    assert(pow10(40) == 0x1d6329f1c35ca4bfabb9f5610000000000);
}

/// Dividing by ten keeps a value at or above `FIX` at or above `FIX`, until
/// it drops under `10*FIX`.
proof fn lemma_norm10_range(y: int)
    requires
        FIX as int <= y,
    ensures
        FIX as int <= norm10(y) < 10 * (FIX as int),
    decreases y,
{
    if y < 10 * (FIX as int) {
    } else {
        lemma_fundamental_div_mod(y, 10);
        lemma_norm10_range(y / 10);
    }
}

/// Strips factors of ten, returning what is left and how many there were.
fn norm_count(y0: u128) -> (r: (u128, u64))
    requires
        FIX as u128 <= y0,
    ensures
        r.0 as int == norm10(y0 as int),
        r.1 as nat == div10_count(y0 as int),
        FIX as u128 <= r.0 < 10 * (FIX as u128),
        r.1 <= 40,
{
    proof {
        lemma_pow10_40_large();
        lemma_div10_count_le(y0 as int, 40);
        lemma_norm10_range(y0 as int);
    }
    let mut y = y0;
    let mut c: u64 = 0;
    while y >= 10 * (FIX as u128)
        invariant
            FIX as u128 <= y,
            c + div10_count(y as int) == div10_count(y0 as int),
            norm10(y as int) == norm10(y0 as int),
            div10_count(y0 as int) <= 40,
        decreases y,
    {
        proof {
            lemma_fundamental_div_mod(y as int, 10);
        }
        y = y / 10;
        c = c + 1;
    }
    (y, c)
}

/// The tenth power in fixed point, executable.
fn pow10_fix_e(x: u128) -> (r: u128)
    requires
        FIX as u128 <= x < 10 * (FIX as u128),
    ensures
        r as int == pow10_fix(x as int),
        FIX as u128 <= r,
{
    let f: u128 = FIX as u128;
    proof {
        lemma_fmul_bounds(x as int, x as int, 10, 10);
    }
    let x2 = x * x / f;
    proof {
        lemma_fmul_bounds(x2 as int, x2 as int, 100, 100);
    }
    let x4 = x2 * x2 / f;
    proof {
        lemma_fmul_bounds(x4 as int, x4 as int, 10000, 10000);
    }
    let x8 = x4 * x4 / f;
    proof {
        lemma_fmul_bounds(x8 as int, x2 as int, 100000000, 100);
    }
    let r = x8 * x2 / f;
    r
}

/// A fixed-point product of values at or above `FIX` stays at or above
/// `FIX`, under the product of the factors' caps, and within machine range.
proof fn lemma_fmul_bounds(a: int, b: int, ka: int, kb: int)
    requires
        FIX as int <= a < ka * (FIX as int),
        FIX as int <= b < kb * (FIX as int),
        1 <= ka,
        1 <= kb,
        ka * kb <= 10000000000,
    ensures
        FIX as int <= fmul(a, b) < (ka * kb) * (FIX as int),
        a * b <= 0xffffffffffffffffffffffffffffffff,
{
    let f = FIX as int;
    let cab = (ka * kb) * f;
    assert(f * f <= a * b && a * b < cab * f && cab * f
        <= 0xffffffffffffffffffffffffffffffff) by (nonlinear_arith)
        requires
            f == 0x100_0000,
            f <= a < ka * f,
            f <= b < kb * f,
            cab == (ka * kb) * f,
            1 <= ka,
            1 <= kb,
            ka * kb <= 10000000000,
    ;
    lemma_div_ge(a * b, f, f);
    lemma_multiply_divide_lt(a * b, f, cab);
}

/// A millesimal base-10 logarithm of the ratio `p/q`: nonnegative when
/// `p >= q`, nonpositive otherwise, and at most 44440 in magnitude.
fn milli_log10(p: u64, q: u64) -> (r: i64)
    requires
        1 <= p,
        1 <= q,
    ensures
        r as int == milli_log10_v(p as int, q as int),
        p >= q ==> r >= 0,
        p < q ==> r <= 0,
        -44440 <= r <= 44440,
{
    if p >= q {
        milli_log10_ge(p, q)
    } else {
        let s = milli_log10_ge(q, p);
        -s
    }
}

/// The nonnegative half: `p >= q`.
fn milli_log10_ge(p: u64, q: u64) -> (r: i64)
    requires
        1 <= q <= p,
    ensures
        r as int == milli_log10_pos(p as int, q as int),
        0 <= r <= 44440,
{
    let f: u128 = FIX as u128;
    let r0: u128 = (p as u128) * f / (q as u128);
    proof {
        assert((p as int) * (FIX as int) >= (q as int) * (FIX as int)) by (nonlinear_arith)
            requires
                1 <= q as int <= p as int,
                0 < FIX as int,
        ;
        assert((q as int) * (FIX as int) == (FIX as int) * (q as int)) by (nonlinear_arith);
        lemma_div_ge((p as int) * (FIX as int), FIX as int, q as int);
        lemma_div_multiples_vanish(FIX as int, q as int);
        assert(((FIX as int) * (q as int)) / (q as int) == FIX as int);
    }
    let (r1, e) = norm_count(r0);
    let y1 = pow10_fix_e(r1);
    let (r2, d1) = norm_count(y1);
    let y2 = pow10_fix_e(r2);
    let (r3, d2) = norm_count(y2);
    let y3 = pow10_fix_e(r3);
    let (_r4, d3) = norm_count(y3);
    let out: i64 = 1000 * (e as i64) + 100 * (d1 as i64) + 10 * (d2 as i64) + (d3 as i64);
    out
}

/// How many indexed documents contain `t`.
pub open spec fn docs_with(gd: Seq<(Seq<char>, DocV)>, t: Seq<char>) -> nat
    decreases gd.len(),
{
    if gd.len() == 0 {
        0
    } else {
        docs_with(gd.drop_last(), t) + if has_key(gd.last().1.0, t) {
            1nat
        } else {
            0nat
        }
    }
}

/// No more documents contain a term than there are documents.
pub proof fn lemma_docs_with_le(gd: Seq<(Seq<char>, DocV)>, t: Seq<char>)
    ensures
        docs_with(gd, t) <= gd.len(),
    decreases gd.len(),
{
    if gd.len() > 0 {
        lemma_docs_with_le(gd.drop_last(), t);
    }
}

/// The inverse document frequency of `t`, in millesimal fixed point:
/// `1000 * log10(1 + (N - n_t + 0.5)/(n_t + 0.5))`, i.e. of the positive
/// ratio `(2N + 2)/(2*n_t + 1)`, approximately.
pub open spec fn idf_v(t: Seq<char>, gd: Seq<(Seq<char>, DocV)>, n: int) -> int {
    milli_log10_v(2 * n + 2, 2 * (docs_with(gd, t) as int) + 1)
}

/// Computes the IDF of a term: counts the documents whose term mapping holds
/// the word, then takes the millesimal logarithm.
pub fn idf(word: &String, global_documents: &Global) -> (r: i64)
    requires
        global_documents.lenght <= 0x100_0000_0000,
        global_documents.word_count@.len() <= 0x100_0000_0000,
    ensures
        r as int == idf_v(word@, glob_view(*global_documents), global_documents.lenght as int),
        -44440 <= r <= 44440,
{
    let ghost gd = glob_view(*global_documents);
    let mut containing: u64 = 0;
    let mut i: usize = 0;
    while i < global_documents.word_count.len()
        invariant
            i <= global_documents.word_count@.len(),
            gd == glob_view(*global_documents),
            global_documents.word_count@.len() <= 0x100_0000_0000,
            containing as nat == docs_with(gd.take(i as int), word@),
            containing <= i,
        decreases global_documents.word_count@.len() - i,
    {
        proof {
            assert(gd.take(i + 1).drop_last() =~= gd.take(i as int));
            assert(gd.take(i + 1).last() == gd[i as int]);
            assert(gd[i as int] == (global_documents.word_count@[i as int].0@,
            global_documents.word_count@[i as int].1.view_v()));
            lemma_docs_with_le(gd.take(i as int), word@);
        }
        let doc = &global_documents.word_count[i].1;
        let present = match crate::index::find_in_document(doc, word) {
            Some(_) => true,
            None => false,
        };
        if present {
            containing = containing + 1;
        }
        i += 1;
    }
    proof {
        assert(gd.take(global_documents.word_count@.len() as int) =~= gd);
    }
    milli_log10(2 * global_documents.lenght + 2, 2 * containing + 1)
}

/// Rounding division for a positive divisor: the quotient rounded to the
/// nearest integer, halves away from zero.
pub open spec fn rdiv(n: int, d: int) -> int
    recommends
        0 < d,
{
    if n >= 0 {
        (2 * n + d) / (2 * d)
    } else {
        -((2 * (-n) + d) / (2 * d))
    }
}

/// Executable rounding division.
fn rdiv_e(n: i128, d: i128) -> (r: i128)
    requires
        0 < d < 0x1000000000000000000000000000000,
        -0x1000000000000000000000000000000 < n < 0x1000000000000000000000000000000,
    ensures
        r as int == rdiv(n as int, d as int),
{
    if n >= 0 {
        (2 * n + d) / (2 * d)
    } else {
        proof {
            lemma_div_pos_is_pos(2 * (-(n as int)) + d, 2 * (d as int));
            lemma_multiply_divide_le(
                2 * (-(n as int)) + d,
                2 * (d as int),
                0x1000000000000000000000000000000,
            );
            assert((2 * (d as int)) * 0x1000000000000000000000000000000 >= 2 * (-(n as int)) + d)
                by (nonlinear_arith)
                requires
                    0 < (d as int),
                    -0x1000000000000000000000000000000 < (n as int),
                    (n as int) < 0,
                    (d as int) < 0x1000000000000000000000000000000,
            ;
        }
        -((2 * (-n) + d) / (2 * d))
    }
}


/// One query term's contribution to a document's score, in millesimal fixed
/// point: the term's IDF times the exact rational BM25 weight
/// 22*f*L / (10*f*L + 3*L + 9*dl*N), rounded to the nearest integer. A
/// degenerate denominator (an empty corpus) contributes nothing.
pub open spec fn term_v(d: DocV, t: Seq<char>, gd: Seq<(Seq<char>, DocV)>, n: int) -> int {
    let f = freq_v(d.0, t) as int;
    let l = total_len(gd);
    let den = 10 * f * l + 3 * l + 9 * (d.1 as int) * n;
    if den <= 0 {
        0
    } else {
        rdiv(idf_v(t, gd, n) * 22 * f * l, den)
    }
}

/// A document's score against a tokenized query: the sum of the per-term
/// contributions. An empty query scores zero.
pub open spec fn score_v(d: DocV, q: Seq<Seq<char>>, gd: Seq<(Seq<char>, DocV)>, n: int) -> int
    decreases q.len(),
{
    if q.len() == 0 {
        0
    } else {
        score_v(d, q.drop_last(), gd, n) + term_v(d, q.last(), gd, n)
    }
}

/// A prefix of the corpus never holds more tokens than the whole of it.
pub proof fn lemma_total_len_take(gd: Seq<(Seq<char>, DocV)>, i: int)
    requires
        0 <= i <= gd.len(),
    ensures
        total_len(gd.take(i)) <= total_len(gd),
        total_len(gd.take(i)) >= 0,
    decreases gd.len() - i,
{
    lemma_total_len_nonneg(gd.take(i));
    if i == gd.len() {
        assert(gd.take(i) =~= gd);
    } else {
        lemma_total_len_take(gd, i + 1);
        assert(gd.take(i + 1).drop_last() =~= gd.take(i));
        assert(gd.take(i + 1).last() == gd[i]);
    }
}

/// Rounding zero yields zero.
proof fn lemma_rdiv_zero(d: int)
    requires
        0 < d,
    ensures
        rdiv(0, d) == 0,
{
    lemma_div_pos_is_pos(d, 2 * d);
    lemma_multiply_divide_lt(d, 2 * d, 1);
}

/// Rounding division is monotone across fractions: a larger rational rounds
/// no lower.
proof fn lemma_rdiv_mono(n1: int, d1: int, n2: int, d2: int)
    requires
        0 < d1,
        0 < d2,
        0 <= n1,
        0 <= n2,
        n2 * d1 <= n1 * d2,
    ensures
        rdiv(n2, d2) <= rdiv(n1, d1),
{
    let k = (2 * n2 + d2) / (2 * d2);
    lemma_div_pos_is_pos(2 * n2 + d2, 2 * d2);
    lemma_remainder_lower(2 * n2 + d2, 2 * d2);
    assert((2 * n2 + d2) >= k * (2 * d2)) by (nonlinear_arith)
        requires
            (2 * n2 + d2) >= ((2 * n2 + d2) / (2 * d2)) * (2 * d2),
            k == (2 * n2 + d2) / (2 * d2),
    ;
    assert((2 * n1 + d1) >= k * (2 * d1)) by (nonlinear_arith)
        requires
            (2 * n2 + d2) >= k * (2 * d2),
            n2 * d1 <= n1 * d2,
            0 < d1,
            0 < d2,
            0 <= n1,
            0 <= n2,
            0 <= k,
    ;
    lemma_div_ge(2 * n1 + d1, k, 2 * d1);
}

/// A rounded quotient whose numerator is at most `m` times its denominator,
/// either way, stays within `m + 1`.
proof fn lemma_rdiv_bound(n: int, d: int, m: int)
    requires
        0 < d,
        0 <= m,
        n <= m * d,
        -n <= m * d,
    ensures
        -(m + 1) <= rdiv(n, d) <= m + 1,
{
    if n >= 0 {
        lemma_div_pos_is_pos(2 * n + d, 2 * d);
        assert(2 * n + d <= (2 * d) * (m + 1)) by (nonlinear_arith)
            requires
                n <= m * d,
                0 < d,
        ;
        lemma_multiply_divide_le(2 * n + d, 2 * d, m + 1);
    } else {
        lemma_div_pos_is_pos(2 * (-n) + d, 2 * d);
        assert(2 * (-n) + d <= (2 * d) * (m + 1)) by (nonlinear_arith)
            requires
                -n <= m * d,
                0 < d,
        ;
        lemma_multiply_divide_le(2 * (-n) + d, 2 * d, m + 1);
    }
}

/// Computes one document's BM25 score against an already normalized query,
/// over the whole index's statistics: for each query term, the millesimal
/// IDF times the exact rational weight, rounded; summed over the terms.
/// An empty query scores zero.
pub fn score(document: &Document, query: &Vec<String>, global_documents: &Global) -> (r: i32)
    requires
        document.wf(),
        document.lenght <= 0x100_0000_0000,
        global_documents.lenght <= 0x100_0000_0000,
        global_documents.word_count@.len() <= 0x100_0000_0000,
        total_len(glob_view(*global_documents)) <= 0x100_0000_0000,
        query@.len() <= 10000,
    ensures
        r as int == score_v(
            document.view_v(),
            query@.map_values(|s: String| s@),
            glob_view(*global_documents),
            global_documents.lenght as int,
        ),
        query@.len() == 0 ==> r == 0,
{
    let ghost gd = glob_view(*global_documents);
    let ghost dv = document.view_v();
    let ghost qv = query@.map_values(|s: String| s@);
    let ghost nn = global_documents.lenght as int;

    let mut l_total: u64 = 0;
    let mut i: usize = 0;
    while i < global_documents.word_count.len()
        invariant
            i <= global_documents.word_count@.len(),
            gd == glob_view(*global_documents),
            total_len(gd) <= 0x100_0000_0000,
            l_total as int == total_len(gd.take(i as int)),
        decreases global_documents.word_count@.len() - i,
    {
        proof {
            assert(gd.take(i + 1).drop_last() =~= gd.take(i as int));
            assert(gd.take(i + 1).last() == gd[i as int]);
            assert(gd[i as int] == (global_documents.word_count@[i as int].0@,
            global_documents.word_count@[i as int].1.view_v()));
            lemma_total_len_take(gd, i + 1);
        }
        l_total = l_total + global_documents.word_count[i].1.lenght;
        i += 1;
    }
    proof {
        assert(gd.take(global_documents.word_count@.len() as int) =~= gd);
    }

    let mut acc: i64 = 0;
    let mut j: usize = 0;
    while j < query.len()
        invariant
            j <= query@.len(),
            query@.len() <= 10000,
            gd == glob_view(*global_documents),
            dv == document.view_v(),
            qv == query@.map_values(|s: String| s@),
            nn == global_documents.lenght as int,
            document.wf(),
            document.lenght <= 0x100_0000_0000,
            global_documents.lenght <= 0x100_0000_0000,
            global_documents.word_count@.len() <= 0x100_0000_0000,
            l_total as int == total_len(gd),
            l_total <= 0x100_0000_0000,
            acc as int == score_v(dv, qv.take(j as int), gd, nn),
            -100000 * (j as int) <= acc as int <= 100000 * (j as int),
        decreases query@.len() - j,
    {
        proof {
            assert(qv.take(j + 1).drop_last() =~= qv.take(j as int));
            assert(qv.take(j + 1).last() == qv[j as int]);
            assert(qv[j as int] == query@[j as int]@);
        }
        let w = &query[j];
        let f: u64 = match crate::index::find_in_document(document, w) {
            Some(k) => {
                proof {
                    lemma_lookup_at(document.counts(), k as int);
                    assert(document.counts()[k as int].1 == document.word_count@[k as int].1);
                }
                document.word_count[k].1
            },
            None => 0,
        };
        proof {
            assert(f == freq_v(dv.0, qv[j as int]));
            assert(f <= document.lenght);
        }
        let idf_val = idf(w, global_documents);
        let dl = document.lenght;
        let ng = global_documents.lenght;
        proof {
            assert((f as int) * (l_total as int) <= 0x100_0000_0000 * 0x100_0000_0000
                && 0 <= (f as int) * (l_total as int)) by (nonlinear_arith)
                requires
                    0 <= (f as int) <= 0x100_0000_0000,
                    0 <= (l_total as int) <= 0x100_0000_0000,
            ;
            assert((dl as int) * (ng as int) <= 0x100_0000_0000 * 0x100_0000_0000 && 0 <= (
            dl as int) * (ng as int)) by (nonlinear_arith)
                requires
                    0 <= (dl as int) <= 0x100_0000_0000,
                    0 <= (ng as int) <= 0x100_0000_0000,
            ;
        }
        let fl: i128 = (f as i128) * (l_total as i128);
        let dn: i128 = (dl as i128) * (ng as i128);
        let den: i128 = 10 * fl + 3 * (l_total as i128) + 9 * dn;
        proof {
            assert(den as int == 10 * (f as int) * (l_total as int) + 3 * (l_total as int) + 9 * (
            dl as int) * (ng as int)) by (nonlinear_arith)
                requires
                    fl as int == (f as int) * (l_total as int),
                    dn as int == (dl as int) * (ng as int),
                    den as int == 10 * (fl as int) + 3 * (l_total as int) + 9 * (dn as int),
            ;
        }
        let term: i128;
        if den <= 0 {
            term = 0;
        } else {
            proof {
                assert(((idf_val as int) * 22) * (fl as int) == (idf_val as int) * 22 * (f as int)
                    * (l_total as int)) by (nonlinear_arith)
                    requires
                        fl as int == (f as int) * (l_total as int),
                ;
                assert(((idf_val as int) * 22) * (fl as int) <= 977680 * (fl as int) && ((
                idf_val as int) * 22) * (fl as int) >= -977680 * (fl as int)) by (nonlinear_arith)
                    requires
                        -44440 <= (idf_val as int) <= 44440,
                        0 <= (fl as int),
                ;
                assert(977680 * (fl as int) <= 97768 * (den as int)) by (nonlinear_arith)
                    requires
                        10 * (fl as int) <= den as int,
                        0 <= (fl as int),
                        0 < den as int,
                ;
                lemma_rdiv_bound(
                    (idf_val as int) * 22 * (f as int) * (l_total as int),
                    den as int,
                    97768,
                );
            }
            let num: i128 = ((idf_val as i128) * 22) * fl;
            term = rdiv_e(num, den);
        }
        proof {
            assert(term_v(dv, qv[j as int], gd, nn) == term as int);
        }
        acc = acc + (term as i64);
        j += 1;
    }
    proof {
        assert(qv.take(query@.len() as int) =~= qv);
    }
    acc as i32
}


/// Whichever nonnegative factors multiply a larger pair, the products order
/// the same way: the cross-multiplied BM25 weights of the two documents.
proof fn lemma_cross_weights(fa: int, fb: int, dla: int, dlb: int, l: int, n: int, idf: int)
    requires
        0 <= fb < fa,
        0 <= dla,
        0 <= dlb,
        1 <= l,
        1 <= n,
        dla * n <= l,
        l <= dlb * n,
        0 <= idf,
    ensures
        (idf * 22 * fb * l) * (10 * fa * l + 3 * l + 9 * dla * n) <= (idf * 22 * fa * l) * (10 * fb
            * l + 3 * l + 9 * dlb * n),
{
    assert(dla <= dlb) by (nonlinear_arith)
        requires
            dla * n <= l,
            l <= dlb * n,
            1 <= n,
    ;
    assert(fb * dla <= fa * dlb) by (nonlinear_arith)
        requires
            0 <= fb < fa,
            0 <= dla <= dlb,
    ;
    assert(fb * (10 * fa * l + 3 * l + 9 * dla * n) <= fa * (10 * fb * l + 3 * l + 9 * dlb * n))
        by (nonlinear_arith)
        requires
            0 <= fb < fa,
            1 <= l,
            1 <= n,
            0 <= dla,
            0 <= dlb,
            fb * dla <= fa * dlb,
    ;
    assert((idf * 22 * fb * l) * (10 * fa * l + 3 * l + 9 * dla * n) <= (idf * 22 * fa * l) * (10
        * fb * l + 3 * l + 9 * dlb * n)) by (nonlinear_arith)
        requires
            fb * (10 * fa * l + 3 * l + 9 * dla * n) <= fa * (10 * fb * l + 3 * l + 9 * dlb * n),
            0 <= idf,
            1 <= l,
            0 <= fb,
            0 <= fa,
            0 <= 10 * fa * l + 3 * l + 9 * dla * n,
            0 <= 10 * fb * l + 3 * l + 9 * dlb * n,
    ;
}

/// One term's contribution orders with the documents: more occurrences and a
/// shorter-than-average document contribute at least as much as fewer
/// occurrences in a longer-than-average one.
proof fn lemma_term_monotonic(
    a: DocV,
    b: DocV,
    t: Seq<char>,
    gd: Seq<(Seq<char>, DocV)>,
    n: int,
)
    requires
        1 <= n,
        gd.len() <= n,
        freq_v(b.0, t) < freq_v(a.0, t),
        (a.1 as int) * n <= total_len(gd),
        total_len(gd) <= (b.1 as int) * n,
    ensures
        term_v(b, t, gd, n) <= term_v(a, t, gd, n),
{
    let fa = freq_v(a.0, t) as int;
    let fb = freq_v(b.0, t) as int;
    let l = total_len(gd);
    lemma_total_len_nonneg(gd);
    lemma_docs_with_le(gd, t);
    let idf = idf_v(t, gd, n);
    assert(2 * n + 2 >= 2 * (docs_with(gd, t) as int) + 1);
    assert(idf >= 0);
    let dena = 10 * fa * l + 3 * l + 9 * (a.1 as int) * n;
    let denb = 10 * fb * l + 3 * l + 9 * (b.1 as int) * n;
    assert(0 <= (a.1 as int) * n && 0 <= (b.1 as int) * n && 0 <= fa * l && 0 <= fb * l && 0 <= 10
        * fa * l && 0 <= 10 * fb * l && 10 * fb * l <= 10 * fa * l) by (nonlinear_arith)
        requires
            0 <= (a.1 as int),
            0 <= (b.1 as int),
            1 <= n,
            0 <= fb < fa,
            0 <= l,
    ;
    if l == 0 {
        assert((a.1 as int) * n == 0);
        assert(10 * fa * l == 0 && 3 * l == 0) by (nonlinear_arith)
            requires
                l == 0,
        ;
        assert(9 * (a.1 as int) * n == 0) by (nonlinear_arith)
            requires
                (a.1 as int) * n == 0,
        ;
        assert(dena == 0);
        if denb <= 0 {
        } else {
            assert(idf * 22 * fb * l == 0) by (nonlinear_arith)
                requires
                    l == 0,
            ;
            lemma_rdiv_zero(denb);
        }
    } else {
        assert(dena > 0);
        assert(denb > 0);
        lemma_cross_weights(fa, fb, a.1 as int, b.1 as int, l, n, idf);
        assert(0 <= idf * 22 * fb * l && idf * 22 * fb * l <= idf * 22 * fa * l)
            by (nonlinear_arith)
            requires
                0 <= idf,
                0 <= fb < fa,
                1 <= l,
        ;
        lemma_rdiv_mono(idf * 22 * fa * l, dena, idf * 22 * fb * l, denb);
    }
}

/// BM25 monotonicity: against one corpus and one query, a document with
/// strictly more occurrences of every query term, and a length at or below
/// the corpus mean, scores at least as high as one with fewer occurrences
/// and a length at or above the mean. The corpus count `n` must cover every
/// indexed document, as a freshly scanned directory's does.
pub proof fn lemma_bm25_monotonic(
    a: DocV,
    b: DocV,
    q: Seq<Seq<char>>,
    gd: Seq<(Seq<char>, DocV)>,
    n: int,
)
    requires
        1 <= n,
        gd.len() <= n,
        forall|j: int| 0 <= j < q.len() ==> freq_v(b.0, #[trigger] q[j]) < freq_v(a.0, q[j]),
        (a.1 as int) * n <= total_len(gd),
        total_len(gd) <= (b.1 as int) * n,
    ensures
        score_v(b, q, gd, n) <= score_v(a, q, gd, n),
    decreases q.len(),
{
    if q.len() == 0 {
    } else {
        assert forall|j: int| 0 <= j < q.drop_last().len() implies freq_v(
            b.0,
            #[trigger] q.drop_last()[j],
        ) < freq_v(a.0, q.drop_last()[j]) by {
            assert(q.drop_last()[j] == q[j]);
        }
        lemma_bm25_monotonic(a, b, q.drop_last(), gd, n);
        assert(q.last() == q[q.len() - 1]);
        lemma_term_monotonic(a, b, q.last(), gd, n);
    }
}

} // verus!
