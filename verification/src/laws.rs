//! The decoder's algebraic laws, proved once and for all: a codeword has
//! the zero syndrome and conversely; adding an error pattern to a codeword
//! leaves exactly the pattern's syndrome; and under a known minimum
//! distance the explanation of a syndrome is unique within the correction
//! radius. Together with the row-space equality that `gaussian_eliminate`
//! guarantees, the laws apply to any generator matrix the decoder accepts.

use vstd::prelude::*;

verus! {

use crate::algebra::{
    column,
    dot,
    in_range,
    is_systematic,
    is_zero_seq,
    lemma_add_congruent,
    lemma_dot_add_left_raw,
    lemma_dot_congruent_left,
    lemma_dot_congruent_right,
    lemma_dot_mod_left,
    lemma_dot_neg_right_raw,
    lemma_dot_split,
    lemma_dot_sub_left_raw,
    lemma_dot_unit_right,
    lemma_inrange_mod,
    lemma_neg_congruent,
    lemma_sub_nonzero_mod,
    lemma_weight_vsub_le,
    row_mat_mul,
    vmod,
    vsub,
    weight,
};
use crate::decode::{parity_of, syndrome_of};
use crate::rowspace::{in_rowspace, same_rowspace};
use vstd::arithmetic::div_mod::{
    lemma_mod_bound,
    lemma_mod_equivalence,
    lemma_mod_twice,
    lemma_small_mod,
};

/// Column `j` of the trailing block `A` of a systematic generator
/// `[I_k | A]`.
pub open spec fn a_column(g: Seq<Seq<int>>, j: int) -> Seq<int> {
    Seq::new(g.len(), |t: int| g[t][g.len() + j])
}

/// Coordinate `j` of the syndrome, written out: the word's trailing
/// coordinate `k + j` minus its prefix combined with column `j` of the
/// trailing block, reduced into `[0, p)`.
proof fn lemma_syndrome_entry(v: Seq<int>, g: Seq<Seq<int>>, p: int, j: int)
    requires
        1 <= p,
        is_systematic(g, p),
        v.len() == g[0].len(),
        0 <= j < g[0].len() - g.len(),
    ensures
        syndrome_of(v, g, p).len() == g[0].len() - g.len(),
        syndrome_of(v, g, p)[j] == (-dot(v.take(g.len() as int), a_column(g, j)) + v[g.len() + j])
            % p,
{
    let k = g.len() as int;
    let n = g[0].len() as int;
    let pmx = parity_of(g, p);
    assert(pmx.len() == n);
    assert(pmx[0].len() == n - k);
    let colp = column(pmx, j);
    assert(colp.len() == n);
    assert(syndrome_of(v, g, p)[j] == dot(v, colp) % p);
    lemma_dot_split(v, colp, k);

    // the identity block below `A` picks out coordinate `k + j`
    let bot = colp.skip(k);
    assert(bot.len() == n - k);
    assert forall|t: int| 0 <= t < n - k implies #[trigger] bot[t] == if t == j {
        1int
    } else {
        0int
    } by {
        assert(bot[t] == colp[k + t]);
        assert(colp[k + t] == pmx[k + t][j]);
    }
    lemma_dot_unit_right(v.skip(k), bot, j);
    assert(v.skip(k)[j] == v[k + j]);

    // the negated block above contributes the negated combination
    let acol = a_column(g, j);
    let nacol = Seq::new(k as nat, |t: int| -acol[t]);
    assert forall|t: int| 0 <= t < k implies #[trigger] colp.take(k)[t] % p == nacol[t] % p by {
        assert(colp.take(k)[t] == colp[t]);
        assert(colp[t] == pmx[t][j]);
        assert(pmx[t][j] == (-g[t][k + j]) % p);
        lemma_mod_twice(-g[t][k + j], p);
    }
    lemma_dot_congruent_right(v.take(k), colp.take(k), nacol, p);
    lemma_dot_neg_right_raw(v.take(k), acol, nacol);
    lemma_add_congruent(
        dot(v.take(k), colp.take(k)),
        -dot(v.take(k), acol),
        v[k + j],
        v[k + j],
        p,
    );
}

/// Zero-error round trip: every codeword of a systematic generator — every
/// linear combination of its rows over `Z_p` — has the zero syndrome, so
/// the decoder takes the zero-syndrome fast path on it and returns its
/// first `k` coordinates unchanged with an empty error pattern.
pub proof fn lemma_codeword_zero_syndrome(coeffs: Seq<int>, g: Seq<Seq<int>>, p: int)
    requires
        1 <= p,
        is_systematic(g, p),
        coeffs.len() == g.len(),
    ensures
        is_zero_seq(syndrome_of(row_mat_mul(coeffs, g, p), g, p)),
{
    let k = g.len() as int;
    let n = g[0].len() as int;
    let c = row_mat_mul(coeffs, g, p);
    assert(c.len() == n);
    assert forall|t: int| 0 <= t < k implies #[trigger] c[t] == coeffs[t] % p by {
        let colg = column(g, t);
        assert(colg.len() == k);
        assert forall|i: int| 0 <= i < k implies #[trigger] colg[i] == if i == t {
            1int
        } else {
            0int
        } by {
            assert(colg[i] == g[i][t]);
        }
        lemma_dot_unit_right(coeffs, colg, t);
        assert(c[t] == dot(coeffs, colg) % p);
    }
    assert(c.take(k) =~= vmod(coeffs, p));
    assert forall|j: int| 0 <= j < syndrome_of(c, g, p).len() implies #[trigger] syndrome_of(
        c,
        g,
        p,
    )[j] == 0 by {
        lemma_syndrome_entry(c, g, p, j);
        let acol = a_column(g, j);
        let d = dot(coeffs, acol);
        lemma_dot_mod_left(coeffs, acol, p);
        lemma_neg_congruent(dot(c.take(k), acol), d, p);
        assert(column(g, k + j) =~= acol);
        assert(c[k + j] == d % p);
        lemma_mod_twice(d, p);
        lemma_add_congruent(-dot(c.take(k), acol), -d, c[k + j], d, p);
        lemma_small_mod(0nat, p as nat);
    }
}

/// A word with the zero syndrome is a codeword: it equals the combination
/// of the generator's rows given by its own first `k` coordinates. With the
/// law above, the syndrome is zero exactly on the code.
pub proof fn lemma_zero_syndrome_is_codeword(v: Seq<int>, g: Seq<Seq<int>>, p: int)
    requires
        1 <= p,
        is_systematic(g, p),
        v.len() == g[0].len(),
        in_range(v, p),
        is_zero_seq(syndrome_of(v, g, p)),
    ensures
        v == row_mat_mul(v.take(g.len() as int), g, p),
{
    let k = g.len() as int;
    let n = g[0].len() as int;
    let c = row_mat_mul(v.take(k), g, p);
    assert(c.len() == n);
    assert forall|t: int| 0 <= t < k implies #[trigger] c[t] == v[t] by {
        let colg = column(g, t);
        assert(colg.len() == k);
        assert forall|i: int| 0 <= i < k implies #[trigger] colg[i] == if i == t {
            1int
        } else {
            0int
        } by {
            assert(colg[i] == g[i][t]);
        }
        lemma_dot_unit_right(v.take(k), colg, t);
        assert(c[t] == dot(v.take(k), colg) % p);
        assert(v.take(k)[t] == v[t]);
        lemma_inrange_mod(v[t], p);
    }
    assert forall|j: int| 0 <= j < n - k implies #[trigger] c[k + j] == v[k + j] by {
        lemma_syndrome_entry(v, g, p, j);
        let acol = a_column(g, j);
        let x = dot(v.take(k), acol);
        assert(syndrome_of(v, g, p)[j] == 0);
        assert((v[k + j] - x) % p == 0);
        lemma_mod_equivalence(v[k + j], x, p);
        lemma_inrange_mod(v[k + j], p);
        assert(column(g, k + j) =~= acol);
        assert(c[k + j] == x % p);
    }
    assert forall|i: int| 0 <= i < n implies #[trigger] v[i] == c[i] by {
        if i < k {
        } else {
            assert(c[k + (i - k)] == v[k + (i - k)]);
        }
    }
    assert(v =~= c);
}

/// A received word formed by adding an error pattern to a codeword,
/// coordinate by coordinate modulo `p`, carries exactly the error
/// pattern's syndrome: the codeword contributes nothing. The decoder's
/// minimum-weight search therefore looks for that pattern.
pub proof fn lemma_added_error_syndrome(
    coeffs: Seq<int>,
    e: Seq<int>,
    r: Seq<int>,
    g: Seq<Seq<int>>,
    p: int,
)
    requires
        1 <= p,
        is_systematic(g, p),
        coeffs.len() == g.len(),
        e.len() == g[0].len(),
        r.len() == g[0].len(),
        forall|i: int|
            0 <= i < r.len() ==> #[trigger] r[i] % p == (row_mat_mul(coeffs, g, p)[i] + e[i]) % p,
    ensures
        syndrome_of(r, g, p) == syndrome_of(e, g, p),
{
    let k = g.len() as int;
    let n = g[0].len() as int;
    let c = row_mat_mul(coeffs, g, p);
    let pmx = parity_of(g, p);
    assert(pmx.len() == n);
    assert(pmx[0].len() == n - k);
    lemma_codeword_zero_syndrome(coeffs, g, p);
    assert forall|j: int| 0 <= j < n - k implies #[trigger] syndrome_of(r, g, p)[j]
        == syndrome_of(e, g, p)[j] by {
        let colp = column(pmx, j);
        assert(colp.len() == n);
        let rawsum = Seq::new(n as nat, |i: int| c[i] + e[i]);
        assert forall|i: int| 0 <= i < n implies #[trigger] r[i] % p == rawsum[i] % p by {
            assert(r[i] % p == (c[i] + e[i]) % p);
        }
        lemma_dot_congruent_left(r, rawsum, colp, p);
        lemma_dot_add_left_raw(c, e, colp, rawsum);
        assert(syndrome_of(c, g, p)[j] == 0);
        assert(dot(c, colp) % p == 0);
        lemma_small_mod(0nat, p as nat);
        lemma_add_congruent(dot(c, colp), 0, dot(e, colp), dot(e, colp), p);
        assert(syndrome_of(r, g, p)[j] == dot(r, colp) % p);
        assert(syndrome_of(e, g, p)[j] == dot(e, colp) % p);
    }
    assert(syndrome_of(r, g, p) =~= syndrome_of(e, g, p));
}

/// Zero-error round trip for an arbitrary code description: any codeword of
/// any matrix generating the same code as the reduced generator has the
/// zero syndrome, so the decoder returns its first `k` coordinates with an
/// empty error pattern. The decoder's contract supplies a reduced generator
/// with the same code as the caller's matrix.
pub proof fn lemma_rowspace_codeword_zero_syndrome(v: Seq<int>, g: Seq<Seq<int>>, p: int)
    requires
        1 <= p,
        is_systematic(g, p),
        in_rowspace(v, g, p),
    ensures
        is_zero_seq(syndrome_of(v, g, p)),
{
    let coeffs = choose|c: Seq<int>| c.len() == g.len() && v == row_mat_mul(c, g, p);
    lemma_codeword_zero_syndrome(coeffs, g, p);
}

/// The code generated by `g` has no nonzero codeword of weight below `d`.
pub open spec fn min_distance_at_least(g: Seq<Seq<int>>, p: int, d: int) -> bool {
    forall|coeffs: Seq<int>|
        #![trigger row_mat_mul(coeffs, g, p)]
        coeffs.len() == g.len() && !is_zero_seq(row_mat_mul(coeffs, g, p)) ==> weight(
            row_mat_mul(coeffs, g, p),
        ) >= d
}

/// A minimum-distance bound carries over between matrices that generate
/// the same code.
pub proof fn lemma_min_distance_same_rowspace(
    m1: Seq<Seq<int>>,
    m2: Seq<Seq<int>>,
    p: int,
    d: int,
)
    requires
        min_distance_at_least(m1, p, d),
        same_rowspace(m1, m2, p),
    ensures
        min_distance_at_least(m2, p, d),
{
    assert forall|coeffs: Seq<int>|
        coeffs.len() == m2.len() && !is_zero_seq(#[trigger] row_mat_mul(coeffs, m2, p)) implies
        weight(row_mat_mul(coeffs, m2, p)) >= d by {
        let v = row_mat_mul(coeffs, m2, p);
        assert(in_rowspace(v, m2, p));
        assert(in_rowspace(v, m1, p));
        let c1 = choose|c: Seq<int>| c.len() == m1.len() && v == row_mat_mul(c, m1, p);
        assert(weight(row_mat_mul(c1, m1, p)) >= d);
    }
}

/// Bounded-error correction: under a systematic generator whose code has
/// minimum distance at least `d`, two error patterns within the correction
/// radius — each of weight below `d / 2` — that explain the same syndrome
/// are the same pattern. The decoder's unique minimum-weight match is
/// therefore exactly the error that was added to the codeword.
pub proof fn lemma_bounded_error_unique(
    g: Seq<Seq<int>>,
    p: int,
    d: int,
    e1: Seq<int>,
    e2: Seq<int>,
)
    requires
        1 <= p,
        is_systematic(g, p),
        min_distance_at_least(g, p, d),
        e1.len() == g[0].len(),
        e2.len() == g[0].len(),
        in_range(e1, p),
        in_range(e2, p),
        2 * weight(e1) < d,
        2 * weight(e2) < d,
        syndrome_of(e1, g, p) == syndrome_of(e2, g, p),
    ensures
        e1 == e2,
{
    let k = g.len() as int;
    let n = g[0].len() as int;
    let pmx = parity_of(g, p);
    assert(pmx.len() == n);
    assert(pmx[0].len() == n - k);
    let diff = vsub(e1, e2, p);
    assert(diff.len() == n);
    assert forall|i: int| 0 <= i < n implies 0 <= #[trigger] diff[i] < p by {
        lemma_mod_bound(e1[i] - e2[i], p);
        assert(diff[i] == (e1[i] - e2[i]) % p);
    }

    // the difference of two words with equal syndromes has the zero syndrome
    assert forall|j: int| 0 <= j < syndrome_of(diff, g, p).len() implies #[trigger] syndrome_of(
        diff,
        g,
        p,
    )[j] == 0 by {
        let colp = column(pmx, j);
        assert(colp.len() == n);
        let rawd = Seq::new(n as nat, |i: int| e1[i] - e2[i]);
        assert forall|i: int| 0 <= i < n implies #[trigger] diff[i] % p == rawd[i] % p by {
            lemma_mod_twice(e1[i] - e2[i], p);
            assert(diff[i] == (e1[i] - e2[i]) % p);
        }
        lemma_dot_congruent_left(diff, rawd, colp, p);
        lemma_dot_sub_left_raw(e1, e2, colp, rawd);
        assert(syndrome_of(e1, g, p)[j] == dot(e1, colp) % p);
        assert(syndrome_of(e2, g, p)[j] == dot(e2, colp) % p);
        lemma_mod_equivalence(dot(e1, colp), dot(e2, colp), p);
        assert(syndrome_of(diff, g, p)[j] == dot(diff, colp) % p);
        lemma_small_mod(0nat, p as nat);
    }

    if e1 != e2 {
        assert(exists|i: int| 0 <= i < e1.len() && e1[i] != e2[i]) by {
            if forall|i: int| 0 <= i < e1.len() ==> #[trigger] e1[i] == e2[i] {
                assert(e1 =~= e2);
            }
        }
        let i0 = choose|i: int| 0 <= i < e1.len() && e1[i] != e2[i];
        lemma_sub_nonzero_mod(e1[i0], e2[i0], p);
        assert(diff[i0] != 0);
        assert(!is_zero_seq(diff));
        lemma_zero_syndrome_is_codeword(diff, g, p);
        assert(diff == row_mat_mul(diff.take(k), g, p));
        assert(weight(row_mat_mul(diff.take(k), g, p)) >= d);
        lemma_weight_vsub_le(e1, e2, p);
        assert(false);
    }
}

} // verus!
