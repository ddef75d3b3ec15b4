//! Row spaces over `Z_p`, and the proofs that the elementary row operations
//! of Gaussian elimination preserve them.

use vstd::prelude::*;

verus! {

use crate::algebra::{
    column,
    columns_unit,
    dot,
    in_range,
    is_rect,
    is_systematic,
    lemma_add_congruent,
    lemma_dot_congruent_right,
    lemma_dot_unit_left,
    lemma_dot_unit_right,
    lemma_dot_update_left,
    lemma_dot_update_right,
    lemma_dot_vanishes,
    lemma_inrange_mod,
    vmod,
    mat_in_range,
    row_mat_mul,
};
use vstd::arithmetic::div_mod::{lemma_mul_mod_noop_left, lemma_mul_mod_noop_right};
use vstd::arithmetic::mul::{
    lemma_mul_is_associative,
    lemma_mul_is_commutative,
    lemma_mul_is_distributive_add,
    lemma_mul_is_distributive_sub,
    lemma_mul_is_distributive_sub_other_way,
    lemma_mul_unary_negation,
};

/// `v` is a codeword of `m`: some combination of `m`'s rows over `Z_p`.
pub open spec fn in_rowspace(v: Seq<int>, m: Seq<Seq<int>>, p: int) -> bool {
    exists|coeffs: Seq<int>|
        #![trigger row_mat_mul(coeffs, m, p)]
        coeffs.len() == m.len() && v == row_mat_mul(coeffs, m, p)
}

/// The two matrices generate the same code.
pub open spec fn same_rowspace(m1: Seq<Seq<int>>, m2: Seq<Seq<int>>, p: int) -> bool {
    forall|v: Seq<int>|
        #![trigger in_rowspace(v, m1, p)]
        #![trigger in_rowspace(v, m2, p)]
        in_rowspace(v, m1, p) <==> in_rowspace(v, m2, p)
}

/// Every matrix generates its own code.
pub proof fn lemma_same_rowspace_refl(m: Seq<Seq<int>>, p: int)
    ensures
        same_rowspace(m, m, p),
{
}

/// Generating the same code is symmetric.
pub proof fn lemma_same_rowspace_symm(m1: Seq<Seq<int>>, m2: Seq<Seq<int>>, p: int)
    requires
        same_rowspace(m1, m2, p),
    ensures
        same_rowspace(m2, m1, p),
{
    assert forall|v: Seq<int>| in_rowspace(v, m2, p) <==> in_rowspace(v, m1, p) by {
        assert(in_rowspace(v, m1, p) <==> in_rowspace(v, m2, p));
    }
}

/// Generating the same code is transitive.
pub proof fn lemma_same_rowspace_trans(m1: Seq<Seq<int>>, m2: Seq<Seq<int>>, m3: Seq<Seq<int>>, p: int)
    requires
        same_rowspace(m1, m2, p),
        same_rowspace(m2, m3, p),
    ensures
        same_rowspace(m1, m3, p),
{
    assert forall|v: Seq<int>| in_rowspace(v, m1, p) <==> in_rowspace(v, m3, p) by {
        assert(in_rowspace(v, m1, p) <==> in_rowspace(v, m2, p));
        assert(in_rowspace(v, m2, p) <==> in_rowspace(v, m3, p));
    }
}

/// How replacing row `r` changes a combination of the rows: each output
/// coordinate shifts by the coefficient of `r` times the row's change.
proof fn lemma_rowmatmul_update_row(
    coeffs: Seq<int>,
    m: Seq<Seq<int>>,
    row: Seq<int>,
    r: int,
    p: int,
)
    requires
        m.len() >= 1,
        is_rect(m, m[0].len() as int),
        row.len() == m[0].len(),
        coeffs.len() == m.len(),
        0 <= r < m.len(),
    ensures
        row_mat_mul(coeffs, m.update(r, row), p).len() == m[0].len(),
        forall|j: int|
            0 <= j < m[0].len() ==> #[trigger] row_mat_mul(coeffs, m.update(r, row), p)[j] == (dot(
                coeffs,
                column(m, j),
            ) + coeffs[r] * (row[j] - m[r][j])) % p,
{
    let cols = m[0].len() as int;
    let m2 = m.update(r, row);
    assert(m2[0].len() == cols);
    assert forall|j: int| 0 <= j < cols implies #[trigger] row_mat_mul(coeffs, m2, p)[j] == (dot(
        coeffs,
        column(m, j),
    ) + coeffs[r] * (row[j] - m[r][j])) % p by {
        assert(column(m2, j) =~= column(m, j).update(r, row[j]));
        lemma_dot_update_right(coeffs, column(m, j), r, row[j]);
        assert(column(m, j)[r] == m[r][j]);
    }
}

/// Scaling row `r` by `s` is matched by scaling the coefficient of `r`.
proof fn lemma_rowmatmul_scale_witness(
    coeffs: Seq<int>,
    m: Seq<Seq<int>>,
    row: Seq<int>,
    r: int,
    s: int,
    p: int,
)
    requires
        1 <= p,
        m.len() >= 1,
        is_rect(m, m[0].len() as int),
        row.len() == m[0].len(),
        coeffs.len() == m.len(),
        0 <= r < m.len(),
        forall|j: int| 0 <= j < row.len() ==> #[trigger] row[j] % p == (s * m[r][j]) % p,
    ensures
        row_mat_mul(coeffs.update(r, coeffs[r] * s), m, p) == row_mat_mul(
            coeffs,
            m.update(r, row),
            p,
        ),
{
    let cols = m[0].len() as int;
    lemma_rowmatmul_update_row(coeffs, m, row, r, p);
    let c2 = coeffs.update(r, coeffs[r] * s);
    assert forall|j: int| 0 <= j < cols implies #[trigger] row_mat_mul(c2, m, p)[j] == row_mat_mul(
        coeffs,
        m.update(r, row),
        p,
    )[j] by {
        let colj = column(m, j);
        let g = m[r][j];
        let c = coeffs[r];
        let d = dot(coeffs, colj);
        lemma_dot_update_left(coeffs, colj, r, c * s);
        assert(colj[r] == g);
        lemma_mul_is_distributive_sub_other_way(g, c * s, c);
        lemma_mul_is_associative(c, s, g);
        lemma_mul_is_distributive_sub(c, row[j], g);
        lemma_mul_mod_noop_right(c, row[j], p);
        lemma_mul_mod_noop_right(c, s * g, p);
        lemma_add_congruent(d - c * g, d - c * g, c * (s * g), c * row[j], p);
        assert(row_mat_mul(c2, m, p)[j] == (d + (c * s - c) * g) % p);
        assert((d + (c * s - c) * g) == ((d - c * g) + c * (s * g)));
        assert(row_mat_mul(coeffs, m.update(r, row), p)[j] == (d + c * (row[j] - g)) % p);
        assert((d + c * (row[j] - g)) == ((d - c * g) + c * row[j]));
    }
    assert(row_mat_mul(c2, m, p) =~= row_mat_mul(coeffs, m.update(r, row), p));
}

/// Adding `q` times row `i` onto row `r` is matched by moving `q` times the
/// coefficient of `r` onto the coefficient of `i`.
proof fn lemma_rowmatmul_addmul_witness(
    coeffs: Seq<int>,
    m: Seq<Seq<int>>,
    row: Seq<int>,
    r: int,
    i: int,
    q: int,
    p: int,
)
    requires
        1 <= p,
        m.len() >= 1,
        is_rect(m, m[0].len() as int),
        row.len() == m[0].len(),
        coeffs.len() == m.len(),
        0 <= r < m.len(),
        0 <= i < m.len(),
        i != r,
        forall|j: int|
            0 <= j < row.len() ==> #[trigger] row[j] % p == (m[r][j] + q * m[i][j]) % p,
    ensures
        row_mat_mul(coeffs.update(i, coeffs[i] + q * coeffs[r]), m, p) == row_mat_mul(
            coeffs,
            m.update(r, row),
            p,
        ),
{
    let cols = m[0].len() as int;
    lemma_rowmatmul_update_row(coeffs, m, row, r, p);
    let c2 = coeffs.update(i, coeffs[i] + q * coeffs[r]);
    assert forall|j: int| 0 <= j < cols implies #[trigger] row_mat_mul(c2, m, p)[j] == row_mat_mul(
        coeffs,
        m.update(r, row),
        p,
    )[j] by {
        let colj = column(m, j);
        let g = m[r][j];
        let gi = m[i][j];
        let c = coeffs[r];
        let d = dot(coeffs, colj);
        lemma_dot_update_left(coeffs, colj, i, coeffs[i] + q * c);
        assert(colj[i] == gi);
        assert(row_mat_mul(c2, m, p)[j] == (d + (q * c) * gi) % p);
        lemma_mul_is_distributive_sub(c, row[j], g);
        assert(row_mat_mul(coeffs, m.update(r, row), p)[j] == (d + c * (row[j] - g)) % p);
        assert((d + c * (row[j] - g)) == ((d - c * g) + c * row[j]));
        lemma_mul_mod_noop_right(c, row[j], p);
        lemma_mul_mod_noop_right(c, g + q * gi, p);
        lemma_add_congruent(d - c * g, d - c * g, c * (g + q * gi), c * row[j], p);
        lemma_mul_is_distributive_add(c, g, q * gi);
        lemma_mul_is_associative(c, q, gi);
        lemma_mul_is_commutative(c, q);
        assert(((d - c * g) + c * (g + q * gi)) == (d + (q * c) * gi));
    }
    assert(row_mat_mul(c2, m, p) =~= row_mat_mul(coeffs, m.update(r, row), p));
}

/// Swapping two coordinates of both factors leaves the dot product alone.
proof fn lemma_dot_swap(u: Seq<int>, v: Seq<int>, a: int, b: int)
    requires
        u.len() == v.len(),
        0 <= a < u.len(),
        0 <= b < u.len(),
        a != b,
    ensures
        dot(u.update(a, u[b]).update(b, u[a]), v.update(a, v[b]).update(b, v[a])) == dot(u, v),
{
    let u2 = u.update(a, u[b]).update(b, u[a]);
    let v1 = v.update(a, v[b]);
    let v2 = v1.update(b, v[a]);
    lemma_dot_update_left(u, v, a, u[b]);
    lemma_dot_update_left(u.update(a, u[b]), v, b, u[a]);
    lemma_dot_update_right(u2, v, a, v[b]);
    lemma_dot_update_right(u2, v1, b, v[a]);
    assert(u2[a] == u[b]);
    assert(u2[b] == u[a]);
    assert(v1[b] == v[b]);
    lemma_mul_is_distributive_sub_other_way(v[a], u[b], u[a]);
    lemma_mul_is_distributive_sub_other_way(v[b], u[a], u[b]);
    lemma_mul_is_distributive_sub(u[b], v[b], v[a]);
    lemma_mul_is_distributive_sub(u[a], v[a], v[b]);
}

/// A row swap is matched by swapping the two coefficients.
proof fn lemma_rowmatmul_swap_witness(coeffs: Seq<int>, m: Seq<Seq<int>>, a: int, b: int, p: int)
    requires
        m.len() >= 1,
        is_rect(m, m[0].len() as int),
        coeffs.len() == m.len(),
        0 <= a < m.len(),
        0 <= b < m.len(),
        a != b,
    ensures
        row_mat_mul(
            coeffs.update(a, coeffs[b]).update(b, coeffs[a]),
            m.update(a, m[b]).update(b, m[a]),
            p,
        ) == row_mat_mul(coeffs, m, p),
{
    let cols = m[0].len() as int;
    let m2 = m.update(a, m[b]).update(b, m[a]);
    let c2 = coeffs.update(a, coeffs[b]).update(b, coeffs[a]);
    assert(m2[0].len() == cols);
    assert forall|j: int| 0 <= j < cols implies #[trigger] row_mat_mul(c2, m2, p)[j]
        == row_mat_mul(coeffs, m, p)[j] by {
        let colj = column(m, j);
        assert(column(m2, j) =~= colj.update(a, colj[b]).update(b, colj[a]));
        lemma_dot_swap(coeffs, colj, a, b);
    }
    assert(row_mat_mul(c2, m2, p) =~= row_mat_mul(coeffs, m, p));
}

/// Reducing entries coordinatewise modulo `p` leaves the code alone; in
/// fact every combination comes out unchanged.
pub proof fn lemma_rowspace_congruent(m1: Seq<Seq<int>>, m2: Seq<Seq<int>>, p: int)
    requires
        1 <= p,
        m1.len() >= 1,
        m1.len() == m2.len(),
        is_rect(m1, m1[0].len() as int),
        is_rect(m2, m1[0].len() as int),
        forall|r: int, j: int|
            0 <= r < m1.len() && 0 <= j < m1[0].len() ==> #[trigger] m1[r][j] % p == m2[r][j] % p,
    ensures
        same_rowspace(m1, m2, p),
        forall|coeffs: Seq<int>|
            coeffs.len() == m1.len() ==> #[trigger] row_mat_mul(coeffs, m1, p) == row_mat_mul(
                coeffs,
                m2,
                p,
            ),
{
    let cols = m1[0].len() as int;
    assert forall|coeffs: Seq<int>| coeffs.len() == m1.len() implies #[trigger] row_mat_mul(
        coeffs,
        m1,
        p,
    ) == row_mat_mul(coeffs, m2, p) by {
        assert forall|j: int| 0 <= j < cols implies #[trigger] row_mat_mul(coeffs, m1, p)[j]
            == row_mat_mul(coeffs, m2, p)[j] by {
            assert forall|t: int| 0 <= t < m1.len() implies #[trigger] column(m1, j)[t] % p
                == column(m2, j)[t] % p by {
                assert(m1[t][j] % p == m2[t][j] % p);
            }
            lemma_dot_congruent_right(coeffs, column(m1, j), column(m2, j), p);
        }
        assert(row_mat_mul(coeffs, m1, p) =~= row_mat_mul(coeffs, m2, p));
    }
    assert forall|v: Seq<int>| in_rowspace(v, m1, p) <==> in_rowspace(v, m2, p) by {
        if in_rowspace(v, m1, p) {
            let coeffs = choose|c: Seq<int>| c.len() == m1.len() && v == row_mat_mul(c, m1, p);
            assert(v == row_mat_mul(coeffs, m2, p));
        }
        if in_rowspace(v, m2, p) {
            let coeffs = choose|c: Seq<int>| c.len() == m2.len() && v == row_mat_mul(c, m2, p);
            assert(v == row_mat_mul(coeffs, m1, p));
        }
    }
}

/// Swapping two rows leaves the code alone.
pub proof fn lemma_rowspace_swap(m: Seq<Seq<int>>, a: int, b: int, p: int)
    requires
        1 <= p,
        m.len() >= 1,
        is_rect(m, m[0].len() as int),
        0 <= a < m.len(),
        0 <= b < m.len(),
        a != b,
    ensures
        same_rowspace(m, m.update(a, m[b]).update(b, m[a]), p),
{
    let m2 = m.update(a, m[b]).update(b, m[a]);
    assert(is_rect(m2, m[0].len() as int));
    assert forall|v: Seq<int>| in_rowspace(v, m, p) <==> in_rowspace(v, m2, p) by {
        if in_rowspace(v, m, p) {
            let coeffs = choose|c: Seq<int>| c.len() == m.len() && v == row_mat_mul(c, m, p);
            lemma_rowmatmul_swap_witness(coeffs, m, a, b, p);
            assert(v == row_mat_mul(coeffs.update(a, coeffs[b]).update(b, coeffs[a]), m2, p));
        }
        if in_rowspace(v, m2, p) {
            let coeffs = choose|c: Seq<int>| c.len() == m2.len() && v == row_mat_mul(c, m2, p);
            lemma_rowmatmul_swap_witness(coeffs, m2, a, b, p);
            assert(m2.update(a, m2[b]).update(b, m2[a]) =~= m);
            assert(v == row_mat_mul(coeffs.update(a, coeffs[b]).update(b, coeffs[a]), m, p));
        }
    }
}

/// Scaling a row by a unit of `Z_p` leaves the code alone: the scaling is
/// undone by the unit's inverse.
pub proof fn lemma_rowspace_scale(
    m: Seq<Seq<int>>,
    row: Seq<int>,
    r: int,
    t: int,
    tinv: int,
    p: int,
)
    requires
        1 <= p,
        m.len() >= 1,
        is_rect(m, m[0].len() as int),
        row.len() == m[0].len(),
        0 <= r < m.len(),
        forall|j: int| 0 <= j < row.len() ==> #[trigger] row[j] % p == (t * m[r][j]) % p,
        (t * tinv) % p == 1,
    ensures
        same_rowspace(m, m.update(r, row), p),
{
    let m2 = m.update(r, row);
    assert(is_rect(m2, m[0].len() as int));
    assert forall|j: int| 0 <= j < m[r].len() implies #[trigger] m[r][j] % p == (tinv * m2[r][j])
        % p by {
        let g = m[r][j];
        lemma_mul_mod_noop_right(tinv, row[j], p);
        lemma_mul_mod_noop_right(tinv, t * g, p);
        lemma_mul_is_associative(tinv, t, g);
        lemma_mul_is_commutative(tinv, t);
        lemma_mul_mod_noop_left(t * tinv, g, p);
        assert(m2[r][j] == row[j]);
    }
    assert forall|v: Seq<int>| in_rowspace(v, m, p) <==> in_rowspace(v, m2, p) by {
        if in_rowspace(v, m, p) {
            let coeffs = choose|c: Seq<int>| c.len() == m.len() && v == row_mat_mul(c, m, p);
            assert(m2.update(r, m[r]) =~= m);
            assert(m2[r].len() == m[0].len());
            lemma_rowmatmul_scale_witness(coeffs, m2, m[r], r, tinv, p);
            assert(v == row_mat_mul(coeffs.update(r, coeffs[r] * tinv), m2, p));
        }
        if in_rowspace(v, m2, p) {
            let coeffs = choose|c: Seq<int>| c.len() == m2.len() && v == row_mat_mul(c, m2, p);
            lemma_rowmatmul_scale_witness(coeffs, m, row, r, t, p);
            assert(v == row_mat_mul(coeffs.update(r, coeffs[r] * t), m, p));
        }
    }
}

/// Adding a multiple of one row onto another leaves the code alone: the
/// addition is undone by subtracting the same multiple.
pub proof fn lemma_rowspace_addmul(
    m: Seq<Seq<int>>,
    row: Seq<int>,
    r: int,
    i: int,
    q: int,
    p: int,
)
    requires
        1 <= p,
        m.len() >= 1,
        is_rect(m, m[0].len() as int),
        row.len() == m[0].len(),
        0 <= r < m.len(),
        0 <= i < m.len(),
        i != r,
        forall|j: int|
            0 <= j < row.len() ==> #[trigger] row[j] % p == (m[r][j] + q * m[i][j]) % p,
    ensures
        same_rowspace(m, m.update(r, row), p),
{
    let m2 = m.update(r, row);
    assert(is_rect(m2, m[0].len() as int));
    assert forall|j: int| 0 <= j < m[r].len() implies #[trigger] m[r][j] % p == (m2[r][j] + (-q)
        * m2[i][j]) % p by {
        let g = m[r][j];
        let gi = m[i][j];
        assert(m2[r][j] == row[j]);
        assert(m2[i][j] == gi);
        lemma_mul_unary_negation(q, gi);
        lemma_add_congruent(row[j], g + q * gi, (-q) * gi, (-q) * gi, p);
        assert((g + q * gi) + (-q) * gi == g);
    }
    assert forall|v: Seq<int>| in_rowspace(v, m, p) <==> in_rowspace(v, m2, p) by {
        if in_rowspace(v, m, p) {
            let coeffs = choose|c: Seq<int>| c.len() == m.len() && v == row_mat_mul(c, m, p);
            assert(m2.update(r, m[r]) =~= m);
            assert(m2[r].len() == m[0].len());
            lemma_rowmatmul_addmul_witness(coeffs, m2, m[r], r, i, -q, p);
            assert(v == row_mat_mul(coeffs.update(i, coeffs[i] + (-q) * coeffs[r]), m2, p));
        }
        if in_rowspace(v, m2, p) {
            let coeffs = choose|c: Seq<int>| c.len() == m2.len() && v == row_mat_mul(c, m2, p);
            lemma_rowmatmul_addmul_witness(coeffs, m, row, r, i, q, p);
            assert(v == row_mat_mul(coeffs.update(i, coeffs[i] + q * coeffs[r]), m, p));
        }
    }
}

/// A matrix whose pivot search is stuck — the first `i` columns are unit
/// columns, yet column `i` is zero from row `i` down — generates no code
/// that any systematic matrix with the same row and column counts
/// generates: row `i` of such a matrix would have to start with `i` zeros
/// and then a one, which no combination of the stuck matrix's rows can
/// produce.
pub proof fn lemma_stuck_pivot_not_systematic(
    m: Seq<Seq<int>>,
    g: Seq<Seq<int>>,
    p: int,
    i: int,
)
    requires
        1 <= p,
        m.len() >= 1,
        is_rect(m, m[0].len() as int),
        0 <= i < m.len(),
        i < m[0].len(),
        columns_unit(m, i),
        forall|r: int| i <= r < m.len() ==> (#[trigger] m[r])[i] == 0,
        is_systematic(g, p),
        g.len() == m.len(),
        g[0].len() == m[0].len(),
    ensures
        !same_rowspace(m, g, p),
{
    let k = m.len() as int;
    let n = m[0].len() as int;
    if same_rowspace(m, g, p) {
        // row i of the systematic matrix is one of its own codewords
        let unit = Seq::new(k as nat, |t: int| if t == i { 1int } else { 0int });
        assert forall|j: int| 0 <= j < n implies #[trigger] row_mat_mul(unit, g, p)[j]
            == g[i][j] by {
            assert(g[i].len() == n);
            lemma_dot_unit_left(unit, column(g, j), i);
            assert(column(g, j)[i] == g[i][j]);
            assert(in_range(g[i], p)) by {
                assert(mat_in_range(g, p));
            }
            lemma_inrange_mod(g[i][j], p);
        }
        assert(row_mat_mul(unit, g, p) =~= g[i]);
        assert(in_rowspace(g[i], g, p));
        assert(in_rowspace(g[i], m, p));

        // yet no combination of m's rows can reach it: the first i unit
        // columns force the first i coefficients to vanish modulo p, and
        // column i then has no contribution left to make a one
        let c = choose|c: Seq<int>| c.len() == m.len() && g[i] == row_mat_mul(c, m, p);
        assert forall|t: int| 0 <= t < i implies #[trigger] c[t] % p == 0 by {
            assert forall|r2: int| 0 <= r2 < k implies #[trigger] column(m, t)[r2] == if r2 == t {
                1int
            } else {
                0int
            } by {
                assert(column(m, t)[r2] == m[r2][t]);
            }
            lemma_dot_unit_right(c, column(m, t), t);
            assert(row_mat_mul(c, m, p)[t] == dot(c, column(m, t)) % p);
            assert(g[i][t] == 0);
        }
        let coli = column(m, i);
        assert forall|t: int| 0 <= t < k implies #[trigger] c[t] % p == 0 || #[trigger] coli[t]
            == 0 by {
            if t >= i {
                assert(coli[t] == m[t][i]);
                assert(m[t][i] == 0);
            }
        }
        lemma_dot_vanishes(c, coli, p);
        assert(row_mat_mul(c, m, p)[i] == dot(c, coli) % p);
        assert(g[i][i] == 1);
        assert(false);
    }
}

/// The systematic form of a code is unique: two systematic matrices of the
/// same shape that generate the same code are equal. The reduced generator
/// the decoder derives is therefore fully determined by the caller's
/// matrix, and repeated calls agree.
pub proof fn lemma_systematic_form_unique(g1: Seq<Seq<int>>, g2: Seq<Seq<int>>, p: int)
    requires
        1 <= p,
        is_systematic(g1, p),
        is_systematic(g2, p),
        g1.len() == g2.len(),
        g1[0].len() == g2[0].len(),
        same_rowspace(g1, g2, p),
    ensures
        g1 == g2,
{
    let k = g1.len() as int;
    let n = g1[0].len() as int;
    assert forall|i: int| 0 <= i < k implies #[trigger] g1[i] == g2[i] by {
        // row i of g1 is a codeword of g1, so of g2
        let unit = Seq::new(k as nat, |t: int| if t == i { 1int } else { 0int });
        assert forall|j: int| 0 <= j < n implies #[trigger] row_mat_mul(unit, g1, p)[j]
            == g1[i][j] by {
            assert(g1[i].len() == n);
            lemma_dot_unit_left(unit, column(g1, j), i);
            assert(column(g1, j)[i] == g1[i][j]);
            assert(in_range(g1[i], p)) by {
                assert(mat_in_range(g1, p));
            }
            lemma_inrange_mod(g1[i][j], p);
        }
        assert(row_mat_mul(unit, g1, p) =~= g1[i]);
        assert(in_rowspace(g1[i], g1, p));
        assert(in_rowspace(g1[i], g2, p));

        // its combination over g2 must use exactly the unit coefficients
        let c = choose|c: Seq<int>| c.len() == g2.len() && g1[i] == row_mat_mul(c, g2, p);
        assert forall|t: int| 0 <= t < k implies #[trigger] c[t] % p == unit[t] by {
            assert forall|r2: int| 0 <= r2 < k implies #[trigger] column(g2, t)[r2] == if r2 == t {
                1int
            } else {
                0int
            } by {
                assert(column(g2, t)[r2] == g2[r2][t]);
            }
            lemma_dot_unit_right(c, column(g2, t), t);
            assert(row_mat_mul(c, g2, p)[t] == dot(c, column(g2, t)) % p);
            assert(g1[i][t] == if t == i {
                1int
            } else {
                0int
            });
        }
        assert(vmod(c, p) =~= unit);
        assert forall|j: int| 0 <= j < n implies #[trigger] g1[i][j] == g2[i][j] by {
            crate::algebra::lemma_dot_mod_left(c, column(g2, j), p);
            lemma_dot_unit_left(unit, column(g2, j), i);
            assert(column(g2, j)[i] == g2[i][j]);
            assert(g1[i][j] == dot(c, column(g2, j)) % p);
            assert(in_range(g2[i], p)) by {
                assert(mat_in_range(g2, p));
            }
            lemma_inrange_mod(g2[i][j], p);
        }
        assert(g1[i] =~= g2[i]);
    }
    assert(g1 =~= g2);
}

} // verus!
