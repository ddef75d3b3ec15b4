//! The mathematical model of vectors and matrices over `Z_p`, and the
//! modular-arithmetic facts the executable code is proved against.

use vstd::prelude::*;

verus! {

use vstd::arithmetic::div_mod::{
    lemma_add_mod_noop,
    lemma_fundamental_div_mod,
    lemma_fundamental_div_mod_converse_mod,
    lemma_mod_bound,
    lemma_mul_mod_noop,
    lemma_small_mod,
};

/// The field-size cap under which all modular products fit in a machine word.
pub open spec fn modulus_bound() -> int {
    0x7fff_ffff
}

/// The integer sequence that a vector of machine words stands for.
pub open spec fn vint(s: Seq<i64>) -> Seq<int> {
    s.map_values(|x: i64| x as int)
}

/// The integer matrix that a vector of rows stands for.
pub open spec fn mint(m: Seq<Vec<i64>>) -> Seq<Seq<int>> {
    m.map_values(|r: Vec<i64>| vint(r@))
}

/// The sequence with every coordinate reduced into `[0, p)`.
pub open spec fn vmod(s: Seq<int>, p: int) -> Seq<int> {
    s.map_values(|x: int| x % p)
}

/// Every coordinate lies in the field range `[0, p)`.
pub open spec fn in_range(s: Seq<int>, p: int) -> bool {
    forall|i: int| 0 <= i < s.len() ==> 0 <= #[trigger] s[i] < p
}

/// Every row has length `cols`.
pub open spec fn is_rect(m: Seq<Seq<int>>, cols: int) -> bool {
    forall|i: int| 0 <= i < m.len() ==> (#[trigger] m[i]).len() == cols
}

/// Every entry of the matrix lies in `[0, p)`.
pub open spec fn mat_in_range(m: Seq<Seq<int>>, p: int) -> bool {
    forall|i: int| 0 <= i < m.len() ==> in_range(#[trigger] m[i], p)
}

/// Column `j` of the matrix.
pub open spec fn column(m: Seq<Seq<int>>, j: int) -> Seq<int> {
    Seq::new(m.len(), |i: int| m[i][j])
}

/// The first `upto` columns are unit columns: column `c` holds a one in row
/// `c` and zeros elsewhere.
pub open spec fn columns_unit(m: Seq<Seq<int>>, upto: int) -> bool {
    forall|r: int, c: int|
        0 <= r < m.len() && 0 <= c < upto ==> #[trigger] m[r][c] == if r == c {
            1int
        } else {
            0int
        }
}

/// The matrix starts with an identity block as wide as its row count.
pub open spec fn leading_identity(m: Seq<Seq<int>>) -> bool {
    columns_unit(m, m.len() as int)
}

/// A systematic generator matrix `[I_k | A]`: rectangular, at least as wide
/// as it is tall, all entries reduced, and a leading identity block.
pub open spec fn is_systematic(m: Seq<Seq<int>>, p: int) -> bool {
    &&& m.len() >= 1
    &&& m.len() <= m[0].len()
    &&& is_rect(m, m[0].len() as int)
    &&& mat_in_range(m, p)
    &&& leading_identity(m)
}

/// Dot product of two sequences of equal length.
pub open spec fn dot(u: Seq<int>, v: Seq<int>) -> int
    decreases u.len(),
{
    if u.len() == 0 {
        0
    } else {
        dot(u.drop_last(), v.drop_last()) + u.last() * v.last()
    }
}

/// Vector-matrix product over `Z_p`: coordinate `j` is the dot product of
/// `v` with column `j` of `m`, reduced into `[0, p)`.
pub open spec fn row_mat_mul(v: Seq<int>, m: Seq<Seq<int>>, p: int) -> Seq<int> {
    Seq::new(m[0].len(), |j: int| dot(v, column(m, j)) % p)
}

/// Hamming weight: the number of nonzero coordinates.
pub open spec fn weight(s: Seq<int>) -> nat
    decreases s.len(),
{
    if s.len() == 0 {
        0
    } else {
        weight(s.drop_last()) + if s.last() == 0 {
            0nat
        } else {
            1nat
        }
    }
}

/// Every coordinate is zero.
pub open spec fn is_zero_seq(s: Seq<int>) -> bool {
    forall|i: int| 0 <= i < s.len() ==> #[trigger] s[i] == 0
}

/// Extending a sequence by one coordinate adds its contribution to the
/// dot product of the prefixes.
pub proof fn lemma_dot_take_step(a: Seq<int>, b: Seq<int>, i: int)
    requires
        0 <= i < a.len(),
        i < b.len(),
    ensures
        dot(a.take(i + 1), b.take(i + 1)) == dot(a.take(i), b.take(i)) + a[i] * b[i],
{
    assert(a.take(i + 1).drop_last() =~= a.take(i));
    assert(b.take(i + 1).drop_last() =~= b.take(i));
}

/// Reducing both sequences coordinatewise does not change the dot product
/// modulo `p`.
pub proof fn lemma_dot_mod_both(u: Seq<int>, v: Seq<int>, p: int)
    requires
        1 <= p,
        u.len() == v.len(),
    ensures
        dot(vmod(u, p), vmod(v, p)) % p == dot(u, v) % p,
    decreases u.len(),
{
    if u.len() == 0 {
        assert(vmod(u, p).len() == 0);
    } else {
        assert(vmod(u, p).drop_last() =~= vmod(u.drop_last(), p));
        assert(vmod(v, p).drop_last() =~= vmod(v.drop_last(), p));
        lemma_dot_mod_both(u.drop_last(), v.drop_last(), p);
        let d1 = dot(vmod(u.drop_last(), p), vmod(v.drop_last(), p));
        let d0 = dot(u.drop_last(), v.drop_last());
        let lu = u.last();
        let lv = v.last();
        assert(vmod(u, p).last() == lu % p);
        assert(vmod(v, p).last() == lv % p);
        lemma_mul_mod_noop(lu, lv, p);
        lemma_add_mod_noop(d1, (lu % p) * (lv % p), p);
        lemma_add_mod_noop(d0, lu * lv, p);
    }
}

/// Reducing the left sequence coordinatewise does not change the dot
/// product modulo `p`.
pub proof fn lemma_dot_mod_left(u: Seq<int>, v: Seq<int>, p: int)
    requires
        1 <= p,
        u.len() == v.len(),
    ensures
        dot(vmod(u, p), v) % p == dot(u, v) % p,
    decreases u.len(),
{
    if u.len() == 0 {
        assert(vmod(u, p).len() == 0);
    } else {
        assert(vmod(u, p).drop_last() =~= vmod(u.drop_last(), p));
        lemma_dot_mod_left(u.drop_last(), v.drop_last(), p);
        let d1 = dot(vmod(u.drop_last(), p), v.drop_last());
        let d0 = dot(u.drop_last(), v.drop_last());
        let lu = u.last();
        let lv = v.last();
        assert(vmod(u, p).last() == lu % p);
        vstd::arithmetic::div_mod::lemma_mul_mod_noop_left(lu, lv, p);
        lemma_add_mod_noop(d1, (lu % p) * lv, p);
        lemma_add_mod_noop(d0, lu * lv, p);
        vstd::arithmetic::div_mod::lemma_mod_twice((lu % p) * lv, p);
        vstd::arithmetic::div_mod::lemma_mod_twice(lu * lv, p);
    }
}

/// The dot product with an all-zero left factor is zero.
pub proof fn lemma_dot_zero_left(u: Seq<int>, v: Seq<int>)
    requires
        is_zero_seq(u),
        u.len() == v.len(),
    ensures
        dot(u, v) == 0,
    decreases u.len(),
{
    if u.len() > 0 {
        assert(is_zero_seq(u.drop_last()));
        lemma_dot_zero_left(u.drop_last(), v.drop_last());
        assert(u.last() == 0);
    }
}

/// Appending a coordinate raises the weight exactly when it is nonzero.
pub proof fn lemma_weight_push(s: Seq<int>, x: int)
    ensures
        weight(s.push(x)) == weight(s) + if x == 0 {
            0nat
        } else {
            1nat
        },
{
    assert(s.push(x).drop_last() =~= s);
    assert(s.push(x).last() == x);
}

/// The weight never exceeds the length.
pub proof fn lemma_weight_le_len(s: Seq<int>)
    ensures
        weight(s) <= s.len(),
    decreases s.len(),
{
    if s.len() > 0 {
        lemma_weight_le_len(s.drop_last());
    }
}

/// The dot product with a unit vector on the left picks out one coordinate.
pub proof fn lemma_dot_unit_left(u: Seq<int>, v: Seq<int>, j: int)
    requires
        u.len() == v.len(),
        0 <= j < u.len(),
        forall|t: int| 0 <= t < u.len() ==> #[trigger] u[t] == if t == j {
            1int
        } else {
            0int
        },
    ensures
        dot(u, v) == v[j],
    decreases u.len(),
{
    if j == u.len() - 1 {
        assert(is_zero_seq(u.drop_last()));
        lemma_dot_zero_left(u.drop_last(), v.drop_last());
        assert(u.last() == 1);
    } else {
        assert forall|t: int| 0 <= t < u.drop_last().len() implies #[trigger] u.drop_last()[t]
            == if t == j {
            1int
        } else {
            0int
        } by {
            assert(u.drop_last()[t] == u[t]);
        }
        lemma_dot_unit_left(u.drop_last(), v.drop_last(), j);
        assert(u.last() == 0);
    }
}

/// A dot product vanishes modulo `p` when at every coordinate either the
/// left factor is divisible by `p` or the right factor is zero.
pub proof fn lemma_dot_vanishes(u: Seq<int>, v: Seq<int>, p: int)
    requires
        1 <= p,
        u.len() == v.len(),
        forall|t: int| 0 <= t < u.len() ==> #[trigger] u[t] % p == 0 || #[trigger] v[t] == 0,
    ensures
        dot(u, v) % p == 0,
    decreases u.len(),
{
    if u.len() == 0 {
        lemma_small_mod(0nat, p as nat);
    } else {
        assert forall|t: int| 0 <= t < u.drop_last().len() implies #[trigger] u.drop_last()[t] % p
            == 0 || #[trigger] v.drop_last()[t] == 0 by {
            assert(u[t] % p == 0 || v[t] == 0);
        }
        lemma_dot_vanishes(u.drop_last(), v.drop_last(), p);
        let d = dot(u.drop_last(), v.drop_last());
        let t = u.last() * v.last();
        assert(t % p == 0) by {
            if u.last() % p == 0 {
                vstd::arithmetic::div_mod::lemma_mul_mod_noop_left(u.last(), v.last(), p);
                assert((u.last() % p) * v.last() == 0);
                lemma_small_mod(0nat, p as nat);
            } else {
                assert(v.last() == 0);
                lemma_small_mod(0nat, p as nat);
            }
        }
        lemma_add_mod_noop(d, t, p);
        lemma_small_mod(0nat, p as nat);
    }
}

/// Replacing one coordinate of the left factor shifts the dot product by
/// the change times the matching right coordinate.
pub proof fn lemma_dot_update_left(u: Seq<int>, v: Seq<int>, i: int, a: int)
    requires
        u.len() == v.len(),
        0 <= i < u.len(),
    ensures
        dot(u.update(i, a), v) == dot(u, v) + (a - u[i]) * v[i],
    decreases u.len(),
{
    if i == u.len() - 1 {
        assert(u.update(i, a).drop_last() =~= u.drop_last());
        assert(u.update(i, a).last() == a);
        vstd::arithmetic::mul::lemma_mul_is_distributive_sub_other_way(v[i], a, u[i]);
    } else {
        assert(u.update(i, a).drop_last() =~= u.drop_last().update(i, a));
        assert(u.update(i, a).last() == u.last());
        lemma_dot_update_left(u.drop_last(), v.drop_last(), i, a);
        assert(u.drop_last()[i] == u[i]);
        assert(v.drop_last()[i] == v[i]);
    }
}

/// Replacing one coordinate of the right factor shifts the dot product by
/// the matching left coordinate times the change.
pub proof fn lemma_dot_update_right(u: Seq<int>, v: Seq<int>, i: int, a: int)
    requires
        u.len() == v.len(),
        0 <= i < u.len(),
    ensures
        dot(u, v.update(i, a)) == dot(u, v) + u[i] * (a - v[i]),
    decreases u.len(),
{
    if i == u.len() - 1 {
        assert(v.update(i, a).drop_last() =~= v.drop_last());
        assert(v.update(i, a).last() == a);
        vstd::arithmetic::mul::lemma_mul_is_distributive_sub(u[i], a, v[i]);
    } else {
        assert(v.update(i, a).drop_last() =~= v.drop_last().update(i, a));
        assert(v.update(i, a).last() == v.last());
        lemma_dot_update_right(u.drop_last(), v.drop_last(), i, a);
        assert(u.drop_last()[i] == u[i]);
        assert(v.drop_last()[i] == v[i]);
    }
}

/// The coordinatewise difference, reduced into `[0, p)`.
pub open spec fn vsub(a: Seq<int>, b: Seq<int>, p: int) -> Seq<int> {
    Seq::new(a.len(), |i: int| (a[i] - b[i]) % p)
}

/// Sums of congruent terms are congruent.
pub proof fn lemma_add_congruent(a: int, a2: int, b: int, b2: int, p: int)
    requires
        1 <= p,
        a % p == a2 % p,
        b % p == b2 % p,
    ensures
        (a + b) % p == (a2 + b2) % p,
{
    lemma_add_mod_noop(a, b, p);
    lemma_add_mod_noop(a2, b2, p);
}

/// Negations of congruent terms are congruent.
pub proof fn lemma_neg_congruent(a: int, a2: int, p: int)
    requires
        1 <= p,
        a % p == a2 % p,
    ensures
        (-a) % p == (-a2) % p,
{
    vstd::arithmetic::div_mod::lemma_sub_mod_noop(0, a, p);
    vstd::arithmetic::div_mod::lemma_sub_mod_noop(0, a2, p);
    lemma_small_mod(0nat, p as nat);
}

/// The dot product with an all-zero right factor is zero.
pub proof fn lemma_dot_zero_right(u: Seq<int>, v: Seq<int>)
    requires
        is_zero_seq(v),
        u.len() == v.len(),
    ensures
        dot(u, v) == 0,
    decreases u.len(),
{
    if u.len() > 0 {
        assert(is_zero_seq(v.drop_last()));
        lemma_dot_zero_right(u.drop_last(), v.drop_last());
        assert(v.last() == 0);
    }
}

/// The dot product with a unit vector picks out one coordinate.
pub proof fn lemma_dot_unit_right(u: Seq<int>, v: Seq<int>, j: int)
    requires
        u.len() == v.len(),
        0 <= j < v.len(),
        forall|t: int| 0 <= t < v.len() ==> #[trigger] v[t] == if t == j {
            1int
        } else {
            0int
        },
    ensures
        dot(u, v) == u[j],
    decreases u.len(),
{
    if j == u.len() - 1 {
        assert(is_zero_seq(v.drop_last()));
        lemma_dot_zero_right(u.drop_last(), v.drop_last());
        assert(v.last() == 1);
    } else {
        assert forall|t: int| 0 <= t < v.drop_last().len() implies #[trigger] v.drop_last()[t]
            == if t == j {
            1int
        } else {
            0int
        } by {
            assert(v.drop_last()[t] == v[t]);
        }
        lemma_dot_unit_right(u.drop_last(), v.drop_last(), j);
        assert(v.last() == 0);
    }
}

/// The dot product splits across a cut of both sequences.
pub proof fn lemma_dot_split(u: Seq<int>, v: Seq<int>, m: int)
    requires
        u.len() == v.len(),
        0 <= m <= u.len(),
    ensures
        dot(u, v) == dot(u.take(m), v.take(m)) + dot(u.skip(m), v.skip(m)),
    decreases u.len() - m,
{
    if m == u.len() {
        assert(u.take(m) =~= u);
        assert(v.take(m) =~= v);
        assert(u.skip(m).len() == 0);
    } else {
        assert(u.drop_last().take(m) =~= u.take(m));
        assert(v.drop_last().take(m) =~= v.take(m));
        assert(u.drop_last().skip(m) =~= u.skip(m).drop_last());
        assert(v.drop_last().skip(m) =~= v.skip(m).drop_last());
        lemma_dot_split(u.drop_last(), v.drop_last(), m);
        assert(u.skip(m).last() == u.last());
        assert(v.skip(m).last() == v.last());
        assert(u.skip(m).len() > 0);
    }
}

/// Replacing the right factor by a coordinatewise congruent one keeps the
/// dot product congruent.
pub proof fn lemma_dot_congruent_right(u: Seq<int>, v1: Seq<int>, v2: Seq<int>, p: int)
    requires
        1 <= p,
        u.len() == v1.len(),
        v1.len() == v2.len(),
        forall|i: int| 0 <= i < v1.len() ==> #[trigger] v1[i] % p == v2[i] % p,
    ensures
        dot(u, v1) % p == dot(u, v2) % p,
    decreases u.len(),
{
    if u.len() > 0 {
        assert forall|i: int| 0 <= i < v1.drop_last().len() implies #[trigger] v1.drop_last()[i]
            % p == v2.drop_last()[i] % p by {
            assert(v1[i] % p == v2[i] % p);
        }
        lemma_dot_congruent_right(u.drop_last(), v1.drop_last(), v2.drop_last(), p);
        assert(v1.last() % p == v2.last() % p);
        vstd::arithmetic::div_mod::lemma_mul_mod_noop_right(u.last(), v1.last(), p);
        vstd::arithmetic::div_mod::lemma_mul_mod_noop_right(u.last(), v2.last(), p);
        lemma_add_congruent(
            dot(u.drop_last(), v1.drop_last()),
            dot(u.drop_last(), v2.drop_last()),
            u.last() * v1.last(),
            u.last() * v2.last(),
            p,
        );
    }
}

/// Replacing the left factor by a coordinatewise congruent one keeps the
/// dot product congruent.
pub proof fn lemma_dot_congruent_left(u1: Seq<int>, u2: Seq<int>, v: Seq<int>, p: int)
    requires
        1 <= p,
        u1.len() == u2.len(),
        u1.len() == v.len(),
        forall|i: int| 0 <= i < u1.len() ==> #[trigger] u1[i] % p == u2[i] % p,
    ensures
        dot(u1, v) % p == dot(u2, v) % p,
    decreases u1.len(),
{
    if u1.len() > 0 {
        assert forall|i: int| 0 <= i < u1.drop_last().len() implies #[trigger] u1.drop_last()[i]
            % p == u2.drop_last()[i] % p by {
            assert(u1[i] % p == u2[i] % p);
        }
        lemma_dot_congruent_left(u1.drop_last(), u2.drop_last(), v.drop_last(), p);
        assert(u1.last() % p == u2.last() % p);
        vstd::arithmetic::div_mod::lemma_mul_mod_noop_left(u1.last(), v.last(), p);
        vstd::arithmetic::div_mod::lemma_mul_mod_noop_left(u2.last(), v.last(), p);
        lemma_add_congruent(
            dot(u1.drop_last(), v.drop_last()),
            dot(u2.drop_last(), v.drop_last()),
            u1.last() * v.last(),
            u2.last() * v.last(),
            p,
        );
    }
}

/// Negating the right factor coordinatewise negates the dot product.
pub proof fn lemma_dot_neg_right_raw(u: Seq<int>, v: Seq<int>, nv: Seq<int>)
    requires
        u.len() == v.len(),
        v.len() == nv.len(),
        forall|i: int| 0 <= i < v.len() ==> #[trigger] nv[i] == -v[i],
    ensures
        dot(u, nv) == -dot(u, v),
    decreases u.len(),
{
    if u.len() > 0 {
        assert forall|i: int| 0 <= i < v.drop_last().len() implies #[trigger] nv.drop_last()[i]
            == -v.drop_last()[i] by {
            assert(nv[i] == -v[i]);
        }
        lemma_dot_neg_right_raw(u.drop_last(), v.drop_last(), nv.drop_last());
        assert(nv.last() == -v.last());
        vstd::arithmetic::mul::lemma_mul_unary_negation(u.last(), v.last());
    }
}

/// The dot product is linear in a coordinatewise difference of the left
/// factor.
pub proof fn lemma_dot_sub_left_raw(a: Seq<int>, b: Seq<int>, v: Seq<int>, d: Seq<int>)
    requires
        a.len() == b.len(),
        a.len() == v.len(),
        a.len() == d.len(),
        forall|i: int| 0 <= i < a.len() ==> #[trigger] d[i] == a[i] - b[i],
    ensures
        dot(d, v) == dot(a, v) - dot(b, v),
    decreases a.len(),
{
    if a.len() > 0 {
        assert forall|i: int| 0 <= i < a.drop_last().len() implies #[trigger] d.drop_last()[i]
            == a.drop_last()[i] - b.drop_last()[i] by {
            assert(d[i] == a[i] - b[i]);
        }
        lemma_dot_sub_left_raw(a.drop_last(), b.drop_last(), v.drop_last(), d.drop_last());
        assert(d.last() == a.last() - b.last());
        vstd::arithmetic::mul::lemma_mul_is_distributive_sub_other_way(
            v.last(),
            a.last(),
            b.last(),
        );
    }
}

/// The dot product is linear in a coordinatewise sum of the left factor.
pub proof fn lemma_dot_add_left_raw(a: Seq<int>, b: Seq<int>, v: Seq<int>, s: Seq<int>)
    requires
        a.len() == b.len(),
        a.len() == v.len(),
        a.len() == s.len(),
        forall|i: int| 0 <= i < a.len() ==> #[trigger] s[i] == a[i] + b[i],
    ensures
        dot(s, v) == dot(a, v) + dot(b, v),
    decreases a.len(),
{
    if a.len() > 0 {
        assert forall|i: int| 0 <= i < a.drop_last().len() implies #[trigger] s.drop_last()[i]
            == a.drop_last()[i] + b.drop_last()[i] by {
            assert(s[i] == a[i] + b[i]);
        }
        lemma_dot_add_left_raw(a.drop_last(), b.drop_last(), v.drop_last(), s.drop_last());
        assert(s.last() == a.last() + b.last());
        vstd::arithmetic::mul::lemma_mul_is_distributive_add_other_way(
            v.last(),
            a.last(),
            b.last(),
        );
    }
}

/// The weight of a reduced difference is at most the sum of the weights.
pub proof fn lemma_weight_vsub_le(a: Seq<int>, b: Seq<int>, p: int)
    requires
        1 <= p,
        a.len() == b.len(),
    ensures
        weight(vsub(a, b, p)) <= weight(a) + weight(b),
    decreases a.len(),
{
    if a.len() > 0 {
        assert(vsub(a, b, p).drop_last() =~= vsub(a.drop_last(), b.drop_last(), p));
        lemma_weight_vsub_le(a.drop_last(), b.drop_last(), p);
        assert(vsub(a, b, p).last() == (a.last() - b.last()) % p);
        if a.last() == 0 && b.last() == 0 {
            lemma_small_mod(0nat, p as nat);
            assert(vsub(a, b, p).last() == 0);
        }
    }
}

/// Distinct field elements have a nonzero reduced difference.
pub proof fn lemma_sub_nonzero_mod(a: int, b: int, p: int)
    requires
        1 <= p,
        0 <= a < p,
        0 <= b < p,
        a != b,
    ensures
        (a - b) % p != 0,
{
    if a > b {
        lemma_small_mod((a - b) as nat, p as nat);
    } else {
        lemma_fundamental_div_mod_converse_mod(a - b, p, -1, a - b + p);
    }
}

/// A field element is its own remainder.
pub proof fn lemma_inrange_mod(a: int, p: int)
    requires
        1 <= p,
        0 <= a < p,
    ensures
        a % p == a,
{
    lemma_small_mod(a as nat, p as nat);
}

/// Equal integer views come only from equal vectors.
pub proof fn lemma_vint_inj(a: Seq<i64>, b: Seq<i64>)
    requires
        vint(a) == vint(b),
    ensures
        a == b,
{
    assert(a.len() == vint(a).len());
    assert(b.len() == vint(b).len());
    assert forall|i: int| 0 <= i < a.len() implies a[i] == b[i] by {
        assert(vint(a)[i] == vint(b)[i]);
        assert(vint(a)[i] == a[i] as int);
        assert(vint(b)[i] == b[i] as int);
    }
    assert(a =~= b);
}

/// The view of a pushed vector is the pushed view.
pub proof fn lemma_vint_push(s: Seq<i64>, x: i64)
    ensures
        vint(s.push(x)) == vint(s).push(x as int),
{
    assert(vint(s.push(x)) =~= vint(s).push(x as int));
}

/// A weight-zero sequence is the all-zero sequence.
pub proof fn lemma_weight_zero(s: Seq<int>)
    requires
        weight(s) == 0,
    ensures
        is_zero_seq(s),
    decreases s.len(),
{
    if s.len() > 0 {
        lemma_weight_zero(s.drop_last());
        assert(s.last() == 0);
        assert forall|i: int| 0 <= i < s.len() implies #[trigger] s[i] == 0 by {
            if i < s.len() - 1 {
                assert(s.drop_last()[i] == 0);
            }
        }
    }
}

/// Reduces `x` into the field range `[0, p)`; the result is the Euclidean
/// remainder of `x` modulo `p`.
pub fn normalize(x: i64, p: i64) -> (r: i64)
    requires
        1 <= p,
    ensures
        r == (x as int) % (p as int),
        0 <= r < p,
{
    if x >= 0 {
        let r = x % p;
        proof {
            lemma_mod_bound(x as int, p as int);
        }
        r
    } else {
        let y = -(x + 1);
        let m = y % p;
        proof {
            lemma_mod_bound(y as int, p as int);
            lemma_fundamental_div_mod(y as int, p as int);
            let q = (y as int) / (p as int);
            assert((-q - 1) * (p as int) + ((p - 1 - m) as int) == -((p as int) * q + (m as int))
                - 1) by (nonlinear_arith);
            lemma_fundamental_div_mod_converse_mod(x as int, p as int, -q - 1, (p - 1 - m) as int);
        }
        p - 1 - m
    }
}

} // verus!
