//! Finite-field matrix operations: Gaussian elimination, column extraction
//! and identity augmentation.

use vstd::prelude::*;

verus! {

use crate::algebra::{
    columns_unit,
    lemma_inrange_mod,
    modulus_bound,
    in_range,
    is_rect,
    is_systematic,
    mat_in_range,
    mint,
    normalize,
    vint,
};
use crate::errors::DecodeError;
use crate::primality::{field_modulus, invertible_mod, is_prime, lemma_prime_field};
use crate::rowspace::{
    lemma_rowspace_addmul,
    lemma_same_rowspace_symm,
    lemma_stuck_pivot_not_systematic,
    lemma_rowspace_congruent,
    lemma_rowspace_scale,
    lemma_rowspace_swap,
    lemma_same_rowspace_refl,
    lemma_same_rowspace_trans,
    same_rowspace,
};
use vstd::arithmetic::div_mod::{lemma_mod_bound, lemma_mod_twice, lemma_small_mod};
use vstd::pervasive::VecAdditionalExecFns;

/// A fresh copy of a row.
#[verifier::loop_isolation(false)]
pub(crate) fn copy_row(v: &Vec<i64>) -> (r: Vec<i64>)
    ensures
        r@ == v@,
{
    let mut r: Vec<i64> = Vec::new();
    let mut i: usize = 0;
    while i < v.len()
        invariant
            i <= v@.len(),
            r@ == v@.take(i as int),
        decreases v@.len() - i,
    {
        r.push(v[i]);
        proof {
            assert(r@ =~= v@.take(i + 1));
        }
        i += 1;
    }
    proof {
        assert(v@.take(v@.len() as int) =~= v@);
    }
    r
}

/// The row with every coordinate reduced into `[0, p)`.
#[verifier::loop_isolation(false)]
fn normalized_row(v: &Vec<i64>, modulus: i64) -> (r: Vec<i64>)
    requires
        1 <= modulus,
    ensures
        r@.len() == v@.len(),
        forall|j: int| 0 <= j < v@.len() ==> #[trigger] r@[j] == (v@[j] as int) % (modulus as int),
        in_range(vint(r@), modulus as int),
{
    let mut r: Vec<i64> = Vec::new();
    let mut i: usize = 0;
    while i < v.len()
        invariant
            i <= v@.len(),
            r@.len() == i,
            forall|j: int|
                0 <= j < i ==> #[trigger] r@[j] == (v@[j] as int) % (modulus as int) && 0 <= r@[j]
                    < modulus,
        decreases v@.len() - i,
    {
        r.push(normalize(v[i], modulus));
        i += 1;
    }
    r
}

/// The row scaled coordinatewise by `factor`, reduced into `[0, p)`.
#[verifier::loop_isolation(false)]
fn scaled_row(v: &Vec<i64>, factor: i64, modulus: i64) -> (r: Vec<i64>)
    requires
        1 <= modulus <= modulus_bound(),
        0 <= factor < modulus,
        in_range(vint(v@), modulus as int),
    ensures
        r@.len() == v@.len(),
        forall|j: int|
            0 <= j < v@.len() ==> #[trigger] r@[j] == (factor * v@[j]) % (modulus as int),
        in_range(vint(r@), modulus as int),
{
    let mut r: Vec<i64> = Vec::new();
    let mut i: usize = 0;
    while i < v.len()
        invariant
            i <= v@.len(),
            r@.len() == i,
            forall|j: int|
                0 <= j < i ==> #[trigger] r@[j] == (factor * v@[j]) % (modulus as int) && 0 <= r@[j]
                    < modulus,
        decreases v@.len() - i,
    {
        proof {
            assert(0 <= vint(v@)[i as int] < modulus);
            assert(0 <= (factor as int) * (v@[i as int] as int) && (factor as int) * (
            v@[i as int] as int) <= (modulus_bound() - 1) * (modulus_bound() - 1))
                by (nonlinear_arith)
                requires
                    0 <= factor as int <= modulus_bound() - 1,
                    0 <= v@[i as int] as int <= modulus_bound() - 1,
            ;
        }
        let c = (factor * v[i]) % modulus;
        proof {
            lemma_mod_bound((factor * v@[i as int]) as int, modulus as int);
        }
        r.push(c);
        i += 1;
    }
    r
}

/// The row with `modulus - factor` times the pivot row added coordinatewise,
/// reduced into `[0, p)`: the elimination step that clears the pivot column
/// from this row.
#[verifier::loop_isolation(false)]
fn eliminated_row(row: &Vec<i64>, pivot: &Vec<i64>, factor: i64, modulus: i64) -> (r: Vec<i64>)
    requires
        1 <= modulus <= modulus_bound(),
        0 <= factor < modulus,
        row@.len() == pivot@.len(),
        in_range(vint(row@), modulus as int),
        in_range(vint(pivot@), modulus as int),
    ensures
        r@.len() == row@.len(),
        forall|j: int|
            0 <= j < row@.len() ==> #[trigger] r@[j] == (row@[j] + (modulus - factor) * pivot@[j])
                % (modulus as int),
        in_range(vint(r@), modulus as int),
{
    let increment = modulus - factor;
    let mut r: Vec<i64> = Vec::new();
    let mut i: usize = 0;
    while i < row.len()
        invariant
            i <= row@.len(),
            r@.len() == i,
            forall|j: int|
                0 <= j < i ==> #[trigger] r@[j] == (row@[j] + (modulus - factor) * pivot@[j]) % (
                modulus as int) && 0 <= r@[j] < modulus,
        decreases row@.len() - i,
    {
        proof {
            assert(0 <= vint(row@)[i as int] < modulus);
            assert(0 <= vint(pivot@)[i as int] < modulus);
            assert(0 <= (increment as int) * (pivot@[i as int] as int) && (increment as int) * (
            pivot@[i as int] as int) <= modulus_bound() * (modulus_bound() - 1))
                by (nonlinear_arith)
                requires
                    0 <= increment as int <= modulus_bound(),
                    0 <= pivot@[i as int] as int <= modulus_bound() - 1,
            ;
        }
        let c = (row[i] + increment * pivot[i]) % modulus;
        proof {
            lemma_mod_bound((row@[i as int] + increment * pivot@[i as int]) as int, modulus as int);
        }
        r.push(c);
        i += 1;
    }
    r
}

/// Row-reduces the matrix over `Z_p` into systematic form `[I_k | A]`.
/// Every entry is first reduced into `[0, p)`; each pivot column in turn
/// receives a unit pivot by a row swap, scaling by the pivot's inverse
/// (found by trial multiplication, valid because the modulus is prime) and
/// elimination from every other row. Fails with `SingularMatrix` when some
/// pivot column has no usable pivot, so the rank is below the row count,
/// and with `NoInverseFound` when a pivot entry has no inverse, which
/// signals a composite modulus. A matrix already in systematic form comes
/// back unchanged.
#[verifier::loop_isolation(false)]
#[verifier::rlimit(50)]
pub fn gaussian_eliminate(mat: &mut Vec<Vec<i64>>, modulus: i64) -> (r: Result<(), DecodeError>)
    requires
        old(mat)@.len() >= 1,
        is_rect(mint(old(mat)@), old(mat)@[0]@.len() as int),
        1 <= modulus <= modulus_bound(),
    ensures
        final(mat)@.len() == old(mat)@.len(),
        is_rect(mint(final(mat)@), old(mat)@[0]@.len() as int),
        mat_in_range(mint(final(mat)@), modulus as int),
        r is Ok ==> is_systematic(mint(final(mat)@), modulus as int),
        is_systematic(mint(old(mat)@), modulus as int) ==> r is Ok && mint(final(mat)@) == mint(
            old(mat)@,
        ),
        same_rowspace(mint(old(mat)@), mint(final(mat)@), modulus as int),
        r is Err ==> r == Err::<(), DecodeError>(DecodeError::SingularMatrix) || r == Err::<
            (),
            DecodeError,
        >(DecodeError::NoInverseFound),
        r == Err::<(), DecodeError>(DecodeError::SingularMatrix) ==> (forall|g: Seq<Seq<int>>|
            #![trigger same_rowspace(mint(old(mat)@), g, modulus as int)]
            is_systematic(g, modulus as int) && g.len() == old(mat)@.len() && g[0].len() == old(
                mat,
            )@[0]@.len() ==> !same_rowspace(mint(old(mat)@), g, modulus as int)),
        r == Err::<(), DecodeError>(DecodeError::NoInverseFound) ==> !field_modulus(
            modulus as int,
        ) && !is_prime(modulus as int),
{
    let rows = mat.len();
    let cols = mat[0].len();
    let ghost p = modulus as int;
    let ghost m0 = old(mat)@;
    let ghost sys = is_systematic(mint(m0), p);
    proof {
        assert forall|r2: int| 0 <= r2 < rows implies (#[trigger] mat@[r2]@).len() == cols by {
            assert(mint(mat@)[r2].len() == cols);
        }
        lemma_same_rowspace_refl(mint(m0), p);
    }

    // reduce every entry into [0, p)
    let mut ri: usize = 0;
    while ri < rows
        invariant
            ri <= rows,
            mat@.len() == rows,
            forall|r2: int| 0 <= r2 < rows ==> (#[trigger] mat@[r2]@).len() == cols,
            forall|r2: int| ri <= r2 < rows ==> #[trigger] mat@[r2] == m0[r2],
            forall|r2: int| 0 <= r2 < ri ==> in_range(vint(#[trigger] mat@[r2]@), p),
            forall|r2: int, c: int|
                0 <= r2 < ri && 0 <= c < cols ==> #[trigger] mat@[r2]@[c] == (m0[r2]@[c] as int)
                    % p,
            same_rowspace(mint(m0), mint(mat@), p),
        decreases rows - ri,
    {
        let ghost before = mat@;
        let nr = normalized_row(&mat[ri], modulus);
        mat.set(ri, nr);
        proof {
            assert forall|r2: int, c: int| 0 <= r2 < rows && 0 <= c < cols implies #[trigger] mint(
                before,
            )[r2][c] % p == mint(mat@)[r2][c] % p by {
                if r2 == ri as int {
                    assert(mint(mat@)[r2][c] == (before[r2]@[c] as int) % p);
                    lemma_mod_twice(before[r2]@[c] as int, p);
                } else {
                    assert(mat@[r2] == before[r2]);
                }
            }
            assert forall|r2: int| 0 <= r2 < rows implies (#[trigger] mint(before)[r2]).len()
                == cols by {
                assert(before[r2]@.len() == cols);
            }
            assert forall|r2: int| 0 <= r2 < rows implies (#[trigger] mint(mat@)[r2]).len()
                == cols by {
                assert(mat@[r2]@.len() == cols);
            }
            assert(mint(before)[0].len() == cols);
            lemma_rowspace_congruent(mint(before), mint(mat@), p);
            lemma_same_rowspace_trans(mint(m0), mint(before), mint(mat@), p);
        }
        ri += 1;
    }
    proof {
        if sys {
            assert forall|r2: int, c: int| 0 <= r2 < rows && 0 <= c < cols implies #[trigger] mint(
                mat@,
            )[r2][c] == mint(m0)[r2][c] by {
                assert(in_range(mint(m0)[r2], p));
                assert(0 <= mint(m0)[r2][c] < modulus);
                assert(mint(m0)[r2][c] == m0[r2]@[c] as int);
                lemma_small_mod(m0[r2]@[c] as nat, p as nat);
            }
            assert(mint(mat@) =~~= mint(m0));
        }
        assert forall|r2: int| 0 <= r2 < rows implies in_range(#[trigger] mint(mat@)[r2], p) by {
            assert(in_range(vint(mat@[r2]@), p));
        }
    }

    let mut i: usize = 0;
    while i < rows
        invariant
            i <= rows,
            mat@.len() == rows,
            forall|r2: int| 0 <= r2 < rows ==> (#[trigger] mat@[r2]@).len() == cols,
            mat_in_range(mint(mat@), p),
            columns_unit(mint(mat@), i as int),
            i > 0 ==> i <= cols,
            sys ==> mint(mat@) == mint(m0),
            same_rowspace(mint(m0), mint(mat@), p),
        decreases rows - i,
    {
        if i >= cols {
            proof {
                if sys {
                    assert(mint(m0).len() <= mint(m0)[0].len());
                    assert(mint(m0)[0].len() == cols);
                }
                assert forall|g: Seq<Seq<int>>|
                    #![trigger same_rowspace(mint(m0), g, p)]
                    is_systematic(g, p) && g.len() == rows && g[0].len() == cols implies
                    !same_rowspace(mint(m0), g, p) by {
                    assert(g.len() <= g[0].len());
                }
            }
            return Err(DecodeError::SingularMatrix);
        }

        // find the first row at or below the pivot with a nonzero pivot entry
        let mut rsel: usize = i;
        while rsel < rows && mat[rsel][i] == 0
            invariant
                i <= rsel <= rows,
                forall|r2: int| i <= r2 < rsel ==> (#[trigger] mint(mat@)[r2])[i as int] == 0,
            decreases rows - rsel,
        {
            rsel += 1;
        }
        if rsel == rows {
            proof {
                if sys {
                    assert(mint(m0)[i as int][i as int] == 1);
                    assert(false);
                }
                assert forall|g: Seq<Seq<int>>|
                    #![trigger same_rowspace(mint(m0), g, p)]
                    is_systematic(g, p) && g.len() == rows && g[0].len() == cols implies
                    !same_rowspace(mint(m0), g, p) by {
                    if same_rowspace(mint(m0), g, p) {
                        assert forall|r2: int| 0 <= r2 < rows implies (#[trigger] mint(
                            mat@,
                        )[r2]).len() == cols by {
                            assert(mat@[r2]@.len() == cols);
                        }
                        assert(mint(mat@)[0].len() == cols);
                        assert forall|r2: int| i <= r2 < rows implies (#[trigger] mint(mat@)[r2])[
                        i as int] == 0 by {}
                        lemma_stuck_pivot_not_systematic(mint(mat@), g, p, i as int);
                        lemma_same_rowspace_symm(mint(m0), mint(mat@), p);
                        lemma_same_rowspace_trans(mint(mat@), mint(m0), g, p);
                        assert(false);
                    }
                }
            }
            return Err(DecodeError::SingularMatrix);
        }
        if rsel != i {
            proof {
                if sys {
                    assert(mint(m0)[i as int][i as int] == 1);
                    assert(false);
                }
            }
            let row_r = copy_row(&mat[rsel]);
            let row_i = copy_row(&mat[i]);
            let ghost before = mat@;
            mat.set(rsel, row_i);
            mat.set(i, row_r);
            proof {
                assert(vint(mat@[i as int]@) == vint(before[rsel as int]@));
                assert(vint(mat@[rsel as int]@) == vint(before[i as int]@));
                assert forall|r2: int| 0 <= r2 < rows implies (#[trigger] mint(before)[r2]).len()
                    == cols by {
                    assert(before[r2]@.len() == cols);
                }
                assert(mint(before)[0].len() == cols);
                assert(mint(mat@) =~~= mint(before).update(
                    rsel as int,
                    mint(before)[i as int],
                ).update(i as int, mint(before)[rsel as int]));
                lemma_rowspace_swap(mint(before), rsel as int, i as int, p);
                lemma_same_rowspace_trans(mint(m0), mint(before), mint(mat@), p);
                assert forall|r2: int| 0 <= r2 < rows implies in_range(
                    #[trigger] mint(mat@)[r2],
                    p,
                ) by {
                    if r2 == i as int {
                        assert(in_range(mint(before)[rsel as int], p));
                    } else if r2 == rsel as int {
                        assert(in_range(mint(before)[i as int], p));
                    } else {
                        assert(mint(mat@)[r2] == mint(before)[r2]);
                        assert(in_range(mint(before)[r2], p));
                    }
                }
                assert forall|r2: int, c: int| 0 <= r2 < rows && 0 <= c < i as int implies (
                #[trigger] mint(mat@)[r2][c]) == if r2 == c {
                    1int
                } else {
                    0int
                } by {
                    if r2 == i as int {
                        assert(mint(before)[rsel as int][c] == if rsel as int == c {
                            1int
                        } else {
                            0int
                        });
                    } else if r2 == rsel as int {
                        assert(mint(before)[i as int][c] == if i as int == c {
                            1int
                        } else {
                            0int
                        });
                    } else {
                        assert(mint(mat@)[r2] == mint(before)[r2]);
                        assert(mint(before)[r2][c] == if r2 == c {
                            1int
                        } else {
                            0int
                        });
                    }
                }
            }
        }
        let piv = mat[i][i];
        proof {
            assert(piv as int == mint(mat@)[i as int][i as int]);
            assert(0 <= piv < modulus) by {
                assert(in_range(mint(mat@)[i as int], p));
            }
            assert(piv != 0);
        }
        if piv != 1 {
            proof {
                if sys {
                    assert(mint(m0)[i as int][i as int] == 1);
                    assert(false);
                }
            }
            let mut cand: i64 = 2;
            let mut inv: i64 = 0;
            while cand < modulus && inv == 0
                invariant
                    2 <= cand,
                    inv != 0 ==> 2 <= inv < modulus && ((inv as int) * (piv as int)) % p == 1,
                    inv == 0 ==> forall|b: int|
                        2 <= b < cand ==> #[trigger] (((piv as int) * b) % p) != 1,
                decreases modulus - cand,
            {
                proof {
                    assert(0 <= (cand as int) * (piv as int) && (cand as int) * (piv as int) <= (
                    modulus_bound() - 1) * (modulus_bound() - 1)) by (nonlinear_arith)
                        requires
                            0 <= cand as int <= modulus_bound() - 1,
                            0 <= piv as int <= modulus_bound() - 1,
                    ;
                }
                let t = (cand * piv) % modulus;
                proof {
                    vstd::arithmetic::mul::lemma_mul_is_commutative(cand as int, piv as int);
                }
                if t == 1 {
                    inv = cand;
                }
                cand += 1;
            }
            if inv == 0 {
                proof {
                    assert forall|b: int| 1 <= b < p implies #[trigger] (((piv as int) * b) % p)
                        != 1 by {
                        if b == 1 {
                            assert((piv as int) * 1 == piv as int);
                            lemma_inrange_mod(piv as int, p);
                        }
                    }
                    assert(!invertible_mod(piv as int, p));
                    assert(1 <= piv as int && (piv as int) < p);
                    assert(!field_modulus(p));
                    if is_prime(p) {
                        lemma_prime_field(p);
                        assert(false);
                    }
                }
                return Err(DecodeError::NoInverseFound);
            }
            let ghost before = mat@;
            let newrow = scaled_row(&mat[i], inv, modulus);
            mat.set(i, newrow);
            proof {
                assert(mint(mat@)[i as int][i as int] == ((inv as int) * (piv as int)) % p);
                lemma_small_mod(0nat, p as nat);
                assert forall|r2: int| 0 <= r2 < rows implies in_range(
                    #[trigger] mint(mat@)[r2],
                    p,
                ) by {
                    if r2 != i as int {
                        assert(mint(mat@)[r2] == mint(before)[r2]);
                    }
                    assert(in_range(mint(before)[r2], p));
                }
                assert forall|r2: int, c: int| 0 <= r2 < rows && 0 <= c < i as int implies (
                #[trigger] mint(mat@)[r2][c]) == if r2 == c {
                    1int
                } else {
                    0int
                } by {
                    assert(mint(before)[r2][c] == if r2 == c {
                        1int
                    } else {
                        0int
                    });
                    if r2 == i as int {
                        assert(mint(before)[i as int][c] == 0);
                        assert(mint(mat@)[i as int][c] == ((inv as int) * 0) % p);
                    } else {
                        assert(mint(mat@)[r2] == mint(before)[r2]);
                    }
                }
                assert forall|r2: int| 0 <= r2 < rows implies (#[trigger] mint(before)[r2]).len()
                    == cols by {
                    assert(before[r2]@.len() == cols);
                }
                assert(mint(before)[0].len() == cols);
                assert(mint(mat@) =~~= mint(before).update(i as int, vint(newrow@)));
                assert forall|j: int| 0 <= j < vint(newrow@).len() implies #[trigger] vint(
                    newrow@,
                )[j] % p == ((inv as int) * mint(before)[i as int][j]) % p by {
                    assert(newrow@[j] == ((inv * before[i as int]@[j]) as int) % p);
                    lemma_mod_twice((inv as int) * (before[i as int]@[j] as int), p);
                }
                lemma_rowspace_scale(
                    mint(before),
                    vint(newrow@),
                    i as int,
                    inv as int,
                    piv as int,
                    p,
                );
                lemma_same_rowspace_trans(mint(m0), mint(before), mint(mat@), p);
            }
        }
        proof {
            assert(mint(mat@)[i as int][i as int] == 1);
        }

        // clear the pivot column from every other row
        let pivot_row = copy_row(&mat[i]);
        let mut rr: usize = 0;
        while rr < rows
            invariant
                rr <= rows,
                mat@.len() == rows,
                forall|r2: int| 0 <= r2 < rows ==> (#[trigger] mat@[r2]@).len() == cols,
                mat_in_range(mint(mat@), p),
                columns_unit(mint(mat@), i as int),
                mat@[i as int]@ == pivot_row@,
                mint(mat@)[i as int][i as int] == 1,
                forall|r2: int|
                    0 <= r2 < rr && r2 != i as int ==> (#[trigger] mint(mat@)[r2])[i as int] == 0,
                sys ==> mint(mat@) == mint(m0),
                same_rowspace(mint(m0), mint(mat@), p),
            decreases rows - rr,
        {
            if rr != i {
                let factor = mat[rr][i];
                proof {
                    assert(factor as int == mint(mat@)[rr as int][i as int]);
                    assert(0 <= factor < modulus) by {
                        assert(in_range(mint(mat@)[rr as int], p));
                    }
                }
                if factor != 0 {
                    proof {
                        if sys {
                            assert(mint(m0)[rr as int][i as int] == 0);
                            assert(false);
                        }
                        assert(in_range(vint(mat@[rr as int]@), p)) by {
                            assert(in_range(mint(mat@)[rr as int], p));
                        }
                        assert(in_range(vint(pivot_row@), p)) by {
                            assert(in_range(mint(mat@)[i as int], p));
                        }
                    }
                    let ghost before = mat@;
                    let newrow = eliminated_row(&mat[rr], &pivot_row, factor, modulus);
                    mat.set(rr, newrow);
                    proof {
                        lemma_small_mod(0nat, p as nat);
                        assert(mint(mat@)[rr as int][i as int] == ((factor + (modulus - factor)
                            * 1) as int) % p);
                        vstd::arithmetic::div_mod::lemma_mod_self_0(p);
                        assert forall|r2: int| 0 <= r2 < rows implies in_range(
                            #[trigger] mint(mat@)[r2],
                            p,
                        ) by {
                            if r2 != rr as int {
                                assert(mint(mat@)[r2] == mint(before)[r2]);
                            }
                            assert(in_range(mint(before)[r2], p));
                        }
                        assert forall|r2: int, c: int| 0 <= r2 < rows && 0 <= c < i as int implies
                            (#[trigger] mint(mat@)[r2][c]) == if r2 == c {
                            1int
                        } else {
                            0int
                        } by {
                            assert(mint(before)[r2][c] == if r2 == c {
                                1int
                            } else {
                                0int
                            });
                            if r2 == rr as int {
                                assert(vint(pivot_row@)[c] == mint(before)[i as int][c]);
                                assert(vint(pivot_row@)[c] == 0);
                                assert(mint(mat@)[rr as int][c] == ((mint(before)[rr as int][c] + (
                                modulus - factor) * 0) as int) % p);
                                assert(0 <= mint(before)[rr as int][c] < p);
                                lemma_small_mod(mint(before)[rr as int][c] as nat, p as nat);
                            } else {
                                assert(mint(mat@)[r2] == mint(before)[r2]);
                            }
                        }
                        assert forall|r2: int|
                            0 <= r2 < rr + 1 && r2 != i as int implies (#[trigger] mint(mat@)[r2])[
                            i as int] == 0 by {
                            if r2 != rr as int {
                                assert(mint(mat@)[r2] == mint(before)[r2]);
                            }
                        }
                        assert forall|r2: int| 0 <= r2 < rows implies (#[trigger] mint(
                            before,
                        )[r2]).len() == cols by {
                            assert(before[r2]@.len() == cols);
                        }
                        assert(mint(before)[0].len() == cols);
                        assert(mint(mat@) =~~= mint(before).update(rr as int, vint(newrow@)));
                        assert(vint(pivot_row@) =~= mint(before)[i as int]);
                        assert forall|j: int| 0 <= j < vint(newrow@).len() implies #[trigger] vint(
                            newrow@,
                        )[j] % p == (mint(before)[rr as int][j] + ((modulus - factor) as int)
                            * mint(before)[i as int][j]) % p by {
                            assert(newrow@[j] == ((before[rr as int]@[j] + (modulus - factor)
                                * pivot_row@[j]) as int) % p);
                            assert(pivot_row@[j] as int == mint(before)[i as int][j]);
                            lemma_mod_twice(
                                before[rr as int]@[j] + ((modulus - factor) as int) * (
                                pivot_row@[j] as int),
                                p,
                            );
                        }
                        lemma_rowspace_addmul(
                            mint(before),
                            vint(newrow@),
                            rr as int,
                            i as int,
                            (modulus - factor) as int,
                            p,
                        );
                        lemma_same_rowspace_trans(mint(m0), mint(before), mint(mat@), p);
                    }
                }
            }
            rr += 1;
        }
        proof {
            assert forall|r2: int, c: int| 0 <= r2 < rows && 0 <= c < i + 1 implies (
            #[trigger] mint(mat@)[r2][c]) == if r2 == c {
                1int
            } else {
                0int
            } by {
                if c < i as int {
                    assert(mint(mat@)[r2][c] == if r2 == c {
                        1int
                    } else {
                        0int
                    });
                } else {
                    if r2 != i as int {
                        assert((mint(mat@)[r2])[i as int] == 0);
                    }
                }
            }
        }
        i += 1;
    }
    proof {
        assert(rows <= cols);
        assert(mint(mat@).len() == rows);
        assert forall|r2: int| 0 <= r2 < rows implies (#[trigger] mint(mat@)[r2]).len() == cols by {
            assert(mat@[r2]@.len() == cols);
        }
        assert(mint(mat@)[0].len() == cols);
        assert(is_systematic(mint(mat@), p));
    }
    Ok(())
}

/// The sub-matrix of the columns at index `cols_to_skip` and beyond.
#[verifier::loop_isolation(false)]
pub fn extract_last_n_cols(mat: &Vec<Vec<i64>>, cols_to_skip: usize) -> (r: Vec<Vec<i64>>)
    ensures
        r@.len() == mat@.len(),
        forall|i: int|
            0 <= i < mat@.len() ==> (#[trigger] r@[i]@) == if cols_to_skip <= mat@[i]@.len() {
                mat@[i]@.skip(cols_to_skip as int)
            } else {
                Seq::<i64>::empty()
            },
{
    let mut r: Vec<Vec<i64>> = Vec::new();
    let mut i: usize = 0;
    while i < mat.len()
        invariant
            i <= mat@.len(),
            r@.len() == i,
            forall|ii: int|
                0 <= ii < i ==> (#[trigger] r@[ii]@) == if cols_to_skip <= mat@[ii]@.len() {
                    mat@[ii]@.skip(cols_to_skip as int)
                } else {
                    Seq::<i64>::empty()
                },
        decreases mat@.len() - i,
    {
        let row = &mat[i];
        let mut newrow: Vec<i64> = Vec::new();
        let mut j: usize = if cols_to_skip < row.len() {
            cols_to_skip
        } else {
            row.len()
        };
        let ghost j0 = j as int;
        while j < row.len()
            invariant
                j0 <= j <= row@.len(),
                newrow@ == row@.subrange(j0, j as int),
            decreases row@.len() - j,
        {
            newrow.push(row[j]);
            proof {
                assert(newrow@ =~= row@.subrange(j0, j + 1));
            }
            j += 1;
        }
        proof {
            if cols_to_skip <= row@.len() {
                assert(newrow@ =~= row@.skip(cols_to_skip as int));
            } else {
                assert(newrow@ =~= Seq::<i64>::empty());
            }
        }
        r.push(newrow);
        i += 1;
    }
    r
}

/// Appends below the matrix an identity block as wide as the matrix's rows.
#[verifier::loop_isolation(false)]
pub fn append_identity_matrix(mat: &mut Vec<Vec<i64>>)
    requires
        old(mat)@.len() >= 1,
    ensures
        final(mat)@.len() == old(mat)@.len() + old(mat)@[0]@.len(),
        forall|i: int| 0 <= i < old(mat)@.len() ==> #[trigger] final(mat)@[i] == old(mat)@[i],
        forall|i: int|
            old(mat)@.len() <= i < final(mat)@.len() ==> (#[trigger] final(mat)@[i]@).len()
                == old(mat)@[0]@.len(),
        forall|i: int, j: int|
            old(mat)@.len() <= i < final(mat)@.len() && 0 <= j < old(mat)@[0]@.len()
                ==> #[trigger] final(mat)@[i]@[j] == if i - old(mat)@.len() == j {
                1i64
            } else {
                0i64
            },
{
    let base = mat.len();
    let width = mat[0].len();
    let mut i: usize = 0;
    while i < width
        invariant
            i <= width,
            mat@.len() == base + i,
            forall|ii: int| 0 <= ii < base ==> #[trigger] mat@[ii] == old(mat)@[ii],
            forall|ii: int|
                base <= ii < mat@.len() ==> (#[trigger] mat@[ii]@).len() == width,
            forall|ii: int, j: int|
                base <= ii < mat@.len() && 0 <= j < width ==> #[trigger] mat@[ii]@[j] == if ii
                    - base == j {
                    1i64
                } else {
                    0i64
                },
        decreases width - i,
    {
        let mut unit: Vec<i64> = Vec::new();
        let mut j: usize = 0;
        while j < width
            invariant
                j <= width,
                unit@.len() == j,
                forall|jj: int|
                    0 <= jj < j ==> #[trigger] unit@[jj] == if i as int == jj {
                        1i64
                    } else {
                        0i64
                    },
            decreases width - j,
        {
            if i == j {
                unit.push(1);
            } else {
                unit.push(0);
            }
            j += 1;
        }
        mat.push(unit);
        i += 1;
    }
}

} // verus!
