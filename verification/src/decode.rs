//! The syndrome decoder: validates the received word and the generator,
//! row-reduces the generator, derives the parity-check matrix, computes the
//! syndrome and searches the weight classes in increasing order for the
//! unique minimum-weight error pattern.

use vstd::prelude::*;

verus! {

use crate::algebra::{
    column,
    modulus_bound,
    in_range,
    is_rect,
    is_systematic,
    is_zero_seq,
    lemma_dot_mod_left,
    lemma_dot_zero_left,
    lemma_weight_le_len,
    lemma_weight_zero,
    mat_in_range,
    mint,
    normalize,
    row_mat_mul,
    vint,
    vmod,
    weight,
};
use crate::errors::DecodeError;
use crate::mat_utils::{append_identity_matrix, copy_row, extract_last_n_cols, gaussian_eliminate};
use crate::primality::{field_modulus, is_prime};
use crate::rowspace::same_rowspace;
use crate::vec_utils::{
    contains_vecseq,
    is_error_pattern,
    list_possible_errors,
    pairwise_distinct,
    vec_mat_mul,
};
use vstd::arithmetic::div_mod::{lemma_small_mod, lemma_sub_mod_noop};
use vstd::pervasive::VecAdditionalExecFns;

/// The parity-check matrix derived from a systematic generator `[I_k | A]`:
/// the negated trailing block `-A` stacked on an identity block, an
/// `n x (n - k)` matrix with entries reduced into `[0, p)`.
pub open spec fn parity_of(g: Seq<Seq<int>>, p: int) -> Seq<Seq<int>> {
    let k = g.len() as int;
    let n = g[0].len() as int;
    Seq::new(
        n as nat,
        |i: int|
            if i < k {
                Seq::new((n - k) as nat, |j: int| (-g[i][k + j]) % p)
            } else {
                Seq::new(
                    (n - k) as nat,
                    |j: int|
                        if i - k == j {
                            1int
                        } else {
                            0int
                        },
                )
            },
    )
}

/// The syndrome of `v` with respect to the reduced generator `g`.
pub open spec fn syndrome_of(v: Seq<int>, g: Seq<Seq<int>>, p: int) -> Seq<int> {
    row_mat_mul(v, parity_of(g, p), p)
}

/// No length-`n` vector over `[0, p)` of weight below `w` has syndrome `s`.
pub open spec fn no_match_below(g: Seq<Seq<int>>, s: Seq<int>, p: int, n: nat, w: nat) -> bool {
    forall|e2: Seq<int>|
        #![trigger syndrome_of(e2, g, p)]
        e2.len() == n && in_range(e2, p) && weight(e2) < w ==> syndrome_of(e2, g, p) != s
}

/// The tied-candidate list carried by an ambiguous result: at the smallest
/// weight `w` with any match, it holds every matching pattern exactly once,
/// and there are at least two.
pub open spec fn ambiguous_at(
    cands: Seq<Vec<i64>>,
    g: Seq<Seq<int>>,
    s: Seq<int>,
    p: int,
    n: nat,
    w: nat,
) -> bool {
    &&& w >= 1
    &&& no_match_below(g, s, p, n, w)
    &&& forall|j: int|
        0 <= j < cands.len() ==> is_error_pattern(vint(#[trigger] cands[j]@), n, w, p)
            && syndrome_of(vint(cands[j]@), g, p) == s
    &&& forall|e2: Seq<int>|
        #![trigger contains_vecseq(cands, e2)]
        is_error_pattern(e2, n, w, p) && syndrome_of(e2, g, p) == s ==> contains_vecseq(cands, e2)
    &&& pairwise_distinct(cands)
    &&& cands.len() >= 2
}

/// What the decoder returns for the received word `raw` once the generator
/// has been row-reduced to the systematic matrix `g`: the raw prefix on a
/// zero syndrome; otherwise the unique minimum-weight error pattern with
/// the corrected prefix, or the exact tied set when that pattern is not
/// unique. The two remaining error cases never occur at this point.
pub open spec fn decode_outcome(
    raw: Seq<i64>,
    g: Seq<Seq<int>>,
    p: int,
    r: Result<(Vec<i64>, Vec<i64>), DecodeError>,
) -> bool {
    let n = raw.len() as nat;
    let k = g.len() as int;
    let iv = vint(raw);
    let s = syndrome_of(iv, g, p);
    if is_zero_seq(s) {
        &&& r is Ok
        &&& r->Ok_0.0@ == raw.subrange(0, k)
        &&& r->Ok_0.1@.len() == 0
    } else {
        match r {
            Ok((msg, e)) => {
                let w = weight(vint(e@));
                &&& is_error_pattern(vint(e@), n, w, p)
                &&& w >= 1
                &&& syndrome_of(vint(e@), g, p) == s
                &&& no_match_below(g, s, p, n, w)
                &&& forall|e2: Seq<int>|
                    #![trigger syndrome_of(e2, g, p)]
                    is_error_pattern(e2, n, w, p) && syndrome_of(e2, g, p) == s ==> e2 == vint(e@)
                &&& msg@.len() == k
                &&& forall|i: int| 0 <= i < k ==> #[trigger] msg@[i] == (iv[i] - vint(e@)[i]) % p
            },
            Err(err) => {
                &&& err is AmbiguousDecoding
                &&& exists|w: nat| ambiguous_at(err->AmbiguousDecoding_0@, g, s, p, n, w)
            },
        }
    }
}

/// The shape of a row-reduced generator the decoder works with: `k` rows of
/// length `n` in systematic form over `Z_p`.
pub open spec fn reduced_shape(g: Seq<Seq<int>>, k: int, n: int, p: int) -> bool {
    &&& g.len() == k
    &&& g[0].len() == n
    &&& is_systematic(g, p)
}

/// The dimensions the decoder accepts: a nonempty received word and a
/// nonempty generator whose every row is as long as the received word.
pub open spec fn dims_ok(input: Seq<i64>, gen: Seq<Vec<i64>>) -> bool {
    &&& input.len() > 0
    &&& gen.len() >= 1
    &&& forall|i: int| 0 <= i < gen.len() ==> (#[trigger] gen[i]@).len() == input.len()
}

/// Whether every coordinate is zero.
#[verifier::loop_isolation(false)]
fn is_zero_vec(v: &Vec<i64>) -> (r: bool)
    ensures
        r <==> is_zero_seq(vint(v@)),
{
    let mut i: usize = 0;
    while i < v.len() && v[i] == 0
        invariant
            i <= v@.len(),
            forall|j: int| 0 <= j < i ==> vint(v@)[j] == 0,
        decreases v@.len() - i,
    {
        i += 1;
    }
    let r = i == v.len();
    proof {
        if !r {
            assert(vint(v@)[i as int] != 0);
        }
    }
    r
}

/// Whether two vectors hold the same coordinates.
#[verifier::loop_isolation(false)]
fn vecs_equal(a: &Vec<i64>, b: &Vec<i64>) -> (r: bool)
    ensures
        r <==> a@ == b@,
{
    if a.len() != b.len() {
        return false;
    }
    let mut i: usize = 0;
    while i < a.len() && a[i] == b[i]
        invariant
            i <= a@.len(),
            forall|j: int| 0 <= j < i ==> a@[j] == b@[j],
        decreases a@.len() - i,
    {
        i += 1;
    }
    if i == a.len() {
        proof {
            assert(a@ =~= b@);
        }
        true
    } else {
        false
    }
}

/// The first `k` coordinates, as given.
#[verifier::loop_isolation(false)]
fn prefix_vec(v: &Vec<i64>, k: usize) -> (r: Vec<i64>)
    requires
        k <= v@.len(),
    ensures
        r@ == v@.subrange(0, k as int),
{
    let mut r: Vec<i64> = Vec::new();
    let mut i: usize = 0;
    while i < k
        invariant
            i <= k,
            r@ == v@.subrange(0, i as int),
        decreases k - i,
    {
        r.push(v[i]);
        proof {
            assert(r@ =~= v@.subrange(0, i + 1));
        }
        i += 1;
    }
    r
}

/// The first `k` coordinates of the received word with the error pattern
/// subtracted, reduced into `[0, p)`: the corrected message.
#[verifier::loop_isolation(false)]
fn corrected_prefix(input: &Vec<i64>, e: &Vec<i64>, k: usize, modulus: i64) -> (r: Vec<i64>)
    requires
        k <= input@.len(),
        k <= e@.len(),
        1 <= modulus <= modulus_bound(),
        in_range(vint(e@), modulus as int),
    ensures
        r@.len() == k,
        forall|i: int|
            0 <= i < k ==> #[trigger] r@[i] == (vint(input@)[i] - vint(e@)[i]) % (modulus as int),
{
    let mut r: Vec<i64> = Vec::new();
    let mut i: usize = 0;
    while i < k
        invariant
            i <= k,
            r@.len() == i,
            forall|j: int|
                0 <= j < i ==> #[trigger] r@[j] == (vint(input@)[j] - vint(e@)[j]) % (
                modulus as int),
        decreases k - i,
    {
        let a = normalize(input[i], modulus);
        proof {
            assert(0 <= vint(e@)[i as int] < modulus);
        }
        let c = normalize(a - e[i], modulus);
        proof {
            let p = modulus as int;
            let x = vint(input@)[i as int];
            let y = vint(e@)[i as int];
            lemma_sub_mod_noop(x, y, p);
            lemma_small_mod(y as nat, p as nat);
        }
        r.push(c);
        i += 1;
    }
    r
}

/// Reducing the received word coordinatewise leaves its syndrome unchanged.
proof fn lemma_row_mat_mul_vmod(u: Seq<int>, m: Seq<Seq<int>>, p: int)
    requires
        1 <= p,
        u.len() == m.len(),
    ensures
        row_mat_mul(vmod(u, p), m, p) == row_mat_mul(u, m, p),
{
    assert forall|j: int| 0 <= j < m[0].len() implies row_mat_mul(vmod(u, p), m, p)[j]
        == row_mat_mul(u, m, p)[j] by {
        lemma_dot_mod_left(u, column(m, j), p);
    }
    assert(row_mat_mul(vmod(u, p), m, p) =~= row_mat_mul(u, m, p));
}

/// The all-zero word has the all-zero syndrome.
proof fn lemma_zero_row_mat_mul(u: Seq<int>, m: Seq<Seq<int>>, p: int)
    requires
        1 <= p,
        is_zero_seq(u),
        u.len() == m.len(),
    ensures
        is_zero_seq(row_mat_mul(u, m, p)),
{
    assert forall|j: int| 0 <= j < row_mat_mul(u, m, p).len() implies #[trigger] row_mat_mul(
        u,
        m,
        p,
    )[j] == 0 by {
        lemma_dot_zero_left(u, column(m, j));
        lemma_small_mod(0nat, p as nat);
    }
}

/// Builds the parity-check matrix of a systematic generator `[I_k | A]`:
/// the trailing block is extracted, negated modulo `p`, and an identity
/// block is appended below it.
#[verifier::loop_isolation(false)]
#[verifier::rlimit(30)]
fn build_parity_check(generator: &Vec<Vec<i64>>, modulus: i64) -> (pm: Vec<Vec<i64>>)
    requires
        2 <= modulus <= modulus_bound(),
        is_systematic(mint(generator@), modulus as int),
    ensures
        mint(pm@) == parity_of(mint(generator@), modulus as int),
        pm@.len() == generator@[0]@.len(),
        forall|i: int|
            0 <= i < pm@.len() ==> (#[trigger] pm@[i]@).len() == generator@[0]@.len()
                - generator@.len(),
        mat_in_range(mint(pm@), modulus as int),
{
    let ghost p = modulus as int;
    let ghost gv = mint(generator@);
    let k = generator.len();
    proof {
        assert(generator@[0]@.len() == gv[0].len());
    }
    let n = generator[0].len();
    let mut pm = extract_last_n_cols(generator, k);
    proof {
        assert forall|ii: int| 0 <= ii < k implies (#[trigger] pm@[ii]@) == generator@[ii]@.skip(
            k as int,
        ) by {
            assert(gv[ii].len() == n);
        }
    }
    let mut i: usize = 0;
    while i < k
        invariant
            i <= k,
            pm@.len() == k,
            forall|ii: int| i <= ii < k ==> (#[trigger] pm@[ii]@) == generator@[ii]@.skip(k as int),
            forall|ii: int, j: int|
                0 <= ii < i && 0 <= j < n - k ==> #[trigger] pm@[ii]@[j] == (-gv[ii][k + j]) % p,
            forall|ii: int| 0 <= ii < i ==> (#[trigger] pm@[ii]@).len() == n - k,
        decreases k - i,
    {
        proof {
            assert(pm@[i as int]@ == generator@[i as int]@.skip(k as int));
            assert(gv[i as int].len() == n);
            assert(generator@[i as int]@.len() == n);
            assert(pm@[i as int]@.len() == n - k);
            assert forall|j: int| 0 <= j < n - k implies #[trigger] pm@[i as int]@[j]
                == generator@[i as int]@[k + j] by {
                assert(generator@[i as int]@.skip(k as int)[j] == generator@[i as int]@[k + j]);
            }
            assert forall|j: int| 0 <= j < vint(pm@[i as int]@).len() implies 0 <= #[trigger] vint(
                pm@[i as int]@,
            )[j] < modulus by {
                assert(pm@[i as int]@[j] == generator@[i as int]@[k + j]);
                assert(in_range(gv[i as int], p));
                assert(0 <= gv[i as int][k + j] < p);
            }
        }
        let ghost prow = pm@[i as int]@;
        let nr = negated_row(&pm[i], modulus);
        proof {
            assert forall|j: int| 0 <= j < n - k implies nr@[j] == (-gv[i as int][k + j]) % p by {
                assert(nr@[j] == (-vint(prow)[j]) % p);
                assert(prow[j] == generator@[i as int]@[k + j]);
                assert(generator@[i as int]@[k + j] == gv[i as int][k + j]);
            }
        }
        pm.set(i, nr);
        i += 1;
    }
    append_identity_matrix(&mut pm);
    proof {
        assert(pm@.len() == n);
        assert forall|i2: int| 0 <= i2 < n implies #[trigger] mint(pm@)[i2] =~= parity_of(gv, p)[i2] by {
            if i2 < k {
                assert(pm@[i2]@.len() == n - k);
                assert forall|j: int| 0 <= j < n - k implies vint(pm@[i2]@)[j] == (-gv[i2][k + j])
                    % p by {
                    assert(pm@[i2]@[j] == (-gv[i2][k + j]) % p);
                }
            } else {
                assert(pm@[i2]@.len() == n - k);
                assert forall|j: int| 0 <= j < n - k implies vint(pm@[i2]@)[j] == (
                if i2 - k == j {
                    1int
                } else {
                    0int
                }) by {
                    assert(pm@[i2]@[j] == if i2 - k == j {
                        1i64
                    } else {
                        0i64
                    });
                }
            }
        }
        assert(mint(pm@) =~~= parity_of(gv, p));
        assert forall|i2: int| 0 <= i2 < n implies in_range(#[trigger] mint(pm@)[i2], p) by {
            assert forall|j: int| 0 <= j < mint(pm@)[i2].len() implies 0 <= #[trigger] mint(
                pm@,
            )[i2][j] < p by {
                if i2 < k {
                    assert(mint(pm@)[i2][j] == (-gv[i2][k + j]) % p);
                    vstd::arithmetic::div_mod::lemma_mod_bound(-gv[i2][k + j], p);
                } else {
                    assert(mint(pm@)[i2][j] == if i2 - k == j {
                        1int
                    } else {
                        0int
                    });
                }
            }
        }
    }
    pm
}

/// `v` occurs among the first `m` elements of the list.
spec fn in_prefix(list: Seq<Vec<i64>>, m: int, v: Seq<int>) -> bool {
    exists|idx: int| 0 <= idx < m && vint(list[idx]@) == v
}

/// Filters a candidate list down to those whose syndrome equals the given
/// one, keeping their order and leaving duplicates out because the list
/// held none.
#[verifier::loop_isolation(false)]
#[verifier::rlimit(30)]
fn collect_matches(
    class: &Vec<Vec<i64>>,
    pm: &Vec<Vec<i64>>,
    syndrome: &Vec<i64>,
    modulus: i64,
) -> (results: Vec<Vec<i64>>)
    requires
        1 <= modulus <= modulus_bound(),
        pm@.len() >= 1,
        is_rect(mint(pm@), pm@[0]@.len() as int),
        forall|idx: int| 0 <= idx < class@.len() ==> (#[trigger] class@[idx]@).len() == pm@.len(),
        pairwise_distinct(class@),
    ensures
        forall|j: int|
            0 <= j < results@.len() ==> contains_vecseq(class@, vint(#[trigger] results@[j]@)),
        forall|j: int|
            0 <= j < results@.len() ==> row_mat_mul(
                vint(#[trigger] results@[j]@),
                mint(pm@),
                modulus as int,
            ) == vint(syndrome@),
        forall|idx: int|
            0 <= idx < class@.len() && row_mat_mul(
                vint(#[trigger] class@[idx]@),
                mint(pm@),
                modulus as int,
            ) == vint(syndrome@) ==> contains_vecseq(results@, vint(class@[idx]@)),
        pairwise_distinct(results@),
{
    let ghost p = modulus as int;
    let mut results: Vec<Vec<i64>> = Vec::new();
    let mut ci: usize = 0;
    while ci < class.len()
        invariant
            ci <= class@.len(),
            forall|j: int|
                0 <= j < results@.len() ==> in_prefix(class@, ci as int, vint(
                    #[trigger] results@[j]@,
                )),
            forall|j: int|
                0 <= j < results@.len() ==> row_mat_mul(vint(#[trigger] results@[j]@), mint(pm@), p)
                    == vint(syndrome@),
            forall|idx: int|
                0 <= idx < ci && row_mat_mul(vint(#[trigger] class@[idx]@), mint(pm@), p) == vint(
                    syndrome@,
                ) ==> contains_vecseq(results@, vint(class@[idx]@)),
            pairwise_distinct(results@),
        decreases class@.len() - ci,
    {
        let cs = vec_mat_mul(&class[ci], pm, modulus);
        let ghost pre = results@;
        if vecs_equal(&cs, syndrome) {
            let e = copy_row(&class[ci]);
            proof {
                assert forall|j: int| 0 <= j < pre.len() implies vint(pre[j]@) != vint(e@) by {
                    assert(in_prefix(class@, ci as int, vint(pre[j]@)));
                    let idx = choose|idx: int|
                        0 <= idx < ci && vint(class@[idx]@) == vint(pre[j]@);
                    assert(vint(class@[idx]@) != vint(class@[ci as int]@));
                }
            }
            results.push(e);
            proof {
                assert(vint(results@[pre.len() as int]@) == vint(class@[ci as int]@));
            }
        } else {
            proof {
                if row_mat_mul(vint(class@[ci as int]@), mint(pm@), p) == vint(syndrome@) {
                    assert(vint(cs@) == vint(syndrome@));
                    crate::algebra::lemma_vint_inj(cs@, syndrome@);
                }
            }
        }
        proof {
            assert forall|j: int| 0 <= j < results@.len() implies in_prefix(
                class@,
                ci + 1,
                vint(#[trigger] results@[j]@),
            ) by {
                if j < pre.len() {
                    assert(in_prefix(class@, ci as int, vint(pre[j]@)));
                    let idx = choose|idx: int|
                        0 <= idx < ci && vint(class@[idx]@) == vint(pre[j]@);
                    assert(0 <= idx < ci + 1 && vint(class@[idx]@) == vint(results@[j]@));
                } else {
                    assert(vint(class@[ci as int]@) == vint(results@[j]@));
                }
            }
            assert forall|idx: int|
                0 <= idx < ci + 1 && row_mat_mul(vint(#[trigger] class@[idx]@), mint(pm@), p)
                    == vint(syndrome@) implies contains_vecseq(results@, vint(class@[idx]@)) by {
                if idx < ci {
                    assert(contains_vecseq(pre, vint(class@[idx]@)));
                    let j = choose|j: int|
                        0 <= j < pre.len() && vint(pre[j]@) == vint(class@[idx]@);
                    assert(vint(results@[j]@) == vint(class@[idx]@));
                } else {
                    assert(vint(results@[pre.len() as int]@) == vint(class@[idx]@));
                }
            }
        }
        ci += 1;
    }
    proof {
        assert forall|j: int| 0 <= j < results@.len() implies contains_vecseq(
            class@,
            vint(#[trigger] results@[j]@),
        ) by {
            assert(in_prefix(class@, class@.len() as int, vint(results@[j]@)));
            let idx = choose|idx: int|
                0 <= idx < class@.len() && vint(class@[idx]@) == vint(results@[j]@);
            assert(vint(class@[idx]@) == vint(results@[j]@));
        }
    }
    results
}

/// The row with every coordinate negated, reduced into `[0, p)`.
#[verifier::loop_isolation(false)]
fn negated_row(v: &Vec<i64>, modulus: i64) -> (r: Vec<i64>)
    requires
        1 <= modulus <= modulus_bound(),
        in_range(vint(v@), modulus as int),
    ensures
        r@.len() == v@.len(),
        forall|j: int| 0 <= j < v@.len() ==> #[trigger] r@[j] == (-vint(v@)[j]) % (modulus as int),
{
    let mut r: Vec<i64> = Vec::new();
    let mut i: usize = 0;
    while i < v.len()
        invariant
            i <= v@.len(),
            r@.len() == i,
            forall|j: int| 0 <= j < i ==> #[trigger] r@[j] == (-vint(v@)[j]) % (modulus as int),
        decreases v@.len() - i,
    {
        proof {
            assert(0 <= vint(v@)[i as int] < modulus);
        }
        r.push(normalize(-v[i], modulus));
        i += 1;
    }
    r
}

/// Decodes a received word against a generator matrix over `Z_p`.
/// The generator is row-reduced to systematic form `[I_k | A]` on an owned
/// copy; the parity-check matrix `P` is derived from it; and the syndrome
/// `received . P mod p` decides the outcome. A zero syndrome returns the
/// first `k` coordinates of the received word unchanged with an empty error
/// pattern. Otherwise the weight classes are searched in strictly
/// increasing order: the first weight with exactly one matching error
/// pattern yields the corrected message and that pattern, while a tie at
/// that weight returns `AmbiguousDecoding` with the full tied set. A word
/// that matches nothing at any weight would report `DecodingFailure`, but
/// that case is proved unreachable. `SingularMatrix` is returned only when
/// no systematic matrix of the generator's shape spans its row space, and
/// `NoInverseFound` only when the modulus is not prime; so a full-rank
/// generator under a prime modulus always decodes to one of the outcomes
/// above, and by the uniqueness of the systematic form the outcome is the
/// same on every call.
#[verifier::loop_isolation(false)]
#[verifier::rlimit(60)]
pub fn syndrome_decoder(input: &Vec<i64>, generator_matrix: &Vec<Vec<i64>>, modulus: i64) -> (r:
    Result<(Vec<i64>, Vec<i64>), DecodeError>)
    requires
        2 <= modulus <= modulus_bound(),
    ensures
        (r is Err && r->Err_0 is InvalidInput) <==> input@.len() == 0,
        (r is Err && r->Err_0 is InvalidGenerator) <==> (input@.len() > 0 && !dims_ok(
            input@,
            generator_matrix@,
        )),
        r is Err && (r->Err_0 is SingularMatrix || r->Err_0 is NoInverseFound) ==> dims_ok(
            input@,
            generator_matrix@,
        ) && !is_systematic(mint(generator_matrix@), modulus as int),
        (r is Err && r->Err_0 is SingularMatrix) ==> (forall|g: Seq<Seq<int>>|
            #![trigger same_rowspace(mint(generator_matrix@), g, modulus as int)]
            is_systematic(g, modulus as int) && g.len() == generator_matrix@.len() && g[0].len()
                == input@.len() ==> !same_rowspace(mint(generator_matrix@), g, modulus as int)),
        (r is Err && r->Err_0 is NoInverseFound) ==> !field_modulus(modulus as int) && !is_prime(
            modulus as int,
        ),
        dims_ok(input@, generator_matrix@) ==> (r is Err && (r->Err_0 is SingularMatrix
            || r->Err_0 is NoInverseFound)) || exists|g: Seq<Seq<int>>|
            reduced_shape(
                g,
                generator_matrix@.len() as int,
                input@.len() as int,
                modulus as int,
            ) && same_rowspace(mint(generator_matrix@), g, modulus as int) && decode_outcome(
                input@,
                g,
                modulus as int,
                r,
            ),
        dims_ok(input@, generator_matrix@) && is_systematic(mint(generator_matrix@), modulus as int)
            ==> decode_outcome(input@, mint(generator_matrix@), modulus as int, r),
        !(r is Err && r->Err_0 is DecodingFailure),
{
    let ghost p = modulus as int;
    if input.len() == 0 {
        return Err(DecodeError::InvalidInput);
    }
    let n = input.len();
    let k = generator_matrix.len();
    if k == 0 {
        return Err(DecodeError::InvalidGenerator);
    }

    // every generator row must be as long as the received word
    let mut vi: usize = 0;
    while vi < k
        invariant
            vi <= k,
            forall|i2: int| 0 <= i2 < vi ==> (#[trigger] generator_matrix@[i2]@).len() == n,
        decreases k - vi,
    {
        if generator_matrix[vi].len() != n {
            proof {
                assert(generator_matrix@[vi as int]@.len() != n);
            }
            return Err(DecodeError::InvalidGenerator);
        }
        vi += 1;
    }
    proof {
        assert(dims_ok(input@, generator_matrix@));
    }

    // the decoder never mutates the caller's generator: it reduces a copy
    let mut generator: Vec<Vec<i64>> = Vec::new();
    let mut gi: usize = 0;
    while gi < k
        invariant
            gi <= k,
            generator@.len() == gi,
            forall|i2: int| 0 <= i2 < gi ==> (#[trigger] generator@[i2]@) == generator_matrix@[i2]@,
        decreases k - gi,
    {
        generator.push(copy_row(&generator_matrix[gi]));
        gi += 1;
    }
    proof {
        assert forall|i2: int| 0 <= i2 < k implies #[trigger] mint(generator@)[i2] == mint(
            generator_matrix@,
        )[i2] by {
            assert(generator@[i2]@ == generator_matrix@[i2]@);
        }
        assert(mint(generator@) =~= mint(generator_matrix@));
        assert(generator@[0]@.len() == n);
        assert forall|i2: int| 0 <= i2 < k implies (#[trigger] mint(generator@)[i2]).len()
            == n by {
            assert(generator@[i2]@.len() == n);
        }
        assert(is_rect(mint(generator@), generator@[0]@.len() as int));
    }
    let ghost pre_elim = mint(generator@);

    match gaussian_eliminate(&mut generator, modulus) {
        Err(e) => {
            proof {
                assert(!is_systematic(pre_elim, p));
                assert(pre_elim == mint(generator_matrix@));
                if e is SingularMatrix {
                    assert forall|g: Seq<Seq<int>>|
                        #![trigger same_rowspace(mint(generator_matrix@), g, modulus as int)]
                        is_systematic(g, modulus as int) && g.len() == generator_matrix@.len()
                            && g[0].len() == input@.len() implies !same_rowspace(
                        mint(generator_matrix@),
                        g,
                        p,
                    ) by {
                        assert(!same_rowspace(pre_elim, g, p));
                    }
                }
            }
            return Err(e);
        },
        Ok(()) => {},
    }
    let ghost gv = mint(generator@);
    proof {
        assert(is_systematic(gv, p));
        assert(generator@.len() == k);
        assert(gv[0].len() == n);
        assert(reduced_shape(gv, k as int, n as int, p));
        assert(same_rowspace(mint(generator_matrix@), gv, p));
        assert(k <= n);
        if is_systematic(mint(generator_matrix@), p) {
            assert(gv == pre_elim);
            assert(gv == mint(generator_matrix@));
        }
    }

    let pm = build_parity_check(&generator, modulus);
    proof {
        assert(mint(pm@) == parity_of(gv, p));
        assert(pm@.len() == n);
        assert forall|i2: int| 0 <= i2 < n implies (#[trigger] mint(pm@)[i2]).len() == pm@[0]@.len() by {
            assert(pm@[i2]@.len() == n - k);
            assert(pm@[0]@.len() == n - k);
        }
        assert(is_rect(mint(pm@), pm@[0]@.len() as int));
    }
    let syndrome = vec_mat_mul(input, &pm, modulus);
    let ghost iv = vint(input@);
    let ghost s = vint(syndrome@);
    proof {
        assert(parity_of(gv, p).len() == n);
        assert(s == syndrome_of(iv, gv, p));
    }

    if is_zero_vec(&syndrome) {
        let msg = prefix_vec(input, k);
        let e: Vec<i64> = Vec::new();
        let r: Result<(Vec<i64>, Vec<i64>), DecodeError> = Ok((msg, e));
        proof {
            assert(is_zero_seq(s));
            assert(decode_outcome(input@, gv, p, r));
        }
        return r;
    }
    proof {
        assert(!is_zero_seq(s));
    }

    // the reduced received word itself explains the syndrome at its own
    // weight, so the search below never runs past weight n
    let ghost en = vmod(iv, p);
    let ghost wstar = weight(en);
    proof {
        assert(en.len() == n);
        assert forall|i2: int| 0 <= i2 < en.len() implies 0 <= #[trigger] en[i2] < p by {
            vstd::arithmetic::div_mod::lemma_mod_bound(iv[i2], p);
            assert(en[i2] == iv[i2] % p);
        }
        lemma_row_mat_mul_vmod(iv, parity_of(gv, p), p);
        assert(syndrome_of(en, gv, p) == s);
        lemma_weight_le_len(en);
        if wstar == 0 {
            lemma_weight_zero(en);
            lemma_zero_row_mat_mul(en, parity_of(gv, p), p);
            assert(false);
        }
        assert(is_error_pattern(en, n as nat, wstar, p));
        assert forall|e2: Seq<int>|
            e2.len() == n as nat && in_range(e2, p) && weight(e2) < 1 implies #[trigger] syndrome_of(
            e2,
            gv,
            p,
        ) != s by {
            lemma_weight_zero(e2);
            lemma_zero_row_mat_mul(e2, parity_of(gv, p), p);
        }
        assert(no_match_below(gv, s, p, n as nat, 1));
    }

    let mut w: usize = 1;
    while w <= n
        invariant
            1 <= w <= n + 1,
            no_match_below(gv, s, p, n as nat, w as nat),
        decreases n + 1 - w,
    {
        let class = list_possible_errors(n, w, modulus);
        proof {
            assert forall|idx: int| 0 <= idx < class@.len() implies (#[trigger] class@[idx]@).len()
                == pm@.len() by {
                assert(is_error_pattern(vint(class@[idx]@), n as nat, w as nat, p));
            }
        }
        let results = collect_matches(&class, &pm, &syndrome, modulus);
        proof {
            assert forall|j: int| 0 <= j < results@.len() implies is_error_pattern(
                vint(#[trigger] results@[j]@),
                n as nat,
                w as nat,
                p,
            ) && syndrome_of(vint(results@[j]@), gv, p) == s by {
                assert(contains_vecseq(class@, vint(results@[j]@)));
                let idx = choose|idx: int|
                    0 <= idx < class@.len() && vint(class@[idx]@) == vint(results@[j]@);
                assert(is_error_pattern(vint(class@[idx]@), n as nat, w as nat, p));
                assert(row_mat_mul(vint(results@[j]@), mint(pm@), p) == s);
            }
        }
        if results.len() == 0 {
            proof {
                assert forall|e2: Seq<int>|
                    e2.len() == n as nat && in_range(e2, p) && weight(e2) < w + 1
                    implies #[trigger] syndrome_of(e2, gv, p) != s by {
                    if weight(e2) >= w as nat {
                        assert(is_error_pattern(e2, n as nat, w as nat, p));
                        assert(contains_vecseq(class@, e2));
                        let idx = choose|idx: int|
                            0 <= idx < class@.len() && vint(class@[idx]@) == e2;
                        if syndrome_of(e2, gv, p) == s {
                            assert(row_mat_mul(vint(class@[idx]@), mint(pm@), p) == vint(
                                syndrome@,
                            ));
                            assert(contains_vecseq(results@, vint(class@[idx]@)));
                            assert(false);
                        }
                    }
                }
            }
            w += 1;
        } else if results.len() == 1 {
            let e = copy_row(&results[0]);
            let msg = corrected_prefix(input, &e, k, modulus);
            let r: Result<(Vec<i64>, Vec<i64>), DecodeError> = Ok((msg, e));
            proof {
                assert(vint(r->Ok_0.1@) == vint(results@[0]@));
                assert forall|e2: Seq<int>|
                    #![trigger syndrome_of(e2, gv, p)]
                    is_error_pattern(e2, n as nat, w as nat, p) && syndrome_of(e2, gv, p) == s
                    implies e2 == vint(results@[0]@) by {
                    assert(contains_vecseq(class@, e2));
                    let idx = choose|idx: int| 0 <= idx < class@.len() && vint(class@[idx]@) == e2;
                    assert(row_mat_mul(vint(class@[idx]@), mint(pm@), p) == vint(syndrome@));
                    assert(contains_vecseq(results@, vint(class@[idx]@)));
                    let j = choose|j: int|
                        0 <= j < results@.len() && vint(results@[j]@) == vint(class@[idx]@);
                    assert(j == 0);
                }
                assert(weight(vint(r->Ok_0.1@)) == w as nat);
                assert(decode_outcome(input@, gv, p, r));
            }
            return r;
        } else {
            let r: Result<(Vec<i64>, Vec<i64>), DecodeError> = Err(
                DecodeError::AmbiguousDecoding(results),
            );
            proof {
                let cands = r->Err_0->AmbiguousDecoding_0@;
                assert forall|e2: Seq<int>|
                    #![trigger contains_vecseq(cands, e2)]
                    is_error_pattern(e2, n as nat, w as nat, p) && syndrome_of(e2, gv, p) == s
                    implies contains_vecseq(cands, e2) by {
                    assert(contains_vecseq(class@, e2));
                    let idx = choose|idx: int| 0 <= idx < class@.len() && vint(class@[idx]@) == e2;
                    assert(row_mat_mul(vint(class@[idx]@), mint(pm@), p) == vint(syndrome@));
                    assert(contains_vecseq(results@, vint(class@[idx]@)));
                }
                assert(ambiguous_at(cands, gv, s, p, n as nat, w as nat));
                assert(decode_outcome(input@, gv, p, r));
            }
            return r;
        }
    }
    proof {
        assert(syndrome_of(en, gv, p) != s);
        assert(false);
    }
    Err(DecodeError::DecodingFailure)
}

/// The standard generator matrix of the binary (24, 12) Golay code: the
/// fixed constant table the tests and demonstrations decode against.
#[verifier::rlimit(50)]
pub fn golay_generator_matrix() -> (m: Vec<Vec<i64>>)
    ensures
        m@.len() == 12,
        forall|i: int| 0 <= i < 12 ==> (#[trigger] m@[i]@).len() == 24,
        is_systematic(mint(m@), 2),
{
    let m = vec![
        vec![1i64, 0, 0, 0, 0, 0, 0, 0, 0, 0, 0, 0, 0, 1, 1, 1, 1, 1, 1, 1, 1, 1, 1, 1],
        vec![0i64, 1, 0, 0, 0, 0, 0, 0, 0, 0, 0, 0, 1, 1, 1, 0, 1, 1, 1, 0, 0, 0, 1, 0],
        vec![0i64, 0, 1, 0, 0, 0, 0, 0, 0, 0, 0, 0, 1, 1, 0, 1, 1, 1, 0, 0, 0, 1, 0, 1],
        vec![0i64, 0, 0, 1, 0, 0, 0, 0, 0, 0, 0, 0, 1, 0, 1, 1, 1, 0, 0, 0, 1, 0, 1, 1],
        vec![0i64, 0, 0, 0, 1, 0, 0, 0, 0, 0, 0, 0, 1, 1, 1, 1, 0, 0, 0, 1, 0, 1, 1, 0],
        vec![0i64, 0, 0, 0, 0, 1, 0, 0, 0, 0, 0, 0, 1, 1, 1, 0, 0, 0, 1, 0, 1, 1, 0, 1],
        vec![0i64, 0, 0, 0, 0, 0, 1, 0, 0, 0, 0, 0, 1, 1, 0, 0, 0, 1, 0, 1, 1, 0, 1, 1],
        vec![0i64, 0, 0, 0, 0, 0, 0, 1, 0, 0, 0, 0, 1, 0, 0, 0, 1, 0, 1, 1, 0, 1, 1, 1],
        vec![0i64, 0, 0, 0, 0, 0, 0, 0, 1, 0, 0, 0, 1, 0, 0, 1, 0, 1, 1, 0, 1, 1, 1, 0],
        vec![0i64, 0, 0, 0, 0, 0, 0, 0, 0, 1, 0, 0, 1, 0, 1, 0, 1, 1, 0, 1, 1, 1, 0, 0],
        vec![0i64, 0, 0, 0, 0, 0, 0, 0, 0, 0, 1, 0, 1, 1, 0, 1, 1, 0, 1, 1, 1, 0, 0, 0],
        vec![0i64, 0, 0, 0, 0, 0, 0, 0, 0, 0, 0, 1, 1, 0, 1, 1, 0, 1, 1, 1, 0, 0, 0, 1],
    ];
    proof {
        assert forall|i: int| 0 <= i < 12 implies (#[trigger] mint(m@)[i]).len() == 24 by {
            assert(m@[i]@.len() == 24);
        }
        assert forall|i: int| 0 <= i < 12 implies in_range(#[trigger] mint(m@)[i], 2) by {
            assert forall|j: int| 0 <= j < 24 implies 0 <= #[trigger] vint(m@[i]@)[j] < 2 by {
                assert(m@[i]@[j] == 0i64 || m@[i]@[j] == 1i64);
            }
        }
        assert forall|r2: int, c2: int| 0 <= r2 < 12 && 0 <= c2 < 12 implies #[trigger] mint(
            m@,
        )[r2][c2] == if r2 == c2 {
            1int
        } else {
            0int
        } by {
            assert(m@[r2]@[c2] == if r2 == c2 {
                1i64
            } else {
                0i64
            });
        }
    }
    m
}

} // verus!
