//! Finite-field vector operations: the vector-matrix product and the
//! enumeration of error-pattern weight classes.

use vstd::prelude::*;

verus! {

use crate::algebra::{
    column,
    modulus_bound,
    dot,
    in_range,
    is_rect,
    lemma_dot_mod_both,
    lemma_dot_take_step,
    lemma_vint_push,
    lemma_weight_le_len,
    lemma_weight_push,
    mint,
    row_mat_mul,
    normalize,
    vint,
    vmod,
    weight,
};
use vstd::arithmetic::div_mod::lemma_mod_bound;

/// A length-`n` vector over `[0, p)` with exactly `w` nonzero coordinates.
pub open spec fn is_error_pattern(v: Seq<int>, n: nat, w: nat, p: int) -> bool {
    &&& v.len() == n
    &&& in_range(v, p)
    &&& weight(v) == w
}

/// Some element of the list views to `s`.
pub open spec fn contains_vecseq(list: Seq<Vec<i64>>, s: Seq<int>) -> bool {
    exists|i: int| 0 <= i < list.len() && vint(list[i]@) == s
}

/// No two elements of the list view to the same sequence.
pub open spec fn pairwise_distinct(list: Seq<Vec<i64>>) -> bool {
    forall|i: int, j: int|
        0 <= i < j < list.len() ==> vint(#[trigger] list[i]@) != vint(#[trigger] list[j]@)
}

/// A fresh vector holding `v`'s coordinates followed by `x`.
#[verifier::loop_isolation(false)]
pub(crate) fn extended(v: &Vec<i64>, x: i64) -> (r: Vec<i64>)
    ensures
        r@ == v@.push(x),
{
    let mut r: Vec<i64> = Vec::new();
    let mut i: usize = 0;
    proof {
        assert(r@ =~= v@.take(0));
    }
    while i < v.len()
        invariant
            i <= v@.len(),
            r@ == v@.take(i as int),
        decreases v@.len() - i,
    {
        r.push(v[i]);
        proof {
            assert(r@ =~= v@.take(i + 1));
        }
        i += 1;
    }
    proof {
        assert(v@.take(v@.len() as int) =~= v@);
    }
    r.push(x);
    r
}

/// Vector-matrix product over `Z_p`: coordinate `j` of the result is the dot
/// product of `vector` with column `j` of `mat`, reduced into `[0, p)`.
/// Neither the vector's nor the matrix's entries need be reduced beforehand.
#[verifier::loop_isolation(false)]
pub fn vec_mat_mul(vector: &Vec<i64>, mat: &Vec<Vec<i64>>, modulus: i64) -> (r: Vec<i64>)
    requires
        vector@.len() == mat@.len(),
        mat@.len() >= 1,
        is_rect(mint(mat@), mat@[0]@.len() as int),
        1 <= modulus <= modulus_bound(),
    ensures
        vint(r@) == row_mat_mul(vint(vector@), mint(mat@), modulus as int),
        in_range(vint(r@), modulus as int),
{
    let n = vector.len();
    let cols = mat[0].len();
    let ghost u = vint(vector@);
    let ghost m = mint(mat@);
    let ghost p = modulus as int;

    // the received coordinates, reduced once into [0, p)
    let mut nv: Vec<i64> = Vec::new();
    let mut idx: usize = 0;
    while idx < n
        invariant
            idx <= n,
            nv@.len() == idx,
            forall|i: int| 0 <= i < idx ==> nv@[i] == u[i] % p && 0 <= #[trigger] nv@[i] < modulus,
        decreases n - idx,
    {
        nv.push(normalize(vector[idx], modulus));
        idx += 1;
    }

    let mut result: Vec<i64> = Vec::new();
    let mut j: usize = 0;
    while j < cols
        invariant
            j <= cols,
            result@.len() == j,
            forall|jj: int| 0 <= jj < j ==> result@[jj] == dot(u, column(m, jj)) % p,
            forall|jj: int| 0 <= jj < j ==> 0 <= #[trigger] result@[jj] < modulus,
        decreases cols - j,
    {
        let ghost c = column(m, j as int);
        let mut acc: i64 = 0;
        let mut i: usize = 0;
        proof {
            assert(vmod(u, p).take(0) =~= Seq::<int>::empty());
            assert(vmod(c, p).take(0) =~= Seq::<int>::empty());
            assert(dot(vmod(u, p).take(0), vmod(c, p).take(0)) == 0);
            vstd::arithmetic::div_mod::lemma_small_mod(0nat, p as nat);
        }
        while i < n
            invariant
                i <= n,
                0 <= acc < modulus,
                acc == dot(vmod(u, p).take(i as int), vmod(c, p).take(i as int)) % p,
            decreases n - i,
        {
            proof {
                assert(mint(mat@)[i as int].len() == mat@[0]@.len());
            }
            let cell = mat[i][j];
            let nc = normalize(cell, modulus);
            proof {
                assert(0 <= (nv@[i as int] as int) * (nc as int) && (nv@[i as int] as int) * (
                nc as int) <= (modulus_bound() - 1) * (modulus_bound() - 1)) by (nonlinear_arith)
                    requires
                        0 <= nv@[i as int] as int <= modulus_bound() - 1,
                        0 <= nc as int <= modulus_bound() - 1,
                ;
            }
            let prod = nv[i] * nc;
            let sum = acc + prod;
            let next = sum % modulus;
            proof {
                lemma_mod_bound(sum as int, p);
                let d = dot(vmod(u, p).take(i as int), vmod(c, p).take(i as int));
                lemma_dot_take_step(vmod(u, p), vmod(c, p), i as int);
                assert(vmod(u, p)[i as int] == u[i as int] % p);
                assert(vmod(c, p)[i as int] == c[i as int] % p);
                assert(c[i as int] == mint(mat@)[i as int][j as int]);
                assert(nc == c[i as int] % p);
                let ab = (u[i as int] % p) * (c[i as int] % p);
                vstd::arithmetic::div_mod::lemma_add_mod_noop_right(d % p, ab, p);
                vstd::arithmetic::div_mod::lemma_add_mod_noop(d, ab, p);
                lemma_mod_bound(ab, p);
                vstd::arithmetic::div_mod::lemma_mod_twice(ab, p);
            }
            acc = next;
            i += 1;
        }
        proof {
            assert(vmod(u, p).take(n as int) =~= vmod(u, p));
            assert(vmod(c, p).take(n as int) =~= vmod(c, p));
            lemma_dot_mod_both(u, c, p);
        }
        result.push(acc);
        j += 1;
    }
    proof {
        assert(vint(result@) =~= row_mat_mul(u, m, p));
    }
    result
}


/// Every element of the list is a length-`n`, weight-`w` pattern over `[0, p)`.
pub open spec fn all_patterns(list: Seq<Vec<i64>>, n: nat, w: nat, p: int) -> bool {
    forall|i: int| 0 <= i < list.len() ==> is_error_pattern(vint(#[trigger] list[i]@), n, w, p)
}

/// Every length-`n`, weight-`w` pattern over `[0, p)` occurs in the list.
pub open spec fn class_complete(list: Seq<Vec<i64>>, n: nat, w: nat, p: int) -> bool {
    forall|s: Seq<int>| is_error_pattern(s, n, w, p) ==> #[trigger] contains_vecseq(list, s)
}

/// `post` is `pre` with, for each element of `items` in order, that element
/// extended by the coordinate `x` appended at the end.
spec fn is_block_append(
    pre: Seq<Vec<i64>>,
    post: Seq<Vec<i64>>,
    items: Seq<Vec<i64>>,
    x: i64,
) -> bool {
    &&& post.len() == pre.len() + items.len()
    &&& forall|j: int| 0 <= j < pre.len() ==> #[trigger] post[j] == pre[j]
    &&& forall|t: int|
        0 <= t < items.len() ==> vint(post[pre.len() + t]@) == vint(#[trigger] items[t]@).push(
            x as int,
        )
}

/// The first `zt.len()` elements of `out` are the elements of `zt`, each
/// extended by a zero coordinate.
spec fn zeros_prefix_of(out: Seq<Vec<i64>>, zt: Seq<Vec<i64>>) -> bool {
    &&& out.len() >= zt.len()
    &&& forall|j: int| 0 <= j < zt.len() ==> vint(#[trigger] out[j]@) == vint(zt[j]@).push(0)
}

/// `v` is some element of `nz` extended by a last coordinate in `[1, a)`.
spec fn ext_of(v: Seq<int>, nz: Seq<Vec<i64>>, a: int) -> bool {
    exists|b: int, tt: int|
        1 <= b < a && 0 <= tt < nz.len() && v == vint(nz[tt]@).push(b)
}

/// Beyond the first `zl` elements, every element of `out` is some element of
/// `nz` extended by a last coordinate in `[1, a)`.
spec fn tail_shape(out: Seq<Vec<i64>>, zl: int, nz: Seq<Vec<i64>>, a: int) -> bool {
    forall|j: int| zl <= j < out.len() ==> ext_of(vint(#[trigger] out[j]@), nz, a)
}

/// Every element of `nz` extended by any last coordinate in `[1, a)` occurs
/// in `out`.
spec fn blocks_included(out: Seq<Vec<i64>>, nz: Seq<Vec<i64>>, a: int) -> bool {
    forall|b: int, tt: int|
        #![trigger vint(nz[tt]@).push(b)]
        1 <= b < a && 0 <= tt < nz.len() ==> contains_vecseq(out, vint(nz[tt]@).push(b))
}

/// Appends to `out` a copy of each element of `items`, extended by `x`.
#[verifier::loop_isolation(false)]
fn push_extended_block(out: &mut Vec<Vec<i64>>, items: &Vec<Vec<i64>>, x: i64)
    ensures
        is_block_append(old(out)@, final(out)@, items@, x),
{
    let mut t: usize = 0;
    while t < items.len()
        invariant
            t <= items@.len(),
            out@.len() == old(out)@.len() + t,
            forall|j: int| 0 <= j < old(out)@.len() ==> #[trigger] out@[j] == old(out)@[j],
            forall|tt: int|
                0 <= tt < t ==> vint(out@[old(out)@.len() + tt]@) == vint(
                    #[trigger] items@[tt]@,
                ).push(x as int),
        decreases items@.len() - t,
    {
        let e = extended(&items[t], x);
        proof {
            lemma_vint_push(items@[t as int]@, x);
        }
        out.push(e);
        t += 1;
    }
}

/// A block append keeps every element a valid pattern: the old elements are
/// unchanged, and each new element extends a shorter pattern by `x`.
proof fn lemma_block_keeps_patterns(
    pre: Seq<Vec<i64>>,
    post: Seq<Vec<i64>>,
    items: Seq<Vec<i64>>,
    x: i64,
    n: nat,
    w: nat,
    wt: nat,
    p: int,
)
    requires
        is_block_append(pre, post, items, x),
        all_patterns(pre, n, w, p),
        all_patterns(items, (n - 1) as nat, wt, p),
        n >= 1,
        0 <= x < p,
        x == 0 ==> wt == w,
        x != 0 ==> w >= 1 && wt + 1 == w,
    ensures
        all_patterns(post, n, w, p),
{
    assert forall|j: int| 0 <= j < post.len() implies is_error_pattern(
        vint(#[trigger] post[j]@),
        n,
        w,
        p,
    ) by {
        if j < pre.len() {
            assert(post[j] == pre[j]);
            assert(is_error_pattern(vint(pre[j]@), n, w, p));
        } else {
            let t = j - pre.len();
            assert(is_error_pattern(vint(items[t]@), (n - 1) as nat, wt, p));
            assert(vint(post[pre.len() + t]@) == vint(items[t]@).push(x as int));
            let base = vint(items[t]@);
            lemma_weight_push(base, x as int);
            assert forall|i2: int| 0 <= i2 < base.push(x as int).len() implies 0 <= #[trigger] base.push(
                x as int,
            )[i2] < p by {
                if i2 < base.len() {
                    assert(0 <= base[i2] < p);
                }
            }
        }
    }
}

/// Every element of a zeros prefix plus value-bounded tail ends in a
/// coordinate smaller than `a`.
proof fn lemma_shape_lasts(pre: Seq<Vec<i64>>, zt: Seq<Vec<i64>>, nz: Seq<Vec<i64>>, a: int)
    requires
        zeros_prefix_of(pre, zt),
        tail_shape(pre, zt.len() as int, nz, a),
        1 <= a,
    ensures
        forall|j: int|
            0 <= j < pre.len() ==> vint(#[trigger] pre[j]@).len() > 0 && 0 <= vint(pre[j]@).last()
                < a,
{
    assert forall|j: int| 0 <= j < pre.len() implies vint(#[trigger] pre[j]@).len() > 0 && 0 <= vint(
        pre[j]@,
    ).last() < a by {
        if j < zt.len() {
            assert(vint(pre[j]@) == vint(zt[j]@).push(0));
        } else {
            assert(ext_of(vint(pre[j]@), nz, a));
            let (b, tt) = choose|b: int, tt: int|
                1 <= b < a && 0 <= tt < nz.len() && vint(pre[j]@) == vint(nz[tt]@).push(b);
            assert(vint(pre[j]@).last() == b);
        }
    }
}

/// A block append of fresh extensions keeps the list duplicate-free: the new
/// elements end in `x`, which no old element does, and differ among
/// themselves because `items` is duplicate-free.
proof fn lemma_block_keeps_distinct(
    pre: Seq<Vec<i64>>,
    post: Seq<Vec<i64>>,
    items: Seq<Vec<i64>>,
    x: i64,
)
    requires
        is_block_append(pre, post, items, x),
        pairwise_distinct(pre),
        pairwise_distinct(items),
        forall|j: int|
            0 <= j < pre.len() ==> vint(#[trigger] pre[j]@).len() > 0 && vint(pre[j]@).last()
                != x as int,
    ensures
        pairwise_distinct(post),
{
    assert forall|i: int, j: int| 0 <= i < j < post.len() implies vint(#[trigger] post[i]@) != vint(
        #[trigger] post[j]@,
    ) by {
        if j < pre.len() {
            assert(post[i] == pre[i] && post[j] == pre[j]);
        } else {
            let tj = j - pre.len();
            assert(vint(post[pre.len() + tj]@) == vint(items[tj]@).push(x as int));
            assert(vint(post[j]@).last() == x as int);
            if i < pre.len() {
                assert(post[i] == pre[i]);
                if vint(post[i]@) == vint(post[j]@) {
                    assert(vint(pre[i]@).last() == x as int);
                }
            } else {
                let ti = i - pre.len();
                assert(vint(post[pre.len() + ti]@) == vint(items[ti]@).push(x as int));
                if vint(post[i]@) == vint(post[j]@) {
                    assert(vint(items[ti]@).push(x as int).drop_last() =~= vint(items[ti]@));
                    assert(vint(items[tj]@).push(x as int).drop_last() =~= vint(items[tj]@));
                    assert(vint(items[ti]@) == vint(items[tj]@));
                }
            }
        }
    }
}

/// A block append with last coordinate `a` extends the tail shape from
/// bound `a` to bound `a + 1`.
proof fn lemma_block_extends_tail_shape(
    pre: Seq<Vec<i64>>,
    post: Seq<Vec<i64>>,
    nz: Seq<Vec<i64>>,
    x: i64,
    zl: int,
    a: int,
)
    requires
        is_block_append(pre, post, nz, x),
        tail_shape(pre, zl, nz, a),
        x as int == a,
        1 <= a,
        0 <= zl <= pre.len(),
    ensures
        tail_shape(post, zl, nz, a + 1),
{
    assert forall|j: int| zl <= j < post.len() implies ext_of(
        vint(#[trigger] post[j]@),
        nz,
        a + 1,
    ) by {
        if j < pre.len() {
            assert(post[j] == pre[j]);
            assert(ext_of(vint(pre[j]@), nz, a));
            let (b, tt) = choose|b: int, tt: int|
                1 <= b < a && 0 <= tt < nz.len() && vint(pre[j]@) == vint(nz[tt]@).push(b);
            assert(1 <= b < a + 1 && 0 <= tt < nz.len() && vint(post[j]@) == vint(nz[tt]@).push(
                b,
            ));
        } else {
            let t = j - pre.len();
            assert(vint(post[pre.len() + t]@) == vint(nz[t]@).push(x as int));
            assert(1 <= a < a + 1 && 0 <= t < nz.len() && vint(post[j]@) == vint(nz[t]@).push(a));
        }
    }
}

/// A block append with last coordinate `a` extends the inclusion of value
/// blocks from bound `a` to bound `a + 1`.
proof fn lemma_block_extends_included(
    pre: Seq<Vec<i64>>,
    post: Seq<Vec<i64>>,
    nz: Seq<Vec<i64>>,
    x: i64,
    a: int,
)
    requires
        is_block_append(pre, post, nz, x),
        blocks_included(pre, nz, a),
        x as int == a,
    ensures
        blocks_included(post, nz, a + 1),
{
    assert forall|b: int, tt: int|
        #![trigger vint(nz[tt]@).push(b)]
        1 <= b < a + 1 && 0 <= tt < nz.len() implies contains_vecseq(
        post,
        vint(nz[tt]@).push(b),
    ) by {
        if b < a {
            assert(contains_vecseq(pre, vint(nz[tt]@).push(b)));
            let j = choose|j: int|
                0 <= j < pre.len() && vint(pre[j]@) == vint(nz[tt]@).push(b);
            assert(post[j] == pre[j]);
            assert(vint(post[j]@) == vint(nz[tt]@).push(b));
        } else {
            assert(vint(post[pre.len() + tt]@) == vint(nz[tt]@).push(x as int));
        }
    }
}

/// A zeros prefix survives a block append, which only adds elements.
proof fn lemma_block_keeps_zeros_prefix(
    pre: Seq<Vec<i64>>,
    post: Seq<Vec<i64>>,
    items: Seq<Vec<i64>>,
    x: i64,
    zt: Seq<Vec<i64>>,
)
    requires
        is_block_append(pre, post, items, x),
        zeros_prefix_of(pre, zt),
    ensures
        zeros_prefix_of(post, zt),
{
    assert forall|j: int| 0 <= j < zt.len() implies vint(#[trigger] post[j]@) == vint(
        zt[j]@,
    ).push(0) by {
        assert(post[j] == pre[j]);
        assert(vint(pre[j]@) == vint(zt[j]@).push(0));
    }
}

/// Splits an error pattern of positive length into its last coordinate and
/// the remaining pattern.
proof fn lemma_complete_case(s: Seq<int>, n: nat, w: nat, p: int)
    requires
        is_error_pattern(s, n, w, p),
        n >= 1,
    ensures
        0 <= s.last() < p,
        s.last() == 0 ==> is_error_pattern(s.drop_last(), (n - 1) as nat, w, p),
        s.last() != 0 ==> w >= 1 && is_error_pattern(
            s.drop_last(),
            (n - 1) as nat,
            (w - 1) as nat,
            p,
        ),
{
    assert(0 <= s.last() < p) by {
        assert(0 <= s[s.len() - 1] < p);
    }
    assert forall|i: int| 0 <= i < s.drop_last().len() implies 0 <= #[trigger] s.drop_last()[i]
        < p by {
        assert(s.drop_last()[i] == s[i]);
        assert(0 <= s[i] < p);
    }
    assert(weight(s) == weight(s.drop_last()) + if s.last() == 0 {
        0nat
    } else {
        1nat
    });
}

/// A list made of a complete zeros-extended class and all nonzero-extended
/// complete classes is itself a complete class, one coordinate longer.
proof fn lemma_class_assembled(
    out: Seq<Vec<i64>>,
    zt: Seq<Vec<i64>>,
    nz: Seq<Vec<i64>>,
    n: nat,
    w: nat,
    p: int,
)
    requires
        n >= 1,
        p >= 1,
        zeros_prefix_of(out, zt),
        blocks_included(out, nz, p),
        class_complete(zt, (n - 1) as nat, w, p),
        w >= 1 ==> class_complete(nz, (n - 1) as nat, (w - 1) as nat, p),
    ensures
        class_complete(out, n, w, p),
{
    assert forall|s: Seq<int>| is_error_pattern(s, n, w, p) implies contains_vecseq(out, s) by {
        lemma_complete_case(s, n, w, p);
        let s0 = s.drop_last();
        let x = s.last();
        assert(s =~= s0.push(x));
        if x == 0 {
            assert(contains_vecseq(zt, s0));
            let tt = choose|i: int| 0 <= i < zt.len() && vint(zt[i]@) == s0;
            assert(vint(out[tt]@) == vint(zt[tt]@).push(0));
        } else {
            assert(contains_vecseq(nz, s0));
            let tt = choose|i: int| 0 <= i < nz.len() && vint(nz[i]@) == s0;
            assert(contains_vecseq(out, vint(nz[tt]@).push(x)));
            let j = choose|j: int| 0 <= j < out.len() && vint(out[j]@) == vint(nz[tt]@).push(x);
            assert(vint(out[j]@) == s);
        }
    }
}

/// Enumerates the weight class: every length-`length` vector over
/// `[0, modulus)` with exactly `error_count` nonzero coordinates appears in
/// the result exactly once, and nothing else does.
#[verifier::loop_isolation(false)]
pub fn list_possible_errors(length: usize, error_count: usize, modulus: i64) -> (r: Vec<Vec<i64>>)
    requires
        1 <= modulus <= modulus_bound(),
    ensures
        all_patterns(r@, length as nat, error_count as nat, modulus as int),
        class_complete(r@, length as nat, error_count as nat, modulus as int),
        pairwise_distinct(r@),
    decreases length,
{
    let ghost p = modulus as int;
    let ghost n = length as nat;
    let ghost w = error_count as nat;

    if error_count > length {
        let r: Vec<Vec<i64>> = Vec::new();
        proof {
            assert forall|s: Seq<int>| is_error_pattern(s, n, w, p) implies contains_vecseq(
                r@,
                s,
            ) by {
                lemma_weight_le_len(s);
            }
        }
        return r;
    }
    if length == 0 {
        let mut r: Vec<Vec<i64>> = Vec::new();
        r.push(Vec::new());
        proof {
            assert(vint(r@[0]@) =~= Seq::<int>::empty());
            assert(weight(vint(r@[0]@)) == 0);
            assert forall|s: Seq<int>| is_error_pattern(s, n, w, p) implies contains_vecseq(
                r@,
                s,
            ) by {
                assert(s =~= vint(r@[0]@));
            }
        }
        return r;
    }

    let mut out: Vec<Vec<i64>> = Vec::new();

    // patterns whose last coordinate is zero
    let zeros_tail = list_possible_errors(length - 1, error_count, modulus);
    proof {
        assert(out@ =~= Seq::<Vec<i64>>::empty());
    }
    push_extended_block(&mut out, &zeros_tail, 0);
    proof {
        lemma_block_keeps_patterns(Seq::empty(), out@, zeros_tail@, 0, n, w, w, p);
        lemma_block_keeps_distinct(Seq::empty(), out@, zeros_tail@, 0);
        assert forall|j: int| 0 <= j < zeros_tail@.len() implies vint(#[trigger] out@[j]@) == vint(
            zeros_tail@[j]@,
        ).push(0) by {
            assert(vint(out@[0 + j]@) == vint(zeros_tail@[j]@).push(0));
        }
        assert(zeros_prefix_of(out@, zeros_tail@));
    }
    let ghost zeros_len = out@.len() as int;

    if error_count == 0 {
        proof {
            lemma_class_assembled(out@, zeros_tail@, Seq::empty(), n, w, p);
        }
        return out;
    }

    // patterns whose last coordinate is a nonzero field element
    let nz_tail = list_possible_errors(length - 1, error_count - 1, modulus);
    let mut a: i64 = 1;
    while a < modulus
        invariant
            1 <= a <= modulus,
            zeros_prefix_of(out@, zeros_tail@),
            tail_shape(out@, zeros_len, nz_tail@, a as int),
            blocks_included(out@, nz_tail@, a as int),
            all_patterns(out@, n, w, p),
            pairwise_distinct(out@),
        decreases modulus - a,
    {
        let ghost pre = out@;
        push_extended_block(&mut out, &nz_tail, a);
        proof {
            lemma_block_keeps_patterns(pre, out@, nz_tail@, a, n, w, (w - 1) as nat, p);
            lemma_shape_lasts(pre, zeros_tail@, nz_tail@, a as int);
            lemma_block_keeps_distinct(pre, out@, nz_tail@, a);
            lemma_block_extends_tail_shape(pre, out@, nz_tail@, a, zeros_len, a as int);
            lemma_block_extends_included(pre, out@, nz_tail@, a, a as int);
            lemma_block_keeps_zeros_prefix(pre, out@, nz_tail@, a, zeros_tail@);
        }
        a += 1;
    }
    proof {
        lemma_class_assembled(out@, zeros_tail@, nz_tail@, n, w, p);
    }
    out
}

} // verus!
