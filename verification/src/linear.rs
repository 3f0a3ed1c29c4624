use vstd::prelude::*;
use vstd::std_specs::ops::AddSpec;
use vstd::std_specs::ops::MulSpec;
use crate::field::{
    lemma_add_cancel, lemma_add_interchange, lemma_add_swap_right, lemma_distributive_right,
    lemma_mul_swap_right, lemma_mul_zero, lemma_zero_add, Group,
};

verus! {

/// The sum of the elements of `s`.
pub open spec fn sum<T: Group>(s: Seq<T>) -> T
    decreases s.len(),
{
    if s.len() == 0 {
        T::zero()
    } else {
        sum(s.drop_last()).add_spec(s.last())
    }
}

/// The products of the elements of `a` and `b`, place by place.
pub open spec fn products<T: Group>(a: Seq<T>, b: Seq<T>) -> Seq<T> {
    Seq::new(a.len(), |t: int| a[t].mul_spec(b[t]))
}

/// The inner product of `a` and `b`, two vectors of one length.
pub open spec fn dot<T: Group>(a: Seq<T>, b: Seq<T>) -> T {
    sum(products(a, b))
}

/// The vector of `n` elements that is one at place `i` and zero elsewhere.
pub open spec fn unit<T: Group>(n: nat, i: int) -> Seq<T> {
    Seq::new(
        n,
        |t: int|
            if t == i {
                T::one()
            } else {
                T::zero()
            },
    )
}

/// `m` has `rows` rows of `cols` elements each.
pub open spec fn is_grid<T>(m: Seq<Seq<T>>, rows: nat, cols: nat) -> bool {
    m.len() == rows && forall|r: int| 0 <= r < rows ==> (#[trigger] m[r]).len() == cols
}

/// Column `c` of the grid `m`.
pub open spec fn column<T>(m: Seq<Seq<T>>, c: int) -> Seq<T> {
    Seq::new(m.len(), |r: int| m[r][c])
}

/// The identity matrix of `n` rows.
pub open spec fn identity<T: Group>(n: nat) -> Seq<Seq<T>> {
    Seq::new(n, |i: int| unit::<T>(n, i))
}

/// The product of the grids `a` and `b`, for `b` of `cols` columns.
pub open spec fn product<T: Group>(a: Seq<Seq<T>>, b: Seq<Seq<T>>, cols: nat) -> Seq<Seq<T>> {
    Seq::new(a.len(), |i: int| Seq::new(cols, |j: int| dot(a[i], column(b, j))))
}

/// `r` is the inverse of the square grid `m` of `n` rows: their products,
/// in both orders, are the identity.
pub open spec fn is_inverse<T: Group>(r: Seq<Seq<T>>, m: Seq<Seq<T>>, n: nat) -> bool {
    &&& is_grid(r, n, n)
    &&& is_grid(m, n, n)
    &&& product(r, m, n) == identity::<T>(n)
    &&& product(m, r, n) == identity::<T>(n)
}

/// The square grid `m` of `n` rows sends a vector other than zero to zero.
pub open spec fn singular<T: Group>(m: Seq<Seq<T>>, n: nat) -> bool {
    exists|x: Seq<T>| #[trigger] in_kernel(m, n, x)
}

/// `x` is a vector of `n` elements, not all zero, that every row of `m`
/// sends to zero.
pub open spec fn in_kernel<T: Group>(m: Seq<Seq<T>>, n: nat, x: Seq<T>) -> bool {
    &&& x.len() == n
    &&& exists|i: int| 0 <= i < n && #[trigger] x[i] != T::zero()
    &&& forall|r: int| 0 <= r < n ==> #[trigger] dot(m[r], x) == T::zero()
}

/// The sum of zeros is zero.
pub proof fn lemma_sum_zeros<T: Group>(s: Seq<T>)
    requires
        forall|t: int| 0 <= t < s.len() ==> #[trigger] s[t] == T::zero(),
    ensures
        sum(s) == T::zero(),
    decreases s.len(),
{
    if s.len() > 0 {
        lemma_sum_zeros(s.drop_last());
        assert(s.last() == s[s.len() - 1]);
        T::lemma_add_identity(T::zero());
    }
}

/// The sum of place-by-place sums is the sum of the sums.
pub proof fn lemma_sum_add<T: Group>(a: Seq<T>, b: Seq<T>, c: Seq<T>)
    requires
        a.len() == b.len(),
        a.len() == c.len(),
        forall|t: int| 0 <= t < a.len() ==> #[trigger] c[t] == a[t].add_spec(b[t]),
    ensures
        sum(c) == sum(a).add_spec(sum(b)),
    decreases a.len(),
{
    if a.len() == 0 {
        T::lemma_add_identity(T::zero());
    } else {
        lemma_sum_add(a.drop_last(), b.drop_last(), c.drop_last());
        assert(c.last() == c[c.len() - 1]);
        lemma_add_interchange(sum(a.drop_last()), sum(b.drop_last()), a.last(), b.last());
    }
}

/// The sum of the elements times `k` is `k` times the sum.
pub proof fn lemma_sum_scale<T: Group>(a: Seq<T>, b: Seq<T>, k: T)
    requires
        a.len() == b.len(),
        forall|t: int| 0 <= t < a.len() ==> #[trigger] b[t] == a[t].mul_spec(k),
    ensures
        sum(b) == sum(a).mul_spec(k),
    decreases a.len(),
{
    if a.len() == 0 {
        lemma_mul_zero(k);
    } else {
        lemma_sum_scale(a.drop_last(), b.drop_last(), k);
        assert(b.last() == b[b.len() - 1]);
        lemma_distributive_right(sum(a.drop_last()), a.last(), k);
    }
}

/// Replacing the element at place `i` by `x` moves the sum by as much.
pub proof fn lemma_sum_update<T: Group>(s: Seq<T>, i: int, x: T)
    requires
        0 <= i < s.len(),
    ensures
        sum(s.update(i, x)).add_spec(s[i]) == sum(s).add_spec(x),
    decreases s.len(),
{
    let s2 = s.update(i, x);
    if i == s.len() - 1 {
        assert(s2.drop_last() =~= s.drop_last());
        lemma_add_swap_right(sum(s.drop_last()), x, s[i]);
    } else {
        assert(s2.drop_last() =~= s.drop_last().update(i, x));
        lemma_sum_update(s.drop_last(), i, x);
        lemma_add_swap_right(sum(s2.drop_last()), s.last(), s[i]);
        lemma_add_swap_right(sum(s.drop_last()), x, s.last());
    }
}

/// Two sequences that differ at two places only, and there by amounts that
/// cancel, have one sum.
pub proof fn lemma_sum_two_changed<T: Group>(a: Seq<T>, b: Seq<T>, d: int, s: int)
    requires
        a.len() == b.len(),
        0 <= d < a.len(),
        0 <= s < a.len(),
        d != s,
        forall|t: int| 0 <= t < a.len() && t != d && t != s ==> #[trigger] b[t] == a[t],
        b[d].add_spec(b[s]) == a[d].add_spec(a[s]),
    ensures
        sum(a) == sum(b),
{
    let m = a.update(d, b[d]);
    assert(b =~= m.update(s, b[s]));
    lemma_sum_update(a, d, b[d]);
    lemma_sum_update(m, s, b[s]);
    // sum(m) + a[d] == sum(a) + b[d];  sum(b) + a[s] == sum(m) + b[s]
    let sa = sum(a);
    let sb = sum(b);
    let sm = sum(m);
    // (sb + a[s]) + a[d] == (sm + b[s]) + a[d] == (sm + a[d]) + b[s] == (sa + b[d]) + b[s]
    lemma_add_swap_right(sm, b[s], a[d]);
    T::lemma_add_associative(sb, a[s], a[d]);
    T::lemma_add_associative(sa, b[d], b[s]);
    T::lemma_add_commutative(a[s], a[d]);
    lemma_add_cancel(sb, sa, a[d].add_spec(a[s]));
}

/// The inner product is linear in its first vector: scaling.
pub proof fn lemma_dot_scale_left<T: Group>(x: Seq<T>, k: T, z: Seq<T>, v: Seq<T>)
    requires
        x.len() == z.len(),
        forall|t: int| 0 <= t < x.len() ==> #[trigger] z[t] == x[t].mul_spec(k),
    ensures
        dot(z, v) == dot(x, v).mul_spec(k),
{
    assert forall|t: int| 0 <= t < x.len() implies #[trigger] products(z, v)[t] == products(
        x,
        v,
    )[t].mul_spec(k) by {
        lemma_mul_swap_right(x[t], k, v[t]);
    }
    lemma_sum_scale(products(x, v), products(z, v), k);
}

/// The inner product is linear in its first vector: adding `k` times
/// another vector.
pub proof fn lemma_dot_add_scaled_left<T: Group>(x: Seq<T>, y: Seq<T>, k: T, z: Seq<T>, v: Seq<T>)
    requires
        x.len() == z.len(),
        y.len() == z.len(),
        forall|t: int| 0 <= t < x.len() ==> #[trigger] z[t] == x[t].add_spec(y[t].mul_spec(k)),
    ensures
        dot(z, v) == dot(x, v).add_spec(dot(y, v).mul_spec(k)),
{
    let yk = Seq::new(y.len(), |t: int| y[t].mul_spec(k));
    lemma_dot_scale_left(y, k, yk, v);
    assert forall|t: int| 0 <= t < x.len() implies #[trigger] products(z, v)[t] == products(
        x,
        v,
    )[t].add_spec(products(yk, v)[t]) by {
        lemma_distributive_right(x[t], y[t].mul_spec(k), v[t]);
    }
    lemma_sum_add(products(x, v), products(yk, v), products(z, v));
}

/// The inner product with a unit vector picks one element.
pub proof fn lemma_dot_unit_right<T: Group>(q: Seq<T>, j: int)
    requires
        0 <= j < q.len(),
    ensures
        dot(q, unit::<T>(q.len(), j)) == q[j],
{
    let p = products(q, unit::<T>(q.len(), j));
    let z = Seq::new(q.len(), |t: int| T::zero());
    assert forall|t: int| 0 <= t < q.len() implies #[trigger] p[t] == z.update(j, q[j])[t] by {
        if t == j {
            T::lemma_mul_identity(q[j]);
        } else {
            lemma_mul_zero(q[t]);
        }
    }
    assert(p =~= z.update(j, q[j]));
    lemma_sum_update(z, j, q[j]);
    lemma_sum_zeros(z);
    T::lemma_add_identity(sum(p));
    lemma_zero_add(q[j]);
}

/// The inner product of a unit vector with `x` picks one element.
pub proof fn lemma_dot_unit_left<T: Group>(x: Seq<T>, j: int)
    requires
        0 <= j < x.len(),
    ensures
        dot(unit::<T>(x.len(), j), x) == x[j],
{
    let p = products(unit::<T>(x.len(), j), x);
    let z = Seq::new(x.len(), |t: int| T::zero());
    assert forall|t: int| 0 <= t < x.len() implies #[trigger] p[t] == z.update(j, x[j])[t] by {
        if t == j {
            T::lemma_mul_identity(x[j]);
            T::lemma_mul_commutative(T::one(), x[j]);
        } else {
            lemma_mul_zero(x[t]);
        }
    }
    assert(p =~= z.update(j, x[j]));
    lemma_sum_update(z, j, x[j]);
    lemma_sum_zeros(z);
    T::lemma_add_identity(sum(p));
    lemma_zero_add(x[j]);
}

/// The inner product with the zero vector is zero.
pub proof fn lemma_dot_zero_right<T: Group>(q: Seq<T>, z: Seq<T>)
    requires
        forall|t: int| 0 <= t < q.len() ==> #[trigger] z[t] == T::zero(),
    ensures
        dot(q, z) == T::zero(),
{
    assert forall|t: int| 0 <= t < q.len() implies #[trigger] products(q, z)[t] == T::zero() by {
        lemma_mul_zero(q[t]);
    }
    lemma_sum_zeros(products(q, z));
}

/// Replacing the element of `x` at place `r` by `c` moves the inner product
/// with `w` by `w[r]` times as much.
pub proof fn lemma_dot_update_right<T: Group>(w: Seq<T>, x: Seq<T>, r: int, c: T)
    requires
        0 <= r < w.len(),
        w.len() == x.len(),
    ensures
        dot(w, x.update(r, c)).add_spec(w[r].mul_spec(x[r])) == dot(w, x).add_spec(
            w[r].mul_spec(c),
        ),
{
    assert(products(w, x.update(r, c)) =~= products(w, x).update(r, w[r].mul_spec(c)));
    lemma_sum_update(products(w, x), r, w[r].mul_spec(c));
}

/// The vector `q` times the grid `a` of `cols` columns.
pub open spec fn vec_mat<T: Group>(q: Seq<T>, a: Seq<Seq<T>>, cols: nat) -> Seq<T> {
    Seq::new(cols, |j: int| dot(q, column(a, j)))
}

/// The grid `a` times the vector `x`.
pub open spec fn mat_vec<T: Group>(a: Seq<Seq<T>>, x: Seq<T>) -> Seq<T> {
    Seq::new(a.len(), |t: int| dot(a[t], x))
}

/// `(q a) x == q (a x)`: the product of a vector, a grid and a vector does
/// not depend on where the brackets stand.
pub proof fn lemma_associative<T: Group>(q: Seq<T>, a: Seq<Seq<T>>, x: Seq<T>)
    requires
        q.len() == a.len(),
        is_grid(a, a.len(), x.len()),
    ensures
        dot(vec_mat(q, a, x.len()), x) == dot(q, mat_vec(a, x)),
    decreases q.len(),
{
    let n = x.len();
    if q.len() == 0 {
        assert forall|t: int| 0 <= t < n implies #[trigger] vec_mat(q, a, n)[t] == T::zero() by {
            assert(products(q, column(a, t)) =~= Seq::<T>::empty());
        }
        assert forall|t: int| 0 <= t < n implies #[trigger] products(vec_mat(q, a, n), x)[t]
            == T::zero() by {
            lemma_mul_zero(x[t]);
        }
        lemma_sum_zeros(products(vec_mat(q, a, n), x));
        assert(products(q, mat_vec(a, x)) =~= Seq::<T>::empty());
    } else {
        let q1 = q.drop_last();
        let a1 = a.drop_last();
        let k = q.last();
        let row = a.last();
        assert(is_grid(a1, a1.len(), n)) by {
            assert forall|r: int| 0 <= r < a1.len() implies (#[trigger] a1[r]).len() == n by {
                assert(a1[r] == a[r]);
            }
        }
        lemma_associative(q1, a1, x);
        let u = vec_mat(q1, a1, n);
        let z = vec_mat(q, a, n);
        assert forall|j: int| 0 <= j < n implies #[trigger] z[j] == u[j].add_spec(
            row[j].mul_spec(k),
        ) by {
            assert(products(q, column(a, j)).drop_last() =~= products(q1, column(a1, j)));
            T::lemma_mul_commutative(k, row[j]);
        }
        lemma_dot_add_scaled_left(u, row, k, z, x);
        assert(products(q, mat_vec(a, x)).drop_last() =~= products(q1, mat_vec(a1, x)));
        T::lemma_mul_commutative(k, dot(row, x));
    }
}

} // verus!
