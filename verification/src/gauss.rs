use vstd::prelude::*;
use vstd::std_specs::ops::AddSpec;
use vstd::std_specs::ops::MulSpec;
use crate::field::{
    lemma_add_interchange, lemma_mul_neg, lemma_mul_swap_right, lemma_mul_zero, lemma_zero_add,
    Group,
};
use crate::linear::{
    column, dot, identity, in_kernel, is_grid, is_inverse, lemma_associative,
    lemma_dot_add_scaled_left, lemma_dot_scale_left, lemma_dot_unit_left, lemma_dot_unit_right,
    lemma_dot_update_right, lemma_dot_zero_right, lemma_sum_two_changed, mat_vec, product,
    products, singular, sum, unit, vec_mat,
};
use crate::view::{
    lemma_at_add_scaled_row, lemma_at_scale_row, lemma_at_swap_rows, MatrixView,
};

verus! {

/// `r` times `m` is `w`: the row transforms that led from `m` to `w` led
/// from the identity to `r`.
pub open spec fn tracks<T: Group>(
    r: MatrixView<T>,
    w: MatrixView<T>,
    m: MatrixView<T>,
    n: nat,
) -> bool {
    forall|i: int, j: int|
        0 <= i < n && 0 <= j < n ==> dot(r.row(i), m.col(j)) == #[trigger] w.at(i, j)
}

/// `q` times `x` is `target`: `q` takes back the row transforms that led
/// to `x`.
pub open spec fn undoes<T: Group>(
    q: Seq<Seq<T>>,
    x: MatrixView<T>,
    target: Seq<Seq<T>>,
    n: nat,
) -> bool {
    &&& is_grid(q, n, n)
    &&& forall|i: int, j: int|
        0 <= i < n && 0 <= j < n ==> dot(q[i], x.col(j)) == #[trigger] target[i][j]
}

/// The grid `q` with columns `a` and `b` exchanged.
pub open spec fn swap_columns<T: Group>(q: Seq<Seq<T>>, a: int, b: int) -> Seq<Seq<T>> {
    Seq::new(
        q.len(),
        |i: int| Seq::new(q[i].len(), |t: int| q[i][MatrixView::<T>::swapped(t, a, b)]),
    )
}

/// The grid `q` with column `a` multiplied by `k`.
pub open spec fn scale_column<T: Group>(q: Seq<Seq<T>>, a: int, k: T) -> Seq<Seq<T>> {
    Seq::new(
        q.len(),
        |i: int|
            Seq::new(
                q[i].len(),
                |t: int|
                    if t == a {
                        q[i][t].mul_spec(k)
                    } else {
                        q[i][t]
                    },
            ),
    )
}

/// The grid `q` with `k` times column `src` added to column `dst`.
pub open spec fn add_scaled_column<T: Group>(q: Seq<Seq<T>>, dst: int, src: int, k: T) -> Seq<
    Seq<T>,
> {
    Seq::new(
        q.len(),
        |i: int|
            Seq::new(
                q[i].len(),
                |t: int|
                    if t == dst {
                        q[i][t].add_spec(q[i][src].mul_spec(k))
                    } else {
                        q[i][t]
                    },
            ),
    )
}

/// Exchanging two rows in the result and in the working copy keeps
/// `tracks`.
pub proof fn lemma_tracks_swap<T: Group>(
    r: MatrixView<T>,
    w: MatrixView<T>,
    m: MatrixView<T>,
    n: nat,
    a: int,
    b: int,
)
    requires
        tracks(r, w, m, n),
        0 <= a < n,
        0 <= b < n,
    ensures
        tracks(r.swap_rows(a, b), w.swap_rows(a, b), m, n),
{
    let r2 = r.swap_rows(a, b);
    let w2 = w.swap_rows(a, b);
    assert forall|i: int, j: int| 0 <= i < n && 0 <= j < n implies dot(r2.row(i), m.col(j))
        == #[trigger] w2.at(i, j) by {
        let i0 = MatrixView::<T>::swapped(i, a, b);
        lemma_at_swap_rows(w, a, b, i, j);
        assert forall|t: int| 0 <= t < r.cols implies r2.at(i, t) == r.at(i0, t) by {
            lemma_at_swap_rows(r, a, b, i, t);
        }
        assert(r2.row(i) =~= r.row(i0));
        assert(dot(r.row(i0), m.col(j)) == w.at(i0, j));
    }
}

/// Scaling a row in the result and in the working copy keeps `tracks`.
pub proof fn lemma_tracks_scale<T: Group>(
    r: MatrixView<T>,
    w: MatrixView<T>,
    m: MatrixView<T>,
    n: nat,
    a: int,
    k: T,
)
    requires
        tracks(r, w, m, n),
        0 <= a < n,
    ensures
        tracks(r.scale_row(a, k), w.scale_row(a, k), m, n),
{
    let r2 = r.scale_row(a, k);
    let w2 = w.scale_row(a, k);
    assert forall|i: int, j: int| 0 <= i < n && 0 <= j < n implies dot(r2.row(i), m.col(j))
        == #[trigger] w2.at(i, j) by {
        lemma_at_scale_row(w, a, k, i, j);
        assert(dot(r.row(i), m.col(j)) == w.at(i, j));
        if i == a {
            assert forall|t: int| 0 <= t < r.cols implies #[trigger] r2.row(i)[t] == r.row(
                i,
            )[t].mul_spec(k) by {
                lemma_at_scale_row(r, a, k, i, t);
            }
            lemma_dot_scale_left(r.row(i), k, r2.row(i), m.col(j));
        } else {
            assert forall|t: int| 0 <= t < r.cols implies r2.at(i, t) == r.at(i, t) by {
                lemma_at_scale_row(r, a, k, i, t);
            }
            assert(r2.row(i) =~= r.row(i));
        }
    }
}

/// Adding `k` times row `s` to row `d` in the result and in the working
/// copy keeps `tracks`.
pub proof fn lemma_tracks_add_scaled<T: Group>(
    r: MatrixView<T>,
    w: MatrixView<T>,
    m: MatrixView<T>,
    n: nat,
    d: int,
    s: int,
    k: T,
)
    requires
        tracks(r, w, m, n),
        0 <= d < n,
        0 <= s < n,
    ensures
        tracks(r.add_scaled_row(d, s, k), w.add_scaled_row(d, s, k), m, n),
{
    let r2 = r.add_scaled_row(d, s, k);
    let w2 = w.add_scaled_row(d, s, k);
    assert forall|i: int, j: int| 0 <= i < n && 0 <= j < n implies dot(r2.row(i), m.col(j))
        == #[trigger] w2.at(i, j) by {
        lemma_at_add_scaled_row(w, d, s, k, i, j);
        assert(dot(r.row(i), m.col(j)) == w.at(i, j));
        assert(dot(r.row(s), m.col(j)) == w.at(s, j));
        if i == d {
            assert forall|t: int| 0 <= t < r.cols implies #[trigger] r2.row(i)[t] == r.row(
                d,
            )[t].add_spec(r.row(s)[t].mul_spec(k)) by {
                lemma_at_add_scaled_row(r, d, s, k, i, t);
            }
            lemma_dot_add_scaled_left(r.row(d), r.row(s), k, r2.row(i), m.col(j));
        } else {
            assert forall|t: int| 0 <= t < r.cols implies r2.at(i, t) == r.at(i, t) by {
                lemma_at_add_scaled_row(r, d, s, k, i, t);
            }
            assert(r2.row(i) =~= r.row(i));
        }
    }
}

/// Exchanging two rows of `x` is taken back by exchanging the two columns
/// of `q`.
pub proof fn lemma_undoes_swap<T: Group>(
    q: Seq<Seq<T>>,
    x: MatrixView<T>,
    target: Seq<Seq<T>>,
    n: nat,
    a: int,
    b: int,
)
    requires
        undoes(q, x, target, n),
        x.rows == n,
        0 <= a < n,
        0 <= b < n,
    ensures
        undoes(swap_columns(q, a, b), x.swap_rows(a, b), target, n),
{
    let q2 = swap_columns(q, a, b);
    let x2 = x.swap_rows(a, b);
    assert(is_grid(q2, n, n)) by {
        assert forall|r: int| 0 <= r < n implies (#[trigger] q2[r]).len() == n by {
            assert(q[r].len() == n);
        }
    }
    assert forall|i: int, j: int| 0 <= i < n && 0 <= j < n implies dot(q2[i], x2.col(j))
        == #[trigger] target[i][j] by {
        assert(q[i].len() == n);
        let p = products(q[i], x.col(j));
        let moved = products(q2[i], x2.col(j));
        assert forall|t: int| 0 <= t < n implies #[trigger] moved[t] == p[MatrixView::<T>::swapped(
            t,
            a,
            b,
        )] by {
            lemma_at_swap_rows(x, a, b, t, j);
        }
        if a == b {
            assert(moved =~= p);
        } else {
            T::lemma_add_commutative(p[a], p[b]);
            lemma_sum_two_changed(p, moved, a, b);
        }
        assert(dot(q[i], x.col(j)) == target[i][j]);
    }
}

/// Scaling row `a` of `x` by `k`, other than zero, is taken back by scaling
/// column `a` of `q` by the multiplicative inverse of `k`.
pub proof fn lemma_undoes_scale<T: Group>(
    q: Seq<Seq<T>>,
    x: MatrixView<T>,
    target: Seq<Seq<T>>,
    n: nat,
    a: int,
    k: T,
)
    requires
        undoes(q, x, target, n),
        x.rows == n,
        0 <= a < n,
        k != T::zero(),
    ensures
        undoes(scale_column(q, a, k.recip()), x.scale_row(a, k), target, n),
{
    let q2 = scale_column(q, a, k.recip());
    let x2 = x.scale_row(a, k);
    assert(is_grid(q2, n, n)) by {
        assert forall|r: int| 0 <= r < n implies (#[trigger] q2[r]).len() == n by {
            assert(q[r].len() == n);
        }
    }
    assert forall|i: int, j: int| 0 <= i < n && 0 <= j < n implies dot(q2[i], x2.col(j))
        == #[trigger] target[i][j] by {
        assert(q[i].len() == n);
        let p = products(q[i], x.col(j));
        let moved = products(q2[i], x2.col(j));
        assert forall|t: int| 0 <= t < n implies #[trigger] moved[t] == p[t] by {
            lemma_at_scale_row(x, a, k, t, j);
            if t == a {
                let u = q[i][a];
                let v = x.at(a, j);
                let ki = k.recip();
                // (u * ki) * (v * k) == ((u * ki) * v) * k == ((u * v) * ki) * k
                //   == (u * v) * (ki * k) == u * v
                T::lemma_mul_associative(u.mul_spec(ki), v, k);
                lemma_mul_swap_right(u, ki, v);
                T::lemma_mul_associative(u.mul_spec(v), ki, k);
                T::lemma_mul_commutative(ki, k);
                T::lemma_mul_inverse(k);
                T::lemma_mul_identity(u.mul_spec(v));
            }
        }
        assert(moved =~= p);
        assert(dot(q[i], x.col(j)) == target[i][j]);
    }
}

/// Adding `k` times row `s` of `x` to row `d` is taken back by adding `-k`
/// times column `d` of `q` to column `s`.
pub proof fn lemma_undoes_add_scaled<T: Group>(
    q: Seq<Seq<T>>,
    x: MatrixView<T>,
    target: Seq<Seq<T>>,
    n: nat,
    d: int,
    s: int,
    k: T,
)
    requires
        undoes(q, x, target, n),
        x.rows == n,
        0 <= d < n,
        0 <= s < n,
        d != s,
    ensures
        undoes(add_scaled_column(q, s, d, k.neg()), x.add_scaled_row(d, s, k), target, n),
{
    let q2 = add_scaled_column(q, s, d, k.neg());
    let x2 = x.add_scaled_row(d, s, k);
    assert(is_grid(q2, n, n)) by {
        assert forall|r: int| 0 <= r < n implies (#[trigger] q2[r]).len() == n by {
            assert(q[r].len() == n);
        }
    }
    assert forall|i: int, j: int| 0 <= i < n && 0 <= j < n implies dot(q2[i], x2.col(j))
        == #[trigger] target[i][j] by {
        assert(q[i].len() == n);
        let p = products(q[i], x.col(j));
        let moved = products(q2[i], x2.col(j));
        assert forall|t: int| 0 <= t < n && t != d && t != s implies #[trigger] moved[t] == p[t] by {
            lemma_at_add_scaled_row(x, d, s, k, t, j);
        }
        let qd = q[i][d];
        let qs = q[i][s];
        let xd = x.at(d, j);
        let xs = x.at(s, j);
        lemma_at_add_scaled_row(x, d, s, k, d, j);
        lemma_at_add_scaled_row(x, d, s, k, s, j);
        assert(moved[d] == qd.mul_spec(xd.add_spec(xs.mul_spec(k))));
        assert(moved[s] == qs.add_spec(qd.mul_spec(k.neg())).mul_spec(xs));
        // moved[d] == qd * xd + (qd * xs) * k
        T::lemma_distributive(qd, xd, xs.mul_spec(k));
        T::lemma_mul_associative(qd, xs, k);
        // moved[s] == qs * xs + (qd * xs) * (-k)
        crate::field::lemma_distributive_right(qs, qd.mul_spec(k.neg()), xs);
        lemma_mul_swap_right(qd, k.neg(), xs);
        lemma_mul_neg(qd.mul_spec(xs), k);
        let e = qd.mul_spec(xs);
        lemma_add_interchange(p[d], e.mul_spec(k), p[s], e.mul_spec(k.neg()));
        T::lemma_add_identity(p[d].add_spec(p[s]));
        lemma_sum_two_changed(p, moved, d, s);
        assert(dot(q[i], x.col(j)) == target[i][j]);
    }
}

/// Columns `0..i` of `w` are done from the diagonal down: one on the
/// diagonal, zero below it.
pub open spec fn reduced_below<T: Group>(w: MatrixView<T>, n: nat, i: int) -> bool {
    forall|r: int, c: int|
        0 <= c < i && c <= r < n ==> #[trigger] w.at(r, c) == (if r == c {
            T::one()
        } else {
            T::zero()
        })
}

/// Columns `0..i` of `w` are zero above the diagonal.
pub open spec fn reduced_above<T: Group>(w: MatrixView<T>, i: int) -> bool {
    forall|r: int, c: int| 0 <= r < c < i ==> #[trigger] w.at(r, c) == T::zero()
}

/// Column `c` of `w` is zero in rows `from..to`.
pub open spec fn clear_between<T: Group>(w: MatrixView<T>, c: int, from: int, to: int) -> bool {
    forall|r: int| from <= r < to ==> #[trigger] w.at(r, c) == T::zero()
}

/// `w` stands for the identity matrix of `n` rows.
pub open spec fn is_identity<T: Group>(w: MatrixView<T>, n: nat) -> bool {
    &&& w.rows == n
    &&& w.cols == n
    &&& forall|r: int, c: int|
        0 <= r < n && 0 <= c < n ==> #[trigger] w.at(r, c) == (if r == c {
            T::one()
        } else {
            T::zero()
        })
}

/// Bringing a row from below into the pivot's place keeps the columns that
/// are done.
pub proof fn lemma_step_swap<T: Group>(w: MatrixView<T>, n: nat, i: int, j: int)
    requires
        reduced_below(w, n, i),
        0 <= i < j < n,
    ensures
        reduced_below(w.swap_rows(i, j), n, i),
        w.swap_rows(i, j).at(i, i) == w.at(j, i),
{
    let w2 = w.swap_rows(i, j);
    assert forall|r: int, c: int| 0 <= c < i && c <= r < n implies #[trigger] w2.at(r, c) == (if r
        == c {
        T::one()
    } else {
        T::zero()
    }) by {
        lemma_at_swap_rows(w, i, j, r, c);
        assert(w.at(i, c) == T::zero());
        assert(w.at(j, c) == T::zero());
        assert(w.at(r, c) == (if r == c {
            T::one()
        } else {
            T::zero()
        }));
    }
    lemma_at_swap_rows(w, i, j, i, i);
}

/// `a + p * -(a * (1/p)) == 0`.
pub proof fn lemma_eliminating_factor<T: Group>(a: T, p: T)
    requires
        p != T::zero(),
    ensures
        a.add_spec(p.mul_spec(a.mul_spec(p.recip()).neg())) == T::zero(),
{
    let f = a.mul_spec(p.recip());
    lemma_mul_neg(p, f);
    // p * (a * (1/p)) == a
    T::lemma_mul_commutative(p, f);
    T::lemma_mul_associative(a, p.recip(), p);
    T::lemma_mul_commutative(p.recip(), p);
    T::lemma_mul_inverse(p);
    T::lemma_mul_identity(a);
}

/// Clearing the pivot's column in row `j` below the pivot row `i`.
pub proof fn lemma_step_eliminate<T: Group>(w: MatrixView<T>, n: nat, i: int, j: int, k: T)
    requires
        reduced_below(w, n, i),
        0 <= i < j < n,
        clear_between(w, i, i + 1, j),
        w.at(i, i) != T::zero(),
        k == w.at(j, i).mul_spec(w.at(i, i).recip()).neg(),
    ensures
        reduced_below(w.add_scaled_row(j, i, k), n, i),
        clear_between(w.add_scaled_row(j, i, k), i, i + 1, j + 1),
        w.add_scaled_row(j, i, k).at(i, i) == w.at(i, i),
{
    let w2 = w.add_scaled_row(j, i, k);
    assert forall|r: int, c: int| 0 <= c < i && c <= r < n implies #[trigger] w2.at(r, c) == (if r
        == c {
        T::one()
    } else {
        T::zero()
    }) by {
        lemma_at_add_scaled_row(w, j, i, k, r, c);
        assert(w.at(i, c) == T::zero());
        assert(w.at(j, c) == T::zero());
        assert(w.at(r, c) == (if r == c {
            T::one()
        } else {
            T::zero()
        }));
        lemma_mul_zero(k);
        T::lemma_add_identity(T::zero());
    }
    assert forall|r: int| i + 1 <= r < j + 1 implies #[trigger] w2.at(r, i) == T::zero() by {
        lemma_at_add_scaled_row(w, j, i, k, r, i);
        if r == j {
            lemma_eliminating_factor(w.at(j, i), w.at(i, i));
        } else {
            assert(w.at(r, i) == T::zero());
        }
    }
    lemma_at_add_scaled_row(w, j, i, k, i, i);
}

/// Scaling the pivot row so that the pivot is one finishes column `i` from
/// the diagonal down.
pub proof fn lemma_step_normalize<T: Group>(w: MatrixView<T>, n: nat, i: int, k: T)
    requires
        reduced_below(w, n, i),
        0 <= i < n,
        clear_between(w, i, i + 1, n as int),
        w.at(i, i) != T::zero(),
        k == w.at(i, i).recip(),
    ensures
        reduced_below(w.scale_row(i, k), n, i + 1),
{
    let w2 = w.scale_row(i, k);
    assert forall|r: int, c: int| 0 <= c < i + 1 && c <= r < n implies #[trigger] w2.at(r, c) == (
    if r == c {
        T::one()
    } else {
        T::zero()
    }) by {
        lemma_at_scale_row(w, i, k, r, c);
        if c < i {
            assert(w.at(r, c) == (if r == c {
                T::one()
            } else {
                T::zero()
            }));
            lemma_mul_zero(k);
        } else if r == i {
            T::lemma_mul_inverse(w.at(i, i));
        } else {
            assert(w.at(r, i) == T::zero());
        }
    }
}

/// Clearing column `i` in row `j` above the diagonal, with row `i`.
pub proof fn lemma_step_back<T: Group>(w: MatrixView<T>, n: nat, i: int, j: int, k: T)
    requires
        reduced_below(w, n, n as int),
        reduced_above(w, i),
        0 <= j < i < n,
        clear_between(w, i, j + 1, i),
        k == w.at(j, i).neg(),
    ensures
        reduced_below(w.add_scaled_row(j, i, k), n, n as int),
        reduced_above(w.add_scaled_row(j, i, k), i),
        clear_between(w.add_scaled_row(j, i, k), i, j, i),
{
    let w2 = w.add_scaled_row(j, i, k);
    lemma_mul_zero(k);
    T::lemma_add_identity(T::zero());
    T::lemma_add_identity(T::one());
    assert forall|r: int, c: int| 0 <= c < n && c <= r < n implies #[trigger] w2.at(r, c) == (if r
        == c {
        T::one()
    } else {
        T::zero()
    }) by {
        lemma_at_add_scaled_row(w, j, i, k, r, c);
        assert(w.at(r, c) == (if r == c {
            T::one()
        } else {
            T::zero()
        }));
        if r == j {
            assert(w.at(i, c) == T::zero());
        }
    }
    assert forall|r: int, c: int| 0 <= r < c < i implies #[trigger] w2.at(r, c) == T::zero() by {
        lemma_at_add_scaled_row(w, j, i, k, r, c);
        assert(w.at(r, c) == T::zero());
        assert(w.at(i, c) == T::zero());
    }
    assert forall|r: int| j <= r < i implies #[trigger] w2.at(r, i) == T::zero() by {
        lemma_at_add_scaled_row(w, j, i, k, r, i);
        if r == j {
            assert(w.at(i, i) == T::one());
            T::lemma_mul_commutative(T::one(), k);
            T::lemma_mul_identity(k);
            T::lemma_add_inverse(w.at(j, i));
        } else {
            assert(w.at(r, i) == T::zero());
        }
    }
}

/// With every column done below and above the diagonal, the matrix is the
/// identity.
pub proof fn lemma_identity_reached<T: Group>(w: MatrixView<T>, n: nat)
    requires
        w.rows == n,
        w.cols == n,
        reduced_below(w, n, n as int),
        reduced_above(w, n as int),
    ensures
        is_identity(w, n),
{
    assert forall|r: int, c: int| 0 <= r < n && 0 <= c < n implies #[trigger] w.at(r, c) == (if r
        == c {
        T::one()
    } else {
        T::zero()
    }) by {
    }
}

/// At the start the working copy is the operand and the result is the
/// identity.
pub proof fn lemma_initial<T: Group>(m: MatrixView<T>, r: MatrixView<T>, n: nat)
    requires
        m.rows == n,
        m.cols == n,
        is_identity(r, n),
    ensures
        tracks(r, m, m, n),
        undoes(identity::<T>(n), m, m.grid(), n),
        undoes(identity::<T>(n), r, identity::<T>(n), n),
{
    assert forall|i: int, j: int| 0 <= i < n && 0 <= j < n implies dot(r.row(i), m.col(j))
        == #[trigger] m.at(i, j) by {
        assert forall|t: int| 0 <= t < n implies r.row(i)[t] == unit::<T>(n, i)[t] by {
            assert(r.row(i)[t] == r.at(i, t));
        }
        assert(r.row(i) =~= unit::<T>(n, i));
        lemma_dot_unit_left(m.col(j), i);
    }
    assert forall|i: int, j: int| 0 <= i < n && 0 <= j < n implies dot(
        identity::<T>(n)[i],
        m.col(j),
    ) == #[trigger] m.grid()[i][j] by {
        lemma_dot_unit_left(m.col(j), i);
    }
    assert forall|i: int, j: int| 0 <= i < n && 0 <= j < n implies dot(
        identity::<T>(n)[i],
        r.col(j),
    ) == #[trigger] identity::<T>(n)[i][j] by {
        lemma_dot_unit_left(r.col(j), i);
        assert(r.col(j)[i] == r.at(i, j));
    }
}

/// Once the working copy is the identity, the result is the inverse of the
/// operand, on both sides.
pub proof fn lemma_inverse_found<T: Group>(
    r: MatrixView<T>,
    w: MatrixView<T>,
    m: MatrixView<T>,
    q: Seq<Seq<T>>,
    n: nat,
)
    requires
        m.rows == n,
        m.cols == n,
        r.rows == n,
        r.cols == n,
        is_identity(w, n),
        tracks(r, w, m, n),
        undoes(q, w, m.grid(), n),
        undoes(q, r, identity::<T>(n), n),
    ensures
        is_inverse(r.grid(), m.grid(), n),
{
    let rg = r.grid();
    let mg = m.grid();
    let id = identity::<T>(n);
    assert forall|i: int, j: int| 0 <= i < n && 0 <= j < n implies #[trigger] product(
        rg,
        mg,
        n,
    )[i][j] == id[i][j] by {
        assert(column(mg, j) =~= m.col(j));
        assert(dot(r.row(i), m.col(j)) == w.at(i, j));
    }
    assert(product(rg, mg, n) =~~= id);
    // q is the operand itself
    assert forall|i: int| 0 <= i < n implies #[trigger] q[i] == mg[i] by {
        assert(q[i].len() == n);
        assert forall|j: int| 0 <= j < n implies q[i][j] == mg[i][j] by {
            assert forall|t: int| 0 <= t < n implies w.col(j)[t] == unit::<T>(n, j)[t] by {
                assert(w.col(j)[t] == w.at(t, j));
            }
            assert(w.col(j) =~= unit::<T>(n, j));
            lemma_dot_unit_right(q[i], j);
            assert(dot(q[i], w.col(j)) == mg[i][j]);
        }
        assert(q[i] =~= mg[i]);
    }
    assert forall|i: int, j: int| 0 <= i < n && 0 <= j < n implies #[trigger] product(
        mg,
        rg,
        n,
    )[i][j] == id[i][j] by {
        assert(column(rg, j) =~= r.col(j));
        assert(dot(q[i], r.col(j)) == id[i][j]);
    }
    assert(product(mg, rg, n) =~~= id);
}

/// A vector that `w` sends to zero in rows `r..n`, where columns `0..i`
/// of `w` are done and column `i` is zero from the diagonal down: one at
/// place `i`, and at each place above `r` what makes the row vanish.
pub open spec fn kernel_vector<T: Group>(w: MatrixView<T>, n: nat, i: int, r: int) -> Seq<T>
    decreases i - r,
{
    if r >= i {
        unit::<T>(n, i)
    } else {
        let x = kernel_vector(w, n, i, r + 1);
        x.update(r, dot(w.row(r), x).neg())
    }
}

/// `kernel_vector` has `n` elements, is one at place `i` and zero above
/// place `r`, and rows `r..n` of `w` send it to zero.
pub proof fn lemma_kernel_vector<T: Group>(w: MatrixView<T>, n: nat, i: int, r: int)
    requires
        w.rows == n,
        w.cols == n,
        0 <= r <= i < n,
        reduced_below(w, n, i),
        clear_between(w, i, i, n as int),
    ensures
        kernel_vector(w, n, i, r).len() == n,
        kernel_vector(w, n, i, r)[i] == T::one(),
        forall|t: int| 0 <= t < r ==> #[trigger] kernel_vector(w, n, i, r)[t] == T::zero(),
        forall|t: int| r <= t < n ==> #[trigger] dot(w.row(t), kernel_vector(w, n, i, r)) == T::zero(),
    decreases i - r,
{
    let x = kernel_vector(w, n, i, r);
    if r == i {
        assert forall|t: int| r <= t < n implies #[trigger] dot(w.row(t), x) == T::zero() by {
            lemma_dot_unit_right(w.row(t), i);
            assert(w.at(t, i) == T::zero());
        }
    } else {
        lemma_kernel_vector(w, n, i, r + 1);
        let x1 = kernel_vector(w, n, i, r + 1);
        let s = dot(w.row(r), x1);
        let c = s.neg();
        assert(x == x1.update(r, c));
        assert(x1[r] == T::zero());
        assert forall|t: int| r <= t < n implies #[trigger] dot(w.row(t), x) == T::zero() by {
            lemma_dot_update_right(w.row(t), x1, r, c);
            lemma_mul_zero(w.at(t, r));
            T::lemma_add_identity(dot(w.row(t), x));
            if t == r {
                assert(w.at(r, r) == T::one());
                T::lemma_mul_commutative(T::one(), c);
                T::lemma_mul_identity(c);
                T::lemma_add_inverse(s);
            } else {
                assert(w.at(t, r) == T::zero());
                assert(dot(w.row(t), x1) == T::zero());
                lemma_mul_zero(c);
                T::lemma_add_identity(T::zero());
            }
        }
    }
}

/// Where no pivot is left for column `i`, the working copy sends a vector
/// other than zero to zero, and so does the operand.
pub proof fn lemma_no_pivot<T: Group>(
    q: Seq<Seq<T>>,
    w: MatrixView<T>,
    m: MatrixView<T>,
    n: nat,
    i: int,
)
    requires
        w.rows == n,
        w.cols == n,
        m.rows == n,
        m.cols == n,
        0 <= i < n,
        reduced_below(w, n, i),
        clear_between(w, i, i, n as int),
        undoes(q, w, m.grid(), n),
    ensures
        singular(m.grid(), n),
{
    let x = kernel_vector(w, n, i, 0);
    lemma_kernel_vector(w, n, i, 0);
    T::lemma_nontrivial();
    let wg = w.grid();
    let mg = m.grid();
    assert(is_grid(wg, n, n));
    assert forall|r: int| 0 <= r < n implies #[trigger] dot(mg[r], x) == T::zero() by {
        assert(q[r].len() == n);
        assert forall|j: int| 0 <= j < n implies mg[r][j] == vec_mat(q[r], wg, n)[j] by {
            assert(column(wg, j) =~= w.col(j));
            assert(dot(q[r], w.col(j)) == mg[r][j]);
        }
        assert(mg[r] =~= vec_mat(q[r], wg, n));
        lemma_associative(q[r], wg, x);
        assert forall|t: int| 0 <= t < n implies #[trigger] mat_vec(wg, x)[t] == T::zero() by {
            assert(dot(w.row(t), x) == T::zero());
        }
        lemma_dot_zero_right(q[r], mat_vec(wg, x));
    }
    assert(x[i] != T::zero());
    assert(in_kernel(mg, n, x));
}

/// A grid that sends a vector other than zero to zero has no inverse: no
/// grid times it is the identity.
pub proof fn lemma_singular_has_no_inverse<T: Group>(m: Seq<Seq<T>>, l: Seq<Seq<T>>, n: nat)
    requires
        is_grid(m, n, n),
        is_grid(l, n, n),
        singular(m, n),
    ensures
        product(l, m, n) != identity::<T>(n),
{
    if product(l, m, n) == identity::<T>(n) {
        let x = choose|x: Seq<T>| #[trigger] in_kernel(m, n, x);
        let i = choose|i: int| 0 <= i < n && #[trigger] x[i] != T::zero();
        assert(l[i].len() == n);
        assert forall|j: int| 0 <= j < n implies vec_mat(l[i], m, n)[j] == unit::<T>(n, i)[j] by {
            assert(product(l, m, n)[i][j] == identity::<T>(n)[i][j]);
        }
        assert(vec_mat(l[i], m, n) =~= unit::<T>(n, i));
        lemma_associative(l[i], m, x);
        lemma_dot_unit_left(x, i);
        assert forall|t: int| 0 <= t < n implies #[trigger] mat_vec(m, x)[t] == T::zero() by {
            assert(dot(m[t], x) == T::zero());
        }
        lemma_dot_zero_right(l[i], mat_vec(m, x));
    }
}

/// What holds between the operand `m`, the working copy `w`, the result
/// `r` and the grid `q` that takes the transforms back, all square of `n`
/// rows: `r` times `m` is `w`, `q` times `w` is `m`, `q` times `r` is the
/// identity.
pub open spec fn linked<T: Group>(
    r: MatrixView<T>,
    w: MatrixView<T>,
    m: MatrixView<T>,
    q: Seq<Seq<T>>,
    n: nat,
) -> bool {
    &&& r.rows == n && r.cols == n
    &&& w.rows == n && w.cols == n
    &&& m.rows == n && m.cols == n
    &&& tracks(r, w, m, n)
    &&& undoes(q, w, m.grid(), n)
    &&& undoes(q, r, identity::<T>(n), n)
}

/// Exchanging rows `a` and `b` of the working copy and of the result keeps
/// them linked, with columns `a` and `b` of `q` exchanged.
pub proof fn lemma_linked_swap<T: Group>(
    r: MatrixView<T>,
    w: MatrixView<T>,
    m: MatrixView<T>,
    q: Seq<Seq<T>>,
    n: nat,
    a: int,
    b: int,
)
    requires
        linked(r, w, m, q, n),
        0 <= a < n,
        0 <= b < n,
    ensures
        linked(r.swap_rows(a, b), w.swap_rows(a, b), m, swap_columns(q, a, b), n),
{
    lemma_tracks_swap(r, w, m, n, a, b);
    lemma_undoes_swap(q, w, m.grid(), n, a, b);
    lemma_undoes_swap(q, r, identity::<T>(n), n, a, b);
}

/// Scaling row `a` of the working copy and of the result by `k`, other than
/// zero, keeps them linked, with column `a` of `q` scaled by the inverse of
/// `k`.
pub proof fn lemma_linked_scale<T: Group>(
    r: MatrixView<T>,
    w: MatrixView<T>,
    m: MatrixView<T>,
    q: Seq<Seq<T>>,
    n: nat,
    a: int,
    k: T,
)
    requires
        linked(r, w, m, q, n),
        0 <= a < n,
        k != T::zero(),
    ensures
        linked(r.scale_row(a, k), w.scale_row(a, k), m, scale_column(q, a, k.recip()), n),
{
    lemma_tracks_scale(r, w, m, n, a, k);
    lemma_undoes_scale(q, w, m.grid(), n, a, k);
    lemma_undoes_scale(q, r, identity::<T>(n), n, a, k);
}

/// Adding `k` times row `s` to row `d` in the working copy and in the
/// result keeps them linked, with `-k` times column `d` of `q` added to
/// column `s`.
pub proof fn lemma_linked_add_scaled<T: Group>(
    r: MatrixView<T>,
    w: MatrixView<T>,
    m: MatrixView<T>,
    q: Seq<Seq<T>>,
    n: nat,
    d: int,
    s: int,
    k: T,
)
    requires
        linked(r, w, m, q, n),
        0 <= d < n,
        0 <= s < n,
        d != s,
    ensures
        linked(
            r.add_scaled_row(d, s, k),
            w.add_scaled_row(d, s, k),
            m,
            add_scaled_column(q, s, d, k.neg()),
            n,
        ),
{
    lemma_tracks_add_scaled(r, w, m, n, d, s, k);
    lemma_undoes_add_scaled(q, w, m.grid(), n, d, s, k);
    lemma_undoes_add_scaled(q, r, identity::<T>(n), n, d, s, k);
}

/// The inner product of two vectors of one element is the product of the
/// two elements.
pub proof fn lemma_dot_single<T: Group>(a: Seq<T>, b: Seq<T>)
    requires
        a.len() == 1,
        b.len() == 1,
    ensures
        dot(a, b) == a[0].mul_spec(b[0]),
{
    let p = products(a, b);
    assert(p.drop_last() =~= Seq::<T>::empty());
    assert(sum(p) == sum(p.drop_last()).add_spec(p.last()));
    lemma_zero_add(p[0]);
}

/// A matrix of one cell that differs from zero has the matrix of the
/// cell's multiplicative inverse as its inverse.
pub proof fn lemma_one_by_one<T: Group>(m: MatrixView<T>, r: MatrixView<T>)
    requires
        m.rows == 1 && m.cols == 1,
        r.rows == 1 && r.cols == 1,
        m.at(0, 0) != T::zero(),
        r.at(0, 0) == m.at(0, 0).recip(),
    ensures
        is_inverse(r.grid(), m.grid(), 1),
{
    let rg = r.grid();
    let mg = m.grid();
    let id = identity::<T>(1);
    T::lemma_mul_inverse(m.at(0, 0));
    T::lemma_mul_commutative(m.at(0, 0), r.at(0, 0));
    lemma_dot_single(rg[0], column(mg, 0));
    lemma_dot_single(mg[0], column(rg, 0));
    assert forall|i: int, j: int| 0 <= i < 1 && 0 <= j < 1 implies #[trigger] product(
        rg,
        mg,
        1,
    )[i][j] == id[i][j] && #[trigger] product(mg, rg, 1)[i][j] == id[i][j] by {
    }
    assert(product(rg, mg, 1) =~~= id);
    assert(product(mg, rg, 1) =~~= id);
}

/// A matrix of one cell that is zero sends the vector `(1)` to zero.
pub proof fn lemma_one_by_one_singular<T: Group>(m: MatrixView<T>)
    requires
        m.rows == 1 && m.cols == 1,
        m.at(0, 0) == T::zero(),
    ensures
        singular(m.grid(), 1),
{
    let x = unit::<T>(1, 0);
    let mg = m.grid();
    lemma_dot_single(mg[0], x);
    lemma_mul_zero(T::one());
    T::lemma_nontrivial();
    assert(x[0] != T::zero());
    assert forall|r: int| 0 <= r < 1 implies #[trigger] dot(mg[r], x) == T::zero() by {
    }
    assert(in_kernel(mg, 1, x));
}

} // verus!
