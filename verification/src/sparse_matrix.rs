use vstd::prelude::*;
use vstd::std_specs::ops::AddSpec;
use vstd::std_specs::ops::MulSpec;
use crate::error::MatrixError;
use crate::field::Group;
use crate::matrix_base::{ConstMatrix, Matrix, MatrixInit, MatrixIterator};
use crate::view::MatrixView;

verus! {

/// An explicit cell of a row: its column and its value.
#[derive(Debug)]
pub struct Item<T> {
    pub index: usize,
    pub value: T,
}

impl<T: Copy> Clone for Item<T> {
    fn clone(&self) -> (r: Self)
        ensures
            r == *self,
    {
        Item { index: self.index, value: self.value }
    }
}

impl<T: Copy> Copy for Item<T> {

}

impl<T> Item<T> {
    /// The cell of column `i` with the value `v`.
    pub fn new(i: usize, v: T) -> (item: Item<T>)
        ensures
            item.index == i,
            item.value == v,
    {
        Item { index: i, value: v }
    }
}

impl<T: Group> Item<T> {
    /// The cell with its value multiplied by `other`.
    pub fn mul(self, other: T) -> (r: Item<T>)
        ensures
            r.index == self.index,
            r.value == self.value.mul_spec(other),
    {
        proof {
            T::lemma_operators();
        }
        Item { index: self.index, value: self.value * other }
    }

    /// The cell of `self`'s column whose value is the sum of both values.
    pub fn add(self, other: Item<T>) -> (r: Item<T>)
        ensures
            r.index == self.index,
            r.value == self.value.add_spec(other.value),
    {
        proof {
            T::lemma_operators();
        }
        Item { index: self.index, value: self.value + other.value }
    }
}

/// The value that the cells `s` hold for column `c`, if any.
pub open spec fn find<T>(s: Seq<Item<T>>, c: int) -> Option<T>
    decreases s.len(),
{
    if s.len() == 0 {
        None
    } else if s.last().index == c {
        Some(s.last().value)
    } else {
        find(s.drop_last(), c)
    }
}

/// The columns of `s` ascend strictly.
pub open spec fn ascending<T>(s: Seq<Item<T>>) -> bool {
    forall|i: int, j: int| 0 <= i < j < s.len() ==> s[i].index < s[j].index
}

/// Every column of `s` lies below `cols`.
pub open spec fn within<T>(s: Seq<Item<T>>, cols: int) -> bool {
    forall|i: int| 0 <= i < s.len() ==> #[trigger] s[i].index < cols
}

/// Appending a cell changes what is found for its column only.
pub proof fn lemma_find_push<T>(s: Seq<Item<T>>, e: Item<T>, c: int)
    ensures
        find(s.push(e), c) == (if e.index == c {
            Some(e.value)
        } else {
            find(s, c)
        }),
{
    assert(s.push(e).drop_last() =~= s);
}

/// What the first `n + 1` cells hold for a column, from what the first `n`
/// hold.
pub proof fn lemma_find_prefix<T>(s: Seq<Item<T>>, n: int, c: int)
    requires
        0 <= n < s.len(),
    ensures
        find(s.subrange(0, n + 1), c) == (if s[n].index == c {
            Some(s[n].value)
        } else {
            find(s.subrange(0, n), c)
        }),
{
    assert(s.subrange(0, n + 1).drop_last() =~= s.subrange(0, n));
}

/// A column that no cell has is not found.
pub proof fn lemma_find_none<T>(s: Seq<Item<T>>, c: int)
    requires
        forall|i: int| 0 <= i < s.len() ==> #[trigger] s[i].index != c,
    ensures
        find(s, c).is_none(),
    decreases s.len(),
{
    if s.len() > 0 {
        assert(s.last().index != c);
        lemma_find_none(s.drop_last(), c);
    }
}

/// Among ascending columns, the cell with column `c` is the one found.
pub proof fn lemma_find_some<T>(s: Seq<Item<T>>, i: int)
    requires
        ascending(s),
        0 <= i < s.len(),
    ensures
        find(s, s[i].index as int) == Some(s[i].value),
    decreases s.len(),
{
    if i < s.len() - 1 {
        assert(s[i].index < s.last().index);
        lemma_find_some(s.drop_last(), i);
    }
}

/// What is found is the value of one of the cells.
pub proof fn lemma_find_witness<T>(s: Seq<Item<T>>, c: int) -> (i: int)
    requires
        find(s, c).is_some(),
    ensures
        0 <= i < s.len(),
        s[i].index == c,
        find(s, c) == Some(s[i].value),
    decreases s.len(),
{
    if s.last().index == c {
        s.len() - 1
    } else {
        lemma_find_witness(s.drop_last(), c)
    }
}

/// What holds while two rows are merged, with `i` cells of `dst` and `j`
/// cells of `src` consumed into `out`: `out` ascends and stays below the
/// next cell of either row, and holds for every column the merge of what
/// the consumed cells hold for it.
pub open spec fn merged_so_far<T: Group>(
    dst: Seq<Item<T>>,
    src: Seq<Item<T>>,
    k: T,
    out: Seq<Item<T>>,
    i: int,
    j: int,
) -> bool {
    &&& 0 <= i <= dst.len()
    &&& 0 <= j <= src.len()
    &&& out.len() <= i + j
    &&& ascending(out)
    &&& i < dst.len() ==> forall|t: int|
        0 <= t < out.len() ==> (#[trigger] out[t]).index < dst[i].index
    &&& j < src.len() ==> forall|t: int|
        0 <= t < out.len() ==> (#[trigger] out[t]).index < src[j].index
    &&& i < dst.len() ==> forall|t: int| 0 <= t < j ==> (#[trigger] src[t]).index < dst[i].index
    &&& j < src.len() ==> forall|t: int| 0 <= t < i ==> (#[trigger] dst[t]).index < src[j].index
    &&& forall|c: int| #[trigger]
        find(out, c) == MatrixView::<T>::merged(
            find(dst.subrange(0, i), c),
            find(src.subrange(0, j), c),
            k,
        )
    &&& forall|cols: int| within(dst, cols) && within(src, cols) ==> within(out, cols)
}

/// One step of the merge: the cell `e` made of the next cell of `dst`, of
/// `src`, or of both where their columns agree, is appended.
proof fn lemma_merge_step<T: Group>(
    dst: Seq<Item<T>>,
    src: Seq<Item<T>>,
    k: T,
    out: Seq<Item<T>>,
    i: int,
    j: int,
    e: Item<T>,
    take_dst: bool,
    take_src: bool,
)
    requires
        ascending(dst),
        ascending(src),
        merged_so_far(dst, src, k, out, i, j),
        take_dst || take_src,
        take_dst ==> i < dst.len(),
        take_src ==> j < src.len(),
        take_dst && take_src ==> dst[i].index == src[j].index && e.index == dst[i].index && e.value
            == dst[i].value.add_spec(src[j].value.mul_spec(k)),
        take_dst && !take_src ==> (j == src.len() || dst[i].index < src[j].index) && e == dst[i],
        !take_dst && take_src ==> (i == dst.len() || src[j].index < dst[i].index) && e.index
            == src[j].index && e.value == src[j].value.mul_spec(k),
    ensures
        merged_so_far(
            dst,
            src,
            k,
            out.push(e),
            if take_dst {
                i + 1
            } else {
                i
            },
            if take_src {
                j + 1
            } else {
                j
            },
        ),
{
    let after = out.push(e);
    let i2: int = if take_dst {
        i + 1
    } else {
        i
    };
    let j2: int = if take_src {
        j + 1
    } else {
        j
    };
    assert forall|c: int| #[trigger]
        find(after, c) == MatrixView::<T>::merged(
            find(dst.subrange(0, i2), c),
            find(src.subrange(0, j2), c),
            k,
        ) by {
        lemma_find_push(out, e, c);
        if take_dst {
            lemma_find_prefix(dst, i, c);
        }
        if take_src {
            lemma_find_prefix(src, j, c);
        }
        if c == e.index {
            if !take_src {
                lemma_find_none(src.subrange(0, j), c);
            }
            if !take_dst {
                lemma_find_none(dst.subrange(0, i), c);
            }
        }
    }
    assert forall|cols: int| within(dst, cols) && within(src, cols) implies within(after, cols) by {
        assert(within(out, cols));
        if take_dst {
            assert(dst[i].index < cols);
        } else {
            assert(src[j].index < cols);
        }
        assert forall|t: int| 0 <= t < after.len() implies #[trigger] after[t].index < cols by {
            if t < out.len() {
                assert(out[t].index < cols);
            }
        }
    }
    assert forall|a: int, b: int| 0 <= a < b < after.len() implies after[a].index
        < after[b].index by {
        if b < out.len() {
            assert(out[a].index < out[b].index);
        } else {
            assert(out[a].index < e.index);
        }
    }
    if i2 < dst.len() {
        assert forall|t: int| 0 <= t < after.len() implies (#[trigger] after[t]).index
            < dst[i2].index by {
            if t < out.len() {
                assert(out[t].index < dst[i].index);
            }
        }
        assert forall|t: int| 0 <= t < j2 implies (#[trigger] src[t]).index < dst[i2].index by {
            if t < j {
                assert(src[t].index < dst[i].index);
            }
        }
    }
    if j2 < src.len() {
        assert forall|t: int| 0 <= t < after.len() implies (#[trigger] after[t]).index
            < src[j2].index by {
            if t < out.len() {
                assert(out[t].index < src[j].index);
            }
        }
        assert forall|t: int| 0 <= t < i2 implies (#[trigger] dst[t]).index < src[j2].index by {
            if t < i {
                assert(dst[t].index < src[j].index);
            }
        }
    }
}

/// The sorted merge of two rows: the row that `dst` becomes when `k` times
/// `src` is added to it. Two cursors walk the rows in one pass: where the
/// columns agree the cell gets the sum and both cursors advance, else the
/// cell with the smaller column is taken, from `dst` as it is and from
/// `src` times `k`; what is left of either row once the other is exhausted
/// is appended in the same way.
pub fn merge_rows<T: Group>(dst: &Vec<Item<T>>, src: &Vec<Item<T>>, k: T) -> (out: Vec<Item<T>>)
    requires
        ascending(dst@),
        ascending(src@),
    ensures
        ascending(out@),
        out@.len() <= dst@.len() + src@.len(),
        forall|c: int| #[trigger]
            find(out@, c) == MatrixView::<T>::merged(find(dst@, c), find(src@, c), k),
        forall|cols: int| within(dst@, cols) && within(src@, cols) ==> within(out@, cols),
{
    let mut tmp: Vec<Item<T>> = Vec::new();
    let mut i: usize = 0;
    let mut j: usize = 0;
    proof {
        assert(dst@.subrange(0, 0) =~= Seq::<Item<T>>::empty());
        assert(src@.subrange(0, 0) =~= Seq::<Item<T>>::empty());
    }
    while i < dst.len() && j < src.len()
        invariant
            ascending(dst@),
            ascending(src@),
            merged_so_far(dst@, src@, k, tmp@, i as int, j as int),
        decreases dst@.len() - i + src@.len() - j,
    {
        let col_i = dst[i].index;
        let col_j = src[j].index;
        if col_i == col_j {
            let e = dst[i].add(src[j].mul(k));
            proof {
                lemma_merge_step(dst@, src@, k, tmp@, i as int, j as int, e, true, true);
            }
            tmp.push(e);
            i += 1;
            j += 1;
        } else if col_i < col_j {
            proof {
                lemma_merge_step(dst@, src@, k, tmp@, i as int, j as int, dst@[i as int], true, false);
            }
            tmp.push(dst[i]);
            i += 1;
        } else {
            let e = src[j].mul(k);
            proof {
                lemma_merge_step(dst@, src@, k, tmp@, i as int, j as int, e, false, true);
            }
            tmp.push(e);
            j += 1;
        }
    }
    while i < dst.len()
        invariant
            ascending(dst@),
            ascending(src@),
            i >= dst@.len() || j >= src@.len(),
            merged_so_far(dst@, src@, k, tmp@, i as int, j as int),
        decreases dst@.len() - i,
    {
        proof {
            lemma_merge_step(dst@, src@, k, tmp@, i as int, j as int, dst@[i as int], true, false);
        }
        tmp.push(dst[i]);
        i += 1;
    }
    while j < src.len()
        invariant
            ascending(dst@),
            ascending(src@),
            i >= dst@.len(),
            merged_so_far(dst@, src@, k, tmp@, i as int, j as int),
        decreases src@.len() - j,
    {
        let e = src[j].mul(k);
        proof {
            lemma_merge_step(dst@, src@, k, tmp@, i as int, j as int, e, false, true);
        }
        tmp.push(e);
        j += 1;
    }
    proof {
        assert(dst@.subrange(0, i as int) =~= dst@);
        assert(src@.subrange(0, j as int) =~= src@);
    }
    tmp
}

/// Two ascending rows that hold the same cells for column `c` answer alike.
pub proof fn lemma_find_agree<T>(a: Seq<Item<T>>, b: Seq<Item<T>>, c: int)
    requires
        ascending(a),
        ascending(b),
        forall|i: int|
            0 <= i < a.len() && (#[trigger] a[i]).index == c ==> exists|j: int|
                0 <= j < b.len() && #[trigger] b[j] == a[i],
        forall|j: int|
            0 <= j < b.len() && (#[trigger] b[j]).index == c ==> exists|i: int|
                0 <= i < a.len() && #[trigger] a[i] == b[j],
    ensures
        find(a, c) == find(b, c),
{
    if find(a, c).is_some() {
        let i = lemma_find_witness(a, c);
        let j = choose|j: int| 0 <= j < b.len() && #[trigger] b[j] == a[i];
        lemma_find_some(b, j);
    } else if find(b, c).is_some() {
        let j = lemma_find_witness(b, c);
        let i = choose|i: int| 0 <= i < a.len() && #[trigger] a[i] == b[j];
        lemma_find_some(a, i);
    }
}

/// Overwriting the value of the cell at place `p` changes what is found
/// for its column, and nothing else.
pub proof fn lemma_find_update<T>(s: Seq<Item<T>>, p: int, v: T, c: int)
    requires
        ascending(s),
        0 <= p < s.len(),
    ensures
        ascending(s.update(p, Item { index: s[p].index, value: v })),
        find(s.update(p, Item { index: s[p].index, value: v }), c) == (if c == s[p].index {
            Some(v)
        } else {
            find(s, c)
        }),
{
    let e = Item { index: s[p].index, value: v };
    let s2 = s.update(p, e);
    assert forall|i: int, j: int| 0 <= i < j < s2.len() implies s2[i].index < s2[j].index by {
        assert(s[i].index < s[j].index);
    }
    if c == s[p].index {
        lemma_find_some(s2, p);
    } else {
        assert forall|i: int| 0 <= i < s.len() && (#[trigger] s[i]).index == c implies exists|
            j: int,
        |
            0 <= j < s2.len() && #[trigger] s2[j] == s[i] by {
            assert(s2[i] == s[i]);
        }
        assert forall|j: int| 0 <= j < s2.len() && (#[trigger] s2[j]).index == c implies exists|
            i: int,
        |
            0 <= i < s.len() && #[trigger] s[i] == s2[j] by {
            assert(s[j] == s2[j]);
        }
        lemma_find_agree(s, s2, c);
    }
}

/// Inserting a cell at the place that its column asks for keeps the row
/// ascending, and changes what is found for that column only.
pub proof fn lemma_find_insert<T>(s: Seq<Item<T>>, p: int, e: Item<T>, c: int)
    requires
        ascending(s),
        0 <= p <= s.len(),
        forall|t: int| 0 <= t < p ==> (#[trigger] s[t]).index < e.index,
        forall|t: int| p <= t < s.len() ==> (#[trigger] s[t]).index > e.index,
    ensures
        ascending(s.insert(p, e)),
        find(s.insert(p, e), c) == (if c == e.index {
            Some(e.value)
        } else {
            find(s, c)
        }),
{
    let s2 = s.insert(p, e);
    assert forall|i: int, j: int| 0 <= i < j < s2.len() implies s2[i].index < s2[j].index by {
        if j < p {
            assert(s[i].index < s[j].index);
        } else if j == p {
            assert(s[i].index < e.index);
        } else if i < p {
            assert(s[i].index < s[j - 1].index);
        } else if i == p {
            assert(s[j - 1].index > e.index);
        } else {
            assert(s[i - 1].index < s[j - 1].index);
        }
    }
    if c == e.index {
        assert(s2[p] == e);
        lemma_find_some(s2, p);
    } else {
        assert forall|i: int| 0 <= i < s.len() && (#[trigger] s[i]).index == c implies exists|
            j: int,
        |
            0 <= j < s2.len() && #[trigger] s2[j] == s[i] by {
            if i < p {
                assert(s2[i] == s[i]);
            } else {
                assert(s2[i + 1] == s[i]);
            }
        }
        assert forall|j: int| 0 <= j < s2.len() && (#[trigger] s2[j]).index == c implies exists|
            i: int,
        |
            0 <= i < s.len() && #[trigger] s[i] == s2[j] by {
            if j < p {
                assert(s[j] == s2[j]);
            } else {
                assert(s[j - 1] == s2[j]);
            }
        }
        lemma_find_agree(s, s2, c);
    }
}

/// Where `b` holds the cells of `a` with every value multiplied by `k`,
/// what is found in `b` is `k` times what is found in `a`.
pub proof fn lemma_find_scaled<T: Group>(a: Seq<Item<T>>, b: Seq<Item<T>>, k: T, c: int)
    requires
        a.len() == b.len(),
        forall|t: int|
            0 <= t < a.len() ==> (#[trigger] b[t]).index == a[t].index && b[t].value
                == a[t].value.mul_spec(k),
    ensures
        find(b, c) == (match find(a, c) {
            Some(v) => Some(v.mul_spec(k)),
            None => None,
        }),
    decreases a.len(),
{
    if a.len() > 0 {
        assert(b.last().index == a.last().index);
        lemma_find_scaled(a.drop_last(), b.drop_last(), k, c);
    }
}

/// A row: its own row index, and its explicit cells by ascending column.
#[derive(Debug)]
struct TheRow<T>(usize, Vec<Item<T>>);

impl<T> TheRow<T> {
    /// An empty row with the row index `row_index`.
    fn new(row_index: usize) -> (r: TheRow<T>)
        ensures
            r.0 == row_index,
            r.1@.len() == 0,
    {
        TheRow(row_index, Vec::new())
    }
}

/// A matrix that stores, row by row, the cells that were written.
#[derive(Debug)]
pub struct SparseMatrix<T> {
    row: usize,
    col: usize,
    container: Vec<TheRow<T>>,
}

/// A copy of the cells `src`.
fn copy_items<T: Group>(src: &Vec<Item<T>>) -> (out: Vec<Item<T>>)
    ensures
        out@ == src@,
{
    let mut out: Vec<Item<T>> = Vec::new();
    let mut t: usize = 0;
    while t < src.len()
        invariant
            t <= src@.len(),
            out@ == src@.subrange(0, t as int),
        decreases src@.len() - t,
    {
        out.push(src[t]);
        t += 1;
    }
    assert(src@.subrange(0, t as int) =~= src@);
    out
}

/// The cells of `src` whose column lies in the window of `cols` columns
/// from `col_begin` on, each with its column counted from `col_begin`.
fn window_items<T: Group>(src: &Vec<Item<T>>, col_begin: usize, cols: usize) -> (out: Vec<
    Item<T>,
>)
    requires
        ascending(src@),
        col_begin + cols <= usize::MAX,
    ensures
        ascending(out@),
        within(out@, cols as int),
        forall|c: int| 0 <= c < cols ==> #[trigger] find(out@, c) == find(src@, c + col_begin),
{
    let mut out: Vec<Item<T>> = Vec::new();
    let mut t: usize = 0;
    while t < src.len()
        invariant
            ascending(src@),
            col_begin + cols <= usize::MAX,
            t <= src@.len(),
            ascending(out@),
            within(out@, cols as int),
            t < src@.len() ==> forall|u: int|
                0 <= u < out@.len() ==> (#[trigger] out@[u]).index + col_begin < src@[t as int].index,
            forall|c: int|
                0 <= c < cols ==> #[trigger] find(out@, c) == find(
                    src@.subrange(0, t as int),
                    c + col_begin,
                ),
        decreases src@.len() - t,
    {
        let ghost before = out@;
        let e = src[t];
        if e.index >= col_begin && e.index < col_begin + cols {
            let shifted = Item::new(e.index - col_begin, e.value);
            out.push(shifted);
            proof {
                assert forall|c: int| 0 <= c < cols implies #[trigger] find(out@, c) == find(
                    src@.subrange(0, t + 1),
                    c + col_begin,
                ) by {
                    lemma_find_push(before, shifted, c);
                    lemma_find_prefix(src@, t as int, c + col_begin);
                    assert(find(before, c) == find(src@.subrange(0, t as int), c + col_begin));
                }
                assert forall|u: int| 0 <= u < out@.len() implies #[trigger] out@[u].index
                    < cols by {
                    if u < before.len() {
                        assert(before[u].index < cols);
                    }
                }
            }
        } else {
            proof {
                assert forall|c: int| 0 <= c < cols implies #[trigger] find(out@, c) == find(
                    src@.subrange(0, t + 1),
                    c + col_begin,
                ) by {
                    lemma_find_prefix(src@, t as int, c + col_begin);
                    assert(find(before, c) == find(src@.subrange(0, t as int), c + col_begin));
                }
            }
        }
        t += 1;
    }
    assert(src@.subrange(0, t as int) =~= src@);
    out
}

impl<T: Group> SparseMatrix<T> {
    /// The number of rows.
    pub closed spec fn spec_rows(&self) -> nat {
        self.row as nat
    }

    /// The number of columns.
    pub closed spec fn spec_cols(&self) -> nat {
        self.col as nat
    }

    /// The explicit cells of row `r`, by ascending column.
    pub closed spec fn row_items(&self, r: int) -> Seq<Item<T>> {
        self.container@[r].1@
    }

    /// There is one row record for each row; each carries its own row index,
    /// and its cells ascend by column and stay inside the columns.
    pub closed spec fn inv(&self) -> bool {
        &&& self.container@.len() == self.row
        &&& forall|r: int|
            0 <= r < self.row ==> {
                &&& (#[trigger] self.container@[r]).0 == r
                &&& ascending(self.container@[r].1@)
                &&& within(self.container@[r].1@, self.col as int)
            }
    }

    /// In a well-formed matrix each row ascends, stays inside the columns,
    /// and carries its own row index.
    pub proof fn lemma_rows(&self, r: int)
        requires
            self.inv(),
            0 <= r < self.spec_rows(),
        ensures
            ascending(self.row_items(r)),
            within(self.row_items(r), self.spec_cols() as int),
    {
        assert(self.container@[r].0 == r);
    }
}

impl<T: Group> Clone for SparseMatrix<T> {
    fn clone(&self) -> (res: Self)
        ensures
            self.wf() ==> res.wf() && res@ == self@,
    {
        let mut container: Vec<TheRow<T>> = Vec::new();
        let mut r: usize = 0;
        while r < self.container.len()
            invariant
                r <= self.container@.len(),
                container@.len() == r,
                forall|t: int|
                    0 <= t < r ==> (#[trigger] container@[t]).0 == self.container@[t].0
                        && container@[t].1@ == self.container@[t].1@,
            decreases self.container@.len() - r,
        {
            let items = copy_items(&self.container[r].1);
            container.push(TheRow(self.container[r].0, items));
            r += 1;
        }
        let res = SparseMatrix { row: self.row, col: self.col, container };
        proof {
            if self.inv() {
                assert forall|t: int| 0 <= t < res.row implies {
                    &&& (#[trigger] res.container@[t]).0 == t
                    &&& ascending(res.container@[t].1@)
                    &&& within(res.container@[t].1@, res.col as int)
                } by {
                    assert(self.container@[t].0 == t);
                }
                assert forall|k: (int, int)| 0 <= k.0 < self.row implies res.row_items(k.0)
                    == self.row_items(k.0) by {
                    assert(res.container@[k.0].1@ == self.container@[k.0].1@);
                }
                assert(res@.cells =~= self@.cells);
            }
        }
        res
    }
}

impl<T: Group> ConstMatrix<T> for SparseMatrix<T> {
    open spec fn wf(&self) -> bool {
        self.inv()
    }

    open spec fn view(&self) -> MatrixView<T> {
        MatrixView {
            rows: self.spec_rows(),
            cols: self.spec_cols(),
            cells: Map::new(
                |k: (int, int)| 0 <= k.0 < self.spec_rows() && find(self.row_items(k.0), k.1).is_some(),
                |k: (int, int)| find(self.row_items(k.0), k.1)->0,
            ),
        }
    }

    open spec fn shape_fits(rows: nat, cols: nat) -> bool {
        true
    }

    /// No cell of a new sparse matrix is explicit.
    open spec fn fresh(rows: nat, cols: nat) -> MatrixView<T> {
        MatrixView { rows: rows, cols: cols, cells: Map::empty() }
    }

    proof fn lemma_fresh(rows: nat, cols: nat) {
    }

    proof fn lemma_wf(&self) {
        assert forall|r: int, c: int| #[trigger] self@.cells.contains_key((r, c)) implies self@.in_range(
            r,
            c,
        ) by {
            let i = lemma_find_witness(self.row_items(r), c);
            self.lemma_rows(r);
        }
    }

    proof fn lemma_shape_fits(rows: nat, cols: nat, fewer_rows: nat, fewer_cols: nat) {
    }

    fn get_row(&self) -> (n: usize) {
        self.row
    }

    fn get_column(&self) -> (n: usize) {
        self.col
    }

    fn get(&self, row: usize, col: usize) -> (res: Result<Option<&T>, MatrixError>) {
        if row >= self.row {
            return Err(MatrixError::OutOfRange { index: row, extent: self.row });
        }
        if col >= self.col {
            return Err(MatrixError::OutOfRange { index: col, extent: self.col });
        }
        proof {
            self.lemma_rows(row as int);
        }
        let items = &self.container[row].1;
        let mut t: usize = 0;
        while t < items.len()
            invariant
                row < self.spec_rows(),
                col < self.spec_cols(),
                t <= items@.len(),
                items@ == self.row_items(row as int),
                ascending(items@),
                forall|u: int| 0 <= u < t ==> (#[trigger] items@[u]).index != col,
            decreases items@.len() - t,
        {
            if items[t].index == col {
                proof {
                    lemma_find_some(items@, t as int);
                }
                return Ok(Some(&items[t].value));
            }
            t += 1;
        }
        proof {
            lemma_find_none(items@, col as int);
        }
        Ok(None)
    }

    fn get_sub_matrix(&self, row_begin: usize, row: usize, col_begin: usize, col: usize) -> (res:
        Result<Self, MatrixError>) {
        if row > self.row || row_begin > self.row - row {
            return Err(
                MatrixError::OutOfRange {
                    index: if row_begin >= self.row {
                        row_begin
                    } else {
                        self.row
                    },
                    extent: self.row,
                },
            );
        }
        if col > self.col || col_begin > self.col - col {
            return Err(
                MatrixError::OutOfRange {
                    index: if col_begin >= self.col {
                        col_begin
                    } else {
                        self.col
                    },
                    extent: self.col,
                },
            );
        }
        let mut container: Vec<TheRow<T>> = Vec::new();
        let mut i: usize = 0;
        while i < row
            invariant
                self.inv(),
                i <= row,
                row_begin + row <= self.row,
                col_begin + col <= self.col,
                container@.len() == i,
                forall|r: int|
                    0 <= r < i ==> {
                        &&& (#[trigger] container@[r]).0 == r
                        &&& ascending(container@[r].1@)
                        &&& within(container@[r].1@, col as int)
                        &&& forall|c: int|
                            0 <= c < col ==> #[trigger] find(container@[r].1@, c) == find(
                                self.row_items(r + row_begin),
                                c + col_begin,
                            )
                    },
            decreases row - i,
        {
            proof {
                self.lemma_rows(i + row_begin);
            }
            let items = window_items(&self.container[i + row_begin].1, col_begin, col);
            container.push(TheRow(i, items));
            i += 1;
        }
        let m = SparseMatrix { row, col, container };
        proof {
            let w = self@.window(row_begin as int, row as nat, col_begin as int, col as nat);
            assert forall|k: (int, int)|
                #![trigger m@.cells.dom().contains(k)]
                #![trigger w.cells.dom().contains(k)]
                m@.cells.dom().contains(k) == w.cells.dom().contains(k) && (m@.cells.dom().contains(
                    k,
                ) ==> m@.cells[k] == w.cells[k]) by {
                if 0 <= k.0 < row {
                    assert(m.container@[k.0].0 == k.0);
                    if 0 <= k.1 < col {
                        assert(find(m.container@[k.0].1@, k.1) == find(
                            self.row_items(k.0 + row_begin),
                            k.1 + col_begin,
                        ));
                    } else {
                        lemma_find_none(m.row_items(k.0), k.1);
                    }
                }
            }
            assert(m@.cells =~= w.cells);
        }
        Ok(m)
    }
}

impl<T: Group> MatrixInit<T> for SparseMatrix<T> {
    fn new(row: usize, col: usize) -> (m: Self) {
        let mut container: Vec<TheRow<T>> = Vec::new();
        let mut r: usize = 0;
        while r < row
            invariant
                r <= row,
                container@.len() == r,
                forall|t: int|
                    0 <= t < r ==> (#[trigger] container@[t]).0 == t && container@[t].1@.len() == 0,
            decreases row - r,
        {
            container.push(TheRow::new(r));
            r += 1;
        }
        let m = SparseMatrix { row, col, container };
        proof {
            assert forall|k: (int, int)| !m@.cells.contains_key(k) by {
                if 0 <= k.0 < row {
                    assert(m.container@[k.0].0 == k.0);
                }
            }
            assert(m@.cells =~= Map::<(int, int), T>::empty());
            assert forall|t: int| 0 <= t < m.row implies {
                &&& (#[trigger] m.container@[t]).0 == t
                &&& ascending(m.container@[t].1@)
                &&& within(m.container@[t].1@, m.col as int)
            } by {
                assert(m.container@[t].1@.len() == 0);
            }
        }
        m
    }
}

/// A row into which `item` was put at place `p`, over the cell of its
/// column or between its neighbours, ascends, holds `item`'s value for its
/// column and what it held for every other column.
proof fn lemma_row_after_put<T>(before: Seq<Item<T>>, after: Seq<Item<T>>, p: int, item: Item<T>)
    requires
        ascending(before),
        0 <= p <= before.len(),
        forall|t: int| 0 <= t < p ==> (#[trigger] before[t]).index < item.index,
        forall|t: int| p <= t < before.len() ==> (#[trigger] before[t]).index >= item.index,
        after == (if p < before.len() && before[p].index == item.index {
            before.update(p, item)
        } else {
            before.insert(p, item)
        }),
    ensures
        ascending(after),
        forall|c: int| #[trigger]
            find(after, c) == (if c == item.index {
                Some(item.value)
            } else {
                find(before, c)
            }),
        forall|cols: int| within(before, cols) && item.index < cols ==> within(after, cols),
{
    let found = p < before.len() && before[p].index == item.index;
    if !found {
        assert forall|t: int| p <= t < before.len() implies (#[trigger] before[t]).index
            > item.index by {
            if t > p {
                assert(before[p].index < before[t].index);
            }
        }
    }
    assert forall|c: int| #[trigger]
        find(after, c) == (if c == item.index {
            Some(item.value)
        } else {
            find(before, c)
        }) by {
        if found {
            lemma_find_update(before, p, item.value, c);
        } else {
            lemma_find_insert(before, p, item, c);
        }
    }
    if found {
        lemma_find_update(before, p, item.value, 0);
    } else {
        lemma_find_insert(before, p, item, 0);
    }
    assert forall|cols: int| within(before, cols) && item.index < cols implies within(
        after,
        cols,
    ) by {
        assert forall|t: int| 0 <= t < after.len() implies (#[trigger] after[t]).index < cols by {
            if found {
                assert(before[t].index < cols);
            } else if t < p {
                assert(before[t].index < cols);
            } else if t > p {
                assert(before[t - 1].index < cols);
            }
        }
    }
}

/// The place in the ascending cells `items` where column `col` stands or
/// would have to be inserted: the number of cells with a smaller column.
fn locate<T: Group>(items: &Vec<Item<T>>, col: usize) -> (p: usize)
    requires
        ascending(items@),
    ensures
        p <= items@.len(),
        forall|t: int| 0 <= t < p ==> (#[trigger] items@[t]).index < col,
        forall|t: int| p <= t < items@.len() ==> (#[trigger] items@[t]).index >= col,
{
    let mut p: usize = 0;
    while p < items.len() && items[p].index < col
        invariant
            p <= items@.len(),
            forall|t: int| 0 <= t < p ==> (#[trigger] items@[t]).index < col,
        decreases items@.len() - p,
    {
        p += 1;
    }
    proof {
        if p < items@.len() {
            assert forall|t: int| p <= t < items@.len() implies (#[trigger] items@[t]).index
                >= col by {
                if t > p {
                    assert(items@[p as int].index < items@[t].index);
                }
            }
        }
    }
    p
}

impl<T: Group> SparseMatrix<T> {
    /// Puts `item` into row `row`: over the cell of its column where the
    /// row has one, else at the place that keeps the row ascending.
    fn put(&mut self, row: usize, p: usize, item: Item<T>)
        requires
            old(self).inv(),
            row < old(self).row,
            item.index < old(self).col,
            p <= old(self).row_items(row as int).len(),
            forall|t: int| 0 <= t < p ==> (#[trigger] old(self).row_items(row as int)[t]).index
                < item.index,
            forall|t: int|
                p <= t < old(self).row_items(row as int).len() ==> (#[trigger] old(self).row_items(row as int)[t]).index >= item.index,
        ensures
            final(self).inv(),
            final(self)@ == old(self)@.with_cell(row as int, item.index as int, item.value),
    {
        proof {
            self.lemma_rows(row as int);
        }
        let ghost before = self.container@[row as int].1@;
        let found = p < self.container[row].1.len() && self.container[row].1[p].index
            == item.index;
        if found {
            self.container[row].1[p].value = item.value;
        } else {
            self.container[row].1.insert(p, item);
        }
        proof {
            let after = self.container@[row as int].1@;
            assert(self.container@[row as int].0 == row);
            if found {
                assert(after =~= before.update(p as int, item));
            }
            lemma_row_after_put(before, after, p as int, item);
            assert(within(after, self.col as int));
            assert forall|r: int| 0 <= r < self.row implies {
                &&& (#[trigger] self.container@[r]).0 == r
                &&& ascending(self.container@[r].1@)
                &&& within(self.container@[r].1@, self.col as int)
            } by {
                if r != row {
                    assert(old(self).container@[r].0 == r);
                }
            }
            let w = old(self)@.with_cell(row as int, item.index as int, item.value);
            assert forall|k: (int, int)|
                #![trigger self@.cells.dom().contains(k)]
                #![trigger w.cells.dom().contains(k)]
                self@.cells.dom().contains(k) == w.cells.dom().contains(k) && (
                self@.cells.dom().contains(k) ==> self@.cells[k] == w.cells[k]) by {
                if k.0 == row {
                    assert(find(after, k.1) == (if k.1 == item.index {
                        Some(item.value)
                    } else {
                        find(before, k.1)
                    }));
                } else if 0 <= k.0 < self.row {
                    assert(self.container@[k.0] == old(self).container@[k.0]);
                }
            }
            assert(self@.cells =~= w.cells);
        }
    }
}

impl<T: Group> Matrix<T> for SparseMatrix<T> {
    proof fn lemma_clone(&self, other: &Self) {
        if *self != *other {
            assert(vstd::pervasive::strictly_cloned(*self, *other));
            assert(call_ensures(Clone::clone, (self,), *other));
        }
    }

    /// A cell that was implicit becomes explicit, whatever `value` is: the
    /// additive identity is stored like any other value.
    fn set(&mut self, row: usize, col: usize, value: T) -> (res: Result<(), MatrixError>) {
        if row >= self.row {
            return Err(MatrixError::OutOfRange { index: row, extent: self.row });
        }
        if col >= self.col {
            return Err(MatrixError::OutOfRange { index: col, extent: self.col });
        }
        proof {
            self.lemma_rows(row as int);
        }
        let p = locate(&self.container[row].1, col);
        self.put(row, p, Item::new(col, value));
        Ok(())
    }

    /// A sum that comes out as the additive identity stays stored.
    fn add(&mut self, row: usize, col: usize, value: T) -> (res: Result<(), MatrixError>) {
        if row >= self.row {
            return Err(MatrixError::OutOfRange { index: row, extent: self.row });
        }
        if col >= self.col {
            return Err(MatrixError::OutOfRange { index: col, extent: self.col });
        }
        proof {
            self.lemma_rows(row as int);
            T::lemma_operators();
        }
        let p = locate(&self.container[row].1, col);
        let item = if p < self.container[row].1.len() && self.container[row].1[p].index == col {
            proof {
                lemma_find_some(self.row_items(row as int), p as int);
            }
            Item::new(col, self.container[row].1[p].value + value)
        } else {
            proof {
                assert forall|t: int|
                    0 <= t < self.row_items(row as int).len() implies (#[trigger] self.row_items(
                    row as int,
                )[t]).index != col by {
                    if t > p {
                        assert(self.row_items(row as int)[p as int].index < self.row_items(
                            row as int,
                        )[t].index);
                    }
                }
                lemma_find_none(self.row_items(row as int), col as int);
            }
            Item::new(col, value)
        };
        self.put(row, p, item);
        Ok(())
    }

    /// The two rows change places whole; each then carries its new row
    /// index.
    fn element_row_transform_swap(&mut self, row_i: usize, row_j: usize) -> (res: Result<
        (),
        MatrixError,
    >) {
        if row_i >= self.row {
            return Err(MatrixError::OutOfRange { index: row_i, extent: self.row });
        }
        if row_j >= self.row {
            return Err(MatrixError::OutOfRange { index: row_j, extent: self.row });
        }
        let ghost w = old(self)@.swap_rows(row_i as int, row_j as int);
        if row_i == row_j {
            proof {
                assert(self@.cells =~= w.cells);
            }
            return Ok(());
        }
        assert(self.container@.len() == self.row);
        let mut carried: TheRow<T> = TheRow::new(row_i);
        std::mem::swap(&mut carried, &mut self.container[row_i]);
        assert(carried == old(self).container@[row_i as int]);
        assert(self.container@ == old(self).container@.update(row_i as int, self.container@[row_i as int]));
        let ghost s1 = self.container@;
        std::mem::swap(&mut carried, &mut self.container[row_j]);
        assert(self.container@ == s1.update(row_j as int, old(self).container@[row_i as int]));
        assert(carried == s1[row_j as int]);
        let ghost s2 = self.container@;
        std::mem::swap(&mut carried, &mut self.container[row_i]);
        assert(self.container@ == s2.update(row_i as int, s1[row_j as int]));
        let ghost s3 = self.container@;
        self.container[row_i].0 = row_i;
        self.container[row_j].0 = row_j;
        proof {
            assert(self.container@.len() == s3.len());
            assert(self.container@[row_i as int].1@ == s3[row_i as int].1@);
            assert(self.container@[row_j as int].1@ == s3[row_j as int].1@);
            assert forall|r: int| 0 <= r < self.row && r != row_i && r != row_j implies self.container@[r] == old(self).container@[r] by {
                assert(s3[r] == old(self).container@[r]);
            }
            assert(self.container@[row_i as int].1@ == old(self).container@[row_j as int].1@);
            assert(self.container@[row_j as int].1@ == old(self).container@[row_i as int].1@);
            assert forall|r: int| 0 <= r < self.row implies {
                &&& (#[trigger] self.container@[r]).0 == r
                &&& ascending(self.container@[r].1@)
                &&& within(self.container@[r].1@, self.col as int)
            } by {
                assert(old(self).container@[r].0 == r);
                assert(old(self).container@[row_i as int].0 == row_i);
                assert(old(self).container@[row_j as int].0 == row_j);
            }
            assert forall|k: (int, int)|
                #![trigger self@.cells.dom().contains(k)]
                #![trigger w.cells.dom().contains(k)]
                self@.cells.dom().contains(k) == w.cells.dom().contains(k) && (
                self@.cells.dom().contains(k) ==> self@.cells[k] == w.cells[k]) by {
                if 0 <= k.0 < self.row && k.0 != row_i && k.0 != row_j {
                    assert(self.container@[k.0] == old(self).container@[k.0]);
                }
            }
            assert(self@.cells =~= w.cells);
        }
        Ok(())
    }

    /// No cell appears or disappears.
    fn element_row_transform_multi(&mut self, row: usize, k: T) -> (res: Result<(), MatrixError>) {
        if row >= self.row {
            return Err(MatrixError::OutOfRange { index: row, extent: self.row });
        }
        proof {
            T::lemma_operators();
        }
        let n = self.container[row].1.len();
        let mut t: usize = 0;
        while t < n
            invariant
                row < self.row,
                self.row == old(self).row,
                self.col == old(self).col,
                self.container@.len() == old(self).container@.len(),
                old(self).inv(),
                forall|r: int|
                    0 <= r < self.row && r != row ==> #[trigger] self.container@[r] == old(self).container@[r],
                self.container@[row as int].0 == row,
                self.container@[row as int].1@.len() == n,
                old(self).container@[row as int].1@.len() == n,
                t <= n,
                forall|u: int|
                    0 <= u < n ==> (#[trigger] self.container@[row as int].1@[u]).index == old(self).container@[row as int].1@[u].index,
                forall|u: int|
                    0 <= u < t ==> (#[trigger] self.container@[row as int].1@[u]).value == old(self).container@[row as int].1@[u].value.mul_spec(k),
                forall|u: int|
                    t <= u < n ==> (#[trigger] self.container@[row as int].1@[u]).value == old(self).container@[row as int].1@[u].value,
                T::obeys_mul_spec(),
                forall|a: T, b: T| #[trigger] a.mul_req(b),
            decreases n - t,
        {
            let v = self.container[row].1[t].value * k;
            self.container[row].1[t].value = v;
            t += 1;
        }
        proof {
            let before = old(self).container@[row as int].1@;
            let after = self.container@[row as int].1@;
            assert(old(self).container@[row as int].0 == row);
            assert forall|i: int, j: int| 0 <= i < j < after.len() implies after[i].index
                < after[j].index by {
                assert(before[i].index < before[j].index);
            }
            assert forall|u: int| 0 <= u < after.len() implies (#[trigger] after[u]).index
                < self.col by {
                assert(before[u].index < self.col);
            }
            assert forall|r: int| 0 <= r < self.row implies {
                &&& (#[trigger] self.container@[r]).0 == r
                &&& ascending(self.container@[r].1@)
                &&& within(self.container@[r].1@, self.col as int)
            } by {
                if r != row {
                    assert(old(self).container@[r].0 == r);
                }
            }
            let w = old(self)@.scale_row(row as int, k);
            assert forall|key: (int, int)|
                #![trigger self@.cells.dom().contains(key)]
                #![trigger w.cells.dom().contains(key)]
                self@.cells.dom().contains(key) == w.cells.dom().contains(key) && (
                self@.cells.dom().contains(key) ==> self@.cells[key] == w.cells[key]) by {
                if key.0 == row {
                    lemma_find_scaled(before, after, k, key.1);
                } else if 0 <= key.0 < self.row {
                    assert(self.container@[key.0] == old(self).container@[key.0]);
                }
            }
            assert(self@.cells =~= w.cells);
        }
        Ok(())
    }

    /// The sorted merge of the two rows: see `merge_rows`. An empty row
    /// `row_j` leaves the matrix as it is; onto an empty row `row_i` the
    /// merge puts `k` times the cells of row `row_j`.
    fn element_row_transform_plus(&mut self, row_i: usize, row_j: usize, k: T) -> (res: Result<
        (),
        MatrixError,
    >) {
        if row_i >= self.row {
            return Err(MatrixError::OutOfRange { index: row_i, extent: self.row });
        }
        if row_j >= self.row {
            return Err(MatrixError::OutOfRange { index: row_j, extent: self.row });
        }
        proof {
            self.lemma_rows(row_i as int);
            self.lemma_rows(row_j as int);
        }
        let ghost w = old(self)@.add_scaled_row(row_i as int, row_j as int, k);
        if self.container[row_j].1.len() == 0 {
            proof {
                assert forall|key: (int, int)|
                    #![trigger self@.cells.dom().contains(key)]
                    #![trigger w.cells.dom().contains(key)]
                    self@.cells.dom().contains(key) == w.cells.dom().contains(key) && (
                    self@.cells.dom().contains(key) ==> self@.cells[key] == w.cells[key]) by {
                    assert(find(self.row_items(row_j as int), key.1).is_none());
                }
                assert(self@.cells =~= w.cells);
            }
            return Ok(());
        }
        let merged = merge_rows(&self.container[row_i].1, &self.container[row_j].1, k);
        self.container[row_i] = TheRow(row_i, merged);
        proof {
            assert forall|r: int| 0 <= r < self.row implies {
                &&& (#[trigger] self.container@[r]).0 == r
                &&& ascending(self.container@[r].1@)
                &&& within(self.container@[r].1@, self.col as int)
            } by {
                if r != row_i {
                    assert(old(self).container@[r].0 == r);
                }
            }
            assert forall|key: (int, int)|
                #![trigger self@.cells.dom().contains(key)]
                #![trigger w.cells.dom().contains(key)]
                self@.cells.dom().contains(key) == w.cells.dom().contains(key) && (
                self@.cells.dom().contains(key) ==> self@.cells[key] == w.cells[key]) by {
                if key.0 == row_i {
                    assert(find(merged@, key.1) == MatrixView::<T>::merged(
                        find(old(self).row_items(row_i as int), key.1),
                        find(old(self).row_items(row_j as int), key.1),
                        k,
                    ));
                } else if 0 <= key.0 < self.row {
                    assert(self.container@[key.0] == old(self).container@[key.0]);
                }
            }
            assert(self@.cells =~= w.cells);
        }
        Ok(())
    }
}

/// The cells `s` of row `row`, each as row, column and value.
pub open spec fn triples<T>(row: int, s: Seq<Item<T>>) -> Seq<(int, int, T)> {
    Seq::new(s.len(), |t: int| (row, s[t].index as int, s[t].value))
}

/// A cell handed out by a row cursor: its row, and the stored cell.
pub struct IterItem<'a, T>(usize, &'a Item<T>);

impl<'a, T> IterItem<'a, T> {
    /// Row, column and value of the cell.
    pub closed spec fn cell(&self) -> (int, int, T) {
        (self.0 as int, self.1.index as int, self.1.value)
    }

    pub fn get_row(&self) -> (r: usize)
        ensures
            r == self.cell().0,
    {
        self.0
    }

    pub fn get_col(&self) -> (c: usize)
        ensures
            c == self.cell().1,
    {
        self.1.index
    }

    pub fn get_v(&self) -> (v: &T)
        ensures
            *v == self.cell().2,
    {
        &self.1.value
    }
}

/// A cursor over one row of a sparse matrix: it hands out the explicit
/// cells of the row, by ascending column.
pub struct RowIterator<'a, T> {
    row: usize,
    real_index: usize,
    holder: &'a Vec<Item<T>>,
}

impl<'a, T> RowIterator<'a, T> {
    /// The cursor stands inside its row.
    #[verifier::type_invariant]
    spec fn inside(&self) -> bool {
        self.real_index <= self.holder@.len()
    }

    /// The cells yet to be handed out.
    pub closed spec fn remaining(&self) -> Seq<(int, int, T)> {
        triples(
            self.row as int,
            self.holder@.subrange(self.real_index as int, self.holder@.len() as int),
        )
    }

    /// A cursor over the cells `h` of row `row`, placed before the first.
    pub(crate) fn new(row: usize, h: &'a Vec<Item<T>>) -> (it: RowIterator<'a, T>)
        ensures
            it.remaining() == triples(row as int, h@),
    {
        let it = RowIterator { row: row, real_index: 0, holder: h };
        proof {
            assert(h@.subrange(0, h@.len() as int) =~= h@);
        }
        it
    }

    /// The next explicit cell of the row, or `None` once the row is
    /// exhausted.
    pub fn next(&mut self) -> (r: Option<IterItem<'a, T>>)
        ensures
            old(self).remaining().len() == 0 ==> r.is_none() && final(self).remaining() == old(self).remaining(),
            old(self).remaining().len() > 0 ==> r.is_some() && r.unwrap().cell() == old(self).remaining()[0]
                && final(self).remaining() == old(self).remaining().drop_first(),
    {
        proof {
            use_type_invariant(&*self);
        }
        if self.real_index == self.holder.len() {
            None
        } else {
            let v = IterItem(self.row, &self.holder[self.real_index]);
            self.real_index += 1;
            proof {
                assert(self.remaining() =~= old(self).remaining().drop_first());
            }
            Some(v)
        }
    }
}

impl<T: Group> SparseMatrix<T> {
    /// Walking the columns of a row finds the stored cells, one by one.
    proof fn lemma_row_cells(&self, r: int, s: Seq<Item<T>>, n: int)
        requires
            0 <= r < self.row,
            0 <= n,
            ascending(s),
            within(s, n),
            forall|c: int| 0 <= c < n ==> #[trigger] find(s, c) == find(self.row_items(r), c),
        ensures
            self@.row_cells_upto(r, n) == triples(r, s),
        decreases n,
    {
        if n == 0 {
            if s.len() > 0 {
                assert(s[0].index < 0);
            }
            assert(self@.row_cells_upto(r, n) =~= triples(r, s));
        } else if s.len() > 0 && s.last().index == n - 1 {
            let s1 = s.drop_last();
            lemma_find_some(s, s.len() - 1);
            assert(find(s, n - 1) == find(self.row_items(r), n - 1));
            assert forall|i: int| 0 <= i < s1.len() implies #[trigger] s1[i].index < n - 1 by {
                assert(s[i].index < s[s.len() - 1].index);
            }
            assert forall|c: int| 0 <= c < n - 1 implies #[trigger] find(s1, c) == find(
                self.row_items(r),
                c,
            ) by {
                assert(find(s, c) == find(self.row_items(r), c));
            }
            self.lemma_row_cells(r, s1, n - 1);
            assert(self@.row_cells_upto(r, n) =~= triples(r, s));
        } else {
            assert forall|i: int| 0 <= i < s.len() implies #[trigger] s[i].index < n - 1 by {
                if i < s.len() - 1 {
                    assert(s[i].index < s[s.len() - 1].index);
                }
                assert(s[s.len() - 1].index < n);
            }
            assert forall|i: int| 0 <= i < s.len() implies #[trigger] s[i].index != n - 1 by {
                assert(s[i].index < n - 1);
            }
            lemma_find_none(s, n - 1);
            assert(find(s, n - 1) == find(self.row_items(r), n - 1));
            self.lemma_row_cells(r, s, n - 1);
        }
    }
}

impl<'a, T: Group> MatrixIterator<'a, T, RowIterator<'a, T>> for SparseMatrix<T> {
    open spec fn remaining(it: &RowIterator<'a, T>) -> Seq<(int, int, T)> {
        it.remaining()
    }

    /// The cursor hands out as many cells as the row stores.
    fn get_iterator<'b: 'a>(&'b self, row: usize) -> (res: Result<RowIterator<'a, T>, MatrixError>) {
        if row >= self.row {
            return Err(MatrixError::OutOfRange { index: row, extent: self.row });
        }
        proof {
            self.lemma_rows(row as int);
            self.lemma_row_cells(row as int, self.row_items(row as int), self.col as int);
        }
        Ok(RowIterator::new(row, &self.container[row].1))
    }
}

} // verus!
