use vstd::prelude::*;
use vstd::arithmetic::power2::is_pow2;
use vstd::arithmetic::mul::lemma_mul_inequality;

verus! {

/// Size and alignment of a component type, in bytes.
#[derive(Clone, Copy)]
pub struct Layout {
    size: usize,
    align: usize,
}

impl Layout {
    pub closed spec fn size_spec(&self) -> nat {
        self.size as nat
    }

    pub closed spec fn align_spec(&self) -> nat {
        self.align as nat
    }

    pub proof fn lemma_bounds(&self)
        ensures
            self.size_spec() <= usize::MAX,
            self.align_spec() <= usize::MAX,
    {
    }

    /// The alignment is a power of two.
    pub open spec fn valid(&self) -> bool {
        is_pow2(self.align_spec() as int)
    }

    /// A layout of the given size and alignment; `None` unless the alignment
    /// is a power of two.
    pub fn from_size_align(size: usize, align: usize) -> (r: Option<Layout>)
        ensures
            r is Some <==> is_pow2(align as int),
            r matches Some(l) ==> l.size_spec() == size && l.align_spec() == align,
    {
        if is_power_of_two(align) {
            Some(Layout { size, align })
        } else {
            None
        }
    }

    /// The layout of `T`.
    pub fn new<T>() -> (r: Layout)
        ensures
            r.size_spec() == vstd::layout::size_of::<T>(),
            r.align_spec() == vstd::layout::align_of::<T>(),
            r.valid(),
    {
        vstd::layout::layout_for_type_is_valid::<T>();
        Layout { size: core::mem::size_of::<T>(), align: core::mem::align_of::<T>() }
    }

    pub fn size(&self) -> (r: usize)
        ensures
            r == self.size_spec(),
    {
        self.size
    }

    pub fn align(&self) -> (r: usize)
        ensures
            r == self.align_spec(),
    {
        self.align
    }
}

/// Whether `a` is a power of two.
pub fn is_power_of_two(a: usize) -> (r: bool)
    ensures
        r == is_pow2(a as int),
{
    proof {
        reveal(is_pow2);
    }
    if a == 0 {
        return false;
    }
    let mut x: usize = a;
    while x % 2 == 0
        invariant
            x > 0,
            is_pow2(x as int) == is_pow2(a as int),
        decreases x,
    {
        proof {
            reveal(is_pow2);
            assert(x >= 2);
        }
        x = x / 2;
    }
    x == 1
}

/// `x` rounded up to the next multiple of `a`.
pub open spec fn round_up(x: int, a: int) -> int {
    if x % a == 0 {
        x
    } else {
        x + (a - x % a)
    }
}

/// Rounds `x` up to the next multiple of the power of two `alignment`.
pub fn align(x: usize, alignment: usize) -> (r: usize)
    requires
        is_pow2(alignment as int),
        x + alignment - 1 <= usize::MAX,
    ensures
        r == round_up(x as int, alignment as int),
        r % alignment == 0,
        x <= r < x + alignment,
{
    proof {
        reveal(is_pow2);
        lemma_round_up(x as int, alignment as int);
    }
    let rem: usize = x % alignment;
    if rem == 0 {
        x
    } else {
        x + (alignment - rem)
    }
}

pub proof fn lemma_round_up(x: int, a: int)
    requires
        x >= 0,
        a > 0,
    ensures
        x <= round_up(x, a) < x + a,
        round_up(x, a) % a == 0,
{
    if x % a != 0 {
        assert((x + (a - x % a)) % a == 0) by (nonlinear_arith)
            requires a > 0, x >= 0;
    }
}

/// A sequence of layouts that can be placed column after column.
pub open spec fn layouts_valid(ls: Seq<Layout>) -> bool {
    forall|i: int| 0 <= i < ls.len() ==> #[trigger] ls[i].valid()
}

/// Where the first `n` columns end, each of `cap` values, each column starting
/// at the first offset after the previous one that its alignment allows.
pub open spec fn columns_end(ls: Seq<Layout>, cap: int, n: int) -> int
    decreases n,
{
    if n <= 0 {
        0
    } else {
        round_up(columns_end(ls, cap, n - 1), ls[n - 1].align_spec() as int) + ls[n - 1].size_spec()
            * cap
    }
}

/// Byte offset of column `i` in storage for `cap` values per column.
pub open spec fn column_start(ls: Seq<Layout>, cap: int, i: int) -> int {
    round_up(columns_end(ls, cap, i), ls[i].align_spec() as int)
}

/// Byte offset of the value at row `j` of column `i`.
pub open spec fn cell_start(ls: Seq<Layout>, cap: int, i: int, j: int) -> int {
    column_start(ls, cap, i) + ls[i].size_spec() * j
}

pub proof fn lemma_align_positive(ls: Seq<Layout>, i: int)
    requires
        layouts_valid(ls),
        0 <= i < ls.len(),
    ensures
        ls[i].align_spec() > 0,
{
    reveal(is_pow2);
    assert(ls[i].valid());
}

/// Columns are laid out in increasing order, each after the previous one ends.
pub proof fn lemma_columns_ordered(ls: Seq<Layout>, cap: int, a: int, b: int)
    requires
        layouts_valid(ls),
        cap >= 0,
        0 <= a <= b <= ls.len(),
    ensures
        0 <= columns_end(ls, cap, a) <= columns_end(ls, cap, b),
        b < ls.len() ==> columns_end(ls, cap, b) <= column_start(ls, cap, b),
        b < ls.len() ==> column_start(ls, cap, b) % (ls[b].align_spec() as int) == 0,
    decreases b,
{
    if b > 0 {
        lemma_columns_ordered(ls, cap, if a < b { a } else { b - 1 }, b - 1);
        lemma_align_positive(ls, b - 1);
        lemma_round_up(columns_end(ls, cap, b - 1), ls[b - 1].align_spec() as int);
        assert(ls[b - 1].size_spec() * cap >= 0) by (nonlinear_arith)
            requires cap >= 0;
    }
    if b < ls.len() {
        lemma_align_positive(ls, b);
        lemma_round_up(columns_end(ls, cap, b), ls[b].align_spec() as int);
    }
}

/// The value at row `j < cap` of column `i` lies inside that column.
pub proof fn lemma_cell_in_column(ls: Seq<Layout>, cap: int, i: int, j: int)
    requires
        layouts_valid(ls),
        0 <= i < ls.len(),
        0 <= j < cap,
    ensures
        0 <= columns_end(ls, cap, i) <= cell_start(ls, cap, i, j),
        cell_start(ls, cap, i, j) + ls[i].size_spec() <= columns_end(ls, cap, i + 1),
        columns_end(ls, cap, i + 1) <= columns_end(ls, cap, ls.len() as int),
{
    lemma_columns_ordered(ls, cap, i, i);
    lemma_columns_ordered(ls, cap, 0, i);
    lemma_columns_ordered(ls, cap, i + 1, ls.len() as int);
    let s = ls[i].size_spec() as int;
    lemma_mul_inequality(j + 1, cap, s);
    assert(s * j >= 0) by (nonlinear_arith)
        requires s >= 0, j >= 0;
    assert(s * (j + 1) == s * j + s) by (nonlinear_arith);
    assert((j + 1) * s == s * (j + 1)) by (nonlinear_arith);
    assert(cap * s == s * cap) by (nonlinear_arith);
}

/// Two distinct values never share a byte.
pub proof fn lemma_cells_disjoint(ls: Seq<Layout>, cap: int, i: int, j: int, k: int, m: int)
    requires
        layouts_valid(ls),
        0 <= i < ls.len(),
        0 <= k < ls.len(),
        0 <= j < cap,
        0 <= m < cap,
        i != k || j != m,
    ensures
        cell_start(ls, cap, i, j) + ls[i].size_spec() <= cell_start(ls, cap, k, m)
            || cell_start(ls, cap, k, m) + ls[k].size_spec() <= cell_start(ls, cap, i, j),
{
    lemma_cell_in_column(ls, cap, i, j);
    lemma_cell_in_column(ls, cap, k, m);
    if i < k {
        lemma_columns_ordered(ls, cap, i + 1, k);
    } else if k < i {
        lemma_columns_ordered(ls, cap, k + 1, i);
    } else {
        let s = ls[i].size_spec() as int;
        if j < m {
            lemma_mul_inequality(j + 1, m, s);
            assert(s * (j + 1) == s * j + s) by (nonlinear_arith);
            assert((j + 1) * s == s * (j + 1) && m * s == s * m) by (nonlinear_arith);
        } else {
            lemma_mul_inequality(m + 1, j, s);
            assert(s * (m + 1) == s * m + s) by (nonlinear_arith);
            assert((m + 1) * s == s * (m + 1) && j * s == s * j) by (nonlinear_arith);
        }
    }
}

} // verus!
