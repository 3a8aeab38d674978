//! Tensor metadata: the logical dtype tag, shapes with row-major strides, the
//! 2-D projection the op layer works on, and the broadcasting rule.
use crate::text::{push_decimal, push_str};
use vstd::prelude::*;

verus! {

/// The logical element type of a tensor (host storage is f64, device f32).
#[derive(Clone, Copy, Debug, PartialEq, Eq, Hash, Structural)]
pub enum DType {
    F32,
    F64,
    F16,
    BF16,
    I32,
}

impl DType {
    pub open spec fn spec_name(self) -> Seq<char> {
        match self {
            DType::F32 => "f32"@,
            DType::F64 => "f64"@,
            DType::F16 => "f16"@,
            DType::BF16 => "bf16"@,
            DType::I32 => "i32"@,
        }
    }

    pub open spec fn spec_size(self) -> usize {
        match self {
            DType::F32 | DType::I32 => 4,
            DType::F64 => 8,
            DType::F16 | DType::BF16 => 2,
        }
    }

    pub fn name(&self) -> (res: &'static str)
        ensures
            res@ == self.spec_name(),
    {
        match self {
            DType::F32 => "f32",
            DType::F64 => "f64",
            DType::F16 => "f16",
            DType::BF16 => "bf16",
            DType::I32 => "i32",
        }
    }

    /// Bytes per element.
    pub fn size(&self) -> (res: usize)
        ensures
            res == self.spec_size(),
    {
        match self {
            DType::F32 | DType::I32 => 4,
            DType::F64 => 8,
            DType::F16 | DType::BF16 => 2,
        }
    }
}

/// The product of a list of dimensions (1 for the empty list).
pub open spec fn product(ds: Seq<usize>) -> int
    decreases ds.len(),
{
    if ds.len() == 0 {
        1
    } else {
        product(ds.drop_last()) * ds.last()
    }
}

/// Multiplying the dimensions left to right never leaves `usize`.
pub open spec fn prefix_products_fit(ds: Seq<usize>) -> bool {
    forall|k: int| 0 <= k <= ds.len() ==> #[trigger] product(ds.subrange(0, k)) <= usize::MAX
}

/// Every product of a tail of the dimensions fits `usize`.
pub open spec fn suffix_products_fit(ds: Seq<usize>) -> bool {
    forall|k: int| 0 <= k <= ds.len() ==> #[trigger] product(ds.subrange(k, ds.len() as int))
        <= usize::MAX
}

proof fn lemma_product_nonneg(ds: Seq<usize>)
    ensures
        product(ds) >= 0,
    decreases ds.len(),
{
    if ds.len() > 0 {
        lemma_product_nonneg(ds.drop_last());
        vstd::arithmetic::mul::lemma_mul_nonnegative(product(ds.drop_last()), ds.last() as int);
    }
}

/// A product of dimensions can also be taken from the front.
proof fn lemma_product_front(ds: Seq<usize>)
    requires
        ds.len() > 0,
    ensures
        product(ds) == ds[0] * product(ds.drop_first()),
    decreases ds.len(),
{
    if ds.len() == 1 {
        assert(ds.drop_last() =~= Seq::<usize>::empty());
        assert(ds.drop_first() =~= Seq::<usize>::empty());
    } else {
        let init = ds.drop_last();
        lemma_product_front(init);
        assert(init.drop_first() =~= ds.drop_first().drop_last());
        assert(ds.drop_first().last() == ds.last());
        vstd::arithmetic::mul::lemma_mul_is_associative(
            ds[0] as int,
            product(init.drop_first()),
            ds.last() as int,
        );
    }
}

/// A shape (dims) with row-major contiguous strides.
#[derive(Clone, Debug, PartialEq, Eq)]
pub struct Shape {
    pub dims: Vec<usize>,
}

impl Shape {
    pub fn new(dims: Vec<usize>) -> (res: Self)
        ensures
            res.dims@ == dims@,
    {
        Shape { dims }
    }

    pub fn dims(&self) -> (res: &[usize])
        ensures
            res@ == self.dims@,
    {
        self.dims.as_slice()
    }

    pub fn rank(&self) -> (res: usize)
        ensures
            res == self.dims@.len(),
    {
        self.dims.len()
    }

    /// The number of elements: the product of the dims.
    pub fn numel(&self) -> (res: usize)
        requires
            prefix_products_fit(self.dims@),
        ensures
            res == product(self.dims@),
    {
        dims_product(self.dims.as_slice())
    }

    pub fn dim(&self, i: usize) -> (res: usize)
        requires
            i < self.dims@.len(),
        ensures
            res == self.dims@[i as int],
    {
        self.dims[i]
    }

    /// Row-major contiguous strides: the stride of a dim is the product of
    /// the dims after it, so the last stride is 1.
    pub fn strides(&self) -> (res: Vec<usize>)
        requires
            suffix_products_fit(self.dims@),
        ensures
            res@.len() == self.dims@.len(),
            forall|i: int|
                0 <= i < res@.len() ==> res@[i] == product(
                    self.dims@.subrange(i + 1, self.dims@.len() as int),
                ),
    {
        let n = self.dims.len();
        let mut s: Vec<usize> = vec![1; n];
        if n == 0 {
            return s;
        }
        let ghost d = self.dims@;
        let mut i = n - 1;
        assert(d.subrange(n as int, n as int) =~= Seq::<usize>::empty());
        // Fill s[i] for i = n-2 down to 0.
        while i > 0
            invariant
                d == self.dims@,
                n == d.len(),
                0 <= i < n,
                s@.len() == n,
                suffix_products_fit(d),
                forall|k: int| i <= k < n ==> s@[k] == product(d.subrange(k + 1, n as int)),
                forall|k: int| 0 <= k < i ==> s@[k] == 1,
            decreases i,
        {
            let k = i - 1;
            proof {
                let tail = d.subrange(k + 1, n as int);
                lemma_product_front(tail);
                assert(tail.drop_first() =~= d.subrange(k + 2, n as int));
                assert(product(tail) <= usize::MAX);
                vstd::arithmetic::mul::lemma_mul_is_commutative(
                    d[k + 1] as int,
                    product(d.subrange(k + 2, n as int)),
                );
            }
            let v = s[i] * self.dims[i];
            s.set(k, v);
            i = k;
        }
        s
    }
}

/// The product of `dims`, multiplied left to right.
pub fn dims_product(dims: &[usize]) -> (res: usize)
    requires
        prefix_products_fit(dims@),
    ensures
        res == product(dims@),
{
    let mut acc: usize = 1;
    let mut i: usize = 0;
    assert(dims@.subrange(0, 0) =~= Seq::<usize>::empty());
    while i < dims.len()
        invariant
            0 <= i <= dims@.len(),
            prefix_products_fit(dims@),
            acc == product(dims@.subrange(0, i as int)),
        decreases dims@.len() - i,
    {
        proof {
            let next = dims@.subrange(0, i + 1);
            assert(next.drop_last() =~= dims@.subrange(0, i as int));
            assert(product(next) <= usize::MAX);
        }
        acc = acc * dims[i];
        i = i + 1;
    }
    assert(dims@.subrange(0, dims@.len() as int) =~= dims@);
    acc
}

/// The 2-D projection of a shape used by the op layer: rows are the first
/// dim and columns whatever the rest holds (`numel / rows`); a rank-0 shape
/// projects to `0 x 0`.
pub open spec fn spec_grid_2d(dims: Seq<usize>) -> (usize, usize) {
    if dims.len() == 0 {
        (0, 0)
    } else {
        (dims[0], (product(dims) / dims[0] as int) as usize)
    }
}

/// Rows and columns of the 2-D projection of `dims`. A leading dim of 0
/// would divide by zero, so it is excluded.
pub fn grid_2d(dims: &[usize]) -> (res: (usize, usize))
    requires
        prefix_products_fit(dims@),
        dims@.len() > 0 ==> dims@[0] != 0,
    ensures
        res == spec_grid_2d(dims@),
{
    let numel = dims_product(dims);
    if dims.len() == 0 {
        return (0, 0);
    }
    let r = dims[0];
    proof {
        lemma_product_nonneg(dims@);
        vstd::arithmetic::div_mod::lemma_div_is_ordered_by_denominator(
            product(dims@),
            1,
            r as int,
        );
    }
    (r, numel / r)
}

/// Why two 2-D shapes cannot broadcast.
#[derive(Clone, Copy, Debug, PartialEq, Eq, Structural)]
pub enum Axis {
    Rows,
    Cols,
}

/// One dim of the broadcast result: equal dims, or the other one where a
/// side is 1.
pub open spec fn bcast_dim(a: usize, b: usize) -> Option<usize> {
    if a == b {
        Some(a)
    } else if a == 1 {
        Some(b)
    } else if b == 1 {
        Some(a)
    } else {
        None
    }
}

/// Decimal digits of a number, most significant first.
pub open spec fn decimal(n: nat) -> Seq<char>
    decreases n,
{
    if n < 10 {
        seq![(('0' as u32) + n) as char]
    } else {
        decimal(n / 10).push((('0' as u32) + n % 10) as char)
    }
}

/// The text of a broadcast error, naming the axis and the two dims that
/// disagree on it.
pub open spec fn bcast_text(
    r1: usize,
    c1: usize,
    r2: usize,
    c2: usize,
    what: Seq<char>,
    x: usize,
    y: usize,
) -> Seq<char> {
    "shape: cannot broadcast "@ + decimal(r1 as nat) + "×"@ + decimal(c1 as nat) + " and "@
        + decimal(r2 as nat) + "×"@ + decimal(c2 as nat) + " ("@ + what + " dims "@ + decimal(
        x as nat,
    ) + " vs "@ + decimal(y as nat) + " not equal or 1)"@
}

/// The message for an incompatible pair of shapes.
pub open spec fn bcast_message(r1: usize, c1: usize, r2: usize, c2: usize, axis: Axis) -> Seq<
    char,
> {
    match axis {
        Axis::Rows => bcast_text(r1, c1, r2, c2, "row"@, r1, r2),
        Axis::Cols => bcast_text(r1, c1, r2, c2, "col"@, c1, c2),
    }
}

/// The broadcast error message, written out digit by digit.
fn broadcast_error(
    r1: usize,
    c1: usize,
    r2: usize,
    c2: usize,
    what: &str,
    x: usize,
    y: usize,
) -> (res: String)
    ensures
        res@ == bcast_text(r1, c1, r2, c2, what@, x, y),
{
    let mut m = String::new();
    push_str(&mut m, "shape: cannot broadcast ");
    push_decimal(&mut m, r1);
    push_str(&mut m, "×");
    push_decimal(&mut m, c1);
    push_str(&mut m, " and ");
    push_decimal(&mut m, r2);
    push_str(&mut m, "×");
    push_decimal(&mut m, c2);
    push_str(&mut m, " (");
    push_str(&mut m, what);
    push_str(&mut m, " dims ");
    push_decimal(&mut m, x);
    push_str(&mut m, " vs ");
    push_decimal(&mut m, y);
    push_str(&mut m, " not equal or 1)");
    assert(m@ =~= bcast_text(r1, c1, r2, c2, what@, x, y));
    m
}

/// Right-aligned broadcasting of two 2-D shapes: a dim pair is compatible if
/// equal or one of them is 1. Incompatible shapes are an error, never a
/// silently wrapped result.
pub fn bcast_shape(r1: usize, c1: usize, r2: usize, c2: usize) -> (res: Result<
    (usize, usize),
    String,
>)
    ensures
        match (bcast_dim(r1, r2), bcast_dim(c1, c2)) {
            (Some(r), Some(c)) => res == Ok::<(usize, usize), String>((r, c)),
            (None, _) => res matches Err(m) && m@ == bcast_message(r1, c1, r2, c2, Axis::Rows),
            (Some(_), None) => res matches Err(m) && m@ == bcast_message(
                r1,
                c1,
                r2,
                c2,
                Axis::Cols,
            ),
        },
{
    let r = if r1 == r2 {
        r1
    } else if r1 == 1 {
        r2
    } else if r2 == 1 {
        r1
    } else {
        return Err(broadcast_error(r1, c1, r2, c2, "row", r1, r2));
    };
    let c = if c1 == c2 {
        c1
    } else if c1 == 1 {
        c2
    } else if c2 == 1 {
        c1
    } else {
        return Err(broadcast_error(r1, c1, r2, c2, "col", c1, c2));
    };
    Ok((r, c))
}

proof fn lemma_grid_index(r: int, c: int, i: int, j: int)
    requires
        0 <= i < r,
        0 <= j < c,
    ensures
        0 <= j * r + i < r * c,
        0 <= i * c + j < r * c,
{
    assert(0 <= j * r + i < r * c) by (nonlinear_arith)
        requires
            0 <= i < r,
            0 <= j < c,
    ;
    assert(0 <= i * c + j < r * c) by (nonlinear_arith)
        requires
            0 <= i < r,
            0 <= j < c,
    ;
}

proof fn lemma_grid_index_unique(r: int, i: int, j: int, i2: int, j2: int)
    requires
        0 <= i < r,
        0 <= i2 < r,
        0 <= j,
        0 <= j2,
        j * r + i == j2 * r + i2,
    ensures
        i == i2,
        j == j2,
{
    assert(j == j2) by (nonlinear_arith)
        requires
            0 <= i < r,
            0 <= i2 < r,
            0 <= j,
            0 <= j2,
            j * r + i == j2 * r + i2,
    ;
}

/// The row-major data of an `r x c` matrix, transposed to `c x r`: element
/// `(i, j)` moves from `i * c + j` to `j * r + i`. Entries past `r * c` (if
/// the data is longer) come out as `fill`.
pub fn transpose_data<V: Copy>(data: &[V], r: usize, c: usize, fill: V) -> (res: Vec<V>)
    requires
        r * c <= data@.len(),
    ensures
        res@.len() == data@.len(),
        forall|i: int, j: int|
            0 <= i < r && 0 <= j < c ==> #[trigger] res@[j * r + i] == data@[i * c + j],
        forall|k: int| r * c <= k < data@.len() ==> #[trigger] res@[k] == fill,
{
    let n = data.len();
    let mut out: Vec<V> = Vec::new();
    while out.len() < n
        invariant
            n == data@.len(),
            out@.len() <= n,
            forall|k: int| 0 <= k < out@.len() ==> #[trigger] out@[k] == fill,
        decreases n - out@.len(),
    {
        out.push(fill);
    }
    let mut i: usize = 0;
    while i < r
        invariant
            n == data@.len(),
            r * c <= n,
            out@.len() == n,
            0 <= i <= r,
            forall|i2: int, j2: int|
                0 <= i2 < i && 0 <= j2 < c ==> #[trigger] out@[j2 * r + i2] == data@[i2 * c + j2],
            forall|k: int| r * c <= k < n ==> #[trigger] out@[k] == fill,
        decreases r - i,
    {
        let mut j: usize = 0;
        while j < c
            invariant
                n == data@.len(),
                r * c <= n,
                out@.len() == n,
                0 <= i < r,
                0 <= j <= c,
                forall|i2: int, j2: int|
                    ((0 <= i2 < i && 0 <= j2 < c) || (i2 == i && 0 <= j2 < j)) ==> #[trigger] out@[j2
                        * r + i2] == data@[i2 * c + j2],
                forall|k: int| r * c <= k < n ==> #[trigger] out@[k] == fill,
            decreases c - j,
        {
            proof {
                lemma_grid_index(r as int, c as int, i as int, j as int);
            }
            let src = i * c + j;
            let dst = j * r + i;
            let v = data[src];
            let ghost before = out@;
            out.set(dst, v);
            proof {
                assert forall|i2: int, j2: int|
                    ((0 <= i2 < i && 0 <= j2 < c) || (i2 == i && 0 <= j2 < j + 1)) implies #[trigger] out@[j2
                    * r + i2] == data@[i2 * c + j2] by {
                    lemma_grid_index(r as int, c as int, i2, j2);
                    if i2 == i && j2 == j {
                    } else {
                        if j2 * r + i2 == dst as int {
                            lemma_grid_index_unique(r as int, i as int, j as int, i2, j2);
                        }
                        assert(out@[j2 * r + i2] == before[j2 * r + i2]);
                    }
                }
            }
            j = j + 1;
        }
        i = i + 1;
    }
    out
}

} // verus!
