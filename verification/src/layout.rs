//! Moving values between row-major buffers. Values are f32 given by their bits.

use vstd::prelude::*;

verus! {

proof fn place_in_rows(r: int, c: int, rows: int, width: int)
    requires
        0 <= r < rows,
        0 <= c < width,
    ensures
        0 <= r * width + c < rows * width,
        (r * width + c) / width == r,
        (r * width + c) % width == c,
{
    vstd::arithmetic::div_mod::lemma_fundamental_div_mod_converse(r * width + c, width, r, c);
    assert(r * width + c < rows * width && r * width >= 0) by (nonlinear_arith)
        requires
            0 <= r < rows,
            0 <= c < width,
    ;
}

/// Columns `from .. from + width` of `rows` rows of `stride` values.
pub open spec fn columns_of(
    buf: Seq<u32>,
    rows: int,
    stride: int,
    from: int,
    width: int,
    out: Seq<u32>,
) -> bool {
    &&& out.len() == rows * width
    &&& forall|r: int, c: int|
        0 <= r < rows && 0 <= c < width ==> #[trigger] out[r * width + c] == buf[r * stride + from
            + c]
}

/// Some columns of every row, as rows of their own.
pub fn columns(buf: &Vec<u32>, rows: usize, stride: usize, from: usize, width: usize) -> (out: Vec<
    u32,
>)
    requires
        buf@.len() == rows * stride,
        from + width <= stride,
    ensures
        columns_of(buf@, rows as int, stride as int, from as int, width as int, out@),
{
    let mut out: Vec<u32> = Vec::new();
    let total: usize = buf.len();
    assert(0 * width == 0) by (nonlinear_arith);
    for r in 0..rows
        invariant
            total == buf@.len(),
            buf@.len() == rows * stride,
            from + width <= stride,
            out@.len() == r * width,
            forall|q: int, c: int|
                0 <= q < r && 0 <= c < width ==> #[trigger] out@[q * width + c] == buf@[q * stride
                    + from + c],
    {
        for c in 0..width
            invariant
                r < rows,
                total == buf@.len(),
                buf@.len() == rows * stride,
                from + width <= stride,
                out@.len() == r * width + c,
                forall|q: int, d: int|
                    0 <= q < r && 0 <= d < width ==> #[trigger] out@[q * width + d] == buf@[q
                        * stride + from + d],
                forall|d: int|
                    0 <= d < c ==> #[trigger] out@[r * width + d] == buf@[r * stride + from + d],
        {
            let ghost before = out@;
            proof {
                place_in_rows(r as int, from + c, rows as int, stride as int);
                assert(r * stride >= 0) by (nonlinear_arith)
                    requires
                        r >= 0,
                        stride >= 0,
                ;
            }
            out.push(buf[r * stride + from + c]);
            proof {
                assert forall|q: int, d: int| 0 <= q < r && 0 <= d < width implies #[trigger] out@[q
                    * width + d] == buf@[q * stride + from + d] by {
                    place_in_rows(q, d, r as int, width as int);
                    assert(before[q * width + d] == buf@[q * stride + from + d]);
                }
            }
        }
        proof {
            assert((r + 1) * width == r * width + width) by (nonlinear_arith);
            assert forall|q: int, d: int| 0 <= q < r + 1 && 0 <= d < width implies #[trigger] out@[q
                * width + d] == buf@[q * stride + from + d] by {
                if q == r {
                    assert(out@[r * width + d] == buf@[r * stride + from + d]);
                }
            }
        }
    }
    out
}

/// Every value of a row lies in exactly one of three column ranges that follow one
/// another: splitting a row loses nothing.
pub proof fn a_split_row_is_the_row(
    buf: Seq<u32>,
    rows: int,
    w0: int,
    w1: int,
    w2: int,
    a: Seq<u32>,
    b: Seq<u32>,
    c: Seq<u32>,
    r: int,
)
    requires
        w0 >= 0,
        w1 >= 0,
        w2 >= 0,
        0 <= r < rows,
        buf.len() == rows * (w0 + w1 + w2),
        columns_of(buf, rows, w0 + w1 + w2, 0, w0, a),
        columns_of(buf, rows, w0 + w1 + w2, w0, w1, b),
        columns_of(buf, rows, w0 + w1 + w2, w0 + w1, w2, c),
    ensures
        ({
            let w = w0 + w1 + w2;
            buf.subrange(r * w, (r + 1) * w) == a.subrange(r * w0, (r + 1) * w0) + b.subrange(
                r * w1,
                (r + 1) * w1,
            ) + c.subrange(r * w2, (r + 1) * w2)
        }),
{
    let w = w0 + w1 + w2;
    assert((r + 1) * w == r * w + w && (r + 1) * w0 == r * w0 + w0 && (r + 1) * w1 == r * w1 + w1
        && (r + 1) * w2 == r * w2 + w2) by (nonlinear_arith);
    assert(r * w >= 0 && r * w0 >= 0 && r * w1 >= 0 && r * w2 >= 0) by (nonlinear_arith)
        requires
            r >= 0,
            w >= 0,
            w0 >= 0,
            w1 >= 0,
            w2 >= 0,
    ;
    assert(r * w + w <= rows * w && r * w0 + w0 <= rows * w0 && r * w1 + w1 <= rows * w1 && r * w2
        + w2 <= rows * w2) by (nonlinear_arith)
        requires
            r + 1 <= rows,
            w >= 0,
            w0 >= 0,
            w1 >= 0,
            w2 >= 0,
    ;
    let row = buf.subrange(r * w, (r + 1) * w);
    let x = a.subrange(r * w0, (r + 1) * w0);
    let y = b.subrange(r * w1, (r + 1) * w1);
    let z = c.subrange(r * w2, (r + 1) * w2);
    assert forall|k: int| 0 <= k < w implies row[k] == (x + y + z)[k] by {
        if k < w0 {
            assert(a[r * w0 + k] == buf[r * w + 0 + k]);
        } else if k < w0 + w1 {
            assert(b[r * w1 + (k - w0)] == buf[r * w + w0 + (k - w0)]);
        } else {
            assert(c[r * w2 + (k - w0 - w1)] == buf[r * w + (w0 + w1) + (k - w0 - w1)]);
        }
    }
    assert(row =~= x + y + z);
}

/// Writes `src`, rows of `width` values, into columns `from ..` of rows of
/// `stride`; everything else stays.
pub fn place_columns(
    dst: &mut Vec<u32>,
    src: &Vec<u32>,
    rows: usize,
    stride: usize,
    from: usize,
    width: usize,
)
    requires
        old(dst)@.len() == rows * stride,
        src@.len() == rows * width,
        from + width <= stride,
    ensures
        final(dst)@.len() == old(dst)@.len(),
        forall|r: int, c: int|
            0 <= r < rows && 0 <= c < stride ==> #[trigger] final(dst)@[r * stride + c]
                == if from <= c < from + width {
                src@[r * width + (c - from)]
            } else {
                old(dst)@[r * stride + c]
            },
        columns_of(final(dst)@, rows as int, stride as int, from as int, width as int, src@),
{
    let total: usize = dst.len();
    let wide: usize = src.len();
    for r in 0..rows
        invariant
            total == rows * stride,
            wide == rows * width,
            dst@.len() == total,
            src@.len() == wide,
            old(dst)@.len() == total,
            from + width <= stride,
            forall|q: int, c: int|
                0 <= q < rows && 0 <= c < stride ==> #[trigger] dst@[q * stride + c] == if q < r
                    && from <= c < from + width {
                    src@[q * width + (c - from)]
                } else {
                    old(dst)@[q * stride + c]
                },
    {
        for k in 0..width
            invariant
                r < rows,
                total == rows * stride,
                wide == rows * width,
                dst@.len() == total,
                src@.len() == wide,
                old(dst)@.len() == total,
                from + width <= stride,
                forall|q: int, c: int|
                    0 <= q < rows && 0 <= c < stride ==> #[trigger] dst@[q * stride + c] == if (q < r
                        && from <= c < from + width) || (q == r && from <= c < from + k) {
                        src@[q * width + (c - from)]
                    } else {
                        old(dst)@[q * stride + c]
                    },
        {
            let ghost before = dst@;
            proof {
                place_in_rows(r as int, from + k, rows as int, stride as int);
                place_in_rows(r as int, k as int, rows as int, width as int);
                assert(r * stride >= 0 && r * width >= 0) by (nonlinear_arith)
                    requires
                        r >= 0,
                        stride >= 0,
                        width >= 0,
                ;
            }
            let at: usize = r * stride + from + k;
            dst.set(at, src[r * width + k]);
            proof {
                assert forall|q: int, c: int| 0 <= q < rows && 0 <= c < stride implies #[trigger] dst@[q
                    * stride + c] == if (q < r && from <= c < from + width) || (q == r && from <= c
                    < from + k + 1) {
                    src@[q * width + (c - from)]
                } else {
                    old(dst)@[q * stride + c]
                } by {
                    place_in_rows(q, c, rows as int, stride as int);
                    let p = q * stride + c;
                    assert(before[p] == if (q < r && from <= c < from + width) || (q == r && from <= c
                        < from + k) {
                        src@[q * width + (c - from)]
                    } else {
                        old(dst)@[q * stride + c]
                    });
                    if p == at {
                        assert(q == r && c == from + k);
                    }
                }
            }
        }
    }
    proof {
        let out = dst@;
        assert forall|r: int, c: int| 0 <= r < rows && 0 <= c < width implies #[trigger] src@[r
            * width + c] == out[r * stride + from + c] by {
            assert(r * stride + (from + c) == r * stride + from + c);
            assert(out[r * stride + (from + c)] == src@[r * width + ((from + c) - from)]);
        }
    }
}

/// Each row `copies` times in a row.
pub fn repeat_rows(buf: &Vec<u32>, rows: usize, width: usize, copies: usize) -> (out: Vec<u32>)
    requires
        buf@.len() == rows * width,
    ensures
        out@.len() == rows * copies * width,
        forall|r: int, k: int, c: int|
            0 <= r < rows && 0 <= k < copies && 0 <= c < width ==> #[trigger] out@[(r * copies + k)
                * width + c] == buf@[r * width + c],
{
    let total: usize = buf.len();
    let mut out: Vec<u32> = Vec::new();
    assert(0 * copies == 0 && 0 * width == 0) by (nonlinear_arith);
    for r in 0..rows
        invariant
            total == buf@.len(),
            buf@.len() == rows * width,
            out@.len() == (r * copies) * width,
            forall|q: int, k: int, c: int|
                0 <= q < r && 0 <= k < copies && 0 <= c < width ==> #[trigger] out@[(q * copies + k)
                    * width + c] == buf@[q * width + c],
    {
        for k in 0..copies
            invariant
                r < rows,
                total == buf@.len(),
                buf@.len() == rows * width,
                out@.len() == (r * copies + k) * width,
                forall|q: int, j: int, c: int|
                    0 <= q && 0 <= j < copies && 0 <= c < width && (q < r || (q == r && j < k))
                        ==> #[trigger] out@[(q * copies + j) * width + c] == buf@[q * width + c],
        {
            let ghost row = r * copies + k;
            for c in 0..width
                invariant
                    r < rows,
                    k < copies,
                    row == r * copies + k,
                    total == buf@.len(),
                    buf@.len() == rows * width,
                    out@.len() == row * width + c,
                    forall|q: int, j: int, d: int|
                        0 <= q && 0 <= j < copies && 0 <= d < width && (q < r || (q == r && j < k))
                            ==> #[trigger] out@[(q * copies + j) * width + d] == buf@[q * width
                            + d],
                    forall|d: int|
                        0 <= d < c ==> #[trigger] out@[row * width + d] == buf@[r * width + d],
            {
                let ghost before = out@;
                proof {
                    place_in_rows(r as int, c as int, rows as int, width as int);
                    assert(r * width >= 0) by (nonlinear_arith)
                        requires
                            r >= 0,
                            width >= 0,
                    ;
                }
                out.push(buf[r * width + c]);
                proof {
                    assert forall|q: int, j: int, d: int|
                        0 <= q && 0 <= j < copies && 0 <= d < width && (q < r || (q == r && j
                            < k)) implies #[trigger] out@[(q * copies + j) * width + d] == buf@[q
                        * width + d] by {
                        earlier_row(q, j, r as int, k as int, copies as int);
                        place_in_rows(q * copies + j, d, row, width as int);
                        assert(before[(q * copies + j) * width + d] == buf@[q * width + d]);
                    }
                }
            }
            proof {
                assert((row + 1) * width == row * width + width) by (nonlinear_arith);
                assert forall|q: int, j: int, d: int|
                    0 <= q && 0 <= j < copies && 0 <= d < width && (q < r || (q == r && j < k
                        + 1)) implies #[trigger] out@[(q * copies + j) * width + d] == buf@[q
                    * width + d] by {
                    if q == r && j == k {
                        assert(out@[row * width + d] == buf@[r * width + d]);
                    }
                }
            }
        }
        proof {
            assert((r + 1) * copies == r * copies + copies) by (nonlinear_arith);
        }
    }
    out
}

proof fn earlier_row(q: int, j: int, r: int, k: int, copies: int)
    requires
        0 <= q,
        0 <= j < copies,
        0 <= k,
        q < r || (q == r && j < k),
    ensures
        0 <= q * copies + j < r * copies + k,
{
    assert(q * copies >= 0) by (nonlinear_arith)
        requires
            q >= 0,
            copies >= 0,
    ;
    if q < r {
        assert(q * copies + copies <= r * copies) by (nonlinear_arith)
            requires
                q + 1 <= r,
                copies > 0,
        ;
    }
}

/// Makes a buffer hold at least `n` values; new ones are zero, old ones stay. A
/// buffer never shrinks, so only its first `n` values are current.
pub fn fit_usize(v: &mut Vec<usize>, n: usize)
    ensures
        final(v)@.len() == if old(v)@.len() < n { n as nat } else { old(v)@.len() },
        forall|i: int| 0 <= i < old(v)@.len() ==> final(v)@[i] == old(v)@[i],
        forall|i: int| old(v)@.len() <= i < final(v)@.len() ==> final(v)@[i] == 0,
{
    let ghost before = v@;
    while v.len() < n
        invariant
            before.len() <= v@.len(),
            before.len() < n ==> v@.len() <= n,
            before.len() >= n ==> v@.len() == before.len(),
            forall|i: int| 0 <= i < before.len() ==> v@[i] == before[i],
            forall|i: int| before.len() <= i < v@.len() ==> v@[i] == 0,
        decreases n - v@.len(),
    {
        v.push(0);
    }
}

/// Rows that were repeated one by one: the value at any place is that of the row which
/// is `copies` times further up, in the same column.
pub proof fn every_copy_is_its_row(
    buf: Vec<u32>,
    rows: usize,
    width: usize,
    copies: usize,
    out: Vec<u32>,
    row: int,
    c: int,
)
    requires
        buf@.len() == rows * width,
        call_ensures(repeat_rows, (&buf, rows, width, copies), out),
        copies > 0,
        0 <= row < rows * copies,
        0 <= c < width,
    ensures
        out@.len() == (rows * copies) * width,
        out@[row * width + c] == buf@[(row / copies as int) * width + c],
{
    let n = copies as int;
    let r = row / n;
    let k = row % n;
    vstd::arithmetic::div_mod::lemma_fundamental_div_mod(row, n);
    vstd::arithmetic::div_mod::lemma_mod_bound(row, n);
    vstd::arithmetic::div_mod::lemma_div_pos_is_pos(row, n);
    assert(r < rows) by (nonlinear_arith)
        requires
            row == n * r + k,
            k >= 0,
            row < rows * n,
            n > 0,
    ;
    assert(n * r == r * n) by (nonlinear_arith);
    assert(out@[(r * copies + k) * width + c] == buf@[r * width + c]);
}

/// A column range holds, row by row, the values that stand there.
pub proof fn a_column_is_where_it_was(
    buf: Vec<u32>,
    rows: usize,
    stride: usize,
    from: usize,
    width: usize,
    out: Vec<u32>,
    r: int,
    c: int,
)
    requires
        buf@.len() == rows * stride,
        from + width <= stride,
        call_ensures(columns, (&buf, rows, stride, from, width), out),
        0 <= r < rows,
        from <= c < from + width,
    ensures
        out@.len() == rows * width,
        buf@[r * stride + c] == out@[r * width + (c - from)],
{
    assert(out@[r * width + (c - from)] == buf@[r * stride + from + (c - from)]);
}

/// What is placed is found in its columns, and everything beside it is as it was. A buffer
/// that is made to fit is long enough, and keeps what it held.
pub proof fn what_is_placed_is_found(
    dst: &mut Vec<u32>,
    src: Vec<u32>,
    rows: usize,
    stride: usize,
    from: usize,
    width: usize,
    v: &mut Vec<usize>,
    n: usize,
    r: int,
    c: int,
    i: int,
)
    requires
        old(dst)@.len() == rows * stride,
        src@.len() == rows * width,
        from + width <= stride,
        call_ensures(place_columns, (dst, &src, rows, stride, from, width), ()),
        call_ensures(fit_usize, (v, n), ()),
        0 <= r < rows,
        0 <= c < stride,
        0 <= i < final(v)@.len(),
    ensures
        c < from || c >= from + width ==> final(dst)@[r * stride + c] == old(dst)@[r * stride + c],
        from <= c < from + width ==> final(dst)@[r * stride + c] == src@[r * width + (c - from)],
        final(dst)@.len() == old(dst)@.len(),
        final(v)@.len() >= n && final(v)@.len() >= old(v)@.len(),
        final(v)@.len() == n || final(v)@.len() == old(v)@.len(),
        i < old(v)@.len() ==> final(v)@[i] == old(v)@[i],
        i >= old(v)@.len() ==> final(v)@[i] == 0,
{
    assert(final(dst)@[r * stride + c] == final(dst)@[r * stride + c]);
}

} // verus!
