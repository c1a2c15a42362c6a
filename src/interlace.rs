//! Interlaced partition of the pixels of an image: worker `offset` out of
//! `count` owns every pixel whose row-major linear index `p` satisfies
//! `p % count == offset`, and stores it at packed slot `p / count`.
use vstd::prelude::*;

verus! {

/// Row-major linear index of pixel `(x, y)` in an image `width` pixels wide.
pub open spec fn linear_index(x: int, y: int, width: int) -> int {
    x + y * width
}

/// Whether worker `offset` out of `count` owns linear index `p`.
pub open spec fn owns(p: int, count: int, offset: int) -> bool {
    p % count == offset
}

/// Number of linear indices below `n` that worker `offset` out of `count` owns.
pub open spec fn spec_subset_len(n: int, count: int, offset: int) -> int {
    if n % count > offset {
        n / count + 1
    } else {
        n / count
    }
}

/// A packed slot `i` is in range exactly when the linear index it stands
/// for, `i * count + offset`, lies inside the image.
pub proof fn lemma_subset_len_exact(n: int, count: int, offset: int, i: int)
    requires
        n >= 0,
        count > 0,
        0 <= offset < count,
        i >= 0,
    ensures
        i < spec_subset_len(n, count, offset) <==> i * count + offset < n,
        spec_subset_len(n, count, offset) >= 0,
{
    let q = n / count;
    let r = n % count;
    assert(n == q * count + r && 0 <= r < count && q >= 0) by {
        vstd::arithmetic::div_mod::lemma_fundamental_div_mod(n, count);
        vstd::arithmetic::div_mod::lemma_div_pos_is_pos(n, count);
    }
    assert(i < spec_subset_len(n, count, offset) <==> i * count + offset < n) by (nonlinear_arith)
        requires
            n == q * count + r,
            0 <= r < count,
            count > 0,
            0 <= offset < count,
            i >= 0,
            spec_subset_len(n, count, offset) == if r > offset { q + 1 } else { q },
    {
        if i <= q - 1 {
            assert(i * count <= (q - 1) * count);
        }
        if i >= q + 1 {
            assert(i * count >= (q + 1) * count);
        }
        if i == q {
            assert(i * count == q * count);
        }
    }
}

/// Packing and unpacking are inverse: linear index `p`, owned by worker
/// `p % count`, sits at slot `p / count`, and slot `i` of worker `offset`
/// stands for linear index `i * count + offset`.
pub proof fn lemma_pack_unpack(p: int, i: int, count: int, offset: int)
    requires
        count > 0,
        0 <= offset < count,
        p >= 0,
        i >= 0,
    ensures
        (p / count) * count + p % count == p,
        (i * count + offset) / count == i,
        owns(i * count + offset, count, offset),
        p / count >= 0,
{
    vstd::arithmetic::div_mod::lemma_fundamental_div_mod(p, count);
    vstd::arithmetic::mul::lemma_mul_is_commutative(count, p / count);
    vstd::arithmetic::div_mod::lemma_fundamental_div_mod_converse(i * count + offset, count, i, offset);
    vstd::arithmetic::div_mod::lemma_div_pos_is_pos(p, count);
}

/// Every linear index is owned by exactly one of the `count` workers, and
/// it falls inside that worker's packed range.
pub proof fn lemma_partition(n: int, count: int, p: int)
    requires
        n >= 0,
        count > 0,
        0 <= p < n,
    ensures
        0 <= p % count < count,
        owns(p, count, p % count),
        forall|o: int| 0 <= o < count && owns(p, count, o) ==> o == p % count,
        0 <= p / count < spec_subset_len(n, count, p % count),
{
    let o = p % count;
    lemma_pack_unpack(p, 0, count, 0);
    assert(0 <= o < count) by {
        vstd::arithmetic::div_mod::lemma_mod_bound(p, count);
    }
    lemma_subset_len_exact(n, count, o, p / count);
}

/// Number of pixels of a `width` by `height` image that worker
/// `interlace_offset` out of `interlace_count` renders.
pub fn subset_len(width: u16, height: u16, interlace_count: u16, interlace_offset: u16) -> (r: usize)
    requires
        interlace_count > 0,
    ensures
        r == spec_subset_len(width * height, interlace_count as int, interlace_offset as int),
{
    assert(width * height <= 0xffff * 0xffff) by (nonlinear_arith)
        requires
            width <= 0xffff,
            height <= 0xffff,
    ;
    let length: usize = width as usize * height as usize;
    let count: usize = interlace_count as usize;
    if length % count > interlace_offset as usize {
        length / count + 1
    } else {
        length / count
    }
}

/// Pixels of the rectangle whose corner is `(bx, by)`, `bw` wide and `bh`
/// tall, in row-major order.
pub open spec fn rect_pixels(bx: int, by: int, bw: int, bh: int) -> Seq<(u16, u16)> {
    Seq::new((bw * bh) as nat, |k: int| ((bx + k % bw) as u16, (by + k / bw) as u16))
}

/// The pixels of rectangle `bounds` (x, y, width, height) that worker
/// `offset` out of `count` renders, in the order it renders them: row-major,
/// skipping the pixels of other workers.
pub open spec fn worker_order(width: int, count: int, offset: int, bounds: (u16, u16, u16, u16)) -> Seq<(u16, u16)> {
    rect_pixels(bounds.0 as int, bounds.1 as int, bounds.2 as int, bounds.3 as int).filter(
        pixel_owned(width, count, offset),
    )
}

/// Whether worker `offset` out of `count` owns a pixel of an image `width` pixels wide.
pub open spec fn pixel_owned(width: int, count: int, offset: int) -> spec_fn((u16, u16)) -> bool {
    |q: (u16, u16)| owns(linear_index(q.0 as int, q.1 as int, width), count, offset)
}

/// The pixels of `bounds` (x, y, width, height), a rectangle inside a
/// `width` by `height` image, that worker `interlace_offset` out of
/// `interlace_count` renders, in row-major order.
pub fn worker_pixels(
    width: u16,
    height: u16,
    interlace_count: u16,
    interlace_offset: u16,
    bounds: (u16, u16, u16, u16),
) -> (r: Vec<(u16, u16)>)
    requires
        interlace_count > 0,
        bounds.0 + bounds.2 <= width,
        bounds.1 + bounds.3 <= height,
    ensures
        r@ == worker_order(width as int, interlace_count as int, interlace_offset as int, bounds),
{
    let ghost rect = rect_pixels(bounds.0 as int, bounds.1 as int, bounds.2 as int, bounds.3 as int);
    let ghost pred = pixel_owned(width as int, interlace_count as int, interlace_offset as int);
    let bx = bounds.0;
    let by = bounds.1;
    let bw = bounds.2;
    let bh = bounds.3;
    let count: usize = interlace_count as usize;
    let mut out: Vec<(u16, u16)> = Vec::new();
    let mut y: u16 = by;
    assert(rect.take(0) =~= Seq::<(u16, u16)>::empty());
    assert(Seq::<(u16, u16)>::empty().filter(pred) =~= Seq::<(u16, u16)>::empty()) by {
        reveal(Seq::filter);
    }
    while y < by + bh
        invariant
            by <= y <= by + bh,
            by + bh <= height,
            bx + bw <= width,
            count == interlace_count,
            count > 0,
            rect == rect_pixels(bx as int, by as int, bw as int, bh as int),
            pred == pixel_owned(width as int, interlace_count as int, interlace_offset as int),
            out@ == rect.take((y - by) * bw).filter(pred),
        decreases by + bh - y,
    {
        let mut x: u16 = bx;
        while x < bx + bw
            invariant
                by <= y < by + bh,
                bx <= x <= bx + bw,
                by + bh <= height,
                bx + bw <= width,
                count == interlace_count,
                count > 0,
                rect == rect_pixels(bx as int, by as int, bw as int, bh as int),
            pred == pixel_owned(width as int, interlace_count as int, interlace_offset as int),
                out@ == rect.take((y - by) * bw + (x - bx)).filter(pred),
            decreases bx + bw - x,
        {
            let ghost k: int = (y - by) * bw + (x - bx);
            proof {
                assert(0 <= k < bw * bh && k + 1 <= bw * bh) by (nonlinear_arith)
                    requires
                        k == (y - by) * bw + (x - bx),
                        0 <= y - by < bh,
                        0 <= x - bx < bw,
                ;
                vstd::arithmetic::div_mod::lemma_fundamental_div_mod_converse(k, bw as int, y - by, x - bx);
                assert(rect[k] == (x, y));
                rect.lemma_take_succ_push(k);
                rect.take(k).lemma_filter_push(rect[k], pred);
            }
            assert(y as int * width as int + x as int <= 0xffff * 0xffff) by (nonlinear_arith)
                requires
                    x < width,
                    y < height,
                    width <= 0xffff,
                    height <= 0xffff,
            ;
            let index: usize = x as usize + y as usize * width as usize;
            if index % count == interlace_offset as usize {
                out.push((x, y));
            }
            x = x + 1;
        }
        assert((y - by) * bw + (x - bx) == (y + 1 - by) * bw) by (nonlinear_arith)
            requires
                x == bx + bw,
        ;
        y = y + 1;
    }
    assert((y - by) * bw == bw * bh) by (nonlinear_arith)
        requires
            y == by + bh,
    ;
    assert(rect.take((y - by) * bw) == rect);
    out
}

} // verus!
