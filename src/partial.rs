//! Per-worker partial framebuffer: a compact array holding only the pixels
//! that one worker of an interlaced render owns, and its merge into the
//! accumulation buffer once the worker is done.
use vstd::prelude::*;

use crate::accumulate::SmoothingFramebuffer;
use crate::interlace::{
    lemma_pack_unpack, lemma_partition, lemma_subset_len_exact, owns, spec_subset_len,
    subset_len,
};

verus! {

/// The pixels of a `width` by `height` image that worker `interlace_offset`
/// out of `interlace_count` owns, stored compactly: linear index `p` at
/// slot `p / interlace_count`.
pub struct PartialFramebuffer<C> {
    data: Vec<C>,
    width: u16,
    height: u16,
    interlace_count: u16,
    interlace_offset: u16,
}

/// `after` is `before` with the partial buffer `part` of worker `offset` out
/// of `count` merged in by `combine`: each owned pixel `p` combines its old
/// value with slot `p / count`, every other pixel is left as it was.
pub open spec fn merged<C, F: Fn(C, C) -> C>(
    before: Seq<C>,
    after: Seq<C>,
    part: Seq<C>,
    count: int,
    offset: int,
    combine: F,
) -> bool {
    &&& after.len() == before.len()
    &&& forall|p: int|
        0 <= p < before.len() ==> if owns(p, count, offset) {
            combine.ensures((before[p], part[p / count]), #[trigger] after[p])
        } else {
            after[p] == before[p]
        }
}

/// `part` is what worker `offset` out of `count` holds after rendering the
/// pixels it owns of `image` (row-major).
pub open spec fn holds_share<C>(part: Seq<C>, image: Seq<C>, count: int, offset: int) -> bool {
    &&& part.len() == spec_subset_len(image.len() as int, count, offset)
    &&& forall|i: int| 0 <= i < part.len() ==> #[trigger] part[i] == image[i * count + offset]
}

/// After the first `k` workers have been merged, a pixel owned by one of
/// them has been combined once with its own image value, and every other
/// pixel is as it started.
proof fn lemma_merge_prefix<C, F: Fn(C, C) -> C>(
    states: Seq<Seq<C>>,
    parts: Seq<Seq<C>>,
    image: Seq<C>,
    count: int,
    combine: F,
    k: int,
)
    requires
        count > 0,
        0 <= k <= count,
        parts.len() == count,
        states.len() == count + 1,
        states[0].len() == image.len(),
        forall|o: int| 0 <= o < count ==> holds_share(#[trigger] parts[o], image, count, o),
        forall|o: int|
            0 <= o < count ==> merged(#[trigger] states[o], states[o + 1], parts[o], count, o, combine),
    ensures
        states[k].len() == image.len(),
        forall|p: int|
            0 <= p < image.len() ==> if p % count < k {
                combine.ensures((states[0][p], image[p]), #[trigger] states[k][p])
            } else {
                states[k][p] == states[0][p]
            },
    decreases k,
{
    if k > 0 {
        lemma_merge_prefix(states, parts, image, count, combine, k - 1);
        let o = k - 1;
        assert(holds_share(parts[o], image, count, o));
        assert(merged(states[o], states[o + 1], parts[o], count, o, combine));
        assert forall|p: int| 0 <= p < image.len() implies if p % count < k {
            combine.ensures((states[0][p], image[p]), #[trigger] states[k][p])
        } else {
            states[k][p] == states[0][p]
        } by {
            lemma_partition(image.len() as int, count, p);
            lemma_pack_unpack(p, 0, count, 0);
            if p % count == o {
                assert(parts[o][p / count] == image[(p / count) * count + o]);
            }
        }
    }
}

/// Interlaced rendering recombines exactly: when each of `count` workers
/// holds its share of one image and the workers are merged one after the
/// other, the result is what merging the whole image as a single worker
/// gives. Each pixel is combined once, with its own value, whatever `count`.
pub proof fn lemma_interlaced_merge_matches_single<C, F: Fn(C, C) -> C>(
    states: Seq<Seq<C>>,
    parts: Seq<Seq<C>>,
    image: Seq<C>,
    count: int,
    combine: F,
)
    requires
        count > 0,
        parts.len() == count,
        states.len() == count + 1,
        states[0].len() == image.len(),
        forall|o: int| 0 <= o < count ==> holds_share(#[trigger] parts[o], image, count, o),
        forall|o: int|
            0 <= o < count ==> merged(#[trigger] states[o], states[o + 1], parts[o], count, o, combine),
    ensures
        holds_share(image, image, 1, 0),
        merged(states[0], states[count], image, 1, 0, combine),
{
    lemma_merge_prefix(states, parts, image, count, combine, count);
    assert forall|p: int| 0 <= p < image.len() implies #[trigger] (p % count) < count && p % 1 == 0 && p / 1 == p by {
        lemma_partition(image.len() as int, count, p);
    }
}

impl<C: Copy> PartialFramebuffer<C> {
    /// Stored pixels, by packed slot.
    pub closed spec fn view(&self) -> Seq<C> {
        self.data@
    }

    pub closed spec fn spec_width(&self) -> u16 {
        self.width
    }

    pub closed spec fn spec_height(&self) -> u16 {
        self.height
    }

    pub closed spec fn spec_count(&self) -> u16 {
        self.interlace_count
    }

    pub closed spec fn spec_offset(&self) -> u16 {
        self.interlace_offset
    }

    pub open spec fn wf(&self) -> bool {
        &&& self.spec_count() > 0
        &&& self.spec_offset() < self.spec_count()
        &&& self.view().len() == spec_subset_len(
            self.spec_width() * self.spec_height(),
            self.spec_count() as int,
            self.spec_offset() as int,
        )
    }

    /// Partial buffer of worker `interlace_offset` out of `interlace_count`
    /// for a `width` by `height` image, every slot set to `fill`.
    pub fn new(width: u16, height: u16, interlace_count: u16, interlace_offset: u16, fill: C) -> (r: Self)
        requires
            interlace_count > 0,
            interlace_offset < interlace_count,
        ensures
            r.wf(),
            r.spec_width() == width,
            r.spec_height() == height,
            r.spec_count() == interlace_count,
            r.spec_offset() == interlace_offset,
            r.view() == Seq::new(r.view().len(), |i: int| fill),
    {
        let length = subset_len(width, height, interlace_count, interlace_offset);
        let mut data: Vec<C> = Vec::new();
        while data.len() < length
            invariant
                data.len() <= length,
                forall|i: int| 0 <= i < data.len() ==> data@[i] == fill,
            decreases length - data.len(),
        {
            data.push(fill);
        }
        let r = PartialFramebuffer { data, width, height, interlace_count, interlace_offset };
        assert(r.view() == Seq::new(r.view().len(), |i: int| fill));
        r
    }

    pub fn width(&self) -> (r: u16)
        ensures
            r == self.spec_width(),
    {
        self.width
    }

    pub fn height(&self) -> (r: u16)
        ensures
            r == self.spec_height(),
    {
        self.height
    }

    /// Stores `col` for pixel `(x, y)` if this worker owns it; a pixel of
    /// another worker is ignored.
    pub fn set_pixel(&mut self, x: u16, y: u16, col: C)
        requires
            old(self).wf(),
            x < old(self).spec_width(),
            y < old(self).spec_height(),
        ensures
            final(self).wf(),
            final(self).spec_width() == old(self).spec_width(),
            final(self).spec_height() == old(self).spec_height(),
            final(self).spec_count() == old(self).spec_count(),
            final(self).spec_offset() == old(self).spec_offset(),
            final(self).view() == if owns(
                x + y * old(self).spec_width(),
                old(self).spec_count() as int,
                old(self).spec_offset() as int,
            ) {
                old(self).view().update(
                    (x + y * old(self).spec_width()) / old(self).spec_count() as int,
                    col,
                )
            } else {
                old(self).view()
            },
    {
        let ghost n = self.width * self.height;
        assert(y * self.width + x < self.width * self.height <= 0xffff * 0xffff) by (nonlinear_arith)
            requires
                x < self.width,
                y < self.height,
                self.width <= 0xffff,
                self.height <= 0xffff,
        ;
        let index: usize = x as usize + y as usize * self.width as usize;
        let count: usize = self.interlace_count as usize;
        if index % count != self.interlace_offset as usize {
            return;
        }
        proof {
            lemma_partition(n, count as int, index as int);
        }
        self.data.set(index / count, col);
    }

    /// Merges this worker's pixels into the accumulation buffer `other`,
    /// combining each with the running sum of its pixel by `combine`.
    pub fn update<F: Fn(C, C) -> C>(&self, other: &mut SmoothingFramebuffer<C>, combine: &F)
        requires
            self.wf(),
            old(other).wf(),
            old(other).spec_width() == self.spec_width(),
            old(other).spec_height() == self.spec_height(),
            forall|a: C, b: C| combine.requires((a, b)),
        ensures
            final(other).wf(),
            final(other).spec_width() == old(other).spec_width(),
            final(other).spec_height() == old(other).spec_height(),
            final(other).spec_frame() == old(other).spec_frame(),
            old(other).frozen() ==> final(other).sums() == old(other).sums(),
            !old(other).frozen() ==> merged(
                old(other).sums(),
                final(other).sums(),
                self.view(),
                self.spec_count() as int,
                self.spec_offset() as int,
                *combine,
            ),
    {
        let length = subset_len(self.width, self.height, self.interlace_count, self.interlace_offset);
        let count: usize = self.interlace_count as usize;
        let offset: usize = self.interlace_offset as usize;
        let width: usize = self.width as usize;
        let ghost n: int = self.width * self.height;
        let ghost before = other.sums();
        assert(n <= 0xffff * 0xffff) by (nonlinear_arith)
            requires
                n == self.spec_width() * self.spec_height(),
                self.spec_width() <= 0xffff,
                self.spec_height() <= 0xffff,
        ;
        let mut i: usize = 0;
        while i < length
            invariant
                self.wf(),
                length == self.view().len(),
                count == self.spec_count(),
                offset == self.spec_offset(),
                width == self.spec_width(),
                n == self.spec_width() * self.spec_height(),
                n <= 0xffff * 0xffff,
                i <= length,
                other.wf(),
                other.spec_width() == self.spec_width(),
                other.spec_height() == self.spec_height(),
                other.spec_frame() == old(other).spec_frame(),
                before == old(other).sums(),
                before.len() == n,
                forall|a: C, b: C| combine.requires((a, b)),
                old(other).frozen() ==> other.sums() == before,
                !old(other).frozen() ==> other.sums().len() == n,
                !old(other).frozen() ==> forall|p: int|
                    0 <= p < n ==> if owns(p, count as int, offset as int) && p / (count as int) < i {
                        combine.ensures((before[p], self.view()[p / (count as int)]), #[trigger] other.sums()[p])
                    } else {
                        other.sums()[p] == before[p]
                    },
            decreases length - i,
        {
            proof {
                lemma_subset_len_exact(n, count as int, offset as int, i as int);
                lemma_pack_unpack(0, i as int, count as int, offset as int);
            }
            let index: usize = i * count + offset;
            proof {
                assert(width > 0) by (nonlinear_arith)
                    requires
                        index < n,
                        n == width * self.spec_height(),
                ;
                lemma_pack_unpack(index as int, 0, width as int, 0);
                assert(index / width < self.spec_height()) by (nonlinear_arith)
                    requires
                        index < n,
                        n == width * self.spec_height(),
                        width > 0,
                        (index / width) * width <= index,
                ;
                vstd::arithmetic::div_mod::lemma_mod_bound(index as int, width as int);
                vstd::arithmetic::mul::lemma_mul_is_commutative((index / width) as int, width as int);
            }
            let x: u16 = (index % width) as u16;
            let y: u16 = (index / width) as u16;
            let col = self.data[i];
            let ghost mid = other.sums();
            other.set_pixel(x, y, col, combine);
            proof {
                assert(x + y * width == index);
                assert forall|p: int| 0 <= p < n && !old(other).frozen() implies if owns(p, count as int, offset as int) && p / (count as int) < i + 1 {
                    combine.ensures((before[p], self.view()[p / (count as int)]), #[trigger] other.sums()[p])
                } else {
                    other.sums()[p] == before[p]
                } by {
                    lemma_pack_unpack(p, 0, count as int, 0);
                    if p == index {
                        assert(mid[p] == before[p]);
                    }
                    if owns(p, count as int, offset as int) && p / (count as int) == i {
                        assert(p == index);
                    }
                }
            }
            i = i + 1;
        }
        proof {
            if !old(other).frozen() {
                assert forall|p: int| 0 <= p < before.len() implies if owns(p, count as int, offset as int) {
                    combine.ensures((before[p], self.view()[p / (count as int)]), #[trigger] other.sums()[p])
                } else {
                    other.sums()[p] == before[p]
                } by {
                    if owns(p, count as int, offset as int) {
                        lemma_partition(n, count as int, p);
                    }
                }
            }
        }
    }
}

/// `parts` are the partial buffers of all the workers of one interlaced
/// pass over a `width` by `height` image, worker `o` at position `o`.
pub open spec fn is_pass<C: Copy>(parts: Seq<PartialFramebuffer<C>>, width: u16, height: u16) -> bool {
    forall|o: int|
        0 <= o < parts.len() ==> {
            &&& (#[trigger] parts[o]).wf()
            &&& parts[o].spec_count() == parts.len()
            &&& parts[o].spec_offset() == o
            &&& parts[o].spec_width() == width
            &&& parts[o].spec_height() == height
        }
}

/// Merges the partial buffers of all the workers of one pass into the
/// accumulation buffer `fb`, worker after worker: each pixel is combined
/// once, with the value its own worker stored for it.
pub fn merge_parts<C: Copy, F: Fn(C, C) -> C>(
    parts: &Vec<PartialFramebuffer<C>>,
    fb: &mut SmoothingFramebuffer<C>,
    combine: &F,
)
    requires
        parts.len() > 0,
        is_pass(parts@, old(fb).spec_width(), old(fb).spec_height()),
        old(fb).wf(),
        forall|a: C, b: C| combine.requires((a, b)),
    ensures
        final(fb).wf(),
        final(fb).spec_width() == old(fb).spec_width(),
        final(fb).spec_height() == old(fb).spec_height(),
        final(fb).spec_frame() == old(fb).spec_frame(),
        old(fb).frozen() ==> final(fb).sums() == old(fb).sums(),
        !old(fb).frozen() ==> forall|p: int|
            0 <= p < old(fb).sums().len() ==> combine.ensures(
                (old(fb).sums()[p], parts@[p % parts.len() as int].view()[p / parts.len() as int]),
                #[trigger] final(fb).sums()[p],
            ),
{
    let ghost count = parts.len() as int;
    let ghost before = fb.sums();
    let ghost n = before.len() as int;
    let mut o: usize = 0;
    while o < parts.len()
        invariant
            o <= parts.len(),
            count == parts.len(),
            count > 0,
            is_pass(parts@, fb.spec_width(), fb.spec_height()),
            fb.wf(),
            fb.spec_width() == old(fb).spec_width(),
            fb.spec_height() == old(fb).spec_height(),
            fb.spec_frame() == old(fb).spec_frame(),
            before == old(fb).sums(),
            n == before.len(),
            fb.sums().len() == n,
            forall|a: C, b: C| combine.requires((a, b)),
            old(fb).frozen() ==> fb.sums() == before,
            !old(fb).frozen() ==> forall|p: int|
                0 <= p < n ==> if p % count < o {
                    combine.ensures((before[p], parts@[p % count].view()[p / count]), #[trigger] fb.sums()[p])
                } else {
                    fb.sums()[p] == before[p]
                },
        decreases parts.len() - o,
    {
        let ghost mid = fb.sums();
        assert(parts@[o as int].wf());
        parts[o].update(fb, combine);
        proof {
            if !old(fb).frozen() {
                assert forall|p: int| 0 <= p < n implies if p % count < o + 1 {
                    combine.ensures((before[p], parts@[p % count].view()[p / count]), #[trigger] fb.sums()[p])
                } else {
                    fb.sums()[p] == before[p]
                } by {
                    lemma_partition(n, count, p);
                    if p % count == o {
                        assert(mid[p] == before[p]);
                    }
                }
            }
        }
        o = o + 1;
    }
}

/// A pass recombines its image exactly: when every worker of the pass holds
/// its share of `image`, the value the merge combines into pixel `p`, slot
/// `p / count` of worker `p % count`, is `image[p]`, for any worker count.
pub proof fn lemma_pass_recombines<C: Copy>(
    parts: Seq<PartialFramebuffer<C>>,
    width: u16,
    height: u16,
    image: Seq<C>,
)
    requires
        parts.len() > 0,
        is_pass(parts, width, height),
        image.len() == width * height,
        forall|o: int|
            0 <= o < parts.len() ==> holds_share(#[trigger] parts[o].view(), image, parts.len() as int, o),
    ensures
        forall|p: int|
            0 <= p < image.len() ==> #[trigger] parts[p % parts.len() as int].view()[p / parts.len() as int]
                == image[p],
{
    let count = parts.len() as int;
    assert forall|p: int| 0 <= p < image.len() implies #[trigger] parts[p % count].view()[p / count]
        == image[p] by {
        lemma_partition(image.len() as int, count, p);
        lemma_pack_unpack(p, 0, count, 0);
        let o = p % count;
        assert(holds_share(parts[o].view(), image, count, o));
        assert(parts[o].view()[p / count] == image[(p / count) * count + o]);
    }
}

} // verus!
