//! Progressive accumulation buffer: a running per-pixel sum over frames and
//! a frame counter. The displayed value of a pixel is its running sum
//! averaged over the frame count.
//!
//! The frame counter saturates: once it holds `u16::MAX` the buffer is
//! frozen, further contributions are dropped and the counter stays, so the
//! last average keeps being displayed.
use vstd::prelude::*;

verus! {

/// Largest value of the frame counter; reaching it freezes the buffer.
pub const MAX_FRAMES: u16 = 0xffff;

/// Running sums of a `width` by `height` image in row-major order, and the
/// number of frames they hold.
pub struct SmoothingFramebuffer<C> {
    buffer: Vec<C>,
    frame: u16,
    width: u16,
    height: u16,
}

impl<C: Copy> SmoothingFramebuffer<C> {
    /// Running sums in row-major order.
    pub closed spec fn sums(&self) -> Seq<C> {
        self.buffer@
    }

    pub closed spec fn spec_frame(&self) -> u16 {
        self.frame
    }

    pub closed spec fn spec_width(&self) -> u16 {
        self.width
    }

    pub closed spec fn spec_height(&self) -> u16 {
        self.height
    }

    pub open spec fn wf(&self) -> bool {
        self.sums().len() == self.spec_width() * self.spec_height()
    }

    pub open spec fn frozen(&self) -> bool {
        self.spec_frame() == MAX_FRAMES
    }

    /// A buffer of `width` by `height` pixels, every sum set to `zero`, no frame counted.
    pub fn new(width: u16, height: u16, zero: C) -> (r: Self)
        ensures
            r.wf(),
            r.spec_width() == width,
            r.spec_height() == height,
            r.spec_frame() == 0,
            r.sums() == Seq::new((width * height) as nat, |i: int| zero),
    {
        assert(width * height <= 0xffff * 0xffff) by (nonlinear_arith)
            requires
                width <= 0xffff,
                height <= 0xffff,
        ;
        let n: usize = width as usize * height as usize;
        let mut buffer: Vec<C> = Vec::new();
        while buffer.len() < n
            invariant
                buffer.len() <= n,
                forall|i: int| 0 <= i < buffer.len() ==> buffer@[i] == zero,
            decreases n - buffer.len(),
        {
            buffer.push(zero);
        }
        assert(buffer@ == Seq::new(n as nat, |i: int| zero));
        SmoothingFramebuffer { buffer, frame: 0, width, height }
    }

    pub fn width(&self) -> (r: u16)
        ensures
            r == self.spec_width(),
    {
        self.width
    }

    pub fn height(&self) -> (r: u16)
        ensures
            r == self.spec_height(),
    {
        self.height
    }

    /// Number of frames accumulated so far.
    pub fn get_frame(&self) -> (r: u16)
        ensures
            r == self.spec_frame(),
    {
        self.frame
    }

    /// Adds `col` to the running sum of pixel `(x, y)` with `combine`, unless the
    /// buffer is frozen.
    pub fn set_pixel<F: Fn(C, C) -> C>(&mut self, x: u16, y: u16, col: C, combine: &F)
        requires
            old(self).wf(),
            x < old(self).spec_width(),
            y < old(self).spec_height(),
            forall|a: C, b: C| combine.requires((a, b)),
        ensures
            final(self).wf(),
            final(self).spec_width() == old(self).spec_width(),
            final(self).spec_height() == old(self).spec_height(),
            final(self).spec_frame() == old(self).spec_frame(),
            final(self).sums().len() == old(self).sums().len(),
            forall|p: int|
                0 <= p < old(self).sums().len() && p != x + y * old(self).spec_width()
                    ==> final(self).sums()[p] == old(self).sums()[p],
            old(self).frozen() ==> final(self).sums() == old(self).sums(),
            !old(self).frozen() ==> combine.ensures(
                (old(self).sums()[x + y * old(self).spec_width()], col),
                final(self).sums()[x + y * old(self).spec_width()],
            ),
    {
        if self.frame == MAX_FRAMES {
            return;
        }
        assert(y * self.width + x < self.width * self.height <= 0xffff * 0xffff) by (nonlinear_arith)
            requires
                x < self.width,
                y < self.height,
                self.width <= 0xffff,
                self.height <= 0xffff,
        ;
        let index: usize = y as usize * self.width as usize + x as usize;
        let sum = combine(self.buffer[index], col);
        self.buffer.set(index, sum);
    }

    /// Ends a frame: counts it, unless the counter is saturated, and returns
    /// the displayed value of every pixel in row-major order, each one the
    /// running sum averaged over the frame count by `average`.
    pub fn update<G: Fn(C, u16) -> C>(&mut self, average: &G) -> (r: Vec<C>)
        requires
            old(self).wf(),
            forall|a: C, k: u16| k > 0 ==> average.requires((a, k)),
        ensures
            final(self).wf(),
            final(self).spec_width() == old(self).spec_width(),
            final(self).spec_height() == old(self).spec_height(),
            final(self).sums() == old(self).sums(),
            final(self).spec_frame() == if old(self).frozen() {
                old(self).spec_frame()
            } else {
                (old(self).spec_frame() + 1) as u16
            },
            r@.len() == old(self).sums().len(),
            forall|p: int|
                0 <= p < r@.len() ==> average.ensures(
                    (old(self).sums()[p], final(self).spec_frame()),
                    #[trigger] r@[p],
                ),
    {
        if self.frame < MAX_FRAMES {
            self.frame = self.frame + 1;
        }
        let frame = self.frame;
        let mut out: Vec<C> = Vec::new();
        let n = self.buffer.len();
        while out.len() < n
            invariant
                frame == self.frame,
                frame > 0,
                n == self.buffer.len(),
                out.len() <= n,
                forall|a: C, k: u16| k > 0 ==> average.requires((a, k)),
                forall|p: int|
                    0 <= p < out.len() ==> average.ensures((self.buffer@[p], frame), #[trigger] out@[p]),
            decreases n - out.len(),
        {
            let value = average(self.buffer[out.len()], frame);
            out.push(value);
        }
        out
    }
}

/// `k` contributions `c` combined one frame after another onto `start` by `plus`.
pub open spec fn repeated<C>(plus: spec_fn(C, C) -> C, start: C, c: C, k: nat) -> C
    decreases k,
{
    if k == 0 {
        start
    } else {
        plus(repeated(plus, start, c, (k - 1) as nat), c)
    }
}

/// Frames that each contribute the same value `c` to every pixel build, in
/// every running sum, `c` combined `k` times onto the starting value:
/// `states[j]` are the sums after `j` frames, and each frame combines every
/// pixel once with `c` through `combine`, which computes `plus`.
pub proof fn lemma_constant_frames<C, F: Fn(C, C) -> C>(
    states: Seq<Seq<C>>,
    zero: C,
    c: C,
    k: nat,
    combine: F,
    plus: spec_fn(C, C) -> C,
)
    requires
        states.len() == k + 1,
        forall|p: int| 0 <= p < states[0].len() ==> #[trigger] states[0][p] == zero,
        forall|a: C, b: C, r: C| #[trigger] combine.ensures((a, b), r) ==> r == plus(a, b),
        forall|j: int|
            0 <= j < k ==> {
                &&& (#[trigger] states[j + 1]).len() == states[j].len()
                &&& forall|p: int|
                    0 <= p < states[j].len() ==> combine.ensures(
                        (states[j][p], c),
                        #[trigger] states[j + 1][p],
                    )
            },
    ensures
        states[k as int].len() == states[0].len(),
        forall|p: int|
            0 <= p < states[0].len() ==> #[trigger] states[k as int][p] == repeated(plus, zero, c, k),
    decreases k,
{
    if k > 0 {
        let j = k - 1;
        lemma_constant_frames(states.take(k as int), zero, c, j as nat, combine, plus);
        assert forall|i: int| 0 <= i <= j implies #[trigger] states.take(k as int)[i] == states[i] by {}
        assert(states[k as int] == states[j + 1]);
        assert forall|p: int| 0 <= p < states[0].len() implies #[trigger] states[k as int][p] == repeated(
            plus,
            zero,
            c,
            k,
        ) by {
            assert(states.take(k as int)[j] == states[j]);
            assert(combine.ensures((states[j][p], c), states[j + 1][p]));
        }
    }
}

/// Integer addition, the running sum of exact arithmetic.
pub open spec fn int_plus() -> spec_fn(int, int) -> int {
    |a: int, b: int| a + b
}

/// In exact arithmetic the displayed value after `k` identical frames is the
/// frame value itself: `c` added `k` times onto zero, divided by `k`, is `c`.
pub proof fn lemma_constant_frames_average(c: int, k: nat)
    requires
        k >= 1,
    ensures
        repeated(int_plus(), 0, c, k) == k * c,
        repeated(int_plus(), 0, c, k) / (k as int) == c,
    decreases k,
{
    if k > 1 {
        lemma_constant_frames_average(c, (k - 1) as nat);
        assert(repeated(int_plus(), 0, c, k) == (k - 1) * c + c);
        assert((k - 1) * c + c == k * c) by (nonlinear_arith);
    } else {
        assert(repeated(int_plus(), 0, c, 0) == 0);
        assert(repeated(int_plus(), 0, c, 1) == c);
    }
    vstd::arithmetic::div_mod::lemma_div_multiples_vanish(c, k as int);
}

} // verus!
