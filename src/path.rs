//! Bookkeeping of one light path of the path tracer: the bounce budget,
//! the choice between reflection and refraction at a surface, the flags a
//! finished path reports, and the number of extra samples they call for.
//!
//! The geometry and colour of the walk are not here: at each surface the
//! walker reports whether the surface is entered from outside and whether
//! its uniform draw exceeded the material's opacity, and is told how to go on.
use vstd::prelude::*;

verus! {

/// How a path leaves a surface it hit.
#[derive(Clone, Copy, Debug, PartialEq, Eq, Structural)]
pub enum Bounce {
    /// Mirror/diffuse blend about the surface normal.
    Reflect,
    /// Bend through the surface by the ratio of refractive indices.
    Refract,
}

/// The branch taken at a surface: refraction when the surface is entered
/// from outside and the uniform draw exceeded the material's opacity,
/// reflection otherwise.
pub open spec fn spec_choose_bounce(is_entry: bool, draw_exceeds_opacity: bool) -> Bounce {
    if is_entry && draw_exceeds_opacity {
        Bounce::Refract
    } else {
        Bounce::Reflect
    }
}

pub fn choose_bounce(is_entry: bool, draw_exceeds_opacity: bool) -> (r: Bounce)
    ensures
        r == spec_choose_bounce(is_entry, draw_exceeds_opacity),
{
    if is_entry && draw_exceeds_opacity {
        Bounce::Refract
    } else {
        Bounce::Reflect
    }
}

/// Number of additional samples a pixel takes after its primary sample:
/// `reflect_samples` if the primary path reflected, plus `refract_samples`
/// if it refracted.
pub open spec fn spec_extra_samples(
    did_reflect: bool,
    did_refract: bool,
    reflect_samples: u16,
    refract_samples: u16,
) -> int {
    (if did_reflect { reflect_samples as int } else { 0 }) + (if did_refract {
        refract_samples as int
    } else {
        0
    })
}

pub fn extra_samples(did_reflect: bool, did_refract: bool, reflect_samples: u16, refract_samples: u16) -> (r: u32)
    ensures
        r == spec_extra_samples(did_reflect, did_refract, reflect_samples, refract_samples),
{
    let mut samples: u32 = 0;
    if did_reflect {
        samples = samples + reflect_samples as u32;
    }
    if did_refract {
        samples = samples + refract_samples as u32;
    }
    samples
}

/// State of one light path between surface hits.
pub struct PathState {
    remaining: u16,
    did_reflect: bool,
    did_refract: bool,
}

impl PathState {
    pub closed spec fn spec_remaining(&self) -> u16 {
        self.remaining
    }

    pub closed spec fn spec_did_reflect(&self) -> bool {
        self.did_reflect
    }

    pub closed spec fn spec_did_refract(&self) -> bool {
        self.did_refract
    }

    /// A fresh path that may hit at most `max_reflect` surfaces.
    pub fn new(max_reflect: u16) -> (r: PathState)
        ensures
            r.spec_remaining() == max_reflect,
            !r.spec_did_reflect(),
            !r.spec_did_refract(),
    {
        PathState { remaining: max_reflect, did_reflect: false, did_refract: false }
    }

    /// Surfaces the path may still hit.
    pub fn remaining(&self) -> (r: u16)
        ensures
            r == self.spec_remaining(),
    {
        self.remaining
    }

    pub fn did_reflect(&self) -> (r: bool)
        ensures
            r == self.spec_did_reflect(),
    {
        self.did_reflect
    }

    pub fn did_refract(&self) -> (r: bool)
        ensures
            r == self.spec_did_refract(),
    {
        self.did_refract
    }

    /// Records a surface hit and spends one bounce. Returns whether the
    /// path goes on; it ends when that was its last bounce, or when none
    /// was left, and a path that ends this way counts as reflected.
    pub fn spend_bounce(&mut self) -> (r: bool)
        ensures
            final(self).spec_remaining() == if old(self).spec_remaining() == 0 {
                0
            } else {
                old(self).spec_remaining() - 1
            },
            final(self).spec_did_reflect() == (old(self).spec_did_reflect() || old(self).spec_remaining() <= 1),
            final(self).spec_did_refract() == old(self).spec_did_refract(),
            r == (old(self).spec_remaining() > 1),
    {
        if self.remaining <= 1 {
            self.remaining = 0;
            self.did_reflect = true;
            return false;
        }
        self.remaining = self.remaining - 1;
        true
    }

    /// Picks how the path leaves the surface it hit, and marks the path as
    /// reflected or refracted accordingly.
    pub fn scatter(&mut self, is_entry: bool, draw_exceeds_opacity: bool) -> (r: Bounce)
        ensures
            r == spec_choose_bounce(is_entry, draw_exceeds_opacity),
            final(self).spec_remaining() == old(self).spec_remaining(),
            final(self).spec_did_reflect() == (old(self).spec_did_reflect() || r == Bounce::Reflect),
            final(self).spec_did_refract() == (old(self).spec_did_refract() || r == Bounce::Refract),
    {
        let bounce = choose_bounce(is_entry, draw_exceeds_opacity);
        match bounce {
            Bounce::Reflect => {
                self.did_reflect = true;
            },
            Bounce::Refract => {
                self.did_refract = true;
            },
        }
        bounce
    }
}

} // verus!
