//! In-memory model of the eight-pixel LED strip. The animation engine is
//! verified against this model; the binary mirrors each flushed frame onto
//! the physical strip.

use vstd::prelude::*;
use vstd::pervasive::VecAdditionalExecFns;

verus! {

/// Number of pixels on the strip.
pub const N_PIXELS: usize = 8;

/// One pixel's color.
#[derive(Clone, Copy, Debug, PartialEq, Eq, Structural)]
pub struct Rgb {
    pub red: u8,
    pub green: u8,
    pub blue: u8,
}

/// The frame with every pixel off.
pub open spec fn all_off() -> Seq<Rgb> {
    Seq::new(N_PIXELS as nat, |i: int| Rgb { red: 0, green: 0, blue: 0 })
}

/// LED strip state: a local buffer being composed, the last flushed frame,
/// a global brightness in hardware steps, and the ghost history of every
/// frame ever flushed (oldest first).
pub struct LedStrip {
    pub local: Vec<Rgb>,
    pub shown: Vec<Rgb>,
    pub brightness: u8,
    pub flushed: Ghost<Seq<Seq<Rgb>>>,
}

/// Well-formed strip: both buffers hold exactly one color per pixel and the
/// brightness is within the hardware's 5-bit range.
pub open spec fn strip_wf(s: LedStrip) -> bool {
    &&& s.local@.len() == N_PIXELS
    &&& s.shown@.len() == N_PIXELS
    &&& s.brightness <= 31
}

/// A fresh all-off frame buffer.
fn off_frame() -> (v: Vec<Rgb>)
    ensures
        v@ == all_off(),
{
    let mut v: Vec<Rgb> = Vec::new();
    let mut i: usize = 0;
    while i < N_PIXELS
        invariant
            i <= N_PIXELS,
            v@.len() == i,
            forall|j: int| 0 <= j < i ==> v@[j] == (Rgb { red: 0, green: 0, blue: 0 }),
        decreases N_PIXELS - i,
    {
        v.push(Rgb { red: 0, green: 0, blue: 0 });
        i += 1;
    }
    proof {
        assert(v@ =~= all_off());
    }
    v
}

impl LedStrip {
    /// A fresh strip: everything off, nothing flushed yet, full brightness.
    pub fn new() -> (s: LedStrip)
        ensures
            strip_wf(s),
            s.local@ == all_off(),
            s.shown@ == all_off(),
            s.brightness == 31,
            s.flushed@ == Seq::<Seq<Rgb>>::empty(),
    {
        LedStrip {
            local: off_frame(),
            shown: off_frame(),
            brightness: 31,
            flushed: Ghost(Seq::empty()),
        }
    }

    /// Set one pixel of the local buffer.
    pub fn set_pixel(&mut self, pixel: usize, red: u8, green: u8, blue: u8)
        requires
            strip_wf(*old(self)),
            pixel < N_PIXELS,
        ensures
            strip_wf(*final(self)),
            final(self).local@ == old(self).local@.update(
                pixel as int,
                Rgb { red, green, blue },
            ),
            final(self).shown@ == old(self).shown@,
            final(self).brightness == old(self).brightness,
            final(self).flushed@ == old(self).flushed@,
    {
        self.local.set(pixel, Rgb { red, green, blue });
    }

    /// Set every pixel of the local buffer to the same color.
    pub fn set_all_pixels(&mut self, red: u8, green: u8, blue: u8)
        requires
            strip_wf(*old(self)),
        ensures
            strip_wf(*final(self)),
            final(self).local@ == Seq::new(N_PIXELS as nat, |i: int| Rgb { red, green, blue }),
            final(self).shown@ == old(self).shown@,
            final(self).brightness == old(self).brightness,
            final(self).flushed@ == old(self).flushed@,
    {
        let mut i: usize = 0;
        while i < N_PIXELS
            invariant
                i <= N_PIXELS,
                strip_wf(*self),
                forall|j: int| 0 <= j < i ==> self.local@[j] == (Rgb { red, green, blue }),
                self.shown@ == old(self).shown@,
                self.brightness == old(self).brightness,
                self.flushed@ == old(self).flushed@,
            decreases N_PIXELS - i,
        {
            self.local.set(i, Rgb { red, green, blue });
            i += 1;
        }
        proof {
            assert(self.local@ =~= Seq::new(N_PIXELS as nat, |i: int| Rgb { red, green, blue }));
        }
    }

    /// Flush: the local buffer becomes the visible frame and is recorded in
    /// the flush history.
    pub fn show(&mut self)
        requires
            strip_wf(*old(self)),
        ensures
            strip_wf(*final(self)),
            final(self).local@ == old(self).local@,
            final(self).shown@ == old(self).local@,
            final(self).brightness == old(self).brightness,
            final(self).flushed@ == old(self).flushed@.push(old(self).local@),
    {
        let mut i: usize = 0;
        while i < N_PIXELS
            invariant
                i <= N_PIXELS,
                strip_wf(*self),
                self.local@ == old(self).local@,
                forall|j: int| 0 <= j < i ==> self.shown@[j] == self.local@[j],
                self.brightness == old(self).brightness,
                self.flushed@ == old(self).flushed@,
            decreases N_PIXELS - i,
        {
            let c = self.local[i];
            self.shown.set(i, c);
            i += 1;
        }
        proof {
            assert(self.shown@ =~= self.local@);
        }
        self.flushed = Ghost(self.flushed@.push(self.local@));
    }

    /// Turn every pixel of the local buffer off.
    pub fn clear(&mut self)
        requires
            strip_wf(*old(self)),
        ensures
            strip_wf(*final(self)),
            final(self).local@ == all_off(),
            final(self).shown@ == old(self).shown@,
            final(self).brightness == old(self).brightness,
            final(self).flushed@ == old(self).flushed@,
    {
        self.set_all_pixels(0, 0, 0);
        proof {
            assert(self.local@ =~= all_off());
        }
    }

    /// Set the global brightness, in the hardware's 0..=31 steps.
    pub fn set_all_pixels_brightness(&mut self, brightness: u8)
        requires
            strip_wf(*old(self)),
            brightness <= 31,
        ensures
            strip_wf(*final(self)),
            final(self).local@ == old(self).local@,
            final(self).shown@ == old(self).shown@,
            final(self).brightness == brightness,
            final(self).flushed@ == old(self).flushed@,
    {
        self.brightness = brightness;
    }

    /// Read one pixel of the last flushed frame.
    pub fn get_shown(&self, pixel: usize) -> (c: Rgb)
        requires
            strip_wf(*self),
            pixel < N_PIXELS,
        ensures
            c == self.shown@[pixel as int],
    {
        self.shown[pixel]
    }

    /// Read the current brightness.
    pub fn get_brightness(&self) -> (b: u8)
        ensures
            b == self.brightness,
    {
        self.brightness
    }
}

} // verus!
