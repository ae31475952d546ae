//! Two-dimensional colour lookup tables: 256 × 256 byte pairs to RGB.
use vstd::prelude::*;

verus! {

/// Number of entries of a 2D colormap: one per (primary, secondary) pair.
pub const COLORMAP_2D_LEN: usize = 65536;

/// A 256 × 256 → RGB lookup table, row-major by the secondary value.
pub struct Colormap2D {
    lut: Vec<[u8; 3]>,
}

impl Colormap2D {
    #[verifier::type_invariant]
    spec fn full_table(&self) -> bool {
        self.lut@.len() == COLORMAP_2D_LEN
    }

    /// Entries, row-major by the secondary value.
    pub closed spec fn table(&self) -> Seq<[u8; 3]> {
        self.lut@
    }

    /// A colormap over `lut`, which holds the entry for (`primary`,
    /// `secondary`) at `secondary * 256 + primary`; `None` unless `lut` has
    /// exactly one entry per pair.
    pub fn from_table(lut: Vec<[u8; 3]>) -> (r: Option<Self>)
        ensures
            r is Some == (lut@.len() == COLORMAP_2D_LEN),
            r is Some ==> r->0.table() == lut@,
    {
        if lut.len() == COLORMAP_2D_LEN {
            Some(Colormap2D { lut })
        } else {
            None
        }
    }

    /// Colour for the pair (`primary`, `secondary`).
    pub fn apply(&self, primary: u8, secondary: u8) -> (r: [u8; 3])
        ensures
            self.table().len() == COLORMAP_2D_LEN,
            r == self.table()[secondary as int * 256 + primary as int],
    {
        proof {
            use_type_invariant(self);
        }
        self.lut[secondary as usize * 256 + primary as usize]
    }
}

} // verus!
