use vstd::prelude::*;

verus! {

/// The palette abstraction for dithering: a 256-entry lookup taking any gray
/// level to the nearest achievable original intensity.
pub struct AsciiColorMap {
    colorMap: Vec<u8>,
}

impl View for AsciiColorMap {
    type V = Seq<u8>;

    closed spec fn view(&self) -> Seq<u8> {
        self.colorMap@
    }
}

impl AsciiColorMap {
    pub fn new(colorMap: Vec<u8>) -> (r: AsciiColorMap)
        requires
            colorMap@.len() == 256,
        ensures
            r@ == colorMap@,
    {
        AsciiColorMap { colorMap }
    }

    /// The palette index of a gray value is the value itself.
    pub fn index_of(&self, color: u8) -> (r: usize)
        ensures
            r == color as int,
    {
        color as usize
    }

    /// Replaces a gray value with its quantized palette value.
    pub fn map_color(&self, color: &mut u8)
        requires
            self@.len() == 256,
        ensures
            *final(color) == self@[*old(color) as int],
    {
        let idx = self.index_of(*color);
        *color = self.colorMap[idx];
    }
}

} // verus!
