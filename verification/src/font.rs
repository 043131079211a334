//! A bitmap font: five columns of seven dots to a character.

use vstd::prelude::*;

verus! {

pub const GLYPH_W: usize = 5;

pub const GLYPH_H: usize = 7;

/// The dots of one character.
pub struct Glyph {
    pub ch: char,
    /// Column by column from the left; the lowest bit is the topmost dot.
    pub columns: [u8; 5],
}

pub struct Font {
    /// How many dots from one character to the next.
    pub advance: usize,
    pub glyphs: Vec<Glyph>,
    /// What stands for a character that has no glyph of its own.
    pub fallback: [u8; 5],
}

/// The columns of a character: those of the first glyph for it.
pub open spec fn columns_of(glyphs: Seq<Glyph>, fallback: [u8; 5], ch: char) -> Seq<u8>
    decreases glyphs.len(),
{
    if glyphs.len() == 0 {
        fallback@
    } else if glyphs[0].ch == ch {
        glyphs[0].columns@
    } else {
        columns_of(glyphs.drop_first(), fallback, ch)
    }
}

/// True when a column has a dot in a row.
pub open spec fn has_dot(bits: u8, row: int) -> bool {
    bits & (1u8 << (row as u8)) != 0
}

impl Font {
    /// The columns of a character.
    pub open spec fn columns(self, ch: char) -> Seq<u8> {
        columns_of(self.glyphs@, self.fallback, ch)
    }

    /// The columns of a character.
    pub fn glyph(&self, ch: char) -> (r: [u8; 5])
        ensures
            r@ == self.columns(ch),
    {
        let mut i: usize = 0;
        assert(self.glyphs@.skip(0) =~= self.glyphs@);
        while i < self.glyphs.len()
            invariant
                i <= self.glyphs@.len(),
                self.columns(ch) == columns_of(self.glyphs@.skip(i as int), self.fallback, ch),
            decreases self.glyphs@.len() - i,
        {
            assert(self.glyphs@.skip(i as int)[0] == self.glyphs@[i as int]);
            assert(self.glyphs@.skip(i as int).drop_first() =~= self.glyphs@.skip(i + 1));
            if self.glyphs[i].ch == ch {
                return self.glyphs[i].columns;
            }
            i += 1;
        }
        self.fallback
    }
}

} // verus!
