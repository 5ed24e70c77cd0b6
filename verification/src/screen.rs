//! A monochrome screen packed eight pixels to the byte.
use crate::bitref::{bit_of, lemma_with_bit, with_bit, BitMut, BitRef};
use vstd::prelude::*;
use vstd::string::StringExecFns;

verus! {

/// A screen of `width` by `height` pixels. The rows follow one another in
/// `pixels`; within a byte the leftmost pixel is the least significant bit,
/// and a set bit is a white pixel.
#[derive(Debug)]
pub struct Screen {
    pixels: Vec<u8>,
    width_pixels: usize,
}

/// `count` dashes.
pub open spec fn dashes(count: nat) -> Seq<char> {
    Seq::new(count, |i: int| '-')
}

/// The top and the bottom line of the picture of a screen `width` wide.
pub open spec fn border(width: nat) -> Seq<char> {
    seq!['+'] + dashes(width) + seq!['+']
}

/// A place in a row of `per_row` bytes determines the row and the byte.
proof fn lemma_place(per_row: int, y1: int, b1: int, y2: int, b2: int)
    requires
        0 <= b1 < per_row,
        0 <= b2 < per_row,
        0 <= y1,
        0 <= y2,
        y1 * per_row + b1 == y2 * per_row + b2,
    ensures
        y1 == y2,
        b1 == b2,
{
    assert(y1 == y2) by (nonlinear_arith)
        requires
            0 <= b1 < per_row,
            0 <= b2 < per_row,
            0 <= y1,
            0 <= y2,
            y1 * per_row + b1 == y2 * per_row + b2,
    ;
}

/// A byte of a row that exists lies within the pixels.
proof fn lemma_in_range(per_row: int, len: int, y: int, b: int)
    requires
        0 < per_row,
        0 <= len,
        len % per_row == 0,
        0 <= y < len / per_row,
        0 <= b < per_row,
    ensures
        0 <= y * per_row + b < len,
{
    assert(0 <= y * per_row + b < len) by (nonlinear_arith)
        requires
            0 < per_row,
            0 <= len,
            len % per_row == 0,
            0 <= y < len / per_row,
            0 <= b < per_row,
    ;
}

impl Screen {
    /// The bytes that hold the pixels.
    pub closed spec fn bytes(&self) -> Seq<u8> {
        self.pixels@
    }

    /// The width in pixels.
    pub closed spec fn spec_width(&self) -> nat {
        self.width_pixels as nat
    }

    /// The number of bytes in a row.
    pub open spec fn per_row(&self) -> int {
        self.spec_width() as int / 8
    }

    /// The height in pixels: the number of rows that the bytes make up.
    pub open spec fn spec_height(&self) -> nat {
        (self.bytes().len() as int / self.per_row()) as nat
    }

    /// The invariant: rows are made of whole bytes, at least one, and the
    /// bytes make whole rows.
    pub open spec fn wf(&self) -> bool {
        &&& self.spec_width() % 8 == 0
        &&& self.spec_width() >= 8
        &&& self.bytes().len() as int % self.per_row() == 0
        &&& self.bytes().len() * 8 <= usize::MAX
    }

    /// Where the byte of pixel `(x, y)` lies among the bytes.
    pub open spec fn place(&self, x: int, y: int) -> int {
        y * self.per_row() + x / 8
    }

    /// Whether the pixel in column `x` of row `y` is white.
    pub open spec fn pixel(&self, x: int, y: int) -> bool {
        bit_of(self.bytes()[self.place(x, y)], (x % 8) as u8)
    }

    /// Row `y` as it is drawn: `#` for a white pixel, a blank for a black one.
    pub open spec fn row(&self, y: int) -> Seq<char> {
        Seq::new(
            self.spec_width(),
            |x: int|
                if self.pixel(x, y) {
                    '#'
                } else {
                    ' '
                },
        )
    }

    /// The first `count` rows as they are drawn, each between two bars and
    /// ended by a line feed.
    pub open spec fn rows(&self, count: nat) -> Seq<char>
        decreases count,
    {
        if count == 0 {
            Seq::empty()
        } else {
            self.rows((count - 1) as nat) + seq!['|'] + self.row(count - 1) + seq!['|', '\n']
        }
    }

    /// The picture of the screen: a frame of `+`, `-` and `|` around the rows.
    pub open spec fn rendered(&self) -> Seq<char> {
        border(self.spec_width()) + seq!['\n'] + self.rows(self.spec_height()) + border(
            self.spec_width(),
        )
    }

    /// Tells whether the invariant holds.
    pub fn check_invariants(&self) -> (holds: bool)
        ensures
            holds == self.wf(),
    {
        let width = self.width();
        if width < 8 || width % 8 != 0 {
            return false;
        }
        proof {
            vstd::arithmetic::div_mod::lemma_truncate_middle(
                self.pixels@.len() as int,
                8,
                width as int / 8,
            );
        }
        match self.pixels.len().checked_mul(8) {
            Some(bits) => bits % width == 0,
            None => false,
        }
    }

    /// A screen over the bytes of `source`, `width_pixels` wide.
    pub fn new(source: Vec<u8>, width_pixels: usize) -> (screen: Self)
        requires
            width_pixels % 8 == 0,
            width_pixels >= 8,
            source@.len() as int % (width_pixels as int / 8) == 0,
            source@.len() * 8 <= usize::MAX,
        ensures
            screen.wf(),
            screen.bytes() == source@,
            screen.spec_width() == width_pixels,
    {
        Self { pixels: source, width_pixels }
    }

    /// The width in pixels.
    pub fn width(&self) -> (width: usize)
        ensures
            width == self.spec_width(),
    {
        self.width_pixels
    }

    /// The height in pixels.
    pub fn height(&self) -> (height: usize)
        requires
            self.wf(),
        ensures
            height == self.spec_height(),
    {
        proof {
            let len = self.pixels@.len() as int;
            let width = self.width_pixels as int;
            assert(len * 8 / width == len / (width / 8)) by (nonlinear_arith)
                requires
                    width % 8 == 0,
                    width >= 8,
                    0 <= len,
            ;
        }
        self.pixels.len() * 8 / self.width_pixels
    }

    /// The number of bytes in a row.
    pub fn width_bytes(&self) -> (count: usize)
        ensures
            count == self.per_row(),
    {
        self.width() / 8
    }

    /// The pixel in column `x` of row `y`, if the screen has it.
    pub fn get(&self, x: usize, y: usize) -> (bit: Option<BitRef<'_>>)
        requires
            self.wf(),
        ensures
            match bit {
                Some(bit) => {
                    &&& x < self.spec_width()
                    &&& y < self.spec_height()
                    &&& bit.value() == self.pixel(x as int, y as int)
                },
                None => x >= self.spec_width() || y >= self.spec_height(),
            },
    {
        if x >= self.width() || y >= self.height() {
            return None;
        }
        proof {
            lemma_in_range(self.per_row(), self.pixels@.len() as int, y as int, x as int / 8);
        }
        let source_byte = &self.pixels[y * self.width_bytes() + x / 8];
        let bit_idx = x % 8;
        Some(BitRef::new_unchecked(source_byte, bit_idx as u8))
    }

    /// The pixel in column `x` of row `y`, for writing, if the screen has it.
    /// Whatever is written to the bit becomes the pixel; all other pixels
    /// stay as they are.
    pub fn get_mut<'a>(&'a mut self, x: usize, y: usize) -> (bit: Option<BitMut<'a>>)
        requires
            old(self).wf(),
        ensures
            final(self).spec_width() == old(self).spec_width(),
            match bit {
                Some(bit) => {
                    &&& x < old(self).spec_width()
                    &&& y < old(self).spec_height()
                    &&& bit.wf()
                    &&& bit.index() == x % 8
                    &&& bit.value() == old(self).pixel(x as int, y as int)
                    &&& *bit.target() == old(self).bytes()[old(self).place(x as int, y as int)]
                    &&& final(self).bytes() == old(self).bytes().update(
                        old(self).place(x as int, y as int),
                        *final(bit.target()),
                    )
                },
                None => {
                    &&& x >= old(self).spec_width() || y >= old(self).spec_height()
                    &&& final(self).bytes() == old(self).bytes()
                },
            },
    {
        if x >= self.width() || y >= self.height() {
            return None;
        }
        proof {
            lemma_in_range(self.per_row(), self.pixels@.len() as int, y as int, x as int / 8);
        }
        let width_bytes = self.width_bytes();
        let source_byte = &mut self.pixels[y * width_bytes + x / 8];
        let bit_idx = x % 8;
        Some(BitMut::new_unchecked(source_byte, bit_idx as u8))
    }

    /// Makes the pixels of row `y` white from column `x1` to column `x2`,
    /// both included.
    pub fn draw_horizontal(&mut self, x1: usize, x2: usize, y: usize)
        requires
            old(self).wf(),
            x1 < old(self).spec_width(),
            x2 < old(self).spec_width(),
            y < old(self).spec_height(),
        ensures
            final(self).wf(),
            final(self).spec_width() == old(self).spec_width(),
            final(self).spec_height() == old(self).spec_height(),
            forall|px: int, py: int|
                0 <= px < old(self).spec_width() && 0 <= py < old(self).spec_height() ==> (
                #[trigger] final(self).pixel(px, py)) == (if py == y && x1 <= px <= x2 {
                    true
                } else {
                    old(self).pixel(px, py)
                }),
    {
        let mut x = x1;
        while x <= x2
            invariant
                self.wf(),
                x1 <= x,
                x <= x2 + 1 || x == x1,
                x2 < self.spec_width(),
                y < self.spec_height(),
                self.spec_width() == old(self).spec_width(),
                self.bytes().len() == old(self).bytes().len(),
                forall|px: int, py: int|
                    0 <= px < self.spec_width() && 0 <= py < self.spec_height() ==> (
                    #[trigger] self.pixel(px, py)) == (if py == y && x1 <= px < x {
                        true
                    } else {
                        old(self).pixel(px, py)
                    }),
            decreases x2 + 1 - x,
        {
            let ghost before = *self;
            {
                let mut bit = self.get_mut(x, y).unwrap();
                bit.set(true);
                proof {
                    BitMut::lemma_settled(bit);
                }
            }
            proof {
                let at = before.place(x as int, y as int);
                let idx = (x % 8) as u8;
                lemma_in_range(before.per_row(), before.bytes().len() as int, y as int, x as int / 8);
                assert(self.bytes() == before.bytes().update(at, with_bit(before.bytes()[at], idx, true)));
                assert forall|px: int, py: int|
                    0 <= px < self.spec_width() && 0 <= py < self.spec_height() implies (
                #[trigger] self.pixel(px, py)) == (if py == y && x1 <= px < x + 1 {
                    true
                } else {
                    old(self).pixel(px, py)
                }) by {
                    let other = before.place(px, py);
                    lemma_in_range(before.per_row(), before.bytes().len() as int, py, px / 8);
                    lemma_with_bit(before.bytes()[at], idx, true, (px % 8) as u8);
                    if other == at {
                        lemma_place(before.per_row(), py, px / 8, y as int, x as int / 8);
                    }
                    assert(before.pixel(px, py) == (if py == y && x1 <= px < x {
                        true
                    } else {
                        old(self).pixel(px, py)
                    }));
                }
            }
            x += 1;
        }
    }

    /// Draws the screen as text.
    pub fn render(&self) -> (text: String)
        requires
            self.wf(),
        ensures
            text@ == self.rendered(),
    {
        proof {
            reveal_strlit("+");
            reveal_strlit("-");
            reveal_strlit("+\n");
            reveal_strlit("|");
            reveal_strlit("|\n");
            reveal_strlit("#");
            reveal_strlit(" ");
        }
        let width = self.width();
        let height = self.height();
        let mut text = String::new();
        text.append("+");
        let mut i: usize = 0;
        while i < width
            invariant
                i <= width,
                text@ == seq!['+'] + dashes(i as nat),
            decreases width - i,
        {
            proof {
                reveal_strlit("-");
            }
            text.append("-");
            i += 1;
            assert(text@ =~= seq!['+'] + dashes(i as nat));
        }
        text.append("+\n");
        assert(text@ =~= border(width as nat) + seq!['\n'] + self.rows(0));
        let mut y: usize = 0;
        while y < height
            invariant
                self.wf(),
                width == self.spec_width(),
                height == self.spec_height(),
                y <= height,
                text@ == border(width as nat) + seq!['\n'] + self.rows(y as nat),
            decreases height - y,
        {
            let ghost start = text@;
            proof {
                reveal_strlit("|");
                reveal_strlit("|\n");
            }
            text.append("|");
            assert(text@ =~= start + seq!['|'] + self.row(y as int).take(0));
            let mut x: usize = 0;
            while x < width
                invariant
                    self.wf(),
                    width == self.spec_width(),
                    height == self.spec_height(),
                    y < height,
                    x <= width,
                    text@ == start + seq!['|'] + self.row(y as int).take(x as int),
                decreases width - x,
            {
                proof {
                    reveal_strlit("#");
                    reveal_strlit(" ");
                }
                let white = self.get(x, y).unwrap();
                if *white {
                    text.append("#");
                } else {
                    text.append(" ");
                }
                x += 1;
                assert(text@ =~= start + seq!['|'] + self.row(y as int).take(x as int));
            }
            text.append("|\n");
            y += 1;
            assert(self.row(y - 1).take(width as int) =~= self.row(y - 1));
            assert(text@ =~= border(width as nat) + seq!['\n'] + self.rows(y as nat));
        }
        text.append("+");
        let mut i: usize = 0;
        let ghost body = text@;
        while i < width
            invariant
                i <= width,
                text@ == body + dashes(i as nat),
            decreases width - i,
        {
            proof {
                reveal_strlit("-");
            }
            text.append("-");
            i += 1;
            assert(text@ =~= body + dashes(i as nat));
        }
        text.append("+");
        assert(text@ =~= self.rendered());
        text
    }
}

} // verus!
