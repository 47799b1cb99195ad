//! A canvas of coloured pixels and its image data.

use vstd::prelude::*;
use vstd::arithmetic::div_mod::lemma_fundamental_div_mod_converse;

verus! {

/// Red, green and blue.
pub type Color = (u8, u8, u8);

/// The mathematical content of a canvas: its pixels row by row.
pub struct Picture {
    pub width: nat,
    pub height: nat,
    pub pixels: Seq<Color>,
}

/// One of the four bytes of a pixel: red, green, blue, and full opacity.
pub open spec fn channel(c: Color, k: int) -> u8 {
    if k == 0 {
        c.0
    } else if k == 1 {
        c.1
    } else if k == 2 {
        c.2
    } else {
        255
    }
}

impl Picture {
    /// There is one pixel for each place of the canvas.
    pub open spec fn wf(self) -> bool {
        self.pixels.len() == self.width * self.height
    }

    /// The pixel at column `x` of row `y` of the image that shows each pixel
    /// of the canvas as a square of `scale` by `scale` pixels.
    pub open spec fn scaled(self, scale: nat, x: int, y: int) -> Color {
        self.pixels[(y / (scale as int)) * self.width + x / (scale as int)]
    }

    /// Byte `i` of the image data: four bytes for each pixel, the pixels row
    /// by row.
    pub open spec fn byte_at(self, scale: nat, i: int) -> u8 {
        let line = (scale * self.width) as int;
        let pixel = i / 4;
        channel(self.scaled(scale, pixel % line, pixel / line), i % 4)
    }

    /// The image data at the given scale.
    pub open spec fn bytes(self, scale: nat) -> Seq<u8> {
        Seq::new(
            (4 * ((scale * self.height) * (scale * self.width))) as nat,
            |i: int| self.byte_at(scale, i),
        )
    }
}

/// A canvas of pixels.
pub struct Plot {
    pixels: Vec<Color>,
    width: usize,
    height: usize,
}

impl View for Plot {
    type V = Picture;

    closed spec fn view(&self) -> Picture {
        Picture { width: self.width as nat, height: self.height as nat, pixels: self.pixels@ }
    }
}

/// In an image line of `line` pixels, the pixel number `row * line + col`
/// stands at column `col` of row `row`.
proof fn lemma_place(row: int, col: int, line: int)
    requires
        0 <= row,
        0 <= col < line,
    ensures
        (row * line + col) / line == row,
        (row * line + col) % line == col,
        (4 * (row * line + col) + 0) / 4 == row * line + col,
        (4 * (row * line + col) + 1) / 4 == row * line + col,
        (4 * (row * line + col) + 2) / 4 == row * line + col,
        (4 * (row * line + col) + 3) / 4 == row * line + col,
{
    lemma_fundamental_div_mod_converse(row * line + col, line, row, col);
}

impl Plot {
    /// A white canvas.
    pub fn new(width: usize, height: usize) -> (p: Plot)
        requires
            width * height <= usize::MAX,
        ensures
            p@.wf(),
            p@.width == width,
            p@.height == height,
            forall|i: int| 0 <= i < width * height ==> p@.pixels[i] == (255u8, 255u8, 255u8),
    {
        let count = width * height;
        let mut pixels: Vec<Color> = Vec::new();
        let mut i: usize = 0;
        while i < count
            invariant
                i <= count,
                pixels@.len() == i,
                forall|j: int| 0 <= j < i ==> pixels@[j] == (255u8, 255u8, 255u8),
            decreases count - i,
        {
            pixels.push((255, 255, 255));
            i += 1;
        }
        Plot { pixels, width, height }
    }

    /// Colours the pixel at column `x` of row `y`.
    pub fn draw(&mut self, x: usize, y: usize, color: Color)
        requires
            old(self)@.wf(),
            y * old(self)@.width + x < old(self)@.pixels.len(),
        ensures
            final(self)@.wf(),
            final(self)@.width == old(self)@.width,
            final(self)@.height == old(self)@.height,
            final(self)@.pixels == old(self)@.pixels.update(y * old(self)@.width + x, color),
    {
        assert(0 <= y * self.width) by (nonlinear_arith);
        assert(self.pixels@.len() == self.pixels.len());
        let at = y * self.width + x;
        self.pixels[at] = color;
    }

    /// The image data of the canvas with each pixel drawn as a square of
    /// `scale` by `scale` pixels: four bytes a pixel, red, green, blue and
    /// an opacity of 255.
    pub fn serialize(&self, scale: usize) -> (out: Vec<u8>)
        requires
            self@.wf(),
        ensures
            out@ == self@.bytes(scale as nat),
    {
        let ghost line: int = scale * self.width;
        let ghost me = self@;
        let mut out: Vec<u8> = Vec::new();
        let ghost mut row: int = 0;
        let mut y: usize = 0;
        assert(0 * line == 0);
        while y < self.height
            invariant
                self@ == me,
                me.wf(),
                line == scale * self.width,
                y <= self.height,
                row == y * scale,
                out@.len() == 4 * (row * line),
                forall|j: int| 0 <= j < out@.len() ==> out@[j] == me.byte_at(scale as nat, j),
            decreases self.height - y,
        {
            let mut sy: usize = 0;
            let ghost row_start = row;
            while sy < scale
                invariant
                    self@ == me,
                    me.wf(),
                    line == scale * self.width,
                    y < self.height,
                    sy <= scale,
                    row_start == y * scale,
                    row == row_start + sy,
                    out@.len() == 4 * (row * line),
                    forall|j: int| 0 <= j < out@.len() ==> out@[j] == me.byte_at(scale as nat, j),
                decreases scale - sy,
            {
                let mut x: usize = 0;
                let ghost mut col: int = 0;
                while x < self.width
                    invariant
                        self@ == me,
                        me.wf(),
                        line == scale * self.width,
                        y < self.height,
                        sy < scale,
                        x <= self.width,
                        row == y * scale + sy,
                        col == x * scale,
                        0 <= row,
                        out@.len() == 4 * (row * line + col),
                        forall|j: int|
                            0 <= j < out@.len() ==> out@[j] == me.byte_at(scale as nat, j),
                    decreases self.width - x,
                {
                    let ghost col_start = col;
                    let mut sx: usize = 0;
                    while sx < scale
                        invariant
                            self@ == me,
                            me.wf(),
                            line == scale * self.width,
                            y < self.height,
                            sy < scale,
                            x < self.width,
                            sx <= scale,
                            row == y * scale + sy,
                            col_start == x * scale,
                            col == col_start + sx,
                            0 <= row,
                            out@.len() == 4 * (row * line + col),
                            forall|j: int|
                                0 <= j < out@.len() ==> out@[j] == me.byte_at(scale as nat, j),
                        decreases scale - sx,
                    {
                        proof {
                            assert(col < line) by (nonlinear_arith)
                                requires
                                    col == x * scale + sx,
                                    sx < scale,
                                    x < self.width,
                                    line == scale * self.width,
                            ;
                            lemma_place(row, col, line);
                            lemma_fundamental_div_mod_converse(row, scale as int, y as int, sy as int);
                            lemma_fundamental_div_mod_converse(col, scale as int, x as int, sx as int);
                            assert(y * self.width + x < self.width * self.height) by (nonlinear_arith)
                                requires
                                    y < self.height,
                                    x < self.width,
                            ;
                            assert(0 <= y * self.width) by (nonlinear_arith);
                            assert(self.pixels@.len() == self.pixels.len());
                        }
                        let p = self.pixels[y * self.width + x];
                        let ghost before = out@;
                        out.push(p.0);
                        out.push(p.1);
                        out.push(p.2);
                        out.push(u8::MAX);
                        proof {
                            let first = 4 * (row * line + col);
                            assert(me.scaled(scale as nat, col, row) == p);
                            assert forall|j: int| 0 <= j < out@.len() implies out@[j] == me.byte_at(
                                scale as nat,
                                j,
                            ) by {
                                if j >= first {
                                    assert(j / 4 == row * line + col);
                                    assert(j % 4 == j - first);
                                } else {
                                    assert(out@[j] == before[j]);
                                }
                            }
                            col = col + 1;
                        }
                        sx += 1;
                    }
                    proof {
                        assert((x + 1) * scale == x * scale + scale) by (nonlinear_arith);
                    }
                    x += 1;
                }
                proof {
                    assert(col == line) by (nonlinear_arith)
                        requires
                            col == x * scale,
                            x == self.width,
                            line == scale * self.width,
                    ;
                    assert((row + 1) * line == row * line + line) by (nonlinear_arith);
                    row = row + 1;
                }
                sy += 1;
            }
            proof {
                assert((y + 1) * scale == y * scale + scale) by (nonlinear_arith);
            }
            y += 1;
        }
        proof {
            assert(row * line == (scale * self.height) * (scale * self.width)) by (nonlinear_arith)
                requires
                    row == y * scale,
                    y == self.height,
                    line == scale * self.width,
            ;
            assert(out@ =~= me.bytes(scale as nat));
        }
        out
    }

    /// Width of the image at the given scale.
    pub fn scaled_width(&self, scale: usize) -> (w: usize)
        requires
            scale * self@.width <= usize::MAX,
        ensures
            w == scale * self@.width,
    {
        scale * self.width
    }

    /// Height of the image at the given scale.
    pub fn scaled_height(&self, scale: usize) -> (h: usize)
        requires
            scale * self@.height <= usize::MAX,
        ensures
            h == scale * self@.height,
    {
        scale * self.height
    }
}

} // verus!
