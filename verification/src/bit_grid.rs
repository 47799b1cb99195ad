//! Word-packed bit grids and the capability that every bitmap view offers.

use vstd::prelude::*;
use crate::word::{
    bit, bridge, bridge_rule, extent_mask, extent_rule, lemma_and_bit, lemma_is_pack,
    lemma_pack_bit, lemma_set_bit, lemma_zero_bits, pack, set_bit, set_bit_rule, split, BitWidth,
    WIDTH_U,
};

verus! {

/// Number of words that hold `width` columns.
pub open spec fn words_for(width: nat) -> nat {
    (width + 127) / 128
}

/// The mathematical content of a grid: its declared extent and the words of
/// each row.
pub struct Bitmap {
    pub width: nat,
    pub height: nat,
    pub words: Seq<Seq<u128>>,
}

impl Bitmap {
    /// Every row is present and has exactly the words its width needs.
    pub open spec fn wf(self) -> bool {
        &&& self.words.len() == self.height
        &&& forall|y: int| 0 <= y < self.height ==> (#[trigger] self.words[y]).len() == words_for(self.width)
    }

    /// The stored bit at column `x` of row `y`; false outside the stored words.
    /// Columns from `width` up to the end of the last word are stored too.
    pub open spec fn bit(self, x: int, y: int) -> bool {
        &&& 0 <= y < self.height
        &&& 0 <= x < 128 * words_for(self.width)
        &&& bit(self.words[y][x / 128], x % 128)
    }

    /// The grid of the given extent with every stored bit clear.
    pub open spec fn blank(width: nat, height: nat) -> Bitmap {
        Bitmap {
            width,
            height,
            words: Seq::new(height, |y: int| Seq::new(words_for(width), |k: int| 0u128)),
        }
    }

    /// This content with the bit at column `x` of row `y` replaced by `v`.
    pub open spec fn with_bit(self, x: int, y: int, v: bool) -> Bitmap {
        Bitmap {
            words: self.words.update(
                y,
                self.words[y].update(x / 128, set_bit(self.words[y][x / 128], x % 128, v)),
            ),
            ..self
        }
    }

    /// The character that stands for the cell at column `x` of row `y`.
    pub open spec fn mark(self, x: int, y: int) -> char {
        if self.bit(x, y) {
            'x'
        } else {
            '.'
        }
    }

    /// The first `n` characters of the picture of row `y`.
    pub open spec fn marks(self, y: int, n: nat) -> Seq<char> {
        Seq::new(n, |x: int| self.mark(x, y))
    }

    /// The picture of the first `n` rows: for each row one character per
    /// column of the width, then a line feed.
    pub open spec fn picture_of(self, n: nat) -> Seq<char>
        decreases n,
    {
        if n == 0 {
            Seq::empty()
        } else {
            self.picture_of((n - 1) as nat) + self.marks(n - 1, self.width).push('\n')
        }
    }

    /// The picture of the whole grid.
    pub open spec fn picture(self) -> Seq<char> {
        self.picture_of(self.height)
    }

    /// The rule for the bits of a read at column `x` of row `y`.
    pub open spec fn span_rule(self, x: int, y: int) -> spec_fn(int) -> bool {
        |i: int| self.bit(x + i, y)
    }

    /// The 128 stored bits that start at column `x` of row `y`, which need not
    /// be word-aligned.
    pub open spec fn span(self, x: int, y: int) -> u128 {
        pack(self.span_rule(x, y))
    }
}

/// A blank grid has no bit set.
pub proof fn lemma_blank_bits(width: nat, height: nat)
    ensures
        Bitmap::blank(width, height).wf(),
        forall|x: int, y: int| !Bitmap::blank(width, height).bit(x, y),
{
    lemma_zero_bits();
}

/// Replacing one stored bit changes that bit and no other.
pub proof fn lemma_with_bit(m: Bitmap, x: int, y: int, v: bool)
    requires
        m.wf(),
        0 <= y < m.height,
        0 <= x < 128 * words_for(m.width),
    ensures
        m.with_bit(x, y, v).wf(),
        forall|a: int, b: int|
            m.with_bit(x, y, v).bit(a, b) == (if a == x && b == y {
                v
            } else {
                m.bit(a, b)
            }),
{
    let n = m.with_bit(x, y, v);
    assert forall|b: int| 0 <= b < n.height implies (#[trigger] n.words[b]).len() == words_for(
        n.width,
    ) by {
        assert(m.words[b].len() == words_for(m.width));
    }
    assert forall|a: int, b: int|
        n.bit(a, b) == (if a == x && b == y {
            v
        } else {
            m.bit(a, b)
        }) by {
        assert(m.words[y].len() == words_for(m.width));
        if 0 <= b < m.height && 0 <= a < 128 * words_for(m.width) {
            assert(m.words[b].len() == words_for(m.width));
            if b == y && a / 128 == x / 128 {
                lemma_set_bit(m.words[y][x / 128], x % 128, v, a % 128);
            }
        }
    }
}

/// What materializing a view stores: for every row of the view and every
/// word-aligned column inside its width, the word the view yields there.
pub open spec fn snapshot<V: BitView + ?Sized>(view: &V) -> Bitmap {
    Bitmap {
        width: view.cols(),
        height: view.rows(),
        words: Seq::new(
            view.rows(),
            |y: int| Seq::new(words_for(view.cols()), |k: int| view.word(128 * k, y)),
        ),
    }
}

/// A read-only bitmap that answers word reads at any column and row.
pub trait BitView {
    /// The view and everything it borrows are in a valid state.
    spec fn wf(&self) -> bool;

    /// Logical width in columns.
    spec fn cols(&self) -> nat;

    /// Logical height in rows.
    spec fn rows(&self) -> nat;

    /// The word that a read at column `x` of row `y` yields.
    spec fn word(&self, x: int, y: int) -> u128;

    /// Reads the 128 bits that start at column `x` of row `y`.
    fn get_backing(&self, x: isize, y: isize) -> (w: BitWidth)
        requires
            self.wf(),
        ensures
            w == self.word(x as int, y as int),
    ;

    fn width(&self) -> (w: usize)
        requires
            self.wf(),
        ensures
            w == self.cols(),
            w <= isize::MAX,
    ;

    fn height(&self) -> (h: usize)
        requires
            self.wf(),
        ensures
            h == self.rows(),
            h <= isize::MAX,
    ;
}

/// The bit at column `x` of the aligned word that `view` yields for row `y`,
/// whether or not the column lies inside the view's width.
pub open spec fn raw_cell<V: BitView + ?Sized>(view: &V, x: int, y: int) -> bool {
    bit(view.word(128 * (x / 128), y), x % 128)
}

/// The bit that `view` shows at column `x` of row `y`: the bit of its aligned
/// word there, and false outside its extent.
pub open spec fn cell<V: BitView + ?Sized>(view: &V, x: int, y: int) -> bool {
    &&& 0 <= x < view.cols()
    &&& 0 <= y < view.rows()
    &&& raw_cell(view, x, y)
}

/// The rule for the bits of `visible`.
pub open spec fn cell_rule<V: BitView + ?Sized>(view: &V, x: int, y: int) -> spec_fn(int) -> bool {
    |i: int| cell(view, x + i, y)
}

/// The 128 cells of `view` that start at column `x` of row `y`, which need not
/// be word-aligned.
pub open spec fn visible<V: BitView + ?Sized>(view: &V, x: int, y: int) -> u128 {
    pack(cell_rule(view, x, y))
}

/// A view shows nothing outside its extent: every bit of its aligned words
/// that lies beyond its width or height is clear.
pub open spec fn clean<V: BitView + ?Sized>(view: &V) -> bool {
    forall|x: int, y: int| #[trigger] raw_cell(view, x, y) ==> 0 <= x < view.cols() && 0 <= y < view.rows()
}

/// Reads the 128 cells of `view` that start at column `x` of row `y`. The
/// view is asked for word-aligned columns only: the word that holds column
/// `x` and, where `x` is not aligned, the word after it. The two are bridged
/// and what lies outside the view's extent is masked off.
pub fn read_visible<V: BitView + ?Sized>(view: &V, x: i128, y: i128) -> (w: BitWidth)
    requires
        view.wf(),
        -0x1_0000_0000_0000_0000_0000 < x < 0x1_0000_0000_0000_0000_0000,
    ensures
        w == visible(view, x as int, y as int),
{
    let ghost rule = cell_rule(view, x as int, y as int);
    let width = view.width();
    let height = view.height();
    if y < 0 || y >= height as i128 || x <= -128 || x >= width as i128 {
        proof {
            lemma_zero_bits();
            lemma_is_pack(0u128, rule);
        }
        return 0;
    }
    let (base, rem) = split(x);
    let lo = if base >= 0 {
        view.get_backing(base as isize, y as isize)
    } else {
        0
    };
    let hi = if rem != 0 && base + 128 < width as i128 {
        view.get_backing((base + 128) as isize, y as isize)
    } else {
        0
    };
    let raw = bridge(lo, hi, rem);
    let mask = extent_mask(x, width);
    let w = raw & mask;
    proof {
        lemma_zero_bits();
        assert forall|i: int| 0 <= i < 128 implies bit(w, i) == rule(i) by {
            lemma_and_bit(raw, mask, i);
            lemma_pack_bit(bridge_rule(lo, hi, rem as int), i);
            lemma_pack_bit(extent_rule(x as int, width as int), i);
            let c = x + i;
            if 0 <= c < width {
                if i + rem < 128 {
                    assert(128 * (c / 128) == base && c % 128 == i + rem);
                } else {
                    assert(128 * (c / 128) == base + 128 && c % 128 == i + rem - 128);
                }
            }
        }
        lemma_is_pack(w, rule);
    }
    w
}

/// The stored bits of a snapshot are the bits of the view's aligned words,
/// for the rows of the view and the columns of the words that hold its width.
pub proof fn lemma_snapshot_bit<V: BitView + ?Sized>(view: &V, x: int, y: int)
    ensures
        snapshot(view).wf(),
        snapshot(view).bit(x, y) == (0 <= y < view.rows() && 0 <= x < 128 * words_for(view.cols())
            && raw_cell(view, x, y)),
{
}

/// A rectangular grid of bits, each row packed into 128-bit words.
pub struct BitGrid {
    backing: Vec<Vec<BitWidth>>,
    width: usize,
    height: usize,
}

impl View for BitGrid {
    type V = Bitmap;

    closed spec fn view(&self) -> Bitmap {
        Bitmap {
            width: self.width as nat,
            height: self.height as nat,
            words: Seq::new(self.backing@.len(), |y: int| self.backing@[y]@),
        }
    }
}

fn word_in_row(row: &Vec<BitWidth>, base: i128) -> (w: BitWidth)
    requires
        base % 128 == 0,
    ensures
        w == (if 0 <= base / 128 < row@.len() {
            row@[base / 128]
        } else {
            0
        }),
{
    if base < 0 {
        0
    } else {
        let k = (base as u128) / 128;
        if k < row.len() as u128 {
            row[k as usize]
        } else {
            0
        }
    }
}

impl BitGrid {
    /// The stored rows match the declared extent, which signed coordinates
    /// can address.
    pub closed spec fn wf(&self) -> bool {
        &&& self@.wf()
        &&& self.width <= isize::MAX
        &&& self.height <= isize::MAX
    }
}

impl BitGrid {
    /// Allocates a grid of the given extent with all bits false.
    pub fn new(width: usize, height: usize) -> (g: BitGrid)
        requires
            width <= isize::MAX,
            height <= isize::MAX,
        ensures
            g.wf(),
            g@ == Bitmap::blank(width as nat, height as nat),
            forall|x: int, y: int| !g@.bit(x, y),
    {
        let count = width / WIDTH_U + (if width % WIDTH_U == 0 { 0 } else { 1 });
        let mut backing: Vec<Vec<BitWidth>> = Vec::new();
        let mut y: usize = 0;
        while y < height
            invariant
                y <= height,
                count == words_for(width as nat),
                backing@.len() == y,
                forall|j: int| 0 <= j < y ==> (#[trigger] backing@[j])@ == Seq::new(count as nat, |k: int| 0u128),
            decreases height - y,
        {
            let mut line: Vec<BitWidth> = Vec::new();
            let mut k: usize = 0;
            while k < count
                invariant
                    k <= count,
                    line@ == Seq::new(k as nat, |k: int| 0u128),
                decreases count - k,
            {
                line.push(0);
                k += 1;
                assert(line@ =~= Seq::new(k as nat, |k: int| 0u128));
            }
            backing.push(line);
            y += 1;
        }
        let g = BitGrid { backing, width, height };
        proof {
            assert(g@.words =~~= Bitmap::blank(width as nat, height as nat).words);
            lemma_blank_bits(width as nat, height as nat);
        }
        g
    }

    /// Reads the bit at column `x` of row `y`.
    pub fn get(&self, x: usize, y: usize) -> (b: bool)
        requires
            self.wf(),
            x < self@.width,
            y < self@.height,
        ensures
            b == self@.bit(x as int, y as int),
    {
        assert(self@.words[y as int] == self.backing@[y as int]@);
        assert(self@.words[y as int].len() == words_for(self@.width));
        let w = self.backing[y][x / WIDTH_U];
        let i = (x % WIDTH_U) as u128;
        (w >> i) & 1 == 1
    }

    /// Writes `v` to the bit at column `x` of row `y` and leaves every other
    /// bit as it was.
    pub fn set(&mut self, x: usize, y: usize, v: bool)
        requires
            old(self).wf(),
            x < old(self)@.width,
            y < old(self)@.height,
        ensures
            final(self).wf(),
            final(self)@ == old(self)@.with_bit(x as int, y as int, v),
            forall|a: int, b: int|
                final(self)@.bit(a, b) == (if a == x && b == y {
                    v
                } else {
                    old(self)@.bit(a, b)
                }),
    {
        assert(self@.words[y as int] == self.backing@[y as int]@);
        assert(self@.words[y as int].len() == words_for(self@.width));
        let k = x / WIDTH_U;
        let i = (x % WIDTH_U) as u128;
        let w = self.backing[y][k];
        let changed = if v {
            w | (1u128 << i)
        } else {
            w & !(1u128 << i)
        };
        proof {
            lemma_set_bit_value(w, i, v, changed);
        }
        self.backing[y][k] = changed;
        proof {
            assert(self@.words =~~= old(self)@.with_bit(x as int, y as int, v).words);
            lemma_with_bit(old(self)@, x as int, y as int, v);
        }
    }

    /// Draws the grid as text: `x` for a set cell and `.` for a clear one,
    /// each row ended by a line feed.
    pub fn render(&self) -> (out: String)
        requires
            self.wf(),
        ensures
            out@ == self@.picture(),
    {
        let mut out = String::new();
        let mut y: usize = 0;
        while y < self.height
            invariant
                self.wf(),
                y <= self.height,
                out@ == self@.picture_of(y as nat),
            decreases self.height - y,
        {
            let ghost before = out@;
            let mut x: usize = 0;
            while x < self.width
                invariant
                    self.wf(),
                    y < self.height,
                    x <= self.width,
                    out@ == before + self@.marks(y as int, x as nat),
                decreases self.width - x,
            {
                let c = if self.get(x, y) {
                    'x'
                } else {
                    '.'
                };
                out.push(c);
                x += 1;
                assert(out@ =~= before + self@.marks(y as int, x as nat));
            }
            out.push('\n');
            y += 1;
            assert(out@ =~= self@.picture_of(y as nat));
        }
        out
    }

    /// Materializes a view: reads every word of its extent once and stores
    /// the result in a new grid that owns its storage.
    pub fn from_view<V: BitView + ?Sized>(view: &V) -> (g: BitGrid)
        requires
            view.wf(),
        ensures
            g.wf(),
            g@ == snapshot(view),
    {
        let width = view.width();
        let height = view.height();
        let count = width / WIDTH_U + (if width % WIDTH_U == 0 { 0 } else { 1 });
        let mut backing: Vec<Vec<BitWidth>> = Vec::new();
        let mut y: usize = 0;
        while y < height
            invariant
                view.wf(),
                y <= height,
                height == view.rows(),
                width == view.cols(),
                width <= isize::MAX,
                height <= isize::MAX,
                count == words_for(width as nat),
                backing@.len() == y,
                forall|j: int| 0 <= j < y ==> (#[trigger] backing@[j])@ == Seq::new(
                    count as nat,
                    |k: int| view.word(128 * k, j),
                ),
            decreases height - y,
        {
            let mut line: Vec<BitWidth> = Vec::new();
            let mut k: usize = 0;
            while k < count
                invariant
                    view.wf(),
                    k <= count,
                    y < height,
                    height <= isize::MAX,
                    width <= isize::MAX,
                    count == words_for(width as nat),
                    line@ == Seq::new(k as nat, |k: int| view.word(128 * k, y as int)),
                decreases count - k,
            {
                line.push(view.get_backing((k * WIDTH_U) as isize, y as isize));
                k += 1;
                assert(line@ =~= Seq::new(k as nat, |k: int| view.word(128 * k, y as int)));
            }
            backing.push(line);
            y += 1;
        }
        let g = BitGrid { backing, width, height };
        proof {
            assert(g@.words =~~= snapshot(view).words);
        }
        g
    }
}

impl BitGrid {
    /// Read at a word-aligned column inside the stored words, a grid yields
    /// the stored word itself.
    pub proof fn lemma_aligned_word(&self, k: int, y: int)
        requires
            self.wf(),
            0 <= y < self@.height,
            0 <= k < words_for(self@.width),
        ensures
            self.word(128 * k, y) == self@.words[y][k],
    {
        let stored = self@.words[y][k];
        assert(self@.words[y].len() == words_for(self@.width));
        assert forall|i: int| 0 <= i < 128 implies bit(stored, i) == self@.span_rule(128 * k, y)(i) by {
            assert((128 * k + i) / 128 == k && (128 * k + i) % 128 == i);
        }
        lemma_is_pack(stored, self@.span_rule(128 * k, y));
    }

    /// A valid grid has valid content.
    pub proof fn lemma_view_is_wf(&self)
        requires
            self.wf(),
        ensures
            self@.wf(),
            self@.width <= isize::MAX,
            self@.height <= isize::MAX,
    {
    }

    /// The bit of a grid's aligned word at any column is the stored bit.
    pub proof fn lemma_raw_cell(&self, x: int, y: int)
        requires
            self.wf(),
        ensures
            raw_cell(self, x, y) == self@.bit(x, y),
    {
        lemma_pack_bit(self@.span_rule(128 * (x / 128), y), x % 128);
    }
}

impl Clone for BitGrid {
    /// An independent grid with the same content.
    fn clone(&self) -> (copy: Self)
        ensures
            copy@ == self@,
            copy.wf() == self.wf(),
    {
        let mut backing: Vec<Vec<BitWidth>> = Vec::new();
        let mut y: usize = 0;
        while y < self.backing.len()
            invariant
                y <= self.backing@.len(),
                backing@.len() == y,
                forall|j: int| 0 <= j < y ==> (#[trigger] backing@[j])@ == self.backing@[j]@,
            decreases self.backing@.len() - y,
        {
            let line = self.backing[y].clone();
            assert(line@ =~= self.backing@[y as int]@);
            backing.push(line);
            y += 1;
        }
        let copy = BitGrid { backing, width: self.width, height: self.height };
        proof {
            assert(copy@.words =~~= self@.words);
        }
        copy
    }
}

proof fn lemma_set_bit_value(w: u128, i: u128, v: bool, changed: u128)
    requires
        i < 128,
        changed == (if v {
            w | (1u128 << i)
        } else {
            w & !(1u128 << i)
        }),
    ensures
        changed == set_bit(w, i as int, v),
{
    let p = set_bit_rule(w, i as int, v);
    assert forall|j: int| 0 <= j < 128 implies bit(changed, j) == p(j) by {
        let ju = j as u128;
        assert(((changed >> ju) & 1 == 1) == (if ju == i { v } else { (w >> ju) & 1 == 1 }))
            by (bit_vector)
            requires
                i < 128,
                ju < 128,
                changed == (if v {
                    w | (1u128 << i)
                } else {
                    w & !(1u128 << i)
                }),
        ;
    }
    lemma_is_pack(changed, p);
}

impl BitView for BitGrid {
    open spec fn wf(&self) -> bool {
        BitGrid::wf(self)
    }

    open spec fn cols(&self) -> nat {
        self@.width
    }

    open spec fn rows(&self) -> nat {
        self@.height
    }

    open spec fn word(&self, x: int, y: int) -> u128 {
        self@.span(x, y)
    }

    fn get_backing(&self, x: isize, y: isize) -> (w: BitWidth) {
        let ghost p = self@.span_rule(x as int, y as int);
        if y < 0 || y as usize >= self.height {
            proof {
                lemma_zero_bits();
                lemma_is_pack(0u128, p);
            }
            return 0;
        }
        let (base, rem) = split(x as i128);
        let row = &self.backing[y as usize];
        let lo = word_in_row(row, base);
        let hi = word_in_row(row, base + 128);
        let w = bridge(lo, hi, rem);
        proof {
            lemma_zero_bits();
            assert(self@.words[y as int] == row@);
            assert(row@.len() == words_for(self@.width));
            assert forall|i: int| 0 <= i < 128 implies bit(w, i) == p(i) by {
                lemma_pack_bit(bridge_rule(lo, hi, rem as int), i);
                let c = x + i;
                if i + rem < 128 {
                    assert(c / 128 == base / 128 && c % 128 == i + rem);
                } else {
                    assert(c / 128 == (base + 128) / 128 && c % 128 == i + rem - 128);
                }
            }
            lemma_is_pack(w, p);
        }
        w
    }

    fn width(&self) -> (w: usize) {
        self.width
    }

    fn height(&self) -> (h: usize) {
        self.height
    }
}

} // verus!
