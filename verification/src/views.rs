//! Lazy views over bitmaps: shifting, shifting with wrap-around, cropping
//! and word-wise combination. A view borrows what it reads and stores nothing.

use vstd::prelude::*;
use crate::bit_grid::{cell, cell_rule, clean, raw_cell, read_visible, BitView};
use crate::word::{
    bit, extent_mask, extent_rule, floor_mod, lemma_and_bit, lemma_and_not_bit, lemma_is_pack,
    lemma_or_bit, lemma_pack_bit, lemma_xor_bit, lemma_zero_bits, pack, BitWidth,
};

verus! {

/// A view moved by a signed offset: what the operand shows at `(x, y)`
/// appears at `(x + dx, y + dy)`. Nothing wraps; what leaves the extent is
/// lost and what enters is blank.
pub struct Shifted<'grid, T> where T: BitView {
    view: &'grid T,
    x: isize,
    y: isize,
}

impl<'grid, T> Shifted<'grid, T> where T: BitView {
    /// The view that is shifted.
    pub closed spec fn operand(&self) -> &T {
        self.view
    }

    /// Horizontal offset.
    pub closed spec fn dx(&self) -> int {
        self.x as int
    }

    /// Vertical offset.
    pub closed spec fn dy(&self) -> int {
        self.y as int
    }

    /// The bit this view shows at column `x` of row `y`.
    pub open spec fn cell_at(&self, x: int, y: int) -> bool {
        &&& 0 <= x < self.operand().cols()
        &&& 0 <= y < self.operand().rows()
        &&& cell(self.operand(), x - self.dx(), y - self.dy())
    }

    /// The rule for the bits of a word read at column `x` of row `y`.
    pub open spec fn rule(&self, x: int, y: int) -> spec_fn(int) -> bool {
        |i: int| self.cell_at(x + i, y)
    }

    pub fn new(view: &'grid T, x: isize, y: isize) -> (s: Self)
        ensures
            s.operand() == view,
            s.dx() == x,
            s.dy() == y,
    {
        Shifted { view, x, y }
    }
}

impl<T> Shifted<'_, T> where T: BitView {
    /// The bit of this view's aligned word at any column is the cell the
    /// view shows there, so the view shows nothing outside its extent.
    pub proof fn lemma_raw_cell(&self, x: int, y: int)
        ensures
            raw_cell(self, x, y) == self.cell_at(x, y),
    {
        lemma_pack_bit(self.rule(128 * (x / 128), y), x % 128);
    }

    /// This view is clear outside its extent, whatever its operand holds.
    pub proof fn lemma_clean(&self)
        ensures
            clean(self),
    {
        assert forall|x: int, y: int| #[trigger] raw_cell(self, x, y) implies 0 <= x < self.cols()
            && 0 <= y < self.rows() by {
            self.lemma_raw_cell(x, y);
        }
    }
}

impl<T> BitView for Shifted<'_, T> where T: BitView {
    open spec fn wf(&self) -> bool {
        self.operand().wf()
    }

    open spec fn cols(&self) -> nat {
        self.operand().cols()
    }

    open spec fn rows(&self) -> nat {
        self.operand().rows()
    }

    open spec fn word(&self, x: int, y: int) -> u128 {
        pack(self.rule(x, y))
    }

    fn get_backing(&self, x: isize, y: isize) -> (w: BitWidth) {
        let ghost rule = self.rule(x as int, y as int);
        let width = self.view.width();
        if y < 0 || y >= self.view.height() as isize {
            proof {
                lemma_zero_bits();
                lemma_is_pack(0u128, rule);
            }
            return 0;
        }
        let sx = x as i128 - self.x as i128;
        let sy = y as i128 - self.y as i128;
        let found = read_visible(self.view, sx, sy);
        let mask = extent_mask(x as i128, width);
        let w = found & mask;
        proof {
            assert forall|i: int| 0 <= i < 128 implies bit(w, i) == rule(i) by {
                lemma_and_bit(found, mask, i);
                lemma_pack_bit(cell_rule(self.view, sx as int, sy as int), i);
                lemma_pack_bit(extent_rule(x as int, width as int), i);
            }
            lemma_is_pack(w, rule);
        }
        w
    }

    fn width(&self) -> (w: usize) {
        self.view.width()
    }

    fn height(&self) -> (h: usize) {
        self.view.height()
    }
}

/// A view moved by a signed offset on a torus: what leaves one edge of the
/// operand's extent comes back at the opposite edge.
pub struct ShiftedWrap<'grid, T> where T: BitView {
    view: &'grid T,
    x: isize,
    y: isize,
}

impl<'grid, T> ShiftedWrap<'grid, T> where T: BitView {
    /// The view that is shifted.
    pub closed spec fn operand(&self) -> &T {
        self.view
    }

    /// Horizontal offset.
    pub closed spec fn dx(&self) -> int {
        self.x as int
    }

    /// Vertical offset.
    pub closed spec fn dy(&self) -> int {
        self.y as int
    }

    /// The bit this view shows at column `x` of row `y`: the operand's cell
    /// whose coordinates are the un-shifted ones, reduced into the extent.
    pub open spec fn cell_at(&self, x: int, y: int) -> bool {
        &&& 0 <= x < self.operand().cols()
        &&& 0 <= y < self.operand().rows()
        &&& cell(
            self.operand(),
            (x - self.dx()) % (self.operand().cols() as int),
            (y - self.dy()) % (self.operand().rows() as int),
        )
    }

    /// The rule for the bits of a word read at column `x` of row `y`.
    pub open spec fn rule(&self, x: int, y: int) -> spec_fn(int) -> bool {
        |i: int| self.cell_at(x + i, y)
    }

    pub fn new(view: &'grid T, x: isize, y: isize) -> (s: Self)
        ensures
            s.operand() == view,
            s.dx() == x,
            s.dy() == y,
    {
        ShiftedWrap { view, x, y }
    }
}

proof fn lemma_wrap_column(c: int, dx: int, r: int, w: int)
    requires
        w > 0,
        0 <= c < w,
        r == dx % w,
    ensures
        (c - dx) % w == (if c - r >= 0 {
            c - r
        } else {
            c - r + w
        }),
{
    vstd::arithmetic::div_mod::lemma_mod_bound(dx, w);
    vstd::arithmetic::div_mod::lemma_sub_mod_noop_right(c, dx, w);
    if c - r >= 0 {
        vstd::arithmetic::div_mod::lemma_small_mod((c - r) as nat, w as nat);
    } else {
        vstd::arithmetic::div_mod::lemma_mod_add_multiples_vanish(c - r, w);
        vstd::arithmetic::div_mod::lemma_small_mod((c - r + w) as nat, w as nat);
    }
}

impl<T> ShiftedWrap<'_, T> where T: BitView {
    /// The bit of this view's aligned word at any column is the cell the
    /// view shows there, so the view shows nothing outside its extent.
    pub proof fn lemma_raw_cell(&self, x: int, y: int)
        ensures
            raw_cell(self, x, y) == self.cell_at(x, y),
    {
        lemma_pack_bit(self.rule(128 * (x / 128), y), x % 128);
    }

    /// This view is clear outside its extent, whatever its operand holds.
    pub proof fn lemma_clean(&self)
        ensures
            clean(self),
    {
        assert forall|x: int, y: int| #[trigger] raw_cell(self, x, y) implies 0 <= x < self.cols()
            && 0 <= y < self.rows() by {
            self.lemma_raw_cell(x, y);
        }
    }
}

impl<T> BitView for ShiftedWrap<'_, T> where T: BitView {
    open spec fn wf(&self) -> bool {
        self.operand().wf()
    }

    open spec fn cols(&self) -> nat {
        self.operand().cols()
    }

    open spec fn rows(&self) -> nat {
        self.operand().rows()
    }

    open spec fn word(&self, x: int, y: int) -> u128 {
        pack(self.rule(x, y))
    }

    fn get_backing(&self, x: isize, y: isize) -> (w: BitWidth) {
        let ghost rule = self.rule(x as int, y as int);
        let width = self.view.width();
        let height = self.view.height();
        if y < 0 || y >= height as isize || width == 0 {
            proof {
                lemma_zero_bits();
                lemma_is_pack(0u128, rule);
            }
            return 0;
        }
        let turn = floor_mod(self.x as i128, width as i128);
        let sy = floor_mod(y as i128 - self.y as i128, height as i128);
        let sx = x as i128 - turn;
        let near = read_visible(self.view, sx, sy);
        let far = read_visible(self.view, sx + width as i128, sy);
        let mask = extent_mask(x as i128, width);
        let w = (near | far) & mask;
        proof {
            assert forall|i: int| 0 <= i < 128 implies bit(w, i) == rule(i) by {
                lemma_and_bit(near | far, mask, i);
                lemma_or_bit(near, far, i);
                lemma_pack_bit(cell_rule(self.view, sx as int, sy as int), i);
                lemma_pack_bit(
                    cell_rule(self.view, sx + width, sy as int),
                    i,
                );
                lemma_pack_bit(extent_rule(x as int, width as int), i);
                if 0 <= x + i < width {
                    lemma_wrap_column(x + i, self.x as int, turn as int, width as int);
                }
            }
            lemma_is_pack(w, rule);
        }
        w
    }

    fn width(&self) -> (w: usize) {
        self.view.width()
    }

    fn height(&self) -> (h: usize) {
        self.view.height()
    }
}

/// A rectangular cut-out of a view: the window's cell `(x, y)` is the
/// operand's cell `(x + left, y + top)`, and nothing shows outside the
/// window's own width and height.
pub struct Window<'grid, T> where T: BitView {
    view: &'grid T,
    x: isize,
    y: isize,
    width: isize,
    height: isize,
}

impl<'grid, T> Window<'grid, T> where T: BitView {
    /// The view that is cut.
    pub closed spec fn operand(&self) -> &T {
        self.view
    }

    /// Column of the operand at which the window starts.
    pub closed spec fn left(&self) -> int {
        self.x as int
    }

    /// Row of the operand at which the window starts.
    pub closed spec fn top(&self) -> int {
        self.y as int
    }

    /// Declared width of the window, as given.
    pub closed spec fn span_x(&self) -> int {
        self.width as int
    }

    /// Declared height of the window, as given.
    pub closed spec fn span_y(&self) -> int {
        self.height as int
    }

    /// The bit this view shows at column `x` of row `y`.
    pub open spec fn cell_at(&self, x: int, y: int) -> bool {
        &&& 0 <= x < self.span_x()
        &&& 0 <= y < self.span_y()
        &&& cell(self.operand(), x + self.left(), y + self.top())
    }

    /// The rule for the bits of a word read at column `x` of row `y`.
    pub open spec fn rule(&self, x: int, y: int) -> spec_fn(int) -> bool {
        |i: int| self.cell_at(x + i, y)
    }

    pub fn new(view: &'grid T, x: isize, y: isize, width: isize, height: isize) -> (s: Self)
        ensures
            s.operand() == view,
            s.left() == x,
            s.top() == y,
            s.span_x() == width,
            s.span_y() == height,
    {
        Window { view, x, y, width, height }
    }
}

impl<T> Window<'_, T> where T: BitView {
    /// The bit of this view's aligned word at any column is the cell the
    /// view shows there, so the view shows nothing outside its extent.
    pub proof fn lemma_raw_cell(&self, x: int, y: int)
        ensures
            raw_cell(self, x, y) == self.cell_at(x, y),
    {
        lemma_pack_bit(self.rule(128 * (x / 128), y), x % 128);
    }

    /// This view is clear outside its extent, whatever its operand holds.
    pub proof fn lemma_clean(&self)
        ensures
            clean(self),
    {
        assert forall|x: int, y: int| #[trigger] raw_cell(self, x, y) implies 0 <= x < self.cols()
            && 0 <= y < self.rows() by {
            self.lemma_raw_cell(x, y);
        }
    }
}

impl<T> BitView for Window<'_, T> where T: BitView {
    /// A window is usable when its operand is and its extent is not negative.
    open spec fn wf(&self) -> bool {
        &&& self.operand().wf()
        &&& self.span_x() >= 0
        &&& self.span_y() >= 0
    }

    open spec fn cols(&self) -> nat {
        self.span_x() as nat
    }

    open spec fn rows(&self) -> nat {
        self.span_y() as nat
    }

    open spec fn word(&self, x: int, y: int) -> u128 {
        pack(self.rule(x, y))
    }

    fn get_backing(&self, x: isize, y: isize) -> (w: BitWidth) {
        let ghost rule = self.rule(x as int, y as int);
        if y < 0 || y >= self.height {
            proof {
                lemma_zero_bits();
                lemma_is_pack(0u128, rule);
            }
            return 0;
        }
        let sx = x as i128 + self.x as i128;
        let sy = y as i128 + self.y as i128;
        let found = read_visible(self.view, sx, sy);
        let mask = extent_mask(x as i128, self.width as usize);
        let w = found & mask;
        proof {
            assert forall|i: int| 0 <= i < 128 implies bit(w, i) == rule(i) by {
                lemma_and_bit(found, mask, i);
                lemma_pack_bit(cell_rule(self.view, sx as int, sy as int), i);
                lemma_pack_bit(extent_rule(x as int, self.width as int), i);
            }
            lemma_is_pack(w, rule);
        }
        w
    }

    fn width(&self) -> (w: usize) {
        self.width as usize
    }

    fn height(&self) -> (h: usize) {
        self.height as usize
    }
}

/// The larger of two extents.
pub open spec fn larger(a: nat, b: nat) -> nat {
    if a >= b {
        a
    } else {
        b
    }
}

/// The word-wise OR of two views. Its extent covers both operands.
pub struct Or<'grid, Ta, Tb> where Ta: BitView, Tb: BitView {
    a: &'grid Ta,
    b: &'grid Tb,
}

impl<'grid, Ta, Tb> Or<'grid, Ta, Tb> where Ta: BitView, Tb: BitView {
    /// First operand.
    pub closed spec fn first(&self) -> &Ta {
        self.a
    }

    /// Second operand.
    pub closed spec fn second(&self) -> &Tb {
        self.b
    }

    pub fn new(a: &'grid Ta, b: &'grid Tb) -> (s: Self)
        ensures
            s.first() == a,
            s.second() == b,
    {
        Or { a, b }
    }
}

impl<Ta, Tb> Or<'_, Ta, Tb> where Ta: BitView, Tb: BitView {
    /// The bit of this view's aligned word at any column is set when it is
    /// set in the aligned word of either operand.
    pub proof fn lemma_raw_cell(&self, x: int, y: int)
        ensures
            raw_cell(self, x, y) == (raw_cell(self.first(), x, y) || raw_cell(self.second(), x, y)),
    {
        lemma_or_bit(
            self.first().word(128 * (x / 128), y),
            self.second().word(128 * (x / 128), y),
            x % 128,
        );
    }
}

impl<Ta, Tb> BitView for Or<'_, Ta, Tb> where Ta: BitView, Tb: BitView {
    open spec fn wf(&self) -> bool {
        self.first().wf() && self.second().wf()
    }

    open spec fn cols(&self) -> nat {
        larger(self.first().cols(), self.second().cols())
    }

    open spec fn rows(&self) -> nat {
        larger(self.first().rows(), self.second().rows())
    }

    open spec fn word(&self, x: int, y: int) -> u128 {
        self.first().word(x, y) | self.second().word(x, y)
    }

    fn get_backing(&self, x: isize, y: isize) -> (w: BitWidth) {
        self.a.get_backing(x, y) | self.b.get_backing(x, y)
    }

    fn width(&self) -> (w: usize) {
        let wa = self.a.width();
        let wb = self.b.width();
        if wa >= wb {
            wa
        } else {
            wb
        }
    }

    fn height(&self) -> (h: usize) {
        let ha = self.a.height();
        let hb = self.b.height();
        if ha >= hb {
            ha
        } else {
            hb
        }
    }
}

/// An operator on two words, with which `Prim` combines two views.
pub trait WordOp {
    /// The operator can be applied to every pair of words.
    spec fn ready(&self) -> bool;

    /// What the operator makes of the words `a` and `b`.
    spec fn result(&self, a: u128, b: u128) -> u128;

    fn apply(&self, a: BitWidth, b: BitWidth) -> (r: BitWidth)
        requires
            self.ready(),
        ensures
            r == self.result(a, b),
    ;
}

/// The value that the function `f` returns for the words `a` and `b`.
pub open spec fn applied<F: Fn(BitWidth, BitWidth) -> BitWidth>(f: F, a: u128, b: u128) -> u128 {
    choose|r: u128| call_ensures(f, (a, b), r)
}

/// Whether the function `f` accepts every pair of words and determines
/// what it returns for them.
pub open spec fn total<F: Fn(BitWidth, BitWidth) -> BitWidth>(f: F) -> bool {
    &&& forall|a: u128, b: u128| call_requires(f, (a, b))
    &&& forall|a: u128, b: u128, r: u128, s: u128|
        #[trigger] call_ensures(f, (a, b), r) && #[trigger] call_ensures(f, (a, b), s) ==> r == s
}

/// Whether an operator is ready.
pub open spec fn ready_of<Op: WordOp>(op: Op) -> bool {
    op.ready()
}

/// What an operator makes of two words.
pub open spec fn result_of<Op: WordOp>(op: Op, a: u128, b: u128) -> u128 {
    op.result(a, b)
}

/// A function that accepts every pair of words and determines what it
/// returns is an operator that is ready, and what the operator makes of
/// two words is what the function returns for them.
pub proof fn lemma_function_ready<F: Fn(BitWidth, BitWidth) -> BitWidth>(f: F)
    requires
        total(f),
    ensures
        ready_of(f),
        forall|a: u128, b: u128, r: u128| #[trigger]
            call_ensures(f, (a, b), r) ==> result_of(f, a, b) == r,
{
}

/// Every function of two words is an operator, provided that it accepts
/// every pair of words and that its result is determined by them.
impl<F: Fn(BitWidth, BitWidth) -> BitWidth> WordOp for F {
    open spec fn ready(&self) -> bool {
        total(*self)
    }

    open spec fn result(&self, a: u128, b: u128) -> u128 {
        applied(*self, a, b)
    }

    fn apply(&self, a: BitWidth, b: BitWidth) -> (r: BitWidth) {
        let r = self(a, b);
        assert(call_ensures(*self, (a, b), r));
        r
    }
}

/// A function of two words together with what it computes: an operator
/// for callers who know their function.
pub struct Known<F> {
    f: F,
    model: Ghost<spec_fn(u128, u128) -> u128>,
}

impl<F: Fn(BitWidth, BitWidth) -> BitWidth> Known<F> {
    /// The function.
    pub closed spec fn function(&self) -> F {
        self.f
    }

    /// What the function is known to compute.
    pub closed spec fn model(&self) -> spec_fn(u128, u128) -> u128 {
        self.model@
    }

    /// Whether the function accepts every pair of words and returns for
    /// them what it is known to compute.
    pub open spec fn faithful(&self) -> bool {
        &&& forall|a: u128, b: u128| call_requires(self.function(), (a, b))
        &&& forall|a: u128, b: u128, r: u128| #[trigger]
            call_ensures(self.function(), (a, b), r) ==> r == (self.model())(a, b)
    }

    pub fn new(f: F, Ghost(model): Ghost<spec_fn(u128, u128) -> u128>) -> (k: Self)
        ensures
            k.function() == f,
            k.model() == model,
    {
        Known { f, model: Ghost(model) }
    }

    /// A faithful function is an operator that is ready, and what the
    /// operator makes of two words is what the function is known to
    /// compute.
    pub proof fn lemma_known(&self)
        requires
            self.faithful(),
        ensures
            ready_of(*self),
            forall|a: u128, b: u128| #[trigger] result_of(*self, a, b) == (self.model())(a, b),
    {
    }
}

impl<F: Fn(BitWidth, BitWidth) -> BitWidth> WordOp for Known<F> {
    open spec fn ready(&self) -> bool {
        self.faithful()
    }

    open spec fn result(&self, a: u128, b: u128) -> u128 {
        (self.model())(a, b)
    }

    fn apply(&self, a: BitWidth, b: BitWidth) -> (r: BitWidth) {
        assert(self.faithful());
        assert(call_requires(self.function(), (a, b)));
        let r = (self.f)(a, b);
        assert(call_ensures(self.function(), (a, b), r));
        r
    }
}

/// The operator that keeps the bits set in both words.
pub struct And;

impl WordOp for And {
    open spec fn ready(&self) -> bool {
        true
    }

    open spec fn result(&self, a: u128, b: u128) -> u128 {
        a & b
    }

    fn apply(&self, a: BitWidth, b: BitWidth) -> (r: BitWidth) {
        a & b
    }
}

/// The operator that keeps the bits of the first word that are clear in the
/// second.
pub struct AndNot;

impl WordOp for AndNot {
    open spec fn ready(&self) -> bool {
        true
    }

    open spec fn result(&self, a: u128, b: u128) -> u128 {
        a & !b
    }

    fn apply(&self, a: BitWidth, b: BitWidth) -> (r: BitWidth) {
        a & !b
    }
}

/// The operator that keeps the bits set in either word.
pub struct Either;

impl WordOp for Either {
    open spec fn ready(&self) -> bool {
        true
    }

    open spec fn result(&self, a: u128, b: u128) -> u128 {
        a | b
    }

    fn apply(&self, a: BitWidth, b: BitWidth) -> (r: BitWidth) {
        a | b
    }
}

/// The operator that keeps the bits set in one word and clear in the
/// other.
pub struct Xor;

impl WordOp for Xor {
    open spec fn ready(&self) -> bool {
        true
    }

    open spec fn result(&self, a: u128, b: u128) -> u128 {
        a ^ b
    }

    fn apply(&self, a: BitWidth, b: BitWidth) -> (r: BitWidth) {
        a ^ b
    }
}

/// Two views combined word by word with a caller-supplied operator. Its
/// extent covers both operands.
pub struct Prim<'grid, Ta, Tb, Op> where Ta: BitView, Tb: BitView, Op: WordOp {
    a: &'grid Ta,
    b: &'grid Tb,
    prim: Op,
}

impl<'grid, Ta, Tb, Op> Prim<'grid, Ta, Tb, Op> where Ta: BitView, Tb: BitView, Op: WordOp {
    /// First operand.
    pub closed spec fn first(&self) -> &Ta {
        self.a
    }

    /// Second operand.
    pub closed spec fn second(&self) -> &Tb {
        self.b
    }

    /// The operator.
    pub closed spec fn operator(&self) -> Op {
        self.prim
    }

    pub fn new(a: &'grid Ta, b: &'grid Tb, prim: Op) -> (s: Self)
        ensures
            s.first() == a,
            s.second() == b,
            s.operator() == prim,
    {
        Prim { a, b, prim }
    }
}

impl<Ta, Tb, Op> Prim<'_, Ta, Tb, Op> where Ta: BitView, Tb: BitView, Op: WordOp {
    /// What this view is made of, for an operator of any kind: it is valid
    /// where its operands are and its operator is ready, its extent
    /// covers both operands, and each of its words is what the operator
    /// makes of the operands' words.
    pub proof fn lemma_parts(&self)
        ensures
            self.wf() == (self.first().wf() && self.second().wf() && ready_of(self.operator())),
            self.cols() == larger(self.first().cols(), self.second().cols()),
            self.rows() == larger(self.first().rows(), self.second().rows()),
            forall|x: int, y: int| #[trigger]
                self.word(x, y) == result_of(
                    self.operator(),
                    self.first().word(x, y),
                    self.second().word(x, y),
                ),
    {
    }
}

impl<Ta, Tb> Prim<'_, Ta, Tb, And> where Ta: BitView, Tb: BitView {
    /// The bit of this view's aligned word at any column is set when it is
    /// set in the aligned words of both operands.
    pub proof fn lemma_raw_cell(&self, x: int, y: int)
        ensures
            raw_cell(self, x, y) == (raw_cell(self.first(), x, y) && raw_cell(self.second(), x, y)),
    {
        lemma_and_bit(
            self.first().word(128 * (x / 128), y),
            self.second().word(128 * (x / 128), y),
            x % 128,
        );
    }
}

impl<Ta, Tb> Prim<'_, Ta, Tb, AndNot> where Ta: BitView, Tb: BitView {
    /// The bit of this view's aligned word at any column is set when it is
    /// set in the aligned word of the first operand and clear in that of
    /// the second.
    pub proof fn lemma_raw_cell(&self, x: int, y: int)
        ensures
            raw_cell(self, x, y) == (raw_cell(self.first(), x, y) && !raw_cell(self.second(), x, y)),
    {
        lemma_and_not_bit(
            self.first().word(128 * (x / 128), y),
            self.second().word(128 * (x / 128), y),
            x % 128,
        );
    }
}

impl<Ta, Tb> Prim<'_, Ta, Tb, Either> where Ta: BitView, Tb: BitView {
    /// The bit of this view's aligned word at any column is set when it is
    /// set in the aligned word of either operand.
    pub proof fn lemma_raw_cell(&self, x: int, y: int)
        ensures
            raw_cell(self, x, y) == (raw_cell(self.first(), x, y) || raw_cell(self.second(), x, y)),
    {
        lemma_or_bit(
            self.first().word(128 * (x / 128), y),
            self.second().word(128 * (x / 128), y),
            x % 128,
        );
    }
}

impl<Ta, Tb> Prim<'_, Ta, Tb, Xor> where Ta: BitView, Tb: BitView {
    /// The bit of this view's aligned word at any column is set when it is
    /// set in the aligned word of one operand and clear in that of the
    /// other.
    pub proof fn lemma_raw_cell(&self, x: int, y: int)
        ensures
            raw_cell(self, x, y) == (raw_cell(self.first(), x, y) != raw_cell(self.second(), x, y)),
    {
        lemma_xor_bit(
            self.first().word(128 * (x / 128), y),
            self.second().word(128 * (x / 128), y),
            x % 128,
        );
    }
}

impl<Ta, Tb, Op> BitView for Prim<'_, Ta, Tb, Op> where Ta: BitView, Tb: BitView, Op: WordOp {
    open spec fn wf(&self) -> bool {
        &&& self.first().wf()
        &&& self.second().wf()
        &&& self.operator().ready()
    }

    open spec fn cols(&self) -> nat {
        larger(self.first().cols(), self.second().cols())
    }

    open spec fn rows(&self) -> nat {
        larger(self.first().rows(), self.second().rows())
    }

    open spec fn word(&self, x: int, y: int) -> u128 {
        self.operator().result(self.first().word(x, y), self.second().word(x, y))
    }

    fn get_backing(&self, x: isize, y: isize) -> (w: BitWidth) {
        let wa = self.a.get_backing(x, y);
        let wb = self.b.get_backing(x, y);
        self.prim.apply(wa, wb)
    }

    fn width(&self) -> (w: usize) {
        let wa = self.a.width();
        let wb = self.b.width();
        if wa >= wb {
            wa
        } else {
            wb
        }
    }

    fn height(&self) -> (h: usize) {
        let ha = self.a.height();
        let hb = self.b.height();
        if ha >= hb {
            ha
        } else {
            hb
        }
    }
}

} // verus!
