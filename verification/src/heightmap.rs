//! The heightmap grid and its byte format.
//!
//! A heightmap is a rectangular grid of 64-bit elevation samples with a
//! world offset and a cell size, all carried as bit patterns. The byte
//! form is the three header fields, then the two grid dimensions, then
//! the cells row by row (all little-endian, a row being the samples of
//! one `y` line in order of `x`).

use vstd::prelude::*;

use crate::bytes::{
    lemma_u64_le_round_trip, push_u64_le, read_u64_le, u64_from_le, u64_le_bytes,
};

verus! {

/// A rectangular grid of 64-bit samples, stored row-major: the sample
/// at `(x, y)` sits at index `y * width + x`.
#[derive(Debug, Clone, PartialEq, Eq)]
pub struct Grid {
    width: usize,
    height: usize,
    cells: Vec<u64>,
}

impl Grid {
    /// The cells hold exactly one sample per grid position, and the
    /// cell count fits the platform word.
    pub closed spec fn wf(self) -> bool {
        &&& self.cells@.len() == self.width * self.height
        &&& self.width * self.height <= usize::MAX
    }

    /// The grid width in cells.
    pub closed spec fn spec_width(self) -> usize {
        self.width
    }

    /// The grid height in cells.
    pub closed spec fn spec_height(self) -> usize {
        self.height
    }

    /// The sample at a grid position.
    pub closed spec fn cell(self, x: int, y: int) -> u64
        recommends
            0 <= x < self.spec_width(),
            0 <= y < self.spec_height(),
    {
        self.cells@[y * self.width + x]
    }

    /// The flat row-major cell sequence.
    pub closed spec fn cell_seq(self) -> Seq<u64> {
        self.cells@
    }

    /// A grid filled with one sample.
    pub fn new(width: usize, height: usize, value: u64) -> (g: Grid)
        requires
            width * height <= usize::MAX,
        ensures
            g.wf(),
            g.spec_width() == width,
            g.spec_height() == height,
            g.cell_seq() == Seq::new((width * height) as nat, |i: int| value),
    {
        let n = width.checked_mul(height).unwrap();
        let mut cells: Vec<u64> = Vec::new();
        let mut i: usize = 0;
        while i < n
            invariant
                i <= n,
                cells@.len() == i,
                cells@ =~= Seq::new(i as nat, |j: int| value),
            decreases n - i,
        {
            cells.push(value);
            proof {
                assert(cells@ =~= Seq::new((i + 1) as nat, |j: int| value));
            }
            i = i + 1;
        }
        Grid { width, height, cells }
    }

    pub fn width(&self) -> (w: usize)
        ensures
            w == self.spec_width(),
    {
        self.width
    }

    pub fn height(&self) -> (h: usize)
        ensures
            h == self.spec_height(),
    {
        self.height
    }

    /// The sample at `(x, y)`.
    pub fn get(&self, x: usize, y: usize) -> (v: u64)
        requires
            self.wf(),
            x < self.spec_width(),
            y < self.spec_height(),
        ensures
            v == self.cell(x as int, y as int),
    {
        proof {
            lemma_row_major_index(self.width as int, self.height as int, x as int, y as int);
        }
        self.cells[y * self.width + x]
    }

    /// Replace the sample at `(x, y)`.
    pub fn set(&mut self, x: usize, y: usize, v: u64)
        requires
            old(self).wf(),
            x < old(self).spec_width(),
            y < old(self).spec_height(),
        ensures
            final(self).wf(),
            final(self).spec_width() == old(self).spec_width(),
            final(self).spec_height() == old(self).spec_height(),
            final(self).cell_seq() == old(self).cell_seq().update(
                y * old(self).spec_width() + x,
                v,
            ),
            final(self).cell(x as int, y as int) == v,
    {
        proof {
            lemma_row_major_index(self.width as int, self.height as int, x as int, y as int);
        }
        let i = y * self.width + x;
        self.cells.set(i, v);
    }
}

/// A row-major index lies inside the cell buffer.
pub proof fn lemma_row_major_index(w: int, h: int, x: int, y: int)
    requires
        0 <= x < w,
        0 <= y < h,
    ensures
        0 <= y * w + x < w * h,
{
    assert(y * w + x < w * h) by (nonlinear_arith)
        requires
            0 <= x < w,
            0 <= y < h,
    ;
    assert(0 <= y * w) by (nonlinear_arith)
        requires
            0 <= y,
            0 < w,
    ;
}

/// Simple container of a rectangular heightmap. The offsets and the
/// scale are 64-bit patterns; cell `(x, y)` samples the world point
/// `(xoffset + x * scale, yoffset + y * scale)`.
#[derive(Debug, Clone, PartialEq, Eq)]
pub struct HeightMap {
    /// Offset to add to the x-component to get the world coordinate.
    pub xoffset: u64,
    /// Offset to add to the y-component to get the world coordinate.
    pub yoffset: u64,
    /// World size of one grid cell.
    pub scale: u64,
    /// The actual grid data.
    pub grid: Grid,
}

/// The cells of a flat sample sequence, eight bytes each.
pub open spec fn cells_bytes(s: Seq<u64>) -> Seq<u8>
    decreases s.len(),
{
    if s.len() == 0 {
        Seq::<u8>::empty()
    } else {
        u64_le_bytes(s[0]) + cells_bytes(s.drop_first())
    }
}

/// The byte form of a heightmap: offsets and scale, the dimensions,
/// then the cells.
pub open spec fn heightmap_bytes(h: HeightMap) -> Seq<u8> {
    u64_le_bytes(h.xoffset) + u64_le_bytes(h.yoffset) + u64_le_bytes(h.scale) + u64_le_bytes(
        h.grid.spec_width() as u64,
    ) + u64_le_bytes(h.grid.spec_height() as u64) + cells_bytes(h.grid.cell_seq())
}

/// The samples read back from `n` cells starting at `start`.
pub open spec fn parse_cells(bytes: Seq<u8>, start: int, n: nat) -> Seq<u64>
    decreases n,
{
    if n == 0 {
        Seq::<u64>::empty()
    } else {
        seq![u64_from_le(bytes.subrange(start, start + 8))] + parse_cells(
            bytes,
            start + 8,
            (n - 1) as nat,
        )
    }
}

/// The grid width advertised by a heightmap's byte form.
pub open spec fn parse_width(bytes: Seq<u8>) -> u64 {
    u64_from_le(bytes.subrange(24, 32))
}

/// The grid height advertised by a heightmap's byte form.
pub open spec fn parse_height(bytes: Seq<u8>) -> u64 {
    u64_from_le(bytes.subrange(32, 40))
}

/// Whether a byte sequence is a whole heightmap: long enough for the
/// header, dimensions that fit the platform word, and a byte count that
/// matches the dimensions exactly.
pub open spec fn parse_heightmap_ok(bytes: Seq<u8>) -> bool {
    &&& bytes.len() >= 40
    &&& parse_width(bytes) <= usize::MAX
    &&& parse_height(bytes) <= usize::MAX
    &&& parse_width(bytes) * parse_height(bytes) <= usize::MAX
    &&& bytes.len() == 40 + 8 * (parse_width(bytes) * parse_height(bytes))
}

/// Whether a heightmap is the one a byte sequence encodes.
pub open spec fn heightmap_matches(bytes: Seq<u8>, h: HeightMap) -> bool {
    &&& h.xoffset == u64_from_le(bytes.subrange(0, 8))
    &&& h.yoffset == u64_from_le(bytes.subrange(8, 16))
    &&& h.scale == u64_from_le(bytes.subrange(16, 24))
    &&& h.grid.spec_width() == parse_width(bytes)
    &&& h.grid.spec_height() == parse_height(bytes)
    &&& h.grid.cell_seq() == parse_cells(bytes, 40, (parse_width(bytes) * parse_height(
        bytes,
    )) as nat)
}

/// Cells concatenate sample by sample.
pub proof fn lemma_cells_bytes_push(s: Seq<u64>, v: u64)
    ensures
        cells_bytes(s.push(v)) == cells_bytes(s) + u64_le_bytes(v),
    decreases s.len(),
{
    if s.len() == 0 {
        assert(s.push(v)[0] == v);
        assert(s.push(v).drop_first() =~= Seq::<u64>::empty());
        assert(cells_bytes(Seq::<u64>::empty()) == Seq::<u8>::empty());
        assert(cells_bytes(s.push(v)) == u64_le_bytes(v) + Seq::<u8>::empty());
        assert(cells_bytes(s.push(v)) =~= cells_bytes(s) + u64_le_bytes(v));
    } else {
        assert(s.push(v).drop_first() =~= s.drop_first().push(v));
        lemma_cells_bytes_push(s.drop_first(), v);
        assert(s.push(v)[0] == s[0]);
        assert(cells_bytes(s.push(v)) == u64_le_bytes(s[0]) + (cells_bytes(s.drop_first())
            + u64_le_bytes(v)));
        assert(u64_le_bytes(s[0]) + (cells_bytes(s.drop_first()) + u64_le_bytes(v)) =~= (
        u64_le_bytes(s[0]) + cells_bytes(s.drop_first())) + u64_le_bytes(v));
    }
}

/// The cells of `n` samples hold `8 * n` bytes.
pub proof fn lemma_cells_bytes_len(s: Seq<u64>)
    ensures
        cells_bytes(s).len() == 8 * s.len(),
    decreases s.len(),
{
    if s.len() > 0 {
        lemma_cells_bytes_len(s.drop_first());
    }
}

/// Parsing cells that sit unchanged inside a byte sequence gives back
/// the samples whose cells they are.
pub proof fn lemma_parse_cells_of(bytes: Seq<u8>, start: int, s: Seq<u64>)
    requires
        0 <= start,
        start + 8 * s.len() <= bytes.len(),
        bytes.subrange(start, start + 8 * s.len()) == cells_bytes(s),
    ensures
        parse_cells(bytes, start, s.len()) == s,
    decreases s.len(),
{
    lemma_cells_bytes_len(s);
    if s.len() == 0 {
        assert(parse_cells(bytes, start, 0) =~= s);
    } else {
        let whole = bytes.subrange(start, start + 8 * s.len());
        lemma_cells_bytes_len(s.drop_first());
        assert(bytes.subrange(start, start + 8) =~= u64_le_bytes(s[0])) by {
            assert(forall|i: int|
                0 <= i < 8 ==> #[trigger] bytes.subrange(start, start + 8)[i] == whole[i]);
            assert(forall|i: int| 0 <= i < 8 ==> whole[i] == #[trigger] u64_le_bytes(s[0])[i]);
        }
        lemma_u64_le_round_trip(s[0]);
        assert(bytes.subrange(start + 8, start + 8 + 8 * s.drop_first().len()) =~= cells_bytes(
            s.drop_first(),
        )) by {
            assert(forall|i: int|
                0 <= i < 8 * s.drop_first().len() ==> #[trigger] bytes.subrange(
                    start + 8,
                    start + 8 + 8 * s.drop_first().len(),
                )[i] == whole[i + 8]);
            assert(forall|i: int|
                0 <= i < 8 * s.drop_first().len() ==> #[trigger] cells_bytes(s.drop_first())[i]
                    == whole[i + 8]);
        }
        lemma_parse_cells_of(bytes, start + 8, s.drop_first());
        assert(parse_cells(bytes, start, s.len()) =~= seq![s[0]] + s.drop_first());
        assert(seq![s[0]] + s.drop_first() =~= s);
    }
}

/// The heightmap round-trip: the byte form of any well-formed heightmap
/// is a whole heightmap again, and the heightmap it encodes is the one
/// written.
#[verifier::rlimit(100)]
pub proof fn lemma_heightmap_round_trip(h: HeightMap)
    requires
        h.grid.wf(),
    ensures
        parse_heightmap_ok(heightmap_bytes(h)),
        heightmap_matches(heightmap_bytes(h), h),
{
    let b = heightmap_bytes(h);
    lemma_cells_bytes_len(h.grid.cell_seq());
    assert(b.subrange(0, 8) =~= u64_le_bytes(h.xoffset));
    assert(b.subrange(8, 16) =~= u64_le_bytes(h.yoffset));
    assert(b.subrange(16, 24) =~= u64_le_bytes(h.scale));
    assert(b.subrange(24, 32) =~= u64_le_bytes(h.grid.spec_width() as u64));
    assert(b.subrange(32, 40) =~= u64_le_bytes(h.grid.spec_height() as u64));
    lemma_u64_le_round_trip(h.xoffset);
    lemma_u64_le_round_trip(h.yoffset);
    lemma_u64_le_round_trip(h.scale);
    lemma_u64_le_round_trip(h.grid.spec_width() as u64);
    lemma_u64_le_round_trip(h.grid.spec_height() as u64);
    assert(b.subrange(40, 40 + 8 * h.grid.cell_seq().len() as int) =~= cells_bytes(
        h.grid.cell_seq(),
    ));
    lemma_parse_cells_of(b, 40, h.grid.cell_seq());
    assert(h.grid.spec_width() * h.grid.spec_height() <= usize::MAX) by (nonlinear_arith)
        requires
            h.grid.cell_seq().len() == h.grid.spec_width() * h.grid.spec_height(),
            h.grid.cell_seq().len() <= usize::MAX,
    ;
}

impl HeightMap {
    /// The byte form of this heightmap.
    pub fn to_bytes(&self) -> (out: Vec<u8>)
        requires
            self.grid.wf(),
        ensures
            out@ == heightmap_bytes(*self),
    {
        let mut out: Vec<u8> = Vec::new();
        push_u64_le(&mut out, self.xoffset);
        push_u64_le(&mut out, self.yoffset);
        push_u64_le(&mut out, self.scale);
        push_u64_le(&mut out, self.grid.width() as u64);
        push_u64_le(&mut out, self.grid.height() as u64);
        let prefix = Ghost(out@);
        let n = self.grid.cells.len();
        let mut i: usize = 0;
        while i < n
            invariant
                i <= n,
                n == self.grid.cell_seq().len(),
                out@ == prefix@ + cells_bytes(self.grid.cell_seq().subrange(0, i as int)),
            decreases n - i,
        {
            proof {
                lemma_cells_bytes_push(self.grid.cell_seq().subrange(0, i as int),
                    self.grid.cell_seq()[i as int]);
                assert(self.grid.cell_seq().subrange(0, i + 1)
                    =~= self.grid.cell_seq().subrange(0, i as int).push(
                    self.grid.cell_seq()[i as int],
                ));
            }
            push_u64_le(&mut out, self.grid.cells[i]);
            i = i + 1;
        }
        proof {
            assert(self.grid.cell_seq().subrange(0, n as int) =~= self.grid.cell_seq());
            assert(out@ =~= heightmap_bytes(*self));
        }
        out
    }

    /// Read a heightmap back from its byte form; succeeds exactly on
    /// the byte vectors that are a whole heightmap.
    pub fn from_bytes(data: &Vec<u8>) -> (r: Option<HeightMap>)
        ensures
            (r is Some) == parse_heightmap_ok(data@),
            r matches Some(hm) ==> hm.grid.wf() && heightmap_matches(data@, hm),
    {
        let len = data.len();
        if len < 40 {
            return None;
        }
        let w64 = read_u64_le(data, 24);
        let h64 = read_u64_le(data, 32);
        if w64 > usize::MAX as u64 || h64 > usize::MAX as u64 {
            return None;
        }
        let w = w64 as usize;
        let h = h64 as usize;
        let n = match w.checked_mul(h) {
            Some(n) => n,
            None => {
                proof {
                    assert(w64 * h64 > usize::MAX) by (nonlinear_arith)
                        requires
                            w64 == w,
                            h64 == h,
                            w * h > usize::MAX,
                    ;
                }
                return None;
            },
        };
        // the byte count must match the dimensions exactly
        if !(len >= 40 && n <= (usize::MAX - 40) / 8 && len - 40 == 8 * n) {
            proof {
                assert(data@.len() != 40 + 8 * (w64 * h64)) by (nonlinear_arith)
                    requires
                        w64 == w,
                        h64 == h,
                        w * h == n,
                        data@.len() == len,
                        len >= 40,
                        !(n <= ((usize::MAX - 40) / 8) as int && len - 40 == 8 * n),
                ;
            }
            return None;
        }
        let mut cells: Vec<u64> = Vec::new();
        let mut i: usize = 0;
        while i < n
            invariant
                i <= n,
                data@.len() == 40 + 8 * n,
                data@.len() <= usize::MAX,
                cells@.len() == i,
                cells@ == parse_cells(data@, 40, i as nat),
            decreases n - i,
        {
            let v = read_u64_le(data, 40 + 8 * i);
            proof {
                lemma_parse_cells_snoc(data@, 40, i as nat);
            }
            cells.push(v);
            i = i + 1;
        }
        Some(
            HeightMap {
                xoffset: read_u64_le(data, 0),
                yoffset: read_u64_le(data, 8),
                scale: read_u64_le(data, 16),
                grid: Grid { width: w, height: h, cells },
            },
        )
    }
}

/// Whether a column of the grid holds at least one non-NaN sample.
pub open spec fn col_has_value(g: Grid, x: int) -> bool {
    exists|y: int| 0 <= y < g.spec_height() && !crate::fbits::f64_is_nan(#[trigger] g.cell(x, y))
}

/// Fill the leftover NaN samples of a column: walk down copying the
/// sample above, then up copying the sample below. Afterwards a
/// column with any sample has no NaN left; samples that were present
/// are untouched.
fn fill_vec_carry(v: &mut Vec<u64>)
    ensures
        final(v)@.len() == old(v)@.len(),
        (exists|i: int|
            0 <= i < old(v)@.len() && !crate::fbits::f64_is_nan(#[trigger] old(v)@[i])) ==> (forall|
            j: int|
            0 <= j < final(v)@.len() ==> !crate::fbits::f64_is_nan(#[trigger] final(v)@[j])),
        forall|j: int|
            0 <= j < old(v)@.len() && !crate::fbits::f64_is_nan(#[trigger] old(v)@[j])
                ==> final(v)@[j] == old(v)@[j],
{
    let n = v.len();
    if n == 0 {
        return ;
    }
    let mut i: usize = 1;
    while i < n
        invariant
            n == v@.len(),
            1 <= i <= n,
            forall|j: int|
                0 <= j < n && !crate::fbits::f64_is_nan(#[trigger] old(v)@[j]) ==> v@[j] == old(
                    v,
                )@[j],
            forall|j: int|
                0 <= j < i ==> (!crate::fbits::f64_is_nan(#[trigger] v@[j]) <==> exists|k: int|
                    0 <= k <= j && !crate::fbits::f64_is_nan(#[trigger] old(v)@[k])),
            forall|j: int| i <= j < n ==> #[trigger] v@[j] == old(v)@[j],
        decreases n - i,
    {
        if crate::fbits::f64_bits_is_nan(v[i]) {
            let above = v[i - 1];
            v.set(i, above);
        }
        i = i + 1;
    }
    // downward done: a sample at j is present exactly when the column
    // had one at or above j; now carry upward from the bottom
    let mut k: usize = n - 1;
    while k > 0
        invariant
            n == v@.len(),
            0 <= k <= n - 1,
            forall|j: int|
                0 <= j < n && !crate::fbits::f64_is_nan(#[trigger] old(v)@[j]) ==> v@[j] == old(
                    v,
                )@[j],
            forall|j: int|
                0 <= j < n ==> ((exists|m: int|
                    0 <= m <= j && !crate::fbits::f64_is_nan(#[trigger] old(v)@[m]))
                    ==> !crate::fbits::f64_is_nan(#[trigger] v@[j])),
            forall|j: int|
                k <= j < n ==> ((exists|m: int|
                    0 <= m < n && !crate::fbits::f64_is_nan(#[trigger] old(v)@[m]))
                    ==> !crate::fbits::f64_is_nan(#[trigger] v@[j])),
        decreases k,
    {
        if crate::fbits::f64_bits_is_nan(v[k - 1]) {
            let below = v[k];
            v.set(k - 1, below);
        }
        k = k - 1;
    }
}

impl Grid {
    /// The samples of column `x`, top of the walk first.
    fn read_column(&self, x: usize) -> (col: Vec<u64>)
        requires
            self.wf(),
            x < self.spec_width(),
        ensures
            col@.len() == self.spec_height(),
            forall|y: int| 0 <= y < col@.len() ==> #[trigger] col@[y] == self.cell(x as int, y),
    {
        let h = self.height();
        let mut col: Vec<u64> = Vec::new();
        let mut y: usize = 0;
        while y < h
            invariant
                self.wf(),
                x < self.spec_width(),
                h == self.spec_height(),
                y <= h,
                col@.len() == y,
                forall|j: int| 0 <= j < y ==> #[trigger] col@[j] == self.cell(x as int, j),
            decreases h - y,
        {
            let v = self.get(x, y);
            col.push(v);
            y = y + 1;
        }
        col
    }

    /// Replace the samples of column `x`.
    fn write_column(&mut self, x: usize, col: &Vec<u64>)
        requires
            old(self).wf(),
            x < old(self).spec_width(),
            col@.len() == old(self).spec_height(),
        ensures
            final(self).wf(),
            final(self).spec_width() == old(self).spec_width(),
            final(self).spec_height() == old(self).spec_height(),
            forall|y: int|
                0 <= y < col@.len() ==> final(self).cell(x as int, y) == #[trigger] col@[y],
            forall|x2: int, y2: int|
                0 <= x2 < old(self).spec_width() && 0 <= y2 < old(self).spec_height() && x2 != x
                    ==> final(self).cell(x2, y2) == old(self).cell(x2, y2),
    {
        let h = self.height();
        let mut y: usize = 0;
        while y < h
            invariant
                self.wf(),
                x < self.spec_width(),
                h == self.spec_height(),
                self.spec_width() == old(self).spec_width(),
                self.spec_height() == old(self).spec_height(),
                col@.len() == h,
                y <= h,
                forall|j: int| 0 <= j < y ==> self.cell(x as int, j) == #[trigger] col@[j],
                forall|x2: int, y2: int|
                    0 <= x2 < self.spec_width() && 0 <= y2 < self.spec_height() && (x2 != x || y2
                        >= y) ==> self.cell(x2, y2) == old(self).cell(x2, y2),
            decreases h - y,
        {
            let ghost prev = *self;
            let v = col[y];
            self.set(x, y, v);
            proof {
                let w0 = prev.spec_width() as int;
                let h0 = prev.spec_height() as int;
                assert forall|x2: int, y2: int|
                    0 <= x2 < self.spec_width() && 0 <= y2 < self.spec_height() && (x2 != x || y2
                        != y) implies self.cell(x2, y2) == prev.cell(x2, y2) by {
                    lemma_row_major_distinct(w0, h0, x as int, y as int, x2, y2);
                    lemma_row_major_index(w0, h0, x2, y2);
                    lemma_row_major_index(w0, h0, x as int, y as int);
                    assert(self.cell_seq() == prev.cell_seq().update((y as int) * w0 + x, v));
                    assert(prev.cell_seq().len() == w0 * h0);
                    assert(y2 * w0 + x2 != (y as int) * w0 + x);
                    assert(self.cell_seq()[y2 * w0 + x2] == prev.cell_seq()[y2 * w0 + x2]);
                }
            }
            y = y + 1;
        }
    }

    /// Fill the leftover NaN samples by carrying the nearest sample
    /// down and then up each column. A column with any sample has no
    /// NaN left afterwards; present samples are untouched.
    pub fn fill_carry(&mut self)
        requires
            old(self).wf(),
        ensures
            final(self).wf(),
            final(self).spec_width() == old(self).spec_width(),
            final(self).spec_height() == old(self).spec_height(),
            forall|x: int, y: int|
                0 <= x < old(self).spec_width() && 0 <= y < old(self).spec_height()
                    && col_has_value(*old(self), x) ==> !crate::fbits::f64_is_nan(
                    final(self).cell(x, y),
                ),
            forall|x: int, y: int|
                0 <= x < old(self).spec_width() && 0 <= y < old(self).spec_height()
                    && !crate::fbits::f64_is_nan(old(self).cell(x, y)) ==> final(self).cell(x, y)
                    == old(self).cell(x, y),
    {
        let w = self.width();
        let mut x: usize = 0;
        while x < w
            invariant
                self.wf(),
                w == self.spec_width(),
                self.spec_width() == old(self).spec_width(),
                self.spec_height() == old(self).spec_height(),
                x <= w,
                forall|x2: int, y2: int|
                    0 <= x2 < w && 0 <= y2 < self.spec_height() && x2 >= x ==> self.cell(x2, y2)
                        == old(self).cell(x2, y2),
                forall|x2: int, y2: int|
                    0 <= x2 < x && 0 <= y2 < self.spec_height() && col_has_value(*old(self), x2)
                        ==> !crate::fbits::f64_is_nan(self.cell(x2, y2)),
                forall|x2: int, y2: int|
                    0 <= x2 < w && 0 <= y2 < self.spec_height() && !crate::fbits::f64_is_nan(
                        old(self).cell(x2, y2),
                    ) ==> self.cell(x2, y2) == old(self).cell(x2, y2),
            decreases w - x,
        {
            let mut col = self.read_column(x);
            let ghost precol = col@;
            let ghost h0 = self.spec_height() as int;
            proof {
                assert(forall|y2: int|
                    0 <= y2 < h0 ==> #[trigger] precol[y2] == old(self).cell(x as int, y2));
                if col_has_value(*old(self), x as int) {
                    let y0 = choose|y: int|
                        0 <= y < old(self).spec_height() && !crate::fbits::f64_is_nan(
                            #[trigger] old(self).cell(x as int, y),
                        );
                    assert(precol[y0] == old(self).cell(x as int, y0));
                    assert(0 <= y0 < precol.len() && !crate::fbits::f64_is_nan(precol[y0]));
                }
            }
            fill_vec_carry(&mut col);
            self.write_column(x, &col);
            proof {
                if col_has_value(*old(self), x as int) {
                    assert forall|y2: int|
                        0 <= y2 < h0 implies !crate::fbits::f64_is_nan(
                        self.cell(x as int, y2),
                    ) by {
                        assert(self.cell(x as int, y2) == col@[y2]);
                        assert(!crate::fbits::f64_is_nan(col@[y2]));
                    }
                }
                assert forall|y2: int|
                    0 <= y2 < h0 && !crate::fbits::f64_is_nan(
                        old(self).cell(x as int, y2),
                    ) implies self.cell(x as int, y2) == old(self).cell(x as int, y2) by {
                    assert(precol[y2] == old(self).cell(x as int, y2));
                    assert(col@[y2] == precol[y2]);
                    assert(self.cell(x as int, y2) == col@[y2]);
                }
            }
            x = x + 1;
        }
    }

    /// Whether any sample of the grid is NaN.
    pub fn has_nan(&self) -> (r: bool)
        requires
            self.wf(),
        ensures
            r == exists|x: int, y: int|
                0 <= x < self.spec_width() && 0 <= y < self.spec_height()
                    && crate::fbits::f64_is_nan(#[trigger] self.cell(x, y)),
    {
        let w = self.width();
        let h = self.height();
        let mut x: usize = 0;
        while x < w
            invariant
                self.wf(),
                w == self.spec_width(),
                h == self.spec_height(),
                x <= w,
                forall|x2: int, y2: int|
                    0 <= x2 < x && 0 <= y2 < h ==> !crate::fbits::f64_is_nan(
                        #[trigger] self.cell(x2, y2),
                    ),
            decreases w - x,
        {
            let mut y: usize = 0;
            while y < h
                invariant
                    self.wf(),
                    w == self.spec_width(),
                    h == self.spec_height(),
                    x < w,
                    y <= h,
                    forall|x2: int, y2: int|
                        0 <= x2 < x && 0 <= y2 < h ==> !crate::fbits::f64_is_nan(
                            #[trigger] self.cell(x2, y2),
                        ),
                    forall|y2: int|
                        0 <= y2 < y ==> !crate::fbits::f64_is_nan(
                            #[trigger] self.cell(x as int, y2),
                        ),
                decreases h - y,
            {
                if crate::fbits::f64_bits_is_nan(self.get(x, y)) {
                    return true;
                }
                y = y + 1;
            }
            x = x + 1;
        }
        false
    }
}

/// Distinct grid positions have distinct row-major indices.
pub proof fn lemma_row_major_distinct(w: int, h: int, x: int, y: int, x2: int, y2: int)
    requires
        0 <= x < w,
        0 <= y < h,
        0 <= x2 < w,
        0 <= y2 < h,
        x2 != x || y2 != y,
    ensures
        y2 * w + x2 != y * w + x,
{
    assert(y2 * w + x2 != y * w + x) by (nonlinear_arith)
        requires
            0 <= x < w,
            0 <= y < h,
            0 <= x2 < w,
            0 <= y2 < h,
            x2 != x || y2 != y,
    ;
}

/// Parsing one more cell appends one more sample.
proof fn lemma_parse_cells_snoc(bytes: Seq<u8>, start: int, n: nat)
    ensures
        parse_cells(bytes, start, (n + 1) as nat) == parse_cells(bytes, start, n).push(
            u64_from_le(bytes.subrange(start + 8 * n, start + 8 * n + 8)),
        ),
    decreases n,
{
    if n == 0 {
        assert(parse_cells(bytes, start + 8, 0) == Seq::<u64>::empty());
        assert(parse_cells(bytes, start, 1) =~= parse_cells(bytes, start, 0).push(
            u64_from_le(bytes.subrange(start, start + 8)),
        ));
    } else {
        lemma_parse_cells_snoc(bytes, start + 8, (n - 1) as nat);
        assert(parse_cells(bytes, start, (n + 1) as nat) == seq![
            u64_from_le(bytes.subrange(start, start + 8)),
        ] + parse_cells(bytes, start + 8, n));
        assert(parse_cells(bytes, start, (n + 1) as nat) =~= parse_cells(bytes, start, n).push(
            u64_from_le(bytes.subrange(start + 8 * n, start + 8 * n + 8)),
        ));
    }
}

} // verus!
