//! The layout of the spectrogram image: which samples feed each column, which
//! frequency bin each row shows, where each column's pixels land in the
//! row-major image, and how the image is delivered progressively in chunks of
//! columns and put back together by the viewer.
//!
//! Pixels are a type parameter: the colours themselves are computed from
//! floating-point magnitudes outside this library.

use vstd::arithmetic::div_mod::{
    lemma_div_by_multiple, lemma_div_is_ordered, lemma_fundamental_div_mod,
    lemma_fundamental_div_mod_converse,
};
use vstd::prelude::*;

verus! {

// ---------------------------------------------------------------------------
// The row-major grid
// ---------------------------------------------------------------------------

proof fn lemma_grid_position(w: int, row: int, x: int)
    requires
        w > 0,
        0 <= x < w,
        row >= 0,
    ensures
        (row * w + x) % w == x,
        (row * w + x) / w == row,
{
    lemma_fundamental_div_mod_converse(row * w + x, w, row, x);
}

proof fn lemma_grid_cell(w: int, h: int, i: int)
    requires
        w > 0,
        h >= 0,
        0 <= i < w * h,
    ensures
        0 <= i % w < w,
        0 <= i / w < h,
        i == (i / w) * w + i % w,
{
    lemma_fundamental_div_mod(i, w);
    let q = i / w;
    let r = i % w;
    assert(0 <= r < w);
    assert(q >= 0) by (nonlinear_arith)
        requires
            i == w * q + r,
            0 <= r < w,
            i >= 0,
            w > 0,
    ;
    assert(q < h) by (nonlinear_arith)
        requires
            i == w * q + r,
            0 <= r < w,
            i < w * h,
            w > 0,
    ;
    assert(w * q == q * w) by (nonlinear_arith);
}

proof fn lemma_grid_index_bound(w: int, h: int, row: int, x: int)
    requires
        0 <= row < h,
        0 <= x < w,
    ensures
        0 <= row * w + x < w * h,
{
    assert(0 <= row * w + x < w * h) by (nonlinear_arith)
        requires
            0 <= row < h,
            0 <= x < w,
    ;
}

// ---------------------------------------------------------------------------
// Images made of columns
// ---------------------------------------------------------------------------

/// The columns of `cols` laid side by side, each one after the other.
pub open spec fn flatten_columns<P>(cols: Seq<Seq<P>>) -> Seq<P>
    decreases cols.len(),
{
    if cols.len() == 0 {
        Seq::empty()
    } else {
        flatten_columns(cols.drop_last()) + cols.last()
    }
}

/// Every column of `cols` holds `h` pixels.
pub open spec fn columns_of_height<P>(cols: Seq<Seq<P>>, h: nat) -> bool {
    forall|k: int| 0 <= k < cols.len() ==> (#[trigger] cols[k]).len() == h
}

/// The row-major `w` by `h` image whose column `x` shows `cols[x]` with its
/// first pixel at the bottom row, and whose columns past the last of `cols`
/// are `blank`.
pub open spec fn picture<P>(cols: Seq<Seq<P>>, w: nat, h: nat, blank: P) -> Seq<P> {
    Seq::new(
        w * h,
        |i: int|
            if i % (w as int) < cols.len() {
                cols[i % (w as int)][h - 1 - i / (w as int)]
            } else {
                blank
            },
    )
}

/// `canvas` (a row-major image `w` wide and `h` high) with the columns of
/// `chunk` painted from column `x_start` on: column `x_start + c` takes
/// `chunk[c * h..(c + 1) * h]`, its first pixel at the bottom row; columns
/// past the right edge are dropped.
pub open spec fn paint_chunk<P>(canvas: Seq<P>, w: nat, h: nat, x_start: nat, chunk: Seq<P>) -> Seq<P> {
    Seq::new(
        canvas.len(),
        |i: int|
            if w > 0 && h > 0 && i < w * h && x_start <= i % (w as int) < x_start + (chunk.len() as int)
                / (h as int) {
                chunk[(i % (w as int) - x_start) * h + (h - 1 - i / (w as int))]
            } else {
                canvas[i]
            },
    )
}

pub proof fn lemma_flatten_columns_index<P>(cols: Seq<Seq<P>>, h: nat)
    requires
        columns_of_height(cols, h),
    ensures
        flatten_columns(cols).len() == cols.len() * h,
        forall|k: int, y: int|
            0 <= k < cols.len() && 0 <= y < h ==> #[trigger] flatten_columns(cols)[k * h + y]
                == #[trigger] cols[k][y],
    decreases cols.len(),
{
    if cols.len() > 0 {
        let n = cols.len();
        let init = cols.drop_last();
        lemma_flatten_columns_index(init, h);
        let f0 = flatten_columns(init);
        assert(f0.len() == (n - 1) * h);
        assert((n - 1) * h + h == n * h) by (nonlinear_arith);
        assert forall|k: int, y: int| 0 <= k < n && 0 <= y < h implies #[trigger] flatten_columns(
            cols,
        )[k * h + y] == #[trigger] cols[k][y] by {
            if k < n - 1 {
                assert(k * h + y < (n - 1) * h) by (nonlinear_arith)
                    requires
                        0 <= k < n - 1,
                        0 <= y < h,
                ;
                assert(init[k] == cols[k]);
            } else {
                assert(k * h == (n - 1) * h);
            }
        }
    }
}

/// Painting, at column `a`, the chunk made of the columns `a..b` onto the
/// image that shows the columns before `a` gives the image that shows the
/// columns before `b`.  So a viewer that starts from a blank image and paints
/// each chunk as it arrives shows, after every chunk, exactly the columns
/// computed so far, and the whole image once the last chunk is in.
pub proof fn lemma_chunk_extends_picture<P>(
    cols: Seq<Seq<P>>,
    w: nat,
    h: nat,
    blank: P,
    a: nat,
    b: nat,
)
    requires
        a <= b <= cols.len() <= w,
        h > 0,
        columns_of_height(cols, h),
    ensures
        paint_chunk(
            picture(cols.take(a as int), w, h, blank),
            w,
            h,
            a,
            flatten_columns(cols.subrange(a as int, b as int)),
        ) == picture(cols.take(b as int), w, h, blank),
{
    let chunk_cols = cols.subrange(a as int, b as int);
    assert(columns_of_height(chunk_cols, h)) by {
        assert forall|k: int| 0 <= k < chunk_cols.len() implies (#[trigger] chunk_cols[k]).len()
            == h by {
            assert(chunk_cols[k] == cols[a + k]);
        }
    }
    lemma_flatten_columns_index(chunk_cols, h);
    let chunk = flatten_columns(chunk_cols);
    lemma_fundamental_div_mod_converse(chunk.len() as int, h as int, (b - a) as int, 0);
    assert((chunk.len() as int) / (h as int) == b - a);
    let before = picture(cols.take(a as int), w, h, blank);
    let after = picture(cols.take(b as int), w, h, blank);
    let painted = paint_chunk(before, w, h, a, chunk);
    if w > 0 {
        assert forall|i: int| 0 <= i < painted.len() implies painted[i] == after[i] by {
            lemma_grid_cell(w as int, h as int, i);
            let x = i % (w as int);
            let row = i / (w as int);
            if a <= x < b {
                let c = x - a;
                assert(chunk[c * h + (h - 1 - row)] == chunk_cols[c][h - 1 - row]);
                assert(chunk_cols[c] == cols[x]);
            }
        }
    }
    assert(painted =~= after);
}


/// `canvas` with the chunks of `cols` painted one after the other: chunk `k`
/// is made of the columns `bounds[k]..bounds[k + 1]` and painted at column
/// `bounds[k]`.
pub open spec fn paint_chunks<P>(canvas: Seq<P>, w: nat, h: nat, cols: Seq<Seq<P>>, bounds: Seq<nat>) -> Seq<P>
    decreases bounds.len(),
{
    if bounds.len() < 2 {
        canvas
    } else {
        paint_chunks(
            paint_chunk(
                canvas,
                w,
                h,
                bounds[0],
                flatten_columns(cols.subrange(bounds[0] as int, bounds[1] as int)),
            ),
            w,
            h,
            cols,
            bounds.drop_first(),
        )
    }
}

/// A viewer that starts from the blank image and paints, in order, chunks
/// that cover the columns from the first to the last ends with the finished
/// image, whatever the chunk boundaries.
pub proof fn lemma_chunks_rebuild_image<P>(cols: Seq<Seq<P>>, w: nat, h: nat, blank: P, bounds: Seq<nat>)
    requires
        h > 0,
        cols.len() == w,
        columns_of_height(cols, h),
        bounds.len() >= 1,
        bounds[0] == 0,
        bounds.last() == w,
        forall|k: int| 0 <= k < bounds.len() - 1 ==> #[trigger] bounds[k] <= bounds[k + 1],
    ensures
        paint_chunks(Seq::new(w * h, |i: int| blank), w, h, cols, bounds) == picture(cols, w, h, blank),
{
    lemma_empty_picture(w, h, blank);
    assert(cols.take(0) =~= Seq::<Seq<P>>::empty());
    lemma_paint_chunks_from(cols, w, h, blank, bounds);
    assert(cols.take(w as int) =~= cols);
}

proof fn lemma_paint_chunks_from<P>(cols: Seq<Seq<P>>, w: nat, h: nat, blank: P, bounds: Seq<nat>)
    requires
        h > 0,
        cols.len() <= w,
        columns_of_height(cols, h),
        bounds.len() >= 1,
        bounds.last() <= cols.len(),
        forall|k: int| 0 <= k < bounds.len() - 1 ==> #[trigger] bounds[k] <= bounds[k + 1],
    ensures
        paint_chunks(picture(cols.take(bounds[0] as int), w, h, blank), w, h, cols, bounds)
            == picture(cols.take(bounds.last() as int), w, h, blank),
    decreases bounds.len(),
{
    if bounds.len() >= 2 {
        let rest = bounds.drop_first();
        assert forall|k: int| 0 <= k < rest.len() - 1 implies #[trigger] rest[k] <= rest[k + 1] by {
            assert(bounds[k + 1] <= bounds[k + 2]);
        }
        assert forall|k: int| 0 <= k < bounds.len() implies #[trigger] bounds[k] <= bounds.last() by {
            lemma_bounds_sorted(bounds, k);
        }
        lemma_chunk_extends_picture(cols, w, h, blank, bounds[0], bounds[1]);
        lemma_paint_chunks_from(cols, w, h, blank, rest);
    }
}

proof fn lemma_bounds_sorted(bounds: Seq<nat>, k: int)
    requires
        0 <= k < bounds.len(),
        forall|m: int| 0 <= m < bounds.len() - 1 ==> #[trigger] bounds[m] <= bounds[m + 1],
    ensures
        bounds[k] <= bounds.last(),
    decreases bounds.len() - k,
{
    if k < bounds.len() - 1 {
        lemma_bounds_sorted(bounds, k + 1);
    }
}

/// Pixel `y` of column `x` (counted from the bottom) sits at row
/// `h - 1 - y` of the row-major image: the picture shows column `x`'s pixel
/// `y` there, or `blank` for a column not given.
pub proof fn lemma_picture_pixel<P>(cols: Seq<Seq<P>>, w: nat, h: nat, blank: P, x: nat, y: nat)
    requires
        x < w,
        y < h,
    ensures
        (h - 1 - y) * w + x < w * h,
        picture(cols, w, h, blank)[(h - 1 - y) * w + x] == if x < cols.len() {
            cols[x as int][y as int]
        } else {
            blank
        },
{
    let row = (h - 1 - y) as int;
    lemma_grid_index_bound(w as int, h as int, row, x as int);
    lemma_grid_position(w as int, row, x as int);
}

/// Painting a chunk at column `x_start` puts pixel `y` of the chunk's column
/// `c` at column `x_start + c`, row `h - 1 - y`, for the columns that fit;
/// every other pixel stays.
pub proof fn lemma_paint_chunk_pixel<P>(canvas: Seq<P>, w: nat, h: nat, x_start: nat, chunk: Seq<P>, x: nat, y: nat)
    requires
        canvas.len() >= w * h,
        x < w,
        y < h,
    ensures
        paint_chunk(canvas, w, h, x_start, chunk)[(h - 1 - y) * w + x] == if x_start <= x < x_start
            + chunk.len() / h {
            chunk[(x - x_start) * h + y]
        } else {
            canvas[(h - 1 - y) * w + x]
        },
{
    let row = (h - 1 - y) as int;
    lemma_grid_index_bound(w as int, h as int, row, x as int);
    lemma_grid_position(w as int, row, x as int);
}

// ---------------------------------------------------------------------------
// Painting columns into an image
// ---------------------------------------------------------------------------

/// The value at `i` of `canvas` with the columns `x_start..x_start + cols` of
/// `chunk` painted, and, when `partial` holds, the bottom `rows` pixels of
/// column `x_start + cols` too.
spec fn painted_so_far<P>(
    canvas: Seq<P>,
    w: nat,
    h: nat,
    x_start: nat,
    chunk: Seq<P>,
    cols: nat,
    rows: nat,
    i: int,
) -> P {
    let x = i % (w as int);
    let row = i / (w as int);
    if i < w * h && (x_start <= x < x_start + cols || (x == x_start + cols && row >= h - rows)) {
        chunk[(x - x_start) * h + (h - 1 - row)]
    } else {
        canvas[i]
    }
}

/// Paints the columns of `chunk` into `canvas` from column `x_start` on, as
/// `paint_chunk` says.
pub fn paint_chunk_into<P: Copy>(canvas: &mut Vec<P>, w: usize, h: usize, x_start: usize, chunk: &Vec<P>)
    requires
        h > 0,
        old(canvas).len() >= w * h,
        x_start + chunk.len() / h <= usize::MAX,
    ensures
        final(canvas)@ == paint_chunk(old(canvas)@, w as nat, h as nat, x_start as nat, chunk@),
{
    let ghost orig = canvas@;
    let len = canvas.len();
    let num_cols = chunk.len() / h;
    proof {
        lemma_fundamental_div_mod(chunk.len() as int, h as int);
        assert(num_cols * h <= chunk.len()) by (nonlinear_arith)
            requires
                chunk.len() == h * (chunk.len() as int / h as int) + (chunk.len() as int % h as int),
                num_cols == chunk.len() as int / h as int,
                chunk.len() as int % h as int >= 0,
        ;
        assert forall|i: int| 0 <= i < canvas@.len() implies #[trigger] canvas@[i] == painted_so_far(
            orig,
            w as nat,
            h as nat,
            x_start as nat,
            chunk@,
            0,
            0,
            i,
        ) by {
            if i < w * h {
                lemma_grid_cell(w as int, h as int, i);
            }
        }
    }
    for col in 0..num_cols
        invariant
            h > 0,
            orig.len() >= w * h,
            canvas@.len() == orig.len(),
            len == orig.len(),
            x_start + num_cols <= usize::MAX,
            num_cols * h <= chunk.len(),
            forall|i: int|
                0 <= i < canvas@.len() ==> #[trigger] canvas@[i] == painted_so_far(
                    orig,
                    w as nat,
                    h as nat,
                    x_start as nat,
                    chunk@,
                    col as nat,
                    0,
                    i,
                ),
    {
        let x = x_start + col;
        if x < w {
            assert((col + 1) * h <= chunk.len()) by (nonlinear_arith)
                requires
                    col < num_cols,
                    num_cols * h <= chunk.len(),
            ;
            for y in 0..h
                invariant
                    h > 0,
                    x < w,
                    x == x_start + col,
                    orig.len() >= w * h,
                    canvas@.len() == orig.len(),
                    len == orig.len(),
                    (col + 1) * h <= chunk.len(),
                    forall|i: int|
                        0 <= i < canvas@.len() ==> #[trigger] canvas@[i] == painted_so_far(
                            orig,
                            w as nat,
                            h as nat,
                            x_start as nat,
                            chunk@,
                            col as nat,
                            y as nat,
                            i,
                        ),
            {
                let row = h - 1 - y;
                proof {
                    lemma_grid_index_bound(w as int, h as int, row as int, x as int);
                    lemma_grid_position(w as int, row as int, x as int);
                    assert(col * h + y < (col + 1) * h) by (nonlinear_arith)
                        requires
                            y < h,
                    ;
                }
                let idx = row * w + x;
                let v = chunk[col * h + y];
                canvas.set(idx, v);
                proof {
                    assert forall|i: int| 0 <= i < canvas@.len() implies #[trigger] canvas@[i]
                        == painted_so_far(
                        orig,
                        w as nat,
                        h as nat,
                        x_start as nat,
                        chunk@,
                        col as nat,
                        (y + 1) as nat,
                        i,
                    ) by {
                        if i < w * h {
                            lemma_grid_cell(w as int, h as int, i);
                        }
                        if i == idx {
                            assert((x - x_start) * h + (h - 1 - row) == col * h + y);
                        }
                    }
                }
            }
        }
        proof {
            assert forall|i: int| 0 <= i < canvas@.len() implies #[trigger] canvas@[i]
                == painted_so_far(
                orig,
                w as nat,
                h as nat,
                x_start as nat,
                chunk@,
                (col + 1) as nat,
                0,
                i,
            ) by {
                if i < w * h {
                    lemma_grid_cell(w as int, h as int, i);
                }
            }
        }
    }
    proof {
        assert(canvas@ =~= paint_chunk(orig, w as nat, h as nat, x_start as nat, chunk@)) by {
            assert forall|i: int| 0 <= i < canvas@.len() implies canvas@[i] == paint_chunk(
                orig,
                w as nat,
                h as nat,
                x_start as nat,
                chunk@,
            )[i] by {
                if i < w * h {
                    lemma_grid_cell(w as int, h as int, i);
                }
                assert(canvas@[i] == painted_so_far(
                    orig,
                    w as nat,
                    h as nat,
                    x_start as nat,
                    chunk@,
                    num_cols as nat,
                    0,
                    i,
                ));
            }
        }
    }
}


// ---------------------------------------------------------------------------
// Spectrogram images and the updates that deliver them
// ---------------------------------------------------------------------------

/// Spectrogram size and pixel colours, row-major, top row first.
pub struct SpectrogramData<P> {
    pub width: usize,
    pub height: usize,
    pub pixels: Vec<P>,
}

/// A message from the spectrogram generator to the viewer.
pub enum SpectrogramUpdate<P> {
    /// Generation of an image of this size has begun.
    Started { width: usize, height: usize },
    /// Columns `x_start..`, each `height` pixels with the bottom pixel first.
    Chunk { x_start: usize, pixels: Vec<P> },
    /// The complete image.
    Finished(SpectrogramData<P>),
    /// Generation gave up, with the reason.
    Failed(String),
}

/// Number of columns the generator gathers before it sends a chunk.
pub const CHUNK_COLUMNS: usize = 16;

/// An image of `n` pixels, all `blank`.
pub fn blank_pixels<P: Copy>(n: usize, blank: P) -> (v: Vec<P>)
    ensures
        v@ == Seq::new(n as nat, |i: int| blank),
{
    let mut v: Vec<P> = Vec::new();
    for i in 0..n
        invariant
            v@ == Seq::new(i as nat, |k: int| blank),
    {
        v.push(blank);
        assert(v@ =~= Seq::new((i + 1) as nat, |k: int| blank));
    }
    v
}

pub proof fn lemma_empty_picture<P>(w: nat, h: nat, blank: P)
    ensures
        picture(Seq::<Seq<P>>::empty(), w, h, blank) == Seq::new(w * h, |i: int| blank),
{
    if w > 0 {
        assert forall|i: int| 0 <= i < w * h implies #[trigger] picture(
            Seq::<Seq<P>>::empty(),
            w,
            h,
            blank,
        )[i] == blank by {
            lemma_grid_cell(w as int, h as int, i);
        }
    }
    assert(picture(Seq::<Seq<P>>::empty(), w, h, blank) =~= Seq::new(w * h, |i: int| blank));
}

/// Whether the generator sends the columns gathered so far after column `x`
/// of an image `w` wide: after every `CHUNK_COLUMNS`-th column and after the
/// last one.
pub open spec fn ends_chunk(x: nat, w: nat) -> bool {
    (x + 1) % (CHUNK_COLUMNS as nat) == 0 || x + 1 == w
}

/// Builds a spectrogram image one column at a time, left to right, and
/// gathers the columns into the chunks that the viewer is sent.
pub struct SpectrogramBuilder<P> {
    width: usize,
    height: usize,
    pixels: Vec<P>,
    pending: Vec<P>,
    chunk_start: usize,
    next_col: usize,
    columns: Ghost<Seq<Seq<P>>>,
    blank: Ghost<P>,
}

impl<P: Copy> SpectrogramBuilder<P> {
    pub closed spec fn width(&self) -> nat {
        self.width as nat
    }

    pub closed spec fn height(&self) -> nat {
        self.height as nat
    }

    /// The columns put so far, bottom pixel first.
    pub closed spec fn columns(&self) -> Seq<Seq<P>> {
        self.columns@
    }

    /// The colour of the columns not put yet.
    pub closed spec fn blank(&self) -> P {
        self.blank@
    }

    /// The first column that has not been sent yet.
    pub closed spec fn chunk_start(&self) -> nat {
        self.chunk_start as nat
    }

    pub closed spec fn wf(&self) -> bool {
        &&& self.pixels@ == picture(self.columns@, self.width as nat, self.height as nat, self.blank@)
        &&& self.columns@.len() <= self.width
        &&& self.next_col == self.columns@.len()
        &&& columns_of_height(self.columns@, self.height as nat)
        &&& self.chunk_start <= self.columns@.len()
        &&& self.pending@ == flatten_columns(
            self.columns@.subrange(self.chunk_start as int, self.columns@.len() as int),
        )
    }

    /// A builder for a `width` by `height` image, all `blank` to begin with.
    pub fn new(width: usize, height: usize, blank: P) -> (b: Self)
        requires
            width * height <= usize::MAX,
        ensures
            b.wf(),
            b.width() == width,
            b.height() == height,
            b.columns() == Seq::<Seq<P>>::empty(),
            b.blank() == blank,
            b.chunk_start() == 0,
    {
        let pixels = blank_pixels(width * height, blank);
        proof {
            lemma_empty_picture(width as nat, height as nat, blank);
        }
        let b = SpectrogramBuilder {
            width,
            height,
            pixels,
            pending: Vec::new(),
            chunk_start: 0,
            next_col: 0,
            columns: Ghost(Seq::empty()),
            blank: Ghost(blank),
        };
        assert(b.columns@.subrange(0, 0) =~= Seq::<Seq<P>>::empty());
        b
    }

    /// Puts the next column (its bottom pixel first).  After every
    /// `CHUNK_COLUMNS`-th column and after the last one, the columns put
    /// since the previous chunk are returned as a chunk to send.
    pub fn put_column(&mut self, column: Vec<P>) -> (update: Option<SpectrogramUpdate<P>>)
        requires
            old(self).wf(),
            column@.len() == old(self).height(),
            old(self).columns().len() < old(self).width(),
        ensures
            final(self).wf(),
            final(self).width() == old(self).width(),
            final(self).height() == old(self).height(),
            final(self).blank() == old(self).blank(),
            final(self).columns() == old(self).columns().push(column@),
            ends_chunk(old(self).columns().len(), old(self).width()) ==> {
                &&& final(self).chunk_start() == final(self).columns().len()
                &&& update matches Some(SpectrogramUpdate::Chunk { x_start, pixels }) && x_start
                    == old(self).chunk_start() && pixels@ == flatten_columns(
                    final(self).columns().subrange(
                        old(self).chunk_start() as int,
                        final(self).columns().len() as int,
                    ),
                )
            },
            !ends_chunk(old(self).columns().len(), old(self).width()) ==> {
                &&& final(self).chunk_start() == old(self).chunk_start()
                &&& update is None
            },
    {
        let ghost cview = column@;
        let ghost cols0 = self.columns@;
        let ghost cols1 = cols0.push(cview);
        let x = self.next_column();
        proof {
            assert(cols1.take(x as int) =~= cols0);
            assert(cols1.subrange(x as int, x + 1) =~= seq![column@]);
            assert(seq![column@].drop_last() =~= Seq::<Seq<P>>::empty());
            assert(flatten_columns(Seq::<Seq<P>>::empty()) =~= Seq::<P>::empty());
            assert(flatten_columns(seq![column@]) =~= column@);
            assert(cols1.take(x + 1) =~= cols1);
            assert(columns_of_height(cols1, self.height as nat));
            assert(self.pixels@.len() == self.width * self.height);
        }
        if self.height > 0 {
            proof {
                lemma_chunk_extends_picture(cols1, self.width as nat, self.height as nat, self.blank@, x as nat, (x + 1) as nat);
                lemma_fundamental_div_mod_converse(column.len() as int, self.height as int, 1, 0);
                assert(column.len() / self.height == 1);
            }
            paint_chunk_into(&mut self.pixels, self.width, self.height, x, &column);
        } else {
            assert(self.pixels@ =~= picture(cols1, self.width as nat, self.height as nat, self.blank@));
        }
        let mut column = column;
        let ghost pending0 = self.pending@;
        self.pending.append(&mut column);
        self.columns = Ghost(cols1);
        self.next_col = x + 1;
        proof {
            let s1 = cols1.subrange(self.chunk_start as int, x + 1);
            assert(s1.drop_last() =~= cols0.subrange(self.chunk_start as int, x as int));
            assert(s1.last() == cview);
        }
        if (x + 1) % CHUNK_COLUMNS == 0 || x + 1 == self.width {
            let mut sent: Vec<P> = Vec::new();
            std::mem::swap(&mut sent, &mut self.pending);
            let start = self.chunk_start;
            self.chunk_start = x + 1;
            assert(cols1.subrange(x + 1, x + 1) =~= Seq::<Seq<P>>::empty());
            Some(SpectrogramUpdate::Chunk { x_start: start, pixels: sent })
        } else {
            None
        }
    }

    /// The number of columns put so far.
    pub fn next_column(&self) -> (x: usize)
        requires
            self.wf(),
        ensures
            x == self.columns().len(),
    {
        self.next_col
    }

    /// The finished image.
    pub fn finish(self) -> (data: SpectrogramData<P>)
        requires
            self.wf(),
        ensures
            data.width == self.width(),
            data.height == self.height(),
            data.pixels@ == picture(self.columns(), self.width(), self.height(), self.blank()),
    {
        SpectrogramData { width: self.width, height: self.height, pixels: self.pixels }
    }
}


// ---------------------------------------------------------------------------
// The viewer's side
// ---------------------------------------------------------------------------

/// What the viewer has to do after an update was applied.
pub struct ImageChange {
    /// The image changed: the texture made from it is stale.
    pub repaint: bool,
    /// The generator is done (finished or failed): stop listening to it.
    pub generation_over: bool,
    /// A failure to report.
    pub error: Option<String>,
}

/// The viewer's spectrogram: the image shown, if any, and the size of the
/// image being generated, if any.
pub struct SpectrogramState<P> {
    pub spectrogram: Option<SpectrogramData<P>>,
    pub generating_size: Option<(usize, usize)>,
}

/// A chunk can be applied to `current`: the image is at least one pixel high,
/// holds its pixels, and the chunk's columns can be numbered.
pub open spec fn chunk_applies<P>(current: Option<SpectrogramData<P>>, x_start: usize, pixels: Seq<P>) -> bool {
    current matches Some(d) ==> {
        &&& d.height > 0
        &&& d.pixels@.len() >= d.width * d.height
        &&& x_start + pixels.len() / (d.height as nat) <= usize::MAX
    }
}

/// An update can be applied to `current`.
pub open spec fn update_applies<P>(current: Option<SpectrogramData<P>>, update: SpectrogramUpdate<P>) -> bool {
    match update {
        SpectrogramUpdate::Started { width, height } => width * height <= usize::MAX,
        SpectrogramUpdate::Chunk { x_start, pixels } => chunk_applies(current, x_start, pixels@),
        _ => true,
    }
}

impl<P: Copy> SpectrogramState<P> {
    /// No image, nothing being generated.
    pub fn new() -> (s: Self)
        ensures
            s.spectrogram is None,
            s.generating_size is None,
    {
        SpectrogramState { spectrogram: None, generating_size: None }
    }

    /// Forgets the image and the generation in progress (a new track is
    /// shown).
    pub fn reset(&mut self)
        ensures
            final(self).spectrogram is None,
            final(self).generating_size is None,
    {
        self.spectrogram = None;
        self.generating_size = None;
    }

    /// Applies one update from the generator: a start gives a blank image of
    /// the announced size; a chunk is painted into the image (and ignored
    /// when there is none); a finished image replaces the image; a failure
    /// leaves the image and is reported unless it is a cancellation.  A
    /// finished or failed generation is over.
    pub fn apply_update(&mut self, update: SpectrogramUpdate<P>, blank: P) -> (change: ImageChange)
        requires
            update_applies(old(self).spectrogram, update),
        ensures
            match update {
                SpectrogramUpdate::Started { width, height } => {
                    &&& final(self).spectrogram matches Some(d) && d.width == width && d.height
                        == height && d.pixels@ == Seq::new((width * height) as nat, |i: int| blank)
                    &&& final(self).generating_size == old(self).generating_size
                    &&& change.repaint && !change.generation_over && change.error is None
                },
                SpectrogramUpdate::Chunk { x_start, pixels } => {
                    &&& final(self).generating_size == old(self).generating_size
                    &&& !change.generation_over && change.error is None
                    &&& match old(self).spectrogram {
                        Some(d) => {
                            &&& final(self).spectrogram matches Some(e) && e.width == d.width
                                && e.height == d.height && e.pixels@ == paint_chunk(
                                d.pixels@,
                                d.width as nat,
                                d.height as nat,
                                x_start as nat,
                                pixels@,
                            )
                            &&& change.repaint
                        },
                        None => final(self).spectrogram is None && !change.repaint,
                    }
                },
                SpectrogramUpdate::Finished(data) => {
                    &&& final(self).spectrogram == Some(data)
                    &&& final(self).generating_size is None
                    &&& change.repaint && change.generation_over && change.error is None
                },
                SpectrogramUpdate::Failed(e) => {
                    &&& final(self).spectrogram == old(self).spectrogram
                    &&& final(self).generating_size is None
                    &&& !change.repaint && change.generation_over
                    &&& change.error == if e@ == "Cancelled"@ {
                        None::<String>
                    } else {
                        Some(e)
                    }
                },
            },
    {
        match update {
            SpectrogramUpdate::Started { width, height } => {
                let pixels = blank_pixels(width * height, blank);
                self.spectrogram = Some(SpectrogramData { width, height, pixels });
                ImageChange { repaint: true, generation_over: false, error: None }
            },
            SpectrogramUpdate::Chunk { x_start, pixels } => {
                match self.spectrogram.take() {
                    Some(d) => {
                        let mut d = d;
                        paint_chunk_into(&mut d.pixels, d.width, d.height, x_start, &pixels);
                        self.spectrogram = Some(d);
                        ImageChange { repaint: true, generation_over: false, error: None }
                    },
                    None => ImageChange { repaint: false, generation_over: false, error: None },
                }
            },
            SpectrogramUpdate::Finished(data) => {
                self.spectrogram = Some(data);
                self.generating_size = None;
                ImageChange { repaint: true, generation_over: true, error: None }
            },
            SpectrogramUpdate::Failed(e) => {
                self.generating_size = None;
                let cancelled = String::from_str("Cancelled");
                proof {
                    reveal_strlit("Cancelled");
                }
                let error = if e == cancelled {
                    None
                } else {
                    Some(e)
                };
                ImageChange { repaint: false, generation_over: true, error }
            },
        }
    }

    /// The size of the image shown, or 0 by 0 when there is none.
    pub fn shown_size(&self) -> (size: (usize, usize))
        ensures
            size == match self.spectrogram {
                Some(d) => (d.width, d.height),
                None => (0usize, 0usize),
            },
    {
        match &self.spectrogram {
            Some(d) => (d.width, d.height),
            None => (0, 0),
        }
    }

    /// Whether an image of `width` by `height` has to be generated: the image
    /// shown has another size and no image of that size is being generated.
    pub fn needs_generation(&self, width: usize, height: usize) -> (r: bool)
        ensures
            r == ((self.shown_size_spec() != (width, height)) && self.generating_size != Some(
                (width, height),
            )),
    {
        let (w, h) = self.shown_size();
        let shown_differs = w != width || h != height;
        let in_progress = match self.generating_size {
            Some((gw, gh)) => gw == width && gh == height,
            None => false,
        };
        shown_differs && !in_progress
    }

    pub open spec fn shown_size_spec(&self) -> (usize, usize) {
        match self.spectrogram {
            Some(d) => (d.width, d.height),
            None => (0usize, 0usize),
        }
    }

    /// Records that an image of `width` by `height` is being generated.
    pub fn start_generation(&mut self, width: usize, height: usize)
        ensures
            final(self).spectrogram == old(self).spectrogram,
            final(self).generating_size == Some((width, height)),
    {
        self.generating_size = Some((width, height));
    }

    /// The size to regenerate at when a setting changes: that of the image
    /// shown, or 800 by 400 when there is none.
    pub fn regeneration_size(&self) -> (size: (usize, usize))
        ensures
            size == match self.spectrogram {
                Some(d) => (d.width, d.height),
                None => (800usize, 400usize),
            },
    {
        match &self.spectrogram {
            Some(d) => (d.width, d.height),
            None => (800, 400),
        }
    }
}


// ---------------------------------------------------------------------------
// Which samples feed each column, which bin each row shows
// ---------------------------------------------------------------------------

/// Samples per column when `total` samples are spread over `width` columns
/// (no column at all takes every sample there could be).  This is exact
/// integer division; through `f64` the quotient could round up on very
/// large inputs.
pub open spec fn samples_per_column(total: nat, width: nat) -> nat {
    if width == 0 {
        usize::MAX as nat
    } else {
        total / width
    }
}

/// How the samples of one channel map onto a `width` by `height` image made
/// with FFTs of `fft_size` samples.
pub struct SpectrogramPlan {
    pub total_samples: usize,
    pub fft_size: usize,
    pub width: usize,
    pub height: usize,
    pub samples_per_col: usize,
}

/// Plans a spectrogram of `total_samples` samples; a track shorter than one
/// FFT window cannot be shown.
pub fn plan_spectrogram(total_samples: usize, fft_size: usize, width: usize, height: usize) -> (r: Result<SpectrogramPlan, String>)
    ensures
        r is Err <==> total_samples < fft_size,
        r matches Err(m) ==> m@ == "Audio file is too short to generate a spectrogram."@,
        r matches Ok(p) ==> {
            &&& p.total_samples == total_samples
            &&& p.fft_size == fft_size
            &&& p.width == width
            &&& p.height == height
            &&& p.wf()
        },
{
    if total_samples < fft_size {
        return Err(String::from_str("Audio file is too short to generate a spectrogram."));
    }
    let samples_per_col = if width == 0 {
        usize::MAX
    } else {
        total_samples / width
    };
    Ok(SpectrogramPlan { total_samples, fft_size, width, height, samples_per_col })
}

impl SpectrogramPlan {
    pub open spec fn wf(&self) -> bool {
        &&& self.total_samples >= self.fft_size
        &&& self.samples_per_col == samples_per_column(self.total_samples as nat, self.width as nat)
    }

    /// A column holds fewer samples than one FFT window: every column gets
    /// one window, the windows spread evenly from the first sample to the
    /// last and overlapping.  Otherwise each column averages the whole
    /// windows that fit in its own share of the samples.
    pub open spec fn overlapping(&self) -> bool {
        self.samples_per_col < self.fft_size
    }

    /// Where the window of column `col` starts when windows overlap:
    /// `col / (width - 1)` of the way from 0 to `total_samples - fft_size`,
    /// rounded down.  The position is computed exactly in integers; a
    /// computation through `f64` can land one sample off on rare inputs (and
    /// past the last whole window at the last column).
    pub open spec fn overlapping_start(&self, col: nat) -> nat {
        if self.width > 1 {
            col * ((self.total_samples - self.fft_size) as nat) / ((self.width - 1) as nat)
        } else {
            0
        }
    }

    /// When windows overlap, the first column's window starts at the first
    /// sample, the last column's ends at the last sample, and the windows
    /// move forward from column to column.
    pub proof fn lemma_overlapping_spread(&self, c1: nat, c2: nat)
        requires
            self.wf(),
            self.width > 1,
            c1 <= c2 < self.width,
        ensures
            self.overlapping_start(0) == 0,
            self.overlapping_start((self.width - 1) as nat) == self.total_samples - self.fft_size,
            self.overlapping_start(c1) <= self.overlapping_start(c2),
            self.overlapping_start(c2) + self.fft_size <= self.total_samples,
    {
        let d = (self.width - 1) as int;
        let t = (self.total_samples - self.fft_size) as int;
        assert(0 * t == 0) by (nonlinear_arith);
        lemma_div_by_multiple(t, d);
        assert(d * t == t * d) by (nonlinear_arith);
        assert(c1 * t <= c2 * t) by (nonlinear_arith)
            requires
                c1 <= c2,
                t >= 0,
        ;
        lemma_div_is_ordered(c1 * t, c2 * t, d);
        assert(c2 * t <= d * t) by (nonlinear_arith)
            requires
                c2 <= d,
                t >= 0,
        ;
        lemma_div_is_ordered(c2 * t, d * t, d);
    }

    /// The starts of the FFT windows of column `col`.
    pub open spec fn column_windows_spec(&self, col: nat) -> Seq<nat> {
        if self.overlapping() {
            seq![self.overlapping_start(col)]
        } else {
            Seq::new(
                (self.samples_per_col / self.fft_size) as nat,
                |k: int| (col * self.samples_per_col + k * self.fft_size) as nat,
            )
        }
    }

    /// The starts of the FFT windows whose magnitudes make up column `col`.
    /// Every window lies within the samples.
    pub fn column_windows(&self, col: usize) -> (starts: Vec<usize>)
        requires
            self.wf(),
            col < self.width,
            self.fft_size > 0,
        ensures
            starts@.len() == self.column_windows_spec(col as nat).len(),
            forall|k: int|
                0 <= k < starts@.len() ==> #[trigger] starts@[k] as nat
                    == self.column_windows_spec(col as nat)[k],
            forall|k: int|
                0 <= k < starts@.len() ==> #[trigger] starts@[k] + self.fft_size
                    <= self.total_samples,
    {
        let mut starts: Vec<usize> = Vec::new();
        if self.samples_per_col < self.fft_size {
            let start = if self.width > 1 {
                let span = (self.total_samples - self.fft_size) as u128;
                assert((col as u128) * span < 0x1_0000_0000_0000_0000_0000_0000_0000_0000) by (nonlinear_arith)
                    requires
                        (col as u128) < 0x1_0000_0000_0000_0000,
                        span < 0x1_0000_0000_0000_0000,
                ;
                let q = (col as u128) * span / ((self.width - 1) as u128);
                proof {
                    let d = (self.width - 1) as int;
                    let c = col as int;
                    let t = span as int;
                    lemma_fundamental_div_mod(c * t, d);
                    assert(q <= t) by (nonlinear_arith)
                        requires
                            c * t == d * (q as int) + (c * t) % d,
                            (c * t) % d >= 0,
                            0 <= c <= d,
                            d > 0,
                            t >= 0,
                            q >= 0,
                    ;
                }
                q as usize
            } else {
                0
            };
            starts.push(start);
            assert(starts@[0] as nat == self.column_windows_spec(col as nat)[0]);
        } else {
            let spc = self.samples_per_col;
            let count = spc / self.fft_size;
            proof {
                assert(self.width > 0);
                let t = self.total_samples as int;
                let w = self.width as int;
                lemma_fundamental_div_mod(t, w);
                assert((col + 1) * spc <= t) by (nonlinear_arith)
                    requires
                        t == w * (spc as int) + t % w,
                        t % w >= 0,
                        col < w,
                        spc >= 0,
                ;
                assert(col * spc + spc == (col + 1) * spc) by (nonlinear_arith);
                let f = self.fft_size as int;
                lemma_fundamental_div_mod(spc as int, f);
                assert(count * f <= spc) by (nonlinear_arith)
                    requires
                        spc == f * (count as int) + (spc as int) % f,
                        (spc as int) % f >= 0,
                        count >= 0,
                        f > 0,
                ;
            }
            let base = col * spc;
            for k in 0..count
                invariant
                    self.wf(),
                    !self.overlapping(),
                    spc == self.samples_per_col,
                    count == spc / self.fft_size,
                    count * self.fft_size <= spc,
                    base == col * spc,
                    base + spc <= self.total_samples,
                    starts@.len() == k,
                    forall|m: int|
                        0 <= m < k ==> #[trigger] starts@[m] as nat == self.column_windows_spec(
                            col as nat,
                        )[m],
                    forall|m: int|
                        0 <= m < k ==> #[trigger] starts@[m] + self.fft_size <= self.total_samples,
            {
                assert((k + 1) * self.fft_size <= spc) by (nonlinear_arith)
                    requires
                        k < count,
                        count * self.fft_size <= spc,
                ;
                assert(k * self.fft_size + self.fft_size == (k + 1) * self.fft_size) by (nonlinear_arith);
                let start = base + k * self.fft_size;
                starts.push(start);
            }
        }
        starts
    }

    /// The number of frequency bins an FFT of `fft_size` samples gives.
    pub fn num_bins(&self) -> (n: usize)
        ensures
            n == self.fft_size / 2,
    {
        self.fft_size / 2
    }

    /// The bin shown by row `y` (counted from the bottom): `y / (height - 1)`
    /// of the way from the first bin to the last, rounded to the nearest bin,
    /// halves away from zero.  The rounding is exact, in integers; a computation
    /// through `f64` can differ by one bin on rare inputs.
    pub open spec fn bin_for_row_spec(&self, y: nat) -> nat {
        let last = (self.fft_size / 2 - 1) as nat;
        let rows = (self.height - 1) as nat;
        if self.height > 1 {
            (2 * y * last + rows) / (2 * rows)
        } else {
            0
        }
    }

    /// The frequency bin that row `y` (counted from the bottom) shows: the
    /// bottom row shows the first bin, the top row the last, and every row a
    /// bin that exists.
    pub fn bin_for_row(&self, y: usize) -> (bin: usize)
        requires
            self.fft_size >= 2,
            y < self.height,
        ensures
            bin == self.bin_for_row_spec(y as nat),
            bin < self.fft_size / 2,
            y == 0 ==> bin == 0,
            y + 1 == self.height && self.height > 1 ==> bin == self.fft_size / 2 - 1,
    {
        if self.height > 1 {
            let last = (self.fft_size / 2 - 1) as u128;
            let rows = (self.height - 1) as u128;
            let yy = y as u128;
            assert(2 * yy * last + rows < 0x1_0000_0000_0000_0000_0000_0000_0000_0000) by (nonlinear_arith)
                requires
                    yy < 0x1_0000_0000_0000_0000,
                    last < 0x8000_0000_0000_0000,
                    rows < 0x1_0000_0000_0000_0000,
            ;
            let q = (2 * yy * last + rows) / (2 * rows);
            proof {
                let n = 2 * yy * last + rows;
                let d = 2 * rows;
                lemma_fundamental_div_mod(n as int, d as int);
                assert(q <= last) by (nonlinear_arith)
                    requires
                        n == d * q + (n as int) % (d as int),
                        (n as int) % (d as int) >= 0,
                        n == 2 * yy * last + rows,
                        d == 2 * rows,
                        yy <= rows,
                        rows > 0,
                ;
                if y == 0 {
                    assert(2 * yy * last == 0) by (nonlinear_arith)
                        requires
                            yy == 0,
                    ;
                    lemma_fundamental_div_mod_converse(n as int, d as int, 0, rows as int);
                }
                if y + 1 == self.height {
                    lemma_fundamental_div_mod_converse(n as int, d as int, last as int, rows as int);
                    assert(n == d * last + rows) by (nonlinear_arith)
                        requires
                            n == 2 * yy * last + rows,
                            d == 2 * rows,
                            yy == rows,
                    ;
                }
            }
            q as usize
        } else {
            0
        }
    }
}

} // verus!
