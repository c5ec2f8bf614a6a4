//! Half-block image art. Each text cell is an upper half block whose
//! foreground is the top pixel and whose background is the bottom pixel, so
//! one row of cells shows two rows of pixels. The image is decoded and
//! resampled by the `image` crate; the size of the art, the reading of the
//! pixel buffer and the grouping of cells into runs of one style are this
//! module's. Fetching the bytes stays with the program around the library.

use vstd::prelude::*;
use crate::theme::Rgb;

verus! {

/// Refuse images larger than this many bytes.
pub const MAX_BYTES: usize = 16777216;
/// Cap on the rendered height in rows.
pub const MAX_ROWS: u32 = 40;
/// Cap on the rendered width in cells.
pub const MAX_COLS: u32 = 80;

/// `x` clamped to `lo..=hi`.
pub open spec fn clamp_nat(x: nat, lo: nat, hi: nat) -> nat {
    if x < lo {
        lo
    } else if x > hi {
        hi
    } else {
        x
    }
}

/// The art's size in cells for a `width`×`height` image in a pane
/// `max_cols` wide: the width clamped to `1..=80`, the height scaled to keep
/// proportions (cells are about twice as tall as wide) and clamped to
/// `1..=40`. Zero image sides count as 1.
pub open spec fn grid_spec(max_cols: nat, width: nat, height: nat) -> (nat, nat) {
    let cols = clamp_nat(max_cols, 1, MAX_COLS as nat);
    let w = if width < 1 { 1 } else { width };
    let h = if height < 1 { 1 } else { height };
    (cols, clamp_nat((cols * h) / w / 2, 1, MAX_ROWS as nat))
}

/// The art's size in cells, `(columns, rows)`.
pub fn grid_size(max_cols: u16, width: u32, height: u32) -> (r: (u32, u32))
    ensures
        (r.0 as nat, r.1 as nat) == grid_spec(max_cols as nat, width as nat, height as nat),
{
    let cols: u32 = if max_cols < 1 {
        1
    } else if max_cols as u32 > MAX_COLS {
        MAX_COLS
    } else {
        max_cols as u32
    };
    let w: u64 = if width < 1 { 1 } else { width as u64 };
    let h: u64 = if height < 1 { 1 } else { height as u64 };
    assert(cols as u64 * h <= 80 * 0xffff_ffff) by (nonlinear_arith)
        requires
            cols <= 80,
            h <= 0xffff_ffff,
    ;
    let scaled: u64 = (cols as u64 * h) / w / 2;
    let rows: u32 = if scaled < 1 {
        1
    } else if scaled > MAX_ROWS as u64 {
        MAX_ROWS
    } else {
        scaled as u32
    };
    (cols, rows)
}

/// A run of equal cells: the cell's `(top, bottom)` colors and how many.
pub type Run = ((Rgb, Rgb), usize);

/// Consecutive equal cells grouped into runs, left to right.
pub open spec fn runs_spec(cells: Seq<(Rgb, Rgb)>) -> Seq<((Rgb, Rgb), nat)>
    decreases cells.len(),
{
    if cells.len() == 0 {
        seq![]
    } else {
        let r = runs_spec(cells.drop_last());
        if r.len() > 0 && r.last().0 == cells.last() {
            r.update(r.len() - 1, (r.last().0, r.last().1 + 1))
        } else {
            r.push((cells.last(), 1nat))
        }
    }
}

/// The runs with counts as numbers.
pub open spec fn run_views(v: Seq<((Rgb, Rgb), usize)>) -> Seq<((Rgb, Rgb), nat)> {
    v.map_values(|x: ((Rgb, Rgb), usize)| (x.0, x.1 as nat))
}

/// Group a row of cells into runs of one style, left to right.
pub fn half_block_runs(cells: &[(Rgb, Rgb)]) -> (r: Vec<((Rgb, Rgb), usize)>)
    ensures
        run_views(r@) == runs_spec(cells@),
{
    let mut out: Vec<((Rgb, Rgb), usize)> = Vec::new();
    let mut i: usize = 0;
    while i < cells.len()
        invariant
            0 <= i <= cells@.len(),
            run_views(out@) == runs_spec(cells@.take(i as int)),
            forall|k: int| 0 <= k < out@.len() ==> (#[trigger] out@[k]).1 <= i,
        decreases cells@.len() - i,
    {
        proof {
            assert(cells@.take(i + 1).drop_last() == cells@.take(i as int));
            assert(cells@.take(i + 1).last() == cells@[i as int]);
        }
        let c = cells[i];
        let n = out.len();
        if n > 0 && out[n - 1].0.0 == c.0 && out[n - 1].0.1 == c.1 {
            let (col, cnt) = out[n - 1];
            let ghost before = run_views(out@);
            out.set(n - 1, (col, cnt + 1));
            proof {
                assert(run_views(out@) =~= before.update(before.len() - 1, (before.last().0, before.last().1 + 1)));
            }
        } else {
            let ghost before = run_views(out@);
            out.push((c, 1));
            proof {
                assert(run_views(out@) =~= before.push((c, 1nat)));
            }
        }
        i += 1;
    }
    proof {
        assert(cells@.take(cells@.len() as int) == cells@);
    }
    out
}

/// The cells a sequence of runs stands for.
pub open spec fn expand(runs: Seq<((Rgb, Rgb), nat)>) -> Seq<(Rgb, Rgb)>
    decreases runs.len(),
{
    if runs.len() == 0 {
        seq![]
    } else {
        expand(runs.drop_last()) + Seq::new(runs.last().1, |k: int| runs.last().0)
    }
}

/// Grouping cells into runs loses nothing: the runs expand back to the
/// cells, every run is non-empty, and neighbouring runs differ in style.
pub proof fn lemma_runs_round_trip(cells: Seq<(Rgb, Rgb)>)
    ensures
        expand(runs_spec(cells)) == cells,
        forall|k: int| 0 <= k < runs_spec(cells).len() ==> (#[trigger] runs_spec(cells)[k]).1 > 0,
        forall|k: int|
            0 <= k < runs_spec(cells).len() - 1 ==> (#[trigger] runs_spec(cells)[k]).0 != runs_spec(
                cells,
            )[k + 1].0,
    decreases cells.len(),
{
    if cells.len() > 0 {
        let p = cells.drop_last();
        let c = cells.last();
        lemma_runs_round_trip(p);
        let r = runs_spec(p);
        if r.len() > 0 && r.last().0 == c {
            let r2 = r.update(r.len() - 1, (r.last().0, r.last().1 + 1));
            assert(r2.drop_last() =~= r.drop_last());
            assert(expand(r) == expand(r.drop_last()) + Seq::new(r.last().1, |k: int| r.last().0));
            assert(Seq::new(r.last().1 + 1, |k: int| c) =~= Seq::new(r.last().1, |k: int| r.last().0).push(c));
            assert(expand(r2) =~= expand(r) + seq![c]);
            assert(cells =~= p + seq![c]);
            assert forall|k: int| 0 <= k < r2.len() - 1 implies (#[trigger] r2[k]).0 != r2[k + 1].0 by {
                if k + 1 < r.len() - 1 {
                    assert(r2[k] == r[k]);
                    assert(r2[k + 1] == r[k + 1]);
                } else {
                    assert(r2[k] == r[k]);
                    assert(r2[k + 1].0 == r[k + 1].0);
                }
            }
            assert forall|k: int| 0 <= k < r2.len() implies (#[trigger] r2[k]).1 > 0 by {
                if k < r.len() - 1 {
                    assert(r2[k] == r[k]);
                }
            }
        } else {
            let r2 = r.push((c, 1nat));
            assert(r2.drop_last() =~= r);
            assert(Seq::new(1nat, |k: int| c) =~= seq![c]);
            assert(cells =~= p + seq![c]);
            assert forall|k: int| 0 <= k < r2.len() - 1 implies (#[trigger] r2[k]).0 != r2[k + 1].0 by {
                assert(r2[k] == r[k]);
                if k + 1 < r.len() {
                    assert(r2[k + 1] == r[k + 1]);
                }
            }
            assert forall|k: int| 0 <= k < r2.len() implies (#[trigger] r2[k]).1 > 0 by {
                if k < r.len() {
                    assert(r2[k] == r[k]);
                }
            }
        }
    }
}

/// The color of pixel `(x, y)` in a packed RGB buffer `cols` pixels wide.
pub open spec fn pixel(p: Seq<u8>, cols: nat, x: nat, y: nat) -> Rgb {
    let i = ((y * cols + x) * 3) as int;
    Rgb { r: p[i], g: p[i + 1], b: p[i + 2] }
}

/// Text row `row` of the art as cells: column `x` pairs pixel row `2*row`
/// (top) with pixel row `2*row + 1` (bottom).
pub open spec fn row_cells(p: Seq<u8>, cols: nat, row: nat) -> Seq<(Rgb, Rgb)> {
    Seq::new(cols, |x: int| (pixel(p, cols, x as nat, 2 * row), pixel(p, cols, x as nat, 2 * row + 1)))
}

proof fn lemma_cell_index(cols: nat, rows: nat, row: nat, x: nat)
    by (nonlinear_arith)
    requires
        row < rows,
        x < cols,
    ensures
        ((2 * row + 1) * cols + x) * 3 + 2 < cols * rows * 6,
        ((2 * row) * cols + x) * 3 + 2 < cols * rows * 6,
        ((2 * row + 1) * cols + x) * 3 == ((2 * row) * cols + x) * 3 + cols * 3,
        (2 * row) * cols + x <= cols * rows * 6,
        2 * row <= (2 * row) * cols,
        cols * 3 <= cols * rows * 6,
{
}

/// `lines` is the art of the packed RGB buffer `p`, `cols` pixels wide with
/// two pixel rows per line: each line is the runs of its row's cells.
pub open spec fn is_art_of(lines: Seq<Vec<((Rgb, Rgb), usize)>>, p: Seq<u8>, cols: nat) -> bool {
    &&& p.len() == cols * lines.len() * 6
    &&& forall|i: int|
        0 <= i < lines.len() ==> run_views(#[trigger] lines[i]@) == runs_spec(
            row_cells(p, cols, i as nat),
        )
}

/// The art for a packed RGB buffer of `cols` × `2*rows` pixels: one line of
/// runs per text row, each the runs of that row's cells.
pub fn art_rows(pixels: &[u8], cols: u32, rows: u32) -> (r: Vec<Vec<((Rgb, Rgb), usize)>>)
    requires
        pixels@.len() == cols * rows * 6,
    ensures
        r@.len() == rows,
        is_art_of(r@, pixels@, cols as nat),
{
    let len: usize = pixels.len();
    let mut out: Vec<Vec<((Rgb, Rgb), usize)>> = Vec::new();
    let mut row: u32 = 0;
    while row < rows
        invariant
            row <= rows,
            pixels@.len() == cols * rows * 6,
            len == pixels@.len(),
            out@.len() == row,
            forall|i: int|
                0 <= i < row ==> run_views(#[trigger] out@[i]@) == runs_spec(
                    row_cells(pixels@, cols as nat, i as nat),
                ),
        decreases rows - row,
    {
        let mut cells: Vec<(Rgb, Rgb)> = Vec::new();
        let mut x: u32 = 0;
        while x < cols
            invariant
                row < rows,
                x <= cols,
                pixels@.len() == cols * rows * 6,
                len == pixels@.len(),
                cells@.len() == x,
                forall|k: int|
                    0 <= k < x ==> #[trigger] cells@[k] == row_cells(pixels@, cols as nat, row as nat)[k],
            decreases cols - x,
        {
            proof {
                lemma_cell_index(cols as nat, rows as nat, row as nat, x as nat);
            }
            let top: usize = ((2 * row as usize) * cols as usize + x as usize) * 3;
            let bottom: usize = top + cols as usize * 3;
            let cell = (
                Rgb { r: pixels[top], g: pixels[top + 1], b: pixels[top + 2] },
                Rgb { r: pixels[bottom], g: pixels[bottom + 1], b: pixels[bottom + 2] },
            );
            cells.push(cell);
            x += 1;
        }
        proof {
            assert(cells@ =~= row_cells(pixels@, cols as nat, row as nat));
        }
        let runs = half_block_runs(cells.as_slice());
        out.push(runs);
        row += 1;
    }
    out
}

/// The `(width, height)` of the image `image::load_from_memory` decodes
/// from these bytes, or `None` when they do not decode.
pub uninterp spec fn dims_of(bytes: Seq<u8>) -> Option<(u32, u32)>;

/// The packed 8-bit RGB buffer of the image decoded from these bytes,
/// resampled by `DynamicImage::resize_exact` with the triangle filter to
/// `w` × `h` pixels, or `None` when the bytes do not decode.
pub uninterp spec fn rgb_of(bytes: Seq<u8>, w: u32, h: u32) -> Option<Seq<u8>>;

/// `image::load_from_memory` followed by `DynamicImage::width` and
/// `height`: the decoded image's size, named [`dims_of`]; `None` when the
/// bytes do not decode.
#[verifier::external_body]
fn decoded_dims(bytes: &[u8]) -> (r: Option<(u32, u32)>)
    ensures
        r == dims_of(bytes@),
{
    image::load_from_memory(bytes).ok().map(|image| (image.width(), image.height()))
}

/// `image::load_from_memory`, `DynamicImage::resize_exact` (triangle
/// filter), `to_rgb8` and `into_raw`: the decoded image resampled to
/// `w` × `h`, as packed RGB bytes, named [`rgb_of`]. The same decode as
/// [`decoded_dims`], so it succeeds exactly when that does; a buffer holds
/// three bytes for each of the `w * h` pixels.
#[verifier::external_body]
fn decoded_rgb(bytes: &[u8], w: u32, h: u32) -> (r: Option<Vec<u8>>)
    requires
        0 < w <= MAX_COLS,
        0 < h <= 2 * MAX_ROWS,
    ensures
        match r {
            Some(p) => rgb_of(bytes@, w, h) == Some(p@),
            None => rgb_of(bytes@, w, h) is None,
        },
        r is Some <==> dims_of(bytes@) is Some,
        r matches Some(p) ==> p@.len() == w * h * 3,
{
    image::load_from_memory(bytes).ok().map(
        |image| image.resize_exact(w, h, image::imageops::FilterType::Triangle).to_rgb8().into_raw(),
    )
}

/// `lines` is the half-block art of the image in `bytes` drawn `max_cols`
/// cells wide: the image decodes to some `w` × `h`, the art is
/// `grid_spec(max_cols, w, h)` = `(c, n)` cells, and its lines are the runs
/// of the image resampled to `c` × `2n` pixels, two pixel rows per line.
pub open spec fn art_of_image(lines: Seq<Vec<((Rgb, Rgb), usize)>>, bytes: Seq<u8>, max_cols: nat) -> bool {
    match dims_of(bytes) {
        None => false,
        Some((w, h)) => {
            let (c, n) = grid_spec(max_cols, w as nat, h as nat);
            &&& lines.len() == n
            &&& rgb_of(bytes, c as u32, (2 * n) as u32) matches Some(p) && is_art_of(lines, p, c)
        },
    }
}

/// Render encoded image bytes as half-block art `max_cols` cells wide:
/// `None` when they do not decode.
pub fn render(bytes: &[u8], max_cols: u16) -> (r: Option<Vec<Vec<((Rgb, Rgb), usize)>>>)
    ensures
        r is None <==> dims_of(bytes@) is None,
        r matches Some(lines) ==> art_of_image(lines@, bytes@, max_cols as nat),
        r matches Some(lines) ==> 1 <= lines@.len() <= MAX_ROWS,
        r matches Some(lines) ==> forall|i: int|
            0 <= i < lines@.len() ==> expand(run_views(#[trigger] lines@[i]@)).len() == clamp_nat(
                max_cols as nat,
                1,
                MAX_COLS as nat,
            ),
{
    let (width, height) = match decoded_dims(bytes) {
        Some(d) => d,
        None => return None,
    };
    let (cols, rows) = grid_size(max_cols, width, height);
    let pixels = match decoded_rgb(bytes, cols, rows * 2) {
        Some(p) => p,
        None => return None,
    };
    assert(pixels@.len() == cols * rows * 6) by (nonlinear_arith)
        requires
            pixels@.len() == cols * (rows * 2) * 3,
    ;
    let r = art_rows(pixels.as_slice(), cols, rows);
    proof {
        assert(grid_spec(max_cols as nat, width as nat, height as nat) == (cols as nat, rows as nat));
        assert((2 * rows as nat) as u32 == rows * 2);
        assert forall|i: int| 0 <= i < r@.len() implies expand(run_views(#[trigger] r@[i]@)).len()
            == clamp_nat(max_cols as nat, 1, MAX_COLS as nat) by {
            lemma_runs_round_trip(row_cells(pixels@, cols as nat, i as nat));
        }
    }
    Some(r)
}

/// Why image bytes give no art.
#[derive(Debug, Clone, PartialEq, Eq, Structural)]
pub enum ArtError {
    /// More than `MAX_BYTES` bytes; the count is kept.
    TooLarge(usize),
    /// The bytes are not an image the decoder reads.
    Undecodable,
}

/// Turn fetched image bytes into art `max_cols` cells wide: refuse more
/// than `MAX_BYTES` bytes, then bytes that do not decode, else render.
pub fn render_bytes(bytes: &[u8], max_cols: u16) -> (r: Result<Vec<Vec<((Rgb, Rgb), usize)>>, ArtError>)
    ensures
        bytes@.len() > MAX_BYTES <==> r == Err::<Vec<Vec<((Rgb, Rgb), usize)>>, ArtError>(
            ArtError::TooLarge(bytes@.len() as usize),
        ),
        bytes@.len() <= MAX_BYTES && dims_of(bytes@) is None <==> r == Err::<
            Vec<Vec<((Rgb, Rgb), usize)>>,
            ArtError,
        >(ArtError::Undecodable),
        r is Ok <==> bytes@.len() <= MAX_BYTES && dims_of(bytes@) is Some,
        r matches Ok(lines) ==> art_of_image(lines@, bytes@, max_cols as nat),
{
    if bytes.len() > MAX_BYTES {
        return Err(ArtError::TooLarge(bytes.len()));
    }
    match render(bytes, max_cols) {
        Some(lines) => Ok(lines),
        None => Err(ArtError::Undecodable),
    }
}

/// The first `max` cells of a line of runs: whole runs while they fit, then
/// the part of the next run that does, if any.
pub open spec fn clip_spec(runs: Seq<((Rgb, Rgb), nat)>, max: nat) -> Seq<((Rgb, Rgb), nat)>
    decreases runs.len(),
{
    if runs.len() == 0 {
        seq![]
    } else if runs[0].1 <= max {
        seq![runs[0]] + clip_spec(runs.drop_first(), (max - runs[0].1) as nat)
    } else if max == 0 {
        seq![]
    } else {
        seq![(runs[0].0, max)]
    }
}

/// Clip a line of art to `max_width` cells, so that art drawn for a wider
/// pane cannot wrap in a narrower one.
pub fn clip_runs(runs: &[((Rgb, Rgb), usize)], max_width: u16) -> (r: Vec<((Rgb, Rgb), usize)>)
    ensures
        run_views(r@) == clip_spec(run_views(runs@), max_width as nat),
{
    let ghost whole = run_views(runs@);
    let mut out: Vec<((Rgb, Rgb), usize)> = Vec::new();
    let mut used: usize = 0;
    let mut i: usize = 0;
    proof {
        assert(whole.skip(0) =~= whole);
        assert(run_views(out@) + clip_spec(whole, max_width as nat) =~= clip_spec(whole, max_width as nat));
    }
    while i < runs.len()
        invariant
            0 <= i <= runs@.len(),
            used <= max_width,
            whole == run_views(runs@),
            clip_spec(whole, max_width as nat) == run_views(out@) + clip_spec(
                whole.skip(i as int),
                (max_width - used) as nat,
            ),
        decreases runs@.len() - i,
    {
        let (cell, n) = runs[i];
        let room: usize = max_width as usize - used;
        proof {
            assert(whole.skip(i as int).drop_first() =~= whole.skip(i + 1));
            assert(whole.skip(i as int)[0] == (cell, n as nat));
        }
        if n <= room {
            let ghost before = run_views(out@);
            out.push((cell, n));
            proof {
                assert(run_views(out@) =~= before + seq![(cell, n as nat)]);
                assert(before + seq![(cell, n as nat)] + clip_spec(whole.skip(i + 1), (room - n) as nat)
                    =~= before + (seq![(cell, n as nat)] + clip_spec(whole.skip(i + 1), (room - n) as nat)));
            }
            used = used + n;
            i += 1;
        } else {
            if room > 0 {
                let ghost before = run_views(out@);
                out.push((cell, room));
                proof {
                    assert(run_views(out@) =~= before + seq![(cell, room as nat)]);
                }
            } else {
                proof {
                    assert(run_views(out@) =~= run_views(out@) + Seq::<((Rgb, Rgb), nat)>::empty());
                }
            }
            return out;
        }
    }
    proof {
        assert(whole.skip(i as int).len() == 0);
        assert(run_views(out@) =~= run_views(out@) + Seq::<((Rgb, Rgb), nat)>::empty());
    }
    out
}

proof fn lemma_expand_front(a: ((Rgb, Rgb), nat), rest: Seq<((Rgb, Rgb), nat)>)
    ensures
        expand(seq![a] + rest) =~= Seq::new(a.1, |k: int| a.0) + expand(rest),
    decreases rest.len(),
{
    let s = seq![a] + rest;
    let head = Seq::new(a.1, |k: int| a.0);
    if rest.len() == 0 {
        assert(s =~= seq![a]);
        assert(s.drop_last() =~= Seq::<((Rgb, Rgb), nat)>::empty());
        assert(expand(s) == expand(s.drop_last()) + Seq::new(s.last().1, |k: int| s.last().0));
        assert(expand(s.drop_last()) =~= Seq::<(Rgb, Rgb)>::empty());
        assert(expand(rest) =~= Seq::<(Rgb, Rgb)>::empty());
        assert(expand(s) =~= head);
        assert(head + expand(rest) =~= head);
    } else {
        lemma_expand_front(a, rest.drop_last());
        assert(s.drop_last() =~= seq![a] + rest.drop_last());
        assert(s.last() == rest.last());
        let tail = Seq::new(rest.last().1, |k: int| rest.last().0);
        assert(expand(s) == expand(s.drop_last()) + Seq::new(s.last().1, |k: int| s.last().0));
        assert(Seq::new(s.last().1, |k: int| s.last().0) =~= tail);
        assert(expand(rest) == expand(rest.drop_last()) + tail);
        assert(expand(s) =~= head + expand(rest.drop_last()) + tail);
        assert(head + expand(rest.drop_last()) + tail =~= head + (expand(rest.drop_last()) + tail));
    }
}

/// Clipping keeps exactly the first cells of the line: as many as fit in
/// `max`, or all of them when the line is shorter.
pub proof fn lemma_clip_keeps_a_prefix(runs: Seq<((Rgb, Rgb), nat)>, max: nat)
    ensures
        expand(clip_spec(runs, max)) == expand(runs).take(
            if max < expand(runs).len() { max as int } else { expand(runs).len() as int },
        ),
    decreases runs.len(),
{
    if runs.len() == 0 {
        assert(expand(runs).take(0) =~= Seq::<(Rgb, Rgb)>::empty());
    } else {
        let a = runs[0];
        let rest = runs.drop_first();
        assert(runs =~= seq![a] + rest);
        lemma_expand_front(a, rest);
        let head = Seq::new(a.1, |k: int| a.0);
        if a.1 <= max {
            let m2 = (max - a.1) as nat;
            lemma_clip_keeps_a_prefix(rest, m2);
            lemma_expand_front(a, clip_spec(rest, m2));
            let e = expand(rest);
            let t = if m2 < e.len() { m2 as int } else { e.len() as int };
            assert(head + e.take(t) =~= (head + e).take(a.1 + t));
        } else if max == 0 {
            assert(expand(Seq::<((Rgb, Rgb), nat)>::empty()) =~= Seq::<(Rgb, Rgb)>::empty());
            assert(expand(runs).take(0) =~= Seq::<(Rgb, Rgb)>::empty());
        } else {
            lemma_expand_front((a.0, max), Seq::<((Rgb, Rgb), nat)>::empty());
            assert(seq![(a.0, max)] + Seq::<((Rgb, Rgb), nat)>::empty() =~= seq![(a.0, max)]);
            assert(expand(Seq::<((Rgb, Rgb), nat)>::empty()) =~= Seq::<(Rgb, Rgb)>::empty());
            assert(Seq::new(max, |k: int| a.0) + Seq::<(Rgb, Rgb)>::empty() =~= (head + expand(rest)).take(max as int));
        }
    }
}

} // verus!
