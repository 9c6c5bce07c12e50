//! `host.screen.profile`'s reduction, in integers: a part of a picture reduced, per column and
//! per row, to its darkest and lightest luminance, how many pixels are darker than a
//! threshold, and the sums of the luminance and of each channel. The means those sums make
//! are fractions, divided by the application.
use vstd::prelude::*;

verus! {

/// What one column or row has gathered.
pub struct Stats {
    pub min: int,
    pub max: int,
    pub dark: int,
    pub sum: int,
    pub r: int,
    pub g: int,
    pub b: int,
}

/// Nothing gathered yet.
pub open spec fn no_stats() -> Stats {
    Stats { min: 255, max: 0, dark: 0, sum: 0, r: 0, g: 0, b: 0 }
}

/// A pixel's luminance, ITU-R BT.601, in whole steps.
pub open spec fn lum(r: u8, g: u8, b: u8) -> int {
    (r * 299 + g * 587 + b * 114) / 1000
}

/// `s` with one more pixel: darker than `dark` counts as dark.
pub open spec fn with_pixel(s: Stats, r: u8, g: u8, b: u8, dark: u8) -> Stats {
    let l = lum(r, g, b);
    Stats {
        min: if l < s.min {
            l
        } else {
            s.min
        },
        max: if l > s.max {
            l
        } else {
            s.max
        },
        dark: s.dark + if l < dark {
            1int
        } else {
            0int
        },
        sum: s.sum + l,
        r: s.r + r,
        g: s.g + g,
        b: s.b + b,
    }
}

/// Channel `c` of the pixel at `(x, y)` of an image `iw` pixels wide, four bytes a pixel.
pub open spec fn channel(rgba: Seq<u8>, iw: int, x: int, y: int, c: int) -> u8 {
    rgba[(y * iw + x) * 4 + c]
}

/// Column `x` of the area at `(ax, ay)`, over its first `n` rows.
pub open spec fn column_stats(rgba: Seq<u8>, iw: int, ax: int, ay: int, x: int, n: int, dark: u8) -> Stats
    decreases n,
{
    if n <= 0 {
        no_stats()
    } else {
        with_pixel(
            column_stats(rgba, iw, ax, ay, x, n - 1, dark),
            channel(rgba, iw, ax + x, ay + n - 1, 0),
            channel(rgba, iw, ax + x, ay + n - 1, 1),
            channel(rgba, iw, ax + x, ay + n - 1, 2),
            dark,
        )
    }
}

/// Row `y` of the area at `(ax, ay)`, over its first `n` columns.
pub open spec fn row_stats(rgba: Seq<u8>, iw: int, ax: int, ay: int, y: int, n: int, dark: u8) -> Stats
    decreases n,
{
    if n <= 0 {
        no_stats()
    } else {
        with_pixel(
            row_stats(rgba, iw, ax, ay, y, n - 1, dark),
            channel(rgba, iw, ax + n - 1, ay + y, 0),
            channel(rgba, iw, ax + n - 1, ay + y, 1),
            channel(rgba, iw, ax + n - 1, ay + y, 2),
            dark,
        )
    }
}

/// Channel `c` (0 red, 1 green, 2 blue) of the `k`-th pixel of line `i` of the area at
/// `(ax, ay)`: down column `i` when `down`, along row `i` otherwise.
pub open spec fn line_channel(rgba: Seq<u8>, iw: int, ax: int, ay: int, i: int, k: int, down: bool, c: int) -> u8 {
    if down {
        rgba[((ay + k) * iw + ax + i) * 4 + c]
    } else {
        rgba[((ay + i) * iw + ax + k) * 4 + c]
    }
}

/// The luminance of the `k`-th pixel of line `i`.
pub open spec fn line_lum(rgba: Seq<u8>, iw: int, ax: int, ay: int, i: int, k: int, down: bool) -> int {
    lum(line_channel(rgba, iw, ax, ay, i, k, down, 0), line_channel(rgba, iw, ax, ay, i, k, down, 1), line_channel(rgba, iw, ax, ay, i, k, down, 2))
}

/// The sum of channel `c` over the first `n` pixels of line `i`.
pub open spec fn channel_total(rgba: Seq<u8>, iw: int, ax: int, ay: int, i: int, n: int, down: bool, c: int) -> int
    decreases n,
{
    if n <= 0 {
        0
    } else {
        channel_total(rgba, iw, ax, ay, i, n - 1, down, c) + line_channel(rgba, iw, ax, ay, i, n - 1, down, c)
    }
}

/// The sum of the luminance over the first `n` pixels of line `i`.
pub open spec fn lum_total(rgba: Seq<u8>, iw: int, ax: int, ay: int, i: int, n: int, down: bool) -> int
    decreases n,
{
    if n <= 0 {
        0
    } else {
        lum_total(rgba, iw, ax, ay, i, n - 1, down) + line_lum(rgba, iw, ax, ay, i, n - 1, down)
    }
}

/// How many of the first `n` pixels of line `i` are darker than `dark`.
pub open spec fn dark_count(rgba: Seq<u8>, iw: int, ax: int, ay: int, i: int, n: int, down: bool, dark: u8) -> int
    decreases n,
{
    if n <= 0 {
        0
    } else {
        dark_count(rgba, iw, ax, ay, i, n - 1, down, dark) + if line_lum(rgba, iw, ax, ay, i, n - 1, down) < dark {
            1int
        } else {
            0int
        }
    }
}

/// Whether `t` is what the first `n` pixels of line `i` gather: each channel's sum, the
/// luminance's sum, how many are darker than `dark`, and the darkest and lightest luminance
/// among them (255 and 0 when there are none).
pub open spec fn gathers(t: Stats, rgba: Seq<u8>, iw: int, ax: int, ay: int, i: int, n: int, down: bool, dark: u8) -> bool {
    &&& t.r == channel_total(rgba, iw, ax, ay, i, n, down, 0)
    &&& t.g == channel_total(rgba, iw, ax, ay, i, n, down, 1)
    &&& t.b == channel_total(rgba, iw, ax, ay, i, n, down, 2)
    &&& t.sum == lum_total(rgba, iw, ax, ay, i, n, down)
    &&& t.dark == dark_count(rgba, iw, ax, ay, i, n, down, dark)
    &&& forall|k: int| 0 <= k < n ==> t.min <= #[trigger] line_lum(rgba, iw, ax, ay, i, k, down) <= t.max
    &&& n > 0 ==> exists|k: int| 0 <= k < n && t.min == #[trigger] line_lum(rgba, iw, ax, ay, i, k, down)
    &&& n > 0 ==> exists|k: int| 0 <= k < n && t.max == #[trigger] line_lum(rgba, iw, ax, ay, i, k, down)
    &&& n <= 0 ==> t.min == 255 && t.max == 0
}

/// One step of a line: `t'` is `t` with the `n`-th pixel of the line.
proof fn lemma_gathers_step(t: Stats, rgba: Seq<u8>, iw: int, ax: int, ay: int, i: int, n: int, down: bool, dark: u8)
    requires
        0 <= n,
        gathers(t, rgba, iw, ax, ay, i, n, down, dark),
    ensures
        gathers(
            with_pixel(
                t,
                line_channel(rgba, iw, ax, ay, i, n, down, 0),
                line_channel(rgba, iw, ax, ay, i, n, down, 1),
                line_channel(rgba, iw, ax, ay, i, n, down, 2),
                dark,
            ),
            rgba,
            iw,
            ax,
            ay,
            i,
            n + 1,
            down,
            dark,
        ),
{
    let l = line_lum(rgba, iw, ax, ay, i, n, down);
    let t2 = with_pixel(
        t,
        line_channel(rgba, iw, ax, ay, i, n, down, 0),
        line_channel(rgba, iw, ax, ay, i, n, down, 1),
        line_channel(rgba, iw, ax, ay, i, n, down, 2),
        dark,
    );
    lemma_bounds(
        no_stats(),
        0,
        line_channel(rgba, iw, ax, ay, i, n, down, 0),
        line_channel(rgba, iw, ax, ay, i, n, down, 1),
        line_channel(rgba, iw, ax, ay, i, n, down, 2),
        dark,
    );
    assert(0 <= l <= 255);
    assert forall|k: int| 0 <= k < n + 1 implies t2.min <= #[trigger] line_lum(rgba, iw, ax, ay, i, k, down) <= t2.max by {
        if k < n {
            assert(t.min <= line_lum(rgba, iw, ax, ay, i, k, down) <= t.max);
        }
    }
    if n == 0 {
        assert(t2.min == l && t2.max == l);
        assert(t2.min == line_lum(rgba, iw, ax, ay, i, 0, down));
    } else {
        if l < t.min {
            assert(t2.min == line_lum(rgba, iw, ax, ay, i, n, down));
        } else {
            let k = choose|k: int| 0 <= k < n && t.min == #[trigger] line_lum(rgba, iw, ax, ay, i, k, down);
            assert(t2.min == line_lum(rgba, iw, ax, ay, i, k, down));
        }
        if l > t.max {
            assert(t2.max == line_lum(rgba, iw, ax, ay, i, n, down));
        } else {
            let k = choose|k: int| 0 <= k < n && t.max == #[trigger] line_lum(rgba, iw, ax, ay, i, k, down);
            assert(t2.max == line_lum(rgba, iw, ax, ay, i, k, down));
        }
    }
}

/// What a column gathers over its first `n` pixels is exactly what those pixels hold: the
/// sum of each of their channels, red, green and blue apart, the sum of their luminance, how
/// many are darker than `dark`, and their darkest and lightest luminance.
pub proof fn a_column_gathers_its_pixels(rgba: Seq<u8>, iw: int, ax: int, ay: int, x: int, n: int, dark: u8)
    requires
        0 <= n,
    ensures
        gathers(column_stats(rgba, iw, ax, ay, x, n, dark), rgba, iw, ax, ay, x, n, true, dark),
    decreases n,
{
    if n > 0 {
        a_column_gathers_its_pixels(rgba, iw, ax, ay, x, n - 1, dark);
        lemma_gathers_step(column_stats(rgba, iw, ax, ay, x, n - 1, dark), rgba, iw, ax, ay, x, n - 1, true, dark);
        assert(channel(rgba, iw, ax + x, ay + n - 1, 0) == line_channel(rgba, iw, ax, ay, x, n - 1, true, 0));
        assert(channel(rgba, iw, ax + x, ay + n - 1, 1) == line_channel(rgba, iw, ax, ay, x, n - 1, true, 1));
        assert(channel(rgba, iw, ax + x, ay + n - 1, 2) == line_channel(rgba, iw, ax, ay, x, n - 1, true, 2));
    }
}

/// What a row gathers over its first `n` pixels is exactly what those pixels hold, as for a
/// column.
pub proof fn a_row_gathers_its_pixels(rgba: Seq<u8>, iw: int, ax: int, ay: int, y: int, n: int, dark: u8)
    requires
        0 <= n,
    ensures
        gathers(row_stats(rgba, iw, ax, ay, y, n, dark), rgba, iw, ax, ay, y, n, false, dark),
    decreases n,
{
    if n > 0 {
        a_row_gathers_its_pixels(rgba, iw, ax, ay, y, n - 1, dark);
        lemma_gathers_step(row_stats(rgba, iw, ax, ay, y, n - 1, dark), rgba, iw, ax, ay, y, n - 1, false, dark);
        assert(channel(rgba, iw, ax + n - 1, ay + y, 0) == line_channel(rgba, iw, ax, ay, y, n - 1, false, 0));
        assert(channel(rgba, iw, ax + n - 1, ay + y, 1) == line_channel(rgba, iw, ax, ay, y, n - 1, false, 1));
        assert(channel(rgba, iw, ax + n - 1, ay + y, 2) == line_channel(rgba, iw, ax, ay, y, n - 1, false, 2));
    }
}

/// Per column (or per row) of an area, what it gathered.
pub struct Sums {
    pub min: Vec<u8>,
    pub max: Vec<u8>,
    pub dark: Vec<u32>,
    pub sum: Vec<u64>,
    pub ch: Vec<(u64, u64, u64)>,
}

/// Whether slot `i` of `s` holds `t`.
pub open spec fn holds(s: Sums, i: int, t: Stats) -> bool {
    &&& s.min@[i] == t.min
    &&& s.max@[i] == t.max
    &&& s.dark@[i] == t.dark
    &&& s.sum@[i] == t.sum
    &&& s.ch@[i].0 == t.r
    &&& s.ch@[i].1 == t.g
    &&& s.ch@[i].2 == t.b
}

pub open spec fn sized(s: Sums, n: int) -> bool {
    s.min@.len() == n && s.max@.len() == n && s.dark@.len() == n && s.sum@.len() == n && s.ch@.len() == n
}

/// What `n` pixels gather is bounded by `n` of them.
proof fn lemma_bounds(t: Stats, n: int, r: u8, g: u8, b: u8, dark: u8)
    requires
        0 <= n,
        0 <= t.min <= 255,
        0 <= t.max <= 255,
        0 <= t.dark <= n,
        0 <= t.sum <= 255 * n,
        0 <= t.r <= 255 * n,
        0 <= t.g <= 255 * n,
        0 <= t.b <= 255 * n,
    ensures
        0 <= lum(r, g, b) <= 255,
        0 <= with_pixel(t, r, g, b, dark).min <= 255,
        0 <= with_pixel(t, r, g, b, dark).max <= 255,
        0 <= with_pixel(t, r, g, b, dark).dark <= n + 1,
        0 <= with_pixel(t, r, g, b, dark).sum <= 255 * (n + 1),
        0 <= with_pixel(t, r, g, b, dark).r <= 255 * (n + 1),
        0 <= with_pixel(t, r, g, b, dark).g <= 255 * (n + 1),
        0 <= with_pixel(t, r, g, b, dark).b <= 255 * (n + 1),
{
    assert(0 <= r * 299 + g * 587 + b * 114 <= 255 * 1000) by (nonlinear_arith)
        requires
            r <= 255,
            g <= 255,
            b <= 255,
    ;
}

pub open spec fn bounded(t: Stats, n: int) -> bool {
    &&& 0 <= t.min <= 255
    &&& 0 <= t.max <= 255
    &&& 0 <= t.dark <= n
    &&& 0 <= t.sum <= 255 * n
    &&& 0 <= t.r <= 255 * n
    &&& 0 <= t.g <= 255 * n
    &&& 0 <= t.b <= 255 * n
}

proof fn lemma_column_bounded(rgba: Seq<u8>, iw: int, ax: int, ay: int, x: int, n: int, dark: u8)
    requires
        0 <= n,
    ensures
        bounded(column_stats(rgba, iw, ax, ay, x, n, dark), n),
    decreases n,
{
    if n > 0 {
        lemma_column_bounded(rgba, iw, ax, ay, x, n - 1, dark);
        lemma_bounds(
            column_stats(rgba, iw, ax, ay, x, n - 1, dark),
            n - 1,
            channel(rgba, iw, ax + x, ay + n - 1, 0),
            channel(rgba, iw, ax + x, ay + n - 1, 1),
            channel(rgba, iw, ax + x, ay + n - 1, 2),
            dark,
        );
    }
}

proof fn lemma_row_bounded(rgba: Seq<u8>, iw: int, ax: int, ay: int, y: int, n: int, dark: u8)
    requires
        0 <= n,
    ensures
        bounded(row_stats(rgba, iw, ax, ay, y, n, dark), n),
    decreases n,
{
    if n > 0 {
        lemma_row_bounded(rgba, iw, ax, ay, y, n - 1, dark);
        lemma_bounds(
            row_stats(rgba, iw, ax, ay, y, n - 1, dark),
            n - 1,
            channel(rgba, iw, ax + n - 1, ay + y, 0),
            channel(rgba, iw, ax + n - 1, ay + y, 1),
            channel(rgba, iw, ax + n - 1, ay + y, 2),
            dark,
        );
    }
}

fn fresh(n: usize) -> (s: Sums)
    ensures
        sized(s, n as int),
        forall|i: int| 0 <= i < n ==> holds(s, i, no_stats()),
{
    let mut s = Sums { min: Vec::new(), max: Vec::new(), dark: Vec::new(), sum: Vec::new(), ch: Vec::new() };
    let mut k: usize = 0;
    while k < n
        invariant
            k <= n,
            sized(s, k as int),
            forall|i: int| 0 <= i < k ==> holds(s, i, no_stats()),
        decreases n - k,
    {
        let ghost before = s;
        s.min.push(255);
        s.max.push(0);
        s.dark.push(0);
        s.sum.push(0);
        s.ch.push((0, 0, 0));
        proof {
            assert forall|i: int| 0 <= i < k + 1 implies holds(s, i, no_stats()) by {
                if i < k {
                    assert(holds(before, i, no_stats()));
                    assert(same_slot(s, before, i));
                } else {
                    assert(s.min@[i] == 255u8 && s.max@[i] == 0u8 && s.dark@[i] == 0u32 && s.sum@[i] == 0u64);
                    assert(s.ch@[i] == (0u64, 0u64, 0u64));
                }
            }
        }
        k += 1;
    }
    s
}

/// One more pixel into slot `i`.
fn add_pixel(s: &mut Sums, i: usize, r: u8, g: u8, b: u8, dark: u8, Ghost(t): Ghost<Stats>, Ghost(n): Ghost<int>)
    requires
        i < old(s).min@.len(),
        sized(*old(s), old(s).min@.len() as int),
        holds(*old(s), i as int, t),
        bounded(t, n),
        0 <= n < 0xffff_ffff,
    ensures
        sized(*final(s), old(s).min@.len() as int),
        holds(*final(s), i as int, with_pixel(t, r, g, b, dark)),
        forall|j: int| 0 <= j < old(s).min@.len() && j != i ==> same_slot(*final(s), *old(s), j),
{
    proof {
        lemma_bounds(t, n, r, g, b, dark);
    }
    let l = ((r as u32 * 299 + g as u32 * 587 + b as u32 * 114) / 1000) as u8;
    if l < dark {
        let d = s.dark[i];
        s.dark.set(i, d + 1);
    }
    if l < s.min[i] {
        s.min.set(i, l);
    }
    if l > s.max[i] {
        s.max.set(i, l);
    }
    let v = s.sum[i];
    s.sum.set(i, v + l as u64);
    let c = s.ch[i];
    s.ch.set(i, (c.0 + r as u64, c.1 + g as u64, c.2 + b as u64));
}

/// Slot `j` of `a` as a `Stats`.
pub open spec fn t_of(a: Sums, j: int) -> Stats {
    Stats { min: a.min@[j] as int, max: a.max@[j] as int, dark: a.dark@[j] as int, sum: a.sum@[j] as int, r: a.ch@[j].0 as int, g: a.ch@[j].1 as int, b: a.ch@[j].2 as int }
}

/// Whether slot `j` is the same in `a` and `b`.
pub open spec fn same_slot(a: Sums, b: Sums, j: int) -> bool {
    a.min@[j] == b.min@[j] && a.max@[j] == b.max@[j] && a.dark@[j] == b.dark@[j] && a.sum@[j] == b.sum@[j] && a.ch@[j] == b.ch@[j]
}

proof fn lemma_columns_gather(s: Sums, rgba: Seq<u8>, iw: int, ax: int, ay: int, lines: int, n: int, dark: u8)
    requires
        0 <= n,
        forall|i: int| 0 <= i < lines ==> #[trigger] holds(s, i, column_stats(rgba, iw, ax, ay, i, n, dark)),
    ensures
        forall|i: int| 0 <= i < lines ==> #[trigger] gathers(t_of(s, i), rgba, iw, ax, ay, i, n, true, dark),
{
    assert forall|i: int| 0 <= i < lines implies #[trigger] gathers(t_of(s, i), rgba, iw, ax, ay, i, n, true, dark) by {
        assert(holds(s, i, column_stats(rgba, iw, ax, ay, i, n, dark)));
        a_column_gathers_its_pixels(rgba, iw, ax, ay, i, n, dark);
        assert(t_of(s, i) == column_stats(rgba, iw, ax, ay, i, n, dark));
    }
}

proof fn lemma_rows_gather(s: Sums, rgba: Seq<u8>, iw: int, ax: int, ay: int, lines: int, n: int, dark: u8)
    requires
        0 <= n,
        forall|i: int| 0 <= i < lines ==> #[trigger] holds(s, i, row_stats(rgba, iw, ax, ay, i, n, dark)),
    ensures
        forall|i: int| 0 <= i < lines ==> #[trigger] gathers(t_of(s, i), rgba, iw, ax, ay, i, n, false, dark),
{
    assert forall|i: int| 0 <= i < lines implies #[trigger] gathers(t_of(s, i), rgba, iw, ax, ay, i, n, false, dark) by {
        assert(holds(s, i, row_stats(rgba, iw, ax, ay, i, n, dark)));
        a_row_gathers_its_pixels(rgba, iw, ax, ay, i, n, dark);
        assert(t_of(s, i) == row_stats(rgba, iw, ax, ay, i, n, dark));
    }
}

proof fn lemma_offset(yy: int, xx: int, iw: int, ih: int)
    by (nonlinear_arith)
    requires
        0 <= yy < ih,
        0 <= xx < iw,
    ensures
        0 <= yy * iw,
        yy * iw + xx < iw * ih,
        (yy * iw + xx) * 4 + 3 < iw * ih * 4,
{
}

/// The profile of the area at `(ax, ay)`, `aw` by `ah`, of an image `iw` by `ih` pixels held as
/// RGBA bytes: per column when `cols`, per row when `rows`, what its pixels gather, counting as
/// dark every pixel whose luminance is below `dark`. `None` when the area is empty, does not
/// lie inside the image, or the image holds fewer bytes than its size says — nothing is read
/// then. Both axes come from one pass over the area.
#[verifier::rlimit(60)]
pub fn profile_sums(
    iw: u32,
    ih: u32,
    rgba: &Vec<u8>,
    ax: u32,
    ay: u32,
    aw: u32,
    ah: u32,
    cols: bool,
    rows: bool,
    dark: u8,
) -> (r: Option<(Option<Sums>, Option<Sums>)>)
    ensures
        (r is None) == (aw == 0 || ah == 0 || ax + aw > iw || ay + ah > ih || rgba@.len() < iw * ih * 4),
        r matches Some(p) ==> {
            &&& (p.0 is Some) == cols
            &&& (p.1 is Some) == rows
            &&& (p.0 matches Some(c) ==> sized(c, aw as int) && forall|x: int|
                0 <= x < aw ==> #[trigger] holds(c, x, column_stats(rgba@, iw as int, ax as int, ay as int, x, ah as int, dark)))
            &&& (p.1 matches Some(w) ==> sized(w, ah as int) && forall|y: int|
                0 <= y < ah ==> #[trigger] holds(w, y, row_stats(rgba@, iw as int, ax as int, ay as int, y, aw as int, dark)))
            &&& (p.0 matches Some(c) ==> forall|x: int|
                0 <= x < aw ==> #[trigger] gathers(t_of(c, x), rgba@, iw as int, ax as int, ay as int, x, ah as int, true, dark))
            &&& (p.1 matches Some(w) ==> forall|y: int|
                0 <= y < ah ==> #[trigger] gathers(t_of(w, y), rgba@, iw as int, ax as int, ay as int, y, aw as int, false, dark))
        },
{
    assert((iw as int) * (ih as int) <= 0xffff_ffff * 0xffff_ffff) by (nonlinear_arith)
        requires
            iw <= 0xffff_ffff,
            ih <= 0xffff_ffff,
    ;
    let pixels: u128 = iw as u128 * ih as u128;
    if aw == 0 || ah == 0 || ax as u64 + aw as u64 > iw as u64 || ay as u64 + ah as u64 > ih as u64 || (rgba.len() as u128)
        < pixels * 4 {
        return None;
    }
    let ghost img = rgba@;
    let ghost (giw, gax, gay) = (iw as int, ax as int, ay as int);
    let mut c = fresh(if cols {
        aw as usize
    } else {
        0
    });
    let mut rw = fresh(if rows {
        ah as usize
    } else {
        0
    });
    let mut y: u32 = 0;
    while y < ah
        invariant
            0 < aw,
            0 < ah,
            ax + aw <= iw,
            ay + ah <= ih,
            iw * ih * 4 <= rgba@.len(),
            img == rgba@,
            giw == iw,
            gax == ax,
            gay == ay,
            y <= ah,
            sized(c, if cols { aw as int } else { 0 }),
            sized(rw, if rows { ah as int } else { 0 }),
            cols ==> forall|x: int| 0 <= x < aw ==> #[trigger] holds(c, x, column_stats(img, giw, gax, gay, x, y as int, dark)),
            rows ==> forall|k: int| 0 <= k < y ==> #[trigger] holds(rw, k, row_stats(img, giw, gax, gay, k, aw as int, dark)),
            rows ==> forall|k: int| y <= k < ah ==> #[trigger] holds(rw, k, no_stats()),
        decreases ah - y,
    {
        let mut x: u32 = 0;
        proof {
            if rows {
                assert(holds(rw, y as int, no_stats()));
            }
        }
        while x < aw
            invariant
                0 < aw,
                y < ah,
                ax + aw <= iw,
                ay + ah <= ih,
                iw * ih * 4 <= rgba@.len(),
                img == rgba@,
                giw == iw,
                gax == ax,
                gay == ay,
                x <= aw,
                sized(c, if cols { aw as int } else { 0 }),
                sized(rw, if rows { ah as int } else { 0 }),
                cols ==> forall|k: int| 0 <= k < x ==> #[trigger] holds(c, k, column_stats(img, giw, gax, gay, k, y + 1, dark)),
                cols ==> forall|k: int| x <= k < aw ==> #[trigger] holds(c, k, column_stats(img, giw, gax, gay, k, y as int, dark)),
                rows ==> holds(rw, y as int, row_stats(img, giw, gax, gay, y as int, x as int, dark)),
                rows ==> forall|k: int| 0 <= k < y ==> #[trigger] holds(rw, k, row_stats(img, giw, gax, gay, k, aw as int, dark)),
                rows ==> forall|k: int| y < k < ah ==> #[trigger] holds(rw, k, no_stats()),
            decreases aw - x,
        {
            proof {
                lemma_offset((ay + y) as int, (ax + x) as int, iw as int, ih as int);
            }
            let yy = ay as usize + y as usize;
            let xx = ax as usize + x as usize;
            let len = rgba.len();
            assert(len == rgba@.len());
            let w = iw as usize;
            assert(yy * w + xx < rgba@.len());
            assert(yy * w <= yy * w + xx);
            let line = yy * w;
            assert((line + xx) * 4 + 3 < rgba@.len());
            let o = (line + xx) * 4;
            let (pr, pg, pb) = (rgba[o], rgba[o + 1], rgba[o + 2]);
            proof {
                assert(pr == channel(img, giw, gax + x, gay + y, 0));
                assert(pg == channel(img, giw, gax + x, gay + y, 1));
                assert(pb == channel(img, giw, gax + x, gay + y, 2));
            }
            if cols {
                let ghost before = c;
                let ghost t = column_stats(img, giw, gax, gay, x as int, y as int, dark);
                proof {
                    lemma_column_bounded(img, giw, gax, gay, x as int, y as int, dark);
                    assert(holds(c, x as int, t));
                }
                add_pixel(&mut c, x as usize, pr, pg, pb, dark, Ghost(t), Ghost(y as int));
                proof {
                    assert(column_stats(img, giw, gax, gay, x as int, y + 1, dark) == with_pixel(t, pr, pg, pb, dark));
                    assert forall|k: int| 0 <= k < x + 1 implies #[trigger] holds(c, k, column_stats(img, giw, gax, gay, k, y + 1, dark)) by {
                        if k < x {
                            assert(holds(before, k, column_stats(img, giw, gax, gay, k, y + 1, dark)));
                            assert(same_slot(c, before, k));
                        }
                    }
                    assert forall|k: int| x + 1 <= k < aw implies #[trigger] holds(c, k, column_stats(img, giw, gax, gay, k, y as int, dark)) by {
                        assert(holds(before, k, column_stats(img, giw, gax, gay, k, y as int, dark)));
                        assert(same_slot(c, before, k));
                    }
                }
            }
            if rows {
                let ghost before = rw;
                let ghost t = row_stats(img, giw, gax, gay, y as int, x as int, dark);
                proof {
                    lemma_row_bounded(img, giw, gax, gay, y as int, x as int, dark);
                }
                add_pixel(&mut rw, y as usize, pr, pg, pb, dark, Ghost(t), Ghost(x as int));
                proof {
                    assert(row_stats(img, giw, gax, gay, y as int, x + 1, dark) == with_pixel(t, pr, pg, pb, dark));
                    assert forall|k: int| 0 <= k < y implies #[trigger] holds(rw, k, row_stats(img, giw, gax, gay, k, aw as int, dark)) by {
                        assert(holds(before, k, row_stats(img, giw, gax, gay, k, aw as int, dark)));
                        assert(same_slot(rw, before, k));
                    }
                    assert forall|k: int| y < k < ah implies #[trigger] holds(rw, k, no_stats()) by {
                        assert(holds(before, k, no_stats()));
                        assert(same_slot(rw, before, k));
                    }
                }
            }
            x += 1;
        }
        y += 1;
    }
    proof {
        if cols {
            lemma_columns_gather(c, rgba@, iw as int, ax as int, ay as int, aw as int, ah as int, dark);
        }
        if rows {
            lemma_rows_gather(rw, rgba@, iw as int, ax as int, ay as int, ah as int, aw as int, dark);
        }
    }
    Some((
        if cols {
            Some(c)
        } else {
            None
        },
        if rows {
            Some(rw)
        } else {
            None
        },
    ))
}

} // verus!
