use vstd::prelude::*;

verus! {

/// Coverage value at or above which a pixel counts as ink.
pub const THRESH: u8 = 100;

/// Pixel `(y, c)` of a row-major bitmap of width `w` is inked.
pub open spec fn inked(bm: Seq<u8>, w: int, y: int, c: int) -> bool {
    bm[y * w + c] >= THRESH
}

/// `[a, b)` is a maximal run of inked pixels in row `y`.
pub open spec fn is_span(bm: Seq<u8>, w: int, y: int, a: int, b: int) -> bool {
    &&& 0 <= a < b <= w
    &&& forall|c: int| a <= c < b ==> #[trigger] inked(bm, w, y, c)
    &&& (a == 0 || !inked(bm, w, y, a - 1))
    &&& (b == w || !inked(bm, w, y, b))
}

/// The index of pixel `(row, c)` lies inside a `w * h` bitmap.
pub proof fn lemma_pixel_index(row: int, c: int, w: int, h: int)
    requires
        0 <= row < h,
        0 <= c < w,
    ensures
        0 <= row * w + c < w * h,
{
    assert(0 <= row * w + c < w * h) by (nonlinear_arith)
        requires
            0 <= row < h,
            0 <= c < w,
    ;
}

/// Two runs of one row that share a pixel are the same run.
pub proof fn lemma_spans_overlap(bm: Seq<u8>, w: int, y: int, a: int, b: int, a2: int, b2: int, c: int)
    requires
        is_span(bm, w, y, a, b),
        is_span(bm, w, y, a2, b2),
        a <= c < b,
        a2 <= c < b2,
    ensures
        a == a2,
        b == b2,
{
    if a < a2 {
        assert(inked(bm, w, y, a2 - 1));
    }
    if a2 < a {
        assert(inked(bm, w, y, a - 1));
    }
    if b < b2 {
        assert(inked(bm, w, y, b));
    }
    if b2 < b {
        assert(inked(bm, w, y, b2));
    }
}

/// `spans` lists exactly the maximal runs of row `y`, left to right.
pub open spec fn row_runs(bm: Seq<u8>, w: int, y: int, spans: Seq<(usize, usize)>) -> bool {
    &&& forall|i: int| 0 <= i < spans.len() ==> is_span(bm, w, y, #[trigger] spans[i].0 as int, spans[i].1 as int)
    &&& forall|i: int, j: int| 0 <= i < j < spans.len() ==> #[trigger] spans[i].1 < #[trigger] spans[j].0
    &&& forall|a: int, b: int| #[trigger] is_span(bm, w, y, a, b) ==>
            exists|i: int| 0 <= i < spans.len() && #[trigger] spans[i] == (a as usize, b as usize)
}

/// The maximal runs of ink in row `row` of a `w`-wide bitmap, left to right.
pub fn row_spans(w: usize, row: usize, bitmap: &[u8]) -> (spans: Vec<(usize, usize)>)
    requires
        (row + 1) * w <= bitmap@.len(),
    ensures
        row_runs(bitmap@, w as int, row as int, spans@),
{
    let ghost bm = bitmap@;
    let ghost wi = w as int;
    let ghost y = row as int;
    let n = bitmap.len();
    proof {
        assert(0 <= y * wi && y * wi + wi == (y + 1) * wi) by (nonlinear_arith)
            requires 0 <= y, 0 <= wi;
    }
    let base = row * w;
    let mut spans: Vec<(usize, usize)> = Vec::new();
    let mut c: usize = 0;
    while c < w
        invariant
            bm == bitmap@,
            wi == w as int,
            y == row as int,
            base + w <= bm.len(),
            n == bm.len(),
            base == y * wi,
            c <= w,
            c > 0 && inked(bm, wi, y, c - 1) ==> (c == w || !inked(bm, wi, y, c as int)),
            forall|i: int| 0 <= i < spans@.len() ==> is_span(bm, wi, y,
                #[trigger] spans@[i].0 as int, spans@[i].1 as int),
            forall|i: int| 0 <= i < spans@.len() ==> #[trigger] spans@[i].1 <= c,
            forall|i: int, j: int| 0 <= i < j < spans@.len() ==> #[trigger] spans@[i].1 < #[trigger] spans@[j].0,
            forall|a: int, b: int| #[trigger] is_span(bm, wi, y, a, b) && a < c ==>
                exists|i: int| 0 <= i < spans@.len() && #[trigger] spans@[i] == (a as usize, b as usize),
        decreases w - c,
    {
        if bitmap[base + c] >= THRESH {
            let start = c;
            assert(inked(bm, wi, y, start as int));
            c += 1;
            while c < w && bitmap[base + c] >= THRESH
                invariant
                    bm == bitmap@,
                    wi == w as int,
                    y == row as int,
                    base + w <= bm.len(),
                    n == bm.len(),
                    base == y * wi,
                    start < w,
                    start <= c <= w,
                    c > start,
                    forall|k: int| start <= k < c ==> #[trigger] inked(bm, wi, y, k),
                decreases w - c,
            {
                c += 1;
            }
            assert(c == w || !inked(bm, wi, y, c as int));
            assert(is_span(bm, wi, y, start as int, c as int));
            let ghost old_spans = spans@;
            assert forall|i: int| 0 <= i < old_spans.len() implies #[trigger] old_spans[i].1 < start by {
                assert(is_span(bm, wi, y, old_spans[i].0 as int, old_spans[i].1 as int));
            }
            spans.push((start, c));
            proof {
                assert forall|a: int, b: int| #[trigger] is_span(bm, wi, y, a, b) && a < c implies
                    exists|i: int| 0 <= i < spans@.len() && #[trigger] spans@[i] == (a as usize, b as usize) by {
                    if a < start {
                        let i = choose|i: int| 0 <= i < old_spans.len() && #[trigger] old_spans[i] == (a as usize, b as usize);
                        assert(spans@[i] == old_spans[i]);
                    } else {
                        assert(inked(bm, wi, y, a));
                        lemma_spans_overlap(bm, wi, y, a, b, start as int, c as int, a);
                        assert(spans@[old_spans.len() as int] == (a as usize, b as usize));
                    }
                }
            }
        } else {
            proof {
                assert forall|a: int, b: int| #[trigger] is_span(bm, wi, y, a, b) && a < c + 1 implies
                    exists|i: int| 0 <= i < spans@.len() && #[trigger] spans@[i] == (a as usize, b as usize) by {
                    if a == c {
                        assert(inked(bm, wi, y, a));
                    }
                }
            }
            c += 1;
        }
    }
    spans
}

/// An axis-aligned block of pixels: columns `[x0, x1)`, rows `[y0, y1)`
/// (row 0 is the top row).
#[derive(Clone, Copy, Debug, PartialEq, Eq, Structural)]
pub struct Rect {
    pub x0: usize,
    pub x1: usize,
    pub y0: usize,
    pub y1: usize,
}

/// Every row in `[y0, y1)` has the run `[a, b)`.
pub open spec fn spans_rows(bm: Seq<u8>, w: int, a: int, b: int, y0: int, y1: int) -> bool {
    forall|y: int| y0 <= y < y1 ==> #[trigger] is_span(bm, w, y, a, b)
}

/// `r` is a stack of identical runs that cannot grow upwards, whose last row is `end - 1`.
pub open spec fn is_partial(bm: Seq<u8>, w: int, r: Rect, end: int) -> bool {
    &&& r.y1 == end
    &&& r.y0 < r.y1
    &&& spans_rows(bm, w, r.x0 as int, r.x1 as int, r.y0 as int, r.y1 as int)
    &&& (r.y0 == 0 || !is_span(bm, w, r.y0 - 1, r.x0 as int, r.x1 as int))
}

/// `r` is a maximal stack of identical runs in a bitmap of `h` rows: it can grow
/// neither upwards nor downwards.
pub open spec fn is_block(bm: Seq<u8>, w: int, h: int, r: Rect) -> bool {
    &&& r.y1 <= h
    &&& is_partial(bm, w, r, r.y1 as int)
    &&& (r.y1 == h || !is_span(bm, w, r.y1 as int, r.x0 as int, r.x1 as int))
}

/// `p` comes strictly before `q` when ordered by last row, then first row, then left edge.
pub open spec fn block_before(p: Rect, q: Rect) -> bool {
    ||| p.y1 < q.y1
    ||| p.y1 == q.y1 && p.y0 < q.y0
    ||| p.y1 == q.y1 && p.y0 == q.y0 && p.x0 < q.x0
}

/// `p` comes strictly before `q` when ordered by first row, then left edge.
pub open spec fn open_before(p: Rect, q: Rect) -> bool {
    ||| p.y0 < q.y0
    ||| p.y0 == q.y0 && p.x0 < q.x0
}

/// `rs` lists every block of the bitmap exactly once, ordered by `block_before`.
pub open spec fn merged_rects(bm: Seq<u8>, w: int, h: int, rs: Seq<Rect>) -> bool {
    &&& forall|i: int| 0 <= i < rs.len() ==> is_block(bm, w, h, #[trigger] rs[i])
    &&& forall|r: Rect| #[trigger] is_block(bm, w, h, r) ==> rs.contains(r)
    &&& forall|i: int, j: int| 0 <= i < j < rs.len() ==> block_before(#[trigger] rs[i], #[trigger] rs[j])
}

/// What holds after the first `row` rows have been scanned: `rects` holds exactly the
/// blocks that end above `row`, in order, and `open` exactly the stacks still growing.
pub open spec fn row_state(bm: Seq<u8>, w: int, h: int, row: int, rects: Seq<Rect>, open: Seq<Rect>) -> bool {
    &&& forall|i: int| 0 <= i < rects.len() ==> is_block(bm, w, h, #[trigger] rects[i]) && rects[i].y1 < row
    &&& forall|r: Rect| #[trigger] is_block(bm, w, h, r) && r.y1 < row ==> rects.contains(r)
    &&& forall|i: int, j: int| 0 <= i < j < rects.len() ==> block_before(#[trigger] rects[i], #[trigger] rects[j])
    &&& forall|i: int| 0 <= i < open.len() ==> is_partial(bm, w, #[trigger] open[i], row)
    &&& forall|r: Rect| #[trigger] is_partial(bm, w, r, row) ==> open.contains(r)
    &&& forall|i: int, j: int| 0 <= i < j < open.len() ==> open_before(#[trigger] open[i], #[trigger] open[j])
}

/// Two growing stacks of the same run that end on the same row are the same stack.
pub proof fn lemma_partial_unique(bm: Seq<u8>, w: int, p: Rect, q: Rect, end: int)
    requires
        is_partial(bm, w, p, end),
        is_partial(bm, w, q, end),
        p.x0 == q.x0,
        p.x1 == q.x1,
    ensures
        p == q,
{
    if p.y0 < q.y0 {
        assert(is_span(bm, w, q.y0 - 1, p.x0 as int, p.x1 as int));
    }
    if q.y0 < p.y0 {
        assert(is_span(bm, w, p.y0 - 1, q.x0 as int, q.x1 as int));
    }
}

/// A run on row `end - 1` belongs to a growing stack ending there.
pub proof fn lemma_partial_exists(bm: Seq<u8>, w: int, a: usize, b: usize, end: usize)
    requires
        end > 0,
        is_span(bm, w, end - 1, a as int, b as int),
    ensures
        exists|y0: usize| #[trigger] is_partial(bm, w, Rect { x0: a, x1: b, y0, y1: end }, end as int),
    decreases end,
{
    if end - 1 == 0 || !is_span(bm, w, end - 2, a as int, b as int) {
        let r = Rect { x0: a, x1: b, y0: (end - 1) as usize, y1: end };
        assert(is_partial(bm, w, r, end as int));
    } else {
        lemma_partial_exists(bm, w, a, b, (end - 1) as usize);
        let y0 = choose|y0: usize| #[trigger] is_partial(bm, w, Rect { x0: a, x1: b, y0, y1: (end - 1) as usize }, end - 1);
        let r = Rect { x0: a, x1: b, y0, y1: end };
        assert forall|y: int| r.y0 <= y < r.y1 implies #[trigger] is_span(bm, w, y, a as int, b as int) by {
            if y < end - 1 {
                assert(is_span(bm, w, y, a as int, b as int));
            }
        }
        assert(is_partial(bm, w, r, end as int));
    }
}

/// The first unclaimed run equal to `[x0, x1)`.
fn find_span(spans: &Vec<(usize, usize)>, used: &Vec<bool>, x0: usize, x1: usize) -> (found: Option<usize>)
    requires
        used@.len() == spans@.len(),
    ensures
        found matches Some(i) ==> i < spans@.len() && !used@[i as int] && spans@[i as int] == (x0, x1),
        found is None ==> forall|i: int| 0 <= i < spans@.len() && #[trigger] spans@[i] == (x0, x1) ==> used@[i],
{
    let mut i: usize = 0;
    while i < spans.len()
        invariant
            used@.len() == spans@.len(),
            i <= spans@.len(),
            forall|k: int| 0 <= k < i && #[trigger] spans@[k] == (x0, x1) ==> used@[k],
        decreases spans@.len() - i,
    {
        if !used[i] && spans[i].0 == x0 && spans[i].1 == x1 {
            return Some(i);
        }
        i += 1;
    }
    None
}

/// The stack `r` grown by the row it ends on.
pub open spec fn grown(r: Rect) -> Rect {
    Rect { x0: r.x0, x1: r.x1, y0: r.y0, y1: (r.y1 + 1) as usize }
}

/// Scans row `row`: stacks whose run continues on it grow by one row, the others are
/// complete and go to `rects` in order, and runs that continue no stack start new ones.
#[verifier::rlimit(50)]
fn advance_row(w: usize, h: usize, row: usize, bitmap: &[u8], open: Vec<Rect>, rects: &mut Vec<Rect>) -> (next: Vec<Rect>)
    requires
        row < h,
        w * h <= bitmap@.len(),
        row_state(bitmap@, w as int, h as int, row as int, old(rects)@, open@),
    ensures
        row_state(bitmap@, w as int, h as int, row + 1, final(rects)@, next@),
{
    let ghost bm = bitmap@;
    let ghost wi = w as int;
    let ghost hi = h as int;
    let ghost y = row as int;
    let ghost rects0 = rects@;
    proof {
        assert((y + 1) * wi <= wi * hi) by (nonlinear_arith)
            requires 0 <= y < hi, 0 <= wi;
    }
    let spans = row_spans(w, row, bitmap);
    let mut used: Vec<bool> = Vec::new();
    let mut k: usize = 0;
    while k < spans.len()
        invariant
            k <= spans@.len(),
            used@.len() == k,
            forall|i: int| 0 <= i < k ==> !#[trigger] used@[i],
        decreases spans@.len() - k,
    {
        used.push(false);
        k += 1;
    }
    let mut next: Vec<Rect> = Vec::new();
    let mut j: usize = 0;
    while j < open.len()
        invariant
            bm == bitmap@,
            wi == w as int,
            hi == h as int,
            y == row as int,
            row < h,
            j <= open@.len(),
            row_runs(bm, wi, y, spans@),
            row_state(bm, wi, hi, y, rects0, open@),
            used@.len() == spans@.len(),
            forall|i: int| 0 <= i < used@.len() ==> (#[trigger] used@[i] <==>
                exists|k: int| 0 <= k < j && (#[trigger] open@[k]).x0 == spans@[i].0 && open@[k].x1 == spans@[i].1),
            forall|i: int| 0 <= i < rects@.len() ==> is_block(bm, wi, hi, #[trigger] rects@[i]) && rects@[i].y1 <= y,
            forall|r: Rect| #[trigger] is_block(bm, wi, hi, r) && r.y1 < y ==> rects@.contains(r),
            forall|k: int| 0 <= k < j && !is_span(bm, wi, y, (#[trigger] open@[k]).x0 as int, open@[k].x1 as int)
                ==> rects@.contains(open@[k]),
            forall|i: int| 0 <= i < rects@.len() && (#[trigger] rects@[i]).y1 == y ==>
                exists|k: int| 0 <= k < j && rects@[i] == #[trigger] open@[k],
            forall|i: int, t: int| 0 <= i < t < rects@.len() ==> block_before(#[trigger] rects@[i], #[trigger] rects@[t]),
            forall|t: int| 0 <= t < next@.len() ==> is_partial(bm, wi, #[trigger] next@[t], y + 1) && next@[t].y0 < y,
            forall|k: int| 0 <= k < j && is_span(bm, wi, y, (#[trigger] open@[k]).x0 as int, open@[k].x1 as int)
                ==> next@.contains(grown(open@[k])),
            forall|t: int| 0 <= t < next@.len() ==> exists|k: int| 0 <= k < j && #[trigger] next@[t] == grown(#[trigger] open@[k]),
            forall|t: int, u: int| 0 <= t < u < next@.len() ==> open_before(#[trigger] next@[t], #[trigger] next@[u]),
        decreases open@.len() - j,
    {
        let r = open[j];
        assert(is_partial(bm, wi, r, y));
        match find_span(&spans, &used, r.x0, r.x1) {
            Some(i) => {
                let ghost used0 = used@;
                let ghost next0 = next@;
                assert(is_span(bm, wi, y, spans@[i as int].0 as int, spans@[i as int].1 as int));
                used.set(i, true);
                let g = Rect { x0: r.x0, x1: r.x1, y0: r.y0, y1: row + 1 };
                assert(g == grown(r));
                assert forall|yy: int| g.y0 <= yy < g.y1 implies #[trigger] is_span(bm, wi, yy, g.x0 as int, g.x1 as int) by {
                    if yy < y {
                        assert(is_span(bm, wi, yy, r.x0 as int, r.x1 as int));
                    }
                }
                assert(is_partial(bm, wi, g, y + 1));
                next.push(g);
                proof {
                    assert forall|i2: int| 0 <= i2 < used@.len() implies (#[trigger] used@[i2] <==>
                        exists|k: int| 0 <= k < j + 1 && (#[trigger] open@[k]).x0 == spans@[i2].0 && open@[k].x1 == spans@[i2].1) by {
                        if i2 == i {
                            assert(open@[j as int] == r);
                        } else {
                            assert(used@[i2] == used0[i2]);
                            if i2 < i {
                                assert(spans@[i2].1 < spans@[i as int].0);
                            } else {
                                assert(spans@[i as int].1 < spans@[i2].0);
                            }
                            assert(spans@[i2].0 < spans@[i2].1) by {
                                assert(is_span(bm, wi, y, spans@[i2].0 as int, spans@[i2].1 as int));
                            }
                            assert(spans@[i as int].0 < spans@[i as int].1);
                        }
                    }
                    assert forall|k: int| 0 <= k < j + 1 && is_span(bm, wi, y, (#[trigger] open@[k]).x0 as int, open@[k].x1 as int)
                        implies next@.contains(grown(open@[k])) by {
                        if k == j {
                            assert(next@[next0.len() as int] == grown(open@[k]));
                        } else {
                            assert(next0.contains(grown(open@[k])));
                            let t = choose|t: int| 0 <= t < next0.len() && next0[t] == grown(open@[k]);
                            assert(next@[t] == grown(open@[k]));
                        }
                    }
                    assert forall|t: int| 0 <= t < next@.len() implies exists|k: int| 0 <= k < j + 1 && #[trigger] next@[t] == grown(#[trigger] open@[k]) by {
                        if t == next0.len() {
                            assert(next@[t] == grown(open@[j as int]));
                        } else {
                            assert(next@[t] == next0[t]);
                            let k = choose|k: int| 0 <= k < j && #[trigger] next0[t] == grown(#[trigger] open@[k]);
                            assert(next@[t] == grown(open@[k]));
                        }
                    }
                    assert forall|t: int, u: int| 0 <= t < u < next@.len() implies open_before(#[trigger] next@[t], #[trigger] next@[u]) by {
                        if u == next0.len() {
                            assert(next@[t] == next0[t]);
                            let k = choose|k: int| 0 <= k < j && #[trigger] next0[t] == grown(#[trigger] open@[k]);
                            assert(open_before(open@[k], open@[j as int]));
                        } else {
                            assert(next@[t] == next0[t]);
                            assert(next@[u] == next0[u]);
                        }
                    }
                }
            },
            None => {
                let ghost rects1 = rects@;
                proof {
                    if is_span(bm, wi, y, r.x0 as int, r.x1 as int) {
                        let m = choose|m: int| 0 <= m < spans@.len() && #[trigger] spans@[m] == (r.x0, r.x1);
                        assert(used@[m]);
                        let k = choose|k: int| 0 <= k < j && (#[trigger] open@[k]).x0 == spans@[m].0 && open@[k].x1 == spans@[m].1;
                        lemma_partial_unique(bm, wi, open@[k], r, y);
                        assert(open_before(open@[k], open@[j as int]));
                    }
                }
                assert(is_block(bm, wi, hi, r));
                rects.push(r);
                proof {
                    assert forall|i2: int| 0 <= i2 < used@.len() implies (#[trigger] used@[i2] <==>
                        exists|k: int| 0 <= k < j + 1 && (#[trigger] open@[k]).x0 == spans@[i2].0 && open@[k].x1 == spans@[i2].1) by {
                        if open@[j as int].x0 == spans@[i2].0 && open@[j as int].x1 == spans@[i2].1 {
                            assert(is_span(bm, wi, y, spans@[i2].0 as int, spans@[i2].1 as int));
                        }
                    }
                    assert forall|rr: Rect| #[trigger] is_block(bm, wi, hi, rr) && rr.y1 < y implies rects@.contains(rr) by {
                        assert(rects1.contains(rr));
                        let t = choose|t: int| 0 <= t < rects1.len() && rects1[t] == rr;
                        assert(rects@[t] == rr);
                    }
                    assert forall|k: int| 0 <= k < j + 1 && !is_span(bm, wi, y, (#[trigger] open@[k]).x0 as int, open@[k].x1 as int)
                        implies rects@.contains(open@[k]) by {
                        if k == j {
                            assert(rects@[rects1.len() as int] == open@[k]);
                        } else {
                            assert(rects1.contains(open@[k]));
                            let t = choose|t: int| 0 <= t < rects1.len() && rects1[t] == open@[k];
                            assert(rects@[t] == open@[k]);
                        }
                    }
                    assert forall|i2: int| 0 <= i2 < rects@.len() && (#[trigger] rects@[i2]).y1 == y implies
                        exists|k: int| 0 <= k < j + 1 && rects@[i2] == #[trigger] open@[k] by {
                        if i2 == rects1.len() {
                            assert(rects@[i2] == open@[j as int]);
                        } else {
                            assert(rects@[i2] == rects1[i2]);
                        }
                    }
                    assert forall|i2: int, t: int| 0 <= i2 < t < rects@.len() implies block_before(#[trigger] rects@[i2], #[trigger] rects@[t]) by {
                        if t == rects1.len() {
                            assert(rects@[i2] == rects1[i2]);
                            if rects1[i2].y1 == y {
                                let k = choose|k: int| 0 <= k < j && rects1[i2] == #[trigger] open@[k];
                                assert(open_before(open@[k], open@[j as int]));
                            }
                        } else {
                            assert(rects@[i2] == rects1[i2]);
                            assert(rects@[t] == rects1[t]);
                        }
                    }
                    assert forall|t: int| 0 <= t < next@.len() implies exists|k: int| 0 <= k < j + 1 && #[trigger] next@[t] == grown(#[trigger] open@[k]) by {
                        let k = choose|k: int| 0 <= k < j && #[trigger] next@[t] == grown(#[trigger] open@[k]);
                        assert(next@[t] == grown(open@[k]));
                    }
                }
            },
        }
        j += 1;
    }
    let mut i: usize = 0;
    while i < spans.len()
        invariant
            bm == bitmap@,
            wi == w as int,
            hi == h as int,
            y == row as int,
            row < h,
            i <= spans@.len(),
            row_runs(bm, wi, y, spans@),
            row_state(bm, wi, hi, y, rects0, open@),
            used@.len() == spans@.len(),
            forall|i2: int| 0 <= i2 < used@.len() ==> (#[trigger] used@[i2] <==>
                exists|k: int| 0 <= k < open@.len() && (#[trigger] open@[k]).x0 == spans@[i2].0 && open@[k].x1 == spans@[i2].1),
            forall|t: int| 0 <= t < next@.len() ==> is_partial(bm, wi, #[trigger] next@[t], y + 1) && next@[t].y0 <= y,
            forall|t: int, m: int| 0 <= t < next@.len() && i <= m < spans@.len() && (#[trigger] next@[t]).y0 == y
                ==> next@[t].x0 < (#[trigger] spans@[m]).0,
            forall|k: int| 0 <= k < open@.len() && is_span(bm, wi, y, (#[trigger] open@[k]).x0 as int, open@[k].x1 as int)
                ==> next@.contains(grown(open@[k])),
            forall|m: int| 0 <= m < i && !(#[trigger] used@[m]) ==>
                next@.contains(Rect { x0: spans@[m].0, x1: spans@[m].1, y0: row, y1: (row + 1) as usize }),
            forall|t: int, u: int| 0 <= t < u < next@.len() ==> open_before(#[trigger] next@[t], #[trigger] next@[u]),
        decreases spans@.len() - i,
    {
        let ghost next0 = next@;
        if !used[i] {
            let (a, b) = spans[i];
            let nr = Rect { x0: a, x1: b, y0: row, y1: row + 1 };
            assert(is_span(bm, wi, y, a as int, b as int));
            proof {
                if row > 0 && is_span(bm, wi, y - 1, a as int, b as int) {
                    lemma_partial_exists(bm, wi, a, b, row);
                    let y0 = choose|y0: usize| #[trigger] is_partial(bm, wi, Rect { x0: a, x1: b, y0, y1: row }, y);
                    let p = Rect { x0: a, x1: b, y0, y1: row };
                    assert(open@.contains(p));
                    let k = choose|k: int| 0 <= k < open@.len() && open@[k] == p;
                    assert(open@[k].x0 == spans@[i as int].0 && open@[k].x1 == spans@[i as int].1);
                }
                assert forall|yy: int| nr.y0 <= yy < nr.y1 implies #[trigger] is_span(bm, wi, yy, a as int, b as int) by {}
            }
            assert(is_partial(bm, wi, nr, y + 1));
            next.push(nr);
            proof {
                assert forall|t: int, m: int| 0 <= t < next@.len() && i + 1 <= m < spans@.len() && (#[trigger] next@[t]).y0 == y
                    implies next@[t].x0 < (#[trigger] spans@[m]).0 by {
                    assert(spans@[i as int].1 < spans@[m].0);
                    if t < next0.len() {
                        assert(next@[t] == next0[t]);
                        assert(next0[t].x0 < spans@[m].0);
                    }
                }
                assert forall|t: int, u: int| 0 <= t < u < next@.len() implies open_before(#[trigger] next@[t], #[trigger] next@[u]) by {
                    assert(next@[t] == next0[t]);
                    if u == next0.len() {
                        if next0[t].y0 == y {
                            assert(next0[t].x0 < spans@[i as int].0);
                        }
                    } else {
                        assert(next@[u] == next0[u]);
                    }
                }
                assert forall|k: int| 0 <= k < open@.len() && is_span(bm, wi, y, (#[trigger] open@[k]).x0 as int, open@[k].x1 as int)
                    implies next@.contains(grown(open@[k])) by {
                    assert(next0.contains(grown(open@[k])));
                    let t = choose|t: int| 0 <= t < next0.len() && next0[t] == grown(open@[k]);
                    assert(next@[t] == grown(open@[k]));
                }
                assert forall|m: int| 0 <= m < i + 1 && !(#[trigger] used@[m]) implies
                    next@.contains(Rect { x0: spans@[m].0, x1: spans@[m].1, y0: row, y1: (row + 1) as usize }) by {
                    if m == i {
                        assert(next@[next0.len() as int] == nr);
                    } else {
                        let r2 = Rect { x0: spans@[m].0, x1: spans@[m].1, y0: row, y1: (row + 1) as usize };
                        assert(next0.contains(r2));
                        let t = choose|t: int| 0 <= t < next0.len() && next0[t] == r2;
                        assert(next@[t] == r2);
                    }
                }
            }
        }
        i += 1;
    }
    proof {
        let rs = rects@;
        let op = open@;
        let nx = next@;
        assert forall|r: Rect| #[trigger] is_block(bm, wi, hi, r) && r.y1 < y + 1 implies rs.contains(r) by {
            if r.y1 == y {
                assert(is_partial(bm, wi, r, y));
                assert(op.contains(r));
                let k = choose|k: int| 0 <= k < op.len() && op[k] == r;
                assert(!is_span(bm, wi, y, op[k].x0 as int, op[k].x1 as int));
            }
        }
        assert forall|p: Rect| #[trigger] is_partial(bm, wi, p, y + 1) implies nx.contains(p) by {
            assert(is_span(bm, wi, y, p.x0 as int, p.x1 as int));
            if p.y0 == y {
                let m = choose|m: int| 0 <= m < spans@.len() && #[trigger] spans@[m] == (p.x0, p.x1);
                if used@[m] {
                    let k = choose|k: int| 0 <= k < op.len() && (#[trigger] op[k]).x0 == spans@[m].0 && op[k].x1 == spans@[m].1;
                    assert(is_partial(bm, wi, op[k], y));
                    assert(is_span(bm, wi, y - 1, op[k].x0 as int, op[k].x1 as int));
                }
                assert(p == Rect { x0: spans@[m].0, x1: spans@[m].1, y0: row, y1: (row + 1) as usize });
            } else {
                let q = Rect { x0: p.x0, x1: p.x1, y0: p.y0, y1: row };
                assert forall|yy: int| q.y0 <= yy < q.y1 implies #[trigger] is_span(bm, wi, yy, q.x0 as int, q.x1 as int) by {
                    assert(is_span(bm, wi, yy, p.x0 as int, p.x1 as int));
                }
                assert(is_partial(bm, wi, q, y));
                assert(op.contains(q));
                let k = choose|k: int| 0 <= k < op.len() && op[k] == q;
                assert(grown(op[k]) == p);
            }
        }
    }
    next
}

/// Covers the inked pixels of a `w` x `h` coverage bitmap (row-major, row 0 on top)
/// with rectangles: each row is cut into maximal runs of ink, and vertically
/// adjacent identical runs are merged greedily. The result lists every maximal
/// stack of identical runs exactly once, ordered by last row, first row and left edge.
pub fn rects_of(w: usize, h: usize, bitmap: &[u8]) -> (rects: Vec<Rect>)
    requires
        w * h <= bitmap@.len(),
    ensures
        merged_rects(bitmap@, w as int, h as int, rects@),
{
    let ghost bm = bitmap@;
    let mut rects: Vec<Rect> = Vec::new();
    let mut open: Vec<Rect> = Vec::new();
    let mut row: usize = 0;
    while row < h
        invariant
            bm == bitmap@,
            row <= h,
            w * h <= bm.len(),
            row_state(bm, w as int, h as int, row as int, rects@, open@),
        decreases h - row,
    {
        open = advance_row(w, h, row, bitmap, open, &mut rects);
        row += 1;
    }
    let ghost closed = rects@;
    let ghost last = open@;
    rects.append(&mut open);
    proof {
        let rs = rects@;
        assert forall|i: int| 0 <= i < rs.len() implies is_block(bm, w as int, h as int, #[trigger] rs[i]) by {
            if i >= closed.len() {
                assert(rs[i] == last[i - closed.len()]);
                assert(is_partial(bm, w as int, last[i - closed.len()], h as int));
            } else {
                assert(rs[i] == closed[i]);
            }
        }
        assert forall|r: Rect| #[trigger] is_block(bm, w as int, h as int, r) implies rs.contains(r) by {
            if r.y1 < h {
                let t = choose|t: int| 0 <= t < closed.len() && closed[t] == r;
                assert(rs[t] == r);
            } else {
                assert(is_partial(bm, w as int, r, h as int));
                assert(last.contains(r));
                let t = choose|t: int| 0 <= t < last.len() && last[t] == r;
                assert(rs[closed.len() + t] == r);
            }
        }
        assert forall|i: int, j: int| 0 <= i < j < rs.len() implies block_before(#[trigger] rs[i], #[trigger] rs[j]) by {
            if j < closed.len() {
                assert(rs[i] == closed[i] && rs[j] == closed[j]);
            } else if i < closed.len() {
                assert(rs[i] == closed[i] && rs[j] == last[j - closed.len()]);
                assert(is_partial(bm, w as int, last[j - closed.len()], h as int));
            } else {
                assert(rs[i] == last[i - closed.len()] && rs[j] == last[j - closed.len()]);
                assert(is_partial(bm, w as int, last[i - closed.len()], h as int));
                assert(is_partial(bm, w as int, last[j - closed.len()], h as int));
                assert(open_before(last[i - closed.len()], last[j - closed.len()]));
            }
        }
    }
    rects
}

/// Pixel `(y, c)` lies inside `r`.
pub open spec fn covers(r: Rect, y: int, c: int) -> bool {
    r.y0 <= y < r.y1 && r.x0 <= c < r.x1
}

/// Walking left from an inked pixel reaches the start of its run.
proof fn lemma_run_start(bm: Seq<u8>, w: int, y: int, c: int) -> (a: int)
    requires
        0 <= c < w,
        inked(bm, w, y, c),
    ensures
        0 <= a <= c,
        a == 0 || !inked(bm, w, y, a - 1),
        forall|k: int| a <= k <= c ==> #[trigger] inked(bm, w, y, k),
    decreases c,
{
    if c == 0 || !inked(bm, w, y, c - 1) {
        c
    } else {
        lemma_run_start(bm, w, y, c - 1)
    }
}

/// Walking right from an inked pixel reaches the end of its run.
proof fn lemma_run_end(bm: Seq<u8>, w: int, y: int, c: int) -> (b: int)
    requires
        0 <= c < w,
        inked(bm, w, y, c),
    ensures
        c < b <= w,
        b == w || !inked(bm, w, y, b),
        forall|k: int| c <= k < b ==> #[trigger] inked(bm, w, y, k),
    decreases w - c,
{
    if c + 1 == w || !inked(bm, w, y, c + 1) {
        c + 1
    } else {
        lemma_run_end(bm, w, y, c + 1)
    }
}

/// A growing stack keeps growing downwards until it becomes a block.
proof fn lemma_stack_completes(bm: Seq<u8>, w: int, h: int, p: Rect) -> (q: Rect)
    requires
        p.y1 <= h,
        h <= usize::MAX,
        is_partial(bm, w, p, p.y1 as int),
    ensures
        is_block(bm, w, h, q),
        q.x0 == p.x0 && q.x1 == p.x1 && q.y0 == p.y0 && q.y1 >= p.y1,
    decreases h - p.y1,
{
    if p.y1 == h || !is_span(bm, w, p.y1 as int, p.x0 as int, p.x1 as int) {
        p
    } else {
        let g = grown(p);
        assert forall|yy: int| g.y0 <= yy < g.y1 implies #[trigger] is_span(bm, w, yy, g.x0 as int, g.x1 as int) by {
            if yy < p.y1 {
                assert(is_span(bm, w, yy, p.x0 as int, p.x1 as int));
            }
        }
        lemma_stack_completes(bm, w, h, g)
    }
}

/// Every inked pixel lies in some block.
pub proof fn lemma_ink_in_block(bm: Seq<u8>, w: int, h: int, y: int, c: int) -> (r: Rect)
    requires
        0 <= y < h <= usize::MAX,
        0 <= c < w <= usize::MAX,
        inked(bm, w, y, c),
    ensures
        is_block(bm, w, h, r),
        covers(r, y, c),
{
    let a = lemma_run_start(bm, w, y, c);
    let b = lemma_run_end(bm, w, y, c);
    assert forall|k: int| a <= k < b implies #[trigger] inked(bm, w, y, k) by {
        if k <= c {
            assert(inked(bm, w, y, k));
        } else {
            assert(inked(bm, w, y, k));
        }
    }
    assert(is_span(bm, w, y, a, b));
    lemma_partial_exists(bm, w, a as usize, b as usize, (y + 1) as usize);
    let y0 = choose|y0: usize| #[trigger] is_partial(bm, w, Rect { x0: a as usize, x1: b as usize, y0, y1: (y + 1) as usize }, y + 1);
    let p = Rect { x0: a as usize, x1: b as usize, y0, y1: (y + 1) as usize };
    lemma_stack_completes(bm, w, h, p)
}

/// A block holds only inked pixels.
pub proof fn lemma_block_inked(bm: Seq<u8>, w: int, h: int, r: Rect, y: int, c: int)
    requires
        is_block(bm, w, h, r),
        covers(r, y, c),
    ensures
        inked(bm, w, y, c),
{
    assert(is_span(bm, w, y, r.x0 as int, r.x1 as int));
}

/// Two blocks that share a pixel are the same block.
pub proof fn lemma_blocks_disjoint(bm: Seq<u8>, w: int, h: int, p: Rect, q: Rect, y: int, c: int)
    requires
        is_block(bm, w, h, p),
        is_block(bm, w, h, q),
        covers(p, y, c),
        covers(q, y, c),
    ensures
        p == q,
{
    assert(is_span(bm, w, y, p.x0 as int, p.x1 as int));
    assert(is_span(bm, w, y, q.x0 as int, q.x1 as int));
    lemma_spans_overlap(bm, w, y, p.x0 as int, p.x1 as int, q.x0 as int, q.x1 as int, c);
    lemma_partial_unique(bm, w, Rect { x0: p.x0, x1: p.x1, y0: p.y0, y1: (y + 1) as usize },
        Rect { x0: q.x0, x1: q.x1, y0: q.y0, y1: (y + 1) as usize }, y + 1);
    if p.y1 < q.y1 {
        assert(is_span(bm, w, p.y1 as int, q.x0 as int, q.x1 as int));
    }
    if q.y1 < p.y1 {
        assert(is_span(bm, w, q.y1 as int, p.x0 as int, p.x1 as int));
    }
}

/// Law: the merged rectangles cover exactly the inked pixels of the bitmap.
pub proof fn lemma_rects_cover_ink(bm: Seq<u8>, w: usize, h: usize, rs: Seq<Rect>, y: int, c: int)
    requires
        merged_rects(bm, w as int, h as int, rs),
        0 <= y < h,
        0 <= c < w,
    ensures
        inked(bm, w as int, y, c) <==> exists|i: int| 0 <= i < rs.len() && covers(#[trigger] rs[i], y, c),
{
    if inked(bm, w as int, y, c) {
        let r = lemma_ink_in_block(bm, w as int, h as int, y, c);
        assert(rs.contains(r));
        let i = choose|i: int| 0 <= i < rs.len() && rs[i] == r;
        assert(covers(rs[i], y, c));
    }
    if exists|i: int| 0 <= i < rs.len() && covers(#[trigger] rs[i], y, c) {
        let i = choose|i: int| 0 <= i < rs.len() && covers(#[trigger] rs[i], y, c);
        lemma_block_inked(bm, w as int, h as int, rs[i], y, c);
    }
}

/// Law: no pixel lies in two of the merged rectangles.
pub proof fn lemma_rects_disjoint(bm: Seq<u8>, w: usize, h: usize, rs: Seq<Rect>, i: int, j: int, y: int, c: int)
    requires
        merged_rects(bm, w as int, h as int, rs),
        0 <= i < j < rs.len(),
    ensures
        !(covers(rs[i], y, c) && covers(rs[j], y, c)),
{
    if covers(rs[i], y, c) && covers(rs[j], y, c) {
        assert(is_block(bm, w as int, h as int, rs[i]));
        assert(is_block(bm, w as int, h as int, rs[j]));
        lemma_blocks_disjoint(bm, w as int, h as int, rs[i], rs[j], y, c);
        assert(block_before(rs[i], rs[j]));
    }
}

/// Two lists, each strictly increasing by `block_before`, that hold the same
/// rectangles are equal.
proof fn lemma_sorted_rects_equal(s1: Seq<Rect>, s2: Seq<Rect>)
    requires
        forall|i: int, j: int| 0 <= i < j < s1.len() ==> block_before(#[trigger] s1[i], #[trigger] s1[j]),
        forall|i: int, j: int| 0 <= i < j < s2.len() ==> block_before(#[trigger] s2[i], #[trigger] s2[j]),
        forall|r: Rect| #[trigger] s1.contains(r) <==> s2.contains(r),
    ensures
        s1 == s2,
    decreases s1.len(),
{
    if s1.len() == 0 {
        if s2.len() > 0 {
            assert(s2.contains(s2[0]));
            assert(s1.contains(s2[0]));
            assert(false);
        }
        assert(s1 =~= s2);
    } else {
        assert(s1.contains(s1[0]));
        assert(s2.contains(s1[0]));
        let j = choose|j: int| 0 <= j < s2.len() && s2[j] == s1[0];
        assert(s2.contains(s2[0]));
        assert(s1.contains(s2[0]));
        let k = choose|k: int| 0 <= k < s1.len() && s1[k] == s2[0];
        if j > 0 {
            assert(block_before(s2[0], s2[j]));
            if k > 0 {
                assert(block_before(s1[0], s1[k]));
            }
        }
        assert(s1[0] == s2[0]);
        let t1 = s1.drop_first();
        let t2 = s2.drop_first();
        assert forall|r: Rect| #[trigger] t1.contains(r) <==> t2.contains(r) by {
            if t1.contains(r) {
                let a = choose|a: int| 0 <= a < t1.len() && t1[a] == r;
                assert(s1[a + 1] == r);
                assert(s1.contains(r));
                assert(s2.contains(r));
                let b = choose|b: int| 0 <= b < s2.len() && s2[b] == r;
                assert(block_before(s1[0], s1[a + 1]));
                if b == 0 {
                    assert(false);
                }
                assert(t2[b - 1] == r);
            }
            if t2.contains(r) {
                let a = choose|a: int| 0 <= a < t2.len() && t2[a] == r;
                assert(s2[a + 1] == r);
                assert(s2.contains(r));
                assert(s1.contains(r));
                let b = choose|b: int| 0 <= b < s1.len() && s1[b] == r;
                assert(block_before(s2[0], s2[a + 1]));
                if b == 0 {
                    assert(false);
                }
                assert(t1[b - 1] == r);
            }
        }
        assert forall|i: int, j2: int| 0 <= i < j2 < t1.len() implies block_before(#[trigger] t1[i], #[trigger] t1[j2]) by {
            assert(t1[i] == s1[i + 1] && t1[j2] == s1[j2 + 1]);
        }
        assert forall|i: int, j2: int| 0 <= i < j2 < t2.len() implies block_before(#[trigger] t2[i], #[trigger] t2[j2]) by {
            assert(t2[i] == s2[i + 1] && t2[j2] == s2[j2 + 1]);
        }
        lemma_sorted_rects_equal(t1, t2);
        assert(s1 =~= s2) by {
            assert forall|i: int| 0 <= i < s1.len() implies s1[i] == s2[i] by {
                if i > 0 {
                    assert(s1[i] == t1[i - 1]);
                    assert(s2[i] == t2[i - 1]);
                }
            }
        }
    }
}

/// Law: the merged rectangles of a bitmap are determined by it: any two lists
/// that satisfy the contract of `rects_of` for the same bitmap are equal.
pub proof fn lemma_merged_rects_unique(bm: Seq<u8>, w: usize, h: usize, r1: Seq<Rect>, r2: Seq<Rect>)
    requires
        merged_rects(bm, w as int, h as int, r1),
        merged_rects(bm, w as int, h as int, r2),
    ensures
        r1 == r2,
{
    assert forall|r: Rect| #[trigger] r1.contains(r) <==> r2.contains(r) by {
        if r1.contains(r) {
            let i = choose|i: int| 0 <= i < r1.len() && r1[i] == r;
            assert(is_block(bm, w as int, h as int, r1[i]));
        }
        if r2.contains(r) {
            let i = choose|i: int| 0 <= i < r2.len() && r2[i] == r;
            assert(is_block(bm, w as int, h as int, r2[i]));
        }
    }
    lemma_sorted_rects_equal(r1, r2);
}

/// Law: a pixel is inked exactly when its coverage is at least 100.
pub proof fn law_inked_threshold(bm: Seq<u8>, w: int, y: int, c: int)
    ensures
        inked(bm, w, y, c) <==> bm[y * w + c] >= 100,
        THRESH == 100,
{
}

/// Law: every row of a merged rectangle is a maximal run of pixels with coverage
/// of at least 100 (the pixel left of it and the pixel right of it, where they
/// exist, are below 100), and no rectangle continues straight into another with
/// the same columns on the row below: identical runs are always merged.
pub proof fn law_rects_are_maximal(bm: Seq<u8>, w: usize, h: usize, rs: Seq<Rect>, i: int, y: int)
    requires
        merged_rects(bm, w as int, h as int, rs),
        0 <= i < rs.len(),
        rs[i].y0 <= y < rs[i].y1,
    ensures
        rs[i].x0 < rs[i].x1 <= w,
        rs[i].y1 <= h,
        forall|c: int| rs[i].x0 <= c < rs[i].x1 ==> #[trigger] bm[y * w + c] >= 100,
        rs[i].x0 == 0 || bm[y * w + rs[i].x0 - 1] < 100,
        rs[i].x1 == w || bm[y * w + rs[i].x1] < 100,
        forall|j: int| 0 <= j < rs.len() && rs[j].x0 == rs[i].x0 && rs[j].x1 == rs[i].x1
            ==> (#[trigger] rs[j]).y0 != rs[i].y1,
{
    let r = rs[i];
    assert(is_block(bm, w as int, h as int, r));
    assert(is_span(bm, w as int, y, r.x0 as int, r.x1 as int));
    assert forall|c: int| r.x0 <= c < r.x1 implies #[trigger] bm[y * w + c] >= 100 by {
        assert(inked(bm, w as int, y, c));
    }
    assert forall|j: int| 0 <= j < rs.len() && rs[j].x0 == r.x0 && rs[j].x1 == r.x1
        implies (#[trigger] rs[j]).y0 != r.y1 by {
        let q = rs[j];
        assert(is_block(bm, w as int, h as int, q));
        if q.y0 == r.y1 {
            assert(is_span(bm, w as int, q.y0 as int, q.x0 as int, q.x1 as int));
        }
    }
}

/// Some pixel of the bitmap reaches the ink threshold.
pub open spec fn any_ink(bm: Seq<u8>) -> bool {
    exists|i: int| 0 <= i < bm.len() && #[trigger] bm[i] >= THRESH
}

/// The glyph has pixels and at least one of them is inked; glyphs for which this is
/// false are skipped.
pub fn has_ink(w: usize, h: usize, bitmap: &[u8]) -> (ink: bool)
    ensures
        ink == (w > 0 && h > 0 && any_ink(bitmap@)),
        ink == (w > 0 && h > 0 && exists|i: int| 0 <= i < bitmap@.len() && #[trigger] bitmap@[i] >= 100),
{
    if w == 0 || h == 0 {
        return false;
    }
    let mut i: usize = 0;
    while i < bitmap.len()
        invariant
            w > 0 && h > 0,
            i <= bitmap@.len(),
            forall|k: int| 0 <= k < i ==> #[trigger] bitmap@[k] < THRESH,
        decreases bitmap@.len() - i,
    {
        if bitmap[i] >= THRESH {
            assert(bitmap@[i as int] >= THRESH);
            return true;
        }
        i += 1;
    }
    false
}

/// Law: for a bitmap of exactly `w * h` pixels, a glyph has ink exactly when it
/// merges into at least one rectangle.
pub proof fn lemma_ink_iff_rects(bm: Seq<u8>, w: usize, h: usize, rs: Seq<Rect>)
    requires
        bm.len() == w * h,
        merged_rects(bm, w as int, h as int, rs),
    ensures
        (w > 0 && h > 0 && any_ink(bm)) <==> rs.len() > 0,
{
    if w > 0 && h > 0 && any_ink(bm) {
        let i = choose|i: int| 0 <= i < bm.len() && #[trigger] bm[i] >= THRESH;
        let y = i / (w as int);
        let c = i % (w as int);
        assert(i == y * w + c && 0 <= c < w && 0 <= y) by (nonlinear_arith)
            requires y == i / (w as int), c == i % (w as int), w > 0, i >= 0;
        assert(y < h) by (nonlinear_arith)
            requires i == y * w + c, 0 <= c, i < w * h, w > 0;
        assert(inked(bm, w as int, y, c));
        lemma_rects_cover_ink(bm, w, h, rs, y, c);
    }
    if rs.len() > 0 {
        let r = rs[0];
        assert(is_block(bm, w as int, h as int, r));
        assert(is_span(bm, w as int, r.y0 as int, r.x0 as int, r.x1 as int));
        assert(inked(bm, w as int, r.y0 as int, r.x0 as int));
        lemma_pixel_index(r.y0 as int, r.x0 as int, w as int, h as int);
        assert(bm[r.y0 * w + r.x0] >= THRESH);
    }
}

} // verus!
