use soul_symphony_ling::coverage::{has_ink, rects_of, row_spans, Rect, THRESH};

fn rect(x0: usize, x1: usize, y0: usize, y1: usize) -> Rect {
    Rect { x0, x1, y0, y1 }
}

/// Builds a bitmap from rows of '#' (ink) and '.' (no ink).
fn bitmap(rows: &[&str]) -> (usize, usize, Vec<u8>) {
    let h = rows.len();
    let w = if h == 0 { 0 } else { rows[0].len() };
    let mut bm = Vec::new();
    for r in rows {
        for c in r.chars() {
            bm.push(if c == '#' { 255 } else { 0 });
        }
    }
    (w, h, bm)
}

fn covered(rs: &[Rect], y: usize, c: usize) -> usize {
    rs.iter().filter(|r| r.y0 <= y && y < r.y1 && r.x0 <= c && c < r.x1).count()
}

#[test]
fn spans_of_a_row() {
    let (w, _, bm) = bitmap(&["##.#..###", ".........", "#########"]);
    assert_eq!(row_spans(w, 0, &bm), vec![(0, 2), (3, 4), (6, 9)]);
    assert_eq!(row_spans(w, 1, &bm), vec![]);
    assert_eq!(row_spans(w, 2, &bm), vec![(0, 9)]);
}

#[test]
fn threshold_is_inclusive() {
    let bm = vec![THRESH - 1, THRESH, 255, THRESH - 1];
    assert_eq!(row_spans(4, 0, &bm), vec![(1, 3)]);
}

#[test]
fn identical_spans_merge_downwards() {
    let (w, h, bm) = bitmap(&["##.", "##.", ".##"]);
    assert_eq!(rects_of(w, h, &bm), vec![rect(0, 2, 0, 2), rect(1, 3, 2, 3)]);
}

#[test]
fn a_gap_splits_a_stack() {
    let (w, h, bm) = bitmap(&["##", "..", "##"]);
    assert_eq!(rects_of(w, h, &bm), vec![rect(0, 2, 0, 1), rect(0, 2, 2, 3)]);
}

#[test]
fn rects_come_out_in_closing_order() {
    let (w, h, bm) = bitmap(&["#.#", "#.."]);
    assert_eq!(rects_of(w, h, &bm), vec![rect(2, 3, 0, 1), rect(0, 1, 0, 2)]);
}

#[test]
fn different_spans_do_not_merge() {
    let (w, h, bm) = bitmap(&["###", ".#.", "###"]);
    assert_eq!(
        rects_of(w, h, &bm),
        vec![rect(0, 3, 0, 1), rect(1, 2, 1, 2), rect(0, 3, 2, 3)]
    );
}

#[test]
fn empty_bitmaps_have_no_rects() {
    assert_eq!(rects_of(0, 0, &[]), vec![]);
    assert_eq!(rects_of(3, 0, &[]), vec![]);
    let (w, h, bm) = bitmap(&["...", "..."]);
    assert_eq!(rects_of(w, h, &bm), vec![]);
}

#[test]
fn rects_cover_each_inked_pixel_once() {
    let rows = [
        "..####....##",
        ".######...##",
        "##....##..##",
        "##....##....",
        ".######..###",
        "..####...#.#",
    ];
    let (w, h, bm) = bitmap(&rows);
    let rs = rects_of(w, h, &bm);
    for y in 0..h {
        for c in 0..w {
            let ink = bm[y * w + c] >= THRESH;
            assert_eq!(covered(&rs, y, c), if ink { 1 } else { 0 }, "pixel ({y}, {c})");
        }
    }
}

#[test]
fn blank_glyphs_have_no_ink() {
    let (w, h, bm) = bitmap(&["...", ".#."]);
    assert!(has_ink(w, h, &bm));
    let (w, h, bm) = bitmap(&["...", "..."]);
    assert!(!has_ink(w, h, &bm));
    assert!(!has_ink(0, 2, &[]));
    assert!(!has_ink(2, 0, &[]));
}

#[test]
fn ink_exactly_when_some_rect() {
    for rows in [vec!["#."], vec![".."], vec!["..", ".#"], vec!["...", "..."]] {
        let (w, h, bm) = bitmap(&rows);
        assert_eq!(has_ink(w, h, &bm), !rects_of(w, h, &bm).is_empty());
    }
}
