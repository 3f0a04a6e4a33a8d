use vstd::prelude::*;

verus! {

/// A point in device (pixel) space.
#[derive(Clone, Copy, Debug, PartialEq, Eq, Structural)]
pub struct Point {
    pub x: i32,
    pub y: i32,
}

/// A colour with its opacity already applied.
#[derive(Clone, Copy, Debug, PartialEq, Eq, Structural)]
pub struct RgbaColor {
    pub red: u8,
    pub green: u8,
    pub blue: u8,
    pub alpha: u8,
}

/// What one contour edge covers on one scanline.
#[derive(Clone, Copy, Debug, PartialEq, Eq, Structural)]
pub struct EdgeRecord {
    pub y: i32,
    pub edge_idx: usize,
    pub x_min: i32,
    pub x_max: i32,
    pub is_poisoned: bool,
}

pub open spec fn abs(a: int) -> int {
    if a < 0 {
        -a
    } else {
        a
    }
}

pub open spec fn dir(a: int, b: int) -> int {
    if a < b {
        1
    } else {
        -1
    }
}

/// The cells of the Bresenham walk from `(x, y)`, with error term `err`, to `p2`.
pub open spec fn line_from(p1: Point, p2: Point, x: int, y: int, err: int) -> Seq<Point>
    decreases abs(p2.x - x) + abs(p2.y - y),
{
    let here = Point { x: x as i32, y: y as i32 };
    if x == p2.x && y == p2.y {
        seq![here]
    } else {
        let dx = abs(p2.x - p1.x);
        let dy = -abs(p2.y - p1.y);
        let e2 = 2 * err;
        let x1 = if e2 >= dy {
            x + dir(p1.x as int, p2.x as int)
        } else {
            x
        };
        let err1 = if e2 >= dy {
            err + dy
        } else {
            err
        };
        let y1 = if e2 <= dx {
            y + dir(p1.y as int, p2.y as int)
        } else {
            y
        };
        let err2 = if e2 <= dx {
            err1 + dx
        } else {
            err1
        };
        if abs(p2.x - x1) + abs(p2.y - y1) < abs(p2.x - x) + abs(p2.y - y) {
            seq![here] + line_from(p1, p2, x1, y1, err2)
        } else {
            seq![here]
        }
    }
}

/// The cells that the line from `p1` to `p2` passes through, from `p1` to `p2`.
pub open spec fn line_points(p1: Point, p2: Point) -> Seq<Point> {
    line_from(p1, p2, p1.x as int, p1.y as int, abs(p2.x - p1.x) - abs(p2.y - p1.y))
}

/// A cell is poisoned at the start of a line that does not go up from it, and at the end of
/// a line that does not come down to it.
pub open spec fn poisoned_at(p1: Point, p2: Point, q: Point) -> bool {
    if q == p1 {
        p1.y <= p2.y
    } else if q == p2 {
        p2.y <= p1.y
    } else {
        false
    }
}

/// Index of the latest record of edge `idx` on row `y`, or -1.
pub open spec fn find_record(t: Seq<EdgeRecord>, y: i32, idx: usize) -> int
    decreases t.len(),
{
    if t.len() == 0 {
        -1
    } else if t.last().y == y && t.last().edge_idx == idx {
        t.len() - 1
    } else {
        find_record(t.drop_last(), y, idx)
    }
}

pub open spec fn min_i32(a: i32, b: i32) -> i32 {
    if a <= b {
        a
    } else {
        b
    }
}

pub open spec fn max_i32(a: i32, b: i32) -> i32 {
    if a >= b {
        a
    } else {
        b
    }
}

/// The table after edge `idx` has visited cell `q`.
pub open spec fn add_point(t: Seq<EdgeRecord>, idx: usize, q: Point, poisoned: bool) -> Seq<
    EdgeRecord,
> {
    let i = find_record(t, q.y, idx);
    if i < 0 {
        t.push(EdgeRecord { y: q.y, edge_idx: idx, x_min: q.x, x_max: q.x, is_poisoned: poisoned })
    } else {
        let r = t[i];
        t.update(
            i,
            EdgeRecord {
                y: r.y,
                edge_idx: r.edge_idx,
                x_min: min_i32(r.x_min, q.x),
                x_max: max_i32(r.x_max, q.x),
                is_poisoned: r.is_poisoned || poisoned,
            },
        )
    }
}

/// The table after edge `idx`, from `p1` to `p2`, has visited the cells `pts`.
pub open spec fn add_points(
    t: Seq<EdgeRecord>,
    idx: usize,
    p1: Point,
    p2: Point,
    pts: Seq<Point>,
) -> Seq<EdgeRecord>
    decreases pts.len(),
{
    if pts.len() == 0 {
        t
    } else {
        add_point(
            add_points(t, idx, p1, p2, pts.drop_last()),
            idx,
            pts.last(),
            poisoned_at(p1, p2, pts.last()),
        )
    }
}

/// The records of all edges, each edge walked in turn.
pub open spec fn edge_table(edges: Seq<(Point, Point)>) -> Seq<EdgeRecord>
    decreases edges.len(),
{
    if edges.len() == 0 {
        seq![]
    } else {
        let e = edges.last();
        add_points(
            edge_table(edges.drop_last()),
            (edges.len() - 1) as usize,
            e.0,
            e.1,
            line_points(e.0, e.1),
        )
    }
}

fn find_record_exec(table: &Vec<EdgeRecord>, y: i32, idx: usize) -> (r: Option<usize>)
    ensures
        find_record(table@, y, idx) < 0 <==> r is None,
        r is Some ==> r->Some_0 == find_record(table@, y, idx),
{
    let mut i = table.len();
    assert(table@.subrange(0, i as int) =~= table@);
    while i > 0
        invariant
            i <= table@.len(),
            find_record(table@, y, idx) == find_record(table@.subrange(0, i as int), y, idx),
        decreases i,
    {
        let r = table[i - 1];
        if r.y == y && r.edge_idx == idx {
            return Some(i - 1);
        }
        assert(table@.subrange(0, i as int).drop_last() =~= table@.subrange(0, i - 1));
        i -= 1;
    }
    None
}

proof fn lemma_find_record_range(t: Seq<EdgeRecord>, y: i32, idx: usize)
    ensures
        -1 <= find_record(t, y, idx) < t.len(),
    decreases t.len(),
{
    if t.len() > 0 {
        lemma_find_record_range(t.drop_last(), y, idx);
    }
}

fn record_point(table: &mut Vec<EdgeRecord>, idx: usize, q: Point, poisoned: bool)
    ensures
        final(table)@ == add_point(old(table)@, idx, q, poisoned),
{
    proof {
        lemma_find_record_range(table@, q.y, idx);
    }
    match find_record_exec(table, q.y, idx) {
        None => {
            table.push(EdgeRecord { y: q.y, edge_idx: idx, x_min: q.x, x_max: q.x, is_poisoned: poisoned });
        },
        Some(i) => {
            let r = table[i];
            let x_min = if r.x_min <= q.x {
                r.x_min
            } else {
                q.x
            };
            let x_max = if r.x_max >= q.x {
                r.x_max
            } else {
                q.x
            };
            table.set(
                i,
                EdgeRecord {
                    y: r.y,
                    edge_idx: r.edge_idx,
                    x_min,
                    x_max,
                    is_poisoned: r.is_poisoned || poisoned,
                },
            );
        },
    }
}


/// With `cx` steps taken along x and `cy` along y, the error term is
/// `dx * (1 + cy) - ady * (1 + cx)`. Unless the walk has arrived, it then moves along at
/// least one axis and along neither past the end.
proof fn lemma_bresenham_step(dx: int, ady: int, cx: int, cy: int, err: int)
    requires
        0 <= cx <= dx,
        0 <= cy <= ady,
        err == dx * (1 + cy) - ady * (1 + cx),
        !(cx == dx && cy == ady),
    ensures
        2 * err >= -ady ==> cx < dx,
        2 * err <= dx ==> cy < ady,
        2 * err >= -ady || 2 * err <= dx,
        err - ady == dx * (1 + cy) - ady * (1 + (cx + 1)),
        err + dx == dx * (1 + (cy + 1)) - ady * (1 + cx),
        err - ady + dx == dx * (1 + (cy + 1)) - ady * (1 + (cx + 1)),
{
    assert(err - ady == dx * (1 + cy) - ady * (1 + (cx + 1))) by (nonlinear_arith)
        requires
            err == dx * (1 + cy) - ady * (1 + cx),
    ;
    assert(err + dx == dx * (1 + (cy + 1)) - ady * (1 + cx)) by (nonlinear_arith)
        requires
            err == dx * (1 + cy) - ady * (1 + cx),
    ;
    assert(err - ady + dx == dx * (1 + (cy + 1)) - ady * (1 + (cx + 1))) by (nonlinear_arith)
        requires
            err == dx * (1 + cy) - ady * (1 + cx),
    ;
    if cx == dx {
        assert(dx * (1 + cy) <= dx * ady) by (nonlinear_arith)
            requires
                dx >= 0,
                1 + cy <= ady,
        ;
        assert(ady * (1 + cx) == ady + dx * ady) by (nonlinear_arith)
            requires
                cx == dx,
        ;
    }
    if cy == ady {
        assert(ady * (1 + cx) <= ady * dx) by (nonlinear_arith)
            requires
                ady >= 0,
                1 + cx <= dx,
        ;
        assert(dx * (1 + cy) == dx + dx * ady) by (nonlinear_arith)
            requires
                cy == ady,
        ;
    }
}

/// Walks the line from `p1` to `p2` and records, for each row it crosses, the columns it
/// covers there under edge `edge_idx`.
fn draw_line(edge_idx: usize, p1: Point, p2: Point, table: &mut Vec<EdgeRecord>)
    ensures
        final(table)@ == add_points(old(table)@, edge_idx, p1, p2, line_points(p1, p2)),
{
    let x1 = p1.x as i64;
    let y1 = p1.y as i64;
    let x2 = p2.x as i64;
    let y2 = p2.y as i64;
    let dx: i64 = if x2 >= x1 {
        x2 - x1
    } else {
        x1 - x2
    };
    let ady: i64 = if y2 >= y1 {
        y2 - y1
    } else {
        y1 - y2
    };
    let dy: i64 = -ady;
    let sx: i64 = if x1 < x2 {
        1
    } else {
        -1
    };
    let sy: i64 = if y1 < y2 {
        1
    } else {
        -1
    };
    let mut err: i64 = dx + dy;
    let mut x: i64 = x1;
    let mut y: i64 = y1;
    let ghost mut done: Seq<Point> = seq![];
    let ghost mut cx: int = 0;
    let ghost mut cy: int = 0;
    assert(done + line_points(p1, p2) =~= line_points(p1, p2));
    assert(err == dx * (1 + 0) - ady * (1 + 0)) by (nonlinear_arith)
        requires
            err == dx - ady,
    ;
    loop
        invariant_except_break
            done + line_from(p1, p2, x as int, y as int, err as int) == line_points(p1, p2),
        invariant
            x1 == p1.x,
            y1 == p1.y,
            x2 == p2.x,
            y2 == p2.y,
            dx == abs(p2.x - p1.x),
            ady == abs(p2.y - p1.y),
            dy == -ady,
            sx == dir(p1.x as int, p2.x as int),
            sy == dir(p1.y as int, p2.y as int),
            0 <= cx <= dx,
            0 <= cy <= ady,
            x1 < x2 ==> x == x1 + cx,
            x1 >= x2 ==> x == x1 - cx,
            y1 < y2 ==> y == y1 + cy,
            y1 >= y2 ==> y == y1 - cy,
            err == dx * (1 + cy) - ady * (1 + cx),
            -2 * (dx + ady) <= err <= 2 * (dx + ady),
            table@ == add_points(old(table)@, edge_idx, p1, p2, done),
        ensures
            done == line_points(p1, p2),
        decreases (dx - cx) + (ady - cy),
    {
        let is_start = x == x1 && y == y1;
        let is_end = x == x2 && y == y2;
        let is_poisoned = if is_start {
            y1 <= y2
        } else if is_end {
            y2 <= y1
        } else {
            false
        };
        let q = Point { x: x as i32, y: y as i32 };
        let ghost rest = line_from(p1, p2, x as int, y as int, err as int);
        assert(rest[0] == q);
        assert(is_poisoned == poisoned_at(p1, p2, q));
        record_point(table, edge_idx, q, is_poisoned);
        proof {
            let nd = done.push(q);
            assert(nd.drop_last() =~= done);
            done = nd;
        }
        if is_end {
            assert(rest =~= seq![q]);
            assert(done =~= line_points(p1, p2));
            break;
        }
        proof {
            lemma_bresenham_step(dx as int, ady as int, cx, cy, err as int);
        }
        let e2 = 2 * err;
        if e2 >= dy {
            err += dy;
            x += sx;
            proof {
                cx = cx + 1;
            }
        }
        if e2 <= dx {
            err += dx;
            y += sy;
            proof {
                cy = cy + 1;
            }
        }
        assert(rest =~= seq![q] + line_from(p1, p2, x as int, y as int, err as int));
        assert(done + line_from(p1, p2, x as int, y as int, err as int) =~= line_points(p1, p2));
    }
}


/// The records of row `y` that are not poisoned, in table order.
pub open spec fn good_on_row(t: Seq<EdgeRecord>, y: i32) -> Seq<EdgeRecord>
    decreases t.len(),
{
    if t.len() == 0 {
        seq![]
    } else {
        let g = good_on_row(t.drop_last(), y);
        if t.last().y == y && !t.last().is_poisoned {
            g.push(t.last())
        } else {
            g
        }
    }
}

/// `s` with `r` placed after every record whose `x_min` is not larger than its own.
pub open spec fn insert_by_x(s: Seq<EdgeRecord>, r: EdgeRecord) -> Seq<EdgeRecord>
    decreases s.len(),
{
    if s.len() == 0 {
        seq![r]
    } else if s.last().x_min <= r.x_min {
        s.push(r)
    } else {
        insert_by_x(s.drop_last(), r).push(s.last())
    }
}

/// `s` sorted by `x_min`; records with equal `x_min` keep their order.
pub open spec fn sort_by_x(s: Seq<EdgeRecord>) -> Seq<EdgeRecord>
    decreases s.len(),
{
    if s.len() == 0 {
        s
    } else {
        insert_by_x(sort_by_x(s.drop_last()), s.last())
    }
}

/// Column `x` lies in the span of one of the first `n` pairs of `s` (first with second,
/// third with fourth, ...); an unpaired last record spans nothing.
pub open spec fn in_spans(s: Seq<EdgeRecord>, x: int, n: int) -> bool {
    exists|j: int| 0 <= j < n && 2 * j + 1 < s.len() && #[trigger] s[2 * j].x_min <= x <= s[2 * j + 1].x_max
}

/// Whether the scanline fill of `t` paints the cell `(x, y)`.
pub open spec fn filled(t: Seq<EdgeRecord>, x: i32, y: i32) -> bool {
    let s = sort_by_x(good_on_row(t, y));
    in_spans(s, x as int, s.len() as int)
}

/// Whether filling the contour made of `edges` paints the cell `(x, y)`.
pub open spec fn contour_filled(edges: Seq<(Point, Point)>, x: i32, y: i32) -> bool {
    filled(edge_table(edges), x, y)
}

/// One painted cell.
#[derive(Clone, Copy, Debug, PartialEq, Eq, Structural)]
pub struct Pixel {
    pub x: i32,
    pub y: i32,
    pub color: RgbaColor,
}

/// A sparse map from cells to colours.
pub struct Figure {
    pub pixels: Vec<Pixel>,
}

impl Figure {
    pub open spec fn has(&self, x: i32, y: i32) -> bool {
        exists|i: int| 0 <= i < self.pixels@.len() && #[trigger] self.pixels@[i].x == x && self.pixels@[i].y == y
    }

    /// No cell holds two colours.
    pub open spec fn wf(&self) -> bool {
        forall|i: int, j: int|
            0 <= i < j < self.pixels@.len() ==> !(#[trigger] self.pixels@[i].x == #[trigger] self.pixels@[j].x
                && self.pixels@[i].y == self.pixels@[j].y)
    }

    pub fn new() -> (r: Figure)
        ensures
            r.wf(),
            r.pixels@.len() == 0,
    {
        Figure { pixels: Vec::new() }
    }

    /// Paints the cell `(x, y)` with `color`, replacing what it held.
    pub fn add(&mut self, x: i32, y: i32, color: RgbaColor)
        requires
            old(self).wf(),
        ensures
            final(self).wf(),
            forall|a: i32, b: i32|
                #[trigger] final(self).has(a, b) == (old(self).has(a, b) || (a == x && b == y)),
            exists|k: int|
                0 <= k < final(self).pixels@.len() && #[trigger] final(self).pixels@[k] == (Pixel { x, y, color }),
            forall|i: int|
                0 <= i < old(self).pixels@.len() && !(old(self).pixels@[i].x == x && old(self).pixels@[i].y == y)
                    ==> #[trigger] final(self).pixels@[i] == old(self).pixels@[i],
            forall|k: int|
                0 <= k < final(self).pixels@.len() ==> #[trigger] final(self).pixels@[k] == (Pixel { x, y, color })
                    || (k < old(self).pixels@.len() && final(self).pixels@[k] == old(self).pixels@[k]),
            final(self).pixels@.len() >= old(self).pixels@.len(),
            (forall|i: int|
                0 <= i < old(self).pixels@.len() ==> (#[trigger] old(self).pixels@[i]).color == color)
                ==> (forall|k: int|
                0 <= k < final(self).pixels@.len() ==> (#[trigger] final(self).pixels@[k]).color
                    == color),
    {
        let ghost before = self.pixels@;
        let mut i: usize = 0;
        while i < self.pixels.len()
            invariant
                self.pixels@ == before,
                before == old(self).pixels@,
                old(self).wf(),
                i <= self.pixels@.len(),
                forall|k: int| 0 <= k < i ==> !(self.pixels@[k].x == x && self.pixels@[k].y == y),
            decreases self.pixels.len() - i,
        {
            if self.pixels[i].x == x && self.pixels[i].y == y {
                self.pixels.set(i, Pixel { x, y, color });
                assert(self.pixels@[i as int] == Pixel { x, y, color });
                proof {
                    let after = self.pixels@;
                    assert forall|a: i32, b: i32| #[trigger] self.has(a, b) == (old(self).has(a, b) || (
                    a == x && b == y)) by {
                        if old(self).has(a, b) {
                            let k = choose|k: int| 0 <= k < before.len() && #[trigger] before[k].x == a && before[k].y == b;
                            assert(after[k].x == a && after[k].y == b);
                        }
                        if self.has(a, b) {
                            let k = choose|k: int| 0 <= k < after.len() && #[trigger] after[k].x == a && after[k].y == b;
                            if k != i {
                                assert(before[k] == after[k]);
                            }
                        }
                        if a == x && b == y {
                            assert(after[i as int].x == a && after[i as int].y == b);
                        }
                    }
                }
                return;
            }
            i += 1;
        }
        self.pixels.push(Pixel { x, y, color });
        assert(self.pixels@[before.len() as int] == Pixel { x, y, color });
        proof {
            let after = self.pixels@;
            assert forall|a: i32, b: i32| #[trigger] self.has(a, b) == (old(self).has(a, b) || (a == x
                && b == y)) by {
                if old(self).has(a, b) {
                    let k = choose|k: int| 0 <= k < before.len() && #[trigger] before[k].x == a && before[k].y == b;
                    assert(after[k].x == a && after[k].y == b);
                }
                if self.has(a, b) {
                    let k = choose|k: int| 0 <= k < after.len() && #[trigger] after[k].x == a && after[k].y == b;
                    if k < before.len() {
                        assert(before[k] == after[k]);
                    }
                }
                if a == x && b == y {
                    assert(after[before.len() as int].x == a);
                }
            }
        }
    }

    /// The colour of the cell `(x, y)`, if it was painted.
    pub fn get(&self, x: i32, y: i32) -> (r: Option<RgbaColor>)
        ensures
            r is Some <==> self.has(x, y),
            r is Some ==> exists|i: int|
                0 <= i < self.pixels@.len() && #[trigger] self.pixels@[i] == (Pixel { x, y, color: r->Some_0 }),
    {
        let mut i: usize = 0;
        while i < self.pixels.len()
            invariant
                i <= self.pixels@.len(),
                forall|k: int| 0 <= k < i ==> !(self.pixels@[k].x == x && self.pixels@[k].y == y),
            decreases self.pixels.len() - i,
        {
            if self.pixels[i].x == x && self.pixels[i].y == y {
                assert(self.pixels@[i as int] == Pixel { x, y, color: self.pixels@[i as int].color });
                return Some(self.pixels[i].color);
            }
            i += 1;
        }
        None
    }

    pub fn len(&self) -> (r: usize)
        ensures
            r == self.pixels@.len(),
    {
        self.pixels.len()
    }
}


proof fn lemma_insert_by_x(s: Seq<EdgeRecord>, r: EdgeRecord, i: int)
    requires
        0 <= i <= s.len(),
        forall|k: int| i <= k < s.len() ==> (#[trigger] s[k]).x_min > r.x_min,
        i > 0 ==> s[i - 1].x_min <= r.x_min,
    ensures
        insert_by_x(s, r) == s.insert(i, r),
    decreases s.len(),
{
    if i == s.len() {
        assert(s.insert(i, r) =~= s.push(r));
    } else {
        lemma_insert_by_x(s.drop_last(), r, i);
        assert(s.drop_last().insert(i, r).push(s.last()) =~= s.insert(i, r));
    }
}

proof fn lemma_sort_len(s: Seq<EdgeRecord>)
    ensures
        sort_by_x(s).len() == s.len(),
    decreases s.len(),
{
    if s.len() > 0 {
        lemma_sort_len(s.drop_last());
        lemma_insert_len(sort_by_x(s.drop_last()), s.last());
    }
}

proof fn lemma_insert_len(s: Seq<EdgeRecord>, r: EdgeRecord)
    ensures
        insert_by_x(s, r).len() == s.len() + 1,
    decreases s.len(),
{
    if s.len() > 0 {
        lemma_insert_len(s.drop_last(), r);
    }
}

/// A row with records that are not poisoned has a record in the table.
proof fn lemma_good_on_row_source(t: Seq<EdgeRecord>, y: i32)
    requires
        good_on_row(t, y).len() > 0,
    ensures
        exists|m: int| 0 <= m < t.len() && (#[trigger] t[m]).y == y,
    decreases t.len(),
{
    let d = t.drop_last();
    if t.last().y != y || t.last().is_poisoned {
        lemma_good_on_row_source(d, y);
        let m = choose|m: int| 0 <= m < d.len() && (#[trigger] d[m]).y == y;
        assert(t[m] == d[m]);
    } else {
        assert(t[t.len() - 1].y == y);
    }
}

/// The records of row `y` that are not poisoned.
fn good_edges(table: &Vec<EdgeRecord>, y: i32) -> (r: Vec<EdgeRecord>)
    ensures
        r@ == good_on_row(table@, y),
{
    let mut good: Vec<EdgeRecord> = Vec::new();
    let mut i: usize = 0;
    while i < table.len()
        invariant
            i <= table@.len(),
            good@ == good_on_row(table@.subrange(0, i as int), y),
        decreases table.len() - i,
    {
        let e = table[i];
        assert(table@.subrange(0, i + 1).drop_last() =~= table@.subrange(0, i as int));
        if e.y == y && !e.is_poisoned {
            good.push(e);
        }
        i += 1;
    }
    assert(table@.subrange(0, table@.len() as int) =~= table@);
    good
}

/// Inserts `r` into `sorted` after every record whose `x_min` is not larger.
fn insert_sorted(sorted: &mut Vec<EdgeRecord>, r: EdgeRecord)
    ensures
        final(sorted)@ == insert_by_x(old(sorted)@, r),
{
    let mut i = sorted.len();
    while i > 0 && sorted[i - 1].x_min > r.x_min
        invariant
            i <= sorted@.len(),
            sorted@ == old(sorted)@,
            forall|k: int| i <= k < sorted@.len() ==> (#[trigger] sorted@[k]).x_min > r.x_min,
        decreases i,
    {
        i -= 1;
    }
    proof {
        lemma_insert_by_x(sorted@, r, i as int);
    }
    sorted.insert(i, r);
}

/// The records sorted by `x_min`, equal ones in their original order.
fn sort_edges(edges: &Vec<EdgeRecord>) -> (r: Vec<EdgeRecord>)
    ensures
        r@ == sort_by_x(edges@),
{
    let mut sorted: Vec<EdgeRecord> = Vec::new();
    let mut i: usize = 0;
    while i < edges.len()
        invariant
            i <= edges@.len(),
            sorted@ == sort_by_x(edges@.subrange(0, i as int)),
        decreases edges.len() - i,
    {
        assert(edges@.subrange(0, i + 1).drop_last() =~= edges@.subrange(0, i as int));
        insert_sorted(&mut sorted, edges[i]);
        i += 1;
    }
    assert(edges@.subrange(0, edges@.len() as int) =~= edges@);
    sorted
}

/// Paints, on row `y`, the span of each pair of consecutive records of `sorted`.
fn fill_row(figure: &mut Figure, sorted: &Vec<EdgeRecord>, y: i32, color: RgbaColor)
    requires
        old(figure).wf(),
        forall|k: int| 0 <= k < old(figure).pixels@.len() ==> (#[trigger] old(figure).pixels@[k]).color == color,
    ensures
        final(figure).wf(),
        forall|k: int| 0 <= k < final(figure).pixels@.len() ==> (#[trigger] final(figure).pixels@[k]).color == color,
        forall|a: i32, b: i32|
            #[trigger] final(figure).has(a, b) == (old(figure).has(a, b) || (b == y && in_spans(
                sorted@,
                a as int,
                sorted@.len() as int,
            ))),
{
    let ghost s = sorted@;
    let mut idx: usize = 0;
    while idx + 1 < sorted.len()
        invariant
            s == sorted@,
            figure.wf(),
            forall|k: int| 0 <= k < figure.pixels@.len() ==> (#[trigger] figure.pixels@[k]).color == color,
            idx % 2 == 0,
            idx <= sorted@.len(),
            forall|a: i32, b: i32|
                #[trigger] figure.has(a, b) == (old(figure).has(a, b) || (b == y && in_spans(
                    s,
                    a as int,
                    idx as int / 2,
                ))),
        decreases sorted.len() - idx,
    {
        let e1 = sorted[idx];
        let e2 = sorted[idx + 1];
        let mut x: i64 = e1.x_min as i64;
        let end: i64 = e2.x_max as i64;
        while x <= end
            invariant
                s == sorted@,
                figure.wf(),
                forall|k: int| 0 <= k < figure.pixels@.len() ==> (#[trigger] figure.pixels@[k]).color == color,
                e1 == s[idx as int],
                e2 == s[idx + 1],
                end == e2.x_max,
                e1.x_min <= x,
                x <= end + 1 || x == e1.x_min,
                forall|a: i32, b: i32|
                    #[trigger] figure.has(a, b) == (old(figure).has(a, b) || (b == y && (in_spans(
                        s,
                        a as int,
                        idx as int / 2,
                    ) || e1.x_min <= a < x))),
            decreases end + 1 - x,
        {
            figure.add(x as i32, y, color);
            x += 1;
        }
        proof {
            assert forall|a: i32| #![trigger in_spans(s, a as int, idx as int / 2 + 1)]
                in_spans(s, a as int, idx as int / 2 + 1) == (in_spans(s, a as int, idx as int / 2) || e1.x_min <= a
                    <= e2.x_max) by {
                let j = idx as int / 2;
                assert(2 * j == idx);
                if e1.x_min <= a <= e2.x_max {
                    assert(s[2 * j].x_min <= a <= s[2 * j + 1].x_max);
                }
                if in_spans(s, a as int, idx as int / 2 + 1) {
                    let t = choose|t: int| 0 <= t < j + 1 && 2 * t + 1 < s.len() && #[trigger] s[2 * t].x_min <= a <= s[2 * t + 1].x_max;
                    if t < j {
                        assert(in_spans(s, a as int, idx as int / 2));
                    }
                }
                if in_spans(s, a as int, idx as int / 2) {
                    let t = choose|t: int| 0 <= t < j && 2 * t + 1 < s.len() && #[trigger] s[2 * t].x_min <= a <= s[2 * t + 1].x_max;
                    assert(0 <= t < j + 1);
                }
            }
        }
        let ghost prev = idx as int / 2;
        idx += 2;
        proof {
            assert(idx as int / 2 == prev + 1);
            assert forall|a: i32, b: i32| #[trigger] figure.has(a, b) == (old(figure).has(a, b) || (b
                == y && in_spans(s, a as int, idx as int / 2))) by {
                assert(in_spans(s, a as int, prev + 1) == (in_spans(s, a as int, prev) || e1.x_min <= a
                    <= e2.x_max));
                assert((e1.x_min <= a < x) == (e1.x_min <= a <= e2.x_max));
            }
        }
    }
    proof {
        assert forall|a: i32| #![trigger in_spans(s, a as int, s.len() as int)]
            in_spans(s, a as int, s.len() as int) == in_spans(s, a as int, idx as int / 2) by {
            if in_spans(s, a as int, s.len() as int) {
                let t = choose|t: int| 0 <= t < s.len() && 2 * t + 1 < s.len() && #[trigger] s[2 * t].x_min <= a <= s[2 * t + 1].x_max;
                assert(t < idx as int / 2);
            }
        }
    }
}


/// Some record of the first `k` in `t` lies on row `y`.
pub open spec fn row_seen(t: Seq<EdgeRecord>, y: i32, k: int) -> bool {
    exists|m: int| 0 <= m < k && (#[trigger] t[m]).y == y
}

fn row_seen_before(table: &Vec<EdgeRecord>, y: i32, k: usize) -> (r: bool)
    requires
        k <= table@.len(),
    ensures
        r == row_seen(table@, y, k as int),
{
    let mut m: usize = 0;
    while m < k
        invariant
            k <= table@.len(),
            m <= k,
            forall|i: int| 0 <= i < m ==> (#[trigger] table@[i]).y != y,
        decreases k - m,
    {
        if table[m].y == y {
            return true;
        }
        m += 1;
    }
    false
}

/// Scan-converts the contour made of `edges` and paints its inside with `fill_color`.
///
/// Each edge is walked with Bresenham's algorithm; on each row it covers it leaves one record
/// with the columns it spans there. A record is poisoned where its edge starts without going
/// up, or ends without coming down, so that a vertex where two edges touch a row from the same
/// side is not counted as a crossing. On each row the records that are not poisoned are sorted
/// by their left column and taken in pairs; each pair paints from the left column of the first
/// to the right column of the second. An unpaired last record paints nothing.
pub fn fill_contour(edges: &Vec<(Point, Point)>, fill_color: RgbaColor) -> (figure: Figure)
    ensures
        figure.wf(),
        forall|k: int| 0 <= k < figure.pixels@.len() ==> (#[trigger] figure.pixels@[k]).color == fill_color,
        forall|x: i32, y: i32| #[trigger] figure.has(x, y) == contour_filled(edges@, x, y),
{
    let mut table: Vec<EdgeRecord> = Vec::new();
    let mut idx: usize = 0;
    while idx < edges.len()
        invariant
            idx <= edges@.len(),
            table@ == edge_table(edges@.subrange(0, idx as int)),
        decreases edges.len() - idx,
    {
        let (p1, p2) = edges[idx];
        assert(edges@.subrange(0, idx + 1).drop_last() =~= edges@.subrange(0, idx as int));
        draw_line(idx, p1, p2, &mut table);
        idx += 1;
    }
    assert(edges@.subrange(0, edges@.len() as int) =~= edges@);
    let ghost t = table@;
    let mut figure = Figure::new();
    let mut k: usize = 0;
    while k < table.len()
        invariant
            t == table@,
            t == edge_table(edges@),
            k <= t.len(),
            figure.wf(),
            forall|i: int| 0 <= i < figure.pixels@.len() ==> (#[trigger] figure.pixels@[i]).color == fill_color,
            forall|x: i32, y: i32| #[trigger] figure.has(x, y) == (row_seen(t, y, k as int) && filled(t, x, y)),
        decreases table.len() - k,
    {
        let y = table[k].y;
        let ghost before = figure;
        if !row_seen_before(&table, y, k) {
            let good = good_edges(&table, y);
            let sorted = sort_edges(&good);
            fill_row(&mut figure, &sorted, y, fill_color);
        }
        proof {
            assert forall|a: i32, b: i32| #[trigger] figure.has(a, b) == (row_seen(t, b, k + 1) && filled(
                t,
                a,
                b,
            )) by {
                if b == y {
                    assert(t[k as int].y == b);
                    assert(row_seen(t, b, k + 1));
                } else {
                    if row_seen(t, b, k + 1) {
                        let m = choose|m: int| 0 <= m < k + 1 && (#[trigger] t[m]).y == b;
                        assert(row_seen(t, b, k as int));
                    }
                }
            }
        }
        k += 1;
    }
    proof {
        assert forall|x: i32, y: i32| #[trigger] figure.has(x, y) == contour_filled(edges@, x, y) by {
            if filled(t, x, y) {
                let s = sort_by_x(good_on_row(t, y));
                lemma_sort_len(good_on_row(t, y));
                let j = choose|j: int| 0 <= j < s.len() && 2 * j + 1 < s.len() && #[trigger] s[2 * j].x_min <= x <= s[2 * j + 1].x_max;
                lemma_good_on_row_source(t, y);
                let m = choose|m: int| 0 <= m < t.len() && (#[trigger] t[m]).y == y;
                assert(row_seen(t, y, t.len() as int));
            }
        }
    }
    figure
}


proof fn lemma_all_poisoned_add_point(t: Seq<EdgeRecord>, idx: usize, q: Point)
    requires
        forall|i: int| 0 <= i < t.len() ==> (#[trigger] t[i]).is_poisoned,
    ensures
        forall|i: int| 0 <= i < add_point(t, idx, q, true).len() ==> (#[trigger] add_point(t, idx, q, true)[i]).is_poisoned,
{
    lemma_find_record_range(t, q.y, idx);
}

proof fn lemma_degenerate_table(edges: Seq<(Point, Point)>)
    requires
        forall|i: int| 0 <= i < edges.len() ==> (#[trigger] edges[i]).0 == edges[i].1,
    ensures
        forall|i: int| 0 <= i < edge_table(edges).len() ==> (#[trigger] edge_table(edges)[i]).is_poisoned,
    decreases edges.len(),
{
    if edges.len() > 0 {
        let d = edges.drop_last();
        assert forall|i: int| 0 <= i < d.len() implies (#[trigger] d[i]).0 == d[i].1 by {
            assert(d[i] == edges[i]);
        }
        lemma_degenerate_table(d);
        let p = edges.last().0;
        assert(edges[edges.len() - 1].0 == edges[edges.len() - 1].1);
        let pts = line_points(p, p);
        assert(pts =~= seq![p]);
        let t0 = edge_table(d);
        assert(pts.drop_last() =~= Seq::<Point>::empty());
        assert(add_points(t0, (edges.len() - 1) as usize, p, p, pts.drop_last()) == t0);
        lemma_all_poisoned_add_point(t0, (edges.len() - 1) as usize, p);
    }
}

proof fn lemma_no_good_records(t: Seq<EdgeRecord>, y: i32)
    requires
        forall|i: int| 0 <= i < t.len() ==> (#[trigger] t[i]).is_poisoned,
    ensures
        good_on_row(t, y).len() == 0,
    decreases t.len(),
{
    if t.len() > 0 {
        let d = t.drop_last();
        assert forall|i: int| 0 <= i < d.len() implies (#[trigger] d[i]).is_poisoned by {
            assert(d[i] == t[i]);
        }
        lemma_no_good_records(d, y);
        assert(t[t.len() - 1].is_poisoned);
    }
}

/// A contour whose every edge starts and ends at the same cell paints nothing: each such
/// edge is a single poisoned record, so no row has an edge left to pair.
pub proof fn lemma_degenerate_contour_fills_nothing(edges: Seq<(Point, Point)>)
    requires
        forall|i: int| 0 <= i < edges.len() ==> (#[trigger] edges[i]).0 == edges[i].1,
    ensures
        forall|x: i32, y: i32| !#[trigger] contour_filled(edges, x, y),
{
    lemma_degenerate_table(edges);
    assert forall|x: i32, y: i32| !#[trigger] contour_filled(edges, x, y) by {
        let t = edge_table(edges);
        lemma_no_good_records(t, y);
        lemma_sort_len(good_on_row(t, y));
    }
}

/// Filling is a function of its inputs: two figures that each meet the contract of
/// `fill_contour` for the same edges and colour paint the same cells with the same colour.
pub proof fn lemma_fill_is_deterministic(
    edges: Seq<(Point, Point)>,
    fill_color: RgbaColor,
    a: Figure,
    b: Figure,
)
    requires
        forall|k: int| 0 <= k < a.pixels@.len() ==> (#[trigger] a.pixels@[k]).color == fill_color,
        forall|k: int| 0 <= k < b.pixels@.len() ==> (#[trigger] b.pixels@[k]).color == fill_color,
        forall|x: i32, y: i32| #[trigger] a.has(x, y) == contour_filled(edges, x, y),
        forall|x: i32, y: i32| #[trigger] b.has(x, y) == contour_filled(edges, x, y),
    ensures
        forall|x: i32, y: i32| #[trigger] a.has(x, y) == b.has(x, y),
        forall|i: int, k: int|
            0 <= i < a.pixels@.len() && 0 <= k < b.pixels@.len() ==> (#[trigger] a.pixels@[i]).color
                == (#[trigger] b.pixels@[k]).color,
{
    assert forall|x: i32, y: i32| #[trigger] a.has(x, y) == b.has(x, y) by {
        assert(a.has(x, y) == contour_filled(edges, x, y));
    }
}

} // verus!
