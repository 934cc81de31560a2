//! The diagram analysis engine.
//!
//! Four scanners walk the grid — along rows, columns, and the two diagonal
//! orders — and run one shared two-state machine over the classified cells to
//! find maximal raw line segments.  Colinear raw segments are then merged,
//! merged segments are grouped into wires at shared endpoints, and the
//! horizontal/vertical raw segments feed rectangle detection.
//!
//! Glyph policy (one table for the whole engine): on the horizontal and
//! vertical axes the characters `+ o < > ^ v` are Terminals, `-` extends
//! horizontal runs and `|` vertical ones; on the diagonals only `+` is a
//! Terminal, with `\` extending down-right runs and `/` up-right ones.

use vstd::multiset::Multiset;
use vstd::prelude::*;

use crate::rect::Rectangle;
use crate::tc::TextCoordinate;
use crate::text_buffer::TextBuffer;

verus! {

/// A straight run of cells between two coordinates on a common horizontal,
/// vertical, or 45-degree diagonal line.
#[derive(Debug, Eq, PartialEq, Hash, Clone, Copy, Structural)]
pub struct LineSegment {
    pub start: TextCoordinate,
    pub end: TextCoordinate,
}

/// The segment between the two coordinates.
pub fn line_segment(start: TextCoordinate, end: TextCoordinate) -> (r: LineSegment)
    ensures
        r == (LineSegment { start, end }),
{
    LineSegment { start, end }
}

/// A segment's orientation, read off the sign pattern of `end - start`;
/// also names the four scan directions.
#[derive(Debug, Eq, PartialEq, Clone, Copy, Structural)]
pub enum Kind {
    Horiz,
    Vert,
    DownSlant,
    UpSlant,
}

/// The smaller of two cell numbers.
pub open spec fn cmin(a: u32, b: u32) -> u32 {
    if a <= b {
        a
    } else {
        b
    }
}

/// The larger of two cell numbers.
pub open spec fn cmax(a: u32, b: u32) -> u32 {
    if a >= b {
        a
    } else {
        b
    }
}

impl LineSegment {
    /// The orientation: horizontal when the rows agree, vertical when the
    /// columns agree, otherwise a diagonal by the signs of the deltas.
    pub open spec fn spec_kind(self) -> Kind {
        if self.end.y == self.start.y {
            Kind::Horiz
        } else if self.end.x == self.start.x {
            Kind::Vert
        } else if self.end.x >= self.start.x && self.end.y >= self.start.y {
            Kind::DownSlant
        } else {
            Kind::UpSlant
        }
    }

    /// The orientation of this segment.
    pub fn kind(&self) -> (k: Kind)
        ensures
            k == self.spec_kind(),
    {
        if self.end.y == self.start.y {
            Kind::Horiz
        } else if self.end.x == self.start.x {
            Kind::Vert
        } else if self.end.x >= self.start.x && self.end.y >= self.start.y {
            Kind::DownSlant
        } else {
            Kind::UpSlant
        }
    }

    /// The packed key: the low byte of each endpoint coordinate, end row
    /// highest.
    pub open spec fn spec_id(self) -> u32 {
        ((self.end.y & 0xFF) << 24) | ((self.end.x & 0xFF) << 16) | ((self.start.y & 0xFF) << 8)
            | (self.start.x & 0xFF)
    }

    /// A canonical 32-bit key for deterministic ordering, packing the low
    /// byte of each endpoint coordinate.
    pub fn id(&self) -> (r: u32)
        ensures
            r == self.spec_id(),
    {
        let sx = self.start.x & 0xFF;
        let sy = self.start.y & 0xFF;
        let ex = self.end.x & 0xFF;
        let ey = self.end.y & 0xFF;
        (ey << 24) | (ex << 16) | (sy << 8) | (sx)
    }

    /// The larger of the coordinate spans: how many cells the segment covers
    /// beyond its first one.
    pub open spec fn spec_len(self) -> int {
        let dx = if self.end.x >= self.start.x {
            self.end.x - self.start.x
        } else {
            self.start.x - self.end.x
        };
        let dy = if self.end.y >= self.start.y {
            self.end.y - self.start.y
        } else {
            self.start.y - self.end.y
        };
        if dx >= dy {
            dx
        } else {
            dy
        }
    }

    /// The segment's length in cells beyond its first one; a single point
    /// has length 0.
    pub fn len(&self) -> (r: u32)
        ensures
            r as int == self.spec_len(),
    {
        let dx = if self.end.x >= self.start.x {
            self.end.x - self.start.x
        } else {
            self.start.x - self.end.x
        };
        let dy = if self.end.y >= self.start.y {
            self.end.y - self.start.y
        } else {
            self.start.y - self.end.y
        };
        if dx >= dy {
            dx
        } else {
            dy
        }
    }

    /// How many cells `iter` walks: the x-span, except for vertical segments,
    /// which use the y-span; zero when the span runs backwards.
    pub open spec fn spec_iter_count(self) -> int {
        match self.spec_kind() {
            Kind::Vert => if self.end.y >= self.start.y {
                self.end.y - self.start.y
            } else {
                0
            },
            _ => if self.end.x >= self.start.x {
                self.end.x - self.start.x
            } else {
                0
            },
        }
    }

    /// The `p`-th cell `iter` walks, counted from the start.
    pub open spec fn spec_point(self, p: int) -> TextCoordinate {
        match self.spec_kind() {
            Kind::Horiz => TextCoordinate { x: (self.start.x + p) as u32, y: self.start.y },
            Kind::Vert => TextCoordinate { x: self.start.x, y: (self.start.y + p) as u32 },
            Kind::DownSlant => TextCoordinate {
                x: (self.start.x + p) as u32,
                y: (self.start.y + p) as u32,
            },
            Kind::UpSlant => TextCoordinate {
                x: (self.start.x + p) as u32,
                y: (self.start.y - p) as u32,
            },
        }
    }

    /// Whether every cell `iter` walks has in-range coordinates.  This holds
    /// of every segment the scanners produce; it can fail only for a
    /// hand-built segment whose spans disagree.
    pub open spec fn iter_fits(self) -> bool {
        self.spec_iter_count() == 0 || match self.spec_kind() {
            Kind::Horiz => true,
            Kind::Vert => true,
            Kind::DownSlant => self.start.y + self.spec_iter_count() - 1 <= u32::MAX,
            Kind::UpSlant => self.spec_iter_count() - 1 <= self.start.y,
        }
    }

    /// The cells the segment covers, from `start` towards `end`, the final
    /// cell excluded.
    pub fn iter(&self) -> (r: Vec<TextCoordinate>)
        requires
            self.iter_fits(),
        ensures
            r@.len() == self.spec_iter_count(),
            forall|p: int| 0 <= p < r@.len() ==> r@[p] == self.spec_point(p),
    {
        let kind = self.kind();
        let count: u32 = match kind {
            Kind::Vert => if self.end.y >= self.start.y {
                self.end.y - self.start.y
            } else {
                0
            },
            _ => if self.end.x >= self.start.x {
                self.end.x - self.start.x
            } else {
                0
            },
        };
        let mut r: Vec<TextCoordinate> = Vec::new();
        let mut p: u32 = 0;
        while p < count
            invariant
                self.iter_fits(),
                kind == self.spec_kind(),
                count == self.spec_iter_count(),
                p <= count,
                r@.len() == p,
                forall|q: int| 0 <= q < r@.len() ==> r@[q] == self.spec_point(q),
            decreases count - p,
        {
            let tc = match kind {
                Kind::Horiz => TextCoordinate { x: self.start.x + p, y: self.start.y },
                Kind::Vert => TextCoordinate { x: self.start.x, y: self.start.y + p },
                Kind::DownSlant => TextCoordinate { x: self.start.x + p, y: self.start.y + p },
                Kind::UpSlant => TextCoordinate { x: self.start.x + p, y: self.start.y - p },
            };
            r.push(tc);
            p = p + 1;
        }
        r
    }

    /// Two segments can merge when they share an orientation and at least
    /// one endpoint coordinate.
    pub open spec fn spec_is_colinear(self, other: LineSegment) -> bool {
        self.spec_kind() == other.spec_kind() && (self.start == other.start || self.end
            == other.start || self.end == other.end || self.start == other.end)
    }

    /// Whether the two segments share their orientation and an endpoint.
    pub fn is_colinear(&self, other: &LineSegment) -> (r: bool)
        ensures
            r == self.spec_is_colinear(*other),
    {
        let ka = self.kind();
        let kb = other.kind();
        ka == kb && (self.start == other.start || self.end == other.start || self.end == other.end
            || self.start == other.end)
    }

    /// The union of two colinear segments: the bounding span of all four
    /// endpoints, oriented top-down except that an up-right diagonal keeps
    /// its start at the greater row.
    pub open spec fn spec_extend(self, other: LineSegment) -> LineSegment {
        let min_x = cmin(cmin(self.start.x, self.end.x), cmin(other.start.x, other.end.x));
        let max_x = cmax(cmax(self.start.x, self.end.x), cmax(other.start.x, other.end.x));
        let min_y = cmin(cmin(self.start.y, self.end.y), cmin(other.start.y, other.end.y));
        let max_y = cmax(cmax(self.start.y, self.end.y), cmax(other.start.y, other.end.y));
        if self.spec_kind() == Kind::UpSlant {
            LineSegment {
                start: TextCoordinate { x: min_x, y: max_y },
                end: TextCoordinate { x: max_x, y: min_y },
            }
        } else {
            LineSegment {
                start: TextCoordinate { x: min_x, y: min_y },
                end: TextCoordinate { x: max_x, y: max_y },
            }
        }
    }

    /// Grow this segment to the union span of itself and a colinear one.
    pub fn extend(&mut self, other: &LineSegment)
        requires
            old(self).spec_is_colinear(*other),
        ensures
            *final(self) == old(self).spec_extend(*other),
    {
        let a = if self.start.x <= self.end.x { self.start.x } else { self.end.x };
        let b = if other.start.x <= other.end.x { other.start.x } else { other.end.x };
        let min_x = if a <= b { a } else { b };
        let a = if self.start.x >= self.end.x { self.start.x } else { self.end.x };
        let b = if other.start.x >= other.end.x { other.start.x } else { other.end.x };
        let max_x = if a >= b { a } else { b };
        let a = if self.start.y <= self.end.y { self.start.y } else { self.end.y };
        let b = if other.start.y <= other.end.y { other.start.y } else { other.end.y };
        let min_y = if a <= b { a } else { b };
        let a = if self.start.y >= self.end.y { self.start.y } else { self.end.y };
        let b = if other.start.y >= other.end.y { other.start.y } else { other.end.y };
        let max_y = if a >= b { a } else { b };
        match self.kind() {
            Kind::Horiz | Kind::Vert | Kind::DownSlant => {
                self.start.x = min_x;
                self.start.y = min_y;
                self.end.x = max_x;
                self.end.y = max_y;
            },
            Kind::UpSlant => {
                self.start.x = min_x;
                self.start.y = max_y;
                self.end.x = max_x;
                self.end.y = min_y;
            },
        }
    }
}

/// Classification of one character for the orthogonal scans.
#[derive(Debug, Eq, PartialEq, Clone, Copy, Structural)]
pub enum Class {
    Term,
    HorizEdge,
    VertEdge,
}

/// A classified character's role on one particular scan axis.
#[derive(Debug, Eq, PartialEq, Clone, Copy, Structural)]
pub enum ScanClass {
    Term,
    Edge,
}

/// The orthogonal glyph table: `+ o < > ^ v` begin or end a run, `-` extends
/// horizontal runs, `|` vertical ones; everything else is plain text.
pub open spec fn spec_classify(ch: char) -> Option<Class> {
    if ch == '+' || ch == 'o' || ch == '<' || ch == '>' || ch == '^' || ch == 'v' {
        Some(Class::Term)
    } else if ch == '-' {
        Some(Class::HorizEdge)
    } else if ch == '|' {
        Some(Class::VertEdge)
    } else {
        None
    }
}

/// Classify one character for the orthogonal scans.
pub fn classify(ch: char) -> (r: Option<Class>)
    ensures
        r == spec_classify(ch),
{
    match ch {
        '+' | 'o' | '<' | '>' | '^' | 'v' => Some(Class::Term),
        '-' => Some(Class::HorizEdge),
        '|' => Some(Class::VertEdge),
        _ => None,
    }
}

/// What a character means to the horizontal scanner.
pub open spec fn spec_classify_horiz(ch: char) -> Option<ScanClass> {
    match spec_classify(ch) {
        Some(Class::Term) => Some(ScanClass::Term),
        Some(Class::HorizEdge) => Some(ScanClass::Edge),
        _ => None,
    }
}

/// Classify one character for the horizontal scanner.
pub fn classify_horiz(ch: char) -> (r: Option<ScanClass>)
    ensures
        r == spec_classify_horiz(ch),
{
    match classify(ch) {
        Some(Class::Term) => Some(ScanClass::Term),
        Some(Class::HorizEdge) => Some(ScanClass::Edge),
        _ => None,
    }
}

/// What a character means to the vertical scanner.
pub open spec fn spec_classify_vert(ch: char) -> Option<ScanClass> {
    match spec_classify(ch) {
        Some(Class::Term) => Some(ScanClass::Term),
        Some(Class::VertEdge) => Some(ScanClass::Edge),
        _ => None,
    }
}

/// Classify one character for the vertical scanner.
pub fn classify_vert(ch: char) -> (r: Option<ScanClass>)
    ensures
        r == spec_classify_vert(ch),
{
    match classify(ch) {
        Some(Class::Term) => Some(ScanClass::Term),
        Some(Class::VertEdge) => Some(ScanClass::Edge),
        _ => None,
    }
}

/// What a character means to the down-right diagonal scanner.
pub open spec fn spec_classify_diag_down_right(ch: char) -> Option<ScanClass> {
    if ch == '+' {
        Some(ScanClass::Term)
    } else if ch == '\\' {
        Some(ScanClass::Edge)
    } else {
        None
    }
}

/// Classify one character for the down-right diagonal scanner.
pub fn classify_diag_down_right(ch: char) -> (r: Option<ScanClass>)
    ensures
        r == spec_classify_diag_down_right(ch),
{
    match ch {
        '+' => Some(ScanClass::Term),
        '\\' => Some(ScanClass::Edge),
        _ => None,
    }
}

/// What a character means to the up-right diagonal scanner, whose runs lean
/// the other way.
pub open spec fn spec_classify_diag_down_left(ch: char) -> Option<ScanClass> {
    if ch == '+' {
        Some(ScanClass::Term)
    } else if ch == '/' {
        Some(ScanClass::Edge)
    } else {
        None
    }
}

/// Classify one character for the up-right diagonal scanner.
pub fn classify_diag_down_left(ch: char) -> (r: Option<ScanClass>)
    ensures
        r == spec_classify_diag_down_left(ch),
{
    match ch {
        '+' => Some(ScanClass::Term),
        '/' => Some(ScanClass::Edge),
        _ => None,
    }
}

/// The glyph table of axis `axis`.
pub open spec fn spec_classify_axis(axis: Kind, ch: char) -> Option<ScanClass> {
    match axis {
        Kind::Horiz => spec_classify_horiz(ch),
        Kind::Vert => spec_classify_vert(ch),
        Kind::DownSlant => spec_classify_diag_down_right(ch),
        Kind::UpSlant => spec_classify_diag_down_left(ch),
    }
}

/// The classified cells of a traversal, in order: each populated cell that
/// axis `axis` gives a role, paired with that role.
pub open spec fn classified_cells(axis: Kind, cells: Seq<(TextCoordinate, char)>) -> Seq<
    (TextCoordinate, ScanClass),
>
    decreases cells.len(),
{
    if cells.len() == 0 {
        Seq::empty()
    } else {
        classified_cells(axis, cells.drop_last()) + match spec_classify_axis(
            axis,
            cells.last().1,
        ) {
            Some(sc) => seq![(cells.last().0, sc)],
            None => Seq::empty(),
        }
    }
}

/// The scanner's state: idle, or extending a run whose `end` is the cell
/// that most recently continued it.
#[derive(Debug, Eq, PartialEq, Clone, Copy, Structural)]
pub enum ScanState {
    Blank,
    Tracking(LineSegment),
}

/// Whether `b` is the next cell after `a` along axis `axis`.
pub open spec fn spec_adjacent(axis: Kind, a: TextCoordinate, b: TextCoordinate) -> bool {
    match axis {
        Kind::Horiz => a.y == b.y && a.x + 1 == b.x,
        Kind::Vert => a.x == b.x && a.y + 1 == b.y,
        Kind::DownSlant => a.x + 1 == b.x && a.y + 1 == b.y,
        Kind::UpSlant => a.x + 1 == b.x && a.y == b.y + 1,
    }
}

/// Whether `b` is the next cell after `a` along axis `axis`.
pub fn adjacent(axis: Kind, a: &TextCoordinate, b: &TextCoordinate) -> (r: bool)
    ensures
        r == spec_adjacent(axis, *a, *b),
{
    match axis {
        Kind::Horiz => a.y == b.y && b.x >= 1 && a.x == b.x - 1,
        Kind::Vert => a.x == b.x && b.y >= 1 && a.y == b.y - 1,
        Kind::DownSlant => b.x >= 1 && a.x == b.x - 1 && b.y >= 1 && a.y == b.y - 1,
        Kind::UpSlant => b.x >= 1 && a.x == b.x - 1 && a.y >= 1 && b.y == a.y - 1,
    }
}

/// One transition of the scanner: the new state, and the segment emitted, if
/// any.  A Terminal starts a run when idle; on the adjacent next cell a
/// Terminal completes the run (and anchors a new one) while an Edge extends
/// it; after a gap a Terminal restarts and anything else drops the run.
pub open spec fn scan_step(axis: Kind, st: ScanState, pos: TextCoordinate, cls: ScanClass) -> (
    ScanState,
    Option<LineSegment>,
) {
    match st {
        ScanState::Blank => if cls == ScanClass::Term {
            (ScanState::Tracking(LineSegment { start: pos, end: pos }), None)
        } else {
            (ScanState::Blank, None)
        },
        ScanState::Tracking(track) => if spec_adjacent(axis, track.end, pos) {
            if cls == ScanClass::Term {
                (
                    ScanState::Tracking(LineSegment { start: pos, end: pos }),
                    Some(LineSegment { start: track.start, end: pos }),
                )
            } else {
                (ScanState::Tracking(LineSegment { start: track.start, end: pos }), None)
            }
        } else if cls == ScanClass::Term {
            (ScanState::Tracking(LineSegment { start: pos, end: pos }), None)
        } else {
            (ScanState::Blank, None)
        },
    }
}

/// The scanner's state after the first `n` classified cells.
pub open spec fn scan_state_at(
    axis: Kind,
    items: Seq<(TextCoordinate, ScanClass)>,
    n: int,
) -> ScanState
    decreases n,
{
    if n <= 0 {
        ScanState::Blank
    } else {
        scan_step(axis, scan_state_at(axis, items, n - 1), items[n - 1].0, items[n - 1].1).0
    }
}

/// Every segment the scanner emits among the first `n` classified cells.
pub open spec fn scan_emits(axis: Kind, items: Seq<(TextCoordinate, ScanClass)>, n: int) -> Seq<
    LineSegment,
>
    decreases n,
{
    if n <= 0 {
        Seq::empty()
    } else {
        scan_emits(axis, items, n - 1) + match scan_step(
            axis,
            scan_state_at(axis, items, n - 1),
            items[n - 1].0,
            items[n - 1].1,
        ).1 {
            Some(sg) => seq![sg],
            None => Seq::empty(),
        }
    }
}

/// The emitted segments of positive length; single points are not lines.
pub open spec fn keep_real(segs: Seq<LineSegment>) -> Seq<LineSegment>
    decreases segs.len(),
{
    if segs.len() == 0 {
        Seq::empty()
    } else {
        keep_real(segs.drop_last()) + if segs.last().spec_len() >= 1 {
            seq![segs.last()]
        } else {
            Seq::empty()
        }
    }
}

/// What one axis's scan of a classified stream yields: the emitted segments
/// of positive length, in emission order.
pub open spec fn scan_segments(axis: Kind, items: Seq<(TextCoordinate, ScanClass)>) -> Seq<
    LineSegment,
> {
    keep_real(scan_emits(axis, items, items.len() as int))
}

/// Run the scanning state machine over one axis's classified cells and
/// collect the maximal raw segments.
pub fn line_segment_finder(vals: &Vec<(TextCoordinate, ScanClass)>, axis: Kind) -> (r: Vec<
    LineSegment,
>)
    ensures
        r@ == scan_segments(axis, vals@),
{
    let mut state = ScanState::Blank;
    let mut lines: Vec<LineSegment> = Vec::new();
    let n = vals.len();
    let mut i: usize = 0;
    while i < n
        invariant
            n == vals@.len(),
            i <= n,
            state == scan_state_at(axis, vals@, i as int),
            lines@ == scan_emits(axis, vals@, i as int),
        decreases n - i,
    {
        let (pos, cls) = vals[i];
        match state {
            ScanState::Blank => {
                if cls == ScanClass::Term {
                    state = ScanState::Tracking(LineSegment { start: pos, end: pos });
                }
            },
            ScanState::Tracking(track) => {
                if adjacent(axis, &track.end, &pos) {
                    if cls == ScanClass::Term {
                        lines.push(LineSegment { start: track.start, end: pos });
                        state = ScanState::Tracking(LineSegment { start: pos, end: pos });
                    } else {
                        state = ScanState::Tracking(LineSegment { start: track.start, end: pos });
                    }
                } else if cls == ScanClass::Term {
                    state = ScanState::Tracking(LineSegment { start: pos, end: pos });
                } else {
                    state = ScanState::Blank;
                }
            },
        }
        i = i + 1;
    }
    let mut out: Vec<LineSegment> = Vec::new();
    let m = lines.len();
    let mut j: usize = 0;
    while j < m
        invariant
            m == lines@.len(),
            j <= m,
            out@ == keep_real(lines@.take(j as int)),
        decreases m - j,
    {
        proof {
            assert(lines@.take(j as int + 1).drop_last() =~= lines@.take(j as int));
        }
        let sg = lines[j];
        if sg.len() >= 1 {
            out.push(sg);
        }
        j = j + 1;
    }
    proof {
        assert(lines@.take(m as int) =~= lines@);
    }
    out
}

/// A segment's shape agrees with the axis that scanned it: rows, columns or
/// a 45-degree slope, start before end in scan order.
pub open spec fn axis_seg_wf(axis: Kind, sg: LineSegment) -> bool {
    match axis {
        Kind::Horiz => sg.start.y == sg.end.y && sg.start.x <= sg.end.x,
        Kind::Vert => sg.start.x == sg.end.x && sg.start.y <= sg.end.y,
        Kind::DownSlant => sg.start.x <= sg.end.x && sg.end.x - sg.start.x == sg.end.y
            - sg.start.y,
        Kind::UpSlant => sg.start.x <= sg.end.x && sg.end.x - sg.start.x == sg.start.y - sg.end.y,
    }
}

/// Whether a coordinate lies inside the `xb` by `yb` box.
pub open spec fn coord_within(tc: TextCoordinate, xb: int, yb: int) -> bool {
    tc.x < xb && tc.y < yb
}

/// While scanning cells that all lie inside a box, the tracked run and every
/// emitted segment keep the axis's shape, stay inside the box, and the run's
/// `end` is always the cell last consumed.
proof fn lemma_scan_shape(
    axis: Kind,
    items: Seq<(TextCoordinate, ScanClass)>,
    n: int,
    xb: int,
    yb: int,
)
    requires
        0 <= n <= items.len(),
        forall|k: int|
            0 <= k < items.len() ==> coord_within((#[trigger] items[k]).0, xb, yb),
    ensures
        scan_state_at(axis, items, n) matches ScanState::Tracking(tr) ==> axis_seg_wf(axis, tr)
            && coord_within(tr.start, xb, yb) && coord_within(tr.end, xb, yb) && n >= 1
            && tr.end == items[n - 1].0,
        forall|k: int|
            0 <= k < scan_emits(axis, items, n).len() ==> axis_seg_wf(
                axis,
                #[trigger] scan_emits(axis, items, n)[k],
            ) && coord_within(scan_emits(axis, items, n)[k].start, xb, yb) && coord_within(
                scan_emits(axis, items, n)[k].end,
                xb,
                yb,
            ),
    decreases n,
{
    if n > 0 {
        lemma_scan_shape(axis, items, n - 1, xb, yb);
        let pre = scan_emits(axis, items, n - 1);
        let cur = scan_emits(axis, items, n);
        assert(coord_within(items[n - 1].0, xb, yb));
        assert forall|k: int|
            0 <= k < cur.len() implies axis_seg_wf(axis, #[trigger] cur[k]) && coord_within(
            cur[k].start,
            xb,
            yb,
        ) && coord_within(cur[k].end, xb, yb) by {
            if k < pre.len() {
                assert(cur[k] == pre[k]);
            }
        }
    }
}

/// A classified stream visits only coordinates its traversal visits.
proof fn lemma_classified_within(
    axis: Kind,
    cells: Seq<(TextCoordinate, char)>,
    xb: int,
    yb: int,
)
    requires
        forall|k: int| 0 <= k < cells.len() ==> coord_within((#[trigger] cells[k]).0, xb, yb),
    ensures
        forall|k: int|
            0 <= k < classified_cells(axis, cells).len() ==> coord_within(
                (#[trigger] classified_cells(axis, cells)[k]).0,
                xb,
                yb,
            ),
    decreases cells.len(),
{
    if cells.len() > 0 {
        assert(forall|k: int|
            0 <= k < cells.drop_last().len() ==> (#[trigger] cells.drop_last()[k]) == cells[k]);
        lemma_classified_within(axis, cells.drop_last(), xb, yb);
        let pre = classified_cells(axis, cells.drop_last());
        let cur = classified_cells(axis, cells);
        assert(coord_within(cells[cells.len() - 1].0, xb, yb));
        assert forall|k: int|
            0 <= k < cur.len() implies coord_within((#[trigger] cur[k]).0, xb, yb) by {
            if k < pre.len() {
                assert(cur[k] == pre[k]);
            }
        }
    }
}

/// Segments that survive the length filter come from the emitted list.
proof fn lemma_keep_real_sub(segs: Seq<LineSegment>)
    ensures
        forall|k: int|
            0 <= k < keep_real(segs).len() ==> segs.contains(#[trigger] keep_real(segs)[k])
                && keep_real(segs)[k].spec_len() >= 1,
    decreases segs.len(),
{
    if segs.len() > 0 {
        lemma_keep_real_sub(segs.drop_last());
        assert(forall|k: int|
            0 <= k < segs.drop_last().len() ==> (#[trigger] segs.drop_last()[k]) == segs[k]);
        assert(segs[segs.len() - 1] == segs.last());
        assert(segs.contains(segs.last()));
        let pre = keep_real(segs.drop_last());
        let cur = keep_real(segs);
        assert forall|k: int|
            0 <= k < cur.len() implies segs.contains(#[trigger] cur[k]) && cur[k].spec_len()
            >= 1 by {
            if k < pre.len() {
                assert(cur[k] == pre[k]);
                assert(segs.drop_last().contains(pre[k]));
                let i = choose|i: int|
                    0 <= i < segs.drop_last().len() && segs.drop_last()[i] == pre[k];
                assert(segs[i] == pre[k]);
            } else {
                assert(cur[k] == segs.last());
            }
        }
    }
}

/// Every scanned segment keeps its axis's shape, has positive length, and
/// stays inside the box that bounds the scanned cells.
pub proof fn lemma_scan_segments_wf(
    axis: Kind,
    items: Seq<(TextCoordinate, ScanClass)>,
    xb: int,
    yb: int,
)
    requires
        forall|k: int|
            0 <= k < items.len() ==> coord_within((#[trigger] items[k]).0, xb, yb),
    ensures
        forall|k: int|
            0 <= k < scan_segments(axis, items).len() ==> axis_seg_wf(
                axis,
                #[trigger] scan_segments(axis, items)[k],
            ) && scan_segments(axis, items)[k].spec_len() >= 1 && coord_within(
                scan_segments(axis, items)[k].start,
                xb,
                yb,
            ) && coord_within(scan_segments(axis, items)[k].end, xb, yb),
{
    let emitted = scan_emits(axis, items, items.len() as int);
    lemma_scan_shape(axis, items, items.len() as int, xb, yb);
    lemma_keep_real_sub(emitted);
}

/// Extending a tracked run by the adjacent next cell keeps every walked
/// cell and adds exactly that cell.
proof fn lemma_track_extend_points(axis: Kind, tr0: LineSegment, pos: TextCoordinate)
    requires
        axis_seg_wf(axis, tr0),
        spec_adjacent(axis, tr0.end, pos),
    ensures
        (LineSegment { start: tr0.start, end: pos }).spec_iter_count() == tr0.spec_iter_count()
            + 1,
        forall|p: int|
            0 <= p <= tr0.spec_iter_count() ==> (LineSegment {
                start: tr0.start,
                end: pos,
            }).spec_point(p) == tr0.spec_point(p),
        (LineSegment { start: tr0.start, end: pos }).spec_point(tr0.spec_iter_count() + 1) == pos,
        axis_seg_wf(axis, LineSegment { start: tr0.start, end: pos }),
{
    let tr1 = LineSegment { start: tr0.start, end: pos };
    match axis {
        Kind::Horiz => {
            assert(tr1.spec_kind() == Kind::Horiz);
        },
        Kind::Vert => {
            assert(tr1.spec_kind() == Kind::Vert);
            assert(forall|p: int|
                0 <= p <= tr0.spec_iter_count() ==> #[trigger] tr1.spec_point(p)
                    == tr0.spec_point(p));
        },
        Kind::DownSlant => {
            assert(tr1.spec_kind() == Kind::DownSlant);
            assert(forall|p: int|
                0 <= p <= tr0.spec_iter_count() ==> #[trigger] tr1.spec_point(p)
                    == tr0.spec_point(p));
        },
        Kind::UpSlant => {
            assert(tr1.spec_kind() == Kind::UpSlant);
            assert(forall|p: int|
                0 <= p <= tr0.spec_iter_count() ==> #[trigger] tr1.spec_point(p)
                    == tr0.spec_point(p));
        },
    }
}

/// Within the first `n` classified cells, the tracked run and every emitted
/// segment walk only cells the scan has consumed, endpoints included.
proof fn lemma_scan_points_consumed(axis: Kind, items: Seq<(TextCoordinate, ScanClass)>, n: int)
    requires
        0 <= n <= items.len(),
    ensures
        scan_state_at(axis, items, n) matches ScanState::Tracking(tr) ==> forall|p: int|
            0 <= p <= tr.spec_iter_count() ==> exists|k: int|
                0 <= k < n && (#[trigger] items[k]).0 == #[trigger] tr.spec_point(p),
        forall|j: int, p: int|
            0 <= j < scan_emits(axis, items, n).len() && 0 <= p <= scan_emits(axis, items, n)[
                j
            ].spec_iter_count() ==> exists|k: int|
                0 <= k < n && (#[trigger] items[k]).0 == #[trigger] scan_emits(axis, items, n)[
                    j
                ].spec_point(p),
    decreases n,
{
    let big = 0x1_0000_0000int;
    assert forall|k: int|
        0 <= k < items.len() implies coord_within((#[trigger] items[k]).0, big, big) by {}
    if n > 0 {
        lemma_scan_points_consumed(axis, items, n - 1);
        lemma_scan_shape(axis, items, n - 1, big, big);
        lemma_scan_shape(axis, items, n, big, big);
        let st = scan_state_at(axis, items, n - 1);
        let pos = items[n - 1].0;
        let cls = items[n - 1].1;
        let pre = scan_emits(axis, items, n - 1);
        let cur = scan_emits(axis, items, n);
        let fresh = LineSegment { start: pos, end: pos };
        assert(fresh.spec_iter_count() == 0);
        assert(fresh.spec_point(0) == pos);
        assert forall|p: int|
            0 <= p <= fresh.spec_iter_count() implies exists|k: int|
                0 <= k < n && (#[trigger] items[k]).0 == #[trigger] fresh.spec_point(p) by {
            assert(items[n - 1].0 == fresh.spec_point(p));
        }
        let mut extended = false;
        match st {
            ScanState::Tracking(tr0) => {
                if spec_adjacent(axis, tr0.end, pos) {
                    lemma_track_extend_points(axis, tr0, pos);
                    let tr1 = LineSegment { start: tr0.start, end: pos };
                    assert forall|p: int|
                        0 <= p <= tr1.spec_iter_count() implies exists|k: int|
                            0 <= k < n && (#[trigger] items[k]).0 == #[trigger] tr1.spec_point(
                            p,
                        ) by {
                        if p <= tr0.spec_iter_count() {
                            assert(tr1.spec_point(p) == tr0.spec_point(p));
                            let k0 = choose|k0: int|
                                0 <= k0 < n - 1 && (#[trigger] items[k0]).0 == tr0.spec_point(p);
                        } else {
                            assert(tr1.spec_point(p) == pos);
                            assert(items[n - 1].0 == pos);
                        }
                    }
                    if cls == ScanClass::Term {
                        assert(cur == pre + seq![tr1]);
                        assert forall|j: int, p: int|
                            0 <= j < cur.len() && 0 <= p <= cur[j].spec_iter_count()
                            implies exists|k: int|
                                0 <= k < n && (#[trigger] items[k]).0 == #[trigger] cur[
                            j
                        ].spec_point(p) by {
                            if j < pre.len() {
                                assert(cur[j] == pre[j]);
                                let k0 = choose|k0: int|
                                    0 <= k0 < n - 1 && (#[trigger] items[k0]).0
                                        == pre[j].spec_point(p);
                            } else {
                                assert(cur[j] == tr1);
                                let k0 = choose|k0: int|
                                    0 <= k0 < n && (#[trigger] items[k0]).0 == tr1.spec_point(p);
                            }
                        }
                        assert(scan_state_at(axis, items, n) == ScanState::Tracking(fresh));
                    } else {
                        assert(scan_state_at(axis, items, n) == ScanState::Tracking(tr1));
                        assert(cur =~= pre);
                    }
                    extended = true;
                }
            },
            ScanState::Blank => {
            },
        }
        if !extended {
            // No run continues: nothing is emitted, and the state is blank
            // or a fresh single-cell run at `pos`.
            assert(cur =~= pre);
        }
        if cur =~= pre {
            assert forall|j: int, p: int|
                0 <= j < cur.len() && 0 <= p <= cur[j].spec_iter_count() implies exists|k: int|
                    0 <= k < n && (#[trigger] items[k]).0 == #[trigger] cur[j].spec_point(
                    p,
                ) by {
                assert(cur[j] == pre[j]);
                let k0 = choose|k0: int|
                    0 <= k0 < n - 1 && (#[trigger] items[k0]).0 == pre[j].spec_point(p);
            }
        }
    }
}

/// Every cell a raw scanned segment walks — its excluded final endpoint
/// included — is the position of one of the classified cells the scan
/// consumed.
pub proof fn lemma_scan_walks_classified_cells(
    axis: Kind,
    items: Seq<(TextCoordinate, ScanClass)>,
)
    ensures
        forall|j: int, p: int|
            0 <= j < scan_segments(axis, items).len() && 0 <= p <= scan_segments(axis, items)[
                j
            ].spec_iter_count() ==> exists|k: int|
                0 <= k < items.len() && (#[trigger] items[k]).0 == #[trigger] scan_segments(
                    axis,
                    items,
                )[j].spec_point(p),
{
    let emitted = scan_emits(axis, items, items.len() as int);
    lemma_scan_points_consumed(axis, items, items.len() as int);
    lemma_keep_real_sub(emitted);
    assert forall|j: int, p: int|
        0 <= j < scan_segments(axis, items).len() && 0 <= p <= scan_segments(axis, items)[
            j
        ].spec_iter_count() implies exists|k: int|
            0 <= k < items.len() && (#[trigger] items[k]).0 == #[trigger] scan_segments(
                axis,
                items,
            )[j].spec_point(p) by {
        let seg = scan_segments(axis, items)[j];
        assert(emitted.contains(seg));
        let j2 = choose|j2: int| 0 <= j2 < emitted.len() && emitted[j2] == seg;
        let k0 = choose|k0: int|
            0 <= k0 < items.len() && (#[trigger] items[k0]).0 == emitted[j2].spec_point(p);
    }
}

/// The scanner's run, while one exists, always ends at the cell consumed
/// last.
proof fn lemma_scan_run_end(axis: Kind, items: Seq<(TextCoordinate, ScanClass)>, n: int)
    requires
        0 <= n <= items.len(),
    ensures
        scan_state_at(axis, items, n) matches ScanState::Tracking(tr) ==> n >= 1 && tr.end
            == items[n - 1].0,
    decreases n,
{
    if n > 0 {
        lemma_scan_run_end(axis, items, n - 1);
    }
}

/// When no classified cell is adjacent to the one before it, no run ever
/// continues, so the scan yields no segments at all.
pub proof fn lemma_isolated_cells_yield_nothing(
    axis: Kind,
    items: Seq<(TextCoordinate, ScanClass)>,
)
    requires
        forall|i: int|
            0 < i < items.len() ==> !spec_adjacent(
                axis,
                (#[trigger] items[i - 1]).0,
                items[i].0,
            ),
    ensures
        scan_segments(axis, items) == Seq::<LineSegment>::empty(),
{
    assert forall|n: int| 0 <= n <= items.len() implies scan_emits(axis, items, n)
        == Seq::<LineSegment>::empty() by {
        lemma_scan_emits_empty(axis, items, n);
    }
    assert(scan_segments(axis, items) == keep_real(Seq::<LineSegment>::empty()));
}

proof fn lemma_scan_emits_empty(axis: Kind, items: Seq<(TextCoordinate, ScanClass)>, n: int)
    requires
        0 <= n <= items.len(),
        forall|i: int|
            0 < i < items.len() ==> !spec_adjacent(
                axis,
                (#[trigger] items[i - 1]).0,
                items[i].0,
            ),
    ensures
        scan_emits(axis, items, n) == Seq::<LineSegment>::empty(),
    decreases n,
{
    if n > 0 {
        lemma_scan_emits_empty(axis, items, n - 1);
        lemma_scan_run_end(axis, items, n - 1);
        assert(scan_emits(axis, items, n) =~= Seq::<LineSegment>::empty());
    }
}

/// A lone Terminal glyph, with no adjacent classified cell on its axis,
/// produces no segment on that axis.
pub proof fn lemma_lone_terminal_yields_nothing(axis: Kind, c: TextCoordinate)
    ensures
        scan_segments(axis, seq![(c, ScanClass::Term)]) == Seq::<LineSegment>::empty(),
{
    lemma_isolated_cells_yield_nothing(axis, seq![(c, ScanClass::Term)]);
}

/// Classify a traversal's cells for one axis, keeping their order.
fn classify_stream(cells: &Vec<(TextCoordinate, char)>, axis: Kind) -> (r: Vec<
    (TextCoordinate, ScanClass),
>)
    ensures
        r@ == classified_cells(axis, cells@),
{
    let mut r: Vec<(TextCoordinate, ScanClass)> = Vec::new();
    let n = cells.len();
    let mut i: usize = 0;
    while i < n
        invariant
            n == cells@.len(),
            i <= n,
            r@ == classified_cells(axis, cells@.take(i as int)),
        decreases n - i,
    {
        proof {
            assert(cells@.take(i as int + 1).drop_last() =~= cells@.take(i as int));
        }
        let (pos, ch) = cells[i];
        let cls = match axis {
            Kind::Horiz => classify_horiz(ch),
            Kind::Vert => classify_vert(ch),
            Kind::DownSlant => classify_diag_down_right(ch),
            Kind::UpSlant => classify_diag_down_left(ch),
        };
        if let Some(sc) = cls {
            r.push((pos, sc));
        }
        i = i + 1;
    }
    proof {
        assert(cells@.take(n as int) =~= cells@);
    }
    r
}

/// The horizontal raw segments the row-major scan finds.
pub open spec fn raw_horizontal_segments(tb: TextBuffer) -> Seq<LineSegment> {
    scan_segments(Kind::Horiz, classified_cells(Kind::Horiz, tb.row_major_cells()))
}

/// The vertical raw segments the column-major scan finds.
pub open spec fn raw_vertical_segments(tb: TextBuffer) -> Seq<LineSegment> {
    scan_segments(Kind::Vert, classified_cells(Kind::Vert, tb.col_major_cells()))
}

/// The down-right raw segments the first diagonal scan finds.
pub open spec fn raw_diag_dr_segments(tb: TextBuffer) -> Seq<LineSegment> {
    scan_segments(Kind::DownSlant, classified_cells(Kind::DownSlant, tb.diag_dr_cells()))
}

/// The up-right raw segments the second diagonal scan finds.
pub open spec fn raw_diag_ur_segments(tb: TextBuffer) -> Seq<LineSegment> {
    scan_segments(Kind::UpSlant, classified_cells(Kind::UpSlant, tb.diag_ur_cells()))
}

/// Every raw segment of every scan direction, in scan order.
pub open spec fn all_raw_segments(tb: TextBuffer) -> Seq<LineSegment> {
    raw_horizontal_segments(tb) + raw_vertical_segments(tb) + raw_diag_ur_segments(tb)
        + raw_diag_dr_segments(tb)
}

/// The horizontal raw segments of the grid.
pub fn get_horizontal_line_segments(tb: &TextBuffer) -> (r: Vec<LineSegment>)
    requires
        tb.wf(),
    ensures
        r@ == raw_horizontal_segments(*tb),
{
    let cells = tb.iter();
    let vals = classify_stream(&cells, Kind::Horiz);
    line_segment_finder(&vals, Kind::Horiz)
}

/// The vertical raw segments of the grid.
pub fn get_vertical_line_segments(tb: &TextBuffer) -> (r: Vec<LineSegment>)
    requires
        tb.wf(),
    ensures
        r@ == raw_vertical_segments(*tb),
{
    let cells = tb.iter_vert();
    let vals = classify_stream(&cells, Kind::Vert);
    line_segment_finder(&vals, Kind::Vert)
}

/// The down-right diagonal raw segments of the grid.
pub fn get_diag_down_right_segments(tb: &TextBuffer) -> (r: Vec<LineSegment>)
    requires
        tb.wf(),
    ensures
        r@ == raw_diag_dr_segments(*tb),
{
    let cells = tb.iter_diag_down_right();
    let vals = classify_stream(&cells, Kind::DownSlant);
    line_segment_finder(&vals, Kind::DownSlant)
}

/// The up-right diagonal raw segments of the grid.
pub fn get_diag_up_right_segments(tb: &TextBuffer) -> (r: Vec<LineSegment>)
    requires
        tb.wf(),
    ensures
        r@ == raw_diag_ur_segments(*tb),
{
    let cells = tb.iter_diag_up_right();
    let vals = classify_stream(&cells, Kind::UpSlant);
    line_segment_finder(&vals, Kind::UpSlant)
}

/// The index of the first entry of `acc`, from `i` on, that could merge
/// with `sg`; `acc.len()` when none can.
pub open spec fn first_colinear_from(acc: Seq<LineSegment>, sg: LineSegment, i: int) -> int
    decreases acc.len() - i,
{
    if i < 0 || i >= acc.len() {
        acc.len() as int
    } else if acc[i].spec_is_colinear(sg) {
        i
    } else {
        first_colinear_from(acc, sg, i + 1)
    }
}

/// Folding one segment into an accumulated list: the first colinear entry
/// absorbs it, or it is appended.
pub open spec fn merge_one(acc: Seq<LineSegment>, sg: LineSegment) -> Seq<LineSegment> {
    let j = first_colinear_from(acc, sg, 0);
    if j < acc.len() {
        acc.update(j, acc[j].spec_extend(sg))
    } else {
        acc.push(sg)
    }
}

/// Folding every item of `items`, in order, into `init`.
pub open spec fn merge_fold(init: Seq<LineSegment>, items: Seq<LineSegment>) -> Seq<LineSegment>
    decreases items.len(),
{
    if items.len() == 0 {
        init
    } else {
        merge_one(merge_fold(init, items.drop_last()), items.last())
    }
}

/// What one merging pass yields: starting from the last segment alone,
/// every earlier segment folded in, in order.  A chained extend can bridge
/// two spans already in the list, so one pass may leave a mergeable pair;
/// [`merge_fix`] repeats the pass to the fixed point.
pub open spec fn merge_spec(segs: Seq<LineSegment>) -> Seq<LineSegment> {
    if segs.len() == 0 {
        Seq::empty()
    } else {
        merge_fold(seq![segs.last()], segs.drop_last())
    }
}

/// Skipping entries that cannot merge does not change which entry is found.
proof fn lemma_first_colinear_skip(acc: Seq<LineSegment>, sg: LineSegment, i: int)
    requires
        0 <= i <= acc.len(),
        forall|k: int| 0 <= k < i ==> !(#[trigger] acc[k]).spec_is_colinear(sg),
    ensures
        first_colinear_from(acc, sg, 0) == first_colinear_from(acc, sg, i),
    decreases i,
{
    if i > 0 {
        lemma_first_colinear_skip(acc, sg, i - 1);
    }
}

/// Fold `segment` into `segments`: the first colinear entry grows to the
/// union span, or the segment is appended as new.
pub fn merge_line_segment(segments: &mut Vec<LineSegment>, segment: LineSegment)
    ensures
        final(segments)@ == merge_one(old(segments)@, segment),
{
    let n = segments.len();
    let mut i: usize = 0;
    while i < n
        invariant
            n == segments@.len(),
            segments@ == old(segments)@,
            i <= n,
            forall|k: int| 0 <= k < i ==> !(#[trigger] segments@[k]).spec_is_colinear(segment),
        decreases n - i,
    {
        let candidate = segments[i];
        if candidate.is_colinear(&segment) {
            let mut grown = candidate;
            grown.extend(&segment);
            segments.set(i, grown);
            proof {
                lemma_first_colinear_skip(old(segments)@, segment, i as int);
                assert(first_colinear_from(old(segments)@, segment, i as int) == i as int);
            }
            return ;
        }
        i = i + 1;
    }
    proof {
        lemma_first_colinear_skip(segments@, segment, n as int);
    }
    segments.push(segment);
}

/// One merging pass: fold each segment into the accumulated list, growing
/// the first colinear entry or appending.
fn merge_pass(segments: Vec<LineSegment>) -> (r: Vec<LineSegment>)
    ensures
        r@ == merge_spec(segments@),
{
    let ghost orig = segments@;
    let mut segments = segments;
    let mut ret: Vec<LineSegment> = Vec::new();
    let last = match segments.pop() {
        Some(sg) => sg,
        None => {
            return ret;
        },
    };
    ret.push(last);
    let n = segments.len();
    let mut i: usize = 0;
    while i < n
        invariant
            n == segments@.len(),
            segments@ == orig.drop_last(),
            orig.len() == n + 1,
            last == orig.last(),
            i <= n,
            ret@ == merge_fold(seq![orig.last()], orig.drop_last().take(i as int)),
        decreases n - i,
    {
        proof {
            assert(orig.drop_last().take(i as int + 1).drop_last() =~= orig.drop_last().take(
                i as int,
            ));
        }
        let sg = segments[i];
        merge_line_segment(&mut ret, sg);
        i = i + 1;
    }
    proof {
        assert(orig.drop_last().take(n as int) =~= orig.drop_last());
    }
    ret
}

/// A find that reaches the end certifies that nothing can merge.
proof fn lemma_first_colinear_all_clear(acc: Seq<LineSegment>, sg: LineSegment, i: int)
    requires
        0 <= i <= acc.len(),
        first_colinear_from(acc, sg, i) == acc.len(),
    ensures
        forall|k: int| i <= k < acc.len() ==> !(#[trigger] acc[k]).spec_is_colinear(sg),
    decreases acc.len() - i,
{
    if i < acc.len() {
        assert(!acc[i].spec_is_colinear(sg));
        lemma_first_colinear_all_clear(acc, sg, i + 1);
    }
}

/// One fold step keeps the list's length or grows it by one; growing means
/// the new segment could merge with nothing.
proof fn lemma_merge_one_len(acc: Seq<LineSegment>, sg: LineSegment)
    ensures
        acc.len() <= merge_one(acc, sg).len() <= acc.len() + 1,
        merge_one(acc, sg).len() == acc.len() + 1 ==> merge_one(acc, sg) == acc.push(sg)
            && forall|k: int| 0 <= k < acc.len() ==> !(#[trigger] acc[k]).spec_is_colinear(sg),
{
    lemma_first_colinear_found(acc, sg, 0);
    let j = first_colinear_from(acc, sg, 0);
    if j >= acc.len() {
        lemma_first_colinear_all_clear(acc, sg, 0);
    }
}

/// A fold grows the start list by at most the number of items; growing by
/// exactly that many means every item was appended untouched, each unable
/// to merge with anything before it.
proof fn lemma_merge_fold_len(init: Seq<LineSegment>, items: Seq<LineSegment>)
    ensures
        init.len() <= merge_fold(init, items).len() <= init.len() + items.len(),
        merge_fold(init, items).len() == init.len() + items.len() ==> merge_fold(init, items)
            == init + items && forall|l: int, k: int|
            0 <= l < items.len() && 0 <= k < init.len() + l ==> !(#[trigger] (init + items)[
                k
            ]).spec_is_colinear(#[trigger] items[l]),
    decreases items.len(),
{
    if items.len() == 0 {
        assert(merge_fold(init, items) =~= init + items);
    } else {
        let rest = items.drop_last();
        assert(forall|i: int| 0 <= i < rest.len() ==> (#[trigger] rest[i]) == items[i]);
        lemma_merge_fold_len(init, rest);
        let mid = merge_fold(init, rest);
        lemma_merge_one_len(mid, items.last());
        if merge_fold(init, items).len() == init.len() + items.len() {
            assert(mid.len() == init.len() + rest.len());
            assert(mid == init + rest);
            assert(merge_fold(init, items) == mid.push(items.last()));
            assert(mid.push(items.last()) =~= init + items);
            assert forall|l: int, k: int|
                0 <= l < items.len() && 0 <= k < init.len() + l implies !(#[trigger] (init
                + items)[k]).spec_is_colinear(#[trigger] items[l]) by {
                if l < rest.len() {
                    assert((init + items)[k] == (init + rest)[k]);
                    assert(items[l] == rest[l]);
                    assert(!(init + rest)[k].spec_is_colinear(rest[l]));
                } else {
                    assert((init + items)[k] == mid[k]);
                    assert(!mid[k].spec_is_colinear(items.last()));
                }
            }
        }
    }
}

/// A single pass never lengthens the list, and a pass that keeps the
/// length merged nothing: its output is then a rotation of its input with
/// no mergeable pair left.
proof fn lemma_merge_spec_len(segs: Seq<LineSegment>)
    ensures
        merge_spec(segs).len() <= segs.len(),
        merge_spec(segs).len() == segs.len() ==> pairwise_unmergeable(merge_spec(segs))
            && merge_spec(segs).to_multiset() == segs.to_multiset(),
{
    if segs.len() == 0 {
        assert(merge_spec(segs) =~= segs);
    } else {
        let init = seq![segs.last()];
        let rest = segs.drop_last();
        assert(forall|i: int| 0 <= i < rest.len() ==> (#[trigger] rest[i]) == segs[i]);
        lemma_merge_fold_len(init, rest);
        if merge_spec(segs).len() == segs.len() {
            assert(merge_fold(init, rest) == init + rest);
            let out = init + rest;
            assert forall|i: int, j: int|
                0 <= i < j < out.len() implies !(#[trigger] out[i]).spec_is_colinear(
                #[trigger] out[j],
            ) by {
                assert(out[j] == rest[j - 1]);
                assert(!(init + rest)[i].spec_is_colinear(rest[j - 1]));
            }
            vstd::seq_lib::lemma_seq_union_to_multiset_commutative(init, rest);
            assert(rest + init =~= segs);
        }
    }
}

/// The colinear merge: single passes repeated until no two segments of the
/// output can merge.  One pass can leave a mergeable pair behind when a
/// chained extend bridges two spans that were separate when they entered
/// the list; at the fixed point, re-merging is a no-op.
pub open spec fn merge_fix(segs: Seq<LineSegment>) -> Seq<LineSegment>
    decreases segs.len(),
    via merge_fix_decreases
{
    if merge_spec(segs).len() == segs.len() {
        merge_spec(segs)
    } else {
        merge_fix(merge_spec(segs))
    }
}

#[via_fn]
proof fn merge_fix_decreases(segs: Seq<LineSegment>) {
    lemma_merge_spec_len(segs);
}

/// The merge's fixed point leaves no mergeable pair.
pub proof fn lemma_merge_fix_unmergeable(segs: Seq<LineSegment>)
    ensures
        pairwise_unmergeable(merge_fix(segs)),
    decreases segs.len(),
{
    lemma_merge_spec_len(segs);
    if merge_spec(segs).len() != segs.len() {
        lemma_merge_fix_unmergeable(merge_spec(segs));
    }
}

/// Merge colinear raw segments into maximal ones: any two segments of the
/// same orientation sharing an endpoint collapse into their union span,
/// with passes repeated until no such pair is left.  Re-merging the result
/// is therefore a no-op, and for proper inputs the merged segments walk
/// exactly the cells the input segments walk.
pub fn merge_colinear(segments: Vec<LineSegment>) -> (r: Vec<LineSegment>)
    ensures
        r@ == merge_fix(segments@),
        pairwise_unmergeable(r@),
        all_proper(segments@) ==> all_proper(r@) && forall|c: TextCoordinate|
            #[trigger] any_covers(r@, c) <==> any_covers(segments@, c),
{
    let ghost orig = segments@;
    let mut cur = segments;
    loop
        invariant
            orig == segments@,
            merge_fix(cur@) == merge_fix(orig),
        decreases cur@.len(),
    {
        let ghost prev = cur@;
        let n = cur.len();
        let next = merge_pass(cur);
        proof {
            lemma_merge_spec_len(prev);
        }
        if next.len() == n {
            proof {
                assert(next@ == merge_fix(prev));
                lemma_merge_fix_unmergeable(orig);
                if all_proper(orig) {
                    lemma_merge_fix_covers(orig);
                }
            }
            return next;
        }
        cur = next;
        proof {
            assert(merge_fix(cur@) == merge_fix(prev));
        }
    }
}

/// No two distinct segments of the list can merge with one another.
pub open spec fn pairwise_unmergeable(segs: Seq<LineSegment>) -> bool {
    forall|i: int, j: int|
        0 <= i < j < segs.len() ==> !(#[trigger] segs[i]).spec_is_colinear(#[trigger] segs[j])
}

/// Whether two segments can merge does not depend on their order.
proof fn lemma_colinear_symmetric(a: LineSegment, b: LineSegment)
    ensures
        a.spec_is_colinear(b) == b.spec_is_colinear(a),
{
}

/// When nothing can merge, a fold finds no partner and only appends.
proof fn lemma_first_colinear_none(acc: Seq<LineSegment>, sg: LineSegment, i: int)
    requires
        0 <= i <= acc.len(),
        forall|k: int| 0 <= k < acc.len() ==> !(#[trigger] acc[k]).spec_is_colinear(sg),
    ensures
        first_colinear_from(acc, sg, i) == acc.len(),
    decreases acc.len() - i,
{
    if i < acc.len() {
        lemma_first_colinear_none(acc, sg, i + 1);
    }
}

/// Folding items that can merge with nothing — neither the start list nor
/// one another — just appends them in order.
proof fn lemma_merge_fold_appends(init: Seq<LineSegment>, items: Seq<LineSegment>)
    requires
        forall|k: int, l: int|
            0 <= k < init.len() && 0 <= l < items.len() ==> !(
            #[trigger] init[k]).spec_is_colinear(#[trigger] items[l]),
        forall|k: int, l: int|
            0 <= k < l < items.len() ==> !(#[trigger] items[k]).spec_is_colinear(
                #[trigger] items[l],
            ),
    ensures
        merge_fold(init, items) == init + items,
    decreases items.len(),
{
    if items.len() == 0 {
        assert(merge_fold(init, items) =~= init + items);
    } else {
        let rest = items.drop_last();
        assert(forall|k: int|
            0 <= k < rest.len() ==> (#[trigger] rest[k]) == items[k]);
        lemma_merge_fold_appends(init, rest);
        let acc = init + rest;
        let sg = items.last();
        assert forall|k: int|
            0 <= k < acc.len() implies !(#[trigger] acc[k]).spec_is_colinear(sg) by {
            if k < init.len() {
                assert(acc[k] == init[k]);
            } else {
                assert(acc[k] == items[k - init.len()]);
            }
        }
        lemma_first_colinear_none(acc, sg, 0);
        assert(merge_fold(init, items) == acc.push(sg));
        assert(acc.push(sg) =~= init + items);
    }
}

/// Re-merging an already-merged list is a no-op: when no two segments of a
/// list can merge, merging returns the same segments (as a multiset; the
/// fold begins at the last element, so their order may rotate).
pub proof fn lemma_merge_noop(segs: Seq<LineSegment>)
    requires
        pairwise_unmergeable(segs),
    ensures
        merge_spec(segs).to_multiset() == segs.to_multiset(),
{
    if segs.len() == 0 {
        assert(merge_spec(segs) =~= segs);
    } else {
        let init = seq![segs.last()];
        let rest = segs.drop_last();
        assert(forall|k: int|
            0 <= k < rest.len() ==> (#[trigger] rest[k]) == segs[k]);
        assert forall|k: int, l: int|
            0 <= k < init.len() && 0 <= l < rest.len() implies !(
        #[trigger] init[k]).spec_is_colinear(#[trigger] rest[l]) by {
            assert(init[k] == segs[segs.len() - 1]);
            assert(rest[l] == segs[l]);
            lemma_colinear_symmetric(segs[segs.len() - 1], segs[l]);
        }
        lemma_merge_fold_appends(init, rest);
        assert(merge_spec(segs) == init + rest);
        vstd::seq_lib::lemma_seq_union_to_multiset_commutative(init, rest);
        assert(rest + init =~= segs);
    }
}

/// A list with no mergeable pair is already the merge's fixed point.
proof fn lemma_merge_fix_noop(t: Seq<LineSegment>)
    requires
        pairwise_unmergeable(t),
    ensures
        merge_fix(t) == merge_spec(t),
        merge_fix(t).to_multiset() == t.to_multiset(),
{
    broadcast use vstd::seq_lib::group_to_multiset_ensures;

    lemma_merge_noop(t);
    assert(merge_spec(t).to_multiset().len() == merge_spec(t).len());
    assert(t.to_multiset().len() == t.len());
}

/// Merging is idempotent: merging the merged list again returns the same
/// segments (their canonical order may rotate, so the law is stated over
/// the multiset; sorting either side by key gives the same list).
pub proof fn lemma_merge_idempotent(segs: Seq<LineSegment>)
    ensures
        merge_fix(merge_fix(segs)).to_multiset() == merge_fix(segs).to_multiset(),
{
    lemma_merge_fix_unmergeable(segs);
    lemma_merge_fix_noop(merge_fix(segs));
}

/// A connected group of segments: every segment reachable from every other
/// through shared endpoints.
#[derive(Debug, Hash)]
pub struct Wire {
    pub segments: Vec<LineSegment>,
}

/// Whether two segments meet at an endpoint.
pub open spec fn shares_endpoint(a: LineSegment, b: LineSegment) -> bool {
    a.start == b.start || a.start == b.end || a.end == b.start || a.end == b.end
}

/// All segments of all wires, in order.
pub open spec fn flatten_wires(ws: Seq<Wire>) -> Seq<LineSegment>
    decreases ws.len(),
{
    if ws.len() == 0 {
        Seq::empty()
    } else {
        flatten_wires(ws.drop_last()) + ws.last().segments@
    }
}

/// Whether one of the segment's endpoints appears among the points.
pub open spec fn touches_set(sg: LineSegment, pts: Seq<TextCoordinate>) -> bool {
    exists|k: int| 0 <= k < pts.len() && (sg.start == pts[k] || sg.end == pts[k])
}

/// Segment `i` of the list meets some earlier segment at an endpoint.
pub open spec fn meets_earlier(segs: Seq<LineSegment>, i: int) -> bool {
    exists|j: int| 0 <= j < i && shares_endpoint(segs[i], #[trigger] segs[j])
}

/// In this order, every segment after the first meets some earlier one at
/// an endpoint: a witness that the whole group is connected.
pub open spec fn chain_connected(segs: Seq<LineSegment>) -> bool {
    forall|i: int| 1 <= i < segs.len() ==> #[trigger] meets_earlier(segs, i)
}

/// The point is an endpoint of one of the segments.
pub open spec fn point_from(segs: Seq<LineSegment>, p: TextCoordinate) -> bool {
    exists|a: int| 0 <= a < segs.len() && (p == (#[trigger] segs[a]).start || p == segs[a].end)
}

/// The segments form one connected group: some order of them is a chain.
pub open spec fn connected_cluster(segs: Seq<LineSegment>) -> bool {
    exists|ord: Seq<LineSegment>|
        ord.to_multiset() == segs.to_multiset() && #[trigger] chain_connected(ord)
}

/// Nondecreasing by the canonical segment key.
pub open spec fn sorted_by_id(segs: Seq<LineSegment>) -> bool {
    forall|i: int, j: int|
        0 <= i < j < segs.len() ==> (#[trigger] segs[i]).spec_id() <= (#[trigger] segs[j]).spec_id()
}

/// Wires ordered by the key of their first (smallest-key) segment.
pub open spec fn wires_sorted(ws: Seq<Wire>) -> bool {
    forall|i: int, j: int|
        0 <= i < j < ws.len() ==> (#[trigger] ws[i]).segments@[0].spec_id() <= (
        #[trigger] ws[j]).segments@[0].spec_id()
}

/// No segment of one wire meets a segment of another wire at an endpoint:
/// each wire is a whole connected component.
pub open spec fn wires_disjoint(ws: Seq<Wire>) -> bool {
    forall|i: int, j: int, a: int, b: int|
        0 <= i < ws.len() && 0 <= j < ws.len() && i != j && 0 <= a < ws[i].segments@.len() && 0
            <= b < ws[j].segments@.len() ==> !shares_endpoint(
            #[trigger] ws[i].segments@[a],
            #[trigger] ws[j].segments@[b],
        )
}

/// Pushing an element inserts it into the sequence's multiset.
proof fn lemma_push_ms<A>(s: Seq<A>, x: A)
    ensures
        s.push(x).to_multiset() == s.to_multiset().insert(x),
{
    broadcast use vstd::seq_lib::group_to_multiset_ensures;
    broadcast use vstd::multiset::group_multiset_axioms;

    assert(s.push(x).to_multiset() =~= s.to_multiset().insert(x));
}

/// Removing an element removes it from the sequence's multiset.
proof fn lemma_remove_ms<A>(s: Seq<A>, i: int)
    requires
        0 <= i < s.len(),
    ensures
        s.remove(i).to_multiset() == s.to_multiset().remove(s[i]),
        s.to_multiset().count(s[i]) >= 1,
{
    broadcast use vstd::seq_lib::group_to_multiset_ensures;
    broadcast use vstd::multiset::group_multiset_axioms;

    assert(s.contains(s[i]));
    assert(s.remove(i).to_multiset() =~= s.to_multiset().remove(s[i]));
}

/// An empty sequence has the empty multiset.
proof fn lemma_empty_ms<A>()
    ensures
        Seq::<A>::empty().to_multiset() == Multiset::<A>::empty(),
{
    broadcast use vstd::seq_lib::group_to_multiset_ensures;
    broadcast use vstd::multiset::group_multiset_axioms;

    assert(Seq::<A>::empty().to_multiset().len() == 0);
    assert(Seq::<A>::empty().to_multiset() =~= Multiset::<A>::empty());
}

/// Sequences with equal multisets hold the same values.
proof fn lemma_contains_via_ms<A>(s1: Seq<A>, s2: Seq<A>, x: A)
    requires
        s1.to_multiset() == s2.to_multiset(),
        s1.contains(x),
    ensures
        s2.contains(x),
{
    broadcast use vstd::seq_lib::group_to_multiset_ensures;
    broadcast use vstd::multiset::group_multiset_axioms;

    assert(s1.to_multiset().count(x) > 0);
    assert(s2.to_multiset().count(x) > 0);
}

/// Whether one of `sg`'s endpoints appears in `pts`.
fn seg_touches_points(sg: &LineSegment, pts: &Vec<TextCoordinate>) -> (r: bool)
    ensures
        r == touches_set(*sg, pts@),
{
    let n = pts.len();
    let mut k: usize = 0;
    while k < n
        invariant
            n == pts@.len(),
            k <= n,
            forall|m: int| 0 <= m < k ==> sg.start != pts@[m] && sg.end != pts@[m],
        decreases n - k,
    {
        let p = pts[k];
        if sg.start == p || sg.end == p {
            return true;
        }
        k = k + 1;
    }
    false
}

/// Sort segments by their canonical key, keeping exactly the same segments.
fn sort_segments_by_id(v: Vec<LineSegment>) -> (r: Vec<LineSegment>)
    ensures
        r@.to_multiset() == v@.to_multiset(),
        r@.len() == v@.len(),
        sorted_by_id(r@),
{
    broadcast use vstd::seq_lib::group_to_multiset_ensures;
    broadcast use vstd::multiset::group_multiset_axioms;

    let mut src = v;
    let mut out: Vec<LineSegment> = Vec::new();
    while src.len() > 0
        invariant
            out@.to_multiset().add(src@.to_multiset()) == v@.to_multiset(),
            out@.len() + src@.len() == v@.len(),
            sorted_by_id(out@),
            forall|a: int, b: int|
                0 <= a < out@.len() && 0 <= b < src@.len() ==> (#[trigger] out@[a]).spec_id() <= (
                #[trigger] src@[b]).spec_id(),
        decreases src@.len(),
    {
        let n = src.len();
        let mut m: usize = 0;
        let mut idx: usize = 1;
        while idx < n
            invariant
                n == src@.len(),
                m < n,
                idx <= n,
                forall|b: int|
                    0 <= b < idx ==> src@[m as int].spec_id() <= (#[trigger] src@[b]).spec_id(),
            decreases n - idx,
        {
            if src[idx].id() < src[m].id() {
                m = idx;
            }
            idx = idx + 1;
        }
        let ghost src_pre = src@;
        let ghost out_pre = out@;
        let sg = src.remove(m);
        out.push(sg);
        proof {
            broadcast use vstd::multiset::group_multiset_axioms;

            lemma_remove_ms(src_pre, m as int);
            lemma_push_ms(out_pre, sg);
            assert(out@.to_multiset().add(src@.to_multiset()) =~= out_pre.to_multiset().add(
                src_pre.to_multiset(),
            ));
            assert forall|a: int, b: int|
                0 <= a < out@.len() && 0 <= b < src@.len() implies (
            #[trigger] out@[a]).spec_id() <= (#[trigger] src@[b]).spec_id() by {
                assert(src@[b] == if b < m {
                    src_pre[b]
                } else {
                    src_pre[b + 1]
                });
                if a < out_pre.len() {
                    assert(out@[a] == out_pre[a]);
                } else {
                    assert(out@[a] == sg);
                }
            }
        }
    }
    out
}

/// Sort wires by the key of their first segment, keeping the same wires.
fn sort_wires_by_first_id(v: Vec<Wire>) -> (r: Vec<Wire>)
    requires
        forall|k: int| 0 <= k < v@.len() ==> (#[trigger] v@[k]).segments@.len() >= 1,
    ensures
        r@.to_multiset() == v@.to_multiset(),
        r@.len() == v@.len(),
        wires_sorted(r@),
{
    broadcast use vstd::seq_lib::group_to_multiset_ensures;
    broadcast use vstd::multiset::group_multiset_axioms;

    let mut src = v;
    let mut out: Vec<Wire> = Vec::new();
    while src.len() > 0
        invariant
            out@.to_multiset().add(src@.to_multiset()) == v@.to_multiset(),
            out@.len() + src@.len() == v@.len(),
            forall|k: int| 0 <= k < src@.len() ==> (#[trigger] src@[k]).segments@.len() >= 1,
            forall|k: int| 0 <= k < out@.len() ==> (#[trigger] out@[k]).segments@.len() >= 1,
            wires_sorted(out@),
            forall|a: int, b: int|
                0 <= a < out@.len() && 0 <= b < src@.len() ==> (
                #[trigger] out@[a]).segments@[0].spec_id() <= (
                #[trigger] src@[b]).segments@[0].spec_id(),
        decreases src@.len(),
    {
        let n = src.len();
        let mut m: usize = 0;
        let mut idx: usize = 1;
        while idx < n
            invariant
                n == src@.len(),
                forall|k: int| 0 <= k < src@.len() ==> (#[trigger] src@[k]).segments@.len() >= 1,
                m < n,
                idx <= n,
                forall|b: int|
                    0 <= b < idx ==> src@[m as int].segments@[0].spec_id() <= (
                    #[trigger] src@[b]).segments@[0].spec_id(),
            decreases n - idx,
        {
            let ki = src[idx].segments[0].id();
            let km = src[m].segments[0].id();
            if ki < km {
                m = idx;
            }
            idx = idx + 1;
        }
        let ghost src_pre = src@;
        let ghost out_pre = out@;
        let w = src.remove(m);
        proof {
            assert(src_pre.contains(src_pre[m as int]));
        }
        out.push(w);
        proof {
            broadcast use vstd::multiset::group_multiset_axioms;

            lemma_remove_ms(src_pre, m as int);
            lemma_push_ms(out_pre, out@.last());
            assert(out@ == out_pre.push(src_pre[m as int]));
            assert(out@.to_multiset().add(src@.to_multiset()) =~= out_pre.to_multiset().add(
                src_pre.to_multiset(),
            ));
            assert forall|a: int, b: int|
                0 <= a < out@.len() && 0 <= b < src@.len() implies (
            #[trigger] out@[a]).segments@[0].spec_id() <= (
            #[trigger] src@[b]).segments@[0].spec_id() by {
                assert(src@[b] == if b < m {
                    src_pre[b]
                } else {
                    src_pre[b + 1]
                });
                if a < out_pre.len() {
                    assert(out@[a] == out_pre[a]);
                }
            }
        }
    }
    out
}

/// Removing one wire removes exactly its segments from the flattened view.
proof fn lemma_flatten_remove(ws: Seq<Wire>, j: int)
    requires
        0 <= j < ws.len(),
    ensures
        flatten_wires(ws.remove(j)).to_multiset().add(ws[j].segments@.to_multiset())
            == flatten_wires(ws).to_multiset(),
    decreases ws.len(),
{
    broadcast use vstd::multiset::group_multiset_axioms;

    if j == ws.len() - 1 {
        assert(ws.remove(j) =~= ws.drop_last());
        vstd::seq_lib::lemma_multiset_commutative(flatten_wires(ws.drop_last()), ws.last().segments@);
    } else {
        let inner = ws.drop_last();
        lemma_flatten_remove(inner, j);
        assert(ws.remove(j).drop_last() =~= inner.remove(j));
        assert(ws.remove(j).last() == ws.last());
        vstd::seq_lib::lemma_multiset_commutative(
            flatten_wires(inner.remove(j)),
            ws.last().segments@,
        );
        vstd::seq_lib::lemma_multiset_commutative(flatten_wires(inner), ws.last().segments@);
        assert(flatten_wires(ws.remove(j)).to_multiset().add(ws[j].segments@.to_multiset())
            =~= flatten_wires(ws).to_multiset());
    }
}

/// Reordering whole wires does not change the flattened segment multiset.
proof fn lemma_flatten_perm(a: Seq<Wire>, b: Seq<Wire>)
    requires
        a.to_multiset() == b.to_multiset(),
    ensures
        flatten_wires(a).to_multiset() == flatten_wires(b).to_multiset(),
    decreases a.len(),
{
    broadcast use vstd::seq_lib::group_to_multiset_ensures;
    broadcast use vstd::multiset::group_multiset_axioms;

    if a.len() == 0 {
        assert(a.to_multiset().len() == a.len());
        assert(b.to_multiset().len() == b.len());
        assert(b.len() == 0);
    } else {
        let w = a.last();
        assert(a.contains(w));
        lemma_contains_via_ms(a, b, w);
        let j = choose|j: int| 0 <= j < b.len() && b[j] == w;
        assert(a.drop_last() =~= a.remove(a.len() - 1));
        lemma_remove_ms(a, a.len() - 1);
        lemma_remove_ms(b, j);
        lemma_flatten_perm(a.drop_last(), b.remove(j));
        lemma_flatten_remove(b, j);
        vstd::seq_lib::lemma_multiset_commutative(flatten_wires(a.drop_last()), w.segments@);
        assert(flatten_wires(a).to_multiset() =~= flatten_wires(b).to_multiset());
    }
}

/// Reordering whole wires keeps every per-wire property and keeps distinct
/// wires endpoint-disjoint.
proof fn lemma_wire_perm_props(a: Seq<Wire>, b: Seq<Wire>)
    requires
        a.to_multiset() == b.to_multiset(),
        forall|k: int| 0 <= k < a.len() ==> (#[trigger] a[k]).segments@.len() >= 1,
        forall|k: int| 0 <= k < a.len() ==> connected_cluster((#[trigger] a[k]).segments@),
        forall|k: int| 0 <= k < a.len() ==> sorted_by_id((#[trigger] a[k]).segments@),
        wires_disjoint(a),
    ensures
        forall|k: int| 0 <= k < b.len() ==> (#[trigger] b[k]).segments@.len() >= 1,
        forall|k: int| 0 <= k < b.len() ==> connected_cluster((#[trigger] b[k]).segments@),
        forall|k: int| 0 <= k < b.len() ==> sorted_by_id((#[trigger] b[k]).segments@),
        wires_disjoint(b),
{
    broadcast use vstd::seq_lib::group_to_multiset_ensures;
    broadcast use vstd::multiset::group_multiset_axioms;

    assert forall|i: int, j: int|
        0 <= i < a.len() && 0 <= j < a.len() && i != j implies a[i] != a[j] by {
        if a[i] == a[j] {
            assert(shares_endpoint(a[i].segments@[0], a[j].segments@[0]));
        }
    }
    assert(a.no_duplicates());
    a.lemma_multiset_has_no_duplicates();
    b.lemma_multiset_has_no_duplicates_conv();
    assert forall|k: int|
        0 <= k < b.len() implies (#[trigger] b[k]).segments@.len() >= 1 && connected_cluster(
        b[k].segments@,
    ) && sorted_by_id(b[k].segments@) by {
        assert(b.contains(b[k]));
        lemma_contains_via_ms(b, a, b[k]);
        let i = choose|i: int| 0 <= i < a.len() && a[i] == b[k];
        assert((#[trigger] a[i]).segments@.len() >= 1);
        assert(connected_cluster(a[i].segments@));
        assert(sorted_by_id(a[i].segments@));
    }
    assert forall|i: int, j: int, x: int, y: int|
        0 <= i < b.len() && 0 <= j < b.len() && i != j && 0 <= x < b[i].segments@.len() && 0 <= y
            < b[j].segments@.len() implies !shares_endpoint(
        #[trigger] b[i].segments@[x],
        #[trigger] b[j].segments@[y],
    ) by {
        assert(b[i] != b[j]);
        assert(b.contains(b[i]));
        assert(b.contains(b[j]));
        lemma_contains_via_ms(b, a, b[i]);
        lemma_contains_via_ms(b, a, b[j]);
        let ai = choose|ai: int| 0 <= ai < a.len() && a[ai] == b[i];
        let aj = choose|aj: int| 0 <= aj < a.len() && a[aj] == b[j];
        assert(ai != aj);
        assert(!shares_endpoint(a[ai].segments@[x], a[aj].segments@[y]));
    }
}

/// Appending one wire appends its segments to the flattened view.
proof fn lemma_flatten_push(ws: Seq<Wire>, w: Wire)
    ensures
        flatten_wires(ws.push(w)) == flatten_wires(ws) + w.segments@,
{
    assert(ws.push(w).drop_last() =~= ws);
    assert(ws.push(w).last() == w);
}

/// Every element of `x` is present in `total` when `x` and `y` together
/// hold exactly `total`'s segments.
proof fn lemma_sum_contains<A>(x: Seq<A>, y: Seq<A>, total: Seq<A>)
    requires
        x.to_multiset().add(y.to_multiset()) == total.to_multiset(),
    ensures
        forall|k: int| 0 <= k < x.len() ==> total.contains(#[trigger] x[k]),
{
    broadcast use vstd::seq_lib::group_to_multiset_ensures;
    broadcast use vstd::multiset::group_multiset_axioms;

    assert forall|k: int| 0 <= k < x.len() implies total.contains(#[trigger] x[k]) by {
        assert(x.contains(x[k]));
        assert(x.to_multiset().count(x[k]) > 0);
        assert(total.to_multiset().count(x[k]) > 0);
    }
}

/// A chain stays a chain when a segment that meets one of its members is
/// appended.
proof fn lemma_chain_push(segs: Seq<LineSegment>, sg: LineSegment, a0: int)
    requires
        chain_connected(segs),
        0 <= a0 < segs.len(),
        shares_endpoint(sg, segs[a0]),
    ensures
        chain_connected(segs.push(sg)),
{
    let grown = segs.push(sg);
    assert forall|i: int| 1 <= i < grown.len() implies #[trigger] meets_earlier(grown, i) by {
        if i < segs.len() {
            assert(meets_earlier(segs, i));
            let j = choose|j: int|
                0 <= j < i && shares_endpoint(segs[i], #[trigger] segs[j]);
            assert(grown[i] == segs[i]);
            assert(grown[j] == segs[j]);
            assert(shares_endpoint(grown[i], grown[j]));
        } else {
            assert(grown[i] == sg);
            assert(grown[a0] == segs[a0]);
            assert(shares_endpoint(grown[i], grown[a0]));
        }
    }
}

/// Starting from `first`, repeatedly pull from the pool any segment that
/// meets a collected endpoint, until none does: one whole connected
/// component, in discovery order.
#[verifier::rlimit(100)]
fn collect_component(pool: &mut Vec<LineSegment>, first: LineSegment) -> (wire: Vec<LineSegment>)
    ensures
        wire@.len() >= 1,
        chain_connected(wire@),
        wire@.to_multiset().add(final(pool)@.to_multiset()) == old(
            pool,
        )@.to_multiset().insert(first),
        wire@.len() + final(pool)@.len() == old(pool)@.len() + 1,
        forall|a: int, p: int|
            0 <= a < wire@.len() && 0 <= p < final(pool)@.len() ==> !shares_endpoint(
                #[trigger] wire@[a],
                #[trigger] final(pool)@[p],
            ),
{
    broadcast use vstd::seq_lib::group_to_multiset_ensures;
    broadcast use vstd::multiset::group_multiset_axioms;

    let mut wire: Vec<LineSegment> = Vec::new();
    wire.push(first);
    let mut pts: Vec<TextCoordinate> = Vec::new();
    pts.push(first.start);
    pts.push(first.end);
    proof {
        lemma_push_ms(Seq::<LineSegment>::empty(), first);
        lemma_empty_ms::<LineSegment>();
        assert(wire@ == Seq::<LineSegment>::empty().push(first));
        assert(wire@.to_multiset().add(pool@.to_multiset()) =~= pool@.to_multiset().insert(
            first,
        ));
        assert(wire@[0] == first);
        assert(pts@[0] == first.start);
        assert(pts@[1] == first.end);
        assert(pts@.contains(first.start));
        assert(pts@.contains(first.end));
        assert forall|k: int| 0 <= k < pts@.len() implies point_from(wire@, #[trigger] pts@[k]) by {
            assert(pts@[k] == first.start || pts@[k] == first.end);
            assert(wire@[0] == first);
        }
    }
    loop
        invariant
            wire@.to_multiset().add(pool@.to_multiset()) == old(pool)@.to_multiset().insert(
                first,
            ),
            wire@.len() + pool@.len() == old(pool)@.len() + 1,
            wire@.len() >= 1,
            chain_connected(wire@),
            forall|a: int|
                0 <= a < wire@.len() ==> pts@.contains((#[trigger] wire@[a]).start)
                    && pts@.contains(wire@[a].end),
            forall|k: int| 0 <= k < pts@.len() ==> point_from(wire@, #[trigger] pts@[k]),
        ensures
            forall|p: int| 0 <= p < pool@.len() ==> !touches_set(#[trigger] pool@[p], pts@),
        decreases pool@.len(),
    {
        let n_pool = pool.len();
        let mut found: usize = n_pool;
        let mut idx: usize = 0;
        while idx < n_pool && found == n_pool
            invariant
                n_pool == pool@.len(),
                idx <= n_pool,
                found <= n_pool,
                found == n_pool ==> forall|m: int|
                    0 <= m < idx ==> !touches_set(#[trigger] pool@[m], pts@),
                found < n_pool ==> touches_set(pool@[found as int], pts@),
            decreases n_pool - idx,
        {
            if seg_touches_points(&pool[idx], &pts) {
                found = idx;
            }
            idx = idx + 1;
        }
        if found == n_pool {
            break ;
        }
        let ghost pool_pre = pool@;
        let ghost wire_pre = wire@;
        let ghost pts_pre = pts@;
        let sg = pool.remove(found);
        wire.push(sg);
        pts.push(sg.start);
        pts.push(sg.end);
        proof {
            lemma_remove_ms(pool_pre, found as int);
            lemma_push_ms(wire_pre, sg);
            assert(wire@ == wire_pre.push(sg));
            assert(wire@.to_multiset().add(pool@.to_multiset()) =~= wire_pre.to_multiset().add(
                pool_pre.to_multiset(),
            ));
            assert(touches_set(sg, pts_pre));
            let k0 = choose|k0: int|
                0 <= k0 < pts_pre.len() && (sg.start == pts_pre[k0] || sg.end == pts_pre[k0]);
            assert(point_from(wire_pre, pts_pre[k0]));
            let a0 = choose|a0: int|
                0 <= a0 < wire_pre.len() && (pts_pre[k0] == (#[trigger] wire_pre[a0]).start
                    || pts_pre[k0] == wire_pre[a0].end);
            assert(shares_endpoint(sg, wire_pre[a0]));
            lemma_chain_push(wire_pre, sg, a0);
            assert(chain_connected(wire@));
            assert forall|b: int|
                0 <= b < wire@.len() implies pts@.contains((#[trigger] wire@[b]).start)
                    && pts@.contains(wire@[b].end) by {
                if b < wire_pre.len() {
                    assert(wire@[b] == wire_pre[b]);
                    let k1 = choose|k1: int|
                        0 <= k1 < pts_pre.len() && pts_pre[k1] == wire_pre[b].start;
                    assert(pts@[k1] == wire@[b].start);
                    let k2 = choose|k2: int|
                        0 <= k2 < pts_pre.len() && pts_pre[k2] == wire_pre[b].end;
                    assert(pts@[k2] == wire@[b].end);
                } else {
                    assert(wire@[b] == sg);
                    assert(pts@[pts@.len() - 2] == sg.start);
                    assert(pts@[pts@.len() - 1] == sg.end);
                }
            }
            assert forall|k3: int|
                0 <= k3 < pts@.len() implies point_from(wire@, #[trigger] pts@[k3]) by {
                if k3 < pts_pre.len() {
                    assert(pts@[k3] == pts_pre[k3]);
                    assert(point_from(wire_pre, pts_pre[k3]));
                    let a1 = choose|a1: int|
                        0 <= a1 < wire_pre.len() && (pts_pre[k3] == (
                        #[trigger] wire_pre[a1]).start || pts_pre[k3] == wire_pre[a1].end);
                    assert(wire@[a1] == wire_pre[a1]);
                } else {
                    assert(wire@[wire@.len() - 1] == sg);
                    assert(pts@[k3] == sg.start || pts@[k3] == sg.end);
                }
            }
        }
    }
    proof {
        assert forall|a: int, p: int|
            0 <= a < wire@.len() && 0 <= p < pool@.len() implies !shares_endpoint(
            #[trigger] wire@[a],
            #[trigger] pool@[p],
        ) by {
            if shares_endpoint(wire@[a], pool@[p]) {
                assert(pts@.contains(wire@[a].start));
                assert(pts@.contains(wire@[a].end));
                let ks = choose|ks: int| 0 <= ks < pts@.len() && pts@[ks] == wire@[a].start;
                let ke = choose|ke: int| 0 <= ke < pts@.len() && pts@[ke] == wire@[a].end;
                assert(touches_set(pool@[p], pts@));
            }
        }
    }
    wire
}

/// Group segments into wires: connected components under "meets at an
/// endpoint".  Every input segment lands in exactly one wire, each wire is
/// one connected group, distinct wires never touch, and both the segments
/// inside a wire and the wires themselves come out in canonical key order.
pub fn assemble_wires(segments: Vec<LineSegment>) -> (wires: Vec<Wire>)
    ensures
        flatten_wires(wires@).to_multiset() == segments@.to_multiset(),
        forall|k: int| 0 <= k < wires@.len() ==> (#[trigger] wires@[k]).segments@.len() >= 1,
        forall|k: int|
            0 <= k < wires@.len() ==> connected_cluster((#[trigger] wires@[k]).segments@),
        forall|k: int| 0 <= k < wires@.len() ==> sorted_by_id((#[trigger] wires@[k]).segments@),
        wires_sorted(wires@),
        wires_disjoint(wires@),
{
    broadcast use vstd::seq_lib::group_to_multiset_ensures;
    broadcast use vstd::multiset::group_multiset_axioms;

    let ghost input = segments@;
    let mut pool = segments;
    let mut wires: Vec<Wire> = Vec::new();
    proof {
        lemma_empty_ms::<LineSegment>();
        assert(flatten_wires(wires@) =~= Seq::<LineSegment>::empty());
        assert(flatten_wires(wires@).to_multiset().add(pool@.to_multiset())
            =~= input.to_multiset());
    }
    while pool.len() > 0
        invariant
            flatten_wires(wires@).to_multiset().add(pool@.to_multiset()) == input.to_multiset(),
            forall|k: int| 0 <= k < wires@.len() ==> (#[trigger] wires@[k]).segments@.len() >= 1,
            forall|k: int|
                0 <= k < wires@.len() ==> connected_cluster((#[trigger] wires@[k]).segments@),
            forall|k: int|
                0 <= k < wires@.len() ==> sorted_by_id((#[trigger] wires@[k]).segments@),
            wires_disjoint(wires@),
            forall|k: int, a: int, p: int|
                0 <= k < wires@.len() && 0 <= a < wires@[k].segments@.len() && 0 <= p
                    < pool@.len() ==> !shares_endpoint(
                    #[trigger] wires@[k].segments@[a],
                    #[trigger] pool@[p],
                ),
        decreases pool@.len(),
    {
        let ghost pool_at_entry = pool@;
        let first = pool.remove(0);
        let ghost pool_removed = pool@;
        let wire_raw = collect_component(&mut pool, first);
        proof {
            lemma_remove_ms(pool_at_entry, 0);
            assert(first == pool_at_entry[0]);
            assert(wire_raw@.to_multiset().add(pool@.to_multiset()) =~= pool_at_entry.to_multiset());
            lemma_sum_contains(wire_raw@, pool@, pool_at_entry);
            assert(pool@.to_multiset().add(wire_raw@.to_multiset()) =~= wire_raw@.to_multiset().add(
                pool@.to_multiset(),
            ));
            lemma_sum_contains(pool@, wire_raw@, pool_at_entry);
        }
        let ghost pre_sort = wire_raw@;
        let wire = sort_segments_by_id(wire_raw);
        proof {
            assert(connected_cluster(wire@)) by {
                assert(pre_sort.to_multiset() == wire@.to_multiset() && chain_connected(pre_sort));
            }
            // Sorted wire members keep their origins and their separations.
            assert forall|b: int|
                0 <= b < wire@.len() implies pool_at_entry.contains(#[trigger] wire@[b]) by {
                assert(wire@.contains(wire@[b]));
                lemma_contains_via_ms(wire@, pre_sort, wire@[b]);
                let i = choose|i: int| 0 <= i < pre_sort.len() && pre_sort[i] == wire@[b];
            }
            assert forall|a: int, p: int|
                0 <= a < wire@.len() && 0 <= p < pool@.len() implies !shares_endpoint(
                #[trigger] wire@[a],
                #[trigger] pool@[p],
            ) by {
                assert(wire@.contains(wire@[a]));
                lemma_contains_via_ms(wire@, pre_sort, wire@[a]);
                let i = choose|i: int| 0 <= i < pre_sort.len() && pre_sort[i] == wire@[a];
            }
        }
        let ghost wires_pre = wires@;
        let ghost wire_view = wire@;
        wires.push(Wire { segments: wire });
        proof {
            assert(wires@ == wires_pre.push(Wire { segments: wire }));
            assert(wires@.last().segments@ == wire_view);
            lemma_flatten_push(wires_pre, wires@.last());
            vstd::seq_lib::lemma_multiset_commutative(flatten_wires(wires_pre), wire_view);
            assert(flatten_wires(wires@).to_multiset().add(pool@.to_multiset())
                =~= flatten_wires(wires_pre).to_multiset().add(wire_view.to_multiset()).add(
                pool@.to_multiset(),
            ));
            // Each old wire avoided everything in `pool_at_entry`, which
            // holds both the new wire's segments and the remaining pool.
            assert forall|k: int, a: int, p: int|
                0 <= k < wires@.len() && 0 <= a < wires@[k].segments@.len() && 0 <= p
                    < pool@.len() implies !shares_endpoint(
                #[trigger] wires@[k].segments@[a],
                #[trigger] pool@[p],
            ) by {
                if k < wires_pre.len() {
                    assert(wires@[k] == wires_pre[k]);
                    assert(pool_at_entry.contains(pool@[p]));
                    let q = choose|q: int|
                        0 <= q < pool_at_entry.len() && pool_at_entry[q] == pool@[p];
                    assert(!shares_endpoint(wires_pre[k].segments@[a], pool_at_entry[q]));
                } else {
                    assert(wires@[k].segments@ == wire_view);
                }
            }
            assert forall|i7: int, j7: int, a7: int, b7: int|
                0 <= i7 < wires@.len() && 0 <= j7 < wires@.len() && i7 != j7 && 0 <= a7
                    < wires@[i7].segments@.len() && 0 <= b7 < wires@[j7].segments@.len()
                    implies !shares_endpoint(
                #[trigger] wires@[i7].segments@[a7],
                #[trigger] wires@[j7].segments@[b7],
            ) by {
                if i7 < wires_pre.len() && j7 < wires_pre.len() {
                    assert(wires@[i7] == wires_pre[i7]);
                    assert(wires@[j7] == wires_pre[j7]);
                } else if i7 < wires_pre.len() {
                    assert(wires@[i7] == wires_pre[i7]);
                    assert(wires@[j7].segments@ == wire_view);
                    assert(pool_at_entry.contains(wire_view[b7]));
                    let q = choose|q: int|
                        0 <= q < pool_at_entry.len() && pool_at_entry[q] == wire_view[b7];
                    assert(!shares_endpoint(wires_pre[i7].segments@[a7], pool_at_entry[q]));
                } else {
                    assert(wires@[i7].segments@ == wire_view);
                    assert(wires@[j7] == wires_pre[j7]);
                    assert(pool_at_entry.contains(wire_view[a7]));
                    let q = choose|q: int|
                        0 <= q < pool_at_entry.len() && pool_at_entry[q] == wire_view[a7];
                    assert(!shares_endpoint(wires_pre[j7].segments@[b7], pool_at_entry[q]));
                }
            }
        }
    }
    let ghost unsorted = wires@;
    let wires = sort_wires_by_first_id(wires);
    proof {
        lemma_wire_perm_props(unsorted, wires@);
        lemma_flatten_perm(unsorted, wires@);
        lemma_empty_ms::<LineSegment>();
        assert(pool@ =~= Seq::<LineSegment>::empty());
        assert(flatten_wires(unsorted).to_multiset().add(pool@.to_multiset()) =~= flatten_wires(
            unsorted,
        ).to_multiset());
    }
    wires
}

/// The traversal each scan direction walks.
pub open spec fn axis_cells(tb: TextBuffer, axis: Kind) -> Seq<(TextCoordinate, char)> {
    match axis {
        Kind::Horiz => tb.row_major_cells(),
        Kind::Vert => tb.col_major_cells(),
        Kind::DownSlant => tb.diag_dr_cells(),
        Kind::UpSlant => tb.diag_ur_cells(),
    }
}

/// The raw segments each scan direction finds.
pub open spec fn axis_raw_segments(tb: TextBuffer, axis: Kind) -> Seq<LineSegment> {
    match axis {
        Kind::Horiz => raw_horizontal_segments(tb),
        Kind::Vert => raw_vertical_segments(tb),
        Kind::DownSlant => raw_diag_dr_segments(tb),
        Kind::UpSlant => raw_diag_ur_segments(tb),
    }
}

/// Every classified cell comes from a traversal cell whose character the
/// axis classifies to exactly that role.
proof fn lemma_classified_from_cells(axis: Kind, cells: Seq<(TextCoordinate, char)>)
    ensures
        forall|j: int|
            0 <= j < classified_cells(axis, cells).len() ==> exists|k: int|
                0 <= k < cells.len() && (#[trigger] cells[k]).0 == (#[trigger] classified_cells(
                    axis,
                    cells,
                )[j]).0 && spec_classify_axis(axis, cells[k].1) == Some(
                    classified_cells(axis, cells)[j].1,
                ),
    decreases cells.len(),
{
    if cells.len() > 0 {
        lemma_classified_from_cells(axis, cells.drop_last());
        assert(forall|k: int|
            0 <= k < cells.drop_last().len() ==> (#[trigger] cells.drop_last()[k]) == cells[k]);
        let pre = classified_cells(axis, cells.drop_last());
        let cur = classified_cells(axis, cells);
        assert forall|j: int|
            0 <= j < cur.len() implies exists|k: int|
                0 <= k < cells.len() && (#[trigger] cells[k]).0 == (#[trigger] cur[j]).0
                    && spec_classify_axis(axis, cells[k].1) == Some(cur[j].1) by {
            if j < pre.len() {
                assert(cur[j] == pre[j]);
                let k0 = choose|k0: int|
                    0 <= k0 < cells.drop_last().len() && (#[trigger] cells.drop_last()[k0]).0
                        == pre[j].0 && spec_classify_axis(axis, cells.drop_last()[k0].1) == Some(
                        pre[j].1,
                    );
                assert(cells[k0].0 == cur[j].0);
            } else {
                assert(cur[j].0 == cells[cells.len() - 1].0);
                assert(spec_classify_axis(axis, cells[cells.len() - 1].1) == Some(cur[j].1));
            }
        }
    }
}

/// One direction of the render round trip, for each scan direction: every
/// cell a raw segment walks — the final endpoint that `iter` leaves out
/// included — holds a glyph this axis classifies.  Clearing the walked
/// cells of the detected runs can therefore only erase line-drawing
/// glyphs; a character with no role on the axis, such as label text, is
/// never visited.
pub proof fn lemma_run_cells_hold_line_glyphs(tb: TextBuffer, axis: Kind)
    ensures
        forall|j: int, p: int|
            0 <= j < axis_raw_segments(tb, axis).len() && 0 <= p <= axis_raw_segments(tb, axis)[
                j
            ].spec_iter_count() ==> exists|c: char|
                #[trigger] spec_classify_axis(axis, c) is Some && tb.cell(
                    (axis_raw_segments(tb, axis)[j].spec_point(p)).x as int,
                    (#[trigger] axis_raw_segments(tb, axis)[j].spec_point(p)).y as int,
                ) == Some(c),
{
    let cells = axis_cells(tb, axis);
    let items = classified_cells(axis, cells);
    let segs = axis_raw_segments(tb, axis);
    assert(segs == scan_segments(axis, items));
    lemma_scan_walks_classified_cells(axis, items);
    lemma_classified_from_cells(axis, cells);
    proof_axis_cells_hold(tb, axis);
    assert forall|j: int, p: int|
        0 <= j < segs.len() && 0 <= p <= segs[j].spec_iter_count() implies exists|c: char|
            #[trigger] spec_classify_axis(axis, c) is Some && tb.cell(
                (segs[j].spec_point(p)).x as int,
                (#[trigger] segs[j].spec_point(p)).y as int,
            ) == Some(c) by {
        assert(0 <= j < scan_segments(axis, items).len());
        let pt = scan_segments(axis, items)[j].spec_point(p);
        let k = choose|k: int|
            0 <= k < items.len() && (#[trigger] items[k]).0 == scan_segments(axis, items)[
                j
            ].spec_point(p);
        let k2 = choose|k2: int|
            0 <= k2 < cells.len() && (#[trigger] cells[k2]).0 == items[k].0 && spec_classify_axis(
                axis,
                cells[k2].1,
            ) == Some(items[k].1);
        assert(tb.cell(cells[k2].0.x as int, cells[k2].0.y as int) == Some(cells[k2].1));
        assert(spec_classify_axis(axis, cells[k2].1) is Some);
        assert(segs[j].spec_point(p) == pt);
    }
}

/// Every traversal cell holds its reported character.
proof fn proof_axis_cells_hold(tb: TextBuffer, axis: Kind)
    ensures
        forall|k: int|
            0 <= k < axis_cells(tb, axis).len() ==> tb.cell(
                (#[trigger] axis_cells(tb, axis)[k]).0.x as int,
                axis_cells(tb, axis)[k].0.y as int,
            ) == Some(axis_cells(tb, axis)[k].1),
{
    assert(tb.spec_rows() as int * tb.spec_cols() as int >= 0) by (nonlinear_arith)
        requires
            tb.spec_rows() as int >= 0,
            tb.spec_cols() as int >= 0,
    ;
    match axis {
        Kind::Horiz => {
            tb.lemma_row_major_in_dims();
        },
        Kind::Vert => {
            tb.lemma_col_major_in_dims();
        },
        Kind::DownSlant => {
            tb.lemma_diag_dr_cells_hold();
        },
        Kind::UpSlant => {
            tb.lemma_diag_ur_cells_hold();
        },
    }
}

/// Whether the segment's walk — endpoints included — passes through `c`.
pub open spec fn seg_covers(seg: LineSegment, c: TextCoordinate) -> bool {
    exists|p: int| 0 <= p <= seg.spec_iter_count() && #[trigger] seg.spec_point(p) == c
}

/// The segment's endpoints properly bound its orientation, so that its
/// walk is the straight line between them.
pub open spec fn seg_proper(seg: LineSegment) -> bool {
    match seg.spec_kind() {
        Kind::Horiz => seg.start.y == seg.end.y && seg.start.x <= seg.end.x,
        Kind::Vert => seg.start.x == seg.end.x && seg.start.y <= seg.end.y,
        Kind::DownSlant => seg.end.x - seg.start.x == seg.end.y - seg.start.y,
        Kind::UpSlant => seg.start.x <= seg.end.x && seg.end.x - seg.start.x == seg.start.y
            - seg.end.y,
    }
}

/// A segment shaped by its axis's scan is proper.
proof fn lemma_wf_proper(axis: Kind, seg: LineSegment)
    requires
        axis_seg_wf(axis, seg),
    ensures
        seg_proper(seg),
{
}

/// A proper segment covers exactly the cells between its endpoints.
proof fn lemma_covers_range(seg: LineSegment, c: TextCoordinate)
    requires
        seg_proper(seg),
    ensures
        seg_covers(seg, c) <==> match seg.spec_kind() {
            Kind::Horiz => c.y == seg.start.y && seg.start.x <= c.x <= seg.end.x,
            Kind::Vert => c.x == seg.start.x && seg.start.y <= c.y <= seg.end.y,
            Kind::DownSlant => seg.start.x <= c.x <= seg.end.x && c.y - seg.start.y == c.x
                - seg.start.x,
            Kind::UpSlant => seg.start.x <= c.x <= seg.end.x && seg.start.y - c.y == c.x
                - seg.start.x,
        },
{
    let cnt = seg.spec_iter_count();
    if seg_covers(seg, c) {
        let p = choose|p: int| 0 <= p <= cnt && #[trigger] seg.spec_point(p) == c;
    }
    match seg.spec_kind() {
        Kind::Horiz => {
            if c.y == seg.start.y && seg.start.x <= c.x <= seg.end.x {
                assert(seg.spec_point(c.x - seg.start.x) == c);
            }
        },
        Kind::Vert => {
            if c.x == seg.start.x && seg.start.y <= c.y <= seg.end.y {
                assert(seg.spec_point(c.y - seg.start.y) == c);
            }
        },
        Kind::DownSlant => {
            if seg.start.x <= c.x <= seg.end.x && c.y - seg.start.y == c.x - seg.start.x {
                assert(seg.spec_point(c.x - seg.start.x) == c);
            }
        },
        Kind::UpSlant => {
            if seg.start.x <= c.x <= seg.end.x && seg.start.y - c.y == c.x - seg.start.x {
                assert(seg.spec_point(c.x - seg.start.x) == c);
            }
        },
    }
}

/// The union span of two mergeable proper segments covers exactly the
/// cells that one of the two covers.
proof fn lemma_extend_covers(a: LineSegment, b: LineSegment)
    requires
        a.spec_is_colinear(b),
        seg_proper(a),
        seg_proper(b),
    ensures
        seg_proper(a.spec_extend(b)),
        forall|c: TextCoordinate|
            #[trigger] seg_covers(a.spec_extend(b), c) <==> seg_covers(a, c) || seg_covers(b, c),
{
    let ext = a.spec_extend(b);
    assert(seg_proper(ext));
    assert forall|c: TextCoordinate|
        #[trigger] seg_covers(ext, c) <==> seg_covers(a, c) || seg_covers(b, c) by {
        lemma_covers_range(a, c);
        lemma_covers_range(b, c);
        lemma_covers_range(ext, c);
    }
}

/// Whether one of the segments covers `c`.
pub open spec fn any_covers(segs: Seq<LineSegment>, c: TextCoordinate) -> bool {
    exists|i: int| 0 <= i < segs.len() && seg_covers(#[trigger] segs[i], c)
}

/// All segments of the list are proper.
pub open spec fn all_proper(segs: Seq<LineSegment>) -> bool {
    forall|i: int| 0 <= i < segs.len() ==> seg_proper(#[trigger] segs[i])
}

/// What `first_colinear_from` finds is a real match, at or after `i`.
proof fn lemma_first_colinear_found(acc: Seq<LineSegment>, sg: LineSegment, i: int)
    requires
        0 <= i <= acc.len(),
    ensures
        i <= first_colinear_from(acc, sg, i) <= acc.len(),
        first_colinear_from(acc, sg, i) < acc.len() ==> acc[first_colinear_from(
            acc,
            sg,
            i,
        )].spec_is_colinear(sg),
    decreases acc.len() - i,
{
    if i < acc.len() && !acc[i].spec_is_colinear(sg) {
        lemma_first_colinear_found(acc, sg, i + 1);
    }
}

/// Folding one proper segment into a proper list keeps every covered cell
/// and adds exactly the new segment's cells.
proof fn lemma_merge_one_covers(acc: Seq<LineSegment>, sg: LineSegment)
    requires
        all_proper(acc),
        seg_proper(sg),
    ensures
        all_proper(merge_one(acc, sg)),
        forall|c: TextCoordinate|
            #[trigger] any_covers(merge_one(acc, sg), c) <==> any_covers(acc, c) || seg_covers(
                sg,
                c,
            ),
{
    lemma_first_colinear_found(acc, sg, 0);
    let j = first_colinear_from(acc, sg, 0);
    let out = merge_one(acc, sg);
    if j < acc.len() {
        lemma_extend_covers(acc[j], sg);
        assert forall|i: int| 0 <= i < out.len() implies seg_proper(#[trigger] out[i]) by {
            if i != j {
                assert(out[i] == acc[i]);
            }
        }
        assert forall|c: TextCoordinate|
            #[trigger] any_covers(out, c) <==> any_covers(acc, c) || seg_covers(sg, c) by {
            if any_covers(out, c) {
                let i = choose|i: int| 0 <= i < out.len() && seg_covers(#[trigger] out[i], c);
                if i == j {
                    assert(seg_covers(acc[j], c) || seg_covers(sg, c));
                } else {
                    assert(out[i] == acc[i]);
                }
            }
            if any_covers(acc, c) {
                let i = choose|i: int| 0 <= i < acc.len() && seg_covers(#[trigger] acc[i], c);
                if i == j {
                    assert(seg_covers(out[j], c));
                } else {
                    assert(out[i] == acc[i]);
                    assert(seg_covers(out[i], c));
                }
            }
            if seg_covers(sg, c) {
                assert(seg_covers(out[j], c));
            }
        }
    } else {
        assert(out == acc.push(sg));
        assert forall|i: int| 0 <= i < out.len() implies seg_proper(#[trigger] out[i]) by {
            if i < acc.len() {
                assert(out[i] == acc[i]);
            } else {
                assert(out[i] == sg);
            }
        }
        assert forall|c: TextCoordinate|
            #[trigger] any_covers(out, c) <==> any_covers(acc, c) || seg_covers(sg, c) by {
            if any_covers(out, c) {
                let i = choose|i: int| 0 <= i < out.len() && seg_covers(#[trigger] out[i], c);
                if i < acc.len() {
                    assert(out[i] == acc[i]);
                } else {
                    assert(out[i] == sg);
                }
            }
            if any_covers(acc, c) {
                let i = choose|i: int| 0 <= i < acc.len() && seg_covers(#[trigger] acc[i], c);
                assert(seg_covers(out[i], c));
            }
            if seg_covers(sg, c) {
                assert(seg_covers(out[out.len() - 1], c));
            }
        }
    }
}

/// A whole fold keeps exactly the union of the start list's and the folded
/// items' cells.
proof fn lemma_merge_fold_covers(init: Seq<LineSegment>, items: Seq<LineSegment>)
    requires
        all_proper(init),
        all_proper(items),
    ensures
        all_proper(merge_fold(init, items)),
        forall|c: TextCoordinate|
            #[trigger] any_covers(merge_fold(init, items), c) <==> any_covers(init, c)
                || any_covers(items, c),
    decreases items.len(),
{
    if items.len() == 0 {
        assert(forall|c: TextCoordinate| !any_covers(items, c));
    } else {
        let rest = items.drop_last();
        assert(forall|i: int| 0 <= i < rest.len() ==> (#[trigger] rest[i]) == items[i]);
        lemma_merge_fold_covers(init, rest);
        assert(seg_proper(items.last()));
        lemma_merge_one_covers(merge_fold(init, rest), items.last());
        assert forall|c: TextCoordinate|
            #[trigger] any_covers(merge_fold(init, items), c) <==> any_covers(init, c)
                || any_covers(items, c) by {
            assert(any_covers(merge_fold(init, items), c) <==> any_covers(init, c) || any_covers(
                rest,
                c,
            ) || seg_covers(items.last(), c));
            if any_covers(rest, c) {
                let i = choose|i: int| 0 <= i < rest.len() && seg_covers(#[trigger] rest[i], c);
                assert(seg_covers(items[i], c));
            }
            if seg_covers(items.last(), c) {
                assert(seg_covers(items[items.len() - 1], c));
            }
            if any_covers(items, c) {
                let i = choose|i: int| 0 <= i < items.len() && seg_covers(#[trigger] items[i], c);
                if i < rest.len() {
                    assert(seg_covers(rest[i], c));
                } else {
                    assert(items[i] == items.last());
                }
            }
        }
    }
}

/// Merging neither loses nor invents covered cells: the merged segments
/// walk exactly the cells the raw segments walk.
pub proof fn lemma_merge_covers(segs: Seq<LineSegment>)
    requires
        all_proper(segs),
    ensures
        all_proper(merge_spec(segs)),
        forall|c: TextCoordinate|
            #[trigger] any_covers(merge_spec(segs), c) <==> any_covers(segs, c),
{
    if segs.len() == 0 {
    } else {
        let init = seq![segs.last()];
        let rest = segs.drop_last();
        assert(forall|i: int| 0 <= i < rest.len() ==> (#[trigger] rest[i]) == segs[i]);
        assert(init[0] == segs[segs.len() - 1]);
        assert(all_proper(init));
        assert(all_proper(rest));
        lemma_merge_fold_covers(init, rest);
        assert forall|c: TextCoordinate|
            #[trigger] any_covers(merge_spec(segs), c) <==> any_covers(segs, c) by {
            assert(any_covers(merge_spec(segs), c) <==> any_covers(init, c) || any_covers(
                rest,
                c,
            ));
            if any_covers(init, c) {
                assert(seg_covers(segs[segs.len() - 1], c));
            }
            if any_covers(rest, c) {
                let i = choose|i: int| 0 <= i < rest.len() && seg_covers(#[trigger] rest[i], c);
                assert(seg_covers(segs[i], c));
            }
            if any_covers(segs, c) {
                let i = choose|i: int| 0 <= i < segs.len() && seg_covers(#[trigger] segs[i], c);
                if i < rest.len() {
                    assert(seg_covers(rest[i], c));
                } else {
                    assert(seg_covers(init[0], c));
                }
            }
        }
    }
}

/// The fixed-point merge neither loses nor invents covered cells.
pub proof fn lemma_merge_fix_covers(segs: Seq<LineSegment>)
    requires
        all_proper(segs),
    ensures
        all_proper(merge_fix(segs)),
        forall|c: TextCoordinate|
            #[trigger] any_covers(merge_fix(segs), c) <==> any_covers(segs, c),
    decreases segs.len(),
{
    lemma_merge_covers(segs);
    lemma_merge_spec_len(segs);
    if merge_spec(segs).len() != segs.len() {
        lemma_merge_fix_covers(merge_spec(segs));
        assert forall|c: TextCoordinate|
            #[trigger] any_covers(merge_fix(segs), c) <==> any_covers(segs, c) by {
            assert(merge_fix(segs) == merge_fix(merge_spec(segs)));
            assert(any_covers(merge_fix(merge_spec(segs)), c) <==> any_covers(
                merge_spec(segs),
                c,
            ));
            assert(any_covers(merge_spec(segs), c) <==> any_covers(segs, c));
        }
    }
}

/// Every raw segment of every scan direction is proper.
proof fn lemma_all_raw_proper(tb: TextBuffer)
    ensures
        all_proper(all_raw_segments(tb)),
{
    let raw = all_raw_segments(tb);
    let h = raw_horizontal_segments(tb);
    let v = raw_vertical_segments(tb);
    let u = raw_diag_ur_segments(tb);
    let d = raw_diag_dr_segments(tb);
    let big = 0x1_0000_0000int;
    assert forall|k: int|
        0 <= k < classified_cells(Kind::Horiz, tb.row_major_cells()).len() implies coord_within(
        (#[trigger] classified_cells(Kind::Horiz, tb.row_major_cells())[k]).0,
        big,
        big,
    ) by {}
    assert forall|k: int|
        0 <= k < classified_cells(Kind::Vert, tb.col_major_cells()).len() implies coord_within(
        (#[trigger] classified_cells(Kind::Vert, tb.col_major_cells())[k]).0,
        big,
        big,
    ) by {}
    assert forall|k: int|
        0 <= k < classified_cells(Kind::UpSlant, tb.diag_ur_cells()).len() implies coord_within(
        (#[trigger] classified_cells(Kind::UpSlant, tb.diag_ur_cells())[k]).0,
        big,
        big,
    ) by {}
    assert forall|k: int|
        0 <= k < classified_cells(Kind::DownSlant, tb.diag_dr_cells()).len() implies coord_within(
        (#[trigger] classified_cells(Kind::DownSlant, tb.diag_dr_cells())[k]).0,
        big,
        big,
    ) by {}
    lemma_scan_segments_wf(Kind::Horiz, classified_cells(Kind::Horiz, tb.row_major_cells()), big, big);
    lemma_scan_segments_wf(Kind::Vert, classified_cells(Kind::Vert, tb.col_major_cells()), big, big);
    lemma_scan_segments_wf(Kind::UpSlant, classified_cells(Kind::UpSlant, tb.diag_ur_cells()), big, big);
    lemma_scan_segments_wf(Kind::DownSlant, classified_cells(Kind::DownSlant, tb.diag_dr_cells()), big, big);
    assert forall|i: int| 0 <= i < raw.len() implies seg_proper(#[trigger] raw[i]) by {
        if i < h.len() {
            assert(raw[i] == h[i]);
            lemma_wf_proper(Kind::Horiz, h[i]);
        } else if i < h.len() + v.len() {
            assert(raw[i] == v[i - h.len()]);
            lemma_wf_proper(Kind::Vert, v[i - h.len()]);
        } else if i < h.len() + v.len() + u.len() {
            assert(raw[i] == u[i - h.len() - v.len()]);
            lemma_wf_proper(Kind::UpSlant, u[i - h.len() - v.len()]);
        } else {
            assert(raw[i] == d[i - h.len() - v.len() - u.len()]);
            lemma_wf_proper(Kind::DownSlant, d[i - h.len() - v.len() - u.len()]);
        }
    }
}

/// Each wire's each segment appears in the flattened view.
proof fn lemma_flatten_contains(ws: Seq<Wire>, w: int, s: int)
    requires
        0 <= w < ws.len(),
        0 <= s < ws[w].segments@.len(),
    ensures
        flatten_wires(ws).contains(ws[w].segments@[s]),
    decreases ws.len(),
{
    let flat = flatten_wires(ws);
    if w == ws.len() - 1 {
        assert(flat[flatten_wires(ws.drop_last()).len() + s] == ws[w].segments@[s]);
    } else {
        lemma_flatten_contains(ws.drop_last(), w, s);
        assert(ws.drop_last()[w] == ws[w]);
        let i = choose|i: int|
            0 <= i < flatten_wires(ws.drop_last()).len() && flatten_wires(ws.drop_last())[i]
                == ws[w].segments@[s];
        assert(flat[i] == ws[w].segments@[s]);
    }
}

/// The round trip's protection, at the pipeline level: every cell that any
/// wire segment of an analysis walks — the endpoint its `iter` leaves out
/// included — holds a glyph that one of the four scan directions
/// classifies.  Clearing the wires' walked cells can therefore erase only
/// line-drawing glyphs; label text is never visited.  The premise is
/// exactly what `get_wires` ensures of its result.
pub proof fn lemma_wire_cells_hold_line_glyphs(tb: TextBuffer, wires: Seq<Wire>)
    requires
        flatten_wires(wires).to_multiset() == merge_fix(all_raw_segments(tb)).to_multiset(),
    ensures
        forall|w: int, s: int, p: int|
            0 <= w < wires.len() && 0 <= s < wires[w].segments@.len() && 0 <= p <= wires[
                w
            ].segments@[s].spec_iter_count() ==> exists|axis: Kind, c: char|
                #[trigger] spec_classify_axis(axis, c) is Some && tb.cell(
                    (#[trigger] wires[w].segments@[s].spec_point(p)).x as int,
                    (wires[w].segments@[s].spec_point(p)).y as int,
                ) == Some(c),
{
    broadcast use vstd::seq_lib::group_to_multiset_ensures;
    broadcast use vstd::multiset::group_multiset_axioms;

    let raw = all_raw_segments(tb);
    let merged = merge_fix(raw);
    let h = raw_horizontal_segments(tb);
    let v = raw_vertical_segments(tb);
    let u = raw_diag_ur_segments(tb);
    let d = raw_diag_dr_segments(tb);
    lemma_all_raw_proper(tb);
    lemma_merge_fix_covers(raw);
    lemma_run_cells_hold_line_glyphs(tb, Kind::Horiz);
    lemma_run_cells_hold_line_glyphs(tb, Kind::Vert);
    lemma_run_cells_hold_line_glyphs(tb, Kind::UpSlant);
    lemma_run_cells_hold_line_glyphs(tb, Kind::DownSlant);
    assert forall|w: int, s: int, p: int|
        0 <= w < wires.len() && 0 <= s < wires[w].segments@.len() && 0 <= p <= wires[
            w
        ].segments@[s].spec_iter_count() implies exists|axis: Kind, c: char|
            #[trigger] spec_classify_axis(axis, c) is Some && tb.cell(
                (#[trigger] wires[w].segments@[s].spec_point(p)).x as int,
                (wires[w].segments@[s].spec_point(p)).y as int,
            ) == Some(c) by {
        let seg = wires[w].segments@[s];
        let pt = seg.spec_point(p);
        lemma_flatten_contains(wires, w, s);
        lemma_contains_via_ms(flatten_wires(wires), merged, seg);
        let mi = choose|mi: int| 0 <= mi < merged.len() && merged[mi] == seg;
        assert(seg_covers(merged[mi], pt));
        assert(any_covers(merged, pt));
        assert(any_covers(raw, pt));
        let ri = choose|ri: int| 0 <= ri < raw.len() && seg_covers(#[trigger] raw[ri], pt);
        let p2 = choose|p2: int|
            0 <= p2 <= raw[ri].spec_iter_count() && #[trigger] raw[ri].spec_point(p2) == pt;
        if ri < h.len() {
            assert(axis_raw_segments(tb, Kind::Horiz)[ri] == raw[ri]);
            assert(axis_raw_segments(tb, Kind::Horiz)[ri].spec_point(p2) == pt);
            let c = choose|c: char|
                #[trigger] spec_classify_axis(Kind::Horiz, c) is Some && tb.cell(
                    pt.x as int,
                    pt.y as int,
                ) == Some(c);
            assert(spec_classify_axis(Kind::Horiz, c) is Some);
        } else if ri < h.len() + v.len() {
            let ri2 = ri - h.len();
            assert(axis_raw_segments(tb, Kind::Vert)[ri2] == raw[ri]);
            assert(axis_raw_segments(tb, Kind::Vert)[ri2].spec_point(p2) == pt);
            let c = choose|c: char|
                #[trigger] spec_classify_axis(Kind::Vert, c) is Some && tb.cell(
                    pt.x as int,
                    pt.y as int,
                ) == Some(c);
            assert(spec_classify_axis(Kind::Vert, c) is Some);
        } else if ri < h.len() + v.len() + u.len() {
            let ri2 = ri - h.len() - v.len();
            assert(axis_raw_segments(tb, Kind::UpSlant)[ri2] == raw[ri]);
            assert(axis_raw_segments(tb, Kind::UpSlant)[ri2].spec_point(p2) == pt);
            let c = choose|c: char|
                #[trigger] spec_classify_axis(Kind::UpSlant, c) is Some && tb.cell(
                    pt.x as int,
                    pt.y as int,
                ) == Some(c);
            assert(spec_classify_axis(Kind::UpSlant, c) is Some);
        } else {
            let ri2 = ri - h.len() - v.len() - u.len();
            assert(axis_raw_segments(tb, Kind::DownSlant)[ri2] == raw[ri]);
            assert(axis_raw_segments(tb, Kind::DownSlant)[ri2].spec_point(p2) == pt);
            let c = choose|c: char|
                #[trigger] spec_classify_axis(Kind::DownSlant, c) is Some && tb.cell(
                    pt.x as int,
                    pt.y as int,
                ) == Some(c);
            assert(spec_classify_axis(Kind::DownSlant, c) is Some);
        }
    }
}

/// The flattened view draws each of its segments from some wire.
proof fn lemma_flatten_source(ws: Seq<Wire>, x: LineSegment)
    requires
        flatten_wires(ws).contains(x),
    ensures
        exists|w: int, s: int|
            0 <= w < ws.len() && 0 <= s < ws[w].segments@.len() && #[trigger] ws[w].segments@[s]
                == x,
    decreases ws.len(),
{
    let i = choose|i: int| 0 <= i < flatten_wires(ws).len() && flatten_wires(ws)[i] == x;
    let pre = flatten_wires(ws.drop_last());
    if i < pre.len() {
        assert(pre[i] == x);
        assert(pre.contains(x));
        lemma_flatten_source(ws.drop_last(), x);
        let (w, s) = choose|w: int, s: int|
            0 <= w < ws.drop_last().len() && 0 <= s < ws.drop_last()[w].segments@.len()
                && #[trigger] ws.drop_last()[w].segments@[s] == x;
        assert(ws.drop_last()[w] == ws[w]);
        assert(ws[w].segments@[s] == x);
    } else {
        assert(ws.last().segments@[i - pre.len()] == x);
        assert(ws[ws.len() - 1].segments@[i - pre.len()] == x);
    }
}

/// Whether some wire segment's walk passes through `c`.
pub open spec fn wires_cover(ws: Seq<Wire>, c: TextCoordinate) -> bool {
    exists|w: int, s: int|
        0 <= w < ws.len() && 0 <= s < ws[w].segments@.len() && seg_covers(
            #[trigger] ws[w].segments@[s],
            c,
        )
}

/// The render round trip, as one statement.  The wires of an analysis walk
/// exactly the cells of the raw detected runs — no detected line cell is
/// missed, no other cell is touched — and every walked cell holds a glyph
/// that one of the four scan directions classifies.  Clearing the wires'
/// walked cells therefore removes the detected line-drawing glyph cells
/// and leaves every other cell, label text included, unchanged.  The
/// premise is exactly what `get_wires` ensures of its result.
pub proof fn lemma_round_trip(tb: TextBuffer, wires: Seq<Wire>)
    requires
        flatten_wires(wires).to_multiset() == merge_fix(all_raw_segments(tb)).to_multiset(),
    ensures
        forall|c: TextCoordinate|
            #[trigger] wires_cover(wires, c) <==> any_covers(all_raw_segments(tb), c),
        forall|c: TextCoordinate|
            #[trigger] wires_cover(wires, c) ==> exists|axis: Kind, ch: char|
                #[trigger] spec_classify_axis(axis, ch) is Some && tb.cell(
                    c.x as int,
                    c.y as int,
                ) == Some(ch),
{
    let raw = all_raw_segments(tb);
    let merged = merge_fix(raw);
    lemma_all_raw_proper(tb);
    lemma_merge_fix_covers(raw);
    lemma_wire_cells_hold_line_glyphs(tb, wires);
    assert forall|c: TextCoordinate|
        #[trigger] wires_cover(wires, c) <==> any_covers(raw, c) by {
        if wires_cover(wires, c) {
            let (w, s) = choose|w: int, s: int|
                0 <= w < wires.len() && 0 <= s < wires[w].segments@.len() && seg_covers(
                    #[trigger] wires[w].segments@[s],
                    c,
                );
            lemma_flatten_contains(wires, w, s);
            lemma_contains_via_ms(flatten_wires(wires), merged, wires[w].segments@[s]);
            let mi = choose|mi: int|
                0 <= mi < merged.len() && merged[mi] == wires[w].segments@[s];
            assert(seg_covers(merged[mi], c));
            assert(any_covers(merged, c));
        }
        if any_covers(raw, c) {
            assert(any_covers(merged, c));
            let mi = choose|mi: int| 0 <= mi < merged.len() && seg_covers(#[trigger] merged[mi], c);
            assert(merged.contains(merged[mi]));
            lemma_contains_via_ms(merged, flatten_wires(wires), merged[mi]);
            lemma_flatten_source(wires, merged[mi]);
            let (w, s) = choose|w: int, s: int|
                0 <= w < wires.len() && 0 <= s < wires[w].segments@.len()
                    && #[trigger] wires[w].segments@[s] == merged[mi];
            assert(seg_covers(wires[w].segments@[s], c));
        }
    }
    assert forall|c: TextCoordinate|
        #[trigger] wires_cover(wires, c) implies exists|axis: Kind, ch: char|
            #[trigger] spec_classify_axis(axis, ch) is Some && tb.cell(c.x as int, c.y as int)
                == Some(ch) by {
        let (w, s) = choose|w: int, s: int|
            0 <= w < wires.len() && 0 <= s < wires[w].segments@.len() && seg_covers(
                #[trigger] wires[w].segments@[s],
                c,
            );
        let p = choose|p: int|
            0 <= p <= wires[w].segments@[s].spec_iter_count() && #[trigger] wires[
                w
            ].segments@[s].spec_point(p) == c;
        assert(wires[w].segments@[s].spec_point(p) == c);
    }
}

/// Analyze the grid into wires: scan every axis, merge colinear raw
/// segments into maximal ones, and group the merged segments into connected
/// wires, deterministically ordered.
pub fn get_wires(tb: &TextBuffer) -> (wires: Vec<Wire>)
    requires
        tb.wf(),
    ensures
        flatten_wires(wires@).to_multiset() == merge_fix(all_raw_segments(*tb)).to_multiset(),
        forall|k: int| 0 <= k < wires@.len() ==> (#[trigger] wires@[k]).segments@.len() >= 1,
        forall|k: int|
            0 <= k < wires@.len() ==> connected_cluster((#[trigger] wires@[k]).segments@),
        forall|k: int| 0 <= k < wires@.len() ==> sorted_by_id((#[trigger] wires@[k]).segments@),
        wires_sorted(wires@),
        wires_disjoint(wires@),
{
    let mut segments = get_horizontal_line_segments(tb);
    let mut vs = get_vertical_line_segments(tb);
    segments.append(&mut vs);
    let mut us = get_diag_up_right_segments(tb);
    segments.append(&mut us);
    let mut ds = get_diag_down_right_segments(tb);
    segments.append(&mut ds);
    proof {
        assert(segments@ =~= all_raw_segments(*tb));
    }
    let merged = merge_colinear(segments);
    assemble_wires(merged)
}

/// A horizontal or vertical line in canonical direction: its start at the
/// smaller coordinate, so that the same logical edge compares equal
/// whichever end anchored the scan.
#[derive(Debug, Eq, PartialEq, Hash, Clone, Copy, Structural)]
pub enum DirectedLine {
    Horiz(LineSegment),
    Vert(LineSegment),
}

/// The canonical direction of a horizontal segment: start at the smaller
/// column.
pub open spec fn spec_mk_horiz(ls: LineSegment) -> DirectedLine {
    DirectedLine::Horiz(
        LineSegment {
            start: TextCoordinate { x: cmin(ls.start.x, ls.end.x), y: ls.end.y },
            end: TextCoordinate { x: cmax(ls.start.x, ls.end.x), y: ls.end.y },
        },
    )
}

/// Canonicalize a horizontal segment: start at the smaller column.
pub fn mk_horiz(ls: LineSegment) -> (r: DirectedLine)
    requires
        ls.start.y == ls.end.y,
    ensures
        r == spec_mk_horiz(ls),
{
    let y = ls.end.y;
    let min_x = if ls.start.x <= ls.end.x { ls.start.x } else { ls.end.x };
    let max_x = if ls.start.x >= ls.end.x { ls.start.x } else { ls.end.x };
    DirectedLine::Horiz(
        LineSegment {
            start: TextCoordinate { x: min_x, y },
            end: TextCoordinate { x: max_x, y },
        },
    )
}

/// The canonical direction of a vertical segment: start at the smaller row.
pub open spec fn spec_mk_vert(ls: LineSegment) -> DirectedLine {
    DirectedLine::Vert(
        LineSegment {
            start: TextCoordinate { x: ls.end.x, y: cmin(ls.start.y, ls.end.y) },
            end: TextCoordinate { x: ls.end.x, y: cmax(ls.start.y, ls.end.y) },
        },
    )
}

/// Canonicalize a vertical segment: start at the smaller row.
pub fn mk_vert(ls: LineSegment) -> (r: DirectedLine)
    requires
        ls.start.x == ls.end.x,
    ensures
        r == spec_mk_vert(ls),
{
    let x = ls.end.x;
    let min_y = if ls.start.y <= ls.end.y { ls.start.y } else { ls.end.y };
    let max_y = if ls.start.y >= ls.end.y { ls.start.y } else { ls.end.y };
    DirectedLine::Vert(
        LineSegment {
            start: TextCoordinate { x, y: min_y },
            end: TextCoordinate { x, y: max_y },
        },
    )
}

/// The segment inside a directed line.
pub open spec fn dl_seg(l: DirectedLine) -> LineSegment {
    match l {
        DirectedLine::Horiz(s) => s,
        DirectedLine::Vert(s) => s,
    }
}

/// A directed line runs forward along its axis over at least one cell.
pub open spec fn dl_wf(l: DirectedLine) -> bool {
    match l {
        DirectedLine::Horiz(s) => s.start.y == s.end.y && s.start.x < s.end.x,
        DirectedLine::Vert(s) => s.start.x == s.end.x && s.start.y < s.end.y,
    }
}

/// Some horizontal raw segment with an endpoint at `c` canonicalizes to `l`.
pub open spec fn line_at_corner_h(h: Seq<LineSegment>, c: TextCoordinate, l: DirectedLine) -> bool {
    exists|i: int|
        0 <= i < h.len() && ((#[trigger] h[i]).start == c || h[i].end == c) && spec_mk_horiz(h[i])
            == l
}

/// Some vertical raw segment with an endpoint at `c` canonicalizes to `l`.
pub open spec fn line_at_corner_v(v: Seq<LineSegment>, c: TextCoordinate, l: DirectedLine) -> bool {
    exists|i: int|
        0 <= i < v.len() && ((#[trigger] v[i]).start == c || v[i].end == c) && spec_mk_vert(v[i])
            == l
}

/// Everything rectangle detection accepts about one returned rectangle
/// `rc`, stated over the raw horizontal segments `h`, the raw vertical
/// segments `v`, and the grid: `rc` is normalized and proper; its top and
/// left edges are registered at its top-left corner and its bottom and
/// right edges at its bottom-right corner; the eight cells just outside its
/// corners are blank (a corner at the grid's top or left edge saturates
/// onto itself and can never pass); and all four corners hold `+`.
pub open spec fn rect_detected_valid(
    rc: Rectangle,
    tb: TextBuffer,
    h: Seq<LineSegment>,
    v: Seq<LineSegment>,
) -> bool {
    let tl = rc.corner_1;
    let br = rc.corner_2;
    let tr = TextCoordinate { x: br.x, y: tl.y };
    let bl = TextCoordinate { x: tl.x, y: br.y };
    &&& tl.x < br.x
    &&& tl.y < br.y
    &&& line_at_corner_h(h, tl, DirectedLine::Horiz(LineSegment { start: tl, end: tr }))
    &&& line_at_corner_v(v, tl, DirectedLine::Vert(LineSegment { start: tl, end: bl }))
    &&& line_at_corner_h(h, br, DirectedLine::Horiz(LineSegment { start: bl, end: br }))
    &&& line_at_corner_v(v, br, DirectedLine::Vert(LineSegment { start: tr, end: br }))
    &&& tb.cell(tl.x as int, if tl.y == 0 { 0int } else { tl.y - 1 }) is None
    &&& tb.cell(if tl.x == 0 { 0int } else { tl.x - 1 }, tl.y as int) is None
    &&& tb.cell(br.x as int, br.y + 1) is None
    &&& tb.cell(br.x + 1, br.y as int) is None
    &&& tb.cell(tr.x + 1, tr.y as int) is None
    &&& tb.cell(tr.x as int, if tr.y == 0 { 0int } else { tr.y - 1 }) is None
    &&& tb.cell(if bl.x == 0 { 0int } else { bl.x - 1 }, bl.y as int) is None
    &&& tb.cell(bl.x as int, bl.y + 1) is None
    &&& tb.cell(tl.x as int, tl.y as int) == Some('+')
    &&& tb.cell(br.x as int, br.y as int) == Some('+')
    &&& tb.cell(tr.x as int, tr.y as int) == Some('+')
    &&& tb.cell(bl.x as int, bl.y as int) == Some('+')
}

/// The rectangle candidate built while standing at corner `c1` with a
/// horizontal line `hline` and a vertical line `vline` registered there:
/// the opposite corner takes the horizontal line's other column and the
/// vertical line's other row, and the result is normalized.
pub open spec fn candidate_from_corner(
    c1: TextCoordinate,
    hline: LineSegment,
    vline: LineSegment,
) -> Rectangle {
    let ox = if hline.start.x == c1.x {
        hline.end.x
    } else {
        hline.start.x
    };
    let oy = if vline.start.y == c1.y {
        vline.end.y
    } else {
        vline.start.y
    };
    (Rectangle { corner_1: c1, corner_2: TextCoordinate { x: ox, y: oy } }).spec_normalize()
}

/// Rectangle detection is corner-order-independent: for a box with corners
/// `(x0, y0)` and `(x1, y1)`, starting the candidate construction at any of
/// its four corners with that corner's own two edges yields the same
/// normalized rectangle.
pub proof fn lemma_candidate_corner_independent(x0: u32, y0: u32, x1: u32, y1: u32)
    requires
        x0 < x1,
        y0 < y1,
    ensures
        ({
            let tl = TextCoordinate { x: x0, y: y0 };
            let tr = TextCoordinate { x: x1, y: y0 };
            let bl = TextCoordinate { x: x0, y: y1 };
            let br = TextCoordinate { x: x1, y: y1 };
            let top = LineSegment { start: tl, end: tr };
            let bottom = LineSegment { start: bl, end: br };
            let left = LineSegment { start: tl, end: bl };
            let right = LineSegment { start: tr, end: br };
            let boxed = Rectangle { corner_1: tl, corner_2: br };
            candidate_from_corner(tl, top, left) == boxed && candidate_from_corner(tr, top, right)
                == boxed && candidate_from_corner(bl, bottom, left) == boxed
                && candidate_from_corner(br, bottom, right) == boxed
        }),
{
}

/// At each of the rectangle's four corners, every raw horizontal segment
/// ending there canonicalizes to that corner's own horizontal edge, and
/// every raw vertical one to its own vertical edge: the corners carry no
/// colinear continuations and no foreign lines.  At such corners the
/// detector's first-found lines are necessarily the box's own edges.
pub open spec fn only_box_lines_at_corners(
    rc: Rectangle,
    h: Seq<LineSegment>,
    v: Seq<LineSegment>,
) -> bool {
    let tl = rc.corner_1;
    let br = rc.corner_2;
    let tr = TextCoordinate { x: br.x, y: tl.y };
    let bl = TextCoordinate { x: tl.x, y: br.y };
    let top = DirectedLine::Horiz(LineSegment { start: tl, end: tr });
    let bottom = DirectedLine::Horiz(LineSegment { start: bl, end: br });
    let left = DirectedLine::Vert(LineSegment { start: tl, end: bl });
    let right = DirectedLine::Vert(LineSegment { start: tr, end: br });
    &&& forall|i: int|
        0 <= i < h.len() ==> {
            let s = #[trigger] h[i];
            &&& ((s.start == tl || s.end == tl) ==> spec_mk_horiz(s) == top)
            &&& ((s.start == tr || s.end == tr) ==> spec_mk_horiz(s) == top)
            &&& ((s.start == bl || s.end == bl) ==> spec_mk_horiz(s) == bottom)
            &&& ((s.start == br || s.end == br) ==> spec_mk_horiz(s) == bottom)
        }
    &&& forall|i: int|
        0 <= i < v.len() ==> {
            let s = #[trigger] v[i];
            &&& ((s.start == tl || s.end == tl) ==> spec_mk_vert(s) == left)
            &&& ((s.start == bl || s.end == bl) ==> spec_mk_vert(s) == left)
            &&& ((s.start == tr || s.end == tr) ==> spec_mk_vert(s) == right)
            &&& ((s.start == br || s.end == br) ==> spec_mk_vert(s) == right)
        }
}

/// What the corner map may register for `key`: a canonical line of a raw
/// segment that ends at `key`, in proper direction, inside the grid.
spec fn entry_ok(
    tb: TextBuffer,
    h: Seq<LineSegment>,
    v: Seq<LineSegment>,
    key: TextCoordinate,
    l: DirectedLine,
) -> bool {
    &&& tb.in_dims(key.x as int, key.y as int)
    &&& dl_wf(l)
    &&& tb.in_dims(dl_seg(l).start.x as int, dl_seg(l).start.y as int)
    &&& tb.in_dims(dl_seg(l).end.x as int, dl_seg(l).end.y as int)
    &&& (key == dl_seg(l).start || key == dl_seg(l).end)
    &&& (line_at_corner_h(h, key, l) || line_at_corner_v(v, key, l))
}

/// Every line the corner map holds is properly registered.
spec fn cmap_sound(
    m: Seq<(TextCoordinate, Vec<DirectedLine>)>,
    tb: TextBuffer,
    h: Seq<LineSegment>,
    v: Seq<LineSegment>,
) -> bool {
    forall|e: int, k: int|
        0 <= e < m.len() && 0 <= k < m[e].1@.len() ==> entry_ok(
            tb,
            h,
            v,
            m[e].0,
            #[trigger] m[e].1@[k],
        )
}

/// The map holds `l` under `key`.
spec fn cmap_has(
    m: Seq<(TextCoordinate, Vec<DirectedLine>)>,
    key: TextCoordinate,
    l: DirectedLine,
) -> bool {
    exists|e: int, k: int|
        0 <= e < m.len() && 0 <= k < m[e].1@.len() && m[e].0 == key && #[trigger] m[e].1@[k] == l
}

/// No two entries of the corner map share a key.
spec fn cmap_keys_unique(m: Seq<(TextCoordinate, Vec<DirectedLine>)>) -> bool {
    forall|e1: int, e2: int|
        0 <= e1 < e2 < m.len() ==> (#[trigger] m[e1]).0 != (#[trigger] m[e2]).0
}

/// The corner map registers every raw segment's canonical line at both of
/// its endpoints.
spec fn cmap_complete(
    m: Seq<(TextCoordinate, Vec<DirectedLine>)>,
    h: Seq<LineSegment>,
    v: Seq<LineSegment>,
) -> bool {
    &&& forall|j: int|
        0 <= j < h.len() ==> cmap_has(m, (#[trigger] h[j]).start, spec_mk_horiz(h[j])) && cmap_has(
            m,
            h[j].end,
            spec_mk_horiz(h[j]),
        )
    &&& forall|j: int|
        0 <= j < v.len() ==> cmap_has(m, (#[trigger] v[j]).start, spec_mk_vert(v[j])) && cmap_has(
            m,
            v[j].end,
            spec_mk_vert(v[j]),
        )
}

/// Some entry among the first `e` has this key.
spec fn key_before(m: Seq<(TextCoordinate, Vec<DirectedLine>)>, e: int, key: TextCoordinate) -> bool {
    exists|e2: int| 0 <= e2 < e && (#[trigger] m[e2]).0 == key
}

/// A line the map holds under a unique key sits in that key's entry.
proof fn lemma_cmap_lookup(
    m: Seq<(TextCoordinate, Vec<DirectedLine>)>,
    e: int,
    l: DirectedLine,
)
    requires
        cmap_keys_unique(m),
        0 <= e < m.len(),
        cmap_has(m, m[e].0, l),
    ensures
        m[e].1@.contains(l),
{
    let (e2, k) = choose|e2: int, k: int|
        0 <= e2 < m.len() && 0 <= k < m[e2].1@.len() && m[e2].0 == m[e].0 && #[trigger] m[e2].1@[k]
            == l;
    if e2 != e {
        assert(m[e2].0 != m[e].0);
    }
    assert(m[e].1@[k] == l);
}

/// For a valid rectangle whose corners carry only its own edges, the map
/// entry keyed by its top-left corner lists the top and left edges and
/// nothing else of their orientations, and the bottom-right corner is keyed
/// in the map with its entry listing the bottom and right edges.
proof fn lemma_box_entry_lines(
    m: Seq<(TextCoordinate, Vec<DirectedLine>)>,
    tb: TextBuffer,
    rc: Rectangle,
    e: int,
)
    requires
        cmap_sound(m, tb, raw_horizontal_segments(tb), raw_vertical_segments(tb)),
        cmap_complete(m, raw_horizontal_segments(tb), raw_vertical_segments(tb)),
        cmap_keys_unique(m),
        0 <= e < m.len(),
        m[e].0 == rc.corner_1,
        rect_detected_valid(rc, tb, raw_horizontal_segments(tb), raw_vertical_segments(tb)),
        only_box_lines_at_corners(rc, raw_horizontal_segments(tb), raw_vertical_segments(tb)),
    ensures
        m[e].1@.contains(
            DirectedLine::Horiz(
                LineSegment {
                    start: rc.corner_1,
                    end: TextCoordinate { x: rc.corner_2.x, y: rc.corner_1.y },
                },
            ),
        ),
        m[e].1@.contains(
            DirectedLine::Vert(
                LineSegment {
                    start: rc.corner_1,
                    end: TextCoordinate { x: rc.corner_1.x, y: rc.corner_2.y },
                },
            ),
        ),
        forall|k: int|
            0 <= k < m[e].1@.len() && (#[trigger] m[e].1@[k]) is Horiz ==> m[e].1@[k]
                == DirectedLine::Horiz(
                LineSegment {
                    start: rc.corner_1,
                    end: TextCoordinate { x: rc.corner_2.x, y: rc.corner_1.y },
                },
            ),
        forall|k: int|
            0 <= k < m[e].1@.len() && (#[trigger] m[e].1@[k]) is Vert ==> m[e].1@[k]
                == DirectedLine::Vert(
                LineSegment {
                    start: rc.corner_1,
                    end: TextCoordinate { x: rc.corner_1.x, y: rc.corner_2.y },
                },
            ),
        exists|e2: int| 0 <= e2 < m.len() && (#[trigger] m[e2]).0 == rc.corner_2,
        forall|e2: int|
            0 <= e2 < m.len() && (#[trigger] m[e2]).0 == rc.corner_2 ==> m[e2].1@.contains(
                DirectedLine::Horiz(
                    LineSegment {
                        start: TextCoordinate { x: rc.corner_1.x, y: rc.corner_2.y },
                        end: rc.corner_2,
                    },
                ),
            ) && m[e2].1@.contains(
                DirectedLine::Vert(
                    LineSegment {
                        start: TextCoordinate { x: rc.corner_2.x, y: rc.corner_1.y },
                        end: rc.corner_2,
                    },
                ),
            ),
{
    let h = raw_horizontal_segments(tb);
    let v = raw_vertical_segments(tb);
    let tl = rc.corner_1;
    let br = rc.corner_2;
    let tr = TextCoordinate { x: br.x, y: tl.y };
    let bl = TextCoordinate { x: tl.x, y: br.y };
    let top = DirectedLine::Horiz(LineSegment { start: tl, end: tr });
    let bottom = DirectedLine::Horiz(LineSegment { start: bl, end: br });
    let left = DirectedLine::Vert(LineSegment { start: tl, end: bl });
    let right = DirectedLine::Vert(LineSegment { start: tr, end: br });
    // The top edge is registered at the top-left corner, so the map holds it
    // there.
    assert(line_at_corner_h(h, tl, top));
    let it = choose|it: int|
        0 <= it < h.len() && ((#[trigger] h[it]).start == tl || h[it].end == tl) && spec_mk_horiz(
            h[it],
        ) == top;
    assert(cmap_has(m, tl, top));
    lemma_cmap_lookup(m, e, top);
    assert(line_at_corner_v(v, tl, left));
    let il = choose|il: int|
        0 <= il < v.len() && ((#[trigger] v[il]).start == tl || v[il].end == tl) && spec_mk_vert(
            v[il],
        ) == left;
    assert(cmap_has(m, tl, left));
    lemma_cmap_lookup(m, e, left);
    // Nothing else of either orientation sits at the top-left corner.
    assert forall|k: int|
        0 <= k < m[e].1@.len() && (#[trigger] m[e].1@[k]) is Horiz implies m[e].1@[k] == top by {
        let l = m[e].1@[k];
        assert(entry_ok(tb, h, v, m[e].0, l));
        if line_at_corner_v(v, tl, l) {
            let iv = choose|iv: int|
                0 <= iv < v.len() && ((#[trigger] v[iv]).start == tl || v[iv].end == tl)
                    && spec_mk_vert(v[iv]) == l;
            assert(false);
        } else {
            let ih = choose|ih: int|
                0 <= ih < h.len() && ((#[trigger] h[ih]).start == tl || h[ih].end == tl)
                    && spec_mk_horiz(h[ih]) == l;
            assert(spec_mk_horiz(h[ih]) == top);
        }
    }
    assert forall|k: int|
        0 <= k < m[e].1@.len() && (#[trigger] m[e].1@[k]) is Vert implies m[e].1@[k] == left by {
        let l = m[e].1@[k];
        assert(entry_ok(tb, h, v, m[e].0, l));
        if line_at_corner_h(h, tl, l) {
            let ih = choose|ih: int|
                0 <= ih < h.len() && ((#[trigger] h[ih]).start == tl || h[ih].end == tl)
                    && spec_mk_horiz(h[ih]) == l;
            assert(false);
        } else {
            let iv = choose|iv: int|
                0 <= iv < v.len() && ((#[trigger] v[iv]).start == tl || v[iv].end == tl)
                    && spec_mk_vert(v[iv]) == l;
            assert(spec_mk_vert(v[iv]) == left);
        }
    }
    // The bottom edge's registration keys the bottom-right corner into the
    // map and places bottom and right in its entry.
    assert(line_at_corner_h(h, br, bottom));
    let ib = choose|ib: int|
        0 <= ib < h.len() && ((#[trigger] h[ib]).start == br || h[ib].end == br) && spec_mk_horiz(
            h[ib],
        ) == bottom;
    assert(cmap_has(m, br, bottom));
    let (eb, kb) = choose|eb: int, kb: int|
        0 <= eb < m.len() && 0 <= kb < m[eb].1@.len() && m[eb].0 == br && #[trigger] m[eb].1@[kb]
            == bottom;
    assert(line_at_corner_v(v, br, right));
    let ir = choose|ir: int|
        0 <= ir < v.len() && ((#[trigger] v[ir]).start == br || v[ir].end == br) && spec_mk_vert(
            v[ir],
        ) == right;
    assert(cmap_has(m, br, right));
    assert forall|e2: int|
        0 <= e2 < m.len() && (#[trigger] m[e2]).0 == rc.corner_2 implies m[e2].1@.contains(bottom)
            && m[e2].1@.contains(right) by {
        lemma_cmap_lookup(m, e2, bottom);
        lemma_cmap_lookup(m, e2, right);
    }
}

/// Register `l` under `c`, appending to the corner's line list or opening a
/// new one.
fn cmap_insert(cmap: &mut Vec<(TextCoordinate, Vec<DirectedLine>)>, c: TextCoordinate, l: DirectedLine)
    ensures
        forall|e: int, k: int|
            0 <= e < final(cmap)@.len() && 0 <= k < final(cmap)@[e].1@.len() ==> {
                let key = final(cmap)@[e].0;
                let line = #[trigger] final(cmap)@[e].1@[k];
                (key == c && line == l) || cmap_has(old(cmap)@, key, line)
            },
        cmap_has(final(cmap)@, c, l),
        forall|key: TextCoordinate, line: DirectedLine|
            #[trigger] cmap_has(old(cmap)@, key, line) ==> cmap_has(final(cmap)@, key, line),
        cmap_keys_unique(old(cmap)@) ==> cmap_keys_unique(final(cmap)@),
{
    let n = cmap.len();
    let mut e: usize = 0;
    while e < n
        invariant
            n == cmap@.len(),
            cmap@ == old(cmap)@,
            e <= n,
            forall|e2: int| 0 <= e2 < e ==> (#[trigger] cmap@[e2]).0 != c,
        decreases n - e,
    {
        if cmap[e].0 == c {
            let ghost pre = cmap@;
            let mut entry = cmap.remove(e);
            entry.1.push(l);
            let ghost grown = entry.1@;
            cmap.insert(e, entry);
            proof {
                assert(cmap@ =~= pre.update(e as int, (pre[e as int].0, entry.1)));
                assert(cmap@[e as int].1@ == grown);
                assert(grown[grown.len() - 1] == l);
                assert(cmap_has(cmap@, c, l));
                assert forall|e2: int, k: int|
                    0 <= e2 < cmap@.len() && 0 <= k < cmap@[e2].1@.len() implies {
                    let key = cmap@[e2].0;
                    let line = #[trigger] cmap@[e2].1@[k];
                    (key == c && line == l) || cmap_has(pre, key, line)
                } by {
                    if e2 == e {
                        if k < pre[e as int].1@.len() {
                            assert(cmap@[e2].1@[k] == pre[e as int].1@[k]);
                            assert(cmap_has(pre, cmap@[e2].0, cmap@[e2].1@[k]));
                        } else {
                            assert(cmap@[e2].1@[k] == l);
                        }
                    } else {
                        assert(cmap@[e2] == pre[e2]);
                        assert(cmap_has(pre, cmap@[e2].0, cmap@[e2].1@[k]));
                    }
                }
                assert forall|key: TextCoordinate, line: DirectedLine|
                    #[trigger] cmap_has(pre, key, line) implies cmap_has(cmap@, key, line) by {
                    let (e2, k) = choose|e2: int, k: int|
                        0 <= e2 < pre.len() && 0 <= k < pre[e2].1@.len() && pre[e2].0 == key
                            && #[trigger] pre[e2].1@[k] == line;
                    if e2 == e {
                        assert(cmap@[e2].0 == key && cmap@[e2].1@[k] == line);
                    } else {
                        assert(cmap@[e2] == pre[e2]);
                        assert(cmap@[e2].0 == key && cmap@[e2].1@[k] == line);
                    }
                }
                assert forall|e1: int, e2: int|
                    cmap_keys_unique(pre) && 0 <= e1 < e2 < cmap@.len() implies (
                #[trigger] cmap@[e1]).0 != (#[trigger] cmap@[e2]).0 by {
                    assert(cmap@[e1].0 == pre[e1].0);
                    assert(cmap@[e2].0 == pre[e2].0);
                }
            }
            return ;
        }
        e = e + 1;
    }
    let ghost pre = cmap@;
    let mut lv: Vec<DirectedLine> = Vec::new();
    lv.push(l);
    cmap.push((c, lv));
    proof {
        assert(cmap@[cmap@.len() - 1].0 == c && cmap@[cmap@.len() - 1].1@[0] == l);
        assert(cmap_has(cmap@, c, l));
        assert forall|e2: int, k: int|
            0 <= e2 < cmap@.len() && 0 <= k < cmap@[e2].1@.len() implies {
            let key = cmap@[e2].0;
            let line = #[trigger] cmap@[e2].1@[k];
            (key == c && line == l) || cmap_has(pre, key, line)
        } by {
            if e2 < pre.len() {
                assert(cmap@[e2] == pre[e2]);
                assert(cmap_has(pre, cmap@[e2].0, cmap@[e2].1@[k]));
            } else {
                assert(cmap@[e2].1@[k] == l);
            }
        }
        assert forall|key: TextCoordinate, line: DirectedLine|
            #[trigger] cmap_has(pre, key, line) implies cmap_has(cmap@, key, line) by {
            let (e2, k) = choose|e2: int, k: int|
                0 <= e2 < pre.len() && 0 <= k < pre[e2].1@.len() && pre[e2].0 == key
                    && #[trigger] pre[e2].1@[k] == line;
            assert(cmap@[e2] == pre[e2]);
            assert(cmap@[e2].0 == key && cmap@[e2].1@[k] == line);
        }
        assert forall|e1: int, e2: int|
            cmap_keys_unique(pre) && 0 <= e1 < e2 < cmap@.len() implies (
        #[trigger] cmap@[e1]).0 != (#[trigger] cmap@[e2]).0 by {
            if e2 < pre.len() {
                assert(cmap@[e1].0 == pre[e1].0);
                assert(cmap@[e2].0 == pre[e2].0);
            } else {
                assert(cmap@[e2].0 == c);
                assert(cmap@[e1].0 == pre[e1].0);
                assert(pre[e1].0 != c);
            }
        }
    }
}

/// The index of `c` in the corner map, if present.
fn cmap_find(cmap: &Vec<(TextCoordinate, Vec<DirectedLine>)>, c: TextCoordinate) -> (r: Option<
    usize,
>)
    ensures
        match r {
            Some(e) => e < cmap@.len() && cmap@[e as int].0 == c,
            None => forall|e: int| 0 <= e < cmap@.len() ==> (#[trigger] cmap@[e]).0 != c,
        },
{
    let n = cmap.len();
    let mut e: usize = 0;
    while e < n
        invariant
            n == cmap@.len(),
            e <= n,
            forall|e2: int| 0 <= e2 < e ==> (#[trigger] cmap@[e2]).0 != c,
        decreases n - e,
    {
        if cmap[e].0 == c {
            return Some(e);
        }
        e = e + 1;
    }
    None
}

/// The first horizontal line in the list, if any.
fn find_horiz(lines: &Vec<DirectedLine>) -> (r: Option<LineSegment>)
    ensures
        match r {
            Some(hl) => lines@.contains(DirectedLine::Horiz(hl)),
            None => forall|k: int| 0 <= k < lines@.len() ==> !((#[trigger] lines@[k]) is Horiz),
        },
{
    let n = lines.len();
    let mut k: usize = 0;
    while k < n
        invariant
            n == lines@.len(),
            k <= n,
            forall|k2: int| 0 <= k2 < k ==> !((#[trigger] lines@[k2]) is Horiz),
        decreases n - k,
    {
        if let DirectedLine::Horiz(s) = lines[k] {
            proof {
                assert(lines@[k as int] == DirectedLine::Horiz(s));
            }
            return Some(s);
        }
        k = k + 1;
    }
    None
}

/// The first vertical line in the list, if any.
fn find_vert(lines: &Vec<DirectedLine>) -> (r: Option<LineSegment>)
    ensures
        match r {
            Some(vl) => lines@.contains(DirectedLine::Vert(vl)),
            None => forall|k: int| 0 <= k < lines@.len() ==> !((#[trigger] lines@[k]) is Vert),
        },
{
    let n = lines.len();
    let mut k: usize = 0;
    while k < n
        invariant
            n == lines@.len(),
            k <= n,
            forall|k2: int| 0 <= k2 < k ==> !((#[trigger] lines@[k2]) is Vert),
        decreases n - k,
    {
        if let DirectedLine::Vert(s) = lines[k] {
            proof {
                assert(lines@[k as int] == DirectedLine::Vert(s));
            }
            return Some(s);
        }
        k = k + 1;
    }
    None
}

/// Whether the list holds this exact line.
fn lines_contain(lines: &Vec<DirectedLine>, l: DirectedLine) -> (r: bool)
    ensures
        r == lines@.contains(l),
{
    let n = lines.len();
    let mut k: usize = 0;
    while k < n
        invariant
            n == lines@.len(),
            k <= n,
            forall|k2: int| 0 <= k2 < k ==> (#[trigger] lines@[k2]) != l,
        decreases n - k,
    {
        if lines[k] == l {
            proof {
                assert(lines@[k as int] == l);
            }
            return true;
        }
        k = k + 1;
    }
    false
}

/// Whether the cell holds anything.
fn cell_occupied(tb: &TextBuffer, c: TextCoordinate) -> (r: bool)
    requires
        tb.wf(),
    ensures
        r == (tb.cell(c.x as int, c.y as int) is Some),
{
    match tb.get(c) {
        Some(_) => true,
        None => false,
    }
}

/// Whether the cell holds the corner glyph.
fn cell_is_corner(tb: &TextBuffer, c: TextCoordinate) -> (r: bool)
    requires
        tb.wf(),
    ensures
        r == (tb.cell(c.x as int, c.y as int) == Some('+')),
{
    match tb.get(c) {
        Some(ch) => ch == '+',
        None => false,
    }
}

/// Whether the rectangle is already among those found.
fn rects_contain(ret: &Vec<Rectangle>, rc: Rectangle) -> (r: bool)
    ensures
        r == ret@.contains(rc),
{
    let n = ret.len();
    let mut i: usize = 0;
    while i < n
        invariant
            n == ret@.len(),
            i <= n,
            forall|j: int| 0 <= j < i ==> (#[trigger] ret@[j]) != rc,
        decreases n - i,
    {
        if ret[i] == rc {
            proof {
                assert(ret@[i as int] == rc);
            }
            return true;
        }
        i = i + 1;
    }
    false
}

/// An insertion into a sound corner map of one properly registered line
/// keeps the map sound.
proof fn lemma_cmap_sound_insert(
    pre: Seq<(TextCoordinate, Vec<DirectedLine>)>,
    post: Seq<(TextCoordinate, Vec<DirectedLine>)>,
    tb: TextBuffer,
    h: Seq<LineSegment>,
    v: Seq<LineSegment>,
    c: TextCoordinate,
    l: DirectedLine,
)
    requires
        cmap_sound(pre, tb, h, v),
        entry_ok(tb, h, v, c, l),
        forall|e: int, k: int|
            0 <= e < post.len() && 0 <= k < post[e].1@.len() ==> {
                let key = post[e].0;
                let line = #[trigger] post[e].1@[k];
                (key == c && line == l) || cmap_has(pre, key, line)
            },
    ensures
        cmap_sound(post, tb, h, v),
{
    assert forall|e: int, k: int|
        0 <= e < post.len() && 0 <= k < post[e].1@.len() implies entry_ok(
        tb,
        h,
        v,
        post[e].0,
        #[trigger] post[e].1@[k],
    ) by {
        let key = post[e].0;
        let line = post[e].1@[k];
        if !(key == c && line == l) {
            assert(cmap_has(pre, key, line));
            let (e2, k2) = choose|e2: int, k2: int|
                0 <= e2 < pre.len() && 0 <= k2 < pre[e2].1@.len() && pre[e2].0 == key && #[trigger] pre[e2].1@[k2] == line;
            assert(entry_ok(tb, h, v, pre[e2].0, pre[e2].1@[k2]));
        }
    }
}

/// Detect the validated rectangles of the grid, using the raw horizontal
/// and vertical segments.  Sound: each returned rectangle is normalized,
/// proper, `+`-cornered with blank cells just beyond each corner, and its
/// four edges are registered at its corners; no rectangle repeats.
/// Complete for clean corners: every valid rectangle whose four corners
/// carry only its own edges is returned — each corner contributes one
/// candidate, built from the first horizontal and first vertical line
/// registered there, and at such corners those are the box's own edges.
#[verifier::rlimit(100)]
pub fn get_rectangles(tb: &TextBuffer) -> (ret: Vec<Rectangle>)
    requires
        tb.wf(),
    ensures
        forall|i: int|
            0 <= i < ret@.len() ==> rect_detected_valid(
                #[trigger] ret@[i],
                *tb,
                raw_horizontal_segments(*tb),
                raw_vertical_segments(*tb),
            ),
        forall|i: int, j: int| 0 <= i < j < ret@.len() ==> ret@[i] != ret@[j],
        forall|rc: Rectangle|
            #[trigger] rect_detected_valid(
                rc,
                *tb,
                raw_horizontal_segments(*tb),
                raw_vertical_segments(*tb),
            ) && only_box_lines_at_corners(
                rc,
                raw_horizontal_segments(*tb),
                raw_vertical_segments(*tb),
            ) ==> ret@.contains(rc),
{
    let ghost h = raw_horizontal_segments(*tb);
    let ghost v = raw_vertical_segments(*tb);
    let ghost cols = tb.spec_cols() as int;
    let ghost rows = tb.spec_rows() as int;
    let horz_segments = get_horizontal_line_segments(tb);
    let vert_segments = get_vertical_line_segments(tb);
    proof {
        assert(rows * cols >= 0) by (nonlinear_arith)
            requires
                rows >= 0,
                cols >= 0,
        ;
        tb.lemma_row_major_in_dims();
        tb.lemma_col_major_in_dims();
        assert forall|k: int|
            0 <= k < tb.row_major_cells().len() implies coord_within(
            (#[trigger] tb.row_major_cells()[k]).0,
            cols,
            rows,
        ) by {}
        assert forall|k: int|
            0 <= k < tb.col_major_cells().len() implies coord_within(
            (#[trigger] tb.col_major_cells()[k]).0,
            cols,
            rows,
        ) by {}
        lemma_classified_within(Kind::Horiz, tb.row_major_cells(), cols, rows);
        lemma_classified_within(Kind::Vert, tb.col_major_cells(), cols, rows);
        lemma_scan_segments_wf(
            Kind::Horiz,
            classified_cells(Kind::Horiz, tb.row_major_cells()),
            cols,
            rows,
        );
        lemma_scan_segments_wf(
            Kind::Vert,
            classified_cells(Kind::Vert, tb.col_major_cells()),
            cols,
            rows,
        );
    }
    let mut cmap: Vec<(TextCoordinate, Vec<DirectedLine>)> = Vec::new();
    let nh = horz_segments.len();
    let mut i: usize = 0;
    while i < nh
        invariant
            tb.wf(),
            h == raw_horizontal_segments(*tb),
            v == raw_vertical_segments(*tb),
            cols == tb.spec_cols() as int,
            rows == tb.spec_rows() as int,
            horz_segments@ == h,
            nh == h.len(),
            i <= nh,
            forall|k: int|
                0 <= k < h.len() ==> axis_seg_wf(Kind::Horiz, #[trigger] h[k]) && h[k].spec_len()
                    >= 1 && coord_within(h[k].start, cols, rows) && coord_within(
                    h[k].end,
                    cols,
                    rows,
                ),
            cmap_sound(cmap@, *tb, h, v),
            cmap_keys_unique(cmap@),
            forall|j: int|
                0 <= j < i ==> cmap_has(cmap@, (#[trigger] h[j]).start, spec_mk_horiz(h[j]))
                    && cmap_has(cmap@, h[j].end, spec_mk_horiz(h[j])),
        decreases nh - i,
    {
        let ls = horz_segments[i];
        let dl = mk_horiz(ls);
        proof {
            assert(axis_seg_wf(Kind::Horiz, h[i as int]));
            assert(entry_ok(*tb, h, v, ls.start, dl) && entry_ok(*tb, h, v, ls.end, dl)) by {
                assert(h[i as int] == ls && (h[i as int].start == ls.start || h[i as int].end
                    == ls.start) && spec_mk_horiz(h[i as int]) == dl);
                assert(line_at_corner_h(h, ls.start, dl));
                assert(line_at_corner_h(h, ls.end, dl));
            }
        }
        let ghost pre1 = cmap@;
        cmap_insert(&mut cmap, ls.start, dl);
        proof {
            lemma_cmap_sound_insert(pre1, cmap@, *tb, h, v, ls.start, dl);
        }
        let ghost pre2 = cmap@;
        cmap_insert(&mut cmap, ls.end, dl);
        proof {
            lemma_cmap_sound_insert(pre2, cmap@, *tb, h, v, ls.end, dl);
        }
        i = i + 1;
    }
    let nv = vert_segments.len();
    let mut i2: usize = 0;
    while i2 < nv
        invariant
            tb.wf(),
            h == raw_horizontal_segments(*tb),
            v == raw_vertical_segments(*tb),
            cols == tb.spec_cols() as int,
            rows == tb.spec_rows() as int,
            vert_segments@ == v,
            nv == v.len(),
            i2 <= nv,
            forall|k: int|
                0 <= k < v.len() ==> axis_seg_wf(Kind::Vert, #[trigger] v[k]) && v[k].spec_len()
                    >= 1 && coord_within(v[k].start, cols, rows) && coord_within(
                    v[k].end,
                    cols,
                    rows,
                ),
            cmap_sound(cmap@, *tb, h, v),
            cmap_keys_unique(cmap@),
            forall|j: int|
                0 <= j < h.len() ==> cmap_has(cmap@, (#[trigger] h[j]).start, spec_mk_horiz(h[j]))
                    && cmap_has(cmap@, h[j].end, spec_mk_horiz(h[j])),
            forall|j: int|
                0 <= j < i2 ==> cmap_has(cmap@, (#[trigger] v[j]).start, spec_mk_vert(v[j]))
                    && cmap_has(cmap@, v[j].end, spec_mk_vert(v[j])),
        decreases nv - i2,
    {
        let ls = vert_segments[i2];
        let dl = mk_vert(ls);
        proof {
            assert(axis_seg_wf(Kind::Vert, v[i2 as int]));
            assert(entry_ok(*tb, h, v, ls.start, dl) && entry_ok(*tb, h, v, ls.end, dl)) by {
                assert(v[i2 as int] == ls && (v[i2 as int].start == ls.start || v[i2 as int].end
                    == ls.start) && spec_mk_vert(v[i2 as int]) == dl);
                assert(line_at_corner_v(v, ls.start, dl));
                assert(line_at_corner_v(v, ls.end, dl));
            }
        }
        let ghost pre1 = cmap@;
        cmap_insert(&mut cmap, ls.start, dl);
        proof {
            lemma_cmap_sound_insert(pre1, cmap@, *tb, h, v, ls.start, dl);
        }
        let ghost pre2 = cmap@;
        cmap_insert(&mut cmap, ls.end, dl);
        proof {
            lemma_cmap_sound_insert(pre2, cmap@, *tb, h, v, ls.end, dl);
        }
        i2 = i2 + 1;
    }
    let mut ret: Vec<Rectangle> = Vec::new();
    let ne = cmap.len();
    let mut e: usize = 0;
    while e < ne
        invariant
            tb.wf(),
            h == raw_horizontal_segments(*tb),
            v == raw_vertical_segments(*tb),
            ne == cmap@.len(),
            e <= ne,
            cmap_sound(cmap@, *tb, h, v),
            cmap_complete(cmap@, h, v),
            cmap_keys_unique(cmap@),
            forall|i3: int|
                0 <= i3 < ret@.len() ==> rect_detected_valid(#[trigger] ret@[i3], *tb, h, v),
            forall|i3: int, j3: int| 0 <= i3 < j3 < ret@.len() ==> ret@[i3] != ret@[j3],
            forall|rc: Rectangle|
                #[trigger] rect_detected_valid(rc, *tb, h, v) && only_box_lines_at_corners(
                    rc,
                    h,
                    v,
                ) && key_before(cmap@, e as int, rc.corner_1) ==> ret@.contains(rc),
        decreases ne - e,
    {
        let ghost ret_pre = ret@;
        detect_at_corner(tb, &cmap, &mut ret, e);
        proof {
            assert forall|rc: Rectangle|
                #[trigger] rect_detected_valid(rc, *tb, h, v) && only_box_lines_at_corners(
                    rc,
                    h,
                    v,
                ) && key_before(cmap@, e as int + 1, rc.corner_1) implies ret@.contains(rc) by {
                let e2 = choose|e2: int| 0 <= e2 < e as int + 1 && (#[trigger] cmap@[e2]).0
                    == rc.corner_1;
                if e2 < e as int {
                    assert(key_before(cmap@, e as int, rc.corner_1));
                    assert(ret_pre.contains(rc));
                } else {
                    assert(cmap@[e as int].0 == rc.corner_1);
                }
            }
        }
        e = e + 1;
    }
    proof {
        assert forall|rc: Rectangle|
            #[trigger] rect_detected_valid(rc, *tb, h, v) && only_box_lines_at_corners(rc, h, v)
            implies ret@.contains(rc) by {
            // The top edge is registered at the top-left corner, so that
            // corner is one of the map's keys.
            let tl = rc.corner_1;
            let tr = TextCoordinate { x: rc.corner_2.x, y: rc.corner_1.y };
            let top = DirectedLine::Horiz(LineSegment { start: tl, end: tr });
            assert(line_at_corner_h(h, tl, top));
            let it = choose|it: int|
                0 <= it < h.len() && ((#[trigger] h[it]).start == tl || h[it].end == tl)
                    && spec_mk_horiz(h[it]) == top;
            assert(cmap_has(cmap@, tl, top));
            let (e2, k2) = choose|e2: int, k2: int|
                0 <= e2 < cmap@.len() && 0 <= k2 < cmap@[e2].1@.len() && cmap@[e2].0 == tl
                    && #[trigger] cmap@[e2].1@[k2] == top;
            assert(key_before(cmap@, ne as int, rc.corner_1));
        }
    }
    ret
}

/// Work through one corner of the map: take the first horizontal and first
/// vertical line registered there, build the opposite corner, and keep the
/// candidate when every validation passes.  Besides soundness, this settles
/// completeness for this corner: any valid rectangle whose corners carry
/// only their own edges, with this corner as its top-left, is in the result
/// afterwards.
#[verifier::rlimit(100)]
fn detect_at_corner(
    tb: &TextBuffer,
    cmap: &Vec<(TextCoordinate, Vec<DirectedLine>)>,
    ret: &mut Vec<Rectangle>,
    e: usize,
)
    requires
        tb.wf(),
        e < cmap@.len(),
        cmap_sound(cmap@, *tb, raw_horizontal_segments(*tb), raw_vertical_segments(*tb)),
        cmap_complete(cmap@, raw_horizontal_segments(*tb), raw_vertical_segments(*tb)),
        cmap_keys_unique(cmap@),
        forall|i3: int|
            0 <= i3 < old(ret)@.len() ==> rect_detected_valid(
                #[trigger] old(ret)@[i3],
                *tb,
                raw_horizontal_segments(*tb),
                raw_vertical_segments(*tb),
            ),
        forall|i3: int, j3: int| 0 <= i3 < j3 < old(ret)@.len() ==> old(ret)@[i3] != old(ret)@[j3],
    ensures
        forall|i3: int|
            0 <= i3 < final(ret)@.len() ==> rect_detected_valid(
                #[trigger] final(ret)@[i3],
                *tb,
                raw_horizontal_segments(*tb),
                raw_vertical_segments(*tb),
            ),
        forall|i3: int, j3: int|
            0 <= i3 < j3 < final(ret)@.len() ==> final(ret)@[i3] != final(ret)@[j3],
        forall|x: Rectangle| old(ret)@.contains(x) ==> final(ret)@.contains(x),
        forall|rc: Rectangle|
            #[trigger] rect_detected_valid(
                rc,
                *tb,
                raw_horizontal_segments(*tb),
                raw_vertical_segments(*tb),
            ) && only_box_lines_at_corners(
                rc,
                raw_horizontal_segments(*tb),
                raw_vertical_segments(*tb),
            ) && rc.corner_1 == cmap@[e as int].0 ==> final(ret)@.contains(rc),
{
    let ghost h = raw_horizontal_segments(*tb);
    let ghost v = raw_vertical_segments(*tb);
    let corner_1 = cmap[e].0;
    let lines_e = cmap[e].1.clone();
    proof {
        assert(lines_e@ == cmap@[e as int].1@);
    }
    let horiz = match find_horiz(&lines_e) {
        Some(x) => x,
        None => {
            proof {
                assert forall|rc: Rectangle|
                    #[trigger] rect_detected_valid(rc, *tb, h, v) && only_box_lines_at_corners(
                        rc,
                        h,
                        v,
                    ) && rc.corner_1 == cmap@[e as int].0 implies ret@.contains(rc) by {
                    lemma_box_entry_lines(cmap@, *tb, rc, e as int);
                    let tr = TextCoordinate { x: rc.corner_2.x, y: rc.corner_1.y };
                    let top = DirectedLine::Horiz(LineSegment { start: rc.corner_1, end: tr });
                    let kt = choose|kt: int|
                        0 <= kt < lines_e@.len() && #[trigger] lines_e@[kt] == top;
                    assert(false);
                }
            }
            return ;
        },
    };
    let vert = match find_vert(&lines_e) {
        Some(x) => x,
        None => {
            proof {
                assert forall|rc: Rectangle|
                    #[trigger] rect_detected_valid(rc, *tb, h, v) && only_box_lines_at_corners(
                        rc,
                        h,
                        v,
                    ) && rc.corner_1 == cmap@[e as int].0 implies ret@.contains(rc) by {
                    lemma_box_entry_lines(cmap@, *tb, rc, e as int);
                    let bl = TextCoordinate { x: rc.corner_1.x, y: rc.corner_2.y };
                    let left = DirectedLine::Vert(LineSegment { start: rc.corner_1, end: bl });
                    let kl = choose|kl: int|
                        0 <= kl < lines_e@.len() && #[trigger] lines_e@[kl] == left;
                    assert(false);
                }
            }
            return ;
        },
    };
    proof {
        let kh = choose|kh: int|
            0 <= kh < lines_e@.len() && lines_e@[kh] == DirectedLine::Horiz(horiz);
        assert(entry_ok(*tb, h, v, corner_1, cmap@[e as int].1@[kh]));
        let kv = choose|kv: int|
            0 <= kv < lines_e@.len() && lines_e@[kv] == DirectedLine::Vert(vert);
        assert(entry_ok(*tb, h, v, corner_1, cmap@[e as int].1@[kv]));
    }
    let opposite_x = if horiz.start.x == corner_1.x {
        horiz.end.x
    } else {
        horiz.start.x
    };
    let opposite_y = if vert.start.y == corner_1.y {
        vert.end.y
    } else {
        vert.start.y
    };
    let corner_2 = TextCoordinate { x: opposite_x, y: opposite_y };
    // Under the completeness premise the found lines are the box's own top
    // and left edges, so the opposite corner is the box's bottom-right one.
    proof {
        assert forall|rc: Rectangle|
            #[trigger] rect_detected_valid(rc, *tb, h, v) && only_box_lines_at_corners(rc, h, v)
                && rc.corner_1 == cmap@[e as int].0 implies horiz == (LineSegment {
            start: rc.corner_1,
            end: TextCoordinate { x: rc.corner_2.x, y: rc.corner_1.y },
        }) && vert == (LineSegment {
            start: rc.corner_1,
            end: TextCoordinate { x: rc.corner_1.x, y: rc.corner_2.y },
        }) && corner_2 == rc.corner_2 by {
            lemma_box_entry_lines(cmap@, *tb, rc, e as int);
            let kh = choose|kh: int|
                0 <= kh < lines_e@.len() && #[trigger] lines_e@[kh] == DirectedLine::Horiz(horiz);
            let kv = choose|kv: int|
                0 <= kv < lines_e@.len() && #[trigger] lines_e@[kv] == DirectedLine::Vert(vert);
        }
    }
    match cmap_find(cmap, corner_2) {
        Some(_) => {},
        None => {
            proof {
                assert forall|rc: Rectangle|
                    #[trigger] rect_detected_valid(rc, *tb, h, v) && only_box_lines_at_corners(
                        rc,
                        h,
                        v,
                    ) && rc.corner_1 == cmap@[e as int].0 implies ret@.contains(rc) by {
                    lemma_box_entry_lines(cmap@, *tb, rc, e as int);
                    let e2 = choose|e2: int|
                        0 <= e2 < cmap@.len() && (#[trigger] cmap@[e2]).0 == rc.corner_2;
                    assert(false);
                }
            }
            return ;
        },
    }
    let candidate = Rectangle { corner_1, corner_2 }.normalize();
    let tl = candidate.left_top();
    let tr = candidate.right_top();
    let bl = candidate.left_bottom();
    let br = candidate.right_bottom();
    proof {
        assert(opposite_x != corner_1.x);
        assert(opposite_y != corner_1.y);
        assert(tl.x < br.x && tl.y < br.y);
        assert(tb.in_dims(tl.x as int, tl.y as int));
        assert(tb.in_dims(br.x as int, br.y as int));
        assert(br.x < u32::MAX && br.y < u32::MAX);
        assert(tr.x < u32::MAX && tr.y < u32::MAX);
        assert(bl.x < u32::MAX && bl.y < u32::MAX);
        // Under the premise the candidate is the box itself.
        assert forall|rc: Rectangle|
            #[trigger] rect_detected_valid(rc, *tb, h, v) && only_box_lines_at_corners(rc, h, v)
                && rc.corner_1 == cmap@[e as int].0 implies candidate == rc && tl == rc.corner_1
            && br == rc.corner_2 && tr == (TextCoordinate { x: rc.corner_2.x, y: rc.corner_1.y })
            && bl == (TextCoordinate { x: rc.corner_1.x, y: rc.corner_2.y }) by {
            lemma_box_entry_lines(cmap@, *tb, rc, e as int);
            let kh = choose|kh: int|
                0 <= kh < lines_e@.len() && #[trigger] lines_e@[kh] == DirectedLine::Horiz(horiz);
            let kv = choose|kv: int|
                0 <= kv < lines_e@.len() && #[trigger] lines_e@[kv] == DirectedLine::Vert(vert);
        }
    }
    let top = mk_horiz(line_segment(tl, tr));
    let right = mk_vert(line_segment(tr, br));
    let left = mk_vert(line_segment(tl, bl));
    let bottom = mk_horiz(line_segment(bl, br));
    let tle = match cmap_find(cmap, tl) {
        Some(x) => x,
        None => {
            proof {
                assert forall|rc: Rectangle|
                    #[trigger] rect_detected_valid(rc, *tb, h, v) && only_box_lines_at_corners(
                        rc,
                        h,
                        v,
                    ) && rc.corner_1 == cmap@[e as int].0 implies ret@.contains(rc) by {
                    lemma_box_entry_lines(cmap@, *tb, rc, e as int);
                    let kh = choose|kh: int|
                        0 <= kh < lines_e@.len() && #[trigger] lines_e@[kh] == DirectedLine::Horiz(
                            horiz,
                        );
                    let kv = choose|kv: int|
                        0 <= kv < lines_e@.len() && #[trigger] lines_e@[kv] == DirectedLine::Vert(
                            vert,
                        );
                    assert(cmap@[e as int].0 == tl);
                    assert(false);
                }
            }
            return ;
        },
    };
    let tl_lines = cmap[tle].1.clone();
    proof {
        assert(tl_lines@ == cmap@[tle as int].1@);
    }
    if !(lines_contain(&tl_lines, top) && lines_contain(&tl_lines, left)) {
        proof {
            assert forall|rc: Rectangle|
                #[trigger] rect_detected_valid(rc, *tb, h, v) && only_box_lines_at_corners(
                    rc,
                    h,
                    v,
                ) && rc.corner_1 == cmap@[e as int].0 implies ret@.contains(rc) by {
                lemma_box_entry_lines(cmap@, *tb, rc, e as int);
                let kh = choose|kh: int|
                    0 <= kh < lines_e@.len() && #[trigger] lines_e@[kh] == DirectedLine::Horiz(
                        horiz,
                    );
                let kv = choose|kv: int|
                    0 <= kv < lines_e@.len() && #[trigger] lines_e@[kv] == DirectedLine::Vert(
                        vert,
                    );
                if tle as int != e as int {
                    assert(cmap@[tle as int].0 != cmap@[e as int].0);
                }
                assert(tle as int == e as int);
                assert(top == DirectedLine::Horiz(
                    LineSegment {
                        start: rc.corner_1,
                        end: TextCoordinate { x: rc.corner_2.x, y: rc.corner_1.y },
                    },
                ));
                assert(left == DirectedLine::Vert(
                    LineSegment {
                        start: rc.corner_1,
                        end: TextCoordinate { x: rc.corner_1.x, y: rc.corner_2.y },
                    },
                ));
                assert(tl_lines@.contains(top));
                assert(tl_lines@.contains(left));
                assert(false);
            }
        }
        return ;
    }
    let bre = match cmap_find(cmap, br) {
        Some(x) => x,
        None => {
            proof {
                assert forall|rc: Rectangle|
                    #[trigger] rect_detected_valid(rc, *tb, h, v) && only_box_lines_at_corners(
                        rc,
                        h,
                        v,
                    ) && rc.corner_1 == cmap@[e as int].0 implies ret@.contains(rc) by {
                    lemma_box_entry_lines(cmap@, *tb, rc, e as int);
                    let kh = choose|kh: int|
                        0 <= kh < lines_e@.len() && #[trigger] lines_e@[kh] == DirectedLine::Horiz(
                            horiz,
                        );
                    let kv = choose|kv: int|
                        0 <= kv < lines_e@.len() && #[trigger] lines_e@[kv] == DirectedLine::Vert(
                            vert,
                        );
                    let e2 = choose|e2: int|
                        0 <= e2 < cmap@.len() && (#[trigger] cmap@[e2]).0 == rc.corner_2;
                    assert(false);
                }
            }
            return ;
        },
    };
    let br_lines = cmap[bre].1.clone();
    proof {
        assert(br_lines@ == cmap@[bre as int].1@);
    }
    if !(lines_contain(&br_lines, bottom) && lines_contain(&br_lines, right)) {
        proof {
            assert forall|rc: Rectangle|
                #[trigger] rect_detected_valid(rc, *tb, h, v) && only_box_lines_at_corners(
                    rc,
                    h,
                    v,
                ) && rc.corner_1 == cmap@[e as int].0 implies ret@.contains(rc) by {
                lemma_box_entry_lines(cmap@, *tb, rc, e as int);
                let kh = choose|kh: int|
                    0 <= kh < lines_e@.len() && #[trigger] lines_e@[kh] == DirectedLine::Horiz(
                        horiz,
                    );
                let kv = choose|kv: int|
                    0 <= kv < lines_e@.len() && #[trigger] lines_e@[kv] == DirectedLine::Vert(
                        vert,
                    );
                assert(cmap@[bre as int].0 == rc.corner_2);
                assert(bottom == DirectedLine::Horiz(
                    LineSegment {
                        start: TextCoordinate { x: rc.corner_1.x, y: rc.corner_2.y },
                        end: rc.corner_2,
                    },
                ));
                assert(right == DirectedLine::Vert(
                    LineSegment {
                        start: TextCoordinate { x: rc.corner_2.x, y: rc.corner_1.y },
                        end: rc.corner_2,
                    },
                ));
                assert(br_lines@.contains(bottom));
                assert(br_lines@.contains(right));
                assert(false);
            }
        }
        return ;
    }
    let blocked = cell_occupied(tb, tl.up()) || cell_occupied(tb, tl.left()) || cell_occupied(
        tb,
        br.down(),
    ) || cell_occupied(tb, br.right()) || cell_occupied(tb, tr.right()) || cell_occupied(
        tb,
        tr.up(),
    ) || cell_occupied(tb, bl.left()) || cell_occupied(tb, bl.down());
    if blocked {
        proof {
            assert forall|rc: Rectangle|
                #[trigger] rect_detected_valid(rc, *tb, h, v) && only_box_lines_at_corners(
                    rc,
                    h,
                    v,
                ) && rc.corner_1 == cmap@[e as int].0 implies ret@.contains(rc) by {
                lemma_box_entry_lines(cmap@, *tb, rc, e as int);
                let kh = choose|kh: int|
                    0 <= kh < lines_e@.len() && #[trigger] lines_e@[kh] == DirectedLine::Horiz(
                        horiz,
                    );
                let kv = choose|kv: int|
                    0 <= kv < lines_e@.len() && #[trigger] lines_e@[kv] == DirectedLine::Vert(
                        vert,
                    );
                assert(false);
            }
        }
        return ;
    }
    if !(cell_is_corner(tb, tl) && cell_is_corner(tb, br) && cell_is_corner(tb, tr)
        && cell_is_corner(tb, bl)) {
        proof {
            assert forall|rc: Rectangle|
                #[trigger] rect_detected_valid(rc, *tb, h, v) && only_box_lines_at_corners(
                    rc,
                    h,
                    v,
                ) && rc.corner_1 == cmap@[e as int].0 implies ret@.contains(rc) by {
                lemma_box_entry_lines(cmap@, *tb, rc, e as int);
                let kh = choose|kh: int|
                    0 <= kh < lines_e@.len() && #[trigger] lines_e@[kh] == DirectedLine::Horiz(
                        horiz,
                    );
                let kv = choose|kv: int|
                    0 <= kv < lines_e@.len() && #[trigger] lines_e@[kv] == DirectedLine::Vert(
                        vert,
                    );
                assert(false);
            }
        }
        return ;
    }
    let found = Rectangle { corner_1: tl, corner_2: br };
    proof {
        // Soundness of the candidate that passed every check.
        let ktop = choose|ktop: int| 0 <= ktop < tl_lines@.len() && tl_lines@[ktop] == top;
        assert(entry_ok(*tb, h, v, cmap@[tle as int].0, cmap@[tle as int].1@[ktop]));
        let kleft = choose|kleft: int| 0 <= kleft < tl_lines@.len() && tl_lines@[kleft] == left;
        assert(entry_ok(*tb, h, v, cmap@[tle as int].0, cmap@[tle as int].1@[kleft]));
        let kbot = choose|kbot: int| 0 <= kbot < br_lines@.len() && br_lines@[kbot] == bottom;
        assert(entry_ok(*tb, h, v, cmap@[bre as int].0, cmap@[bre as int].1@[kbot]));
        let kright = choose|kright: int|
            0 <= kright < br_lines@.len() && br_lines@[kright] == right;
        assert(entry_ok(*tb, h, v, cmap@[bre as int].0, cmap@[bre as int].1@[kright]));
        assert(top == DirectedLine::Horiz(LineSegment { start: tl, end: tr }));
        assert(left == DirectedLine::Vert(LineSegment { start: tl, end: bl }));
        assert(bottom == DirectedLine::Horiz(LineSegment { start: bl, end: br }));
        assert(right == DirectedLine::Vert(LineSegment { start: tr, end: br }));
        assert(rect_detected_valid(found, *tb, h, v));
    }
    if rects_contain(ret, found) {
        proof {
            assert forall|rc: Rectangle|
                #[trigger] rect_detected_valid(rc, *tb, h, v) && only_box_lines_at_corners(
                    rc,
                    h,
                    v,
                ) && rc.corner_1 == cmap@[e as int].0 implies ret@.contains(rc) by {
                lemma_box_entry_lines(cmap@, *tb, rc, e as int);
                let kh = choose|kh: int|
                    0 <= kh < lines_e@.len() && #[trigger] lines_e@[kh] == DirectedLine::Horiz(
                        horiz,
                    );
                let kv = choose|kv: int|
                    0 <= kv < lines_e@.len() && #[trigger] lines_e@[kv] == DirectedLine::Vert(
                        vert,
                    );
                assert(found == rc);
            }
        }
        return ;
    }
    let ghost ret_pre = ret@;
    ret.push(found);
    proof {
        assert forall|i3: int, j3: int|
            0 <= i3 < j3 < ret@.len() implies ret@[i3] != ret@[j3] by {
            if j3 == ret@.len() - 1 {
                assert(ret@[i3] == ret_pre[i3]);
                assert(ret_pre.contains(ret_pre[i3]));
            }
        }
        assert forall|x: Rectangle| ret_pre.contains(x) implies ret@.contains(x) by {
            let i3 = choose|i3: int| 0 <= i3 < ret_pre.len() && ret_pre[i3] == x;
            assert(ret@[i3] == x);
        }
        assert(ret@[ret@.len() - 1] == found);
        assert(ret@.contains(found));
        assert forall|rc: Rectangle|
            #[trigger] rect_detected_valid(rc, *tb, h, v) && only_box_lines_at_corners(rc, h, v)
                && rc.corner_1 == cmap@[e as int].0 implies ret@.contains(rc) by {
            lemma_box_entry_lines(cmap@, *tb, rc, e as int);
            let kh = choose|kh: int|
                0 <= kh < lines_e@.len() && #[trigger] lines_e@[kh] == DirectedLine::Horiz(horiz);
            let kv = choose|kv: int|
                0 <= kv < lines_e@.len() && #[trigger] lines_e@[kv] == DirectedLine::Vert(vert);
            assert(found == rc);
        }
    }
}

} // verus!
