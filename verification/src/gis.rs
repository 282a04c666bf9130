//! Data types for GIS geometry.
//!
//! Coordinates are 64-bit signed integers and the associated data is a
//! plain byte payload; the tree reads nothing of a geometry but its
//! bounding box.

use crate::bbox::{spec_empty, spec_extend, BBox, Pt};
use vstd::prelude::*;

verus! {

/// Winding and extreme-point arithmetic stays exact when every
/// coordinate magnitude is below `2^62`.
pub const COORD_LIMIT: i64 = 0x4000_0000_0000_0000;

/// Every coordinate magnitude is below `COORD_LIMIT`.
pub open spec fn spec_coords_bounded(s: Seq<Pt>) -> bool {
    forall|i: int|
        0 <= i < s.len() ==> -COORD_LIMIT < #[trigger] s[i].x < COORD_LIMIT && -COORD_LIMIT
            < s[i].y < COORD_LIMIT
}

/// The bounding box of a sequence of points.
pub open spec fn spec_pts_bbox(s: Seq<Pt>) -> BBox
    decreases s.len(),
{
    if s.len() == 0 {
        BBox { x_min: i64::MAX, y_min: i64::MAX, x_max: i64::MIN, y_max: i64::MIN }
    } else {
        spec_extend(
            spec_pts_bbox(s.drop_last()),
            BBox { x_min: s.last().x, y_min: s.last().y, x_max: s.last().x, y_max: s.last().y },
        )
    }
}

/// Compute the bounding box of the points in a vector.
pub fn pts_bbox(pts: &Vec<Pt>) -> (r: BBox)
    ensures
        r == spec_pts_bbox(pts@),
{
    let mut bbox = BBox::empty();
    let mut i: usize = 0;
    while i < pts.len()
        invariant
            0 <= i <= pts@.len(),
            bbox == spec_pts_bbox(pts@.take(i as int)),
        decreases pts@.len() - i,
    {
        proof {
            assert(pts@.take(i + 1).drop_last() =~= pts@.take(i as int));
            assert(pts@.take(i + 1).last() == pts@[i as int]);
        }
        let p = pts[i];
        bbox.extend(&BBox { x_min: p.x, y_min: p.y, x_max: p.x, y_max: p.y });
        i = i + 1;
    }
    proof {
        assert(pts@.take(pts@.len() as int) =~= pts@);
    }
    bbox
}

/// GIS geometry which can be stored in an R-tree.
pub trait Gis {
    /// The bounding box, as a specification value.
    spec fn spec_bbox(&self) -> BBox;

    /// The associated data, as a specification value.
    spec fn spec_data(&self) -> Seq<u8>;

    /// Get the bounding box.
    fn bbox(&self) -> (r: BBox)
        ensures
            r == self.spec_bbox(),
    ;

    /// Get the associated data.
    fn data(&self) -> (r: &Vec<u8>)
        ensures
            r@ == self.spec_data(),
    ;
}

/// Point geometry: one or more points, with associated data.
#[derive(Clone, Debug, PartialEq, Eq)]
pub struct Points {
    /// Points in the geometry.
    pub pts: Vec<Pt>,
    /// Associated data.
    pub data: Vec<u8>,
}

impl Points {
    /// Create new point geometry.
    pub fn new(data: Vec<u8>) -> (r: Self)
        ensures
            r.pts@ == Seq::<Pt>::empty(),
            r.data@ == data@,
    {
        Self { pts: Vec::new(), data }
    }

    /// Add a point.
    pub fn push(&mut self, pt: Pt)
        ensures
            final(self).pts@ == old(self).pts@ + seq![pt],
            final(self).data == old(self).data,
    {
        self.pts.push(pt);
    }

    /// Borrow the points.
    pub fn as_points(&self) -> (r: &Vec<Pt>)
        ensures
            r@ == self.pts@,
    {
        &self.pts
    }
}

impl Gis for Points {
    open spec fn spec_bbox(&self) -> BBox {
        spec_pts_bbox(self.pts@)
    }

    open spec fn spec_data(&self) -> Seq<u8> {
        self.data@
    }

    fn bbox(&self) -> (r: BBox) {
        pts_bbox(&self.pts)
    }

    fn data(&self) -> (r: &Vec<u8>) {
        &self.data
    }
}

/// A line string: a chain of points.
#[derive(Clone, Debug, PartialEq, Eq)]
pub struct Linestring {
    /// Points in the line string.
    pub pts: Vec<Pt>,
}

impl Linestring {
    /// Create a new line string.
    pub fn new(pts: Vec<Pt>) -> (r: Self)
        ensures
            r.pts@ == pts@,
    {
        Linestring { pts }
    }

    /// Borrow the points.
    pub fn as_points(&self) -> (r: &Vec<Pt>)
        ensures
            r@ == self.pts@,
    {
        &self.pts
    }
}

/// The bounding box of a sequence of line strings.
pub open spec fn spec_lines_bbox(s: Seq<Linestring>) -> BBox
    decreases s.len(),
{
    if s.len() == 0 {
        BBox { x_min: i64::MAX, y_min: i64::MAX, x_max: i64::MIN, y_max: i64::MIN }
    } else {
        spec_extend(spec_lines_bbox(s.drop_last()), spec_pts_bbox(s.last().pts@))
    }
}

/// Line string geometry: one or more line strings, with associated data.
#[derive(Clone, Debug, PartialEq, Eq)]
pub struct Linestrings {
    /// Line strings in the geometry.
    pub lines: Vec<Linestring>,
    /// Associated data.
    pub data: Vec<u8>,
}

impl Linestrings {
    /// Create new line string geometry.
    pub fn new(data: Vec<u8>) -> (r: Self)
        ensures
            r.lines@ == Seq::<Linestring>::empty(),
            r.data@ == data@,
    {
        Self { lines: Vec::new(), data }
    }

    /// Push a line string.
    pub fn push(&mut self, pts: Vec<Pt>)
        ensures
            final(self).lines@.len() == old(self).lines@.len() + 1,
            final(self).lines@.last().pts@ == pts@,
            final(self).lines@.drop_last() == old(self).lines@,
            final(self).data == old(self).data,
    {
        self.lines.push(Linestring { pts });
        proof {
            assert(self.lines@.drop_last() =~= old(self).lines@);
        }
    }

    /// Borrow the line strings.
    pub fn as_lines(&self) -> (r: &Vec<Linestring>)
        ensures
            r@ == self.lines@,
    {
        &self.lines
    }
}

/// Compute the bounding box over a vector of line strings.
fn lines_bbox(lines: &Vec<Linestring>) -> (r: BBox)
    ensures
        r == spec_lines_bbox(lines@),
{
    let mut bbox = BBox::empty();
    let mut i: usize = 0;
    while i < lines.len()
        invariant
            0 <= i <= lines@.len(),
            bbox == spec_lines_bbox(lines@.take(i as int)),
        decreases lines@.len() - i,
    {
        proof {
            assert(lines@.take(i + 1).drop_last() =~= lines@.take(i as int));
            assert(lines@.take(i + 1).last() == lines@[i as int]);
        }
        let inner = pts_bbox(&lines[i].pts);
        bbox.extend(&inner);
        i = i + 1;
    }
    proof {
        assert(lines@.take(lines@.len() as int) =~= lines@);
    }
    bbox
}

impl Gis for Linestrings {
    open spec fn spec_bbox(&self) -> BBox {
        spec_lines_bbox(self.lines@)
    }

    open spec fn spec_data(&self) -> Seq<u8> {
        self.data@
    }

    fn bbox(&self) -> (r: BBox) {
        lines_bbox(&self.lines)
    }

    fn data(&self) -> (r: &Vec<u8>) {
        &self.data
    }
}

/// A polygon ring: a closed chain of points.
#[derive(Clone, Debug, PartialEq, Eq)]
pub struct Polygon {
    /// Points in the ring.
    pub pts: Vec<Pt>,
}

/// `a` lies strictly before `b` in the order by X, then by Y.
pub open spec fn spec_lex_lt(a: Pt, b: Pt) -> bool {
    a.x < b.x || (a.x == b.x && a.y < b.y)
}

/// `i` is the first index of a lexicographically least point of `s`.
pub open spec fn is_first_extreme(s: Seq<Pt>, i: int) -> bool {
    &&& 0 <= i < s.len()
    &&& forall|j: int| 0 <= j < s.len() ==> !spec_lex_lt(#[trigger] s[j], s[i])
    &&& forall|j: int| 0 <= j < i ==> spec_lex_lt(s[i], #[trigger] s[j])
}

/// The cross product of the two ring edges pointing toward the point at
/// `i`: positive exactly when the ring winds clockwise at `i`.
pub open spec fn spec_cross_at(s: Seq<Pt>, i: int) -> int {
    let len = s.len() as int;
    let a = if i > 0 {
        i - 1
    } else {
        len - 1
    };
    let b = if i < len - 1 {
        i + 1
    } else {
        0
    };
    (s[a].x - s[i].x) * (s[b].y - s[i].y) - (s[a].y - s[i].y) * (s[b].x - s[i].x)
}

impl Polygon {
    /// Create a new ring.
    pub fn new(pts: Vec<Pt>) -> (r: Self)
        ensures
            r.pts@ == pts@,
    {
        Polygon { pts }
    }

    /// Borrow the points.
    pub fn as_points(&self) -> (r: &Vec<Pt>)
        ensures
            r@ == self.pts@,
    {
        &self.pts
    }

    /// Find the first extreme point on the convex hull of the ring: the
    /// least point by X, then by Y.
    pub fn find_extreme_point(&self) -> (r: Option<usize>)
        ensures
            r is None <==> self.pts@.len() == 0,
            r matches Some(i) ==> is_first_extreme(self.pts@, i as int),
    {
        if self.pts.len() == 0 {
            return None;
        }
        let mut best: usize = 0;
        let mut i: usize = 1;
        while i < self.pts.len()
            invariant
                0 <= best < i <= self.pts@.len(),
                forall|j: int| 0 <= j < i ==> !spec_lex_lt(#[trigger] self.pts@[j], self.pts@[best as int]),
                forall|j: int| 0 <= j < best ==> spec_lex_lt(self.pts@[best as int], #[trigger] self.pts@[j]),
            decreases self.pts@.len() - i,
        {
            let p = self.pts[i];
            let b = self.pts[best];
            if p.x < b.x || (p.x == b.x && p.y < b.y) {
                best = i;
            }
            i = i + 1;
        }
        Some(best)
    }

    /// Check if the ring has clockwise winding order.
    pub fn is_clockwise(&self) -> (r: bool)
        requires
            spec_coords_bounded(self.pts@),
        ensures
            self.pts@.len() == 0 ==> r == false,
            forall|i: int| is_first_extreme(self.pts@, i) ==> r == (spec_cross_at(self.pts@, i) > 0),
    {
        match self.find_extreme_point() {
            None => false,
            Some(ext) => {
                let len = self.pts.len();
                let a = if ext > 0 {
                    ext - 1
                } else {
                    len - 1
                };
                let b = if ext < len - 1 {
                    ext + 1
                } else {
                    0
                };
                let pe = self.pts[ext];
                let pa = self.pts[a];
                let pb = self.pts[b];
                let v0x: i128 = pa.x as i128 - pe.x as i128;
                let v0y: i128 = pa.y as i128 - pe.y as i128;
                let v1x: i128 = pb.x as i128 - pe.x as i128;
                let v1y: i128 = pb.y as i128 - pe.y as i128;
                proof {
                    assert(-COORD_LIMIT < self.pts@[a as int].x < COORD_LIMIT);
                    assert(-COORD_LIMIT < self.pts@[b as int].x < COORD_LIMIT);
                    assert(-COORD_LIMIT < self.pts@[ext as int].x < COORD_LIMIT);
                    assert(-0x4000_0000_0000_0000_0000_0000_0000_0000 < v0x * v1y
                        < 0x4000_0000_0000_0000_0000_0000_0000_0000) by (nonlinear_arith)
                        requires
                            -0x8000_0000_0000_0000i128 < v0x < 0x8000_0000_0000_0000i128,
                            -0x8000_0000_0000_0000i128 < v1y < 0x8000_0000_0000_0000i128,
                    ;
                    assert(-0x4000_0000_0000_0000_0000_0000_0000_0000 < v0y * v1x
                        < 0x4000_0000_0000_0000_0000_0000_0000_0000) by (nonlinear_arith)
                        requires
                            -0x8000_0000_0000_0000i128 < v0y < 0x8000_0000_0000_0000i128,
                            -0x8000_0000_0000_0000i128 < v1x < 0x8000_0000_0000_0000i128,
                    ;
                }
                let cross: i128 = v0x * v1y - v0y * v1x;
                proof {
                    assert forall|i: int| is_first_extreme(self.pts@, i) implies i == ext as int by {
                        if i < ext {
                            assert(spec_lex_lt(self.pts@[ext as int], self.pts@[i]));
                        }
                        if i > ext {
                            assert(spec_lex_lt(self.pts@[i as int], self.pts@[ext as int]));
                        }
                    }
                }
                cross > 0
            },
        }
    }
}

/// The bounding box of a sequence of rings.
pub open spec fn spec_rings_bbox(s: Seq<Polygon>) -> BBox
    decreases s.len(),
{
    if s.len() == 0 {
        BBox { x_min: i64::MAX, y_min: i64::MAX, x_max: i64::MIN, y_max: i64::MIN }
    } else {
        spec_extend(spec_rings_bbox(s.drop_last()), spec_pts_bbox(s.last().pts@))
    }
}

/// Polygon geometry: one or more closed rings, with associated data.
/// The winding order determines whether a ring is outer or inner.
#[derive(Clone, Debug, PartialEq, Eq)]
pub struct Polygons {
    /// Rings in the geometry.
    pub rings: Vec<Polygon>,
    /// Associated data.
    pub data: Vec<u8>,
}

/// Reverse a vector of points.
fn reverse_pts(pts: Vec<Pt>) -> (r: Vec<Pt>)
    ensures
        r@ == pts@.reverse(),
{
    let mut r: Vec<Pt> = Vec::new();
    let mut i: usize = pts.len();
    while i > 0
        invariant
            0 <= i <= pts@.len(),
            r@.len() == pts@.len() - i,
            forall|j: int| 0 <= j < r@.len() ==> r@[j] == pts@[pts@.len() - 1 - j],
        decreases i,
    {
        i = i - 1;
        r.push(pts[i]);
    }
    proof {
        assert(r@ =~= pts@.reverse());
    }
    r
}

impl Polygons {
    /// Create new polygon geometry.
    pub fn new(data: Vec<u8>) -> (r: Self)
        ensures
            r.rings@ == Seq::<Polygon>::empty(),
            r.data@ == data@,
    {
        Self { rings: Vec::new(), data }
    }

    /// Push an outer ring: stored clockwise, reversed if needed.
    pub fn push_outer(&mut self, ring: Vec<Pt>)
        requires
            spec_coords_bounded(ring@),
        ensures
            final(self).rings@.len() == old(self).rings@.len() + 1,
            final(self).rings@.drop_last() == old(self).rings@,
            final(self).data == old(self).data,
            ring@.len() == 0 ==> final(self).rings@.last().pts@ == ring@.reverse(),
            forall|i: int|
                is_first_extreme(ring@, i) ==> final(self).rings@.last().pts@ == (
                if spec_cross_at(ring@, i) > 0 {
                    ring@
                } else {
                    ring@.reverse()
                }),
    {
        let r = Polygon { pts: ring };
        if !r.is_clockwise() {
            let rev = reverse_pts(r.pts);
            self.rings.push(Polygon { pts: rev });
        } else {
            self.rings.push(r);
        }
        proof {
            assert(self.rings@.drop_last() =~= old(self).rings@);
        }
    }

    /// Push an inner ring: stored counter-clockwise, reversed if needed.
    pub fn push_inner(&mut self, ring: Vec<Pt>)
        requires
            spec_coords_bounded(ring@),
        ensures
            final(self).rings@.len() == old(self).rings@.len() + 1,
            final(self).rings@.drop_last() == old(self).rings@,
            final(self).data == old(self).data,
            ring@.len() == 0 ==> final(self).rings@.last().pts@ == ring@,
            forall|i: int|
                is_first_extreme(ring@, i) ==> final(self).rings@.last().pts@ == (
                if spec_cross_at(ring@, i) > 0 {
                    ring@.reverse()
                } else {
                    ring@
                }),
    {
        let r = Polygon { pts: ring };
        if r.is_clockwise() {
            let rev = reverse_pts(r.pts);
            self.rings.push(Polygon { pts: rev });
        } else {
            self.rings.push(r);
        }
        proof {
            assert(self.rings@.drop_last() =~= old(self).rings@);
        }
    }

    /// Borrow the rings.
    pub fn as_rings(&self) -> (r: &Vec<Polygon>)
        ensures
            r@ == self.rings@,
    {
        &self.rings
    }
}

/// Compute the bounding box over a vector of rings.
fn rings_bbox(rings: &Vec<Polygon>) -> (r: BBox)
    ensures
        r == spec_rings_bbox(rings@),
{
    let mut bbox = BBox::empty();
    let mut i: usize = 0;
    while i < rings.len()
        invariant
            0 <= i <= rings@.len(),
            bbox == spec_rings_bbox(rings@.take(i as int)),
        decreases rings@.len() - i,
    {
        proof {
            assert(rings@.take(i + 1).drop_last() =~= rings@.take(i as int));
            assert(rings@.take(i + 1).last() == rings@[i as int]);
        }
        let inner = pts_bbox(&rings[i].pts);
        bbox.extend(&inner);
        i = i + 1;
    }
    proof {
        assert(rings@.take(rings@.len() as int) =~= rings@);
    }
    bbox
}

impl Gis for Polygons {
    open spec fn spec_bbox(&self) -> BBox {
        spec_rings_bbox(self.rings@)
    }

    open spec fn spec_data(&self) -> Seq<u8> {
        self.data@
    }

    fn bbox(&self) -> (r: BBox) {
        rings_bbox(&self.rings)
    }

    fn data(&self) -> (r: &Vec<u8>) {
        &self.data
    }
}

/// The mathematical model of a geometry: sequences in place of vectors.
pub enum GeomModel {
    /// Point geometry.
    Point {
        /// The points.
        pts: Seq<Pt>,
        /// The associated data.
        data: Seq<u8>,
    },
    /// Line string geometry.
    Linestring {
        /// The point chains.
        lines: Seq<Seq<Pt>>,
        /// The associated data.
        data: Seq<u8>,
    },
    /// Polygon geometry.
    Polygon {
        /// The rings.
        rings: Seq<Seq<Pt>>,
        /// The associated data.
        data: Seq<u8>,
    },
}

/// The bounding box of a sequence of point chains.
pub open spec fn spec_ptss_bbox(s: Seq<Seq<Pt>>) -> BBox
    decreases s.len(),
{
    if s.len() == 0 {
        BBox { x_min: i64::MAX, y_min: i64::MAX, x_max: i64::MIN, y_max: i64::MIN }
    } else {
        spec_extend(spec_ptss_bbox(s.drop_last()), spec_pts_bbox(s.last()))
    }
}

/// The bounding box of a geometry model.
pub open spec fn spec_model_bbox(g: GeomModel) -> BBox {
    match g {
        GeomModel::Point { pts, .. } => spec_pts_bbox(pts),
        GeomModel::Linestring { lines, .. } => spec_ptss_bbox(lines),
        GeomModel::Polygon { rings, .. } => spec_ptss_bbox(rings),
    }
}

/// The data payload of a geometry model.
pub open spec fn spec_model_data(g: GeomModel) -> Seq<u8> {
    match g {
        GeomModel::Point { data, .. } => data,
        GeomModel::Linestring { data, .. } => data,
        GeomModel::Polygon { data, .. } => data,
    }
}

/// A box fold over wrapped chains equals the fold over their views.
pub proof fn lemma_lines_bbox_model(s: Seq<Linestring>)
    ensures
        spec_lines_bbox(s) == spec_ptss_bbox(s.map_values(|l: Linestring| l.pts@)),
    decreases s.len(),
{
    let m = s.map_values(|l: Linestring| l.pts@);
    if s.len() == 0 {
        assert(m.len() == 0);
    } else {
        lemma_lines_bbox_model(s.drop_last());
        assert(m.drop_last() =~= s.drop_last().map_values(|l: Linestring| l.pts@));
        assert(m.last() == s.last().pts@);
    }
}

/// A box fold over wrapped rings equals the fold over their views.
pub proof fn lemma_rings_bbox_model(s: Seq<Polygon>)
    ensures
        spec_rings_bbox(s) == spec_ptss_bbox(s.map_values(|p: Polygon| p.pts@)),
    decreases s.len(),
{
    let m = s.map_values(|p: Polygon| p.pts@);
    if s.len() == 0 {
        assert(m.len() == 0);
    } else {
        lemma_rings_bbox_model(s.drop_last());
        assert(m.drop_last() =~= s.drop_last().map_values(|p: Polygon| p.pts@));
        assert(m.last() == s.last().pts@);
    }
}

/// Enum of the defined geometries.
#[derive(Clone, Debug, PartialEq, Eq)]
pub enum Geom {
    /// Point geometry.
    Point(Points),
    /// Line string geometry.
    Linestring(Linestrings),
    /// Polygon geometry.
    Polygon(Polygons),
}

impl View for Geom {
    type V = GeomModel;

    open spec fn view(&self) -> GeomModel {
        match self {
            Geom::Point(p) => GeomModel::Point { pts: p.pts@, data: p.data@ },
            Geom::Linestring(ls) => GeomModel::Linestring {
                lines: ls.lines@.map_values(|l: Linestring| l.pts@),
                data: ls.data@,
            },
            Geom::Polygon(pg) => GeomModel::Polygon {
                rings: pg.rings@.map_values(|p: Polygon| p.pts@),
                data: pg.data@,
            },
        }
    }
}

/// A geometry's bounding box is the bounding box of its model.
pub proof fn lemma_geom_bbox_model(g: Geom)
    ensures
        g.spec_bbox() == spec_model_bbox(g@),
        g.spec_data() == spec_model_data(g@),
{
    match g {
        Geom::Point(p) => {},
        Geom::Linestring(ls) => {
            lemma_lines_bbox_model(ls.lines@);
        },
        Geom::Polygon(pg) => {
            lemma_rings_bbox_model(pg.rings@);
        },
    }
}

impl Gis for Geom {
    open spec fn spec_bbox(&self) -> BBox {
        match self {
            Geom::Point(p) => p.spec_bbox(),
            Geom::Linestring(ls) => ls.spec_bbox(),
            Geom::Polygon(pg) => pg.spec_bbox(),
        }
    }

    open spec fn spec_data(&self) -> Seq<u8> {
        match self {
            Geom::Point(p) => p.spec_data(),
            Geom::Linestring(ls) => ls.spec_data(),
            Geom::Polygon(pg) => pg.spec_data(),
        }
    }

    fn bbox(&self) -> (r: BBox) {
        match self {
            Geom::Point(p) => p.bbox(),
            Geom::Linestring(ls) => ls.bbox(),
            Geom::Polygon(pg) => pg.bbox(),
        }
    }

    fn data(&self) -> (r: &Vec<u8>) {
        match self {
            Geom::Point(p) => p.data(),
            Geom::Linestring(ls) => ls.data(),
            Geom::Polygon(pg) => pg.data(),
        }
    }
}

/// Which of nine regions a point occupies relative to a box: inside it,
/// or in one of the eight border regions around it.
#[derive(Clone, Copy, Debug, PartialEq, Eq, Structural)]
pub enum Bounds {
    /// Below the box.
    Below,
    /// Below and left of the box.
    BelowLeft,
    /// Left of the box.
    Left,
    /// Above and left of the box.
    AboveLeft,
    /// Above the box.
    Above,
    /// Above and right of the box.
    AboveRight,
    /// Right of the box.
    Right,
    /// Below and right of the box.
    BelowRight,
    /// Within the box.
    Within,
}

/// The region of `p` relative to `b`.
pub open spec fn spec_check(b: BBox, p: Pt) -> Bounds {
    if p.x < b.x_min {
        if p.y < b.y_min {
            Bounds::BelowLeft
        } else if p.y > b.y_max {
            Bounds::AboveLeft
        } else {
            Bounds::Left
        }
    } else if p.x > b.x_max {
        if p.y < b.y_min {
            Bounds::BelowRight
        } else if p.y > b.y_max {
            Bounds::AboveRight
        } else {
            Bounds::Right
        }
    } else if p.y < b.y_min {
        Bounds::Below
    } else if p.y > b.y_max {
        Bounds::Above
    } else {
        Bounds::Within
    }
}

/// Classify a point against a box.
pub fn check_bounds(b: &BBox, p: Pt) -> (r: Bounds)
    ensures
        r == spec_check(*b, p),
{
    if p.x < b.x_min {
        if p.y < b.y_min {
            Bounds::BelowLeft
        } else if p.y > b.y_max {
            Bounds::AboveLeft
        } else {
            Bounds::Left
        }
    } else if p.x > b.x_max {
        if p.y < b.y_min {
            Bounds::BelowRight
        } else if p.y > b.y_max {
            Bounds::AboveRight
        } else {
            Bounds::Right
        }
    } else if p.y < b.y_min {
        Bounds::Below
    } else if p.y > b.y_max {
        Bounds::Above
    } else {
        Bounds::Within
    }
}

/// Border around a bounding box: which of the eight regions around the
/// box have been seen.
#[derive(Clone, Copy, Debug, PartialEq, Eq, Structural)]
pub struct BoundBorder {
    /// A point below the box was seen.
    pub below: bool,
    /// A point below-left was seen.
    pub below_left: bool,
    /// A point left was seen.
    pub left: bool,
    /// A point above-left was seen.
    pub above_left: bool,
    /// A point above was seen.
    pub above: bool,
    /// A point above-right was seen.
    pub above_right: bool,
    /// A point right was seen.
    pub right: bool,
    /// A point below-right was seen.
    pub below_right: bool,
}

/// The border after marking a region.
pub open spec fn spec_add_bounds(s: BoundBorder, b: Bounds) -> BoundBorder {
    match b {
        Bounds::Below => BoundBorder { below: true, ..s },
        Bounds::BelowLeft => BoundBorder { below_left: true, ..s },
        Bounds::Left => BoundBorder { left: true, ..s },
        Bounds::AboveLeft => BoundBorder { above_left: true, ..s },
        Bounds::Above => BoundBorder { above: true, ..s },
        Bounds::AboveRight => BoundBorder { above_right: true, ..s },
        Bounds::Right => BoundBorder { right: true, ..s },
        Bounds::BelowRight => BoundBorder { below_right: true, ..s },
        Bounds::Within => s,
    }
}

/// No gap of three or more consecutive cardinal and ordinal directions.
pub open spec fn spec_is_surrounding(s: BoundBorder) -> bool {
    &&& (s.below || s.below_left || s.left)
    &&& (s.below_left || s.left || s.above_left)
    &&& (s.left || s.above_left || s.above)
    &&& (s.above_left || s.above || s.above_right)
    &&& (s.above || s.above_right || s.right)
    &&& (s.above_right || s.right || s.below_right)
    &&& (s.right || s.below_right || s.below)
    &&& (s.below_right || s.below || s.below_left)
}

impl Default for BoundBorder {
    /// The border with no region seen.
    fn default() -> (r: Self)
        ensures
            r == (BoundBorder {
                below: false,
                below_left: false,
                left: false,
                above_left: false,
                above: false,
                above_right: false,
                right: false,
                below_right: false,
            }),
    {
        BoundBorder {
            below: false,
            below_left: false,
            left: false,
            above_left: false,
            above: false,
            above_right: false,
            right: false,
            below_right: false,
        }
    }
}

impl BoundBorder {
    /// Mark the region of a bounds check; true exactly when the point
    /// was within the box.
    pub fn add_bounds(&mut self, b: Bounds) -> (r: bool)
        ensures
            r == (b is Within),
            *final(self) == spec_add_bounds(*old(self), b),
    {
        match b {
            Bounds::Below => self.below = true,
            Bounds::BelowLeft => self.below_left = true,
            Bounds::Left => self.left = true,
            Bounds::AboveLeft => self.above_left = true,
            Bounds::Above => self.above = true,
            Bounds::AboveRight => self.above_right = true,
            Bounds::Right => self.right = true,
            Bounds::BelowRight => self.below_right = true,
            Bounds::Within => {
                return true;
            },
        }
        false
    }

    /// Check if the border surrounds the box: there is no gap of three
    /// or more cardinal or ordinal directions.  This can report false
    /// positives, but is far simpler than an exact test.
    pub fn is_surrounding(&self) -> (r: bool)
        ensures
            r == spec_is_surrounding(*self),
    {
        if !(self.below || self.below_left || self.left) {
            return false;
        }
        if !(self.below_left || self.left || self.above_left) {
            return false;
        }
        if !(self.left || self.above_left || self.above) {
            return false;
        }
        if !(self.above_left || self.above || self.above_right) {
            return false;
        }
        if !(self.above || self.above_right || self.right) {
            return false;
        }
        if !(self.above_right || self.right || self.below_right) {
            return false;
        }
        if !(self.right || self.below_right || self.below) {
            return false;
        }
        if !(self.below_right || self.below || self.below_left) {
            return false;
        }
        true
    }
}

} // verus!
