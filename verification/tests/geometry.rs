//! Tests for the geometry types, winding order, bounds checks and the
//! payload codec.

use rosewood::bbox::{BBox, Pt};
use rosewood::codec::{dec_geom, dec_node, dec_root, enc_geom, enc_node, enc_root};
use rosewood::common::Id;
use rosewood::gis::{
    check_bounds, BoundBorder, Bounds, Geom, Gis, Linestrings, Points, Polygon, Polygons,
};
use rosewood::node::{Entry, Node, Root};

fn pt(x: i64, y: i64) -> Pt {
    Pt::new(x, y)
}

#[test]
fn geometry_clockwise() {
    let ring = Polygon::new(vec![pt(0, 0), pt(1, 0), pt(0, 1)]);
    assert_eq!(false, ring.is_clockwise());
    let ring = Polygon::new(vec![pt(0, 0), pt(0, 1), pt(1, 0)]);
    assert_eq!(true, ring.is_clockwise());
}

#[test]
fn gis_clockwise() {
    let ring = Polygon::new(vec![pt(0, 0), pt(1, 0), pt(0, 1)]);
    assert_eq!(false, ring.is_clockwise());
    let ring = Polygon::new(vec![pt(0, 0), pt(0, 1), pt(1, 0)]);
    assert_eq!(true, ring.is_clockwise());
}

#[test]
fn extreme_point_is_first_least() {
    let ring = Polygon::new(vec![pt(5, 5), pt(0, 3), pt(0, 1), pt(2, 0), pt(0, 1)]);
    assert_eq!(ring.find_extreme_point(), Some(2));
    let empty = Polygon::new(Vec::new());
    assert_eq!(empty.find_extreme_point(), None);
}

#[test]
fn outer_ring_is_stored_clockwise() {
    let mut pg = Polygons::new(b"area".to_vec());
    pg.push_outer(vec![pt(0, 0), pt(1, 0), pt(0, 1)]);
    assert!(pg.as_rings()[0].is_clockwise());
    pg.push_inner(vec![pt(0, 0), pt(0, 1), pt(1, 0)]);
    assert!(!pg.as_rings()[1].is_clockwise());
}

#[test]
fn bbox_operations() {
    let a = BBox::new(pt(0, 0), pt(4, 2));
    let b = BBox::new(pt(3, 1), pt(9, 9));
    let c = BBox::new(pt(5, 5), pt(6, 6));
    assert!(a.bounded_by(&b));
    assert!(b.bounded_by(&a));
    assert!(!a.bounded_by(&c));
    let mut u = BBox::empty();
    assert!(!u.bounded_by(&a));
    u.extend(&a);
    u.extend(&c);
    assert_eq!(u, BBox { x_min: 0, y_min: 0, x_max: 6, y_max: 6 });
}

#[test]
fn points_bbox_is_hull() {
    let mut p = Points::new(b"p".to_vec());
    p.push(pt(3, -1));
    p.push(pt(-2, 7));
    p.push(pt(0, 0));
    assert_eq!(p.bbox(), BBox { x_min: -2, y_min: -1, x_max: 3, y_max: 7 });
    assert_eq!(p.data(), &b"p".to_vec());
}

#[test]
fn bounds_nine_regions() {
    let b = BBox::new(pt(0, 0), pt(10, 10));
    assert_eq!(check_bounds(&b, pt(5, 5)), Bounds::Within);
    assert_eq!(check_bounds(&b, pt(-1, 5)), Bounds::Left);
    assert_eq!(check_bounds(&b, pt(11, 5)), Bounds::Right);
    assert_eq!(check_bounds(&b, pt(5, -1)), Bounds::Below);
    assert_eq!(check_bounds(&b, pt(5, 11)), Bounds::Above);
    assert_eq!(check_bounds(&b, pt(-1, -1)), Bounds::BelowLeft);
    assert_eq!(check_bounds(&b, pt(-1, 11)), Bounds::AboveLeft);
    assert_eq!(check_bounds(&b, pt(11, -1)), Bounds::BelowRight);
    assert_eq!(check_bounds(&b, pt(11, 11)), Bounds::AboveRight);
}

#[test]
fn border_surrounding() {
    let mut border = BoundBorder::default();
    assert!(!border.is_surrounding());
    let hit = border.add_bounds(Bounds::Within);
    assert!(hit);
    // the four ordinal corners leave no gap of three directions
    assert!(!border.add_bounds(Bounds::BelowLeft));
    assert!(!border.add_bounds(Bounds::AboveLeft));
    assert!(!border.add_bounds(Bounds::AboveRight));
    assert!(!border.add_bounds(Bounds::BelowRight));
    assert!(border.is_surrounding());
    // only three cardinal sides leave a gap
    let mut part = BoundBorder::default();
    part.add_bounds(Bounds::Below);
    part.add_bounds(Bounds::Left);
    part.add_bounds(Bounds::Above);
    assert!(!part.is_surrounding());
}

#[test]
fn geom_codec_roundtrip_points() {
    let mut p = Points::new(b"label".to_vec());
    p.push(pt(1, 2));
    p.push(pt(-3, 4));
    let g = Geom::Point(p);
    let bytes = enc_geom(&g);
    assert_eq!(dec_geom(&bytes), Some(g));
}

#[test]
fn geom_codec_roundtrip_linestrings() {
    let mut ls = Linestrings::new(Vec::new());
    ls.push(vec![pt(0, 0), pt(5, 5)]);
    ls.push(vec![pt(9, 9)]);
    let g = Geom::Linestring(ls);
    let bytes = enc_geom(&g);
    assert_eq!(dec_geom(&bytes), Some(g));
}

#[test]
fn geom_codec_roundtrip_polygons() {
    let mut pg = Polygons::new(b"ring".to_vec());
    pg.push_outer(vec![pt(0, 0), pt(4, 0), pt(4, 4), pt(0, 4)]);
    let g = Geom::Polygon(pg);
    let bytes = enc_geom(&g);
    assert_eq!(dec_geom(&bytes), Some(g));
}

#[test]
fn geom_codec_rejects_junk() {
    assert_eq!(dec_geom(&Vec::new()), None);
    assert_eq!(dec_geom(&vec![9, 9, 9]), None);
    // a valid encoding with a trailing byte is refused
    let g = Geom::Point(Points::new(Vec::new()));
    let mut bytes = enc_geom(&g);
    bytes.push(0);
    assert_eq!(dec_geom(&bytes), None);
}

#[test]
fn node_codec_roundtrip() {
    let mut n = Node::new();
    n.push(Id::new(8), BBox::new(pt(0, 0), pt(1, 1)));
    n.push(Id::new(25), BBox::new(pt(2, 2), pt(3, 3)));
    let bytes = enc_node(&n);
    // six 40-byte slots
    assert_eq!(bytes.len(), 240);
    let back = dec_node(&bytes).unwrap();
    let entries = back.into_entries();
    assert_eq!(entries.len(), 2);
    assert_eq!(entries[0].id().value(), 8);
    assert_eq!(entries[1].bbox(), BBox::new(pt(2, 2), pt(3, 3)));
}

#[test]
fn root_codec_roundtrip() {
    let mut n = Node::new();
    n.push(Id::new(8), BBox::new(pt(0, 0), pt(9, 9)));
    let root = Root::new(n, 41);
    let bytes = enc_root(&root);
    assert_eq!(bytes.len(), 248);
    let back = dec_root(&bytes).unwrap();
    assert_eq!(back.n_elem(), 41);
    let entries = back.into_node().into_entries();
    assert_eq!(entries.len(), 1);
    assert_eq!(entries[0].id().value(), 8);
}

#[test]
fn entry_axis_order() {
    let a = Entry::new(Id::new(8), BBox::new(pt(0, 0), pt(2, 8)));
    let b = Entry::new(Id::new(9), BBox::new(pt(3, 0), pt(5, 2)));
    assert!(a.compare_x(&b));
    assert!(!b.compare_x(&a));
    assert!(b.compare_y(&a));
    assert!(!a.compare_y(&b));
    assert!(a.bounded_by(&BBox::new(pt(1, 1), pt(9, 9))));
    assert!(!a.bounded_by(&BBox::new(pt(3, 9), pt(9, 10))));
    assert!(!Entry::default().bounded_by(&BBox::new(pt(-100, -100), pt(100, 100))));
}
