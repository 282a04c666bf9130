//! Tests for the bulk writer, the height arithmetic and the query
//! iterator, end to end over in-memory file images.

use rosewood::bbox::{BBox, Pt};
use rosewood::bulk::{Axis, BulkWriter};
use rosewood::common::Error;
use rosewood::gis::{Geom, Gis, Points, Polygons};
use rosewood::node::Node;
use rosewood::rtree::RTree;

fn pt(x: i64, y: i64) -> Pt {
    Pt::new(x, y)
}

fn point_geom(x: i64, y: i64, tag: u8) -> Geom {
    let mut p = Points::new(vec![tag]);
    p.push(pt(x, y));
    Geom::Point(p)
}

fn universe() -> BBox {
    BBox::new(pt(i64::MIN + 1, i64::MIN + 1), pt(i64::MAX - 1, i64::MAX - 1))
}

fn build(geoms: Vec<Geom>) -> Vec<u8> {
    let mut w = BulkWriter::new();
    for g in &geoms {
        w.push(g);
    }
    w.finish().unwrap()
}

fn returned_tags(bytes: Vec<u8>, q: &BBox) -> Vec<u8> {
    let tree = RTree::new(bytes).unwrap();
    let found = tree.query(q).unwrap();
    let mut tags: Vec<u8> = found.iter().map(|g| g.data()[0]).collect();
    tags.sort_unstable();
    tags
}

#[test]
fn axis() {
    let axis = Axis::Y.with_height(4);
    assert_eq!(Axis::X, axis);
    assert_eq!(Axis::X, axis.with_height(3));
    assert_eq!(Axis::Y, axis.with_height(2));
    assert_eq!(Axis::X, axis.with_height(1));
    let axis = Axis::Y.with_height(3);
    assert_eq!(Axis::Y, axis);
    assert_eq!(Axis::X, axis.with_height(2));
    assert_eq!(Axis::Y, axis.with_height(1));
}

#[test]
fn height_partition_groups() {
    assert_eq!(Node::height(1), 1);
    assert_eq!(Node::height(6), 1);
    assert_eq!(Node::height(7), 2);
    assert_eq!(Node::height(36), 2);
    assert_eq!(Node::height(37), 3);
    assert_eq!(Node::partition_sz(1), 1);
    assert_eq!(Node::partition_sz(2), 6);
    assert_eq!(Node::partition_sz(3), 36);
    // g = ceil(sqrt(ceil(n / 6^(h-1))))
    assert_eq!(Node::root_groups(1), 1);
    assert_eq!(Node::root_groups(4), 2);
    assert_eq!(Node::root_groups(6), 3);
    assert_eq!(Node::root_groups(7), 2);
    assert_eq!(Node::root_groups(24), 2);
    assert_eq!(Node::root_groups(25), 3);
    assert_eq!(Node::root_groups(36), 3);
}

#[test]
fn empty_build_fails() {
    let w = BulkWriter::new();
    assert_eq!(w.finish().err(), Some(Error::InvalidCheckpoint));
}

#[test]
fn single_geometry() {
    let bytes = build(vec![point_geom(3, 4, 7)]);
    assert_eq!(&bytes[..8], b"loam0000");
    assert_eq!(returned_tags(bytes, &universe()), vec![7]);
}

#[test]
fn full_leaf() {
    let geoms: Vec<Geom> = (0..6).map(|i| point_geom(i as i64, i as i64, i)).collect();
    let bytes = build(geoms);
    assert_eq!(returned_tags(bytes, &universe()), vec![0, 1, 2, 3, 4, 5]);
}

#[test]
fn two_level_tree() {
    // one more than a leaf holds: the tree grows to height 2
    assert_eq!(Node::height(7), 2);
    let geoms: Vec<Geom> = (0..7).map(|i| point_geom(i as i64, 10 - i as i64, i)).collect();
    let bytes = build(geoms);
    assert_eq!(returned_tags(bytes, &universe()), vec![0, 1, 2, 3, 4, 5, 6]);
}

#[test]
fn query_misses_everything() {
    let geoms: Vec<Geom> = (0..10).map(|i| point_geom(1, 1, i)).collect();
    let bytes = build(geoms);
    let q = BBox::new(pt(9, 9), pt(10, 10));
    assert_eq!(returned_tags(bytes, &q), Vec::<u8>::new());
}

#[test]
fn quadrant_query_returns_exactly_the_quadrant() {
    // 100 pseudo-random points in [0, 1000)^2 from a fixed seed
    let mut state: u64 = 2;
    let mut step = || {
        state = state
            .wrapping_mul(6364136223846793005)
            .wrapping_add(1442695040888963407);
        ((state >> 33) % 1000) as i64
    };
    let mut geoms = Vec::new();
    let mut expected = Vec::new();
    for i in 0..100u8 {
        let x = step();
        let y = step();
        geoms.push(point_geom(x, y, i));
        if x >= 500 && y >= 500 {
            expected.push(i);
        }
    }
    assert!(!expected.is_empty() && expected.len() < 100);
    let bytes = build(geoms);
    let q = BBox::new(pt(500, 500), pt(999, 999));
    assert_eq!(returned_tags(bytes, &q), expected);
}

#[test]
fn surrounding_polygon_is_returned() {
    let mut pg = Polygons::new(vec![9]);
    pg.push_outer(vec![pt(0, 0), pt(10, 0), pt(10, 10), pt(0, 10)]);
    let bytes = build(vec![Geom::Polygon(pg)]);
    // the query box lies inside the polygon's bounding box
    let q = BBox::new(pt(4, 4), pt(6, 6));
    assert_eq!(returned_tags(bytes, &q), vec![9]);
}

#[test]
fn duplicates_are_all_kept() {
    let geoms: Vec<Geom> = (0..9).map(|i| point_geom(5, 5, i % 3)).collect();
    let bytes = build(geoms);
    let tags = returned_tags(bytes, &universe());
    assert_eq!(tags, vec![0, 0, 0, 1, 1, 1, 2, 2, 2]);
}

#[test]
fn mixed_geometries() {
    let mut ls = rosewood::gis::Linestrings::new(vec![50]);
    ls.push(vec![pt(100, 100), pt(200, 200)]);
    let mut pg = Polygons::new(vec![60]);
    pg.push_outer(vec![pt(-10, -10), pt(-5, -10), pt(-5, -5), pt(-10, -5)]);
    let geoms = vec![point_geom(0, 0, 40), Geom::Linestring(ls), Geom::Polygon(pg)];
    let bytes = build(geoms);
    assert_eq!(returned_tags(bytes.clone(), &universe()), vec![40, 50, 60]);
    // only the line string spans this window
    let q = BBox::new(pt(150, 150), pt(160, 160));
    assert_eq!(returned_tags(bytes, &q), vec![50]);
}

#[test]
fn geometry_bit_flip_detected_by_query() {
    let bytes = build(vec![point_geom(3, 4, 7)]);
    // the first geometry chunk starts right after the header; flip a
    // byte inside its payload
    let mut tampered = bytes.clone();
    tampered[12] ^= 0xff;
    let tree = RTree::new(tampered).unwrap();
    let res = tree.query(&universe());
    assert!(matches!(res, Err(Error::InvalidCrc(_))));
    // the clean image still answers
    assert_eq!(returned_tags(bytes, &universe()), vec![7]);
}

#[test]
fn cancel_touches_nothing() {
    let mut w = BulkWriter::new();
    w.push(&point_geom(1, 2, 3));
    w.cancel();
}

#[test]
fn larger_build_keeps_every_geometry() {
    // three levels: 37 goes beyond a two-level tree
    let geoms: Vec<Geom> = (0..40)
        .map(|i| point_geom((i as i64 * 37) % 100, (i as i64 * 53) % 100, i))
        .collect();
    let bytes = build(geoms);
    let tags = returned_tags(bytes, &universe());
    let expected: Vec<u8> = (0..40).collect();
    assert_eq!(tags, expected);
}
