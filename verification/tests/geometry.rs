//! The geometry model, its bounds and the rewriting of its positions.
use std::cell::RefCell;

use geosetta::geometry::{Bbox, Geometry, Position};

fn xy(x: f64, y: f64) -> Position<u64> {
    Position::new(x.to_bits(), y.to_bits())
}

fn xyz(x: f64, y: f64, z: f64) -> Position<u64> {
    Position::with_z(x.to_bits(), y.to_bits(), z.to_bits())
}

fn xym(x: f64, y: f64, m: f64) -> Position<u64> {
    Position::with_m(x.to_bits(), y.to_bits(), m.to_bits())
}

fn xyzm(x: f64, y: f64, z: f64, m: f64) -> Position<u64> {
    Position::with_zm(x.to_bits(), y.to_bits(), z.to_bits(), m.to_bits())
}

fn range(r: Option<(u64, u64)>) -> Option<(f64, f64)> {
    r.map(|(lo, hi)| (f64::from_bits(lo), f64::from_bits(hi)))
}

fn sides(b: &Bbox) -> (f64, f64, f64, f64) {
    (
        f64::from_bits(b.min_x),
        f64::from_bits(b.max_x),
        f64::from_bits(b.min_y),
        f64::from_bits(b.max_y),
    )
}

fn copy_of(ps: &Vec<Position<f64>>) -> Vec<Position<f64>> {
    ps.iter().copied().collect()
}

fn run_lengths(g: &mut Geometry<f64>) -> Vec<usize> {
    let lengths = RefCell::new(Vec::new());
    g.for_each_position_run_mut(&|ps: &Vec<Position<f64>>| {
        lengths.borrow_mut().push(ps.len());
        copy_of(ps)
    });
    lengths.into_inner()
}

fn position_count(g: &mut Geometry<f64>) -> usize {
    let count = RefCell::new(0);
    g.for_each_position_mut(&|p: &Position<f64>| {
        *count.borrow_mut() += 1;
        *p
    });
    count.into_inner()
}


#[test]
fn bbox_of_2d_positions_has_no_z_or_m() {
    let mut b = Bbox::empty();
    b.add(xy(1.0, 2.0));
    b.add(xy(5.0, -3.0));
    assert_eq!(sides(&b), (1.0, 5.0, -3.0, 2.0));
    assert_eq!(b.z, None);
    assert_eq!(b.m, None);
}

#[test]
fn bbox_folds_z_and_m_independently() {
    let mut b = Bbox::empty();
    b.add(xyzm(0.0, 0.0, 10.0, 100.0));
    b.add(xyzm(1.0, 1.0, -4.0, 250.0));
    assert_eq!(range(b.z), Some((-4.0, 10.0)));
    assert_eq!(range(b.m), Some((100.0, 250.0)));
}

#[test]
fn bbox_tracks_z_only_or_m_only() {
    let mut z = Bbox::empty();
    z.add(xyz(0.0, 0.0, 7.0));
    assert_eq!(range(z.z), Some((7.0, 7.0)));
    assert_eq!(z.m, None, "a Z-only position must not invent an M range");

    let mut m = Bbox::empty();
    m.add(xym(0.0, 0.0, 7.0));
    assert_eq!(range(m.m), Some((7.0, 7.0)));
    assert_eq!(m.z, None, "an M-only position must not invent a Z range");
}

#[test]
fn bbox_mixed_dimensionality_folds_whichever_ordinates_are_present() {
    let mut b = Bbox::empty();
    b.add(xy(0.0, 0.0));
    b.add(xyz(10.0, 10.0, 5.0));
    b.add(xy(20.0, 20.0));
    b.add(xyz(30.0, 30.0, -5.0));
    assert_eq!((f64::from_bits(b.min_x), f64::from_bits(b.max_x)), (0.0, 30.0));
    assert_eq!(range(b.z), Some((-5.0, 5.0)));
    assert_eq!(b.m, None);
}

#[test]
fn an_empty_bbox_stays_empty_and_a_2d_one_does_not() {
    let empty = Bbox::empty();
    assert!(empty.is_empty());
    assert_eq!(empty.z, None);

    let mut flat = Bbox::empty();
    flat.add(xy(1.0, 1.0));
    assert!(!flat.is_empty());
    assert_eq!(flat.z, None);
}

#[test]
fn geometry_bbox_folds_z_through_the_whole_tree() {
    let g = Geometry::MultiPolygon(vec![vec![vec![
        xyz(0.0, 0.0, 1.0),
        xyz(4.0, 4.0, 9.0),
        xyz(0.0, 4.0, 5.0),
    ]]]);
    let b = g.bbox();
    assert_eq!(sides(&b), (0.0, 4.0, 0.0, 4.0));
    assert_eq!(range(b.z), Some((1.0, 9.0)));
}

fn negate(p: &Position<f64>) -> Position<f64> {
    Position { x: -p.x, y: -p.y, z: p.z, m: p.m }
}

#[test]
fn for_each_position_mut_visits_a_point() {
    let mut g = Geometry::Point(Position::new(1.0, 2.0));
    g.for_each_position_mut(&negate);
    assert_eq!(g, Geometry::Point(Position::new(-1.0, -2.0)));
}

#[test]
fn for_each_position_mut_visits_polygon_rings_including_holes() {
    let mut g = Geometry::Polygon(vec![
        vec![Position::new(0.0, 0.0), Position::new(4.0, 0.0), Position::new(4.0, 4.0), Position::new(0.0, 0.0)],
        vec![Position::new(1.0, 1.0), Position::new(2.0, 1.0), Position::new(2.0, 2.0), Position::new(1.0, 1.0)],
    ]);
    g.for_each_position_mut(&negate);
    assert_eq!(
        g,
        Geometry::Polygon(vec![
            vec![Position::new(0.0, 0.0), Position::new(-4.0, 0.0), Position::new(-4.0, -4.0), Position::new(0.0, 0.0)],
            vec![Position::new(-1.0, -1.0), Position::new(-2.0, -1.0), Position::new(-2.0, -2.0), Position::new(-1.0, -1.0)],
        ])
    );
}

#[test]
fn for_each_position_mut_visits_multipolygon_parts() {
    let mut g = Geometry::MultiPolygon(vec![
        vec![vec![Position::new(0.0, 0.0), Position::new(1.0, 0.0), Position::new(1.0, 1.0)]],
        vec![vec![Position::new(5.0, 5.0), Position::new(6.0, 5.0), Position::new(6.0, 6.0)]],
    ]);
    g.for_each_position_mut(&negate);
    assert_eq!(
        g,
        Geometry::MultiPolygon(vec![
            vec![vec![Position::new(0.0, 0.0), Position::new(-1.0, 0.0), Position::new(-1.0, -1.0)]],
            vec![vec![Position::new(-5.0, -5.0), Position::new(-6.0, -5.0), Position::new(-6.0, -6.0)]],
        ])
    );
}

#[test]
fn for_each_position_mut_recurses_into_geometry_collections() {
    let mut g = Geometry::GeometryCollection(vec![
        Geometry::Point(Position::new(1.0, 2.0)),
        Geometry::LineString(vec![Position::new(3.0, 4.0), Position::new(5.0, 6.0)]),
        Geometry::GeometryCollection(vec![Geometry::Point(Position::new(7.0, 8.0))]),
    ]);
    g.for_each_position_mut(&negate);
    assert_eq!(
        g,
        Geometry::GeometryCollection(vec![
            Geometry::Point(Position::new(-1.0, -2.0)),
            Geometry::LineString(vec![Position::new(-3.0, -4.0), Position::new(-5.0, -6.0)]),
            Geometry::GeometryCollection(vec![Geometry::Point(Position::new(-7.0, -8.0))]),
        ])
    );
}

#[test]
fn for_each_position_mut_counts_every_position_exactly_once() {
    let mut g = Geometry::GeometryCollection(vec![
        Geometry::MultiPoint(vec![Position::new(0.0, 0.0), Position::new(1.0, 1.0), Position::new(2.0, 2.0)]),
        Geometry::MultiLineString(vec![vec![Position::new(0.0, 0.0), Position::new(1.0, 0.0)], vec![Position::new(2.0, 0.0), Position::new(3.0, 0.0), Position::new(4.0, 0.0)]]),
    ]);
    let count = position_count(&mut g);
    assert_eq!(count, 3 + 2 + 3);
}

fn negate_slice(ps: &Vec<Position<f64>>) -> Vec<Position<f64>> {
    ps.iter().map(negate).collect()
}

#[test]
fn for_each_position_run_mut_treats_a_point_as_a_length_one_run() {
    let mut g = Geometry::Point(Position::new(1.0, 2.0));
    let runs = run_lengths(&mut g);
    assert_eq!(runs, vec![1]);
    g.for_each_position_run_mut(&negate_slice);
    assert_eq!(g, Geometry::Point(Position::new(-1.0, -2.0)));
}

#[test]
fn for_each_position_run_mut_yields_the_whole_linestring_as_one_run() {
    let mut g = Geometry::LineString(vec![Position::new(0.0, 0.0), Position::new(1.0, 1.0), Position::new(2.0, 2.0)]);
    let runs = run_lengths(&mut g);
    assert_eq!(runs, vec![3]);
}

#[test]
fn for_each_position_run_mut_yields_one_run_per_polygon_ring() {
    let mut g = Geometry::Polygon(vec![
        vec![Position::new(0.0, 0.0), Position::new(4.0, 0.0), Position::new(4.0, 4.0), Position::new(0.0, 0.0)],
        vec![Position::new(1.0, 1.0), Position::new(2.0, 1.0), Position::new(2.0, 2.0), Position::new(1.0, 1.0)],
    ]);
    let runs = run_lengths(&mut g);
    assert_eq!(runs, vec![4, 4]);
    g.for_each_position_run_mut(&negate_slice);
    assert_eq!(
        g,
        Geometry::Polygon(vec![
            vec![Position::new(0.0, 0.0), Position::new(-4.0, 0.0), Position::new(-4.0, -4.0), Position::new(0.0, 0.0)],
            vec![Position::new(-1.0, -1.0), Position::new(-2.0, -1.0), Position::new(-2.0, -2.0), Position::new(-1.0, -1.0)],
        ])
    );
}

#[test]
fn for_each_position_run_mut_yields_one_run_per_multipolygon_ring() {
    let mut g = Geometry::MultiPolygon(vec![
        vec![vec![Position::new(0.0, 0.0), Position::new(1.0, 0.0), Position::new(1.0, 1.0)]],
        vec![
            vec![Position::new(0.0, 0.0), Position::new(4.0, 0.0), Position::new(4.0, 4.0), Position::new(0.0, 0.0)],
            vec![Position::new(1.0, 1.0), Position::new(2.0, 1.0), Position::new(2.0, 2.0), Position::new(1.0, 1.0)],
        ],
    ]);
    let runs = run_lengths(&mut g);
    assert_eq!(runs, vec![3, 4, 4]);
}

#[test]
fn for_each_position_run_mut_recurses_into_geometry_collections() {
    let mut g = Geometry::GeometryCollection(vec![
        Geometry::Point(Position::new(1.0, 2.0)),
        Geometry::LineString(vec![Position::new(3.0, 4.0), Position::new(5.0, 6.0)]),
        Geometry::GeometryCollection(vec![Geometry::MultiPoint(vec![Position::new(7.0, 8.0), Position::new(9.0, 10.0)])]),
    ]);
    let runs = run_lengths(&mut g);
    assert_eq!(runs, vec![1, 2, 2]);
    g.for_each_position_run_mut(&negate_slice);
    assert_eq!(
        g,
        Geometry::GeometryCollection(vec![
            Geometry::Point(Position::new(-1.0, -2.0)),
            Geometry::LineString(vec![Position::new(-3.0, -4.0), Position::new(-5.0, -6.0)]),
            Geometry::GeometryCollection(vec![Geometry::MultiPoint(vec![Position::new(-7.0, -8.0), Position::new(-9.0, -10.0)])]),
        ])
    );
}

#[test]
fn for_each_position_run_mut_and_pointwise_mut_agree_on_total_coverage() {
    let mut g = Geometry::MultiPolygon(vec![
        vec![vec![Position::new(0.0, 0.0), Position::new(1.0, 0.0), Position::new(1.0, 1.0)]],
        vec![vec![Position::new(5.0, 5.0), Position::new(6.0, 5.0), Position::new(6.0, 6.0), Position::new(5.0, 6.0)]],
    ]);
    let by_point = position_count(&mut g);
    let by_run: usize = run_lengths(&mut g).iter().sum();
    assert_eq!(by_point, by_run);
}
