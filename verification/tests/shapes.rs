use matrix_io::float64::Float64;
use matrix_io::geometry::{
    boundary_crossing, bounding_rect, build_capture_polygon, dist_sq, enclose,
    find_ring_and_vertices, nearest_vertex_idx, rect_polygon, seg_intersection, segments_cross,
    walk_ring, Polygon, Territory,
};
use matrix_io::protocol::{PlayerId, Position};
use matrix_io::spatial_hash::SpatialHash;

fn number(x: f64) -> Float64 {
    Float64 { bits: x.to_bits() }
}

fn native(x: Float64) -> f64 {
    f64::from_bits(x.bits)
}

fn at(x: f64, y: f64) -> Position {
    Position { x: number(x), y: number(y) }
}

fn square(min: f64, max: f64) -> Territory {
    Territory { polygons: vec![rect_polygon(number(min), number(min), number(max), number(max))] }
}

fn pairs(points: &Vec<Position>) -> Vec<(f64, f64)> {
    points.iter().map(|p| (native(p.x), native(p.y))).collect()
}

#[test]
fn segments_meet_at_a_point_and_a_part_of_the_way() {
    let (p, t) = seg_intersection(at(0.0, 0.0), at(4.0, 0.0), at(1.0, -1.0), at(1.0, 1.0)).unwrap();
    assert_eq!((native(p.x), native(p.y), native(t)), (1.0, 0.0, 0.25));
    // Ends count.
    assert!(seg_intersection(at(0.0, 0.0), at(4.0, 0.0), at(4.0, 0.0), at(4.0, 1.0)).is_some());
    // Parallels and misses do not.
    assert!(seg_intersection(at(0.0, 0.0), at(4.0, 0.0), at(0.0, 1.0), at(4.0, 1.0)).is_none());
    assert!(seg_intersection(at(0.0, 0.0), at(4.0, 0.0), at(5.0, -1.0), at(5.0, 1.0)).is_none());
    assert!(seg_intersection(at(0.0, 0.0), at(4.0, 0.0), at(1.0, 1.0), at(1.0, 2.0)).is_none());
}

#[test]
fn segments_cross_only_inside_both() {
    assert!(segments_cross(at(0.0, 0.0), at(4.0, 0.0), at(1.0, -1.0), at(1.0, 1.0)));
    assert!(!segments_cross(at(0.0, 0.0), at(4.0, 0.0), at(4.0, 0.0), at(4.0, 1.0)));
    assert!(!segments_cross(at(0.0, 0.0), at(4.0, 0.0), at(1.0, 0.0), at(1.0, 1.0)));
    assert!(!segments_cross(at(0.0, 0.0), at(4.0, 0.0), at(0.0, 1.0), at(4.0, 1.0)));
    // A point that is no number crosses nothing.
    assert!(!segments_cross(at(f64::NAN, 0.0), at(4.0, 0.0), at(1.0, -1.0), at(1.0, 1.0)));
}

#[test]
fn the_edge_nearest_to_the_start_is_crossed() {
    let territory = square(-2.0, 2.0);
    let p = boundary_crossing(at(0.0, 0.0), at(4.0, 0.0), &territory).unwrap();
    assert_eq!((native(p.x), native(p.y)), (2.0, 0.0));
    let p = boundary_crossing(at(4.0, 1.0), at(-4.0, 1.0), &territory).unwrap();
    assert_eq!((native(p.x), native(p.y)), (2.0, 1.0));
    assert!(boundary_crossing(at(0.0, 0.0), at(1.0, 0.0), &territory).is_none());
    let none = Territory { polygons: vec![] };
    assert!(boundary_crossing(at(0.0, 0.0), at(4.0, 0.0), &none).is_none());
}

#[test]
fn a_crossing_at_the_very_start_is_taken_at_once() {
    // Both outlines are crossed: the first within a hundredth of the way, the second before it.
    let near = Territory {
        polygons: vec![
            rect_polygon(number(0.5), number(-1.0), number(200.0), number(1.0)),
            rect_polygon(number(0.25), number(-1.0), number(200.0), number(1.0)),
        ],
    };
    let p = boundary_crossing(at(0.0, 0.0), at(100.0, 0.0), &near).unwrap();
    assert_eq!(native(p.x), 0.5);
}

#[test]
fn the_nearest_corner_is_the_first_of_the_nearest() {
    let corners = vec![at(0.0, 0.0), at(2.0, 0.0), at(2.0, 2.0), at(0.0, 2.0)];
    assert_eq!(nearest_vertex_idx(&corners, at(1.9, 1.7)), 2);
    assert_eq!(nearest_vertex_idx(&corners, at(1.0, 0.0)), 0);
    assert_eq!(nearest_vertex_idx(&vec![], at(1.0, 0.0)), 0);
    assert_eq!(native(dist_sq(at(3.0, 4.0), at(0.0, 0.0))), 25.0);
    let nearest = corners[nearest_vertex_idx(&corners, at(-3.0, 1.5))];
    for c in &corners {
        assert!(dist_sq(nearest, at(-3.0, 1.5)).le(dist_sq(*c, at(-3.0, 1.5))));
    }
}

#[test]
fn the_outline_nearest_to_both_ends_is_found() {
    let far = rect_polygon(number(50.0), number(50.0), number(60.0), number(60.0));
    let close = rect_polygon(number(-2.0), number(-2.0), number(2.0), number(2.0));
    let thin = Polygon { exterior: vec![at(0.0, 0.0), at(1.0, 0.0)], interiors: vec![] };
    let territory = Territory { polygons: vec![thin, far, close] };
    let (ring, start, end) =
        find_ring_and_vertices(&territory, at(2.1, -1.9), at(2.1, 2.1)).unwrap();
    assert_eq!(pairs(&ring), vec![(-2.0, -2.0), (2.0, -2.0), (2.0, 2.0), (-2.0, 2.0)]);
    assert_eq!((start, end), (1, 2));
    let none = Territory { polygons: vec![] };
    assert!(find_ring_and_vertices(&none, at(0.0, 0.0), at(1.0, 1.0)).is_none());
}

#[test]
fn a_ring_is_walked_either_way() {
    let ring = vec![at(0.0, 0.0), at(1.0, 0.0), at(2.0, 0.0), at(3.0, 0.0)];
    assert_eq!(pairs(&walk_ring(&ring, 3, 1, true)), vec![(3.0, 0.0), (0.0, 0.0), (1.0, 0.0)]);
    assert_eq!(pairs(&walk_ring(&ring, 3, 1, false)), vec![(3.0, 0.0), (2.0, 0.0), (1.0, 0.0)]);
    assert_eq!(pairs(&walk_ring(&ring, 2, 2, true)), vec![(2.0, 0.0)]);
}

#[test]
fn a_trail_captures_what_it_cuts_off() {
    let territory = square(-2.0, 2.0);
    let trail = vec![at(2.0, -1.0), at(5.0, -1.0), at(5.0, 1.0), at(2.0, 1.0)];
    let area = build_capture_polygon(&trail, &territory).unwrap();
    assert_eq!(area.polygons.len(), 1);
    assert_eq!(area.polygons[0].interiors.len(), 0);
    assert_eq!(
        pairs(&area.polygons[0].exterior),
        vec![
            (2.0, -1.0),
            (5.0, -1.0),
            (5.0, 1.0),
            (2.0, 1.0),
            (2.0, 2.0),
            (2.0, -2.0),
            (2.0, -1.0),
        ]
    );
    assert!(build_capture_polygon(&trail, &Territory { polygons: vec![] }).is_none());
    // One point, back to the same corner: three points do not make an area.
    assert!(build_capture_polygon(&vec![at(2.0, 2.0)], &territory).is_none());
}

#[test]
fn boxes_hold_what_they_are_around() {
    let points = vec![at(1.0, 5.0), at(-3.0, 2.0), at(0.0, 9.0)];
    let b = enclose(&points);
    assert_eq!(
        (native(b.min_x), native(b.min_y), native(b.max_x), native(b.max_y)),
        (-3.0, 2.0, 1.0, 9.0)
    );
    for p in &points {
        assert!(b.min_x.le(p.x) && p.x.le(b.max_x) && b.min_y.le(p.y) && p.y.le(b.max_y));
    }
    let wide = b.widened(at(4.0, 0.0));
    assert_eq!((native(wide.max_x), native(wide.min_y)), (4.0, 0.0));
    assert!(!b.apart(wide));
    assert!(b.apart(enclose(&vec![at(1.5, 5.0)])));
    let b = bounding_rect(&square(-2.0, 2.0)).unwrap();
    assert_eq!((native(b.min_x), native(b.max_y)), (-2.0, 2.0));
    assert!(bounding_rect(&Territory { polygons: vec![] }).is_none());
}

#[test]
fn the_grid_finds_the_players_of_nine_cells() {
    let mut grid = SpatialHash::new(number(500.0));
    assert_eq!(grid.cell_key(number(-0.5), number(500.0)), (-1, 1));
    assert_eq!(grid.cell_key(number(1e300), number(f64::NAN)), (i32::MAX, 0));
    grid.insert(1, at(10.0, 10.0));
    grid.insert(2, at(-10.0, -10.0));
    grid.insert(3, at(1600.0, 0.0));
    grid.insert(4, at(999.0, 999.0));
    let near: Vec<PlayerId> = grid.nearby(at(100.0, 100.0));
    assert_eq!(near, vec![2, 1, 4]);
    assert_eq!(grid.nearby(at(1700.0, 100.0)), vec![3]);
    grid.clear();
    assert!(grid.nearby(at(100.0, 100.0)).is_empty());
}

#[test]
fn sides_that_share_an_end_do_not_cross() {
    let ends = [(0.0, 0.0), (0.1, 0.7), (3.3, -2.9), (-7.5, 1e-3), (1e6, 0.3)];
    for a in ends {
        for b in ends {
            for c in ends {
                let (a, b, c) = (at(a.0, a.1), at(b.0, b.1), at(c.0, c.1));
                // A side and the next one, there and back.
                assert!(!segments_cross(a, b, b, c));
                assert!(!segments_cross(a, b, a, c));
                assert!(!segments_cross(a, b, c, a));
            }
        }
    }
}

#[test]
fn a_walk_leads_from_its_start_to_its_end() {
    let ring: Vec<Position> = (0..7).map(|i| at(i as f64, 1.0)).collect();
    for start in 0..7 {
        for end in 0..7 {
            for forward in [true, false] {
                let walk = walk_ring(&ring, start, end, forward);
                assert_eq!(walk[0], ring[start]);
                assert_eq!(walk[walk.len() - 1], ring[end]);
                assert!(walk.len() <= 7);
            }
        }
    }
}

#[test]
fn what_is_captured_is_closed() {
    let territory = square(-2.0, 2.0);
    let trail = vec![at(-1.0, 2.0), at(-1.0, 6.0), at(4.0, 6.0), at(4.0, 0.5), at(2.0, 0.5)];
    let area = build_capture_polygon(&trail, &territory).unwrap();
    let outline = &area.polygons[0].exterior;
    assert_eq!(outline[0], outline[outline.len() - 1]);
    assert_eq!(outline[0], trail[0]);
}

#[test]
fn whoever_was_entered_is_found_from_its_own_place() {
    let mut grid = SpatialHash::new(number(500.0));
    for (i, (x, y)) in [(0.0, 0.0), (-499.9, 499.9), (1e9, -1e9), (250.0, 250.0)].iter().enumerate()
    {
        grid.insert(i as PlayerId, at(*x, *y));
        assert!(grid.nearby(at(*x, *y)).contains(&(i as PlayerId)));
    }
}

#[test]
fn no_crossing_comes_before_the_first() {
    let territory = Territory {
        polygons: vec![
            rect_polygon(number(6.0), number(-1.0), number(8.0), number(1.0)),
            rect_polygon(number(2.0), number(-1.0), number(4.0), number(1.0)),
        ],
    };
    let (from, to) = (at(0.0, 0.0), at(10.0, 0.25));
    let first = boundary_crossing(from, to, &territory).unwrap();
    assert_eq!(native(first.x), 2.0);
    for polygon in &territory.polygons {
        for side in polygon.exterior.windows(2) {
            if let Some((p, _)) = seg_intersection(from, to, side[0], side[1]) {
                assert!(native(first.x) <= native(p.x));
            }
        }
    }
    assert!(boundary_crossing(at(0.0, 5.0), at(10.0, 5.0), &territory).is_none());
}

#[test]
fn no_other_outline_is_nearer_to_both_ends() {
    let near = |x: f64| rect_polygon(number(x), number(0.0), number(x + 1.0), number(1.0));
    let territory = Territory { polygons: vec![near(40.0), near(10.0), near(25.0)] };
    let (start, end) = (at(14.0, 5.0), at(15.0, -4.0));
    let (ring, s, e) = find_ring_and_vertices(&territory, start, end).unwrap();
    assert_eq!(native(ring[0].x), 10.0);
    let total = native(dist_sq(ring[s], start)) + native(dist_sq(ring[e], end));
    for polygon in &territory.polygons {
        let corners = &polygon.exterior;
        let other = native(dist_sq(corners[nearest_vertex_idx(corners, start)], start))
            + native(dist_sq(corners[nearest_vertex_idx(corners, end)], end));
        assert!(total <= other);
    }
}

#[test]
fn it_does_not_matter_which_segment_is_named_first() {
    let ends =
        [(0.0, 0.0), (0.1, 0.7), (3.3, -2.9), (-7.5, 1e-3), (1e6, 0.3), (1.0, 1.0), (2.0, 2.0)];
    let margin = 1e-6;
    let inside = |met: Option<(Position, Float64)>| match met {
        Some((_, t)) => native(t) > margin && native(t) < 1.0 - margin,
        None => false,
    };
    let mut crossings = 0;
    for a in ends {
        for b in ends {
            for c in ends {
                for d in ends {
                    let (a, b, c, d) = (at(a.0, a.1), at(b.0, b.1), at(c.0, c.1), at(d.0, d.1));
                    let crossed = segments_cross(a, b, c, d);
                    assert_eq!(crossed, segments_cross(c, d, a, b));
                    let met = inside(seg_intersection(a, b, c, d));
                    assert_eq!(crossed, met && inside(seg_intersection(c, d, a, b)));
                    crossings += crossed as u32;
                }
            }
        }
    }
    assert!(crossings > 0);
}

#[test]
fn a_segment_without_length_crosses_nothing() {
    let here = at(1.0, 0.0);
    assert!(segments_cross(at(0.0, 0.0), at(2.0, 0.0), at(1.0, -1.0), at(1.0, 1.0)));
    assert!(!segments_cross(at(0.0, 0.0), at(2.0, 0.0), here, here));
    assert!(!segments_cross(here, here, at(1.0, -1.0), at(1.0, 1.0)));
    assert!(!segments_cross(at(0.0, 0.0), at(-0.0, -0.0), at(-1.0, 0.0), at(1.0, 0.0)));
}

#[test]
fn those_found_are_those_entered_in_nine_cells() {
    let mut grid = SpatialHash::new(number(30.0));
    let mut entries: Vec<(PlayerId, Position)> = vec![];
    for i in 0..60 {
        // Some are entered twice, and some in the same cell.
        let id = (i % 50) as PlayerId;
        let p = at(((i * 37) % 200) as f64 - 100.0, ((i * 53) % 200) as f64 - 100.0);
        grid.insert(id, p);
        entries.push((id, p));
    }
    for from in [(0.0, 0.0), (-45.0, 29.9), (95.0, -95.0), (1000.0, 0.0)] {
        let (cx, cy) = grid.cell_key(number(from.0), number(from.1));
        let mut expected: Vec<PlayerId> = entries
            .iter()
            .filter(|(_, p)| {
                let (x, y) = grid.cell_key(p.x, p.y);
                (x - cx).abs() <= 1 && (y - cy).abs() <= 1
            })
            .map(|(id, _)| *id)
            .collect();
        let mut found = grid.nearby(at(from.0, from.1));
        expected.sort();
        found.sort();
        assert_eq!(found, expected);
    }
}
