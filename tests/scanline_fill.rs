use mapgeom::fill::{fill_contour, Figure, Point, RgbaColor};

fn p(x: i32, y: i32) -> Point {
    Point { x, y }
}

fn closed(corners: &[(i32, i32)]) -> Vec<(Point, Point)> {
    let n = corners.len();
    (0..n)
        .map(|i| {
            let (x1, y1) = corners[i];
            let (x2, y2) = corners[(i + 1) % n];
            (p(x1, y1), p(x2, y2))
        })
        .collect()
}

const RED: RgbaColor = RgbaColor { red: 255, green: 0, blue: 0, alpha: 128 };

fn cells(figure: &Figure) -> Vec<(i32, i32)> {
    let mut v: Vec<(i32, i32)> = figure.pixels.iter().map(|px| (px.x, px.y)).collect();
    v.sort();
    v
}

#[test]
fn rectangle_fills_rows_below_its_top_edge() {
    let figure = fill_contour(&closed(&[(0, 0), (10, 0), (10, 5), (0, 5)]), RED);
    let mut expected = Vec::new();
    for x in 0..=10 {
        for y in 1..=5 {
            expected.push((x, y));
        }
    }
    expected.sort();
    assert_eq!(cells(&figure), expected);
    assert_eq!(figure.len(), 55);
    assert!(figure.pixels.iter().all(|px| px.color == RED));
    assert_eq!(figure.get(0, 5), Some(RED));
    assert_eq!(figure.get(10, 1), Some(RED));
    assert_eq!(figure.get(5, 0), None);
    assert_eq!(figure.get(11, 3), None);
}

#[test]
fn triangle_rows() {
    let figure = fill_contour(&closed(&[(0, 0), (6, 4), (0, 8)]), RED);
    let widths = [(1, 2), (2, 3), (3, 5), (4, 6), (5, 5), (6, 3), (7, 2), (8, 0)];
    let mut expected = Vec::new();
    for (y, last) in widths {
        for x in 0..=last {
            expected.push((x, y));
        }
    }
    expected.sort();
    assert_eq!(cells(&figure), expected);
}

#[test]
fn single_point_polygon_fills_nothing() {
    let edges = vec![(p(3, 3), p(3, 3)), (p(5, 1), p(5, 1)), (p(3, 3), p(3, 3))];
    let figure = fill_contour(&edges, RED);
    assert_eq!(figure.len(), 0);
}

#[test]
fn lone_edge_is_dropped() {
    let figure = fill_contour(&vec![(p(0, 0), p(0, 5))], RED);
    assert_eq!(figure.len(), 0);
}

#[test]
fn no_edges_no_pixels() {
    let figure = fill_contour(&vec![], RED);
    assert_eq!(figure.len(), 0);
}

#[test]
fn filling_twice_gives_the_same_figure() {
    let edges = closed(&[(2, 1), (9, 4), (5, 11), (-3, 6)]);
    let a = fill_contour(&edges, RED);
    let b = fill_contour(&edges, RED);
    assert_eq!(cells(&a), cells(&b));
    assert_eq!(a.pixels, b.pixels);
    assert!(a.len() > 0);
}

#[test]
fn figure_add_replaces_colour() {
    let blue = RgbaColor { red: 0, green: 0, blue: 255, alpha: 255 };
    let mut figure = Figure::new();
    figure.add(1, 2, RED);
    figure.add(3, 4, RED);
    figure.add(1, 2, blue);
    assert_eq!(figure.len(), 2);
    assert_eq!(figure.get(1, 2), Some(blue));
    assert_eq!(figure.get(3, 4), Some(RED));
    assert_eq!(figure.get(2, 1), None);
}
