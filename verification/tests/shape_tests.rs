use rasterizer::buffer::{PixelBuffer, RasterError};
use rasterizer::circle::draw_circle;
use rasterizer::color::Rgb;
use rasterizer::geom::Point;
use rasterizer::line::draw_line;
use rasterizer::raster::{draw_triangle, plot_point};

/// Collects the coordinates of every pixel currently holding `color`
/// (with full opacity).
fn colored_points(buf: &PixelBuffer, color: Rgb) -> Vec<(i32, i32)> {
    let mut pts = Vec::new();
    for y in 0..buf.height() as i32 {
        for x in 0..buf.width() as i32 {
            if buf.get(Point::new(x, y)).unwrap() == (color.r, color.g, color.b, 255) {
                pts.push((x, y));
            }
        }
    }
    pts
}

#[test]
fn line_degenerate_plots_exactly_one_pixel() {
    let mut buf = PixelBuffer::create(8, 8).unwrap();
    draw_line(&mut buf, Point::new(3, 5), Point::new(3, 5), Rgb::cyan()).unwrap();
    assert_eq!(colored_points(&buf, Rgb::cyan()), vec![(3, 5)]);
}

#[test]
fn line_plots_both_endpoints_and_max_delta_plus_one_points() {
    let mut buf = PixelBuffer::create(10, 10).unwrap();
    draw_line(&mut buf, Point::new(0, 0), Point::new(4, 1), Rgb::white()).unwrap();
    let pts = colored_points(&buf, Rgb::white());
    assert_eq!(pts.len(), 5);
    assert!(pts.contains(&(0, 0)));
    assert!(pts.contains(&(4, 1)));

    let mut buf2 = PixelBuffer::create(10, 10).unwrap();
    draw_line(&mut buf2, Point::new(2, 8), Point::new(5, 1), Rgb::white()).unwrap();
    let pts2 = colored_points(&buf2, Rgb::white());
    assert_eq!(pts2.len(), 8);
    assert!(pts2.contains(&(2, 8)));
    assert!(pts2.contains(&(5, 1)));
}

#[test]
fn line_symmetric_horizontal() {
    let mut fwd = PixelBuffer::create(10, 10).unwrap();
    let mut rev = PixelBuffer::create(10, 10).unwrap();
    draw_line(&mut fwd, Point::new(1, 2), Point::new(7, 2), Rgb::green()).unwrap();
    draw_line(&mut rev, Point::new(7, 2), Point::new(1, 2), Rgb::green()).unwrap();
    assert_eq!(fwd.as_bytes(), rev.as_bytes());
}

#[test]
fn line_symmetric_vertical() {
    let mut fwd = PixelBuffer::create(10, 10).unwrap();
    let mut rev = PixelBuffer::create(10, 10).unwrap();
    draw_line(&mut fwd, Point::new(4, 0), Point::new(4, 9), Rgb::green()).unwrap();
    draw_line(&mut rev, Point::new(4, 9), Point::new(4, 0), Rgb::green()).unwrap();
    assert_eq!(fwd.as_bytes(), rev.as_bytes());
}

#[test]
fn line_symmetric_diagonal() {
    let mut fwd = PixelBuffer::create(10, 10).unwrap();
    let mut rev = PixelBuffer::create(10, 10).unwrap();
    draw_line(&mut fwd, Point::new(1, 1), Point::new(6, 6), Rgb::green()).unwrap();
    draw_line(&mut rev, Point::new(6, 6), Point::new(1, 1), Rgb::green()).unwrap();
    assert_eq!(fwd.as_bytes(), rev.as_bytes());
}

#[test]
fn line_out_of_bounds_reported_but_in_bounds_points_plotted() {
    let mut buf = PixelBuffer::create(3, 3).unwrap();
    let r = draw_line(&mut buf, Point::new(-1, 0), Point::new(2, 0), Rgb::red());
    assert_eq!(r.unwrap_err(), RasterError::OutOfBounds);
    assert_eq!(colored_points(&buf, Rgb::red()), vec![(0, 0), (1, 0), (2, 0)]);
}

#[test]
fn line_row_scenario() {
    let mut buf = PixelBuffer::create(20, 20).unwrap();
    draw_line(&mut buf, Point::new(0, 0), Point::new(19, 0), Rgb::red()).unwrap();
    let pts = colored_points(&buf, Rgb::red());
    assert_eq!(pts.len(), 20);
    for x in 0..20 {
        assert!(pts.contains(&(x, 0)));
        assert_eq!(buf.get(Point::new(x, 0)).unwrap(), (255, 0, 0, 255));
    }
}

#[test]
fn circle_radius_zero_plots_only_center() {
    let mut buf = PixelBuffer::create(8, 8).unwrap();
    draw_circle(&mut buf, Point::new(4, 3), 0, Rgb::magenta()).unwrap();
    assert_eq!(colored_points(&buf, Rgb::magenta()), vec![(4, 3)]);
}

#[test]
fn circle_negative_radius_is_invalid() {
    let mut buf = PixelBuffer::create(8, 8).unwrap();
    let before = buf.as_bytes().to_vec();
    let r = draw_circle(&mut buf, Point::new(4, 4), -1, Rgb::red());
    assert_eq!(r.unwrap_err(), RasterError::InvalidArgument);
    assert_eq!(buf.as_bytes(), &before[..]);
}

#[test]
fn circle_point_set_is_rotation_symmetric() {
    let mut buf = PixelBuffer::create(30, 30).unwrap();
    let (cx, cy) = (15, 15);
    draw_circle(&mut buf, Point::new(cx, cy), 6, Rgb::yellow()).unwrap();
    let pts = colored_points(&buf, Rgb::yellow());
    assert!(!pts.is_empty());
    for (x, y) in &pts {
        let rotated = (cx - (y - cy), cy + (x - cx));
        assert!(pts.contains(&rotated));
    }
}

#[test]
fn circle_extent_scenario() {
    let mut buf = PixelBuffer::create(20, 20).unwrap();
    draw_circle(&mut buf, Point::new(10, 10), 5, Rgb::blue()).unwrap();
    let pts = colored_points(&buf, Rgb::blue());
    let min_dx = pts.iter().map(|(x, _)| x - 10).min().unwrap();
    let max_dx = pts.iter().map(|(x, _)| x - 10).max().unwrap();
    assert_eq!(min_dx, -5);
    assert_eq!(max_dx, 5);
}

#[test]
fn triangle_is_union_of_three_lines() {
    let a = Point::new(2, 1);
    let b = Point::new(12, 9);
    let c = Point::new(5, 13);
    let mut tri = PixelBuffer::create(16, 16).unwrap();
    draw_triangle(&mut tri, a, b, c, Rgb::green()).unwrap();
    let mut lines = PixelBuffer::create(16, 16).unwrap();
    draw_line(&mut lines, a, b, Rgb::green()).unwrap();
    draw_line(&mut lines, b, c, Rgb::green()).unwrap();
    draw_line(&mut lines, c, a, Rgb::green()).unwrap();
    assert_eq!(tri.as_bytes(), lines.as_bytes());
}

#[test]
fn triangle_degenerate_vertices_accepted() {
    let mut buf = PixelBuffer::create(10, 10).unwrap();
    draw_triangle(
        &mut buf,
        Point::new(1, 1),
        Point::new(4, 4),
        Point::new(7, 7),
        Rgb::white(),
    )
    .unwrap();
    let pts = colored_points(&buf, Rgb::white());
    assert_eq!(pts.len(), 7);
    for i in 1..8 {
        assert!(pts.contains(&(i, i)));
    }
}

#[test]
fn plot_point_is_a_single_pixel_write() {
    let mut buf = PixelBuffer::create(5, 5).unwrap();
    plot_point(&mut buf, Point::new(2, 2), Rgb::rose()).unwrap();
    assert_eq!(colored_points(&buf, Rgb::rose()), vec![(2, 2)]);
    assert_eq!(
        plot_point(&mut buf, Point::new(5, 0), Rgb::rose()).unwrap_err(),
        RasterError::OutOfBounds
    );
}
