use rasterizer::buffer::{PixelBuffer, RasterError};
use rasterizer::color::Rgb;
use rasterizer::geom::Point;

#[test]
fn create_zeroed() {
    let buf = PixelBuffer::create(3, 3).unwrap();
    assert_eq!(buf.width(), 3);
    assert_eq!(buf.height(), 3);
    let bytes = buf.as_bytes();
    assert_eq!(bytes.len(), 3 * 3 * 4);
    for b in bytes {
        assert_eq!(*b, 0);
    }
}

#[test]
fn create_zero_dimension_fails() {
    assert_eq!(
        PixelBuffer::create(0, 5).unwrap_err(),
        RasterError::AllocationError
    );
    assert_eq!(
        PixelBuffer::create(5, 0).unwrap_err(),
        RasterError::AllocationError
    );
}

#[test]
fn plot_then_read_returns_written_color() {
    let mut buf = PixelBuffer::create(4, 4).unwrap();
    let color = Rgb::new(17, 34, 51);
    buf.plot(Point::new(1, 2), color).unwrap();
    assert_eq!(buf.get(Point::new(1, 2)).unwrap(), (17, 34, 51, 255));
    let bytes = buf.as_bytes();
    let idx = 4 * (2 * 4 + 1);
    assert_eq!(&bytes[idx..idx + 4], &[17, 34, 51, 255]);
}

#[test]
fn plot_out_of_bounds_fails_and_leaves_buffer_unmodified() {
    let mut buf = PixelBuffer::create(3, 3).unwrap();
    buf.plot(Point::new(1, 1), Rgb::white()).unwrap();
    let before = buf.as_bytes().to_vec();
    for p in [
        Point::new(-1, 0),
        Point::new(0, -1),
        Point::new(3, 0),
        Point::new(0, 3),
        Point::new(i32::MIN, i32::MAX),
    ] {
        assert_eq!(buf.plot(p, Rgb::red()).unwrap_err(), RasterError::OutOfBounds);
        assert_eq!(buf.as_bytes(), &before[..]);
    }
}

#[test]
fn get_out_of_bounds_is_none() {
    let buf = PixelBuffer::create(2, 2).unwrap();
    assert!(buf.get(Point::new(2, 0)).is_none());
    assert!(buf.get(Point::new(0, -1)).is_none());
}

#[test]
fn resize_reallocates_to_new_dimensions() {
    let mut buf = PixelBuffer::create(10, 10).unwrap();
    buf.plot(Point::new(5, 5), Rgb::red()).unwrap();
    buf.resize(20, 15).unwrap();
    assert_eq!(buf.as_bytes().len(), 20 * 15 * 4);
    // Prior contents are discarded.
    for b in buf.as_bytes() {
        assert_eq!(*b, 0);
    }
}

#[test]
fn resize_zero_dimension_fails_and_keeps_buffer() {
    let mut buf = PixelBuffer::create(10, 10).unwrap();
    assert_eq!(buf.resize(0, 8).unwrap_err(), RasterError::AllocationError);
    assert_eq!(buf.as_bytes().len(), 10 * 10 * 4);
}

#[test]
fn palette_colors() {
    let cases = [
        (Rgb::black(), (0x00, 0x00, 0x00)),
        (Rgb::white(), (0xff, 0xff, 0xff)),
        (Rgb::red(), (0xff, 0x00, 0x00)),
        (Rgb::orange(), (0xff, 0x80, 0x00)),
        (Rgb::yellow(), (0xff, 0xff, 0x00)),
        (Rgb::chartreuse(), (0x80, 0xff, 0x00)),
        (Rgb::green(), (0x00, 0xff, 0x00)),
        (Rgb::spring_green(), (0x00, 0xff, 0x80)),
        (Rgb::cyan(), (0x00, 0xff, 0xff)),
        (Rgb::azure(), (0x00, 0x80, 0xff)),
        (Rgb::blue(), (0x00, 0x00, 0xff)),
        (Rgb::violet(), (0x80, 0x00, 0xff)),
        (Rgb::magenta(), (0xff, 0x00, 0xff)),
        (Rgb::rose(), (0xff, 0x00, 0x80)),
    ];
    for (c, (r, g, b)) in cases {
        assert_eq!((c.r, c.g, c.b), (r, g, b));
    }
    let c = Rgb::new(1, 2, 3);
    assert_eq!((c.r, c.g, c.b), (1, 2, 3));
    let p = Point::new(-7, 9);
    assert_eq!((p.x, p.y), (-7, 9));
}
