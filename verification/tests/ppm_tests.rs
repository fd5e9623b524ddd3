use ppm_image::Coord;
use ppm_image::ImagePPM;
use ppm_image::Pixel;
use ppm_image::lerp;

#[test]
fn bare_basics() {
    let mut dot: ImagePPM = ImagePPM::new(3, 3, Pixel::purple());
    *dot.get_mut(0, 0).unwrap() = Pixel::white();
    *dot.get_mut(1, 0).unwrap() = Pixel::white();
    *dot.get_mut(2, 0).unwrap() = Pixel::white();

    *dot.get_mut(0, 1).unwrap() = Pixel::white();
    *dot.get_mut(0, 2).unwrap() = Pixel::white();

    *dot.get_mut(0, 1).unwrap() = Pixel::white();
    *dot.get_mut(2, 1).unwrap() = Pixel::white();

    *dot.get_mut(1, 1).unwrap() = Pixel::black();

    *dot.get_mut(2, 2).unwrap() = Pixel::white();
    *dot.get_mut(1, 2).unwrap() = Pixel::white();

    println!("{}", dot.render());

    let expected = r#"P3
3 3
255
255 255 255
255 255 255
255 255 255
255 255 255
  0   0   0
255 255 255
255 255 255
255 255 255
255 255 255
"#;
    assert_eq!(expected, dot.render());
}

#[test]
fn color_square() {
    let mut sq = ImagePPM::new(255, 255, Pixel::black());
    for y in 0..255usize {
        for x in 0..255usize {
            let ok = sq.set(x, y, Pixel::new(x as u8, y as u8, 0));
            assert!(ok);
        }
    }
    let text = sq.render();
    let lines: Vec<&str> = text.lines().collect();
    assert_eq!(lines.len(), 3 + 255 * 255);
    assert_eq!(lines[0], "P3");
    assert_eq!(lines[1], "255 255");
    assert_eq!(lines[2], "255");
    // the top output row is the top grid row: y = 254, x = 0..255
    assert_eq!(lines[3], "  0 254   0");
    // the last line is the bottom-right cell: x = 254, y = 0
    assert_eq!(lines[3 + 255 * 255 - 1], "254   0   0");
}

#[test]
fn get_and_set_bounds() {
    let bg = Pixel::blue();
    let mut img = ImagePPM::new(4, 3, bg);
    assert_eq!(*img.get(0, 0).unwrap(), bg);
    assert_eq!(*img.get(3, 2).unwrap(), bg);
    assert!(img.get(4, 0).is_none());
    assert!(img.get(0, 3).is_none());
    assert!(img.get(17, 17).is_none());

    let c = Pixel::new(1, 2, 3);
    assert!(img.set(2, 1, c));
    assert_eq!(*img.get(2, 1).unwrap(), c);
    assert_eq!(*img.get(1, 2).unwrap(), bg);

    // an out-of-bounds write reports failure and changes nothing
    assert!(!img.set(4, 0, c));
    assert!(!img.set(0, 3, c));
    assert!(img.get_mut(9, 9).is_none());
    for y in 0..3usize {
        for x in 0..4usize {
            let expect = if (x, y) == (2, 1) { c } else { bg };
            assert_eq!(*img.get(x, y).unwrap(), expect);
        }
    }
}

#[test]
fn line_degenerate_paints_one_cell() {
    let bg = Pixel::black();
    let red = Pixel::red();
    let mut img = ImagePPM::new(5, 5, bg);
    img.draw_line(Coord::new(2, 3), Coord::new(2, 3), red);
    for y in 0..5usize {
        for x in 0..5usize {
            let expect = if (x, y) == (2, 3) { red } else { bg };
            assert_eq!(*img.get(x, y).unwrap(), expect);
        }
    }
}

#[test]
fn line_endpoint_always_painted() {
    let bg = Pixel::black();
    let c = Pixel::green();
    let mut img = ImagePPM::new(3, 2, bg);
    // the walk itself never lands on (2, 1); the endpoint write does
    img.draw_line(Coord::new(0, 0), Coord::new(2, 1), c);
    assert_eq!(*img.get(2, 1).unwrap(), c);
    assert_eq!(*img.get(0, 0).unwrap(), c);
    assert_eq!(*img.get(1, 0).unwrap(), c);
    assert_eq!(*img.get(1, 1).unwrap(), bg);
    assert_eq!(*img.get(2, 0).unwrap(), bg);
    assert_eq!(*img.get(0, 1).unwrap(), bg);
}

#[test]
fn line_diagonal() {
    let bg = Pixel::white();
    let c = Pixel::blue();
    let mut img = ImagePPM::new(4, 4, bg);
    img.draw_line(Coord::new(0, 0), Coord::new(3, 3), c);
    for y in 0..4usize {
        for x in 0..4usize {
            let expect = if x == y { c } else { bg };
            assert_eq!(*img.get(x, y).unwrap(), expect);
        }
    }
}

#[test]
fn line_reversed_direction() {
    let bg = Pixel::black();
    let c = Pixel::unit();
    let mut img = ImagePPM::new(4, 2, bg);
    // walking toward smaller coordinates takes the ceiling of each offset
    img.draw_line(Coord::new(3, 1), Coord::new(0, 0), c);
    let painted = [(3usize, 1usize), (2, 0), (1, 0), (0, 0)];
    for y in 0..2usize {
        for x in 0..4usize {
            let expect = if painted.contains(&(x, y)) { c } else { bg };
            assert_eq!(*img.get(x, y).unwrap(), expect);
        }
    }
}

#[test]
fn circle_excludes_boundary() {
    let bg = Pixel::black();
    let c = Pixel::purple();
    let mut img = ImagePPM::new(5, 5, bg);
    img.draw_circle(Coord::new(2, 2), 2, c);
    for y in 0..5usize {
        for x in 0..5usize {
            let dx = (x as i64 - 2).unsigned_abs();
            let dy = (y as i64 - 2).unsigned_abs();
            // strictly inside radius 2: the 3 x 3 block around the center
            let inside = dx * dx + dy * dy < 4;
            let expect = if inside { c } else { bg };
            assert_eq!(*img.get(x, y).unwrap(), expect, "cell ({}, {})", x, y);
        }
    }
    // cells at distance exactly the radius stayed background
    assert_eq!(*img.get(0, 2).unwrap(), bg);
    assert_eq!(*img.get(4, 2).unwrap(), bg);
    assert_eq!(*img.get(2, 0).unwrap(), bg);
    assert_eq!(*img.get(2, 4).unwrap(), bg);
}

#[test]
fn circle_radius_zero_paints_nothing() {
    let bg = Pixel::green();
    let mut img = ImagePPM::new(3, 3, bg);
    img.draw_circle(Coord::new(1, 1), 0, Pixel::red());
    for y in 0..3usize {
        for x in 0..3usize {
            assert_eq!(*img.get(x, y).unwrap(), bg);
        }
    }
}

#[test]
fn circle_center_outside_grid() {
    let bg = Pixel::black();
    let c = Pixel::white();
    let mut img = ImagePPM::new(3, 3, bg);
    img.draw_circle(Coord::new(10, 0), 9, c);
    for y in 0..3usize {
        for x in 0..3usize {
            let dx = 10 - x as u64;
            let dy = y as u64;
            let inside = dx * dx + dy * dy < 81;
            let expect = if inside { c } else { bg };
            assert_eq!(*img.get(x, y).unwrap(), expect, "cell ({}, {})", x, y);
        }
    }
}

#[test]
fn render_fresh_buffer() {
    let img = ImagePPM::new(2, 2, Pixel::new(7, 0, 255));
    let expected = "P3\n2 2\n255\n  7   0 255\n  7   0 255\n  7   0 255\n  7   0 255\n";
    assert_eq!(expected, img.render());
}

#[test]
fn render_empty_buffer() {
    let img = ImagePPM::new(0, 0, Pixel::black());
    assert_eq!("P3\n0 0\n255\n", img.render());
}

#[test]
fn render_bytes_matches_render() {
    let mut img = ImagePPM::new(2, 1, Pixel::red());
    img.set(1, 0, Pixel::new(42, 100, 9));
    let bytes = img.render_bytes();
    assert_eq!(String::from_utf8(bytes).unwrap(), img.render());
    assert_eq!("P3\n2 1\n255\n255   0   0\n 42 100   9\n", img.render());
}

#[test]
fn scale_wraps_channels() {
    let p = Pixel::new(200, 2, 3).scale(2);
    // 200 * 2 = 400 wraps to 144 in 8-bit arithmetic
    assert_eq!(p, Pixel::new(144, 4, 6));
    let q = Pixel::white().scale(3);
    // 255 * 3 = 765 = 2 * 256 + 253
    assert_eq!(q, Pixel::new(253, 253, 253));
}

#[test]
fn coord_add_subtract() {
    let a = Coord::new(1, 2);
    let b = Coord::new(3, 4);
    assert_eq!(a.add(b), Coord::new(4, 6));
    assert_eq!(Coord::new(5, 7).subtract(Coord::new(2, 3)), Coord::new(3, 4));
}

#[test]
fn lerp_endpoints() {
    assert_eq!(lerp(3, 9, 0), 3);
    assert_eq!(lerp(3, 9, 1), 9);
}

#[test]
fn color_constants() {
    assert_eq!(Pixel::black(), Pixel::new(0, 0, 0));
    assert_eq!(Pixel::unit(), Pixel::new(1, 1, 1));
    assert_eq!(Pixel::white(), Pixel::new(255, 255, 255));
    assert_eq!(Pixel::red(), Pixel::new(255, 0, 0));
    assert_eq!(Pixel::green(), Pixel::new(0, 255, 0));
    assert_eq!(Pixel::blue(), Pixel::new(0, 0, 255));
    assert_eq!(Pixel::purple(), Pixel::new(255, 0, 255));
}
