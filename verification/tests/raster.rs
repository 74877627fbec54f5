use tgarender::vec::{Vec2, Vec3};
use tgarender::{Color, Image, ZBuffer};

fn gray(v: u8) -> Color {
    Color::from_raw(&[v], 1)
}

fn colored_pixels(img: &Image) -> Vec<(usize, usize)> {
    let mut out = Vec::new();
    for y in 0..img.height {
        for x in 0..img.width {
            if img.get(x, y).unwrap().b != 0 {
                out.push((x, y));
            }
        }
    }
    out
}

#[test]
fn line_to_itself_colors_one_pixel() {
    let mut img = Image::new(8, 8, 1);
    img.line(Vec2::new(2, 3), Vec2::new(2, 3), &gray(255));
    assert_eq!(colored_pixels(&img), vec![(2, 3)]);
}

#[test]
fn line_diagonal() {
    let mut img = Image::new(8, 8, 1);
    img.line(Vec2::new(0, 0), Vec2::new(3, 3), &gray(255));
    assert_eq!(colored_pixels(&img), vec![(0, 0), (1, 1), (2, 2), (3, 3)]);
}

#[test]
fn line_horizontal_and_vertical() {
    let mut img = Image::new(8, 8, 1);
    img.line(Vec2::new(1, 2), Vec2::new(4, 2), &gray(255));
    assert_eq!(colored_pixels(&img), vec![(1, 2), (2, 2), (3, 2), (4, 2)]);
    let mut img2 = Image::new(8, 8, 1);
    img2.line(Vec2::new(5, 1), Vec2::new(5, 4), &gray(255));
    assert_eq!(colored_pixels(&img2), vec![(5, 1), (5, 2), (5, 3), (5, 4)]);
}

#[test]
fn line_shallow_slope() {
    let mut img = Image::new(8, 8, 1);
    img.line(Vec2::new(0, 0), Vec2::new(5, 2), &gray(255));
    // the minimal-error walk steps up at columns 2 and 4
    assert_eq!(
        colored_pixels(&img),
        vec![(0, 0), (1, 0), (2, 1), (3, 1), (4, 2), (5, 2)]
    );
}

#[test]
fn line_same_pixels_from_either_end() {
    let ends = [
        (Vec2::new(0, 0), Vec2::new(7, 3)),
        (Vec2::new(1, 6), Vec2::new(5, 0)),
        (Vec2::new(3, 0), Vec2::new(3, 7)),
        (Vec2::new(0, 5), Vec2::new(7, 5)),
    ];
    for (a, b) in ends {
        let mut img1 = Image::new(8, 8, 1);
        let mut img2 = Image::new(8, 8, 1);
        img1.line(a, b, &gray(255));
        img2.line(b, a, &gray(255));
        assert_eq!(img1.data, img2.data);
    }
}

#[test]
fn degenerate_triangle_draws_nothing() {
    let mut img = Image::new(8, 8, 1);
    let mut zbuf = ZBuffer::new(8, 8);
    let img_before = img.data.clone();
    let zbuf_before = zbuf.data.clone();
    img.triangle(
        Vec3::new(1, 4, 10),
        Vec3::new(5, 4, 20),
        Vec3::new(7, 4, 30),
        &gray(255),
        &mut zbuf,
    );
    assert_eq!(img.data, img_before);
    assert_eq!(zbuf.data, zbuf_before);
}

#[test]
fn triangle_fills_with_its_depth() {
    let mut img = Image::new(8, 8, 1);
    let mut zbuf = ZBuffer::new(8, 8);
    img.triangle(
        Vec3::new(0, 0, 10),
        Vec3::new(7, 0, 10),
        Vec3::new(0, 7, 10),
        &gray(99),
        &mut zbuf,
    );
    assert_eq!(img.get(1, 1).unwrap().b, 99);
    assert_eq!(zbuf.val(1, 1), 10);
    // an untouched pixel keeps the minimum depth
    assert_eq!(zbuf.val(7, 7), i32::MIN);
    assert_eq!(img.get(7, 7).unwrap().b, 0);
}

#[test]
fn depth_tiebreak_is_order_independent() {
    // the same region drawn at depth 10 (color 1) and depth 20 (color 2)
    let near = |z: i32| {
        [
            Vec3::new(0, 0, z),
            Vec3::new(7, 0, z),
            Vec3::new(0, 7, z),
        ]
    };
    let draw = |first_z: i32, first_c: u8, second_z: i32, second_c: u8| {
        let mut img = Image::new(8, 8, 1);
        let mut zbuf = ZBuffer::new(8, 8);
        let a = near(first_z);
        let b = near(second_z);
        img.triangle(a[0], a[1], a[2], &gray(first_c), &mut zbuf);
        img.triangle(b[0], b[1], b[2], &gray(second_c), &mut zbuf);
        (img.get(1, 1).unwrap().b, zbuf.val(1, 1))
    };
    // larger depth wins in either draw order
    assert_eq!(draw(10, 1, 20, 2), (2, 20));
    assert_eq!(draw(20, 2, 10, 1), (2, 20));
    // reversing which triangle is nearer reverses the winner
    assert_eq!(draw(20, 1, 10, 2), (1, 20));
    assert_eq!(draw(10, 2, 20, 1), (1, 20));
}

#[test]
fn vec_operations() {
    let v = Vec3::new(1, 2, 3);
    let w = Vec3::new(4, -5, 6);
    assert_eq!(v.vec_mul(&w), 4 - 10 + 18);
    assert_eq!(v.to_vec2(), Vec2::new(1, 2));
    assert_eq!(Vec2::new(7, 8), Vec2 { x: 7, y: 8 });
}

#[test]
fn zbuffer_starts_at_minimum() {
    let mut zbuf = ZBuffer::new(3, 2);
    assert_eq!(zbuf.val(2, 1), i32::MIN);
    zbuf.set_val(2, 1, 500);
    assert_eq!(zbuf.val(2, 1), 500);
    assert_eq!(zbuf.val(0, 0), i32::MIN);
}
