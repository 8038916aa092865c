//! Panoramas, cubes and the numbers they are made with.
use lbr::environment::{
    corners, cube_texels, environment_address, reversed_bits, says_hdr, Environment, RgbImage,
};
use lbr::mesh::Float4;
use lbr::radiance::has_sound_runs;

fn srgb_to_linear(c: f32) -> f32 {
    if c <= 0.04045 {
        c / 12.92
    } else {
        ((c + 0.055) / 1.055).powf(2.4)
    }
}

fn linear(exposure: f32) -> impl Fn(u8) -> u32 {
    move |b: u8| (srgb_to_linear(b as f32 / 255.0) * exposure).to_bits()
}

fn red(e: &Environment, p: usize) -> f32 {
    f32::from_bits(e.rgb[p].x)
}

#[test]
fn from_ldr_image_linearizes_and_applies_exposure() {
    let img = image::DynamicImage::ImageRgb8(image::RgbImage::from_pixel(
        2,
        2,
        image::Rgb([128, 128, 128]),
    ));
    let rgb8 = img.to_rgb8();
    let img = RgbImage { width: rgb8.width(), height: rgb8.height(), rgb: rgb8.into_raw() };
    let env = Environment::from_ldr_image(&img, linear(1.0));
    assert_eq!((env.width, env.height), (2, 2));
    let value = red(&env, 0);
    assert!((value - 0.216).abs() < 0.01, "{value}");

    let env2 = Environment::from_ldr_image(&img, linear(2.0));
    assert!((red(&env2, 0) - 2.0 * value).abs() < 1e-5);
}

fn png(width: u32, height: u32, color: [u8; 3]) -> Vec<u8> {
    let png = image::DynamicImage::ImageRgb8(image::RgbImage::from_pixel(
        width,
        height,
        image::Rgb(color),
    ));
    let mut bytes = Vec::new();
    png.write_to(&mut std::io::Cursor::new(&mut bytes), image::ImageFormat::Png).unwrap();
    bytes
}

#[test]
fn from_bytes_auto_detects_format() {
    let png_bytes = png(2, 1, [255, 0, 0]);
    let env = Environment::from_bytes(&png_bytes, linear(1.0)).unwrap();
    assert!((red(&env, 0) - 1.0).abs() < 1e-4);

    let env = Environment::from_file(&png_bytes, Some("png"), linear(1.0)).unwrap();
    assert!((red(&env, 0) - 1.0).abs() < 1e-4);

    let hdr = hdr_bytes();
    let env = Environment::from_file(&hdr, Some("hdr"), linear(1.0)).unwrap();
    let max = env.rgb.iter().fold(0.0f32, |m, p| m.max(f32::from_bits(p.x)));
    assert!(max > 1.0);
}

/// A panorama of two pixels: bright red and dark blue.
fn hdr_bytes() -> Vec<u8> {
    let mut bytes = b"#?RADIANCE\nFORMAT=32-bit_rle_rgbe\n\n-Y 1 +X 2\n".to_vec();
    bytes.extend_from_slice(&[128, 0, 0, 131, 0, 0, 128, 127]);
    bytes
}

#[test]
fn tests_decodes_repo_hdr_if_present() {
    let env = Environment::from_hdr_bytes(&hdr_bytes()).unwrap();
    assert!(env.width > 0 && env.height > 0);
    assert_eq!(env.rgb.len(), (env.width * env.height) as usize);
    assert!(env.rgb.iter().any(|p| f32::from_bits(p.x) > 0.0));
    assert_eq!(red(&env, 0), 4.0);
    assert_eq!(f32::from_bits(env.rgb[1].z), 0.25);
}

#[test]
fn the_first_bytes_tell_radiance_from_the_rest() {
    let env = Environment::from_bytes(&hdr_bytes(), linear(1.0)).unwrap();
    assert_eq!(red(&env, 0), 4.0);
    assert!(Environment::from_bytes(b"#?RADIANCE and no more", linear(1.0)).is_none());
    assert!(Environment::from_bytes(b"no picture", linear(1.0)).is_none());
    assert!(Environment::from_file(&png(1, 1, [0, 0, 0]), Some("hdr"), linear(1.0)).is_none());
    assert!(Environment::from_ldr_bytes(&png(3, 2, [9, 8, 7]), linear(1.0)).unwrap().rgb.len() == 6);
}

/// A panorama of one line, from the bytes of the line.
fn hdr_line(width: u32, line: &[u8]) -> Vec<u8> {
    let head = format!("#?RADIANCE\nFORMAT=32-bit_rle_rgbe\n\n-Y 1 +X {width}\n");
    [head.as_bytes(), line].concat()
}

#[test]
fn runs_are_unpacked() {
    // A pixel and a marker that repeats it twice.
    let run = hdr_line(3, &[128, 0, 0, 131, 1, 1, 1, 2]);
    assert!(has_sound_runs(&run));
    let env = Environment::from_hdr_bytes(&run).unwrap();
    assert_eq!((red(&env, 0), red(&env, 1), red(&env, 2)), (4.0, 4.0, 4.0));

    // Two markers in a row are the digits of one run: 1 + 1 * 256 pixels.
    let long = hdr_line(258, &[128, 0, 0, 131, 1, 1, 1, 1, 1, 1, 1, 1]);
    assert!(has_sound_runs(&long));
    assert_eq!(red(&Environment::from_hdr_bytes(&long).unwrap(), 257), 4.0);

    // A line that is packed by components, with a piece that looks like a row of markers.
    let mut line = vec![2, 2, 0, 40];
    for _ in 0..3 {
        line.push(40);
        line.extend_from_slice(&[1, 1, 1, 0].repeat(10));
    }
    line.extend_from_slice(&[168, 137]);
    let packed = hdr_line(40, &line);
    assert!(has_sound_runs(&packed));
    let env = Environment::from_hdr_bytes(&packed).unwrap();
    assert_eq!((red(&env, 0), red(&env, 3)), (2.0, 0.0));
}

#[test]
fn rows_of_markers_that_overflow_are_refused() {
    let pixel = [128, 0, 0, 131];
    let rows = |n: usize| [&pixel[..], &[1, 1, 1, 0].repeat(n), &pixel[..]].concat();
    let fits = usize::BITS as usize / 8 - 1;
    let seven = hdr_line(2, &rows(fits));
    assert!(has_sound_runs(&seven));
    assert_eq!(Environment::from_hdr_bytes(&seven).unwrap().rgb.len(), 2);
    let eight = hdr_line(2, &rows(fits + 1));
    assert!(!has_sound_runs(&eight));
    assert!(Environment::from_hdr_bytes(&eight).is_none());
    assert!(Environment::from_bytes(&eight, linear(1.0)).is_none());
    assert!(Environment::from_ldr_bytes(&eight, linear(1.0)).is_none());
    // Behind a line that is refused, or in a picture without columns, nothing is unpacked.
    assert!(has_sound_runs(&hdr_line(1, &rows(fits + 1))));
    assert!(has_sound_runs(&hdr_line(0, &rows(fits + 1))));
    assert!(has_sound_runs(&hdr_line(2, &[1, 1, 1, 0].repeat(20))));
}

#[test]
fn endings_are_read_in_any_case() {
    assert!(says_hdr("hdr") && says_hdr("HDR") && says_hdr("hDr"));
    assert!(!says_hdr("png") && !says_hdr("hdrx") && !says_hdr(""));
}

#[test]
fn the_setting_wins_where_it_is_an_address() {
    assert_eq!(environment_address(None).to_string(), "test:test.hdr");
    assert_eq!(environment_address(Some("no address")).to_string(), "test:test.hdr");
    assert_eq!(environment_address(Some("mod:sky.png")).to_string(), "mod:sky.png");
}

#[test]
fn cubes_are_filled_face_by_face() {
    let out = cube_texels(3, |f, x, y| Float4 { x: f, y: x, z: y, w: 1 });
    assert_eq!(out.len(), 54);
    assert_eq!(out[0], Float4 { x: 0, y: 0, z: 0, w: 1 });
    assert_eq!(out[(2 * 3 + 1) * 3 + 2], Float4 { x: 2, y: 2, z: 1, w: 1 });
    assert_eq!(out[53], Float4 { x: 5, y: 2, z: 2, w: 1 });
}

#[test]
fn neighbours_are_held_at_the_edges() {
    let c = corners(10, 4, 3, 1, 1);
    assert_eq!((c.here, c.right, c.below, c.diagonal), (15, 16, 19, 20));
    let c = corners(0, 4, 3, 3, 2);
    assert_eq!((c.here, c.right, c.below, c.diagonal), (11, 11, 11, 11));
}

#[test]
fn bits_are_reversed() {
    assert_eq!(reversed_bits(1), 0x8000_0000);
    assert_eq!(reversed_bits(0x1234_5678), 0x1234_5678u32.reverse_bits());
    assert_eq!(reversed_bits(reversed_bits(77)), 77);
}
