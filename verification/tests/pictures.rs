//! JPEG and PNG files that can be decoded, and those that are not handed to the decoder.
use lbr::description::has_sound_images;
use lbr::environment::Environment;
use lbr::glb::parse_glb;
use lbr::jpeg::is_sound_jpeg;
use lbr::mesh::{Float2, Float3, Float4};
use lbr::png::is_sound_png;
use lbr::texture::FloatMath;

/// A code for each of the sizes 0, 15, 2 and 1 of a difference.
const SIZES: [(usize, &str); 4] = [(0, "0"), (15, "10"), (2, "110"), (1, "1110")];

/// A block with a level that differs from the one before it, and no coefficients.
fn block(difference: i32) -> String {
    let size = (32 - difference.unsigned_abs().leading_zeros()) as usize;
    let code = SIZES.iter().find(|(s, _)| *s == size).unwrap().1;
    let bits = if difference < 0 { difference - 1 } else { difference };
    let number: String =
        (0..size).rev().map(|i| if (bits >> i) & 1 == 1 { '1' } else { '0' }).collect();
    format!("{code}{number}0")
}

/// The bytes of coded data, filled up with ones.
fn coded(bits: &str) -> Vec<u8> {
    let mut bytes = Vec::new();
    for chunk in bits.as_bytes().chunks(8) {
        let mut byte: u8 = 0;
        for i in 0..8 {
            byte = byte * 2 + u8::from(*chunk.get(i).unwrap_or(&b'1') == b'1');
        }
        bytes.push(byte);
        if byte == 0xff {
            bytes.push(0);
        }
    }
    bytes
}

fn segment(marker: u8, contents: &[u8]) -> Vec<u8> {
    let mut bytes = vec![0xff, marker];
    bytes.extend((contents.len() as u16 + 2).to_be_bytes());
    bytes.extend(contents);
    bytes
}

/// A file with one scan: the kind of its frame, its sides, the blocks of its components, the
/// first step of the quantization table, further segments, and what follows the scan header.
fn file(
    kind: u8,
    sides: (u16, u16),
    components: &[u8],
    step: u16,
    more: &[u8],
    data: &[u8],
) -> Vec<u8> {
    let mut table = vec![0x10];
    table.extend(step.to_be_bytes());
    table.extend([0, 1].repeat(63));
    let mut frame = vec![8];
    frame.extend(sides.1.to_be_bytes());
    frame.extend(sides.0.to_be_bytes());
    frame.push(components.len() as u8);
    let mut scan = vec![components.len() as u8];
    for (i, blocks) in components.iter().enumerate() {
        frame.extend([i as u8 + 1, *blocks, 0]);
        scan.extend([i as u8 + 1, 0]);
    }
    scan.extend([0, if kind == 0xc2 { 0 } else { 63 }, 0]);
    let mut levels = vec![0x00, 1, 1, 1, 1];
    levels.extend([0; 12]);
    levels.extend([0, 15, 2, 1]);
    let mut coefficients = vec![0x10, 1, 1];
    coefficients.extend([0; 14]);
    coefficients.extend([0x00, 0x01]);
    let mut bytes = vec![0xff, 0xd8];
    bytes.extend(segment(0xdb, &table));
    bytes.extend(segment(kind, &frame));
    bytes.extend(segment(0xc4, &levels));
    bytes.extend(segment(0xc4, &coefficients));
    bytes.extend(more);
    bytes.extend(segment(0xda, &scan));
    bytes.extend(data);
    bytes
}

/// Data and the end of the file.
fn ended(bits: &str) -> Vec<u8> {
    let mut bytes = coded(bits);
    bytes.extend([0xff, 0xd9]);
    bytes
}

/// A grey baseline file with blocks of the given differences.
fn grey(sides: (u16, u16), blocks: u8, step: u16, differences: &[i32]) -> Vec<u8> {
    let bits: String = differences.iter().map(|d| block(*d)).collect();
    file(0xc0, sides, &[blocks], step, &[], &ended(&bits))
}

fn decoded(bytes: &[u8]) -> Option<Environment> {
    Environment::from_ldr_bytes(bytes, |b| b as u32)
}

#[test]
fn written_pictures_are_sound_and_decoded() {
    for (width, height) in [(1, 1), (7, 9), (40, 33), (130, 70)] {
        let noise = |x: u32, y: u32| (x * 37 + y * 91 + x * y * 13) as u8;
        let color = image::RgbImage::from_fn(width, height, |x, y| {
            image::Rgb([noise(x, y), noise(y, x), noise(x + y, 3)])
        });
        let grey = image::GrayImage::from_fn(width, height, |x, y| image::Luma([noise(x, y)]));
        for quality in [1, 60, 100] {
            let mut files = [Vec::new(), Vec::new()];
            let [first, second] = &mut files;
            image::codecs::jpeg::JpegEncoder::new_with_quality(first, quality)
                .encode_image(&color)
                .unwrap();
            image::codecs::jpeg::JpegEncoder::new_with_quality(second, quality)
                .encode_image(&grey)
                .unwrap();
            for bytes in files {
                assert!(is_sound_jpeg(&bytes));
                let e = decoded(&bytes).unwrap();
                assert_eq!((e.width, e.height), (width, height));
                let direct = image::load_from_memory(&bytes).unwrap().to_rgb8();
                assert_eq!(e.rgb[0].x, direct.get_pixel(0, 0).0[0] as u32);
                // So small a picture is decoded as far as it goes.
                let cut = &bytes[..bytes.len() - 4];
                assert!(is_sound_jpeg(cut));
                assert_eq!(decoded(cut).is_some(), image::load_from_memory(cut).is_ok());
            }
        }
    }
}

#[test]
fn levels_that_overflow_are_refused() {
    // 32768 * 65535 is the largest multiple of the step that thirty-two bits hold.
    let fits = grey((16, 8), 0x11, 65535, &[32767, 1]);
    assert!(is_sound_jpeg(&fits));
    let e = decoded(&fits).unwrap();
    assert_eq!((e.width, e.height, e.rgb[0].x, e.rgb[15].x), (16, 8, 255, 255));
    let over = grey((16, 8), 0x11, 65535, &[32767, 2]);
    assert!(!is_sound_jpeg(&over));
    assert!(decoded(&over).is_none());
    // Below zero one more fits.
    assert!(is_sound_jpeg(&grey((16, 8), 0x11, 65535, &[-32767, -1])));
    assert!(!is_sound_jpeg(&grey((16, 8), 0x11, 65535, &[-32767, -2])));
    // With such a step, data that break off are not followed.
    assert!(!is_sound_jpeg(&grey((16, 8), 0x11, 65535, &[0])));
    assert!(is_sound_jpeg(&grey((16, 8), 0x11, 255, &[0])));
    // Differences that cancel out do no harm.
    assert!(is_sound_jpeg(&grey((24, 8), 0x11, 65535, &[32767, -2, 1])));
    // A step of one byte needs more blocks.
    let many = vec![32767; 258];
    assert!(is_sound_jpeg(&grey((8 * 257, 8), 0x11, 255, &many[..257])));
    assert!(!is_sound_jpeg(&grey((8 * 258, 8), 0x11, 255, &many)));
    let low = grey((16, 8), 0x11, 8, &[-2, 2]);
    let e = decoded(&low).unwrap();
    assert_eq!((e.rgb[0].x, e.rgb[8].x), (126, 128));
}

#[test]
fn sides_that_cannot_be_rounded_up_are_refused() {
    let zeros = vec![0; 8192];
    for blocks in [0x11, 0x22, 0x12] {
        let wide = grey((65528, 8), blocks, 1, &zeros[..8191]);
        assert!(is_sound_jpeg(&wide));
        assert_eq!(decoded(&wide).unwrap().width, 65528);
        let tall = grey((8, 65528), blocks, 1, &zeros[..8191]);
        assert_eq!(decoded(&tall).unwrap().height, 65528);
        let single = blocks == 0x11;
        let wider = grey((65529, 8), blocks, 1, &zeros);
        assert_eq!(is_sound_jpeg(&wider), single);
        assert_eq!(decoded(&wider).is_some(), single);
        let taller = grey((8, 65529), blocks, 1, &zeros);
        assert_eq!(decoded(&taller).is_some(), single);
    }
}

#[test]
fn restarts_reset_the_levels() {
    let interval = segment(0xdd, &[0, 1]);
    let mut data = coded(&block(32767));
    data.extend([0xff, 0xd0]);
    data.extend(ended(&block(2)));
    let restarted = file(0xc0, (16, 8), &[0x11], 65535, &interval, &data);
    assert!(is_sound_jpeg(&restarted));
    assert_eq!(decoded(&restarted).unwrap().rgb[8].x, 255);
    // Without the marker, the data end too early.
    let bits = format!("{}{}", block(32767), block(2));
    let missing = file(0xc0, (16, 8), &[0x11], 65535, &interval, &ended(&bits));
    assert!(!is_sound_jpeg(&missing));
    // A marker that no interval announces.
    assert!(!is_sound_jpeg(&file(0xc0, (16, 8), &[0x11], 65535, &[], &data)));
}

#[test]
fn usual_layouts_are_sound() {
    let bits = |n: usize| "00".repeat(n);
    for (components, units) in [
        (vec![0x11], 4),
        (vec![0x22], 4),
        (vec![0x11, 0x11, 0x11], 12),
        (vec![0x22, 0x11, 0x11], 6),
        (vec![0x21, 0x11, 0x11], 8),
        (vec![0x12, 0x11, 0x11], 8),
        (vec![0x11, 0x11, 0x11, 0x11], 16),
    ] {
        for kind in [0xc0, 0xc1] {
            let bytes = file(kind, (16, 16), &components, 8, &[], &ended(&bits(units)));
            assert!(is_sound_jpeg(&bytes), "{components:?}");
            assert!(decoded(&bytes).is_some(), "{components:?}");
            let short = file(kind, (16, 16), &components, 8, &[], &ended(&bits(units - 4)));
            assert!(is_sound_jpeg(&short), "{components:?}");
            assert!(decoded(&short).is_some(), "{components:?}");
            let coarse = file(kind, (16, 16), &components, 65535, &[], &ended(&bits(units)));
            assert!(is_sound_jpeg(&coarse), "{components:?}");
            let short = file(kind, (16, 16), &components, 65535, &[], &ended(&bits(units - 4)));
            assert!(!is_sound_jpeg(&short), "{components:?}");
        }
    }
    for components in [vec![0x11, 0x11], vec![0x41, 0x11, 0x11], vec![0x22, 0x22, 0x22]] {
        let bytes = file(0xc0, (16, 16), &components, 8, &[], &ended(&bits(16)));
        assert!(!is_sound_jpeg(&bytes), "{components:?}");
        assert!(decoded(&bytes).is_none(), "{components:?}");
    }
    // A grey picture whose colour space is told behind its frame is refused, before it not.
    for kind in [0xc0, 0xc2] {
        let told = segment(0xee, b"Adobe\0\0\0\0\0\0\x02");
        let behind = file(kind, (8, 8), &[0x11], 8, &told, &ended("00"));
        assert!(!is_sound_jpeg(&behind));
        assert!(decoded(&behind).is_none());
        let mut before = file(kind, (8, 8), &[0x11], 8, &[], &ended("00"));
        before.splice(2..2, told.clone());
        assert!(is_sound_jpeg(&before));
        assert!(decoded(&before).is_some());
        let color = [0x11, 0x11, 0x11];
        let behind = file(kind, (8, 8), &color, 8, &told, &ended("000000"));
        assert!(is_sound_jpeg(&behind));
        assert!(decoded(&behind).is_some());
    }
    // Progressive files are decoded without regard to the data: their levels are cut off.
    let progressive = file(0xc2, (8, 8), &[0x11], 65535, &[], &ended("0"));
    assert!(is_sound_jpeg(&progressive));
    assert_eq!(decoded(&progressive).unwrap().rgb[0].x, 128);
    let rising: String = "1011111111111111".repeat(2);
    let cut = file(0xc2, (16, 8), &[0x11], 65535, &[], &ended(&rising));
    assert!(is_sound_jpeg(&cut));
    assert!(decoded(&cut).is_some());
}

#[test]
fn heads_that_contradict_themselves_are_refused() {
    let fits = grey((8, 8), 0x11, 1, &[0]);
    assert!(is_sound_jpeg(&fits));
    assert!(decoded(&fits).is_some());
    // Fill bytes before a marker, and bytes behind the scan.
    let mut filled = fits.clone();
    filled.insert(2, 0xff);
    assert!(is_sound_jpeg(&filled));
    assert!(decoded(&filled).is_some());
    let mut longer = fits[..fits.len() - 2].to_vec();
    longer.extend([1, 2, 0xff, 0, 3, 0xff, 0xd9, 7, 0xff, 0xda]);
    assert!(is_sound_jpeg(&longer));
    assert!(decoded(&longer).is_some());
    // A second scan, also where the first breaks off, a second frame, a segment that breaks off, a table of a class unknown.
    let mut again = fits[..fits.len() - 2].to_vec();
    again.extend(&fits[fits.len() - 13..]);
    assert!(!is_sound_jpeg(&again));
    let frame = segment(0xc0, &[8, 0, 8, 0, 8, 1, 1, 0x11, 0]);
    let scan = ended(&block(0));
    assert!(!is_sound_jpeg(&file(0xc0, (8, 8), &[0x11], 1, &frame, &scan)));
    assert!(!is_sound_jpeg(&fits[..20]));
    let mut table = vec![0x20, 1];
    table.extend([0; 16]);
    let unknown = segment(0xc4, &table);
    assert!(!is_sound_jpeg(&file(0xc0, (8, 8), &[0x11], 1, &unknown, &scan)));
    let comment = segment(0xfe, b"a comment");
    assert!(is_sound_jpeg(&file(0xc0, (8, 8), &[0x11], 1, &comment, &scan)));
    let odd = segment(0xe0, b"JFIF");
    assert!(!is_sound_jpeg(&file(0xc0, (8, 8), &[0x11], 1, &odd, &scan)));
    // What is no JPEG file is none of this test's business.
    assert!(is_sound_jpeg(b""));
    assert!(is_sound_jpeg(b"\x89PNG\r\n\x1a\n"));
    assert!(is_sound_jpeg(&[0xff, 0xd9, 0]));
}

struct Plain;

impl FloatMath for Plain {
    fn quantize(&self, _b0: u8, _b1: u8, _b2: u8, b3: u8) -> u8 {
        b3
    }

    fn tangents(
        &self,
        _positions: &Vec<Float3>,
        _normals: &Vec<Float3>,
        _tex_coords: &Vec<Float2>,
        _indices: &Vec<u32>,
    ) -> Vec<Float4> {
        Vec::new()
    }
}

/// A binary glTF file with nothing but one image, which begins at the given place of its buffer.
fn scene_with(kind: &str, image: &[u8], offset: usize) -> Vec<u8> {
    let n = image.len();
    let mut buffer = vec![0xff; offset];
    buffer.extend(image);
    buffer.resize((offset + n).div_ceil(4) * 4, 0);
    let mut json = format!(
        "{{ \"asset\": {{ \"version\": \"2.0\" }}, \"buffers\": [ {{ \"byteLength\": {} }} ], \
         \"bufferViews\": [ {{ \"buffer\": 0, \"byteOffset\": {offset}, \"byteLength\": {n} }} ], \
         \"images\": [ {{ \"bufferView\": 0, \"mimeType\": \"image/{kind}\" }} ] }}",
        buffer.len(),
    );
    while json.len() % 4 != 0 {
        json.push(' ');
    }
    let mut bytes = b"glTF".to_vec();
    bytes.extend(2u32.to_le_bytes());
    bytes.extend((28 + json.len() as u32 + buffer.len() as u32).to_le_bytes());
    bytes.extend((json.len() as u32).to_le_bytes());
    bytes.extend(b"JSON");
    bytes.extend(json.as_bytes());
    bytes.extend((buffer.len() as u32).to_le_bytes());
    bytes.extend(b"BIN\0");
    bytes.extend(buffer);
    bytes
}

#[test]
fn images_of_scenes_are_held_to_the_same() {
    let fits = grey((16, 8), 0x11, 65535, &[32767, 1]);
    let over = grey((16, 8), 0x11, 65535, &[32767, 2]);
    let large = grey((65529, 8), 0x22, 1, &vec![0; 8192]);
    for (image, sound) in [(&fits, true), (&over, false), (&large, false)] {
        for offset in [0, 2, 9] {
            let scene = scene_with("jpeg", image, offset);
            assert_eq!(has_sound_images(&scene), sound);
            assert_eq!(parse_glb(&Plain, &scene).is_some(), sound);
        }
    }
    let mut png = Vec::new();
    image::GrayImage::from_pixel(3, 2, image::Luma([9]))
        .write_to(&mut std::io::Cursor::new(&mut png), image::ImageFormat::Png)
        .unwrap();
    let scene = scene_with("png", &png, 5);
    assert!(has_sound_images(&scene));
    assert!(parse_glb(&Plain, &scene).is_some());
    // A JPEG file that calls itself a PNG file cannot be read.
    assert!(parse_glb(&Plain, &scene_with("png", &fits, 0)).is_none());
}

/// The check sum of a chunk.
fn check_sum(bytes: &[u8]) -> u32 {
    let mut sum = u32::MAX;
    for byte in bytes {
        sum ^= *byte as u32;
        for _ in 0..8 {
            sum = if sum & 1 == 1 { (sum >> 1) ^ 0xedb8_8320 } else { sum >> 1 };
        }
    }
    !sum
}

fn chunk(name: &[u8; 4], contents: &[u8]) -> Vec<u8> {
    let mut body = name.to_vec();
    body.extend(contents);
    let mut bytes = (contents.len() as u32).to_be_bytes().to_vec();
    bytes.extend(&body);
    bytes.extend(check_sum(&body).to_be_bytes());
    bytes
}

/// A PNG file of one pixel, whose bytes are given, with a palette.
fn png(color_type: u8, palette: &[u8], pixel: &[u8]) -> Vec<u8> {
    let mut bytes = b"\x89PNG\r\n\x1a\n".to_vec();
    bytes.extend(chunk(b"IHDR", &[0, 0, 0, 1, 0, 0, 0, 1, 8, color_type, 0, 0, 0]));
    bytes.extend(chunk(b"tEXt", b"a\0PLTE"));
    bytes.extend(chunk(b"PLTE", palette));
    let n = pixel.len() as u16 + 1;
    let mut data = vec![0x78, 1, 1];
    data.extend(n.to_le_bytes());
    data.extend((!n).to_le_bytes());
    data.push(0);
    data.extend(pixel);
    data.extend([0; 4]);
    bytes.extend(chunk(b"IDAT", &data));
    bytes.extend(chunk(b"IEND", &[]));
    bytes
}

#[test]
fn palettes_that_are_cut_off_are_refused() {
    let whole = png(3, &[1, 2, 3, 4, 5, 6], &[1]);
    assert!(is_sound_png(&whole));
    let e = decoded(&whole).unwrap();
    assert_eq!((e.rgb[0].x, e.rgb[0].y, e.rgb[0].z), (4, 5, 6));
    assert!(parse_glb(&Plain, &scene_with("png", &whole, 1)).is_some());
    for n in [4, 5] {
        let cut = png(3, &[1, 2, 3, 4, 5][..n], &[1]);
        assert!(!is_sound_png(&cut));
        assert!(decoded(&cut).is_none());
        let scene = scene_with("png", &cut, 1);
        assert!(!has_sound_images(&scene));
        assert!(parse_glb(&Plain, &scene).is_none());
    }
    // A palette that no pixel refers to may have any length.
    let free = png(2, &[1, 2, 3, 4], &[7, 8, 9]);
    assert!(is_sound_png(&free));
    assert_eq!(decoded(&free).unwrap().rgb[0].x, 7);
    assert!(is_sound_png(&whole[..40]));
    assert!(is_sound_png(b""));
}
