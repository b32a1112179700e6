use imagex::png::crc32;
use imagex::{ColorSpace, DecodeError, EncodeError, ImageFormat, Imagex, Rgba};
use miniz_oxide::deflate::compress_to_vec_zlib;

fn chunk(tag: &[u8; 4], body: &[u8]) -> Vec<u8> {
    let mut out = Vec::new();
    out.extend_from_slice(&(body.len() as u32).to_be_bytes());
    out.extend_from_slice(tag);
    out.extend_from_slice(body);
    let mut crc_data = tag.to_vec();
    crc_data.extend_from_slice(body);
    out.extend_from_slice(&crc32(&crc_data).to_be_bytes());
    out
}

fn png_with(width: u32, height: u32, color_type: u8, idat: &[u8]) -> Vec<u8> {
    let mut out = vec![0x89, b'P', b'N', b'G', 0x0D, 0x0A, 0x1A, 0x0A];
    let mut ihdr = Vec::new();
    ihdr.extend_from_slice(&width.to_be_bytes());
    ihdr.extend_from_slice(&height.to_be_bytes());
    ihdr.extend_from_slice(&[8, color_type, 0, 0, 0]);
    out.extend(chunk(b"IHDR", &ihdr));
    if !idat.is_empty() {
        out.extend(chunk(b"IDAT", idat));
    }
    out.extend(chunk(b"IEND", &[]));
    out
}

fn sample_image() -> Imagex {
    let mut img = Imagex::new(3, 2);
    img.set_pixel(0, 0, Rgba::new(255, 0, 0, 255));
    img.set_pixel(1, 0, Rgba::new(0, 255, 0, 128));
    img.set_pixel(2, 0, Rgba::new(0, 0, 255, 0));
    img.set_pixel(0, 1, Rgba::new(1, 2, 3, 4));
    img.set_pixel(2, 1, Rgba::new(250, 251, 252, 253));
    img
}

#[test]
fn crc32_of_known_inputs() {
    assert_eq!(crc32(b"IEND"), 0xAE42_6082);
    assert_eq!(crc32(b""), 0);
    assert_eq!(crc32(b"123456789"), 0xCBF4_3926);
}

#[test]
fn png_roundtrip_keeps_pixels() {
    let img = sample_image();
    let bytes = img.write_png();
    assert_eq!(&bytes[..8], &[0x89, b'P', b'N', b'G', 0x0D, 0x0A, 0x1A, 0x0A]);
    assert_eq!(&bytes[bytes.len() - 12..], &[0, 0, 0, 0, b'I', b'E', b'N', b'D', 0xAE, 0x42, 0x60, 0x82]);
    let back = Imagex::read_png(&bytes).unwrap();
    assert_eq!(back.width(), 3);
    assert_eq!(back.height(), 2);
    for y in 0..2 {
        for x in 0..3 {
            assert_eq!(back.get_pixel(x, y), img.get_pixel(x, y));
        }
    }
    let info = back.info().unwrap();
    assert_eq!(info.format, ImageFormat::Png);
    assert_eq!(info.color_space, ColorSpace::Rgba);
    assert_eq!(info.bit_depth, 8);
    assert!(info.has_alpha);
    assert_eq!(info.compression.as_deref(), Some("DEFLATE"));
    assert_eq!(back.format(), Some(ImageFormat::Png));
    assert!(back.has_alpha());
}

#[test]
fn png_rgb_rows_with_filters() {
    // Two RGB pixels per row; row 0 unfiltered, row 1 with the Up filter.
    let raw = [0u8, 10, 20, 30, 40, 50, 60, 2, 1, 1, 1, 2, 2, 2];
    let bytes = png_with(2, 2, 2, &compress_to_vec_zlib(&raw, 6));
    let img = Imagex::read_png(&bytes).unwrap();
    assert_eq!(img.get_pixel(0, 0), Rgba::new(10, 20, 30, 255));
    assert_eq!(img.get_pixel(1, 0), Rgba::new(40, 50, 60, 255));
    assert_eq!(img.get_pixel(0, 1), Rgba::new(11, 21, 31, 255));
    assert_eq!(img.get_pixel(1, 1), Rgba::new(42, 52, 62, 255));
    assert!(!img.has_alpha());
    assert_eq!(img.info().unwrap().color_space, ColorSpace::Rgb);
}

#[test]
fn png_sub_average_and_paeth_filters() {
    // One RGBA row of two pixels per filter.
    let raw = [
        1u8, 5, 5, 5, 5, 1, 1, 1, 1, // Sub: second pixel = 1 + 5
        3, 4, 4, 4, 4, 2, 2, 2, 2, // Average with the row above
        4, 0, 0, 0, 0, 1, 1, 1, 1, // Paeth
    ];
    let bytes = png_with(2, 3, 6, &compress_to_vec_zlib(&raw, 6));
    let img = Imagex::read_png(&bytes).unwrap();
    assert_eq!(img.get_pixel(1, 0), Rgba::new(6, 6, 6, 6));
    // (left 0 + up 5) / 2 = 2, so 4 + 2 = 6; then (6 + 6) / 2 + 2 = 8
    assert_eq!(img.get_pixel(0, 1), Rgba::new(6, 6, 6, 6));
    assert_eq!(img.get_pixel(1, 1), Rgba::new(8, 8, 8, 8));
    // Paeth of (left 0, up 6, upper-left 0) is 6; then of (6, 8, 6) is 8.
    assert_eq!(img.get_pixel(0, 2), Rgba::new(6, 6, 6, 6));
    assert_eq!(img.get_pixel(1, 2), Rgba::new(9, 9, 9, 9));
}

#[test]
fn png_errors() {
    assert!(matches!(Imagex::read_png(&[0x89, b'P']), Err(DecodeError::UnexpectedEof)));
    assert!(matches!(Imagex::read_png(b"notapngfile"), Err(DecodeError::InvalidSignature)));
    assert!(matches!(Imagex::read_png(&png_with(1, 1, 6, &[])), Err(DecodeError::NoImageData)));
    assert!(matches!(
        Imagex::read_png(&png_with(1, 1, 6, &[1, 2, 3, 4])),
        Err(DecodeError::Decompress(_))
    ));
    let short = compress_to_vec_zlib(&[0u8, 1, 2], 6);
    assert!(matches!(
        Imagex::read_png(&png_with(1, 1, 6, &short)),
        Err(DecodeError::DataTooSmall { got: 3, expected: 5 })
    ));
    let bad_filter = compress_to_vec_zlib(&[7u8, 1, 2, 3, 4], 6);
    assert!(matches!(
        Imagex::read_png(&png_with(1, 1, 6, &bad_filter)),
        Err(DecodeError::UnsupportedFilter(7))
    ));
    let mut truncated = png_with(1, 1, 6, &short);
    truncated.truncate(20);
    assert!(matches!(Imagex::read_png(&truncated), Err(DecodeError::UnexpectedEof)));
}

#[test]
fn ppm_roundtrip_drops_alpha() {
    let img = sample_image();
    let bytes = img.write_ppm();
    assert_eq!(&bytes[..11], b"P6\n3 2\n255\n");
    assert_eq!(bytes.len(), 11 + 18);
    let back = Imagex::read_ppm(&bytes).unwrap();
    for y in 0..2 {
        for x in 0..3 {
            let p = img.get_pixel(x, y);
            assert_eq!(back.get_pixel(x, y), Rgba::new(p.r, p.g, p.b, 255));
        }
    }
    assert_eq!(back.format(), Some(ImageFormat::Ppm));
    assert!(!back.has_alpha());
}

#[test]
fn ppm_with_comments_and_spacing() {
    let mut bytes = b"P6 \n# made by hand\n#another\n 2  1 \n255\n".to_vec();
    bytes.extend_from_slice(&[1, 2, 3, 4, 5, 6, 99]);
    let img = Imagex::read_ppm(&bytes).unwrap();
    assert_eq!(img.width(), 2);
    assert_eq!(img.height(), 1);
    assert_eq!(img.get_pixel(1, 0), Rgba::new(4, 5, 6, 255));
}

#[test]
fn ppm_errors() {
    match Imagex::read_ppm(b"P3\n1 1\n255\n") {
        Err(DecodeError::NotP6(line)) => assert_eq!(line.iter().collect::<String>(), "P3"),
        other => panic!("unexpected {:?}", other),
    }
    assert!(matches!(Imagex::read_ppm(&[0xff, b'\n']), Err(DecodeError::InvalidUtf8)));
    assert!(matches!(Imagex::read_ppm(b"P6\n5\n255\n"), Err(DecodeError::MissingDimensions)));
    assert!(matches!(Imagex::read_ppm(b"P6\nx 1\n255\n"), Err(DecodeError::InvalidWidth)));
    assert!(matches!(Imagex::read_ppm(b"P6\n1 -1\n255\n"), Err(DecodeError::InvalidHeight)));
    assert!(matches!(Imagex::read_ppm(b"P6\n1 1\nabc\n"), Err(DecodeError::InvalidMaxValue)));
    assert!(matches!(Imagex::read_ppm(b"P6\n2 1\n255\n\x01\x02"), Err(DecodeError::UnexpectedEof)));
    assert!(matches!(
        Imagex::read_ppm(b"P6\n4294967295 2\n255\n"),
        Err(DecodeError::DimensionsTooLarge)
    ));
}

#[test]
fn read_and_write_choose_by_format() {
    let img = sample_image();
    let png = img.write(ImageFormat::Png).unwrap();
    assert_eq!(png, img.write_png());
    let ppm = img.write(ImageFormat::Ppm).unwrap();
    assert_eq!(ppm, img.write_ppm());
    assert!(matches!(
        img.write(ImageFormat::Bmp),
        Err(EncodeError::UnsupportedFormat(ImageFormat::Bmp))
    ));
    let back = Imagex::read("out/picture.PNG", &png).unwrap();
    assert_eq!(back.get_pixel(1, 0), img.get_pixel(1, 0));
    let back = Imagex::read("picture.ppm", &ppm).unwrap();
    assert_eq!(back.get_pixel(2, 1), Rgba::new(250, 251, 252, 255));
    assert!(matches!(
        Imagex::read("picture.gif", &png),
        Err(DecodeError::UnsupportedFormat(ImageFormat::Gif))
    ));
    assert!(matches!(
        Imagex::read("picture", &png),
        Err(DecodeError::UnsupportedFormat(ImageFormat::Unknown))
    ));
}
