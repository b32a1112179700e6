use imagex::pixel::PixelIter;
use imagex::{ImageFormat, Imagex, Rgb, Rgba};
use std::path::Path;
use std::time::Instant;

/// Iterates an image in the ways the benchmark of a local image does, and
/// checks that the read-only iterator hands out every pixel once.
fn iterate_and_count(img: &Imagex) {
    println!(
        "\nImage info: {}x{} ({} pixels)",
        img.width(),
        img.height(),
        img.pixel_count()
    );
    let start = Instant::now();
    let mut count = 0;
    let mut it = img.pixels();
    while let Some(pixel) = it.next() {
        let _ = pixel.r;
        count += 1;
    }
    let duration = start.elapsed();
    let total_pixels = img.pixel_count() as usize;
    assert_eq!(count, total_pixels);
    let ms = duration.as_secs_f64() * 1000.0;
    let fps = total_pixels as f64 / duration.as_secs_f64();
    let mb_per_sec = (total_pixels as f64 * 4.0) / (duration.as_secs_f64() * 1024.0 * 1024.0);
    println!(
        "Read-only iteration: {:.2}ms ({:.0} px/s, {:.2} MB/s)",
        ms, fps, mb_per_sec
    );
    let mut img_mut = img.clone();
    let start = Instant::now();
    let mut it = img_mut.pixels_mut();
    while let Some(pixel) = it.next() {
        *pixel.r = 0;
    }
    let duration = start.elapsed();
    let ms = duration.as_secs_f64() * 1000.0;
    let fps = total_pixels as f64 / duration.as_secs_f64();
    let mb_per_sec = (total_pixels as f64 * 4.0) / (duration.as_secs_f64() * 1024.0 * 1024.0);
    println!(
        "Read-write iteration: {:.2}ms ({:.0} px/s, {:.2} MB/s)",
        ms, fps, mb_per_sec
    );
    let start = Instant::now();
    let mut sum: u64 = 0;
    for y in 0..img.height() {
        let row = img.row(y);
        for chunk in row.chunks_exact(4) {
            sum += chunk[0] as u64;
        }
    }
    let duration = start.elapsed();
    let ms = duration.as_secs_f64() * 1000.0;
    let fps = total_pixels as f64 / duration.as_secs_f64();
    let mb_per_sec = (total_pixels as f64 * 4.0) / (duration.as_secs_f64() * 1024.0 * 1024.0);
    println!(
        "Row-based iteration: {:.2}ms ({:.0} px/s, {:.2} MB/s)",
        ms, fps, mb_per_sec
    );
    println!("   (Red channel sum: {})", sum);
    let start = Instant::now();
    let mut img_fill = Imagex::new(img.width(), img.height());
    img_fill.fill(&Rgba::new(255, 0, 0, 255));
    let duration = start.elapsed();
    let ms = duration.as_secs_f64() * 1000.0;
    let mb_per_sec = (total_pixels as f64 * 4.0) / (duration.as_secs_f64() * 1024.0 * 1024.0);
    println!("Fill operation: {:.2}ms ({:.2} MB/s)", ms, mb_per_sec);
}

#[test]
fn test_read_local_image() {
    let path = "C:\\Users\\admin\\Downloads\\f9d5452a-9273-40ef-a43e-08b1f0d418b5.png";
    if !Path::new(path).exists() {
        println!("Skipping test: file not found -> {}", path);
        return;
    }
    // Loading files belongs to the application around the library; these
    // tests hold no file access, so a present file is only reported.
    println!("Skipping test: files are loaded by the application -> {}", path);
}

#[test]
fn iterating_a_decoded_png_visits_every_pixel() {
    let mut src = Imagex::new(37, 23);
    for y in 0..23 {
        for x in 0..37 {
            src.set_pixel(x, y, Rgba::new(x as u8, y as u8, (x * y) as u8, 255));
        }
    }
    let bytes = src.write_png();
    let img = Imagex::read("generated.png", &bytes).unwrap();
    iterate_and_count(&img);
}

#[test]
fn new_image_has_aligned_stride_and_zeroed_pixels() {
    let img = Imagex::new(5, 3);
    assert_eq!(img.width(), 5);
    assert_eq!(img.height(), 3);
    assert_eq!(img.stride(), 32);
    assert_eq!(img.buffer_size(), 96);
    assert_eq!(img.pixel_count(), 15);
    assert!(img.as_raw().iter().all(|&b| b == 0));
    assert_eq!(img.get_pixel(4, 2), Rgba::transparent());
    assert!(img.info().is_none());
    assert_eq!(img.format(), None);
    assert!(!img.has_alpha());
    assert!(!img.is_empty());
    assert!(Imagex::new(0, 4).is_empty());
    assert!(Imagex::new(4, 0).is_empty());
}

#[test]
fn new_aligned_rounds_rows_up() {
    let img = Imagex::new_aligned(5, 2, 64);
    assert_eq!(img.stride(), 64);
    assert_eq!(img.buffer_size(), 128);
    let img = Imagex::new_aligned(4, 2, 1);
    assert_eq!(img.stride(), 16);
    let img = Imagex::new_aligned(3, 1, 8);
    assert_eq!(img.stride(), 16);
}

#[test]
fn default_image_is_one_pixel() {
    let img = Imagex::default();
    assert_eq!(img.width(), 1);
    assert_eq!(img.height(), 1);
    assert_eq!(img.stride(), 16);
}

#[test]
fn set_then_get_pixel() {
    let mut img = Imagex::new(4, 4);
    let p = Rgba::new(1, 2, 3, 4);
    img.set_pixel(2, 3, p);
    assert_eq!(img.get_pixel(2, 3), p);
    assert_eq!(img.get_pixel(3, 2), Rgba::transparent());
    assert_eq!(img.get_pixel_unchecked(2, 3), p);
    img.set_pixel_unchecked(0, 0, Rgba::white_opaque());
    assert_eq!(img.get_pixel(0, 0), Rgba::white_opaque());
    // row 3 starts at 3 * 16
    assert_eq!(&img.as_raw()[48 + 8..48 + 12], &[1, 2, 3, 4]);
}

#[test]
fn get_pixel_mut_writes_through() {
    let mut img = Imagex::new(3, 2);
    {
        let mut px = img.get_pixel_mut(1, 1);
        assert_eq!(px.to_rgba(), Rgba::transparent());
        px.set(Rgba::new(9, 8, 7, 6));
        *px.g = 100;
        assert_eq!(px.to_rgb(), Rgb::new(9, 100, 7));
    }
    assert_eq!(img.get_pixel(1, 1), Rgba::new(9, 100, 7, 6));
    assert_eq!(img.get_pixel(0, 1), Rgba::transparent());
}

#[test]
fn fill_and_clear_cover_every_pixel_but_not_padding() {
    let mut img = Imagex::new(3, 2);
    img.fill(&Rgba::new(10, 20, 30, 40));
    for y in 0..2 {
        for x in 0..3 {
            assert_eq!(img.get_pixel(x, y), Rgba::new(10, 20, 30, 40));
        }
        assert_eq!(&img.as_raw()[(y as usize) * 16 + 12..(y as usize) * 16 + 16], &[0, 0, 0, 0]);
    }
    img.clear();
    assert_eq!(img.get_pixel(2, 1), Rgba::black_opaque());
    let filled = Imagex::filled(2, 2, &Rgba::white_opaque());
    assert_eq!(filled.get_pixel(1, 1), Rgba::white_opaque());
}

#[test]
fn rows_exclude_padding() {
    let mut img = Imagex::new(2, 2);
    img.set_pixel(1, 1, Rgba::new(5, 6, 7, 8));
    assert_eq!(img.row(1), &[0, 0, 0, 0, 5, 6, 7, 8]);
    img.row_mut(0).copy_from_slice(&[1, 1, 1, 1, 2, 2, 2, 2]);
    assert_eq!(img.get_pixel(1, 0), Rgba::new(2, 2, 2, 2));
    img.as_raw_mut()[0] = 77;
    assert_eq!(img.get_pixel(0, 0).r, 77);
}

#[test]
fn from_raw_copies_packed_rows() {
    let data: Vec<u8> = (0..24).collect();
    let img = Imagex::from_raw(data, 3, 2);
    assert_eq!(img.stride(), 16);
    assert_eq!(img.get_pixel(0, 0), Rgba::new(0, 1, 2, 3));
    assert_eq!(img.get_pixel(2, 1), Rgba::new(20, 21, 22, 23));
    assert_eq!(img.row(1), &[12, 13, 14, 15, 16, 17, 18, 19, 20, 21, 22, 23]);
}

#[test]
fn rgb8_roundtrip() {
    let rgb: Vec<u8> = (0..18).collect();
    let img = Imagex::from_rgb8(&rgb, 3, 2);
    assert_eq!(img.get_pixel(1, 1), Rgba::new(12, 13, 14, 255));
    assert_eq!(img.to_rgb8(), rgb);
}

#[test]
fn pixel_iterator_is_row_major_and_counts_down() {
    let mut img = Imagex::new(2, 2);
    img.set_pixel(0, 0, Rgba::gray(1));
    img.set_pixel(1, 0, Rgba::gray(2));
    img.set_pixel(0, 1, Rgba::gray(3));
    img.set_pixel(1, 1, Rgba::gray(4));
    let mut it: PixelIter = img.pixels();
    assert_eq!(it.len(), 4);
    assert_eq!(it.size_hint(), (4, Some(4)));
    let mut seen = Vec::new();
    while let Some(p) = it.next() {
        seen.push(p.r);
    }
    assert_eq!(seen, vec![1, 2, 3, 4]);
    assert_eq!(it.len(), 0);
    assert!(it.next().is_none());
}

#[test]
fn mutable_pixel_iterator_writes_every_pixel() {
    let mut img = Imagex::new(3, 2);
    let mut n = 0u8;
    {
        let mut it = img.pixels_mut();
        while let Some(mut p) = it.next() {
            p.set(Rgba::new(n, n, n, 255));
            n += 1;
        }
    }
    assert_eq!(n, 6);
    assert_eq!(img.get_pixel(2, 0), Rgba::new(2, 2, 2, 255));
    assert_eq!(img.get_pixel(0, 1), Rgba::new(3, 3, 3, 255));
    assert_eq!(&img.as_raw()[12..16], &[0, 0, 0, 0]);
}

#[test]
fn resize_samples_given_sources() {
    let mut img = Imagex::new(2, 1);
    img.set_pixel(0, 0, Rgba::gray(10));
    img.set_pixel(1, 0, Rgba::gray(20));
    let out = img.resize(4, 2, &[0, 0, 1, 1], &[0, 0]);
    assert_eq!(out.width(), 4);
    assert_eq!(out.height(), 2);
    assert_eq!(out.get_pixel(1, 1), Rgba::gray(10));
    assert_eq!(out.get_pixel(2, 0), Rgba::gray(20));
}

#[test]
fn format_is_taken_from_the_extension() {
    assert_eq!(ImageFormat::from_path("photo.png"), ImageFormat::Png);
    assert_eq!(ImageFormat::from_path("dir/photo.PNG"), ImageFormat::Png);
    assert_eq!(ImageFormat::from_path("a.JpEg"), ImageFormat::Jpeg);
    assert_eq!(ImageFormat::from_path("a.jpg"), ImageFormat::Jpeg);
    assert_eq!(ImageFormat::from_path("a.tif"), ImageFormat::Tiff);
    assert_eq!(ImageFormat::from_path("x.ppm/"), ImageFormat::Ppm);
    assert_eq!(ImageFormat::from_path("x.webp/."), ImageFormat::WebP);
    assert_eq!(ImageFormat::from_path(".png"), ImageFormat::Unknown);
    assert_eq!(ImageFormat::from_path("png"), ImageFormat::Unknown);
    assert_eq!(ImageFormat::from_path("a.png/.."), ImageFormat::Unknown);
    assert_eq!(ImageFormat::from_path("a.txt"), ImageFormat::Unknown);
    assert_eq!(ImageFormat::from_path(""), ImageFormat::Unknown);
    assert_eq!(ImageFormat::from_path("a..gif"), ImageFormat::Gif);
}

#[test]
fn extension_names_each_format() {
    let all = [
        ImageFormat::Png,
        ImageFormat::Jpeg,
        ImageFormat::WebP,
        ImageFormat::Bmp,
        ImageFormat::Gif,
        ImageFormat::Tiff,
        ImageFormat::Ico,
        ImageFormat::Avif,
        ImageFormat::Ppm,
    ];
    for f in all {
        let path = format!("img.{}", f.extension());
        assert_eq!(ImageFormat::from_path(&path), f);
    }
    assert_eq!(ImageFormat::Jpeg.extension(), "jpg");
    assert_eq!(ImageFormat::Unknown.extension(), "");
}

#[test]
fn image_info_defaults() {
    let info = imagex::ImageInfo::new(7, 9);
    assert_eq!(info.width, 7);
    assert_eq!(info.height, 9);
    assert_eq!(info.format, ImageFormat::Unknown);
    assert_eq!(info.color_space, imagex::ColorSpace::Rgba);
    assert_eq!(info.bit_depth, 8);
    assert!(info.has_alpha);
    assert!(info.compression.is_none());
}

#[test]
fn fits_tells_which_sizes_can_be_laid_out() {
    assert!(Imagex::fits(1920, 1080));
    assert!(Imagex::fits(0, 0));
    assert!(!Imagex::fits(u32::MAX, 1));
    assert!(Imagex::fits(1_073_741_820, 0));
    assert!(!Imagex::fits(1_073_741_821, 0));
}

#[test]
fn full_hd_frame_filled_red() {
    let mut img = Imagex::new(1920, 1080);
    img.fill(&Rgba::new(255, 0, 0, 255));
    assert_eq!(img.width(), 1920);
    assert_eq!(img.height(), 1080);
    assert_eq!(img.get_pixel(1919, 1079), Rgba::new(255, 0, 0, 255));
}

#[test]
fn every_pixel_set_white_through_the_mutable_iterator() {
    let mut image = Imagex::new(100, 100);
    let mut it = image.pixels_mut();
    while let Some(mut pixel) = it.next() {
        pixel.set(Rgba::white_opaque());
    }
    assert_eq!(image.get_pixel(0, 0), Rgba::white_opaque());
    assert_eq!(image.get_pixel(99, 99), Rgba::white_opaque());
}

#[test]
fn zero_width_image_yields_no_pixels() {
    let mut img = Imagex::new(0, 3);
    let mut it = img.pixels();
    assert_eq!(it.len(), 0);
    assert!(it.next().is_none());
    let mut it = img.pixels_mut();
    assert_eq!(it.len(), 0);
    assert!(it.next().is_none());
}

#[test]
fn metadata_can_be_replaced() {
    let mut img = Imagex::new(2, 2);
    let mut info = imagex::ImageInfo::new(2, 2);
    info.format = ImageFormat::Png;
    img.set_info(Some(info));
    assert_eq!(img.format(), Some(ImageFormat::Png));
    assert!(img.has_alpha());
    img.set_info(None);
    assert!(img.info().is_none());
}

#[test]
fn upper_case_extensions_name_their_format() {
    assert_eq!(ImageFormat::from_path("dir/img.PPM"), ImageFormat::Ppm);
    assert_eq!(ImageFormat::from_path("IMG.WebP"), ImageFormat::WebP);
    assert_eq!(ImageFormat::from_path("a/b/c.TIFF"), ImageFormat::Tiff);
}

#[test]
fn new_aligned_rounds_to_the_next_multiple() {
    let img = Imagex::new_aligned(5, 1, 8);
    assert_eq!(img.stride(), 24);
    assert_eq!(img.buffer_size(), 24);
    assert!(img.as_raw().iter().all(|&b| b == 0));
    assert!(img.info().is_none());
}
