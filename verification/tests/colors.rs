use imagex::{Rgb, Rgba};

#[test]
fn rgb_constructors() {
    assert_eq!(Rgb::new(1, 2, 3), Rgb { r: 1, g: 2, b: 3 });
    assert_eq!(Rgb::gray(9), Rgb::new(9, 9, 9));
    assert_eq!(Rgb::black(), Rgb::new(0, 0, 0));
    assert_eq!(Rgb::white(), Rgb::new(255, 255, 255));
    assert_eq!(Rgb::default(), Rgb::black());
}

#[test]
fn rgb_saturating_arithmetic() {
    let a = Rgb::new(200, 10, 128);
    let b = Rgb::new(100, 20, 127);
    assert_eq!(a.saturating_add(&b), Rgb::new(255, 30, 255));
    assert_eq!(a.saturating_sub(&b), Rgb::new(100, 0, 1));
}

#[test]
fn rgb_invert_and_extremes() {
    let c = Rgb::new(0, 100, 255);
    assert_eq!(c.invert(), Rgb::new(255, 155, 0));
    assert_eq!(c.invert().invert(), c);
    assert_eq!(c.max_channel(), 255);
    assert_eq!(c.min_channel(), 0);
    assert_eq!(Rgb::new(7, 3, 5).max_channel(), 7);
    assert_eq!(Rgb::new(7, 3, 5).min_channel(), 3);
}

#[test]
fn rgb_conversions() {
    let c: Rgb = [1u8, 2, 3].into();
    assert_eq!(c, Rgb::new(1, 2, 3));
    let arr: [u8; 3] = c.into();
    assert_eq!(arr, [1, 2, 3]);
    let t: Rgb = (4u8, 5u8, 6u8).into();
    assert_eq!(t, Rgb::new(4, 5, 6));
}

#[test]
fn rgba_constructors() {
    assert_eq!(Rgba::new(1, 2, 3, 4), Rgba { r: 1, g: 2, b: 3, a: 4 });
    assert_eq!(Rgba::from_rgb(1, 2, 3), Rgba::new(1, 2, 3, 255));
    assert_eq!(Rgba::gray(5), Rgba::new(5, 5, 5, 255));
    assert_eq!(Rgba::black_opaque(), Rgba::new(0, 0, 0, 255));
    assert_eq!(Rgba::white_opaque(), Rgba::new(255, 255, 255, 255));
    assert_eq!(Rgba::transparent(), Rgba::new(0, 0, 0, 0));
}

#[test]
fn rgba_conversions() {
    let c = Rgba::new(1, 2, 3, 4);
    assert_eq!(c.to_rgb(), Rgb::new(1, 2, 3));
    let from_rgb: Rgba = Rgb::new(7, 8, 9).into();
    assert_eq!(from_rgb, Rgba::new(7, 8, 9, 255));
    assert_eq!(from_rgb.to_rgb(), Rgb::new(7, 8, 9));
    let arr: [u8; 4] = c.into();
    assert_eq!(arr, [1, 2, 3, 4]);
    let t: Rgba = (1u8, 2u8, 3u8, 4u8).into();
    assert_eq!(t, c);
}

#[test]
fn saturating_add_then_sub_gives_back_unless_clipped() {
    let a = Rgb::new(100, 200, 0);
    let b = Rgb::new(50, 100, 255);
    let back = a.saturating_add(&b).saturating_sub(&b);
    assert_eq!(back.r, 100);
    assert_eq!(back.g, 155);
    assert_eq!(back.b, 0);
}
