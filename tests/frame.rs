use celestial_nav::frame::component::{Rgb8, UnderlyingComponent, YCbCr8};
use celestial_nav::frame::{BitMap, Frame};
use celestial_nav::Error;

fn gray_map(w: usize, h: usize, lit: &[(usize, usize, u8)]) -> Vec<UnderlyingComponent> {
    let mut map = vec![UnderlyingComponent::gray8(0); w * h];
    for &(x, y, v) in lit {
        map[y * w + x] = UnderlyingComponent::gray8(v);
    }
    map
}

#[test]
fn get_is_row_major() {
    let map: Vec<UnderlyingComponent> = (0..6u8).map(UnderlyingComponent::gray8).collect();
    let bitmap = BitMap::from_slice(3, 2, &map).unwrap();
    for y in 0..2u16 {
        for x in 0..3u16 {
            let expected = UnderlyingComponent::gray8((y * 3 + x) as u8);
            assert_eq!(*bitmap.get(x, y).unwrap(), expected);
        }
    }
    assert!(bitmap.get(3, 0).is_none());
    assert!(bitmap.get(0, 2).is_none());
    assert!(bitmap.get(u16::MAX, u16::MAX).is_none());
}

#[test]
fn from_slice_rejects_wrong_length() {
    let map = vec![UnderlyingComponent::gray8(0); 5];
    assert!(matches!(BitMap::from_slice(3, 2, &map), Err(Error::VideoDimensionError)));
    let empty: Vec<UnderlyingComponent> = Vec::new();
    assert!(BitMap::from_slice(0, 7, &empty).is_ok());
}

#[test]
fn frame_new_checks_dimensions() {
    let map = gray_map(4, 3, &[]);
    let bitmap = BitMap::from_slice(4, 3, &map).unwrap();
    assert!(matches!(Frame::new(3, 4, bitmap), Err(Error::VideoDimensionError)));
    let bitmap = BitMap::from_slice(4, 3, &map).unwrap();
    let frame = Frame::new(4, 3, bitmap).ok().unwrap();
    assert_eq!(frame.area(), 12);
    assert_eq!(frame.width(), 4);
    assert_eq!(frame.height(), 3);
    assert!(frame.get(4, 0).is_none());
}

#[test]
fn iteration_visits_every_sample_in_row_major_order() {
    let map: Vec<UnderlyingComponent> = (0..12u8).map(UnderlyingComponent::gray8).collect();
    let bitmap = BitMap::from_slice(4, 3, &map).unwrap();
    let mut it = bitmap.iter();
    let mut seen = Vec::new();
    while let Some(c) = it.next() {
        seen.push(*c);
    }
    assert_eq!(seen.len(), 12);
    assert_eq!(seen, map);
    assert!(it.next().is_none());
    let mut again = bitmap.iter();
    assert_eq!(*again.next().unwrap(), map[0]);
}

#[test]
fn rgb_to_gray() {
    assert_eq!(Rgb8 { r: 255, g: 255, b: 255 }.to_gray8(), 255);
    assert_eq!(Rgb8 { r: 0, g: 0, b: 0 }.to_gray8(), 0);
    assert_eq!(Rgb8 { r: 0, g: 255, b: 0 }.to_gray8(), 150);
    assert_eq!(Rgb8 { r: 255, g: 0, b: 0 }.to_gray8(), 76);
    assert_eq!(Rgb8 { r: 0, g: 0, b: 255 }.to_gray8(), 29);
    assert_eq!(UnderlyingComponent::rgb8(0, 255, 0).to_gray8(), 150);
    assert_eq!(UnderlyingComponent::gray8(42).to_gray8(), 42);
}

#[test]
fn achromatic_ycbcr_is_gray() {
    for y in [0u8, 1, 17, 128, 200, 254, 255] {
        let p = YCbCr8 { y, cb: 128, cr: 128 };
        assert_eq!(p.to_rgb8(), Rgb8 { r: y, g: y, b: y });
        assert_eq!(UnderlyingComponent::YCbCr8(p).to_gray8(), y);
    }
}

#[test]
fn chromatic_ycbcr_conversion() {
    let p = YCbCr8 { y: 100, cb: 128, cr: 200 };
    assert_eq!(p.to_rgb8(), Rgb8 { r: 201, g: 49, b: 100 });
    let q = YCbCr8 { y: 10, cb: 0, cr: 0 };
    assert_eq!(q.to_rgb8(), Rgb8 { r: 0, g: 145, b: 0 });
    let z = YCbCr8 { y: 250, cb: 255, cr: 255 };
    assert_eq!(z.to_rgb8(), Rgb8 { r: 255, g: 116, b: 255 });
}

#[test]
fn default_component_is_black_rgb() {
    let d: UnderlyingComponent = Default::default();
    assert_eq!(d, UnderlyingComponent::rgb8(0, 0, 0));
}

#[test]
fn threshold_of_uniform_frame_is_its_level() {
    let map = vec![UnderlyingComponent::gray8(7); 20];
    let frame = Frame::new(5, 4, BitMap::from_slice(5, 4, &map).unwrap()).ok().unwrap();
    assert_eq!(frame.gray8_star_luminosity_threshold(), 7);
}

#[test]
fn threshold_is_clamped() {
    let map = gray_map(4, 4, &[(2, 2, 255)]);
    let frame = Frame::new(4, 4, BitMap::from_slice(4, 4, &map).unwrap()).ok().unwrap();
    assert_eq!(frame.gray8_star_luminosity_threshold(), 255);
}

#[test]
fn threshold_exact_value() {
    // levels 0 and 10, ten of each: mean 5, sigma 5, threshold 30
    let mut map = vec![UnderlyingComponent::gray8(0); 20];
    for c in map.iter_mut().take(10) {
        *c = UnderlyingComponent::gray8(10);
    }
    let frame = Frame::new(20, 1, BitMap::from_slice(20, 1, &map).unwrap()).ok().unwrap();
    assert_eq!(frame.gray8_star_luminosity_threshold(), 30);
}

#[test]
fn threshold_rounds_to_nearest() {
    // mean 0.25, sigma 0.433: mean + 5 sigma = 2.415
    let mut map = vec![UnderlyingComponent::gray8(0); 4];
    map[3] = UnderlyingComponent::gray8(1);
    let frame = Frame::new(4, 1, BitMap::from_slice(4, 1, &map).unwrap()).ok().unwrap();
    assert_eq!(frame.gray8_star_luminosity_threshold(), 2);
}

#[test]
fn threshold_rounds_half_up() {
    // levels 0 and 1, two of each: mean 0.5, sigma 0.5: mean + 5 sigma = 3
    let mut map = vec![UnderlyingComponent::gray8(0); 2];
    map.push(UnderlyingComponent::gray8(1));
    map.push(UnderlyingComponent::gray8(1));
    let frame = Frame::new(4, 1, BitMap::from_slice(4, 1, &map).unwrap()).ok().unwrap();
    assert_eq!(frame.gray8_star_luminosity_threshold(), 3);
}
