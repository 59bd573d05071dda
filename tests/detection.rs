use celestial_nav::frame::component::UnderlyingComponent;
use celestial_nav::frame::detector::Coord;
use celestial_nav::frame::{BitMap, Frame};

fn gray_map(w: usize, h: usize, lit: &[(usize, usize, u8)]) -> Vec<UnderlyingComponent> {
    let mut map = vec![UnderlyingComponent::gray8(0); w * h];
    for &(x, y, v) in lit {
        map[y * w + x] = UnderlyingComponent::gray8(v);
    }
    map
}

#[test]
fn uniform_frame_has_no_star() {
    for level in [0u8, 3, 128, 255] {
        let map = vec![UnderlyingComponent::gray8(level); 64];
        let frame = Frame::new(8, 8, BitMap::from_slice(8, 8, &map).unwrap()).ok().unwrap();
        assert!(frame.star_coordinates_finder(4, 1).is_empty());
    }
}

#[test]
fn empty_frame_has_no_star() {
    let map: Vec<UnderlyingComponent> = Vec::new();
    let frame = Frame::new(0, 0, BitMap::from_slice(0, 0, &map).unwrap()).ok().unwrap();
    assert!(frame.star_coordinates_finder(4, 1).is_empty());
}

#[test]
fn single_blob_centroid() {
    let lit = [(5, 4, 255), (4, 4, 255), (6, 4, 255), (5, 3, 255), (5, 5, 255)];
    let map = gray_map(12, 10, &lit);
    let frame = Frame::new(12, 10, BitMap::from_slice(12, 10, &map).unwrap()).ok().unwrap();
    let stars = frame.star_coordinates_finder(4, 1);
    assert_eq!(stars.len(), 1);
    assert_eq!(stars[0].area, 5);
    assert_eq!(stars[0].brightness, 1275);
    let c = stars[0].centroid();
    assert!((c.x as i64 - 5000).abs() <= 500);
    assert!((c.y as i64 - 4000).abs() <= 500);
    assert_eq!(c, Coord { x: 5000, y: 4000 });
}

#[test]
fn weighted_centroid_is_rounded() {
    // two adjacent pixels 255 at x=3 and 255 at x=4 on row 2: centroid 3.5
    let map = gray_map(16, 8, &[(3, 2, 255), (4, 2, 255)]);
    let frame = Frame::new(16, 8, BitMap::from_slice(16, 8, &map).unwrap()).ok().unwrap();
    let stars = frame.star_coordinates_finder(4, 1);
    assert_eq!(stars.len(), 1);
    assert_eq!(stars[0].x_sum, 3 * 255 + 4 * 255);
    assert_eq!(stars[0].centroid(), Coord { x: 3500, y: 2000 });
}

#[test]
fn stars_are_ranked_and_capped() {
    let lit = [(1, 1, 255), (5, 1, 255), (5, 2, 255), (9, 1, 255), (9, 2, 255), (9, 3, 255), (1, 8, 255)];
    let map = gray_map(12, 12, &lit);
    let frame = Frame::new(12, 12, BitMap::from_slice(12, 12, &map).unwrap()).ok().unwrap();
    let all = frame.star_coordinates_finder(10, 1);
    assert_eq!(all.len(), 4);
    assert_eq!(all.iter().map(|s| s.area).collect::<Vec<_>>(), vec![3, 2, 1, 1]);
    let top = frame.star_coordinates_finder(2, 1);
    assert_eq!(top.len(), 2);
    assert_eq!(top[0].area, 3);
    assert_eq!(top[1].area, 2);
    let big = frame.star_coordinates_finder(10, 2);
    assert_eq!(big.len(), 2);
    assert!(frame.star_coordinates_finder(0, 1).is_empty());
}

#[test]
fn diagonal_pixels_are_separate_blobs() {
    let map = gray_map(10, 10, &[(3, 3, 255), (4, 4, 255)]);
    let frame = Frame::new(10, 10, BitMap::from_slice(10, 10, &map).unwrap()).ok().unwrap();
    let stars = frame.star_coordinates_finder(4, 1);
    assert_eq!(stars.len(), 2);
    assert_eq!(stars[0].centroid(), Coord { x: 3000, y: 3000 });
    assert_eq!(stars[1].centroid(), Coord { x: 4000, y: 4000 });
}
