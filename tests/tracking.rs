use celestial_nav::frame::component::UnderlyingComponent;
use celestial_nav::frame::detector::Coord;
use celestial_nav::frame::{BitMap, Frame};
use celestial_nav::solver::{centroids, Solver, State};
use celestial_nav::tracker::Tracker;

#[test]
fn two_updates_keep_previous_fix() {
    let mut tracker = Tracker::new(1);
    let pos0 = Coord { x: 10_000, y: 20_000 };
    let pos1 = Coord { x: 11_000, y: 20_500 };
    tracker.update(&vec![pos0], 100);
    tracker.update(&vec![pos1], 200);
    let s = tracker.stars[0];
    assert!(s.acquired);
    assert_eq!((s.past_xy, s.past_t), (pos0, 100));
    assert_eq!((s.xy, s.t), (pos1, 200));
}

#[test]
fn far_jump_is_reacquired() {
    let mut tracker = Tracker::new(1);
    let pos0 = Coord { x: 0, y: 0 };
    let pos1 = Coord { x: 90_000, y: 0 };
    tracker.update(&vec![pos0], 1);
    tracker.update(&vec![pos1], 2);
    let s = tracker.stars[0];
    assert!(s.acquired);
    assert_eq!((s.past_xy, s.past_t, s.xy, s.t), (pos0, 1, pos1, 2));
}

#[test]
fn gated_matching_follows_each_star() {
    let mut tracker = Tracker::new(3);
    let a = Coord { x: 1_000, y: 1_000 };
    let b = Coord { x: 50_000, y: 1_000 };
    tracker.update(&vec![a, b], 0);
    assert_eq!(tracker.acquired_count(), 2);
    assert_eq!(tracker.stars[0].xy, a);
    assert_eq!(tracker.stars[1].xy, b);
    assert!(!tracker.stars[2].acquired);
    let a2 = Coord { x: 1_500, y: 1_200 };
    let b2 = Coord { x: 49_000, y: 1_100 };
    tracker.update(&vec![b2, a2], 1);
    assert_eq!(tracker.stars[0].xy, a2);
    assert_eq!(tracker.stars[0].past_xy, a);
    assert_eq!(tracker.stars[1].xy, b2);
    assert_eq!(tracker.stars[1].past_xy, b);
    assert!(!tracker.stars[2].acquired);
}

#[test]
fn lost_star_keeps_its_fixes() {
    let mut tracker = Tracker::new(2);
    let a = Coord { x: 1_000, y: 1_000 };
    tracker.update(&vec![a], 5);
    tracker.update(&Vec::new(), 6);
    assert_eq!(tracker.acquired_count(), 0);
    assert_eq!((tracker.stars[0].xy, tracker.stars[0].t), (a, 5));
}

#[test]
fn nearest_detection_wins_ties_by_order() {
    let mut tracker = Tracker::new(1);
    tracker.update(&vec![Coord { x: 10_000, y: 10_000 }], 0);
    let left = Coord { x: 9_000, y: 10_000 };
    let right = Coord { x: 11_000, y: 10_000 };
    tracker.update(&vec![left, right], 1);
    assert_eq!(tracker.stars[0].xy, left);
}

#[test]
fn single_pixel_star_tracked_over_four_frames() {
    let mut map = vec![UnderlyingComponent::gray8(0); 16];
    map[2 * 4 + 2] = UnderlyingComponent::gray8(255);
    let mut tracker = Tracker::new(4);
    for t in 0..4i64 {
        let frame = Frame::new(4, 4, BitMap::from_slice(4, 4, &map).unwrap()).ok().unwrap();
        let stars = frame.star_coordinates_finder(4, 1);
        assert_eq!(stars.len(), 1);
        let coords = centroids(&stars, 4, 4);
        tracker.update(&coords, t);
        assert_eq!(tracker.acquired_count(), 1);
        let s = tracker.stars[0];
        assert!((s.xy.x as i64 - 2000).abs() <= 500 && (s.xy.y as i64 - 2000).abs() <= 500);
        assert_eq!(s.t, t);
        if t >= 1 {
            assert_eq!(s.past_xy, s.xy);
            assert_eq!(s.past_t, t - 1);
        }
    }
}

#[test]
fn solver_state_machine() {
    let mut one = vec![UnderlyingComponent::gray8(0); 100];
    one[55] = UnderlyingComponent::gray8(255);
    let mut solver = Solver::new();
    assert_eq!(solver.state(), State::Capture);
    assert!(!solver.resolve(0, None));
    assert_eq!(solver.state(), State::VideoProcessing);
    assert!(!solver.resolve(1, None));
    assert_eq!(solver.state(), State::Capture);

    let frame = Frame::new(10, 10, BitMap::from_slice(10, 10, &one).unwrap()).ok().unwrap();
    assert!(!solver.resolve(2, Some(frame)));
    assert_eq!(solver.state(), State::VideoProcessing);
    assert!(!solver.resolve(3, None));
    assert_eq!(solver.state(), State::Capture);
    assert_eq!(solver.tracker().acquired_count(), 1);
}

#[test]
fn solver_reaches_post_processing_with_four_stars() {
    let mut four = vec![UnderlyingComponent::gray8(0); 100];
    for i in [11usize, 17, 71, 77] {
        four[i] = UnderlyingComponent::gray8(255);
    }
    let mut solver = Solver::new();
    let frame = Frame::new(10, 10, BitMap::from_slice(10, 10, &four).unwrap()).ok().unwrap();
    assert!(!solver.resolve(0, Some(frame)));
    assert!(!solver.resolve(0, None));
    assert_eq!(solver.tracker().acquired_count(), 4);
    assert_eq!(solver.state(), State::PostProcessing);
    assert!(solver.resolve(0, None));
    assert_eq!(solver.state(), State::Capture);
    // the frame is kept when the source gives none
    assert!(!solver.resolve(1, None));
    assert!(!solver.resolve(1, None));
    assert_eq!(solver.state(), State::PostProcessing);
}
