//! Numbers, cost matrices, the assignment step, tracks and lists of tracks.

use bytetrack_rs::tracker::{
    joint_stracks, linear_assignment, next_track_id, reset_track_id_counter, sub_stracks,
    BYTETracker, BoxSource, ConfigurationError, CostMatrix, Detection, FrameStage, Mean, Moments,
    Rect, STrack, Single, TrackIdCounter, TrackState, TrackerConfig,
};

fn single(x: f32) -> Single {
    Single::from_bits(x.to_bits())
}

fn float(s: Single) -> f32 {
    f32::from_bits(s.to_bits())
}

fn costs(rows: &[&[f32]], cols: usize) -> CostMatrix {
    let rows: Vec<Vec<Single>> = rows.iter().map(|r| r.iter().map(|c| single(*c)).collect()).collect();
    CostMatrix::from_rows(rows, cols).unwrap()
}

fn solve(cost: &CostMatrix) -> Option<Vec<usize>> {
    let padded = cost.padded()?;
    let (size, _) = padded.dim();
    let mut square = lapjv::Matrix::<f64>::from_elem((size, size), 0.0);
    for i in 0..size {
        for j in 0..size {
            square[[i, j]] = float(padded.get(i, j)) as f64;
        }
    }
    lapjv::lapjv(&square).ok().map(|(row_to_col, _)| row_to_col)
}

fn moments(fill: f64) -> Moments {
    let b = fill.to_bits();
    Moments::new(
        Mean { cx: b, cy: b, a: b, h: b, vx: b, vy: b, va: b, vh: b },
        [[b; 8]; 8],
    )
}

fn rect() -> Rect {
    Rect::new(single(10.0), single(20.0), single(30.0), single(40.0))
}

#[test]
fn rect_hands_back_its_numbers() {
    let r = Rect::new(single(10.0), single(20.0), single(30.0), single(40.0));
    let tlwh: Vec<f32> = r.to_tlwh().iter().map(|c| float(*c)).collect();
    assert_eq!(tlwh, vec![10.0, 20.0, 30.0, 40.0]);
}

#[test]
fn comparisons_agree_with_the_hardware() {
    let values = [
        0.0f32,
        -0.0,
        1.0,
        -1.0,
        0.1,
        0.5,
        0.6,
        0.85,
        1e6,
        -1e6,
        f32::MIN_POSITIVE,
        -f32::MIN_POSITIVE,
        1e-45,
        -1e-45,
        f32::MAX,
        f32::MIN,
        f32::INFINITY,
        f32::NEG_INFINITY,
        f32::NAN,
        -f32::NAN,
        0.100000009,
        0.099999994,
    ];
    for a in values {
        assert_eq!(single(a).is_nan(), a.is_nan());
        assert_eq!(single(a).is_finite(), a.is_finite());
        for b in values {
            assert_eq!(single(a).le(single(b)), a <= b, "{a} <= {b}");
            assert_eq!(single(a).lt(single(b)), a < b, "{a} < {b}");
            assert_eq!(single(a).ge(single(b)), a >= b, "{a} >= {b}");
            assert_eq!(single(a).gt(single(b)), a > b, "{a} > {b}");
        }
    }
    assert_eq!(single(0.5).to_bits(), 0x3f00_0000);
    assert_eq!(single(1.0).rank(), 0x3f80_0000);
    assert_eq!(single(-1.0).rank(), -0x3f80_0000);
    assert_eq!(single(-0.0).rank(), 0);
}

#[test]
fn cost_matrix_keeps_its_shape() {
    let m = costs(&[&[0.1, 0.2, 0.3], &[0.4, 0.5, 0.6]], 3);
    assert_eq!(m.dim(), (2, 3));
    assert_eq!(float(m.get(1, 2)), 0.6);
    assert_eq!(float(m.get(0, 0)), 0.1);
    let empty = costs(&[], 4);
    assert_eq!(empty.dim(), (0, 4));
    assert!(CostMatrix::from_rows(vec![vec![single(0.0)], vec![]], 1).is_none());
    assert!(CostMatrix::from_rows(vec![vec![single(0.0)]], 2).is_none());
}

#[test]
fn padding_makes_a_square() {
    let m = costs(&[&[0.1, 0.2, 0.3], &[0.4, 0.5, 0.6]], 3);
    let p = m.padded().unwrap();
    assert_eq!(p.dim(), (3, 3));
    for i in 0..3 {
        for j in 0..3 {
            let expected = if i < 2 { float(m.get(i, j)) } else { 1e6 };
            assert_eq!(float(p.get(i, j)), expected);
        }
    }
    let tall = costs(&[&[0.1], &[0.2], &[0.3]], 1);
    let p = tall.padded().unwrap();
    assert_eq!(p.dim(), (3, 3));
    assert_eq!(float(p.get(2, 0)), 0.3);
    assert_eq!(float(p.get(0, 1)), 1e6);
    assert!(costs(&[], 3).padded().is_none());
    assert!(costs(&[&[], &[]], 0).padded().is_none());
}

#[test]
fn assignment_with_no_rows_or_no_columns() {
    let r = linear_assignment(&costs(&[], 3), single(0.8), &None);
    assert!(r.matches.is_empty());
    assert!(r.unmatched_tracks.is_empty());
    assert_eq!(r.unmatched_detections, vec![0, 1, 2]);
    let r = linear_assignment(&costs(&[&[], &[]], 0), single(0.8), &Some(vec![1, 0]));
    assert!(r.matches.is_empty());
    assert_eq!(r.unmatched_tracks, vec![0, 1]);
    assert!(r.unmatched_detections.is_empty());
    let r = linear_assignment(&costs(&[], 0), single(0.8), &None);
    assert!(r.matches.is_empty() && r.unmatched_tracks.is_empty() && r.unmatched_detections.is_empty());
}

#[test]
fn assignment_of_one_pair_at_the_threshold() {
    let at = costs(&[&[0.8]], 1);
    let r = linear_assignment(&at, single(0.8), &solve(&at));
    assert_eq!(r.matches, vec![(0, 0)]);
    assert!(r.unmatched_tracks.is_empty() && r.unmatched_detections.is_empty());
    let above = costs(&[&[0.80000007]], 1);
    let r = linear_assignment(&above, single(0.8), &solve(&above));
    assert!(r.matches.is_empty());
    assert_eq!(r.unmatched_tracks, vec![0]);
    assert_eq!(r.unmatched_detections, vec![0]);
    let nan = costs(&[&[f32::NAN]], 1);
    let r = linear_assignment(&nan, single(0.8), &Some(vec![0]));
    assert!(r.matches.is_empty());
    assert_eq!(r.unmatched_tracks, vec![0]);
    assert_eq!(r.unmatched_detections, vec![0]);
}

#[test]
fn assignment_of_a_rectangle() {
    // Three tracks, two detections: row 0 is nearest to column 1, row 2 to
    // column 0, row 1 is near nothing.
    let wide = costs(&[&[0.9, 0.1], &[0.95, 0.9], &[0.2, 0.85]], 2);
    let solution = solve(&wide);
    assert_eq!(solution, Some(vec![1, 2, 0]));
    let r = linear_assignment(&wide, single(0.8), &solution);
    assert_eq!(r.matches, vec![(0, 1), (2, 0)]);
    assert_eq!(r.unmatched_tracks, vec![1]);
    assert!(r.unmatched_detections.is_empty());

    // Two tracks, three detections; the best pair of row 1 costs too much.
    let long = costs(&[&[0.3, 0.7, 0.9], &[0.9, 0.95, 0.85]], 3);
    let solution = solve(&long);
    let r = linear_assignment(&long, single(0.8), &solution);
    assert_eq!(r.matches, vec![(0, 0)]);
    assert_eq!(r.unmatched_tracks, vec![1]);
    assert_eq!(r.unmatched_detections, vec![1, 2]);

    // No row twice, no column twice, every pair within the threshold.
    let square = costs(&[&[0.1, 0.2, 0.9], &[0.2, 0.1, 0.9], &[0.9, 0.9, 0.95]], 3);
    let r = linear_assignment(&square, single(0.5), &solve(&square));
    assert_eq!(r.matches, vec![(0, 0), (1, 1)]);
    assert_eq!(r.unmatched_tracks, vec![2]);
    assert_eq!(r.unmatched_detections, vec![2]);
    for (k, m) in r.matches.iter().enumerate() {
        assert!(float(square.get(m.0, m.1)) <= 0.5);
        for other in &r.matches[k + 1..] {
            assert_ne!(m.0, other.0);
            assert_ne!(m.1, other.1);
        }
    }
}

#[test]
fn assignment_takes_a_bad_solution_for_a_failure() {
    let m = costs(&[&[0.1, 0.2], &[0.2, 0.1]], 2);
    for bad in [None, Some(vec![]), Some(vec![0]), Some(vec![0, 0]), Some(vec![0, 2]), Some(vec![0, 1, 1])] {
        let r = linear_assignment(&m, single(0.8), &bad);
        assert!(r.matches.is_empty());
        assert_eq!(r.unmatched_tracks, vec![0, 1]);
        assert_eq!(r.unmatched_detections, vec![0, 1]);
    }
    let r = linear_assignment(&m, single(0.8), &Some(vec![1, 0]));
    assert_eq!(r.matches, vec![(0, 1), (1, 0)]);
}

#[test]
fn identifiers_count_up_from_one() {
    let mut ids = TrackIdCounter::new();
    assert_eq!(ids.last(), 0);
    assert_eq!(next_track_id(&mut ids), 1);
    assert_eq!(next_track_id(&mut ids), 2);
    assert_eq!(next_track_id(&mut ids), 3);
    assert_eq!(ids.last(), 3);
    reset_track_id_counter(&mut ids);
    assert_eq!(ids.last(), 0);
    assert_eq!(next_track_id(&mut ids), 1);
    let mut later = TrackIdCounter::resuming_after(41);
    assert_eq!(next_track_id(&mut later), 42);
}

#[test]
fn a_new_track_is_blank() {
    let t = STrack::new(rect(), single(0.7));
    assert_eq!(t.track_id, 0);
    assert_eq!(t.state, TrackState::New);
    assert_eq!(TrackState::default(), TrackState::New);
    assert!(!t.is_activated);
    assert_eq!(float(t.score), 0.7);
    assert_eq!((t.frame_id, t.start_frame, t.tracklet_len), (0, 0, 0));
    assert!(t.mean.is_none() && t.covariance.is_none());
    assert_eq!(t.end_frame(), 0);
    assert!(t.prediction_input().is_none());
    match t.tlwh() {
        BoxSource::Initial(r) => assert_eq!(float(r.width), 30.0),
        BoxSource::Estimate { .. } => panic!("a new track has no estimate"),
    }
}

#[test]
fn activation_confirms_only_in_the_first_frame() {
    let mut ids = TrackIdCounter::new();
    let mut first = STrack::new(rect(), single(0.7));
    first.activate(moments(1.5), 1, &mut ids);
    assert_eq!(first.track_id, 1);
    assert_eq!(first.state, TrackState::Tracking);
    assert!(first.is_activated);
    assert_eq!((first.frame_id, first.start_frame, first.tracklet_len), (1, 1, 0));
    assert_eq!(first.mean.unwrap().h, 1.5f64.to_bits());
    assert_eq!(first.covariance.unwrap()[7][7], 1.5f64.to_bits());
    match first.rect() {
        BoxSource::Estimate { cx, cy, a, h } => {
            assert_eq!([cx, cy, a, h], [1.5f64.to_bits(); 4]);
        }
        BoxSource::Initial(_) => panic!("an activated track has an estimate"),
    }
    let mut later = STrack::new(rect(), single(0.7));
    later.activate(moments(1.5), 7, &mut ids);
    assert_eq!(later.track_id, 2);
    assert!(!later.is_activated);
    assert_eq!((later.frame_id, later.start_frame), (7, 7));
    assert_eq!(ids.last(), 2);
}

#[test]
fn update_and_reactivation() {
    let mut ids = TrackIdCounter::new();
    let mut t = STrack::new(rect(), single(0.7));
    t.activate(moments(1.0), 3, &mut ids);
    let det = STrack::new(rect(), single(0.95));
    t.update(&det, moments(2.0), 4);
    assert_eq!(t.state, TrackState::Tracking);
    assert!(t.is_activated);
    assert_eq!((t.frame_id, t.start_frame, t.tracklet_len), (4, 3, 1));
    assert_eq!(float(t.score), 0.95);
    assert_eq!(t.mean.unwrap().cx, 2.0f64.to_bits());
    t.update(&det, moments(2.5), 5);
    assert_eq!(t.tracklet_len, 2);

    t.mark_lost();
    assert_eq!(t.state, TrackState::Lost);
    let back = STrack::new(rect(), single(0.6));
    t.re_activate(&back, moments(3.0), 9, false, &mut ids);
    assert_eq!(t.track_id, 1);
    assert_eq!(t.state, TrackState::Tracking);
    assert_eq!((t.frame_id, t.start_frame, t.tracklet_len), (9, 3, 0));
    assert_eq!(float(t.score), 0.6);
    assert_eq!(t.mean.unwrap().cx, 3.0f64.to_bits());
    assert_eq!(ids.last(), 1);
    t.re_activate(&back, moments(3.0), 10, true, &mut ids);
    assert_eq!(t.track_id, 2);
    assert_eq!(ids.last(), 2);

    t.mark_removed();
    assert_eq!(t.state, TrackState::Removed);

    // Without an estimate there is nothing to replace.
    let mut blank = STrack::new(rect(), single(0.7));
    blank.update(&det, moments(2.0), 4);
    assert!(blank.mean.is_none() && blank.covariance.is_none());
    assert_eq!(blank.tracklet_len, 1);
    blank.predict(moments(2.0));
    assert!(blank.mean.is_none());
}

#[test]
fn prediction_clears_the_height_velocity_of_a_lost_track() {
    let mut ids = TrackIdCounter::new();
    let mut t = STrack::new(rect(), single(0.7));
    t.activate(moments(1.25), 1, &mut ids);
    let input = t.prediction_input().unwrap();
    assert_eq!(input.mean.vh, 1.25f64.to_bits());
    t.mark_lost();
    let input = t.prediction_input().unwrap();
    assert_eq!(input.mean.vh, 0);
    assert_eq!(f64::from_bits(input.mean.vh), 0.0);
    assert_eq!(input.mean.h, 1.25f64.to_bits());
    assert_eq!(input.mean.va, 1.25f64.to_bits());
    assert_eq!(input.covariance, [[1.25f64.to_bits(); 8]; 8]);
    assert_eq!(moments(4.0).without_height_velocity().mean.vh, 0);

    let mut tracks = vec![t, STrack::new(rect(), single(0.5))];
    STrack::multi_predict(&mut tracks, &vec![moments(7.0), moments(8.0)]);
    assert_eq!(tracks[0].mean.unwrap().vh, 7.0f64.to_bits());
    assert_eq!(tracks[0].track_id, 1);
    assert!(tracks[1].mean.is_none());
}

fn with_id(id: u64, score: f32) -> STrack {
    let mut t = STrack::new(rect(), single(score));
    t.track_id = id;
    t
}

fn ids_of(tracks: &[STrack]) -> Vec<(u64, f32)> {
    tracks.iter().map(|t| (t.track_id, float(t.score))).collect()
}

#[test]
fn joining_keeps_the_first_of_each_identifier() {
    let a = vec![with_id(1, 0.1), with_id(2, 0.2)];
    let b = vec![with_id(2, 0.3), with_id(3, 0.4), with_id(3, 0.5), with_id(1, 0.6), with_id(4, 0.7)];
    let joined = joint_stracks(a, &b);
    assert_eq!(ids_of(&joined), vec![(1, 0.1), (2, 0.2), (3, 0.4), (4, 0.7)]);
    assert_eq!(ids_of(&joint_stracks(Vec::new(), &b)), vec![(2, 0.3), (3, 0.4), (1, 0.6), (4, 0.7)]);
    // The first list comes whole, also where it repeats an identifier.
    let twice = vec![with_id(5, 0.1), with_id(5, 0.2)];
    assert_eq!(ids_of(&joint_stracks(twice, &Vec::new())), vec![(5, 0.1), (5, 0.2)]);
}

#[test]
fn subtracting_goes_by_identifier() {
    let a = vec![with_id(1, 0.1), with_id(2, 0.2), with_id(3, 0.3), with_id(2, 0.4)];
    let b = vec![with_id(2, 0.9), with_id(7, 0.9)];
    assert_eq!(ids_of(&sub_stracks(a.clone(), &b)), vec![(1, 0.1), (3, 0.3)]);
    assert_eq!(ids_of(&sub_stracks(a.clone(), &Vec::new())).len(), 4);
    assert!(sub_stracks(Vec::new(), &b).is_empty());
}

#[test]
fn default_configuration() {
    let config = TrackerConfig::default();
    assert_eq!(float(config.track_thresh), 0.5);
    assert_eq!(float(config.match_thresh), 0.8);
    assert_eq!(config.track_buffer, 30);
    assert_eq!(float(config.frame_rate), 30.0);
}

#[test]
fn configuration_errors() {
    let good = TrackerConfig::default();
    let made = BYTETracker::new(good, single(0.6), 30, TrackIdCounter::new());
    let tracker = made.ok().unwrap();
    assert_eq!(tracker.stage(), FrameStage::Idle);
    assert_eq!(tracker.frame_id(), 0);
    assert_eq!(tracker.max_time_lost(), 30);
    assert_eq!(tracker.last_track_id(), 0);
    assert_eq!(float(tracker.config().match_thresh), 0.8);
    assert!(tracker.tracked_stracks().is_empty());

    let refused = |config: TrackerConfig, start: f32| {
        BYTETracker::new(config, single(start), 30, TrackIdCounter::new()).err()
    };
    let nan = TrackerConfig { track_thresh: single(f32::NAN), ..good };
    assert_eq!(refused(nan, 0.6), Some(ConfigurationError::NonFiniteThreshold));
    let inf = TrackerConfig { match_thresh: single(f32::INFINITY), ..good };
    assert_eq!(refused(inf, 0.6), Some(ConfigurationError::NonFiniteThreshold));
    assert_eq!(refused(good, f32::NEG_INFINITY), Some(ConfigurationError::NonFiniteThreshold));
    let still = TrackerConfig { frame_rate: single(0.0), ..good };
    assert_eq!(refused(still, 0.6), Some(ConfigurationError::NonPositiveFrameRate));
    let back = TrackerConfig { frame_rate: single(-30.0), ..good };
    assert_eq!(refused(back, 0.6), Some(ConfigurationError::NonPositiveFrameRate));
    let none = TrackerConfig { frame_rate: single(f32::NAN), ..good };
    assert_eq!(refused(none, 0.6), Some(ConfigurationError::NonPositiveFrameRate));
    let both = TrackerConfig { frame_rate: single(0.0), track_thresh: single(f32::NAN), ..good };
    assert_eq!(refused(both, 0.6), Some(ConfigurationError::NonFiniteThreshold));
}

#[test]
fn the_frame_counter_counts_the_frames_begun() {
    let mut tracker =
        BYTETracker::new(TrackerConfig::default(), single(0.6), 30, TrackIdCounter::new())
            .ok()
            .unwrap();
    let none = CostMatrix::from_rows(Vec::new(), 0).unwrap();
    for n in 1..=4 {
        let inputs = tracker.begin_frame(Vec::new());
        assert!(inputs.is_empty());
        assert_eq!(tracker.frame_id(), n);
        tracker.store_predictions(&Vec::new());
        tracker.first_association(&none, &None, &Vec::new());
        tracker.second_association(&none, &None, &Vec::new());
        tracker.unconfirmed_association(&none, &None, &Vec::new(), &Vec::new());
        let output = tracker.finish_frame(&none);
        assert!(output.is_empty());
        assert_eq!(tracker.frame_id(), n);
    }
}

#[test]
fn a_frame_step_by_step() {
    let mut tracker =
        BYTETracker::new(TrackerConfig::default(), single(0.6), 30, TrackIdCounter::resuming_after(10))
            .ok()
            .unwrap();
    let none = CostMatrix::from_rows(Vec::new(), 0).unwrap();
    let dets = vec![
        Detection::from_rect(rect(), single(0.9)),
        Detection::from_rect(rect(), single(0.3)),
        Detection::from_rect(rect(), single(0.7)),
    ];
    let inputs = tracker.begin_frame(dets);
    assert!(inputs.is_empty());
    assert_eq!(tracker.detections().len(), 2);
    assert_eq!(tracker.detections_second().len(), 1);
    assert!(tracker.strack_pool().is_empty());
    assert_eq!(tracker.stage(), FrameStage::Prediction);
    tracker.store_predictions(&Vec::new());
    assert_eq!(tracker.stage(), FrameStage::FirstAssociation);
    assert!(tracker.association_fuses_scores());
    assert!(tracker.association_rows().is_empty());
    assert_eq!(tracker.association_columns().len(), 2);
    let first = costs(&[], 2);
    let plan = tracker.next_matches(&first, &None);
    assert_eq!(plan.unmatched_detections, vec![0, 1]);
    tracker.first_association(&first, &None, &Vec::new());
    assert_eq!(tracker.detections_rem().len(), 2);
    assert!(tracker.r_tracked_stracks().is_empty());
    assert!(!tracker.association_fuses_scores());
    assert_eq!(tracker.association_columns().len(), 1);
    assert_eq!(float(tracker.association_columns()[0].score), 0.3);
    tracker.second_association(&costs(&[], 1), &None, &Vec::new());
    assert!(tracker.unconfirmed().is_empty());
    assert!(tracker.association_fuses_scores());
    assert_eq!(tracker.association_columns().len(), 2);
    tracker.unconfirmed_association(&costs(&[], 2), &None, &Vec::new(), &vec![moments(1.0), moments(2.0)]);
    assert_eq!(tracker.stage(), FrameStage::Deduplication);
    assert_eq!(tracker.tracked_stracks().len(), 2);
    assert_eq!(tracker.last_track_id(), 12);
    let output = tracker.finish_frame(&none);
    assert_eq!(output.len(), 2);
    assert_eq!((output[0].track_id, output[1].track_id), (11, 12));
    assert_eq!(output[0].mean.unwrap().cx, 1.0f64.to_bits());
    assert_eq!(output[1].mean.unwrap().cx, 2.0f64.to_bits());
    assert_eq!(float(output[1].score), 0.7);
    assert!(tracker.detections().is_empty());

    // Between frames the tracker can be told of identifiers issued elsewhere.
    tracker.skip_ids_to(5);
    assert_eq!(tracker.last_track_id(), 12);
    tracker.skip_ids_to(20);
    assert_eq!(tracker.last_track_id(), 20);
}

#[test]
fn the_threshold_goes_by_the_association() {
    // One track and one detection that cost 0.6 together: the second
    // association, which accepts up to 0.5, refuses the pair; the first and
    // the third, up to 0.8 and 0.7, take it.
    let mut tracker =
        BYTETracker::new(TrackerConfig::default(), single(0.6), 30, TrackIdCounter::new())
            .ok()
            .unwrap();
    let cost = costs(&[&[0.6]], 1);
    let solution = Some(vec![0]);
    assert_eq!(tracker.next_matches(&cost, &solution).matches, vec![(0, 0)]);
    tracker.begin_frame(vec![Detection::from_rect(rect(), single(0.3))]);
    tracker.store_predictions(&Vec::new());
    assert_eq!(tracker.next_matches(&cost, &solution).matches, vec![(0, 0)]);
    let high = costs(&[&[0.80000007]], 1);
    assert!(tracker.next_matches(&high, &solution).matches.is_empty());
    tracker.first_association(&costs(&[], 0), &None, &Vec::new());
    assert_eq!(tracker.stage(), FrameStage::SecondAssociation);
    assert!(tracker.next_matches(&cost, &solution).matches.is_empty());
    assert_eq!(tracker.next_matches(&costs(&[&[0.5]], 1), &solution).matches, vec![(0, 0)]);
    tracker.second_association(&costs(&[], 1), &None, &Vec::new());
    assert_eq!(tracker.stage(), FrameStage::UnconfirmedAssociation);
    assert_eq!(tracker.next_matches(&costs(&[&[0.7]], 1), &solution).matches, vec![(0, 0)]);
    assert!(tracker.next_matches(&costs(&[&[0.70000005]], 1), &solution).matches.is_empty());
}
