//! Whole frames through the tracker, with a constant-velocity filter, box
//! overlaps and an assignment solver on the caller's side.

use bytetrack_rs::tracker::{
    BYTETracker, BoxSource, CostMatrix, Detection, FrameStage, Mean, Moments, Rect, STrack,
    Single, TrackIdCounter, TrackState, TrackerConfig,
};
use bytetrack_rs::tracker::{remove_duplicate_stracks, reset_track_id_counter};
use ndarray::{Array1, Array2};

fn single(x: f32) -> Single {
    Single::from_bits(x.to_bits())
}

fn float(s: Single) -> f32 {
    f32::from_bits(s.to_bits())
}

#[derive(Clone, Copy, Debug)]
struct Boxf {
    x: f32,
    y: f32,
    width: f32,
    height: f32,
}

impl Boxf {
    fn from_tlbr(x1: f32, y1: f32, x2: f32, y2: f32) -> Boxf {
        Boxf { x: x1, y: y1, width: x2 - x1, height: y2 - y1 }
    }

    fn from_xyah(cx: f32, cy: f32, aspect_ratio: f32, height: f32) -> Boxf {
        let width = aspect_ratio * height;
        Boxf { x: cx - width / 2.0, y: cy - height / 2.0, width, height }
    }

    fn from_rect(r: Rect) -> Boxf {
        let [x, y, width, height] = r.to_tlwh();
        Boxf { x: float(x), y: float(y), width: float(width), height: float(height) }
    }

    fn to_rect(&self) -> Rect {
        Rect::new(single(self.x), single(self.y), single(self.width), single(self.height))
    }

    fn to_xyah(&self) -> [f32; 4] {
        let cx = self.x + self.width / 2.0;
        let cy = self.y + self.height / 2.0;
        let aspect_ratio = if self.height > 0.0 { self.width / self.height } else { 0.0 };
        [cx, cy, aspect_ratio, self.height]
    }

    fn area(&self) -> f32 {
        self.width * self.height
    }

    fn iou(&self, other: &Boxf) -> f32 {
        let x1 = self.x.max(other.x);
        let y1 = self.y.max(other.y);
        let x2 = (self.x + self.width).min(other.x + other.width);
        let y2 = (self.y + self.height).min(other.y + other.height);
        let inter_area = (x2 - x1).max(0.0) * (y2 - y1).max(0.0);
        let union_area = self.area() + other.area() - inter_area;
        if union_area > 0.0 {
            inter_area / union_area
        } else {
            0.0
        }
    }
}

struct Filter {
    motion_mat: Array2<f64>,
    update_mat: Array2<f64>,
    std_weight_position: f64,
    std_weight_velocity: f64,
}

impl Filter {
    fn new() -> Filter {
        let ndim = 4;
        let mut motion_mat = Array2::eye(2 * ndim);
        for i in 0..ndim {
            motion_mat[[i, ndim + i]] = 1.0;
        }
        let mut update_mat = Array2::zeros((ndim, 2 * ndim));
        for i in 0..ndim {
            update_mat[[i, i]] = 1.0;
        }
        Filter {
            motion_mat,
            update_mat,
            std_weight_position: 1.0 / 20.0,
            std_weight_velocity: 1.0 / 160.0,
        }
    }

    fn initiate(&self, measurement: [f64; 4]) -> (Array1<f64>, Array2<f64>) {
        let mut mean = Array1::zeros(8);
        for i in 0..4 {
            mean[i] = measurement[i];
        }
        let h = measurement[3];
        let std = [
            2.0 * self.std_weight_position * h,
            2.0 * self.std_weight_position * h,
            1e-2,
            2.0 * self.std_weight_position * h,
            10.0 * self.std_weight_velocity * h,
            10.0 * self.std_weight_velocity * h,
            1e-5,
            10.0 * self.std_weight_velocity * h,
        ];
        let mut cov = Array2::zeros((8, 8));
        for i in 0..8 {
            cov[[i, i]] = std[i] * std[i];
        }
        (mean, cov)
    }

    fn predict(&self, mean: &Array1<f64>, covariance: &Array2<f64>) -> (Array1<f64>, Array2<f64>) {
        let h = mean[3];
        let std = [
            self.std_weight_position * h,
            self.std_weight_position * h,
            1e-2,
            self.std_weight_position * h,
            self.std_weight_velocity * h,
            self.std_weight_velocity * h,
            1e-5,
            self.std_weight_velocity * h,
        ];
        let mut motion_cov = Array2::zeros((8, 8));
        for i in 0..8 {
            motion_cov[[i, i]] = std[i] * std[i];
        }
        let new_mean = self.motion_mat.dot(mean);
        let new_covariance = self.motion_mat.dot(covariance).dot(&self.motion_mat.t()) + motion_cov;
        (new_mean, new_covariance)
    }

    fn project(&self, mean: &Array1<f64>, covariance: &Array2<f64>) -> (Array1<f64>, Array2<f64>) {
        let h = mean[3];
        let std = [
            self.std_weight_position * h,
            self.std_weight_position * h,
            1e-1,
            self.std_weight_position * h,
        ];
        let mut innovation_cov = Array2::zeros((4, 4));
        for i in 0..4 {
            innovation_cov[[i, i]] = std[i] * std[i];
        }
        let mean_proj = self.update_mat.dot(mean);
        let covariance_proj =
            self.update_mat.dot(covariance).dot(&self.update_mat.t()) + innovation_cov;
        (mean_proj, covariance_proj)
    }

    fn update(
        &self,
        mean: &Array1<f64>,
        covariance: &Array2<f64>,
        measurement: [f64; 4],
    ) -> (Array1<f64>, Array2<f64>) {
        let (projected_mean, projected_cov) = self.project(mean, covariance);
        let innovation = Array1::from_vec(measurement.to_vec()) - projected_mean;
        let mut nm = nalgebra::Matrix4::<f64>::zeros();
        for i in 0..4 {
            for j in 0..4 {
                nm[(i, j)] = projected_cov[[i, j]];
            }
        }
        let inv = nm.try_inverse().expect("4x4 matrix inversion failed");
        let mut s_inv = Array2::zeros((4, 4));
        for i in 0..4 {
            for j in 0..4 {
                s_inv[[i, j]] = inv[(i, j)];
            }
        }
        let pht = covariance.dot(&self.update_mat.t());
        let kalman_gain = pht.dot(&s_inv);
        let new_mean = mean + kalman_gain.dot(&innovation);
        let new_covariance = covariance - kalman_gain.dot(&projected_cov).dot(&kalman_gain.t());
        (new_mean, new_covariance)
    }
}

fn pack(mean: &Array1<f64>, covariance: &Array2<f64>) -> Moments {
    let mut rows = [[0u64; 8]; 8];
    for i in 0..8 {
        for j in 0..8 {
            rows[i][j] = covariance[[i, j]].to_bits();
        }
    }
    Moments::new(
        Mean {
            cx: mean[0].to_bits(),
            cy: mean[1].to_bits(),
            a: mean[2].to_bits(),
            h: mean[3].to_bits(),
            vx: mean[4].to_bits(),
            vy: mean[5].to_bits(),
            va: mean[6].to_bits(),
            vh: mean[7].to_bits(),
        },
        rows,
    )
}

fn unpack(m: &Moments) -> (Array1<f64>, Array2<f64>) {
    let e = m.mean;
    let mean = Array1::from_vec(
        [e.cx, e.cy, e.a, e.h, e.vx, e.vy, e.va, e.vh].iter().map(|b| f64::from_bits(*b)).collect(),
    );
    let mut covariance = Array2::zeros((8, 8));
    for i in 0..8 {
        for j in 0..8 {
            covariance[[i, j]] = f64::from_bits(m.covariance[i][j]);
        }
    }
    (mean, covariance)
}

fn moments_of(track: &STrack) -> Moments {
    Moments::new(track.mean.unwrap(), track.covariance.unwrap())
}

fn current_box(track: &STrack) -> Boxf {
    match track.tlwh() {
        BoxSource::Estimate { cx, cy, a, h } => Boxf::from_xyah(
            f64::from_bits(cx) as f32,
            f64::from_bits(cy) as f32,
            f64::from_bits(a) as f32,
            f64::from_bits(h) as f32,
        ),
        BoxSource::Initial(r) => Boxf::from_rect(r),
    }
}

fn measurement(detection: &STrack) -> [f64; 4] {
    let xyah = Boxf::from_rect(detection.tlwh).to_xyah();
    [xyah[0] as f64, xyah[1] as f64, xyah[2] as f64, xyah[3] as f64]
}

fn iou_distance(tracks: &[Boxf], dets: &[Boxf]) -> Array2<f32> {
    let mut dists = Array2::zeros((tracks.len(), dets.len()));
    for (i, t) in tracks.iter().enumerate() {
        for (j, d) in dets.iter().enumerate() {
            dists[[i, j]] = 1.0 - t.iou(d);
        }
    }
    dists
}

fn iou_batch(a: &[Boxf], b: &[Boxf]) -> Array2<f32> {
    let mut ious = Array2::zeros((a.len(), b.len()));
    for (i, t) in a.iter().enumerate() {
        for (j, d) in b.iter().enumerate() {
            ious[[i, j]] = t.iou(d);
        }
    }
    ious
}

fn fuse_score(cost: &mut Array2<f32>, dets: &[STrack]) {
    let (rows, cols) = cost.dim();
    for i in 0..rows {
        for j in 0..cols {
            let iou_sim = 1.0 - cost[[i, j]];
            let fused_sim = iou_sim * float(dets[j].score);
            cost[[i, j]] = 1.0 - fused_sim;
        }
    }
}

fn cost_matrix(values: &Array2<f32>) -> CostMatrix {
    let (rows, cols) = values.dim();
    let rows: Vec<Vec<Single>> =
        (0..rows).map(|i| (0..cols).map(|j| single(values[[i, j]])).collect()).collect();
    CostMatrix::from_rows(rows, cols).unwrap()
}

fn solve(cost: &CostMatrix) -> Option<Vec<usize>> {
    let padded = cost.padded()?;
    let (size, _) = padded.dim();
    let mut costs = lapjv::Matrix::<f64>::from_elem((size, size), 0.0);
    for i in 0..size {
        for j in 0..size {
            costs[[i, j]] = float(padded.get(i, j)) as f64;
        }
    }
    lapjv::lapjv(&costs).ok().map(|(row_to_col, _)| row_to_col)
}

struct Harness {
    tracker: BYTETracker,
    filter: Filter,
}

impl Harness {
    fn with(track_thresh: f32, match_thresh: f32, track_buffer: u32, frame_rate: f32) -> Harness {
        let mut ids = TrackIdCounter::new();
        reset_track_id_counter(&mut ids);
        let config = TrackerConfig {
            track_thresh: single(track_thresh),
            match_thresh: single(match_thresh),
            track_buffer,
            frame_rate: single(frame_rate),
        };
        let max_time_lost = (frame_rate / 30.0 * track_buffer as f32) as u32;
        let tracker =
            BYTETracker::new(config, single(track_thresh + 0.1), max_time_lost, ids).unwrap();
        Harness { tracker, filter: Filter::new() }
    }

    fn new() -> Harness {
        let config = TrackerConfig::default();
        Harness::with(
            float(config.track_thresh),
            float(config.match_thresh),
            config.track_buffer,
            float(config.frame_rate),
        )
    }

    fn updates(&self, rows: &[Moments], dets: &[STrack], matches: &[(usize, usize)]) -> Vec<Moments> {
        let mut updated = rows.to_vec();
        for &(i, j) in matches {
            let (mean, covariance) = unpack(&rows[i]);
            let (mean, covariance) = self.filter.update(&mean, &covariance, measurement(&dets[j]));
            updated[i] = pack(&mean, &covariance);
        }
        updated
    }

    fn update(&mut self, dets: &[(f32, f32, f32, f32, f32)]) -> Vec<STrack> {
        assert_eq!(self.tracker.stage(), FrameStage::Idle);
        let detections: Vec<Detection> = dets
            .iter()
            .map(|d| Detection::from_rect(Boxf::from_tlbr(d.0, d.1, d.2, d.3).to_rect(), single(d.4)))
            .collect();
        let inputs = self.tracker.begin_frame(detections);
        assert_eq!(self.tracker.stage(), FrameStage::Prediction);
        let predicted: Vec<Moments> = inputs
            .iter()
            .map(|input| {
                let (mean, covariance) = unpack(&input.unwrap());
                let (mean, covariance) = self.filter.predict(&mean, &covariance);
                pack(&mean, &covariance)
            })
            .collect();
        self.tracker.store_predictions(&predicted);

        for due in [
            FrameStage::FirstAssociation,
            FrameStage::SecondAssociation,
            FrameStage::UnconfirmedAssociation,
        ] {
            assert_eq!(self.tracker.stage(), due);
            assert_eq!(self.tracker.association_fuses_scores(), due != FrameStage::SecondAssociation);
            let rows = self.tracker.association_rows().clone();
            let cols = self.tracker.association_columns().clone();
            let row_boxes: Vec<Boxf> = rows.iter().map(current_box).collect();
            let col_boxes: Vec<Boxf> = cols.iter().map(current_box).collect();
            let mut dists = iou_distance(&row_boxes, &col_boxes);
            if self.tracker.association_fuses_scores() {
                fuse_score(&mut dists, &cols);
            }
            let cost = cost_matrix(&dists);
            let solution = solve(&cost);
            let plan = self.tracker.next_matches(&cost, &solution);
            let own: Vec<Moments> = rows.iter().map(moments_of).collect();
            let updated = self.updates(&own, &cols, &plan.matches);
            match due {
                FrameStage::FirstAssociation => {
                    self.tracker.first_association(&cost, &solution, &updated)
                }
                FrameStage::SecondAssociation => {
                    self.tracker.second_association(&cost, &solution, &updated)
                }
                _ => {
                    let seeds: Vec<Moments> = cols
                        .iter()
                        .map(|d| {
                            let (mean, covariance) = self.filter.initiate(measurement(d));
                            pack(&mean, &covariance)
                        })
                        .collect();
                    self.tracker.unconfirmed_association(&cost, &solution, &updated, &seeds)
                }
            }
        }
        assert_eq!(self.tracker.stage(), FrameStage::Deduplication);

        let kept = self.tracker.tracked_stracks();
        let lost = self.tracker.lost_stracks();
        let ious = if kept.is_empty() || lost.is_empty() {
            CostMatrix::from_rows(Vec::new(), 0).unwrap()
        } else {
            let a: Vec<Boxf> = kept.iter().map(current_box).collect();
            let b: Vec<Boxf> = lost.iter().map(current_box).collect();
            cost_matrix(&iou_batch(&a, &b))
        };
        let output = self.tracker.finish_frame(&ious);
        assert_eq!(self.tracker.stage(), FrameStage::Idle);
        self.check(&output);
        output
    }

    /// What holds after every frame.
    fn check(&self, output: &[STrack]) {
        let frame = self.tracker.frame_id();
        for (i, t) in output.iter().enumerate() {
            assert!(t.is_activated);
            assert_eq!(t.state, TrackState::Tracking);
            assert_eq!(t.frame_id, frame);
            assert!(t.track_id >= 1);
            for u in &output[i + 1..] {
                assert_ne!(t.track_id, u.track_id);
            }
        }
        let kept = self.tracker.tracked_stracks();
        let lost = self.tracker.lost_stracks();
        for (i, t) in kept.iter().enumerate() {
            assert_eq!(t.state, TrackState::Tracking);
            assert!(t.frame_id >= t.start_frame);
            for u in &kept[i + 1..] {
                assert_ne!(t.track_id, u.track_id);
            }
            for u in lost.iter() {
                assert_ne!(t.track_id, u.track_id);
            }
        }
        for t in lost.iter() {
            assert_eq!(t.state, TrackState::Lost);
            let away = frame - t.frame_id;
            assert!(away <= self.tracker.max_time_lost() || away == 1);
        }
        for t in self.tracker.removed_stracks().iter() {
            assert_eq!(t.state, TrackState::Removed);
        }
    }
}

#[test]
fn test_basic_tracking() {
    let mut tracker = Harness::new();

    let tracks1 = tracker.update(&[(100.0, 100.0, 200.0, 200.0, 0.9)]);
    assert_eq!(tracks1.len(), 1);
    let id1 = tracks1[0].track_id;

    let tracks2 = tracker.update(&[(105.0, 105.0, 205.0, 205.0, 0.9)]);
    assert_eq!(tracks2.len(), 1);
    assert_eq!(tracks2[0].track_id, id1);

    let tracks3 = tracker.update(&[(110.0, 110.0, 210.0, 210.0, 0.2)]);
    assert_eq!(tracks3.len(), 1);
    assert_eq!(tracks3[0].track_id, id1);

    let tracks4 = tracker.update(&[]);
    assert_eq!(tracks4.len(), 0);

    let tracks5 = tracker.update(&[(115.0, 115.0, 215.0, 215.0, 0.9)]);
    assert_eq!(tracks5.len(), 1);
    assert_eq!(tracks5[0].track_id, id1);
}

#[test]
fn identity_persists_across_motion() {
    let mut tracker = Harness::new();
    for frame in 0..5 {
        let shift = 5.0 * frame as f32;
        let tracks = tracker.update(&[(100.0 + shift, 100.0 + shift, 200.0 + shift, 200.0 + shift, 0.9)]);
        assert_eq!(tracks.len(), 1);
        assert_eq!(tracks[0].track_id, 1);
        assert_eq!(tracks[0].start_frame, 1);
        assert_eq!(tracks[0].tracklet_len, frame);
        assert_eq!(float(tracks[0].score), 0.9);
    }
    assert_eq!(tracker.tracker.frame_id(), 5);
    assert_eq!(tracker.tracker.last_track_id(), 1);
}

#[test]
fn low_confidence_detection_keeps_the_track() {
    let mut tracker = Harness::new();
    let frames = [
        (100.0, 100.0, 200.0, 200.0, 0.9),
        (105.0, 105.0, 205.0, 205.0, 0.9),
        (110.0, 110.0, 210.0, 210.0, 0.2),
        (115.0, 115.0, 215.0, 215.0, 0.9),
    ];
    for det in frames {
        let tracks = tracker.update(&[det]);
        assert_eq!(tracks.len(), 1);
        assert_eq!(tracks[0].track_id, 1);
        assert_eq!(float(tracks[0].score), det.4);
    }
}

#[test]
fn lost_track_expires_and_a_new_identifier_is_issued() {
    let mut tracker = Harness::new();
    let max_time_lost = tracker.tracker.max_time_lost();
    assert_eq!(max_time_lost, 30);
    let first = tracker.update(&[(100.0, 100.0, 200.0, 200.0, 0.9)]);
    assert_eq!(first.len(), 1);
    assert_eq!(first[0].track_id, 1);
    for frame in 2..=(2 + max_time_lost) {
        let tracks = tracker.update(&[]);
        assert!(tracks.is_empty());
        assert_eq!(tracker.tracker.frame_id(), frame);
        if frame - 1 > max_time_lost {
            assert!(tracker.tracker.lost_stracks().is_empty());
            assert_eq!(tracker.tracker.removed_stracks().len(), 1);
            assert_eq!(tracker.tracker.removed_stracks()[0].track_id, 1);
        } else {
            assert_eq!(tracker.tracker.lost_stracks().len(), 1);
            assert_eq!(tracker.tracker.lost_stracks()[0].track_id, 1);
        }
    }
    // A track that starts after the first frame waits one frame for its
    // confirmation.
    let tracks = tracker.update(&[(102.0, 102.0, 202.0, 202.0, 0.9)]);
    assert!(tracks.is_empty());
    assert_eq!(tracker.tracker.tracked_stracks().len(), 1);
    assert_eq!(tracker.tracker.tracked_stracks()[0].track_id, 2);
    assert!(!tracker.tracker.tracked_stracks()[0].is_activated);
    let tracks = tracker.update(&[(103.0, 103.0, 203.0, 203.0, 0.9)]);
    assert_eq!(tracks.len(), 1);
    assert_eq!(tracks[0].track_id, 2);
    assert_eq!(tracks[0].start_frame, 3 + max_time_lost);
}

#[test]
fn detection_below_the_start_threshold_starts_no_track() {
    let mut tracker = Harness::new();
    let tracks = tracker.update(&[(100.0, 100.0, 200.0, 200.0, 0.55)]);
    assert!(tracks.is_empty());
    assert!(tracker.tracker.tracked_stracks().is_empty());
    assert!(tracker.tracker.lost_stracks().is_empty());
    assert!(tracker.tracker.removed_stracks().is_empty());
    assert_eq!(tracker.tracker.last_track_id(), 0);
}

#[test]
fn two_disjoint_objects_keep_their_identifiers() {
    let mut tracker = Harness::new();
    let tracks =
        tracker.update(&[(10.0, 10.0, 50.0, 50.0, 0.9), (200.0, 200.0, 260.0, 260.0, 0.9)]);
    assert_eq!(tracks.len(), 2);
    assert_eq!(tracks[0].track_id, 1);
    assert_eq!(tracks[1].track_id, 2);
    let tracks =
        tracker.update(&[(12.0, 11.0, 52.0, 51.0, 0.9), (203.0, 202.0, 263.0, 262.0, 0.9)]);
    assert_eq!(tracks.len(), 2);
    let a = tracks.iter().find(|t| current_box(t).x < 100.0).unwrap();
    let b = tracks.iter().find(|t| current_box(t).x > 100.0).unwrap();
    assert_eq!(a.track_id, 1);
    assert_eq!(b.track_id, 2);
}

#[test]
fn detections_at_the_threshold_boundaries() {
    // Confidence 0.1 is dropped, and so is everything below.
    let mut tracker = Harness::new();
    tracker.tracker.begin_frame(vec![
        Detection::from_rect(Boxf::from_tlbr(0.0, 0.0, 10.0, 10.0).to_rect(), single(0.1)),
        Detection::from_rect(Boxf::from_tlbr(0.0, 0.0, 10.0, 10.0).to_rect(), single(0.05)),
        Detection::from_rect(Boxf::from_tlbr(0.0, 0.0, 10.0, 10.0).to_rect(), single(f32::NAN)),
        Detection::from_rect(Boxf::from_tlbr(0.0, 0.0, 10.0, 10.0).to_rect(), single(0.100000009)),
        Detection::from_rect(Boxf::from_tlbr(0.0, 0.0, 10.0, 10.0).to_rect(), single(0.49999997)),
        Detection::from_rect(Boxf::from_tlbr(0.0, 0.0, 10.0, 10.0).to_rect(), single(0.5)),
        Detection::from_rect(Boxf::from_tlbr(0.0, 0.0, 10.0, 10.0).to_rect(), single(1.0)),
    ]);
    let high: Vec<f32> = tracker.tracker.detections().iter().map(|t| float(t.score)).collect();
    let low: Vec<f32> = tracker.tracker.detections_second().iter().map(|t| float(t.score)).collect();
    assert_eq!(high, vec![0.5, 1.0]);
    assert_eq!(low, vec![0.100000009, 0.49999997]);

    // Confidence 0.6 starts a track, the next number below it does not.
    let mut tracker = Harness::new();
    let tracks = tracker.update(&[(0.0, 0.0, 10.0, 10.0, 0.6), (50.0, 50.0, 60.0, 60.0, 0.59999996)]);
    assert_eq!(tracks.len(), 1);
    assert_eq!(float(tracks[0].score), 0.6);
}

#[test]
fn first_frame_confirms_at_once_and_later_frames_do_not() {
    let mut tracker = Harness::new();
    let tracks = tracker.update(&[(0.0, 0.0, 10.0, 10.0, 0.9)]);
    assert_eq!(tracks.len(), 1);
    assert!(tracks[0].is_activated);
    let tracks = tracker.update(&[(0.0, 0.0, 10.0, 10.0, 0.9), (100.0, 100.0, 120.0, 120.0, 0.9)]);
    assert_eq!(tracks.len(), 1);
    assert_eq!(tracker.tracker.tracked_stracks().len(), 2);
    let second = tracker.tracker.tracked_stracks().iter().find(|t| t.track_id == 2).unwrap();
    assert!(!second.is_activated);
    assert_eq!(second.start_frame, 2);
    // Unconfirmed and unmatched: removed.
    let tracks = tracker.update(&[(0.0, 0.0, 10.0, 10.0, 0.9)]);
    assert_eq!(tracks.len(), 1);
    assert_eq!(tracker.tracker.removed_stracks().len(), 1);
    assert_eq!(tracker.tracker.removed_stracks()[0].track_id, 2);
    assert_eq!(tracker.tracker.removed_stracks()[0].state, TrackState::Removed);
}

#[test]
fn empty_frames_on_an_empty_tracker() {
    let mut tracker = Harness::new();
    for frame in 1..=3 {
        assert!(tracker.update(&[]).is_empty());
        assert_eq!(tracker.tracker.frame_id(), frame);
    }
    assert!(tracker.tracker.tracked_stracks().is_empty());
}

#[test]
fn lost_track_is_found_again_under_its_identifier() {
    let mut tracker = Harness::new();
    tracker.update(&[(100.0, 100.0, 200.0, 200.0, 0.9)]);
    tracker.update(&[(100.0, 100.0, 200.0, 200.0, 0.9)]);
    assert!(tracker.update(&[]).is_empty());
    assert_eq!(tracker.tracker.lost_stracks().len(), 1);
    assert_eq!(tracker.tracker.lost_stracks()[0].frame_id, 2);
    assert!(tracker.update(&[]).is_empty());
    let tracks = tracker.update(&[(101.0, 101.0, 201.0, 201.0, 0.8)]);
    assert_eq!(tracks.len(), 1);
    assert_eq!(tracks[0].track_id, 1);
    assert_eq!(tracks[0].tracklet_len, 0);
    assert_eq!(tracks[0].frame_id, 5);
    assert_eq!(tracks[0].start_frame, 1);
    assert!(tracker.tracker.lost_stracks().is_empty());
}

#[test]
fn a_buffer_of_zero_frames_keeps_a_track_for_the_frame_it_is_lost_in() {
    let mut tracker = Harness::with(0.5, 0.8, 0, 30.0);
    assert_eq!(tracker.tracker.max_time_lost(), 0);
    tracker.update(&[(100.0, 100.0, 200.0, 200.0, 0.9)]);
    assert!(tracker.update(&[]).is_empty());
    assert_eq!(tracker.tracker.lost_stracks().len(), 1);
    assert!(tracker.update(&[]).is_empty());
    assert!(tracker.tracker.lost_stracks().is_empty());
    assert_eq!(tracker.tracker.removed_stracks().len(), 1);
}

fn track(id: u64, start_frame: u32, frame_id: u32, state: TrackState, at: Boxf) -> STrack {
    let mut t = STrack::new(at.to_rect(), single(0.9));
    t.track_id = id;
    t.state = state;
    t.is_activated = true;
    t.start_frame = start_frame;
    t.frame_id = frame_id;
    t
}

#[test]
fn duplicate_removal_drops_the_younger_track() {
    let here = Boxf::from_tlbr(100.0, 100.0, 200.0, 200.0);
    let near = Boxf::from_tlbr(101.0, 101.0, 201.0, 201.0);
    let far = Boxf::from_tlbr(400.0, 400.0, 500.0, 500.0);
    assert!(here.iou(&near) > 0.85);
    let ious = |a: &[STrack], b: &[STrack]| {
        let a: Vec<Boxf> = a.iter().map(current_box).collect();
        let b: Vec<Boxf> = b.iter().map(current_box).collect();
        cost_matrix(&iou_batch(&a, &b))
    };

    // The lost track is older: the track seen now is dropped.
    let kept = vec![track(7, 9, 10, TrackState::Tracking, here), track(8, 1, 10, TrackState::Tracking, far)];
    let lost = vec![track(3, 1, 8, TrackState::Lost, near)];
    let (a, b) = remove_duplicate_stracks(&kept, &lost, &ious(&kept, &lost));
    assert_eq!(a.iter().map(|t| t.track_id).collect::<Vec<_>>(), vec![8]);
    assert_eq!(b.iter().map(|t| t.track_id).collect::<Vec<_>>(), vec![3]);

    // The track seen now is older: the lost one is dropped.
    let kept = vec![track(7, 1, 10, TrackState::Tracking, here)];
    let lost = vec![track(3, 6, 8, TrackState::Lost, near), track(4, 6, 8, TrackState::Lost, far)];
    let (a, b) = remove_duplicate_stracks(&kept, &lost, &ious(&kept, &lost));
    assert_eq!(a.iter().map(|t| t.track_id).collect::<Vec<_>>(), vec![7]);
    assert_eq!(b.iter().map(|t| t.track_id).collect::<Vec<_>>(), vec![4]);

    // Of one age: the track seen now is dropped.
    let kept = vec![track(7, 5, 10, TrackState::Tracking, here)];
    let lost = vec![track(3, 3, 8, TrackState::Lost, near)];
    let (a, b) = remove_duplicate_stracks(&kept, &lost, &ious(&kept, &lost));
    assert!(a.is_empty());
    assert_eq!(b.len(), 1);

    // An overlap of exactly 0.85 is no duplicate.
    let edge = CostMatrix::from_rows(vec![vec![single(0.85)]], 1).unwrap();
    let (a, b) = remove_duplicate_stracks(&kept, &lost, &edge);
    assert_eq!(a.len(), 1);
    assert_eq!(b.len(), 1);

    // With an empty list nothing is dropped and the overlaps are not read.
    let none = CostMatrix::from_rows(Vec::new(), 0).unwrap();
    let (a, b) = remove_duplicate_stracks(&kept, &Vec::new(), &none);
    assert_eq!(a.len(), 1);
    assert!(b.is_empty());
}

#[test]
fn duplicate_removal_in_a_frame() {
    // A track is lost while its object stands still behind an occlusion; a
    // second track starts on the same spot and is confirmed. Once the filter
    // of the lost track and the new track overlap, one of them goes.
    let mut tracker = Harness::new();
    tracker.update(&[(100.0, 100.0, 200.0, 200.0, 0.9)]);
    for _ in 0..3 {
        tracker.update(&[(100.0, 100.0, 200.0, 200.0, 0.9)]);
    }
    // Two detections on one object: the track takes one, the other starts
    // an unconfirmed track that overlaps it.
    let tracks = tracker.update(&[(100.0, 100.0, 200.0, 200.0, 0.95), (101.0, 101.0, 201.0, 201.0, 0.9)]);
    assert_eq!(tracks.len(), 1);
    assert_eq!(tracker.tracker.tracked_stracks().len(), 2);
    // Only the new track is seen: the old one is lost, and both overlap.
    let second = tracker.tracker.tracked_stracks().iter().find(|t| t.track_id == 2).map(|t| *t);
    assert!(second.is_some());
    let tracks = tracker.update(&[(101.0, 101.0, 201.0, 201.0, 0.9)]);
    let kept: Vec<u64> = tracker.tracker.tracked_stracks().iter().map(|t| t.track_id).collect();
    let lost: Vec<u64> = tracker.tracker.lost_stracks().iter().map(|t| t.track_id).collect();
    // One detection, two tracks on the spot: the older track takes it.
    assert_eq!(kept, vec![1]);
    assert!(lost.is_empty());
    assert_eq!(tracks.len(), 1);
    assert_eq!(tracks[0].track_id, 1);
}

#[test]
fn many_objects_come_and_go() {
    // Six objects drift over the image; each is at times missed, at times
    // seen with low confidence. What holds after every frame is checked
    // after every frame.
    let mut tracker = Harness::with(0.5, 0.8, 5, 30.0);
    let mut seed: u32 = 12345;
    let mut next = move || {
        seed = seed.wrapping_mul(1664525).wrapping_add(1013904223);
        (seed >> 8) as f32 / (1u32 << 24) as f32
    };
    let mut seen: Vec<u64> = Vec::new();
    let mut last = 0;
    for frame in 1..=120u32 {
        let mut dets = Vec::new();
        for object in 0..6 {
            let chance = next();
            if chance < 0.25 {
                continue;
            }
            let score = if chance < 0.45 { 0.3 } else { 0.6 + 0.39 * next() };
            let x = 40.0 + 130.0 * object as f32 + 0.8 * frame as f32 + 2.0 * next();
            let y = 60.0 + 0.5 * frame as f32 * (object % 3) as f32 + 2.0 * next();
            dets.push((x, y, x + 60.0, y + 90.0, score));
        }
        let tracks = tracker.update(&dets);
        assert!(tracks.len() <= dets.len());
        assert_eq!(tracker.tracker.frame_id(), frame);
        // Identifiers only grow.
        assert!(tracker.tracker.last_track_id() >= last);
        last = tracker.tracker.last_track_id();
        for t in &tracks {
            assert!(t.track_id <= last);
            if !seen.contains(&t.track_id) {
                seen.push(t.track_id);
            }
        }
    }
    assert!(seen.len() >= 6);
    assert!(!tracker.tracker.removed_stracks().is_empty());
}
