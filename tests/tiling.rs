use pathtrace::accumulate::SmoothingFramebuffer;
use pathtrace::interlace::{subset_len, worker_pixels};
use pathtrace::partial::{merge_parts, PartialFramebuffer};

fn add(a: f64, b: f64) -> f64 {
    a + b
}

fn average(sum: f64, frames: u16) -> f64 {
    sum / frames as f64
}

/// Stand-in for a render with zero jitter: the value depends on the pixel alone.
fn shade(x: u16, y: u16) -> f64 {
    (x as f64) * 0.25 + (y as f64) * 4.0 + 1.0
}

/// Renders one frame of a `width` by `height` image with `workers`
/// interlaced workers and returns the displayed pixels.
fn render_frame(width: u16, height: u16, workers: u16) -> Vec<f64> {
    let mut acc = SmoothingFramebuffer::new(width, height, 0.0);
    let mut parts = Vec::new();
    for i in 0..workers {
        let mut part = PartialFramebuffer::new(width, height, workers, i, 0.0);
        for (x, y) in worker_pixels(width, height, workers, i, (0, 0, width, height)) {
            part.set_pixel(x, y, shade(x, y));
        }
        parts.push(part);
    }
    merge_parts(&parts, &mut acc, &add);
    acc.update(&average)
}

#[test]
fn subset_len_counts_owned_pixels() {
    // 16 pixels over 3 workers: indices 0,3,..,15 / 1,4,..,13 / 2,5,..,14.
    assert_eq!(subset_len(4, 4, 3, 0), 6);
    assert_eq!(subset_len(4, 4, 3, 1), 5);
    assert_eq!(subset_len(4, 4, 3, 2), 5);
    assert_eq!(subset_len(4, 4, 1, 0), 16);
    assert_eq!(subset_len(4, 4, 2, 1), 8);
    assert_eq!(subset_len(0, 7, 4, 2), 0);
    assert_eq!(subset_len(3, 1, 5, 4), 0);
    assert_eq!(subset_len(3, 1, 5, 2), 1);
}

#[test]
fn subset_len_largest_image() {
    let n = 65535usize * 65535usize;
    assert_eq!(subset_len(65535, 65535, 1, 0), n);
    assert_eq!(subset_len(65535, 65535, 65535, 65534), 65535);
    assert_eq!(subset_len(65535, 65535, 2, 0), n / 2 + 1);
    assert_eq!(subset_len(65535, 65535, 2, 1), n / 2);
}

#[test]
fn worker_pixels_interlaced_row_major() {
    let px = worker_pixels(4, 4, 2, 1, (0, 0, 4, 4));
    assert_eq!(px, vec![(1, 0), (3, 0), (1, 1), (3, 1), (1, 2), (3, 2), (1, 3), (3, 3)]);
    let px = worker_pixels(3, 2, 4, 0, (0, 0, 3, 2));
    assert_eq!(px, vec![(0, 0), (1, 1)]);
}

#[test]
fn worker_pixels_inside_bounds() {
    // Rectangle x 1..3, y 1..3 of a 4x4 image; worker 0 of 3 owns indices 0,3,6,9,12,15.
    let px = worker_pixels(4, 4, 3, 0, (1, 1, 2, 2));
    assert_eq!(px, vec![(2, 1), (1, 2)]);
    assert!(worker_pixels(4, 4, 3, 0, (1, 1, 0, 2)).is_empty());
}

#[test]
fn worker_pixels_cover_image_once() {
    let (w, h, n) = (5u16, 3u16, 4u16);
    let mut seen = vec![0u32; (w * h) as usize];
    for i in 0..n {
        let px = worker_pixels(w, h, n, i, (0, 0, w, h));
        assert_eq!(px.len(), subset_len(w, h, n, i));
        for (x, y) in px {
            seen[(y * w + x) as usize] += 1;
        }
    }
    assert!(seen.iter().all(|&c| c == 1));
}

#[test]
fn partial_set_pixel_ignores_foreign_pixels() {
    let mut acc = SmoothingFramebuffer::new(3, 2, 0.0);
    let mut part = PartialFramebuffer::new(3, 2, 2, 1, 0.0);
    assert_eq!(part.width(), 3);
    assert_eq!(part.height(), 2);
    part.set_pixel(1, 0, 5.0); // index 1: owned
    part.set_pixel(0, 1, 7.0); // index 3: owned
    part.set_pixel(2, 0, 9.0); // index 2: worker 0's
    part.set_pixel(2, 1, 11.0); // index 5: owned
    part.update(&mut acc, &add);
    let shown = acc.update(&average);
    assert_eq!(shown, vec![0.0, 5.0, 0.0, 7.0, 0.0, 11.0]);
}

#[test]
fn partial_update_adds_into_running_sums() {
    let mut acc = SmoothingFramebuffer::new(2, 2, 1.0);
    let mut part = PartialFramebuffer::new(2, 2, 3, 0, 0.5);
    part.set_pixel(1, 1, 2.0); // index 3: slot 1
    part.update(&mut acc, &add);
    // Worker 0 of 3 owns indices 0 and 3.
    assert_eq!(acc.update(&average), vec![1.5, 1.0, 1.0, 3.0]);
}

#[test]
fn four_by_four_two_workers_match_one() {
    let single = render_frame(4, 4, 1);
    let double = render_frame(4, 4, 2);
    assert_eq!(single, double);
    assert_eq!(single[0], 1.0);
    assert_eq!(single[4 * 3 + 2], 0.5 + 12.0 + 1.0);
}

#[test]
fn uneven_worker_counts_match_one() {
    let single = render_frame(5, 3, 1);
    for workers in [2u16, 3, 4, 7, 15, 16] {
        assert_eq!(render_frame(5, 3, workers), single);
    }
    let expected: Vec<f64> = (0..15u16).map(|p| shade(p % 5, p / 5)).collect();
    assert_eq!(single, expected);
}

#[test]
fn merge_parts_in_worker_order() {
    let mut acc = SmoothingFramebuffer::new(3, 1, 10.0);
    let mut parts = Vec::new();
    for i in 0..2u16 {
        let mut part = PartialFramebuffer::new(3, 1, 2, i, 0.0);
        for x in 0..3u16 {
            part.set_pixel(x, 0, (x + 1) as f64);
        }
        parts.push(part);
    }
    merge_parts(&parts, &mut acc, &add);
    assert_eq!(acc.get_frame(), 0);
    assert_eq!(acc.update(&average), vec![11.0, 12.0, 13.0]);
}

#[test]
fn merge_parts_into_frozen_buffer_changes_nothing() {
    let mut acc = SmoothingFramebuffer::new(1, 1, 0.0);
    for _ in 0..u16::MAX {
        acc.update(&average);
    }
    let mut part = PartialFramebuffer::new(1, 1, 1, 0, 0.0);
    part.set_pixel(0, 0, 9.0);
    merge_parts(&vec![part], &mut acc, &add);
    assert_eq!(acc.update(&average), vec![0.0]);
}
