use thearf::layout::{retile_layout, tile_window, Rect};

fn rect(x: i32, y: i32, w: i32, h: i32) -> Rect {
    Rect { x, y, w, h }
}

const SCREEN: Rect = Rect { x: 0, y: 0, w: 1920, h: 1080 };

#[test]
fn single_window_fills_screen() {
    assert_eq!(tile_window(SCREEN, 1, 0, 6), rect(3, 3, 1914, 1074));
}

#[test]
fn master_and_stack() {
    assert_eq!(tile_window(SCREEN, 3, 0, 6), rect(3, 3, 951, 1074));
    assert_eq!(tile_window(SCREEN, 3, 1, 6), rect(960, 3, 957, 534));
    assert_eq!(tile_window(SCREEN, 3, 2, 6), rect(960, 543, 957, 534));
}

#[test]
fn offset_screen() {
    let screen = rect(100, 50, 800, 600);
    assert_eq!(tile_window(screen, 2, 0, 10), rect(105, 55, 385, 590));
    assert_eq!(tile_window(screen, 2, 1, 10), rect(500, 55, 395, 590));
}

#[test]
fn odd_buffer_rounds_like_integers() {
    // 1.5 * 7 = 10.5, truncated to 10; 7 / 2 = 3.
    assert_eq!(tile_window(SCREEN, 2, 0, 7), rect(3, 3, 950, 1073));
    assert_eq!(tile_window(SCREEN, 2, 1, 7), rect(960, 3, 957, 1073));
}

#[test]
fn negative_buffer_rounds_toward_zero() {
    // -5 / 2 = -2 and 1.5 * -5 = -7.5, truncated to -7.
    assert_eq!(tile_window(SCREEN, 2, 0, -5), rect(-2, -2, 967, 1085));
}

#[test]
fn layout_of_all_windows() {
    let v = retile_layout(SCREEN, 4, 6).unwrap();
    assert_eq!(v.len(), 4);
    assert_eq!(v[0], rect(3, 3, 951, 1074));
    assert_eq!(v[1], rect(960, 3, 957, 354));
    assert_eq!(v[2], rect(960, 363, 957, 354));
    assert_eq!(v[3], rect(960, 723, 957, 354));
    assert_eq!(retile_layout(SCREEN, 0, 6), Some(vec![]));
}

#[test]
fn tiles_do_not_overlap_and_stay_on_screen() {
    for count in 1..8usize {
        for b in [0, 1, 6, 20] {
            let v = retile_layout(SCREEN, count, b).unwrap();
            for (i, a) in v.iter().enumerate() {
                assert!(a.x >= 0 && a.y >= 0);
                assert!(a.x + a.w <= 1920 && a.y + a.h <= 1080);
                for c in v.iter().skip(i + 1) {
                    let overlap = a.x < c.x + c.w && c.x < a.x + a.w && a.y < c.y + c.h && c.y < a.y + a.h;
                    assert!(!overlap);
                }
            }
        }
    }
}

#[test]
fn overflow_gives_none() {
    assert_eq!(retile_layout(rect(i32::MAX, 0, 100, 100), 1, 6), None);
    assert_eq!(retile_layout(rect(0, 0, 100, 100), 1, i32::MIN), None);
    assert!(retile_layout(rect(0, 0, 100, 100), 2, 6).is_some());
}

#[test]
fn master_gap_is_single_precision() {
    let screen = rect(0, 0, 0, 0);
    let mut samples: Vec<i32> = vec![
        0, 1, -1, 6, 7, -5, 16_777_215, 16_777_216, 16_777_217, 16_777_219, 33_554_435,
        -16_777_217, 1_431_655_765, 1_431_655_766, i32::MAX, i32::MAX - 1, -1_431_655_766,
        i32::MIN + 1,
    ];
    let mut x: u32 = 12345;
    for _ in 0..20000 {
        x = x.wrapping_mul(1103515245).wrapping_add(12345);
        samples.push(x as i32);
    }
    let mut checked = 0;
    for b in samples {
        if let Some(v) = retile_layout(screen, 2, b) {
            assert_eq!(v[0].w, 0 - (b as f32 * 1.5) as i32, "buffer {b}");
            checked += 1;
        }
    }
    assert!(checked > 10000);
    assert_eq!(tile_window(rect(0, 0, 2_000_000_000, 1080), 2, 0, 16_777_217).w, 1_000_000_000 - 25_165_824);
}
