use colorgrow::color_dist;
use colorgrow::generate_equally_spaced_rgb_colors;

#[test]
fn palette_n0_is_empty() {
    let colors = generate_equally_spaced_rgb_colors(0);
    assert!(colors.is_empty());
}

#[test]
fn palette_n1_is_black() {
    let colors = generate_equally_spaced_rgb_colors(1);
    assert_eq!(colors, vec![(0, 0, 0)]);
}

#[test]
fn palette_n2_exact_values() {
    let colors = generate_equally_spaced_rgb_colors(2);
    assert_eq!(colors.len(), 8);
    // floor(0 * 255 / 2) == 0 and floor(1 * 255 / 2) == 127, enumerated
    // red-major with blue varying fastest.
    assert_eq!(
        colors,
        vec![
            (0, 0, 0),
            (0, 0, 127),
            (0, 127, 0),
            (0, 127, 127),
            (127, 0, 0),
            (127, 0, 127),
            (127, 127, 0),
            (127, 127, 127),
        ]
    );
    assert!(colors.contains(&(0, 0, 0)));
    assert!(colors.contains(&(127, 127, 127)));
    assert!(colors.contains(&(0, 127, 0)));
}

#[test]
fn palette_n3_channel_values() {
    let colors = generate_equally_spaced_rgb_colors(3);
    assert_eq!(colors.len(), 27);
    for (r, g, b) in colors {
        for ch in [r, g, b] {
            assert!(ch == 0 || ch == 85 || ch == 170);
        }
    }
}

#[test]
fn palette_generation_is_deterministic() {
    let first = generate_equally_spaced_rgb_colors(4);
    let second = generate_equally_spaced_rgb_colors(4);
    assert_eq!(first.len(), 64);
    assert_eq!(first, second);
}

#[test]
fn color_dist_exact_values() {
    assert_eq!(color_dist((0, 0, 0), (255, 255, 255)), 195075);
    assert_eq!(color_dist((1, 2, 3), (4, 6, 3)), 25);
    assert_eq!(color_dist((10, 20, 30), (10, 20, 31)), 1);
}

#[test]
fn color_dist_symmetric_and_zero_on_self() {
    let samples = [(0, 0, 0), (255, 0, 0), (12, 200, 37), (255, 255, 255)];
    for &a in &samples {
        assert_eq!(color_dist(a, a), 0);
        for &b in &samples {
            assert_eq!(color_dist(a, b), color_dist(b, a));
        }
    }
}
