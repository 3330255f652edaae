use colorgrow::Engine;
use colorgrow::Rgb;
use colorgrow::generate;
use colorgrow::generate_equally_spaced_rgb_colors;
use colorgrow::try_generate;

fn sorted(mut v: Vec<Rgb>) -> Vec<Rgb> {
    v.sort();
    v
}

#[test]
fn single_seed_2x2_places_every_color() {
    let palette: Vec<Rgb> = vec![(10, 0, 0), (0, 20, 0), (0, 0, 30), (40, 40, 40)];
    let img = generate(palette.clone(), (2, 2), vec![(0, 0)]);
    // The seed receives the last palette entry.
    assert_eq!(img.get(0, 0), (40, 40, 40));
    // Every cell is colored and the multiset of cell colors is the palette.
    let mut cells = Vec::new();
    for y in 0..2 {
        for x in 0..2 {
            cells.push(img.get(x, y));
        }
    }
    assert_eq!(sorted(cells), sorted(palette));
}

#[test]
fn mismatched_palette_is_rejected() {
    let palette: Vec<Rgb> = vec![(1, 1, 1), (2, 2, 2), (3, 3, 3)];
    assert!(try_generate(palette, (2, 2), vec![(0, 0)]).is_none());
}

#[test]
fn empty_seed_set_is_rejected() {
    let palette = generate_equally_spaced_rgb_colors(2);
    assert!(try_generate(palette, (4, 2), vec![]).is_none());
}

#[test]
fn out_of_bounds_seed_is_rejected() {
    let palette = generate_equally_spaced_rgb_colors(2);
    assert!(try_generate(palette, (4, 2), vec![(4, 0)]).is_none());
}

#[test]
fn duplicate_seeds_are_rejected() {
    let palette = generate_equally_spaced_rgb_colors(2);
    assert!(try_generate(palette, (4, 2), vec![(0, 0), (1, 1), (0, 0)]).is_none());
}

#[test]
fn valid_inputs_are_accepted() {
    let palette = generate_equally_spaced_rgb_colors(2);
    let img = try_generate(palette.clone(), (4, 2), vec![(0, 0), (3, 1)]).unwrap();
    let mut cells = Vec::new();
    for y in 0..2 {
        for x in 0..4 {
            cells.push(img.get(x, y));
        }
    }
    assert_eq!(sorted(cells), sorted(palette));
}

#[test]
fn best_scoring_frontier_cell_wins() {
    // A 5-by-1 strip: red grows from the left seed, blue from the right one.
    let red: Rgb = (255, 0, 0);
    let blue: Rgb = (0, 0, 255);
    let near_red: Rgb = (250, 0, 0);
    let near_blue: Rgb = (0, 0, 250);
    let gray: Rgb = (100, 100, 100);
    // Popped from the back: red, blue to the seeds, then near_red, near_blue.
    let palette = vec![gray, near_blue, near_red, blue, red];
    let img = generate(palette, (5, 1), vec![(0, 0), (4, 0)]);
    assert_eq!(img.get(0, 0), red);
    assert_eq!(img.get(4, 0), blue);
    // near_red's only scored rival was next to blue, and lost by a mile.
    assert_eq!(img.get(1, 0), near_red);
    assert_eq!(img.get(3, 0), near_blue);
    assert_eq!(img.get(2, 0), gray);
}

fn seen_cells(e: &Engine) -> Vec<(usize, usize)> {
    let mut cells = Vec::new();
    for y in 0..e.height() {
        for x in 0..e.width() {
            if e.is_seen(x, y) {
                cells.push((x, y));
            }
        }
    }
    cells
}

fn frontier_cell_is_valid(e: &Engine, x: usize, y: usize) {
    assert!(x < e.width() && y < e.height());
    assert!(!e.is_seen(x, y));
    let mut seen_neighbors = 0;
    if x + 1 < e.width() && e.is_seen(x + 1, y) {
        seen_neighbors += 1;
    }
    if x > 0 && e.is_seen(x - 1, y) {
        seen_neighbors += 1;
    }
    if y + 1 < e.height() && e.is_seen(x, y + 1) {
        seen_neighbors += 1;
    }
    if y > 0 && e.is_seen(x, y - 1) {
        seen_neighbors += 1;
    }
    assert!(seen_neighbors > 0);
}

#[test]
fn disjoint_seeds_meet_without_overwrites() {
    let palette = generate_equally_spaced_rgb_colors(4);
    assert_eq!(palette.len(), 64);
    let mut e = Engine::new(palette.clone(), (8, 8), &vec![(0, 0), (7, 7)]);
    assert_eq!(e.seen_count(), 2);
    assert_eq!(e.remaining(), 62);
    let mut previously_seen = seen_cells(&e);
    while e.remaining() > 0 {
        // The frontier never holds a colored cell, and each of its cells
        // touches a colored cell.
        let frontier = e.frontier().clone();
        for &(x, y) in &frontier {
            frontier_cell_is_valid(&e, x, y);
        }
        let count_before = e.seen_count();
        e.step();
        // Exactly one more cell is colored per step, and no colored cell is
        // ever colored again.
        assert_eq!(e.seen_count(), count_before + 1);
        let now_seen = seen_cells(&e);
        assert_eq!(now_seen.len(), previously_seen.len() + 1);
        for cell in &previously_seen {
            assert!(now_seen.contains(cell));
        }
        previously_seen = now_seen;
    }
    assert_eq!(e.seen_count(), 64);
    // Every color was placed exactly once.
    let mut cells = Vec::new();
    for y in 0..8 {
        for x in 0..8 {
            cells.push(e.color_at(x, y));
        }
    }
    assert_eq!(sorted(cells), sorted(palette));
}

#[test]
fn seed_colors_come_from_the_palette() {
    let palette = generate_equally_spaced_rgb_colors(3);
    let seeds = vec![(0, 0), (8, 2), (4, 1)];
    let img = generate(palette.clone(), (9, 3), seeds.clone());
    for (i, &(x, y)) in seeds.iter().enumerate() {
        let c = img.get(x, y);
        assert_eq!(c, palette[palette.len() - 1 - i]);
        assert!(palette.contains(&c));
    }
}

#[test]
fn duplicate_palette_colors_all_appear() {
    let dup: Rgb = (5, 5, 5);
    let palette = vec![dup, (9, 0, 0), dup, (0, 9, 0), (0, 0, 9), dup];
    let img = generate(palette.clone(), (3, 2), vec![(1, 0)]);
    let mut cells = Vec::new();
    for y in 0..2 {
        for x in 0..3 {
            cells.push(img.get(x, y));
        }
    }
    let cells = sorted(cells);
    assert_eq!(cells, sorted(palette));
    assert_eq!(cells.iter().filter(|&&c| c == dup).count(), 3);
}
