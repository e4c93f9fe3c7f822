use swipe_engine::keyboard::{euclidean_dist, get_keyboard_layout, get_word_path, simplify_path};
use swipe_engine::dtw::{dtw_distance, dtw_distance_fast, INF_COST};
use swipe_engine::ranking::{sort_candidates, Candidate};
use swipe_engine::types::Point;

#[test]
fn layout_lookup_hits_and_misses() {
    let layout = get_keyboard_layout();
    let q = layout.lookup('q');
    assert!(matches!(q, Some(Point { x: 0, y: 0 })));
    assert!(layout.lookup('!').is_none());
    assert!(layout.lookup('Q').is_none());
}

#[test]
fn euclidean_dist_exact_values() {
    let p = Point { x: 0, y: 0 };
    let w = Point { x: 10, y: 0 };
    let a = Point { x: 5, y: 10 };
    assert_eq!(euclidean_dist(&p, &w), 10);
    // sqrt(25 + 100) = sqrt(125), rounded down
    assert_eq!(euclidean_dist(&p, &a), 11);
    assert_eq!(euclidean_dist(&a, &a), 0);
}

#[test]
fn word_path_skips_unmapped_characters() {
    let layout = get_keyboard_layout();
    let path = get_word_path("q1w!", &layout);
    assert_eq!(path.len(), 2);
    assert_eq!(path[0], Point { x: 0, y: 0 });
    assert_eq!(path[1], Point { x: 10, y: 0 });
    let empty = get_word_path("0123", &layout);
    assert!(empty.is_empty());
}

#[test]
fn simplify_collapses_repeats_and_keeps_anchors() {
    let layout = get_keyboard_layout();
    let raw = get_word_path("hello", &layout);
    assert_eq!(raw.len(), 5);
    let simp = simplify_path(&raw);
    // the doubled "l" collapses; the anchors stay
    assert_eq!(simp.len(), 4);
    assert_eq!(simp[0], raw[0]);
    assert_eq!(simp[simp.len() - 1], raw[raw.len() - 1]);

    let single = simplify_path(&get_word_path("q", &layout));
    assert_eq!(single.len(), 1);
    let none = simplify_path(&Vec::new());
    assert!(none.is_empty());
}

#[test]
fn dtw_of_identical_paths_is_zero() {
    let layout = get_keyboard_layout();
    let path = get_word_path("hello", &layout);
    assert_eq!(dtw_distance(&path, &path, 10), 0);
    assert_eq!(dtw_distance(&path, &path, 0), 0);
}

#[test]
fn dtw_is_preserved_when_both_paths_are_reversed() {
    let layout = get_keyboard_layout();
    let a = get_word_path("help", &layout);
    let b = get_word_path("hello", &layout);
    let mut ra: Vec<Point> = Vec::new();
    for k in 0..a.len() {
        ra.push(a[a.len() - 1 - k]);
    }
    let mut rb: Vec<Point> = Vec::new();
    for k in 0..b.len() {
        rb.push(b[b.len() - 1 - k]);
    }
    assert_eq!(dtw_distance(&a, &b, 10), dtw_distance(&ra, &rb, 10));

    // reversing only one argument is a different alignment problem
    let p = get_word_path("qp", &layout);
    let mut rp: Vec<Point> = Vec::new();
    for k in 0..p.len() {
        rp.push(p[p.len() - 1 - k]);
    }
    assert_eq!(dtw_distance(&p, &p, 10), 0);
    assert_ne!(dtw_distance(&p, &rp, 10), 0);
}

#[test]
fn dtw_of_empty_path_is_infinite() {
    let layout = get_keyboard_layout();
    let a = get_word_path("hello", &layout);
    let empty: Vec<Point> = Vec::new();
    assert_eq!(dtw_distance(&a, &empty, 10), INF_COST);
    assert_eq!(dtw_distance(&empty, &a, 10), INF_COST);
}

#[test]
fn dtw_window_falls_back_to_length_difference() {
    let layout = get_keyboard_layout();
    let short = get_word_path("q", &layout);
    let long = get_word_path("qwertyuiop", &layout);
    // a window of zero could never reach the far corner; the band is
    // widened to the length difference instead of reporting no match
    let d = dtw_distance(&short, &long, 0);
    assert!(d < INF_COST);
    assert_eq!(d, dtw_distance(&short, &long, 9));
}

#[test]
fn dtw_cutoff_round_trip() {
    let layout = get_keyboard_layout();
    let a = get_word_path("qw", &layout);
    let b = get_word_path("qe", &layout);
    let exact = dtw_distance(&a, &b, 10);
    assert!(0 < exact && exact < INF_COST);
    // a cutoff strictly below the true cost reports no alignment
    assert_eq!(dtw_distance_fast(&a, &b, 10, exact - 1), INF_COST);
    // a cutoff at or above it returns exactly the unpruned cost
    assert_eq!(dtw_distance_fast(&a, &b, 10, exact), exact);
    assert_eq!(dtw_distance_fast(&a, &b, 10, u64::MAX), exact);
}

#[test]
fn sort_is_stable_and_rewards_frequency() {
    let mut cands: Vec<Candidate> = Vec::new();
    cands.push(Candidate { word: String::from("one"), score: 7, freq: 10, idx: 0 });
    cands.push(Candidate { word: String::from("two"), score: 7, freq: 900, idx: 1 });
    cands.push(Candidate { word: String::from("six"), score: 3, freq: 1, idx: 2 });

    // with no popularity weight, equal scores keep dictionary order
    let plain = sort_candidates(&cands, 0);
    assert_eq!(plain[0].word, "six");
    assert_eq!(plain[1].word, "one");
    assert_eq!(plain[2].word, "two");

    // a large weight lets the frequent tied word overtake its rival
    let weighted = sort_candidates(&cands, 250);
    assert!(
        weighted.iter().position(|c| c.word == "two").unwrap()
            <= plain.iter().position(|c| c.word == "two").unwrap()
    );
}
