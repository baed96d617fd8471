use spritesheet_gen::max_rect::{FreeRectChoiceHeuristic, MaxRectsBinPack, Rect};

fn rect(x: i32, y: i32, width: i32, height: i32) -> Rect {
    Rect { x, y, width, height }
}

fn overlap(a: &Rect, b: &Rect) -> bool {
    a.x < b.x + b.width && b.x < a.x + a.width && a.y < b.y + b.height && b.y < a.y + a.height
}

fn inside(a: &Rect, b: &Rect) -> bool {
    a.x >= b.x && a.y >= b.y && a.x + a.width <= b.x + b.width && a.y + a.height <= b.y + b.height
}

fn check_invariants(p: &MaxRectsBinPack) {
    let used = p.used_rect();
    let free = p.free_rect();
    for i in 0..used.len() {
        for j in 0..used.len() {
            if i != j {
                assert!(!overlap(&used[i], &used[j]));
            }
        }
    }
    for i in 0..free.len() {
        for j in 0..free.len() {
            if i != j {
                assert!(!inside(&free[i], &free[j]));
            }
        }
    }
    for py in 0..p.height() as i32 {
        for px in 0..p.width() as i32 {
            let cell = rect(px, py, 1, 1);
            assert!(free.iter().chain(used.iter()).any(|r| inside(&cell, r)));
        }
    }
}

#[test]
fn test_insert() {
    let mut max_rect = MaxRectsBinPack::new(1024, 1024, false);
    let test_data = [(100, 100), (32, 32), (32, 12), (50, 50), (27, 15), (128, 45), (1000, 198), (44, 89)];
    for tp in test_data.iter() {
        max_rect.insert(tp.0, tp.1, FreeRectChoiceHeuristic::BestAreaFit);
    }
    assert_eq!(max_rect.used_rect().len(), 8);
    assert_eq!(max_rect.used_rect()[6], rect(0, 239, 1000, 198));
    assert_eq!(max_rect.used_rect()[7], rect(59, 100, 44, 89));
}

#[test]
fn new_bin_has_one_free_rect() {
    let p = MaxRectsBinPack::new(300, 200, true);
    assert_eq!(p.width(), 300);
    assert_eq!(p.height(), 200);
    assert_eq!(p.free_rect().clone(), vec![rect(0, 0, 300, 200)]);
    assert!(p.used_rect().is_empty());
}

#[test]
fn first_piece_goes_to_corner() {
    let mut p = MaxRectsBinPack::new(100, 100, false);
    let r = p.insert(50, 50, FreeRectChoiceHeuristic::BestAreaFit);
    assert_eq!(r, rect(0, 0, 50, 50));
    assert_eq!(p.free_rect().clone(), vec![rect(0, 50, 100, 50), rect(50, 0, 50, 100)]);
    assert_eq!(p.used_rect().clone(), vec![rect(0, 0, 50, 50)]);
    check_invariants(&p);
}

#[test]
fn too_wide_piece_is_refused() {
    let mut p = MaxRectsBinPack::new(10, 10, false);
    let r = p.insert(20, 5, FreeRectChoiceHeuristic::BestAreaFit);
    assert_eq!(r.height, 0);
    assert_eq!(r, rect(0, 0, 0, 0));
    assert_eq!(p.free_rect().clone(), vec![rect(0, 0, 10, 10)]);
    assert!(p.used_rect().is_empty());
}

#[test]
fn refused_piece_leaves_state_alone() {
    let mut p = MaxRectsBinPack::new(64, 64, false);
    p.insert(40, 40, FreeRectChoiceHeuristic::BestShortSideFit);
    let free = p.free_rect().clone();
    let used = p.used_rect().clone();
    let r = p.insert(30, 30, FreeRectChoiceHeuristic::BestShortSideFit);
    assert_eq!(r.height, 0);
    assert_eq!(p.free_rect().clone(), free);
    assert_eq!(p.used_rect().clone(), used);
    check_invariants(&p);
}

#[test]
fn second_piece_turned_when_only_that_fits() {
    let mut p = MaxRectsBinPack::new(4, 10, true);
    assert_eq!(p.insert(2, 8, FreeRectChoiceHeuristic::BestAreaFit), rect(0, 0, 2, 8));
    let r = p.insert(8, 2, FreeRectChoiceHeuristic::BestAreaFit);
    assert_eq!(r, rect(2, 0, 2, 8));
    check_invariants(&p);
}

#[test]
fn second_piece_fits_in_ten_by_ten_with_rotation() {
    let mut p = MaxRectsBinPack::new(10, 10, true);
    assert_eq!(p.insert(2, 8, FreeRectChoiceHeuristic::BestAreaFit), rect(0, 0, 2, 8));
    let r = p.insert(8, 2, FreeRectChoiceHeuristic::BestAreaFit);
    assert_ne!(r.height, 0);
    assert_eq!(r, rect(0, 8, 8, 2));
    check_invariants(&p);
}

#[test]
fn no_turning_without_rotation() {
    let mut p = MaxRectsBinPack::new(4, 10, false);
    p.insert(2, 8, FreeRectChoiceHeuristic::BestAreaFit);
    let r = p.insert(8, 2, FreeRectChoiceHeuristic::BestAreaFit);
    assert_eq!(r.height, 0);
    assert_eq!(p.used_rect().len(), 1);
}

#[test]
fn seven_pieces_all_fit() {
    let mut p = MaxRectsBinPack::new(1024, 1024, false);
    let pieces = [(100, 100), (32, 32), (50, 50), (27, 15), (128, 45), (1000, 198), (44, 89)];
    let expected = [
        rect(0, 0, 100, 100),
        rect(0, 100, 32, 32),
        rect(0, 132, 50, 50),
        rect(32, 100, 27, 15),
        rect(0, 182, 128, 45),
        rect(0, 227, 1000, 198),
        rect(100, 0, 44, 89),
    ];
    for (k, (w, h)) in pieces.iter().enumerate() {
        let r = p.insert(*w, *h, FreeRectChoiceHeuristic::BestAreaFit);
        assert_eq!(r, expected[k]);
    }
    assert_eq!(p.used_rect().len(), 7);
    assert_eq!(p.free_rect().len(), 8);
    let wide = p.used_rect()[5];
    assert!(wide.y >= 182 && wide.width == 1000);
    check_invariants(&p);
}

#[test]
fn congruent_free_rects_tie_goes_to_first() {
    let mut p = MaxRectsBinPack::new(10, 10, false);
    p.insert(5, 5, FreeRectChoiceHeuristic::BestAreaFit);
    assert_eq!(p.free_rect().clone(), vec![rect(0, 5, 10, 5), rect(5, 0, 5, 10)]);
    let r = p.insert(5, 5, FreeRectChoiceHeuristic::BestAreaFit);
    assert_eq!(r, rect(0, 5, 5, 5));
    check_invariants(&p);
}

#[test]
fn tie_between_identical_areas_of_separate_rects() {
    let mut p = MaxRectsBinPack::new(30, 10, false);
    p.insert(10, 10, FreeRectChoiceHeuristic::BottomLeftRule);
    p.insert(10, 10, FreeRectChoiceHeuristic::BottomLeftRule);
    assert_eq!(p.used_rect()[1], rect(10, 0, 10, 10));
    assert_eq!(p.free_rect().clone(), vec![rect(20, 0, 10, 10)]);
}

#[test]
fn queries_repeat() {
    let mut p = MaxRectsBinPack::new(64, 64, true);
    p.insert(30, 20, FreeRectChoiceHeuristic::ContactPointRule);
    p.insert(20, 30, FreeRectChoiceHeuristic::ContactPointRule);
    assert_eq!(p.free_rect().clone(), p.free_rect().clone());
    assert_eq!(p.used_rect().clone(), p.used_rect().clone());
    assert_eq!(p.width(), p.width());
    assert_eq!(p.height(), p.height());
}

fn run(m: FreeRectChoiceHeuristic) -> (Vec<Rect>, usize, MaxRectsBinPack) {
    let mut p = MaxRectsBinPack::new(64, 64, true);
    let mut out = Vec::new();
    for (w, h) in [(30, 20), (20, 30), (10, 50), (40, 10), (64, 64)] {
        out.push(p.insert(w, h, m));
    }
    let n = p.free_rect().len();
    (out, n, p)
}

#[test]
fn best_short_side_fit_sequence() {
    let (out, n, p) = run(FreeRectChoiceHeuristic::BestShortSideFit);
    assert_eq!(out, vec![rect(0, 0, 30, 20), rect(30, 0, 30, 20), rect(0, 20, 50, 10), rect(50, 20, 10, 40), rect(0, 0, 0, 0)]);
    assert_eq!(n, 3);
    check_invariants(&p);
}

#[test]
fn best_long_side_fit_sequence() {
    let (out, n, p) = run(FreeRectChoiceHeuristic::BestLongSideFit);
    assert_eq!(out, vec![rect(0, 0, 30, 20), rect(30, 0, 20, 30), rect(50, 0, 10, 50), rect(0, 20, 10, 40), rect(0, 0, 0, 0)]);
    assert_eq!(n, 5);
    check_invariants(&p);
}

#[test]
fn best_area_fit_sequence() {
    let (out, n, p) = run(FreeRectChoiceHeuristic::BestAreaFit);
    assert_eq!(out, vec![rect(0, 0, 30, 20), rect(30, 0, 30, 20), rect(0, 20, 50, 10), rect(50, 20, 10, 40), rect(0, 0, 0, 0)]);
    assert_eq!(n, 3);
    check_invariants(&p);
}

#[test]
fn bottom_left_sequence() {
    let (out, n, p) = run(FreeRectChoiceHeuristic::BottomLeftRule);
    assert_eq!(out, vec![rect(0, 0, 30, 20), rect(30, 0, 30, 20), rect(0, 20, 50, 10), rect(0, 30, 40, 10), rect(0, 0, 0, 0)]);
    assert_eq!(n, 4);
    check_invariants(&p);
}

#[test]
fn contact_point_sequence() {
    let (out, n, p) = run(FreeRectChoiceHeuristic::ContactPointRule);
    assert_eq!(out, vec![rect(0, 0, 30, 20), rect(0, 20, 20, 30), rect(30, 0, 10, 50), rect(20, 20, 10, 40), rect(0, 0, 0, 0)]);
    assert_eq!(n, 4);
    check_invariants(&p);
}

#[test]
fn same_requests_same_placements() {
    let (a, _, pa) = run(FreeRectChoiceHeuristic::ContactPointRule);
    let (b, _, pb) = run(FreeRectChoiceHeuristic::ContactPointRule);
    assert_eq!(a, b);
    assert_eq!(pa.free_rect().clone(), pb.free_rect().clone());
    assert_eq!(pa.used_rect().clone(), pb.used_rect().clone());
}

#[test]
fn init_resets() {
    let mut p = MaxRectsBinPack::new(64, 64, true);
    p.insert(30, 20, FreeRectChoiceHeuristic::BestAreaFit);
    p.init(16, 8, false);
    assert_eq!(p.width(), 16);
    assert_eq!(p.height(), 8);
    assert_eq!(p.free_rect().clone(), vec![rect(0, 0, 16, 8)]);
    assert!(p.used_rect().is_empty());
    assert_eq!(p.insert(8, 16, FreeRectChoiceHeuristic::BestAreaFit).height, 0);
}

#[test]
fn exact_fill_leaves_no_free_rect() {
    let mut p = MaxRectsBinPack::new(8, 8, false);
    assert_eq!(p.insert(8, 8, FreeRectChoiceHeuristic::BestShortSideFit), rect(0, 0, 8, 8));
    assert!(p.free_rect().is_empty());
    assert_eq!(p.insert(1, 1, FreeRectChoiceHeuristic::BestShortSideFit).height, 0);
}

#[test]
fn many_small_pieces_keep_invariants() {
    let mut p = MaxRectsBinPack::new(40, 30, true);
    let methods = [
        FreeRectChoiceHeuristic::BestShortSideFit,
        FreeRectChoiceHeuristic::BestLongSideFit,
        FreeRectChoiceHeuristic::BestAreaFit,
        FreeRectChoiceHeuristic::BottomLeftRule,
        FreeRectChoiceHeuristic::ContactPointRule,
    ];
    let mut k = 0;
    for w in 1..8 {
        for h in 2..6 {
            p.insert(w, h, methods[k % 5]);
            k += 1;
            check_invariants(&p);
        }
    }
}

#[test]
fn default_rect_is_the_no_fit_marker() {
    assert_eq!(Rect::default(), rect(0, 0, 0, 0));
    assert_eq!(Rect::default().height, 0);
}
