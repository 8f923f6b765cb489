use fuz::topk::{Scored, TopK};

fn scored(score: i32) -> Scored {
    Scored {
        score,
        line_no: 0,
        col: 0,
        prefix: Box::from(&b"p:"[..]),
        line: Box::from(&b"line"[..]),
    }
}

#[test]
fn keeps_top_k() {
    let mut t = TopK::new(3);
    for s in [10, 5, 7, 2, 9, 1, 8] {
        t.try_insert(s, b"p:", 0, b"x");
    }
    let v: Vec<i32> = t.into_sorted_best_first().iter().map(|s| s.score).collect();
    assert_eq!(v, vec![10, 9, 8]);
}

#[test]
fn cutoff_filters_below() {
    let mut t = TopK::new(2);
    t.try_insert(10, b"p:", 0, b"x");
    t.try_insert(20, b"p:", 0, b"x");
    // Heap is full, cutoff = 10
    assert_eq!(t.cutoff(), 10);
    t.try_insert(5, b"p:", 0, b"x"); // below cutoff, ignored
    t.try_insert(10, b"p:", 0, b"x"); // equals cutoff, not strictly greater, ignored
    let v: Vec<i32> = t.into_sorted_best_first().iter().map(|s| s.score).collect();
    assert_eq!(v, vec![20, 10]);
}

#[test]
fn fewer_than_k_returns_all() {
    let mut t = TopK::new(10);
    t.try_insert(3, b"p:", 0, b"x");
    t.try_insert(1, b"p:", 0, b"x");
    t.try_insert(2, b"p:", 0, b"x");
    let v: Vec<i32> = t.into_sorted_best_first().iter().map(|s| s.score).collect();
    assert_eq!(v, vec![3, 2, 1]);
}

#[test]
fn ord_breaks_ties_deterministically() {
    let a = scored(5);
    let mut b = scored(5);
    b.line_no = 1;
    assert!(b > a);
}

#[test]
fn kept_scores_do_not_depend_on_the_order() {
    let kept = |scores: &[i32]| {
        let mut t = TopK::new(3);
        for (i, &s) in scores.iter().enumerate() {
            t.try_insert(s, b"p:", i as u64, b"x");
        }
        t.into_sorted_best_first().iter().map(|s| s.score).collect::<Vec<i32>>()
    };
    assert_eq!(kept(&[4, 9, 4, 7, 4]), vec![9, 7, 4]);
    assert_eq!(kept(&[4, 4, 4, 7, 9]), vec![9, 7, 4]);
    assert_eq!(kept(&[9, 7, 4, 4, 4]), vec![9, 7, 4]);
}

#[test]
fn of_tied_matches_the_same_one_leaves() {
    for lines in [[1, 2, 3], [3, 1, 2], [2, 3, 1]] {
        let mut t = TopK::new(3);
        for n in lines {
            t.try_insert(5, b"p:", n, b"x");
        }
        t.try_insert(6, b"p:", 9, b"x");
        let v: Vec<u64> = t.into_sorted_best_first().iter().map(|s| s.line_no).collect();
        assert_eq!(v, vec![9, 3, 2]);
    }
}
