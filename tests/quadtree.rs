use particle_life::fixed::Vec2;
use particle_life::quadtree::{Circle, Quadtree, Rect};

fn brute_force(points: &[(usize, Vec2)], c: &Circle) -> Vec<usize> {
    let mut v: Vec<usize> = points
        .iter()
        .filter(|(_, p)| {
            let dx = (p.x - c.x) as i128;
            let dy = (p.y - c.y) as i128;
            dx * dx + dy * dy < (c.r as i128) * (c.r as i128)
        })
        .map(|(i, _)| *i)
        .collect();
    v.sort();
    v
}

fn scattered(n: usize) -> Vec<(usize, Vec2)> {
    // a deterministic scatter over 1000 x 1000
    (0..n).map(|i| (i, Vec2::new(((i * 7919) % 1000) as i64, ((i * 104_729 + 13) % 1000) as i64))).collect()
}

#[test]
fn query_matches_brute_force() {
    let mut tree = Quadtree::new(4, Rect { x: 0, y: 0, w: 1000, h: 1000 });
    let points = scattered(300);
    for &(i, p) in &points {
        assert!(tree.insert(i, p));
    }
    for c in [
        Circle { x: 500, y: 500, r: 100 },
        Circle { x: 0, y: 0, r: 250 },
        Circle { x: 999, y: 10, r: 60 },
        Circle { x: -50, y: -50, r: 40 },
        Circle { x: 300, y: 700, r: 0 },
        Circle { x: 500, y: 500, r: 2000 },
    ] {
        let mut got = tree.query(c);
        got.sort();
        assert_eq!(got, brute_force(&points, &c));
    }
}

#[test]
fn query_on_the_circle_edge_is_strict() {
    let mut tree = Quadtree::new(1, Rect { x: 0, y: 0, w: 100, h: 100 });
    assert!(tree.insert(0, Vec2::new(10, 0)));
    assert!(tree.insert(1, Vec2::new(0, 9)));
    assert!(tree.insert(2, Vec2::new(6, 8)));
    assert_eq!(tree.query(Circle { x: 0, y: 0, r: 10 }), vec![1]);
    let mut all = tree.query(Circle { x: 0, y: 0, r: 11 });
    all.sort();
    assert_eq!(all, vec![0, 1, 2]);
}

#[test]
fn insert_outside_the_boundary_is_refused() {
    let mut tree = Quadtree::new(2, Rect { x: 10, y: 10, w: 20, h: 20 });
    assert!(!tree.insert(0, Vec2::new(30, 15)));
    assert!(!tree.insert(1, Vec2::new(9, 15)));
    assert!(tree.insert(2, Vec2::new(29, 29)));
    assert!(tree.insert(3, Vec2::new(10, 10)));
    assert_eq!(tree.query(Circle { x: 20, y: 20, r: 100 }).len(), 2);
}

#[test]
fn many_points_on_one_spot_are_kept() {
    let mut tree = Quadtree::new(2, Rect { x: 0, y: 0, w: 64, h: 64 });
    for i in 0..20 {
        assert!(tree.insert(i, Vec2::new(5, 5)));
    }
    assert_eq!(tree.query(Circle { x: 5, y: 5, r: 1 }).len(), 20);
    assert_eq!(tree.query(Circle { x: 50, y: 50, r: 10 }).len(), 0);
}

#[test]
fn divide_keeps_the_points() {
    let mut tree = Quadtree::new(8, Rect { x: 0, y: 0, w: 16, h: 16 });
    tree.insert(0, Vec2::new(1, 1));
    tree.divide();
    tree.insert(1, Vec2::new(15, 15));
    let mut got = tree.query(Circle { x: 8, y: 8, r: 20 });
    got.sort();
    assert_eq!(got, vec![0, 1]);
}

#[test]
fn rect_and_circle_predicates() {
    let r = Rect { x: 0, y: 0, w: 10, h: 10 };
    assert!(r.contains(Vec2::new(0, 0)));
    assert!(r.contains(Vec2::new(9, 9)));
    assert!(!r.contains(Vec2::new(10, 5)));
    // the nearest point (9, 5) is exactly 6 away: a disc of radius 6 misses it
    assert!(!Circle { x: 15, y: 5, r: 6 }.overlaps_rect(&r));
    assert!(Circle { x: 15, y: 5, r: 7 }.overlaps_rect(&r));
    assert!(!Circle { x: 15, y: 5, r: 7 }.overlaps_rect(&Rect { x: 0, y: 0, w: 9, h: 10 }));
    assert!(!Circle { x: 12, y: 12, r: 4 }.overlaps_rect(&r));
    assert!(Circle { x: 12, y: 12, r: 5 }.overlaps_rect(&r));
    assert!(Circle { x: 5, y: 5, r: 1 }.overlaps_rect(&r));
    assert!(Circle { x: 3, y: 4, r: 6 }.contains(Vec2::new(0, 0)));
    assert!(!Circle { x: 3, y: 4, r: 5 }.contains(Vec2::new(0, 0)));
}

#[test]
fn node_boundaries_after_a_split() {
    let mut tree = Quadtree::new(1, Rect { x: 0, y: 0, w: 9, h: 5 });
    assert_eq!(tree.boundaries(), vec![Rect { x: 0, y: 0, w: 9, h: 5 }]);
    tree.insert(0, Vec2::new(1, 1));
    tree.insert(1, Vec2::new(8, 4));
    assert_eq!(tree.boundary(), Rect { x: 0, y: 0, w: 9, h: 5 });
    assert_eq!(
        tree.boundaries(),
        vec![
            Rect { x: 0, y: 0, w: 9, h: 5 },
            Rect { x: 0, y: 0, w: 4, h: 2 },
            Rect { x: 4, y: 0, w: 5, h: 2 },
            Rect { x: 0, y: 2, w: 4, h: 3 },
            Rect { x: 4, y: 2, w: 5, h: 3 },
        ]
    );
}

#[test]
fn divide_makes_four_empty_quadrants() {
    let mut tree = Quadtree::new(4, Rect { x: 2, y: 3, w: 7, h: 6 });
    tree.insert(0, Vec2::new(3, 4));
    tree.divide();
    assert_eq!(
        tree.boundaries(),
        vec![
            Rect { x: 2, y: 3, w: 7, h: 6 },
            Rect { x: 2, y: 3, w: 3, h: 3 },
            Rect { x: 5, y: 3, w: 4, h: 3 },
            Rect { x: 2, y: 6, w: 3, h: 3 },
            Rect { x: 5, y: 6, w: 4, h: 3 },
        ]
    );
    // the node keeps its own entry after dividing
    assert_eq!(tree.query(Circle { x: 3, y: 4, r: 1 }), vec![0]);
}

#[test]
fn a_miss_leaves_the_tree_alone() {
    let mut tree = Quadtree::new(1, Rect { x: 0, y: 0, w: 8, h: 8 });
    tree.insert(0, Vec2::new(1, 1));
    let before = tree.boundaries();
    assert!(!tree.insert(1, Vec2::new(8, 8)));
    assert_eq!(tree.boundaries(), before);
    assert_eq!(before.len(), 1);
}
