use cgpp2::line::{line_iter, LineIter};

fn collect_points(mut it: LineIter) -> Vec<[i32; 2]> {
    let mut v = Vec::new();
    while let Some(p) = it.next() {
        v.push(p);
    }
    v
}

#[test]
fn test_octant_1() {
    let points: Vec<_> = collect_points(line_iter(0, 0, 4, 3));
    assert_eq!(points, vec![[0, 0], [1, 1], [2, 1], [3, 2], [4, 3]]);
}

#[test]
fn test_symmetry_1() {
    let points: Vec<_> = collect_points(line_iter(4, 3, 0, 0));
    assert_eq!(points, vec![[4, 3], [3, 2], [2, 1], [1, 1], [0, 0]]);
}

#[test]
fn test_octant_2() {
    let points: Vec<_> = collect_points(line_iter(0, 0, 3, 4));
    assert_eq!(points, vec![[0, 0], [1, 1], [1, 2], [2, 3], [3, 4]]);
}

#[test]
fn test_symmetry_2() {
    let points: Vec<_> = collect_points(line_iter(3, 4, 0, 0));
    assert_eq!(points, vec![[3, 4], [2, 3], [1, 2], [1, 1], [0, 0]]);
}

#[test]
fn test_octant_3() {
    let points: Vec<_> = collect_points(line_iter(0, 0, -3, 4));
    assert_eq!(points, vec![[0, 0], [-1, 1], [-1, 2], [-2, 3], [-3, 4]]);
}

#[test]
fn test_symmetry_3() {
    let points: Vec<_> = collect_points(line_iter(-3, 4, 0, 0));
    assert_eq!(points, vec![[-3, 4], [-2, 3], [-1, 2], [-1, 1], [0, 0]]);
}

#[test]
fn test_octant_4() {
    let points: Vec<_> = collect_points(line_iter(0, 0, -4, 3));
    assert_eq!(points, vec![[0, 0], [-1, 1], [-2, 2], [-3, 2], [-4, 3]]);
}

#[test]
fn test_symmetry_4() {
    let points: Vec<_> = collect_points(line_iter(-4, 3, 0, 0));
    assert_eq!(points, vec![[-4, 3], [-3, 2], [-2, 2], [-1, 1], [0, 0]]);
}

#[test]
fn test_octant_5() {
    let points: Vec<_> = collect_points(line_iter(0, 0, -4, -3));
    assert_eq!(points, vec![[0, 0], [-1, -1], [-2, -2], [-3, -2], [-4, -3]]);
}

#[test]
fn test_symmetry_5() {
    let points: Vec<_> = collect_points(line_iter(-4, -3, 0, 0));
    assert_eq!(points, vec![[-4, -3], [-3, -2], [-2, -2], [-1, -1], [0, 0]]);
}

#[test]
fn test_octant_6() {
    let points: Vec<_> = collect_points(line_iter(0, 0, -3, -4));
    assert_eq!(points, vec![[0, 0], [-1, -1], [-2, -2], [-2, -3], [-3, -4]]);
}

#[test]
fn test_symmetry_6() {
    let points: Vec<_> = collect_points(line_iter(-3, -4, 0, 0));
    assert_eq!(points, vec![[-3, -4], [-2, -3], [-2, -2], [-1, -1], [0, 0]]);
}

#[test]
fn test_octant_7() {
    let points: Vec<_> = collect_points(line_iter(0, 0, 3, -4));
    assert_eq!(points, vec![[0, 0], [1, -1], [2, -2], [2, -3], [3, -4]]);
}

#[test]
fn test_symmetry_7() {
    let points: Vec<_> = collect_points(line_iter(3, -4, 0, 0));
    assert_eq!(points, vec![[3, -4], [2, -3], [2, -2], [1, -1], [0, 0]]);
}

#[test]
fn test_octant_8() {
    let points: Vec<_> = collect_points(line_iter(0, 0, 4, -3));
    assert_eq!(points, vec![[0, 0], [1, -1], [2, -1], [3, -2], [4, -3]]);
}

#[test]
fn test_symmetry_8() {
    let points: Vec<_> = collect_points(line_iter(4, -3, 0, 0));
    assert_eq!(points, vec![[4, -3], [3, -2], [2, -1], [1, -1], [0, 0]]);
}

#[test]
fn test_single_point() {
    let points: Vec<_> = collect_points(line_iter(7, -2, 7, -2));
    assert_eq!(points, vec![[7, -2]]);
}

#[test]
fn test_horizontal() {
    let points: Vec<_> = collect_points(line_iter(2, 5, -2, 5));
    assert_eq!(points, vec![[2, 5], [1, 5], [0, 5], [-1, 5], [-2, 5]]);
}

#[test]
fn test_vertical() {
    let points: Vec<_> = collect_points(line_iter(3, 1, 3, 4));
    assert_eq!(points, vec![[3, 1], [3, 2], [3, 3], [3, 4]]);
}

#[test]
fn test_diagonal() {
    let points: Vec<_> = collect_points(line_iter(0, 0, 3, 3));
    assert_eq!(points, vec![[0, 0], [1, 1], [2, 2], [3, 3]]);
}

#[test]
fn test_reverse_symmetry_random_lines() {
    // Walking any segment backwards visits the same points in reverse order.
    let ends = [
        (0, 0, 11, 4),
        (-3, 7, 12, -5),
        (5, 5, -9, -2),
        (1, 1, 1, 9),
        (-6, 0, 6, 1),
    ];
    for &(x0, y0, x1, y1) in ends.iter() {
        let forward: Vec<_> = collect_points(line_iter(x0, y0, x1, y1));
        let mut backward: Vec<_> = collect_points(line_iter(x1, y1, x0, y0));
        backward.reverse();
        assert_eq!(forward, backward);
    }
}

#[test]
fn test_endpoints_always_present() {
    let ends = [(0, 0, 10, 3), (4, -4, -7, 9), (2, 2, 2, 2), (-1, 0, 8, 8)];
    for &(x0, y0, x1, y1) in ends.iter() {
        let points = collect_points(line_iter(x0, y0, x1, y1));
        assert_eq!(points.first(), Some(&[x0, y0]));
        assert_eq!(points.last(), Some(&[x1, y1]));
        let dx = (x1 - x0).abs();
        let dy = (y1 - y0).abs();
        assert_eq!(points.len() as i32, dx.max(dy) + 1);
    }
}
