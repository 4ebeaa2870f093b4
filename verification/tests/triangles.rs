use cgpp2::triangle::{fill_triangle_iter, TriangleRasterizedPixel};

const WIDTH: i32 = 1000;
const HEIGHT: i32 = 1000;

/// A pixel-unit coordinate in the rasterizer's fixed-point units (tenths).
fn subpix(v: f32) -> i32 {
    (v * 10.0).round() as i32
}

fn rasterize(points: [f32; 6], minx: i32, miny: i32, maxx: i32, maxy: i32) -> Vec<TriangleRasterizedPixel> {
    let mut it = fill_triangle_iter(
        subpix(points[0]),
        subpix(points[1]),
        subpix(points[2]),
        subpix(points[3]),
        subpix(points[4]),
        subpix(points[5]),
        minx,
        miny,
        maxx,
        maxy,
    );
    let mut out = Vec::new();
    while let Some(p) = it.next() {
        out.push(p);
    }
    out
}

fn assert_filled_pixels(points: [f32; 6], pixels: Vec<i32>) {
    let output: Vec<i32> = rasterize(points, 0, 0, WIDTH, HEIGHT)
        .iter()
        .flat_map(|p| vec![p.x, p.y])
        .collect();
    assert_eq!(output, pixels);
}

#[test]
fn test_fill_rule1() {
    let points = [4.5, 7.5, 4.5, 7.5, 4.5, 7.5];
    let pixels = vec![];
    assert_filled_pixels(points, pixels);
}

#[test]
fn test_fill_rule2() {
    let points = [1.0, 2.0, 5.0, 2.0, 7.0, 4.0];
    let pixels = vec![2, 2, 3, 2, 4, 2, 5, 3];
    assert_filled_pixels(points, pixels);

    let points = [5.0, 2.0, 8.0, 1.0, 7.0, 4.0];
    let pixels = vec![6, 1, 7, 1, 5, 2, 6, 2, 6, 3];
    assert_filled_pixels(points, pixels);

    let points = [8.0, 1.0, 9.0, 2.5, 7.0, 4.0];
    let pixels = vec![7, 2, 8, 2, 7, 3];
    assert_filled_pixels(points, pixels);
}

#[test]
fn test_fill_rule3() {
    let points = [9.5, 0.5, 9.5, -1.5, 10.5, 0.5];
    let pixels = vec![9, 0];
    assert_filled_pixels(points, pixels);
}

#[test]
fn test_fill_rule4() {
    let points = [11.5, 3.5, 11.5, 1.5, 12.5, 2.5];
    let pixels = vec![11, 2];
    assert_filled_pixels(points, pixels);
}

#[test]
fn test_fill_rule5() {
    let points = [12.5, 2.5, 12.5, 0.5, 14.5, 2.5];
    let pixels = vec![12, 1, 12, 2, 13, 2];
    assert_filled_pixels(points, pixels);

    let points = [14.5, 2.5, 12.5, 0.5, 14.5, 0.5];
    let pixels = vec![13, 1];
    assert_filled_pixels(points, pixels);
}

#[test]
fn test_fill_rule6() {
    let points = [1.0, 7.0, 2.0, 4.0, 6.0, 6.0];
    let pixels = vec![2, 4, 1, 5, 2, 5, 3, 5, 4, 5, 1, 6, 2, 6];
    assert_filled_pixels(points, pixels);
}

#[test]
fn test_fill_rule7() {
    let points = [5.2, 6.8, 6.2, 6.8, 6.2, 7.8];
    let pixels = vec![];
    assert_filled_pixels(points, pixels);

    let points = [6.5, 6.5, 7.5, 6.5, 7.5, 7.5];
    let pixels = vec![];
    assert_filled_pixels(points, pixels);
}

#[test]
fn test_fill_rule8() {
    let points = [7.8, 5.5, 9.5, 2.8, 11.8, 5.5];
    let pixels = vec![9, 3, 8, 4, 9, 4, 10, 4, 8, 5, 9, 5, 10, 5, 11, 5];
    assert_filled_pixels(points, pixels);

    let points = [7.8, 5.5, 11.8, 5.5, 9.8, 7.2];
    let pixels = vec![9, 6, 10, 6];
    assert_filled_pixels(points, pixels);
}

#[test]
fn test_fill_rule9() {
    let points = [13.5, 6.5, 14.5, 3.5, 14.5, 5.5];
    let pixels = vec![];
    assert_filled_pixels(points, pixels);

    let points = [13.5, 6.5, 14.5, 5.5, 15.0, 8.0];
    let pixels = vec![13, 6, 14, 6, 14, 7];
    assert_filled_pixels(points, pixels);
}

#[test]
fn test_shared_edge_partition() {
    // Two triangles sharing the edge (200,100)-(190,150) with consistent
    // winding: no pixel may be rasterized by both.
    let a = rasterize([100.0, 100.0, 200.0, 100.0, 190.0, 150.0], 0, 0, WIDTH, HEIGHT);
    let b = rasterize([200.0, 100.0, 400.0, 150.0, 190.0, 150.0], 0, 0, WIDTH, HEIGHT);
    assert!(!a.is_empty());
    assert!(!b.is_empty());
    let set_a: std::collections::HashSet<(i32, i32)> = a.iter().map(|p| (p.x, p.y)).collect();
    let common: Vec<(i32, i32)> = b.iter().map(|p| (p.x, p.y)).filter(|q| set_a.contains(q)).collect();
    assert_eq!(common, vec![]);
}

#[test]
fn test_partition_square_diagonal() {
    // A square split along its diagonal: together the two triangles cover
    // every pixel of the square exactly once, the diagonal included.
    let a = rasterize([0.0, 0.0, 8.0, 0.0, 8.0, 8.0], 0, 0, WIDTH, HEIGHT);
    let b = rasterize([0.0, 0.0, 8.0, 8.0, 0.0, 8.0], 0, 0, WIDTH, HEIGHT);
    let mut counts = std::collections::HashMap::new();
    for p in a.iter().chain(b.iter()) {
        *counts.entry((p.x, p.y)).or_insert(0) += 1;
    }
    assert_eq!(counts.len(), 64);
    for y in 0..8 {
        for x in 0..8 {
            assert_eq!(counts.get(&(x, y)), Some(&1));
        }
    }
}

#[test]
fn test_barycentric_sum_invariant() {
    // For every rasterized pixel, the integer numerators sum to the doubled
    // area exactly, the weights are non-negative, and the floating-point
    // weights sum to one within epsilon.
    let cases = [
        [1.0, 2.0, 5.0, 2.0, 7.0, 4.0],
        [7.8, 5.5, 9.5, 2.8, 11.8, 5.5],
        [100.0, 100.0, 200.0, 100.0, 190.0, 150.0],
        [13.5, 6.5, 14.5, 5.5, 15.0, 8.0],
    ];
    for points in cases.iter() {
        let pixels = rasterize(*points, 0, 0, WIDTH, HEIGHT);
        assert!(!pixels.is_empty());
        for p in pixels.iter() {
            assert_eq!(p.w0 + p.w1 + p.w2, p.area2);
            assert!(p.w0 >= 0 && p.w1 >= 0 && p.w2 >= 0);
            let area2 = p.area2 as f32;
            let sum = p.w0 as f32 / area2 + p.w1 as f32 / area2 + p.w2 as f32 / area2;
            assert!((sum - 1.0).abs() < 1e-4);
        }
    }
}

#[test]
fn test_clip_empty() {
    // A triangle entirely outside the clip rectangle yields nothing.
    let output = rasterize([100.0, 100.0, 200.0, 100.0, 190.0, 150.0], 0, 0, 50, 50);
    assert!(output.is_empty());
}

#[test]
fn test_clip_cuts_rows() {
    // Clipping limits the same triangle to the rows and columns allowed.
    let full = rasterize([1.0, 2.0, 5.0, 2.0, 7.0, 4.0], 0, 0, WIDTH, HEIGHT);
    let clipped = rasterize([1.0, 2.0, 5.0, 2.0, 7.0, 4.0], 0, 0, 4, HEIGHT);
    let expected: Vec<(i32, i32)> = full
        .iter()
        .map(|p| (p.x, p.y))
        .filter(|&(x, _)| x < 4)
        .collect();
    let got: Vec<(i32, i32)> = clipped.iter().map(|p| (p.x, p.y)).collect();
    assert_eq!(got, expected);
}

#[test]
fn test_winding_normalized() {
    // Either winding of the same triangle rasterizes the same pixels.
    let ccw = rasterize([1.0, 2.0, 5.0, 2.0, 7.0, 4.0], 0, 0, WIDTH, HEIGHT);
    let cw = rasterize([1.0, 2.0, 7.0, 4.0, 5.0, 2.0], 0, 0, WIDTH, HEIGHT);
    let a: Vec<(i32, i32)> = ccw.iter().map(|p| (p.x, p.y)).collect();
    let b: Vec<(i32, i32)> = cw.iter().map(|p| (p.x, p.y)).collect();
    assert_eq!(a, b);
}
