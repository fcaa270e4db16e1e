use pixelify::BoxBlur;

#[test]
fn grid() {
    let grid = BoxBlur::uniform_grid(10, 10, 3);
    let expect: &[(u32, u32)] = &[
        (3, 3),
        (3, 6),
        (3, 9),
        (6, 3),
        (6, 6),
        (6, 9),
        (9, 3),
        (9, 6),
        (9, 9),
    ];
    assert_eq!(expect, grid);
}

#[test]
fn grid_is_deterministic() {
    let a = BoxBlur::uniform_grid(17, 23, 4);
    let b = BoxBlur::uniform_grid(17, 23, 4);
    assert_eq!(a, b);
}

#[test]
fn grid_empty_when_scale_reaches_width() {
    assert!(BoxBlur::uniform_grid(5, 10, 5).is_empty());
}

#[test]
fn grid_empty_when_scale_reaches_height() {
    assert!(BoxBlur::uniform_grid(10, 3, 7).is_empty());
}

#[test]
fn grid_anchors_start_at_scale_and_stay_inside() {
    let grid = BoxBlur::uniform_grid(9, 7, 2);
    for &(x, y) in &grid {
        assert!(x % 2 == 0 && 2 <= x && x < 9);
        assert!(y % 2 == 0 && 2 <= y && y < 7);
    }
    assert_eq!(grid.len(), 4 * 3);
    assert_eq!(grid[0], (2, 2));
    assert_eq!(grid.last().copied(), Some((8, 6)));
}
