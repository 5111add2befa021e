use pullauta::heightmap::{Grid, HeightMap};

fn grid_2x2(values: [[f64; 2]; 2]) -> Grid {
    let mut data = Grid::new(2, 2, 0.0f64.to_bits());
    data.set(0, 0, values[0][0].to_bits());
    data.set(1, 0, values[0][1].to_bits());
    data.set(0, 1, values[1][0].to_bits());
    data.set(1, 1, values[1][1].to_bits());
    data
}

#[test]
fn test_bytes() {
    let mut data = Grid::new(2, 2, 0.0f64.to_bits());
    data.set(0, 0, 1.0f64.to_bits());
    data.set(1, 0, 2.0f64.to_bits());
    data.set(0, 1, 3.0f64.to_bits());
    data.set(1, 1, 4.0f64.to_bits());

    let heightmap = HeightMap {
        xoffset: 3.0f64.to_bits(),
        yoffset: (-5.0f64).to_bits(),
        scale: 1.5f64.to_bits(),
        grid: data,
    };

    let bytes = heightmap.to_bytes();
    let heightmap2 = HeightMap::from_bytes(&bytes).unwrap();

    assert_eq!(heightmap, heightmap2);
}

#[test]
fn tiny_heightmap_round_trip() {
    let heightmap = HeightMap {
        xoffset: 3.0f64.to_bits(),
        yoffset: (-5.0f64).to_bits(),
        scale: 1.5f64.to_bits(),
        grid: grid_2x2([[1.0, 2.0], [3.0, 4.0]]),
    };
    let bytes = heightmap.to_bytes();
    // header, two dimensions, and four cells of eight bytes each
    assert_eq!(bytes.len(), 40 + 32);
    assert_eq!(HeightMap::from_bytes(&bytes).unwrap(), heightmap);
}

#[test]
fn from_bytes_rejects_bad_sizes() {
    let heightmap = HeightMap {
        xoffset: 0.0f64.to_bits(),
        yoffset: 0.0f64.to_bits(),
        scale: 1.0f64.to_bits(),
        grid: grid_2x2([[1.0, 2.0], [3.0, 4.0]]),
    };
    let mut bytes = heightmap.to_bytes();

    let mut short = bytes.clone();
    short.pop();
    assert!(HeightMap::from_bytes(&short).is_none());

    bytes.push(0);
    assert!(HeightMap::from_bytes(&bytes).is_none());

    assert!(HeightMap::from_bytes(&vec![0u8; 39]).is_none());
}

#[test]
fn fill_carry_removes_column_gaps() {
    let nan = f64::NAN.to_bits();
    let mut grid = Grid::new(2, 3, nan);
    grid.set(0, 1, 7.5f64.to_bits());
    grid.set(1, 0, 2.0f64.to_bits());
    assert!(grid.has_nan());

    grid.fill_carry();

    // column 0 carries 7.5 up and down, column 1 carries 2.0 down
    assert!(!grid.has_nan());
    assert_eq!(grid.get(0, 0), 7.5f64.to_bits());
    assert_eq!(grid.get(0, 1), 7.5f64.to_bits());
    assert_eq!(grid.get(0, 2), 7.5f64.to_bits());
    assert_eq!(grid.get(1, 0), 2.0f64.to_bits());
    assert_eq!(grid.get(1, 1), 2.0f64.to_bits());
    assert_eq!(grid.get(1, 2), 2.0f64.to_bits());
}

#[test]
fn fill_carry_keeps_present_samples() {
    let nan = f64::NAN.to_bits();
    let mut grid = Grid::new(1, 4, nan);
    grid.set(0, 1, 1.0f64.to_bits());
    grid.set(0, 3, 9.0f64.to_bits());

    grid.fill_carry();

    assert_eq!(grid.get(0, 0), 1.0f64.to_bits());
    assert_eq!(grid.get(0, 1), 1.0f64.to_bits());
    // the downward pass reaches row 2 before the upward one does
    assert_eq!(grid.get(0, 2), 1.0f64.to_bits());
    assert_eq!(grid.get(0, 3), 9.0f64.to_bits());
}

#[test]
fn empty_column_keeps_nan() {
    let nan = f64::NAN.to_bits();
    let mut grid = Grid::new(2, 2, nan);
    grid.set(0, 0, 1.0f64.to_bits());
    grid.fill_carry();
    assert!(grid.has_nan());
    assert_eq!(grid.get(0, 1), 1.0f64.to_bits());
}
