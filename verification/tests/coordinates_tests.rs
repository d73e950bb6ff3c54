use sudoku_core::coordinates::{
    all_coordinates, get_col_coordinates, get_row_coordinates, get_square_coordinates,
};

#[test]
fn test_get_row_coordinates() {
    let row = 2;
    let coordinates = get_row_coordinates(row);
    for (i, (x, y)) in coordinates.iter().enumerate() {
        assert_eq!(*x, row);
        assert_eq!(*y, i);
    }
}

#[test]
fn test_get_col_coordinates() {
    let col = 3;
    let coordinates = get_col_coordinates(col);
    for (i, (x, y)) in coordinates.iter().enumerate() {
        assert_eq!(*x, i);
        assert_eq!(*y, col);
    }
}

#[test]
fn test_get_square_coordinates() {
    let square_coordinates = (0, 2);
    let expected: Vec<(usize, usize)> = vec![
        (0, 6),
        (0, 7),
        (0, 8),
        (1, 6),
        (1, 7),
        (1, 8),
        (2, 6),
        (2, 7),
        (2, 8),
    ];
    let actual = get_square_coordinates(square_coordinates);
    assert_eq!(actual, expected);
}

#[test]
fn test_all_coordinates_covers_row_col_and_square() {
    let groups = all_coordinates(4);
    assert_eq!(groups.len(), 3);
    for (i, (x, y)) in groups[0].iter().enumerate() {
        assert_eq!((*x, *y), (4, i));
    }
    for (i, (x, y)) in groups[1].iter().enumerate() {
        assert_eq!((*x, *y), (i, 4));
    }
    // index 4 sweeps the box at (4 % 3, 4 / 3) = (1, 1): rows 3..6, cols 3..6
    assert_eq!(groups[2], get_square_coordinates((1, 1)));
    assert_eq!(groups[2][0], (3, 3));
    assert_eq!(groups[2][8], (5, 5));
}
