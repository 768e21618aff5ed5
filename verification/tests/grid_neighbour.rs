use cp_lib::grid_neighbour::GridNeighbour;

fn collect_all(mut it: GridNeighbour) -> Vec<(usize, usize)> {
    let mut out = Vec::new();
    while let Some(p) = it.next() {
        out.push(p);
    }
    out
}

#[test]
fn test_non_diagonal_traversal() {
    const N: usize = 4;
    const M: usize = 5;
    let cases = vec![
        ((0, 0), vec![(0, 1), (1, 0)], "left top"),
        ((3, 0), vec![(2, 0), (3, 1)], "left bottom"),
        ((0, 4), vec![(0, 3), (1, 4)], "right top"),
        ((3, 4), vec![(3, 3), (2, 4)], "right bottom"),
        ((1, 0), vec![(0, 0), (1, 1), (2, 0)], "left border"),
        ((1, 4), vec![(1, 3), (0, 4), (2, 4)], "right border"),
        ((0, 1), vec![(0, 0), (0, 2), (1, 1)], "top border"),
        ((3, 1), vec![(3, 0), (3, 2), (2, 1)], "bottom border"),
        ((1, 2), vec![(0, 2), (2, 2), (1, 1), (1, 3)], "in grid"),
    ];
    for (input, mut expected, case_type) in cases {
        let neighbours = GridNeighbour::new(input.0, input.1, N, M, false);
        let mut output = collect_all(neighbours);

        output.sort();
        expected.sort();
        assert_eq!(expected, output, "{}", case_type);
    }
}

#[test]
fn test_diagonal_traversal() {
    const N: usize = 4;
    const M: usize = 5;
    let cases = vec![
        ((0, 0), vec![(0, 1), (1, 0), (1, 1)], "left top"),
        ((3, 0), vec![(2, 0), (3, 1), (2, 1)], "left bottom"),
        ((0, 4), vec![(0, 3), (1, 4), (1, 3)], "right top"),
        ((3, 4), vec![(3, 3), (2, 4), (2, 3)], "right bottom"),
        (
            (1, 0),
            vec![(0, 0), (1, 1), (2, 0), (0, 1), (2, 1)],
            "left border",
        ),
        (
            (1, 4),
            vec![(1, 3), (0, 4), (2, 4), (0, 3), (2, 3)],
            "right border",
        ),
        (
            (0, 1),
            vec![(0, 0), (0, 2), (1, 1), (1, 0), (1, 2)],
            "top border",
        ),
        (
            (3, 1),
            vec![(3, 0), (3, 2), (2, 1), (2, 0), (2, 2)],
            "bottom border",
        ),
        (
            (1, 2),
            vec![
                (0, 2),
                (2, 2),
                (1, 1),
                (1, 3),
                (0, 1),
                (0, 3),
                (2, 1),
                (2, 3),
            ],
            "in grid",
        ),
    ];
    for (input, mut expected, case_type) in cases {
        let neighbours = GridNeighbour::new(input.0, input.1, N, M, true);
        let mut output = collect_all(neighbours);

        output.sort();
        expected.sort();
        assert_eq!(expected, output, "{}", case_type);
    }
}
