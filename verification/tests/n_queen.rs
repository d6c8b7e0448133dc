use rust_recipes::n_queen::solve_n_queens;

#[test]
fn test_solve_n_queens() {
    let result = solve_n_queens(9);
    for line in &result {
        println!("{:?}", line);
    }
    assert_eq!(result.len(), 352);
}

#[test]
fn n_queens_four_has_two_boards_in_search_order() {
    let result = solve_n_queens(4);
    assert_eq!(
        result,
        vec![
            vec![".Q..", "...Q", "Q...", "..Q."],
            vec!["..Q.", "Q...", "...Q", ".Q.."],
        ]
    );
}

#[test]
fn n_queens_small_boards() {
    assert_eq!(solve_n_queens(1), vec![vec!["Q"]]);
    assert!(solve_n_queens(2).is_empty());
    assert!(solve_n_queens(3).is_empty());
    assert_eq!(solve_n_queens(0), vec![Vec::<String>::new()]);
    assert_eq!(solve_n_queens(8).len(), 92);
}
