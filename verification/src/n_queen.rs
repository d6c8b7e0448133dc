//! All placements of `n` non-attacking queens on an `n` by `n` board, by backtracking.
use vstd::prelude::*;
use crate::helpers::string_from_chars;

verus! {

/// Queens at `(r1, c1)` and `(r2, c2)` share a column or a diagonal.
pub open spec fn attacks(r1: int, c1: int, r2: int, c2: int) -> bool {
    c1 == c2 || r1 - r2 == c1 - c2 || r1 - r2 == c2 - c1
}

/// A queen in the next row, at column `col`, attacks none of the queens placed in rows
/// `0 .. cols.len()` (row `r` has its queen at column `cols[r]`).
pub open spec fn safe(cols: Seq<usize>, col: int) -> bool {
    forall|r: int| 0 <= r < cols.len() ==> !attacks(r, cols[r] as int, cols.len() as int, col)
}

/// The placements found from the partial placement `prefix`, in the order of the search:
/// the complete placement itself once every row has a queen, else those found after
/// putting the next queen in each safe column, leftmost first.
pub open spec fn solutions_from(n: nat, prefix: Seq<usize>) -> Seq<Seq<usize>>
    decreases n - prefix.len(), n + 2,
{
    if prefix.len() >= n {
        seq![prefix]
    } else {
        solutions_from_col(n, prefix, 0)
    }
}

/// The placements found from `prefix` with the next queen in a column at or after `col`.
pub open spec fn solutions_from_col(n: nat, prefix: Seq<usize>, col: nat) -> Seq<Seq<usize>>
    decreases n - prefix.len(), n + 1 - col,
{
    if prefix.len() >= n || col >= n {
        Seq::empty()
    } else {
        (if safe(prefix, col as int) {
            solutions_from(n, prefix.push(col as usize))
        } else {
            Seq::empty()
        }) + solutions_from_col(n, prefix, col + 1)
    }
}

/// Every placement of `n` queens, in the order the search finds them.
pub open spec fn solutions(n: nat) -> Seq<Seq<usize>> {
    solutions_from(n, Seq::empty())
}

/// Row `r` of the board drawn for `cols`: `'Q'` at the queen's column, `'.'` elsewhere.
pub open spec fn row_text(n: nat, cols: Seq<usize>, r: int) -> Seq<char> {
    Seq::new(n, |c: int| if r < cols.len() && c == cols[r] { 'Q' } else { '.' })
}

/// The board drawn for `cols`, one string per row.
pub open spec fn board_text(n: nat, cols: Seq<usize>) -> Seq<Seq<char>> {
    Seq::new(n, |r: int| row_text(n, cols, r))
}

/// The rows of a drawn board, as character sequences.
pub open spec fn rows_of(b: Vec<String>) -> Seq<Seq<char>> {
    Seq::new(b@.len(), |r: int| b@[r]@)
}

/// The board holds the queens of `cols` in its first rows and nothing else.
spec fn board_holds(board: Seq<Vec<char>>, n: nat, cols: Seq<usize>) -> bool {
    &&& board.len() == n
    &&& forall|r: int| 0 <= r < n ==> #[trigger] board[r]@ == row_text(n, cols, r)
}

/// Whether a queen at `(row, col)` is attacked by a queen of an earlier row.
fn is_safe(board: &Vec<Vec<char>>, row: usize, col: usize, n: usize, Ghost(cols): Ghost<Seq<usize>>) -> (r: bool)
    requires
        board_holds(board@, n as nat, cols),
        cols.len() == row,
        row < n,
        col < n,
        forall|k: int| 0 <= k < row ==> #[trigger] cols[k] < n,
    ensures
        r == safe(cols, col as int),
{
    let mut k: usize = 0;
    while k < row
        invariant
            board_holds(board@, n as nat, cols),
            cols.len() == row,
            row < n,
            col < n,
            k <= row,
            forall|q: int| 0 <= q < row ==> #[trigger] cols[q] < n,
            forall|r: int| 0 <= r < k ==> !attacks(r, cols[r] as int, row as int, col as int),
        decreases row - k,
    {
        assert(board@[k as int]@ == row_text(n as nat, cols, k as int));
        if board[k][col] == 'Q' {
            return false;
        }
        let offset = row - k;
        if col >= offset && board[k][col - offset] == 'Q' {
            return false;
        }
        if offset < n - col && board[k][col + offset] == 'Q' {
            return false;
        }
        k = k + 1;
    }
    true
}

/// Places queens in rows `row ..` of a board that holds `cols`, appending every
/// complete placement found to `result`.
fn backtrack(
    board: &mut Vec<Vec<char>>,
    row: usize,
    n: usize,
    result: &mut Vec<Vec<String>>,
    Ghost(cols): Ghost<Seq<usize>>,
)
    requires
        board_holds(old(board)@, n as nat, cols),
        cols.len() == row,
        row <= n,
        forall|k: int| 0 <= k < row ==> #[trigger] cols[k] < n,
    ensures
        board_holds(final(board)@, n as nat, cols),
        final(result)@.len() == old(result)@.len() + solutions_from(n as nat, cols).len(),
        forall|i: int| 0 <= i < old(result)@.len() ==> final(result)@[i] == old(result)@[i],
        forall|i: int|
            0 <= i < solutions_from(n as nat, cols).len() ==> rows_of(
                #[trigger] final(result)@[old(result)@.len() + i],
            ) == board_text(n as nat, solutions_from(n as nat, cols)[i]),
    decreases n - row,
{
    if row == n {
        let mut solution: Vec<String> = Vec::new();
        let mut r: usize = 0;
        while r < n
            invariant
                board_holds(board@, n as nat, cols),
                r <= n,
                solution@.len() == r,
                forall|q: int| 0 <= q < r ==> #[trigger] solution@[q]@ == row_text(n as nat, cols, q),
            decreases n - r,
        {
            solution.push(string_from_chars(&board[r]));
            r = r + 1;
        }
        proof {
            assert(rows_of(solution) =~= board_text(n as nat, cols));
        }
        result.push(solution);
        return;
    }
    let ghost start = result@.len();
    let ghost mut done: Seq<Seq<usize>> = Seq::empty();
    let mut col: usize = 0;
    while col < n
        invariant
            board_holds(board@, n as nat, cols),
            cols.len() == row,
            row < n,
            col <= n,
            start == old(result)@.len(),
            forall|k: int| 0 <= k < row ==> #[trigger] cols[k] < n,
            solutions_from_col(n as nat, cols, 0) == done + solutions_from_col(n as nat, cols, col as nat),
            result@.len() == start + done.len(),
            forall|i: int| 0 <= i < start ==> result@[i] == old(result)@[i],
            forall|i: int| 0 <= i < done.len() ==> rows_of(#[trigger] result@[start + i]) == board_text(n as nat, done[i]),
        decreases n - col,
    {
        let ghost before = result@;
        if is_safe(board, row, col, n, Ghost(cols)) {
            let ghost placed = cols.push(col);
            board[row].set(col, 'Q');
            proof {
                assert forall|r: int| 0 <= r < n implies #[trigger] board@[r]@ == row_text(n as nat, placed, r) by {
                    if r == row {
                        assert(board@[r]@ =~= row_text(n as nat, placed, r));
                    } else {
                        assert(board@[r]@ =~= row_text(n as nat, placed, r));
                    }
                }
            }
            backtrack(board, row + 1, n, result, Ghost(placed));
            board[row].set(col, '.');
            proof {
                assert forall|r: int| 0 <= r < n implies #[trigger] board@[r]@ == row_text(n as nat, cols, r) by {
                    assert(board@[r]@ =~= row_text(n as nat, cols, r));
                }
                let found = solutions_from(n as nat, placed);
                assert(solutions_from_col(n as nat, cols, col as nat) == found + solutions_from_col(
                    n as nat,
                    cols,
                    (col + 1) as nat,
                ));
                assert(solutions_from_col(n as nat, cols, 0) =~= (done + found) + solutions_from_col(
                    n as nat,
                    cols,
                    (col + 1) as nat,
                ));
                assert forall|i: int| 0 <= i < (done + found).len() implies rows_of(
                    #[trigger] result@[start + i],
                ) == board_text(n as nat, (done + found)[i]) by {
                    if i >= done.len() {
                        assert(result@[before.len() + (i - done.len())] == result@[start + i]);
                    } else {
                        assert(result@[start + i] == before[start + i]);
                    }
                }
                done = done + found;
            }
        } else {
            proof {
                assert(solutions_from_col(n as nat, cols, col as nat) =~= solutions_from_col(
                    n as nat,
                    cols,
                    (col + 1) as nat,
                ));
            }
        }
        col = col + 1;
    }
    proof {
        assert(solutions_from_col(n as nat, cols, n as nat) =~= Seq::<Seq<usize>>::empty());
        assert(done =~= solutions_from(n as nat, cols));
    }
}

/// Every placement of `n` non-attacking queens, each drawn as `n` strings of `'.'` with
/// one `'Q'`, in the order the search finds them.
pub fn solve_n_queens(n: usize) -> (r: Vec<Vec<String>>)
    ensures
        r@.len() == solutions(n as nat).len(),
        forall|i: int| 0 <= i < r@.len() ==> rows_of(#[trigger] r@[i]) == board_text(n as nat, solutions(n as nat)[i]),
{
    let mut result: Vec<Vec<String>> = Vec::new();
    let mut board: Vec<Vec<char>> = Vec::new();
    let mut r: usize = 0;
    while r < n
        invariant
            r <= n,
            board@.len() == r,
            forall|q: int| 0 <= q < r ==> #[trigger] board@[q]@ == row_text(n as nat, Seq::<usize>::empty(), q),
        decreases n - r,
    {
        let mut line: Vec<char> = Vec::new();
        let mut c: usize = 0;
        while c < n
            invariant
                c <= n,
                line@.len() == c,
                forall|k: int| 0 <= k < c ==> line@[k] == '.',
            decreases n - c,
        {
            line.push('.');
            c = c + 1;
        }
        proof {
            assert(line@ =~= row_text(n as nat, Seq::<usize>::empty(), r as int));
        }
        board.push(line);
        r = r + 1;
    }
    backtrack(&mut board, 0, n, &mut result, Ghost(Seq::empty()));
    proof {
        assert forall|i: int| 0 <= i < result@.len() implies rows_of(#[trigger] result@[i]) == board_text(
            n as nat,
            solutions(n as nat)[i],
        ) by {
            assert(result@[0 + i] == result@[i]);
        }
    }
    result
}

/// `cols` places its queens inside the board, no two of them attacking each other.
pub open spec fn valid_placement(n: nat, cols: Seq<usize>) -> bool {
    &&& forall|r: int| 0 <= r < cols.len() ==> #[trigger] cols[r] < n
    &&& forall|r1: int, r2: int|
        0 <= r1 < r2 < cols.len() ==> !attacks(r1, #[trigger] cols[r1] as int, r2, #[trigger] cols[r2] as int)
}

proof fn lemma_found_valid(n: nat, prefix: Seq<usize>, i: int)
    requires
        n <= usize::MAX,
        prefix.len() <= n,
        valid_placement(n, prefix),
        0 <= i < solutions_from(n, prefix).len(),
    ensures
        solutions_from(n, prefix)[i].len() == n,
        valid_placement(n, solutions_from(n, prefix)[i]),
        solutions_from(n, prefix)[i].take(prefix.len() as int) == prefix,
    decreases n - prefix.len(), n + 2,
{
    if prefix.len() >= n {
        assert(prefix.take(prefix.len() as int) =~= prefix);
    } else {
        lemma_found_valid_col(n, prefix, 0, i);
    }
}

proof fn lemma_found_valid_col(n: nat, prefix: Seq<usize>, col: nat, i: int)
    requires
        n <= usize::MAX,
        prefix.len() < n,
        valid_placement(n, prefix),
        0 <= i < solutions_from_col(n, prefix, col).len(),
    ensures
        solutions_from_col(n, prefix, col)[i].len() == n,
        valid_placement(n, solutions_from_col(n, prefix, col)[i]),
        solutions_from_col(n, prefix, col)[i].take(prefix.len() as int) == prefix,
    decreases n - prefix.len(), n + 1 - col,
{
    let here = if safe(prefix, col as int) {
        solutions_from(n, prefix.push(col as usize))
    } else {
        Seq::empty()
    };
    if i < here.len() {
        assert(col < n);
        let placed = prefix.push(col as usize);
        assert(valid_placement(n, placed)) by {
            assert forall|r1: int, r2: int| 0 <= r1 < r2 < placed.len() implies !attacks(
                r1,
                #[trigger] placed[r1] as int,
                r2,
                #[trigger] placed[r2] as int,
            ) by {
                if r2 == prefix.len() {
                    assert(placed[r1] == prefix[r1]);
                } else {
                    assert(placed[r1] == prefix[r1] && placed[r2] == prefix[r2]);
                }
            }
        }
        lemma_found_valid(n, placed, i);
        let sol = solutions_from(n, placed)[i];
        assert(sol.take(prefix.len() as int) =~= placed.take(prefix.len() as int));
        assert(placed.take(prefix.len() as int) =~= prefix);
    } else {
        lemma_found_valid_col(n, prefix, col + 1, i - here.len());
    }
}

proof fn lemma_valid_found(n: nat, prefix: Seq<usize>, cols: Seq<usize>)
    requires
        n <= usize::MAX,
        prefix.len() <= n,
        cols.len() == n,
        valid_placement(n, cols),
        cols.take(prefix.len() as int) == prefix,
    ensures
        solutions_from(n, prefix).contains(cols),
    decreases n - prefix.len(), n + 2,
{
    if prefix.len() >= n {
        assert(cols.take(prefix.len() as int) =~= cols);
        assert(solutions_from(n, prefix)[0] == cols);
    } else {
        lemma_valid_found_col(n, prefix, cols, 0);
    }
}

proof fn lemma_valid_found_col(n: nat, prefix: Seq<usize>, cols: Seq<usize>, col: nat)
    requires
        n <= usize::MAX,
        prefix.len() < n,
        cols.len() == n,
        valid_placement(n, cols),
        cols.take(prefix.len() as int) == prefix,
        col <= cols[prefix.len() as int],
    ensures
        solutions_from_col(n, prefix, col).contains(cols),
    decreases n - prefix.len(), n + 1 - col,
{
    let c = cols[prefix.len() as int];
    assert(c < n);
    let here = if safe(prefix, col as int) {
        solutions_from(n, prefix.push(col as usize))
    } else {
        Seq::empty()
    };
    let rest = solutions_from_col(n, prefix, col + 1);
    assert(solutions_from_col(n, prefix, col) == here + rest);
    if col == c {
        assert(safe(prefix, col as int)) by {
            assert forall|r: int| 0 <= r < prefix.len() implies !attacks(
                r,
                prefix[r] as int,
                prefix.len() as int,
                col as int,
            ) by {
                assert(prefix[r] == cols[r]);
                assert(!attacks(r, cols[r] as int, prefix.len() as int, cols[prefix.len() as int] as int));
            }
        }
        let placed = prefix.push(col as usize);
        assert(cols.take(placed.len() as int) =~= placed);
        lemma_valid_found(n, placed, cols);
        let k = choose|k: int| 0 <= k < here.len() && here[k] == cols;
        assert((here + rest)[k] == cols);
    } else {
        lemma_valid_found_col(n, prefix, cols, col + 1);
        let k = choose|k: int| 0 <= k < rest.len() && rest[k] == cols;
        assert((here + rest)[here.len() + k] == cols);
    }
}

/// A queen added in a safe column of the next row keeps a valid placement valid.
proof fn lemma_placed_valid(n: nat, prefix: Seq<usize>, col: nat)
    requires
        valid_placement(n, prefix),
        col < n,
        safe(prefix, col as int),
        col <= usize::MAX,
    ensures
        valid_placement(n, prefix.push(col as usize)),
{
    let placed = prefix.push(col as usize);
    assert forall|r1: int, r2: int| 0 <= r1 < r2 < placed.len() implies !attacks(
        r1,
        #[trigger] placed[r1] as int,
        r2,
        #[trigger] placed[r2] as int,
    ) by {
        if r2 == prefix.len() {
            assert(placed[r1] == prefix[r1]);
        } else {
            assert(placed[r1] == prefix[r1] && placed[r2] == prefix[r2]);
        }
    }
}

proof fn lemma_no_repeats(n: nat, prefix: Seq<usize>)
    requires
        n <= usize::MAX,
        prefix.len() <= n,
        valid_placement(n, prefix),
    ensures
        solutions_from(n, prefix).no_duplicates(),
    decreases n - prefix.len(), n + 2,
{
    if prefix.len() < n {
        lemma_no_repeats_col(n, prefix, 0);
    }
}

proof fn lemma_no_repeats_col(n: nat, prefix: Seq<usize>, col: nat)
    requires
        n <= usize::MAX,
        prefix.len() < n,
        valid_placement(n, prefix),
    ensures
        solutions_from_col(n, prefix, col).no_duplicates(),
        forall|i: int| 0 <= i < solutions_from_col(n, prefix, col).len()
            ==> #[trigger] solutions_from_col(n, prefix, col)[i][prefix.len() as int] >= col,
    decreases n - prefix.len(), n + 1 - col,
{
    if col < n {
        let here = if safe(prefix, col as int) {
            solutions_from(n, prefix.push(col as usize))
        } else {
            Seq::empty()
        };
        let rest = solutions_from_col(n, prefix, col + 1);
        lemma_no_repeats_col(n, prefix, col + 1);
        assert(solutions_from_col(n, prefix, col) == here + rest);
        if safe(prefix, col as int) {
            let placed = prefix.push(col as usize);
            lemma_placed_valid(n, prefix, col);
            lemma_no_repeats(n, placed);
            assert forall|i: int| 0 <= i < here.len() implies #[trigger] here[i][prefix.len() as int] == col by {
                lemma_found_valid(n, placed, i);
                assert(here[i].take(placed.len() as int)[prefix.len() as int] == placed[prefix.len() as int]);
            }
        }
        let all = here + rest;
        assert forall|i: int| 0 <= i < all.len() implies #[trigger] all[i][prefix.len() as int] >= col by {
            if i < here.len() {
                assert(all[i] == here[i]);
            } else {
                assert(all[i] == rest[i - here.len()]);
            }
        }
        assert forall|i: int, j: int| 0 <= i < all.len() && 0 <= j < all.len() && i != j implies all[i]
            != all[j] by {
            if i < here.len() && j < here.len() {
                assert(all[i] == here[i] && all[j] == here[j]);
            } else if i >= here.len() && j >= here.len() {
                assert(all[i] == rest[i - here.len()] && all[j] == rest[j - here.len()]);
            } else if i < here.len() {
                assert(all[i][prefix.len() as int] == col);
                assert(all[j][prefix.len() as int] >= col + 1);
            } else {
                assert(all[j][prefix.len() as int] == col);
                assert(all[i][prefix.len() as int] >= col + 1);
            }
        }
    }
}

/// No placement is found twice: each valid placement is in the list of solutions exactly
/// once (together with `law_every_valid_placement_is_found`).
pub proof fn law_solutions_are_distinct(n: nat)
    requires
        n <= usize::MAX,
    ensures
        solutions(n).no_duplicates(),
{
    lemma_no_repeats(n, Seq::empty());
}

/// Every board the search finds places `n` queens, no two of them attacking each other.
pub proof fn law_solutions_are_valid(n: nat, i: int)
    requires
        n <= usize::MAX,
        0 <= i < solutions(n).len(),
    ensures
        solutions(n)[i].len() == n,
        valid_placement(n, solutions(n)[i]),
{
    lemma_found_valid(n, Seq::empty(), i);
}

/// The search finds every placement of `n` queens in which no two attack each other.
pub proof fn law_every_valid_placement_is_found(n: nat, cols: Seq<usize>)
    requires
        n <= usize::MAX,
        cols.len() == n,
        valid_placement(n, cols),
    ensures
        solutions(n).contains(cols),
{
    assert(cols.take(0) =~= Seq::<usize>::empty());
    lemma_valid_found(n, Seq::empty(), cols);
}

} // verus!
