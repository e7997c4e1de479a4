//! Cayley tables of finite cyclic groups under addition modulo n.

use vstd::prelude::*;
use vstd::arithmetic::div_mod::{
    lemma_fundamental_div_mod_converse_mod, lemma_mod_division_less_than_divisor, lemma_small_mod,
};

verus! {

/// The group operation of the cyclic group of order `n`: the entry of the
/// Cayley table at row `i`, column `j` is `(i + j) mod n`.
pub open spec fn cayley_entry(n: int, i: int, j: int) -> int
    recommends
        n > 0,
{
    (i + j) % n
}

/// Whether the element `v` occurs somewhere in row `i` of the Cayley
/// table of the cyclic group of order `n`.
pub open spec fn row_contains(n: int, i: int, v: int) -> bool {
    exists|j: int| 0 <= j < n && #[trigger] cayley_entry(n, i, j) == v
}

/// Modular reduction of a sum of two group elements needs at most one
/// subtraction of the modulus.
proof fn lemma_mod_of_sum(n: int, x: int)
    requires
        0 < n,
        0 <= x < 2 * n,
    ensures
        x % n == if x < n { x } else { x - n },
{
    if x < n {
        lemma_small_mod(x as nat, n as nat);
    } else {
        lemma_fundamental_div_mod_converse_mod(x, n, 1, x - n);
    }
}

/// Generates the full Cayley table of the cyclic group of order `n`:
/// one row per element, where the entry at row `i`, column `j` is
/// `(i + j) mod n`. The table is symmetric because addition modulo `n`
/// is commutative. When `n` is 0 the table is empty, and no modulus is
/// ever taken.
pub fn gen_cyclic_table(n: usize) -> (table: Vec<Vec<usize>>)
    ensures
        table@.len() == n,
        forall|i: int| 0 <= i < n ==> (#[trigger] table@[i])@.len() == n,
        forall|i: int, j: int| 0 <= i < n && 0 <= j < n ==> #[trigger] table@[i]@[j] == cayley_entry(
            n as int,
            i,
            j,
        ),
        forall|i: int, j: int| 0 <= i < n && 0 <= j < n ==> #[trigger] table@[i]@[j]
            == table@[j]@[i],
{
    let mut table: Vec<Vec<usize>> = Vec::new();
    let mut i: usize = 0;
    while i < n
        invariant
            i <= n,
            table@.len() == i,
            forall|a: int| 0 <= a < i ==> (#[trigger] table@[a])@.len() == n,
            forall|a: int, b: int| 0 <= a < i && 0 <= b < n ==> #[trigger] table@[a]@[b]
                == cayley_entry(n as int, a, b),
        decreases n - i,
    {
        let mut row: Vec<usize> = Vec::new();
        let mut j: usize = 0;
        while j < n
            invariant
                i < n,
                j <= n,
                row@.len() == j,
                forall|b: int| 0 <= b < j ==> #[trigger] row@[b] == cayley_entry(
                    n as int,
                    i as int,
                    b,
                ),
            decreases n - j,
        {
            let value: usize = if j < n - i {
                i + j
            } else {
                j - (n - i)
            };
            proof {
                lemma_mod_of_sum(n as int, i + j);
            }
            row.push(value);
            j = j + 1;
        }
        table.push(row);
        i = i + 1;
    }
    table
}

/// Each row of the Cayley table of the cyclic group of order `n` is a
/// permutation of the element set {0, …, n−1}: every entry is a group
/// element, no element repeats within a row, and every element occurs.
/// By the table's symmetry the same holds of every column, so the table
/// is a Latin square.
pub proof fn lemma_row_is_permutation(n: int, i: int)
    requires
        0 < n,
        0 <= i < n,
    ensures
        forall|j: int| 0 <= j < n ==> 0 <= #[trigger] cayley_entry(n, i, j) < n,
        forall|j1: int, j2: int|
            0 <= j1 < n && 0 <= j2 < n && #[trigger] cayley_entry(n, i, j1)
                == #[trigger] cayley_entry(n, i, j2) ==> j1 == j2,
        forall|v: int| 0 <= v < n ==> #[trigger] row_contains(n, i, v),
{
    assert forall|j: int| 0 <= j < n implies 0 <= #[trigger] cayley_entry(n, i, j) < n by {
        lemma_mod_division_less_than_divisor(i + j, n);
    };
    assert forall|j1: int, j2: int|
        0 <= j1 < n && 0 <= j2 < n && #[trigger] cayley_entry(n, i, j1)
            == #[trigger] cayley_entry(n, i, j2) implies j1 == j2 by {
        lemma_mod_of_sum(n, i + j1);
        lemma_mod_of_sum(n, i + j2);
    };
    assert forall|v: int| 0 <= v < n implies #[trigger] row_contains(n, i, v) by {
        let j = if v >= i {
            v - i
        } else {
            v - i + n
        };
        lemma_mod_of_sum(n, i + j);
        assert(0 <= j < n && cayley_entry(n, i, j) == v);
    };
}

} // verus!
