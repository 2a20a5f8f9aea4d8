//! The database file and its schema migrations.
use vstd::prelude::*;

verus! {

/// File name of the index database, in the project root.
pub const DB_PATH: &'static str = "md.db";

/// The migrations still to apply, by index and in order, when the database
/// is at schema version `current` (migration `i` brings it to version `i + 1`).
pub fn migrations_to_apply(count: usize, current: i64) -> (pending: Vec<usize>)
    requires
        count < i64::MAX,
    ensures
        forall|k: int| 0 <= k < pending.len() ==> #[trigger] pending@[k] < count && pending@[k] + 1 > current,
        forall|i: usize| i < count && i + 1 > current ==> #[trigger] pending@.contains(i),
        forall|a: int, b: int| 0 <= a < b < pending.len() ==> #[trigger] pending@[a] < #[trigger] pending@[b],
{
    let mut pending: Vec<usize> = Vec::new();
    let mut i: usize = 0;
    while i < count
        invariant
            i <= count,
            count < i64::MAX,
            forall|k: int| 0 <= k < pending.len() ==> #[trigger] pending@[k] < i && pending@[k] + 1 > current,
            forall|j: usize| j < i && j + 1 > current ==> #[trigger] pending@.contains(j),
            forall|a: int, b: int| 0 <= a < b < pending.len() ==> #[trigger] pending@[a] < #[trigger] pending@[b],
        decreases count - i,
    {
        let version: i64 = (i + 1) as i64;
        if version > current {
            let ghost before = pending@;
            pending.push(i);
            proof {
                assert(pending@[before.len() as int] == i);
                assert forall|j: usize| j < i + 1 && j + 1 > current implies #[trigger] pending@.contains(j) by {
                    if j < i {
                        assert(before.contains(j));
                        let k = choose|k: int| 0 <= k < before.len() && before[k] == j;
                        assert(pending@[k] == j);
                    }
                }
            }
        }
        i += 1;
    }
    pending
}

} // verus!
