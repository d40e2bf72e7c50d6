use vstd::prelude::*;
use vstd::set_lib::{lemma_int_range, lemma_len_subset, set_int_range};

verus! {

/// Whether `v` holds `id`.
fn holds(v: &Vec<i32>, id: i32) -> (r: bool)
    ensures
        r == v@.contains(id),
{
    let mut i: usize = 0;
    while i < v.len()
        invariant
            i <= v.len(),
            forall|j: int| 0 <= j < i ==> v@[j] != id,
        decreases v.len() - i,
    {
        if v[i] == id {
            return true;
        }
        i += 1;
    }
    false
}

/// If every id below `n` is in `v`, then `v` has at least `n` items.
proof fn lemma_ids_fill(v: Seq<i32>, n: int)
    requires
        0 <= n,
        forall|i: i32| 0 <= i < n ==> #[trigger] v.contains(i),
        n <= i32::MAX + 1,
    ensures
        n <= v.len(),
{
    let as_int = v.map_values(|x: i32| x as int);
    let s = as_int.to_set();
    lemma_int_range(0, n);
    assert forall|i: int| #[trigger] set_int_range(0, n).contains(i) implies s.contains(i) by {
        assert(v.contains(i as i32));
        let j = choose|j: int| 0 <= j < v.len() && v[j] == i as i32;
        assert(as_int[j] == i);
    }
    as_int.lemma_cardinality_of_set();
    lemma_len_subset(set_int_range(0, n), s);
}

/// The smallest non-negative id that `taken` does not hold.
pub fn first_free_id(taken: &Vec<i32>) -> (r: i32)
    requires
        taken.len() < i32::MAX,
    ensures
        0 <= r,
        !taken@.contains(r),
        forall|i: i32| 0 <= i < r ==> #[trigger] taken@.contains(i),
{
    let mut id: i32 = 0;
    while holds(taken, id)
        invariant
            0 <= id <= taken.len(),
            taken.len() < i32::MAX,
            forall|i: i32| 0 <= i < id ==> #[trigger] taken@.contains(i),
        decreases taken.len() - id,
    {
        proof {
            assert forall|i: i32| 0 <= i < id + 1 implies #[trigger] taken@.contains(i) by {
                if i == id {
                    assert(taken@.contains(id));
                }
            }
            lemma_ids_fill(taken@, id + 1);
        }
        id += 1;
    }
    id
}

} // verus!
