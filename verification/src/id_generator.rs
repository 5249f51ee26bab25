//! A counter that hands out song ids: 1, 2, 3, ...

use vstd::prelude::*;

verus! {

/// The last id handed out (0 before the first).
pub struct IdGenerator {
    pub current: u32,
}

/// A generator that has handed out nothing yet.
pub fn new_id_generator() -> (r: IdGenerator)
    ensures
        r.current == 0,
{
    IdGenerator { current: 0 }
}

/// The next id: one more than the last one handed out.
pub fn next_id(id_gen: &mut IdGenerator) -> (r: u32)
    requires
        old(id_gen).current < u32::MAX,
    ensures
        final(id_gen).current == old(id_gen).current + 1,
        r == final(id_gen).current,
{
    id_gen.current = id_gen.current + 1;
    id_gen.current
}

/// Every id that the generator hands out is greater than all the ids it
/// handed out before, so no id is handed out twice.
pub proof fn lemma_ids_increase(before: IdGenerator, first: u32, middle: IdGenerator, second: u32, after: IdGenerator)
    requires
        middle.current == before.current + 1,
        first == middle.current,
        after.current == middle.current + 1,
        second == after.current,
    ensures
        first < second,
        first > before.current,
{
}

/// Successive calls of `next_id` hand out the next ids in order: from a
/// generator whose last id is `start` (0 for a new generator), the `k`-th
/// call returns `start + k + 1`, so the ids strictly increase and never
/// repeat, and after `n` calls the generator's last id is `start + n`.
/// `gens[k]` is the generator before call `k`, `ids[k]` what call `k`
/// returned, each as `next_id`'s contract relates them.
pub proof fn lemma_successive_ids(gens: Seq<IdGenerator>, ids: Seq<u32>)
    requires
        gens.len() == ids.len() + 1,
        forall|k: int|
            0 <= k < ids.len() ==> #[trigger] gens[k + 1].current == gens[k].current + 1 && ids[k]
                == gens[k + 1].current,
    ensures
        forall|k: int| 0 <= k < ids.len() ==> #[trigger] ids[k] == gens[0].current + k + 1,
        gens[ids.len() as int].current == gens[0].current + ids.len(),
        forall|i: int, j: int| 0 <= i < j < ids.len() ==> #[trigger] ids[i] < #[trigger] ids[j],
    decreases ids.len(),
{
    if ids.len() > 0 {
        let n = ids.len() - 1;
        lemma_successive_ids(gens.take(n + 1), ids.take(n));
        assert forall|k: int| 0 <= k < ids.len() implies #[trigger] ids[k] == gens[0].current + k + 1 by {
            if k < n {
                assert(ids.take(n)[k] == ids[k]);
                assert(gens.take(n + 1)[k + 1] == gens[k + 1]);
            } else {
                assert(gens.take(n + 1)[n] == gens[n]);
                assert(gens[n + 1].current == gens[n].current + 1);
            }
        }
        assert(gens.take(n + 1)[n] == gens[n]);
        assert(gens[n + 1].current == gens[n].current + 1);
    }
}

} // verus!
