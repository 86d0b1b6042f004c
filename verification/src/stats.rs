use vstd::prelude::*;

verus! {

/// How many times the rating `q` was given.
pub open spec fn count_of(ratings: Seq<u8>, q: u8) -> nat {
    ratings.filter(|r: u8| r == q).len()
}

/// How many times each of the four answers was given in a session (other values are
/// not counted).
pub fn rating_counts(ratings: &Vec<u8>) -> (counts: [u32; 4])
    requires
        forall|q: int| 0 <= q < 4 ==> #[trigger] count_of(ratings@, q as u8) <= u32::MAX,
    ensures
        forall|q: int| 0 <= q < 4 ==> #[trigger] counts@[q] == count_of(ratings@, q as u8),
{
    let mut counts = [0u32; 4];
    let mut i: usize = 0;
    while i < ratings.len()
        invariant
            i <= ratings@.len(),
            forall|q: int| 0 <= q < 4 ==> #[trigger] count_of(ratings@, q as u8) <= u32::MAX,
            forall|q: int| 0 <= q < 4 ==> #[trigger] counts@[q] == count_of(ratings@.take(i as int), q as u8),
        decreases ratings@.len() - i,
    {
        let ghost before = counts@;
        proof {
            reveal(Seq::filter);
            assert(ratings@.take(i + 1).drop_last() =~= ratings@.take(i as int));
            assert forall|q: int| 0 <= q < 4 implies #[trigger] count_of(ratings@.take(i + 1), q as u8)
                <= count_of(ratings@, q as u8) by {
                let pred = |r: u8| r == q as u8;
                assert(ratings@ =~= ratings@.take(i + 1) + ratings@.skip(i + 1));
                Seq::filter_distributes_over_add(ratings@.take(i + 1), ratings@.skip(i + 1), pred);
            }
        }
        let q = ratings[i];
        if q < 4 {
            let k = q as usize;
            assert(ratings@.take(i + 1).last() == q);
            assert(count_of(ratings@.take(i + 1), q) == count_of(ratings@.take(i as int), q) + 1);
            assert(count_of(ratings@.take(i + 1), (k as int) as u8) <= count_of(ratings@, (k as int) as u8));
            counts[k] = counts[k] + 1;
        }
        assert forall|p: int| 0 <= p < 4 implies #[trigger] counts@[p] == count_of(ratings@.take(i + 1), p as u8) by {
            assert(ratings@.take(i + 1).last() == q);
        }
        i = i + 1;
    }
    assert(ratings@.take(ratings@.len() as int) =~= ratings@);
    counts
}

} // verus!
