//! Laws of searching a file in blocks.

use crate::pattern;
use crate::reader;
use vstd::prelude::*;

verus! {

/// Searching backwards finds what searching forwards from the start of the
/// file finds, the other way round: the last `n` matches that start before the
/// place it was asked for. The blocks the file is taken in do not show.
pub proof fn law_backward_search_mirrors_forward_search(
    items: Seq<Option<u8>>,
    hay: Seq<u8>,
    before: int,
    n: int,
)
    requires
        items.len() > 0,
        0 <= before,
    ensures
        reader::matches_before(items, hay, before, n) == reader::first_n(
            reader::matches_upto(items, hay, before).reverse(),
            n,
        ),
        before >= hay.len() ==> reader::matches_before(items, hay, before, n) == reader::first_n(
            pattern::all_matches(items, hay, 0, hay.len() as int).reverse(),
            n,
        ),
{
    reader::lemma_upto(items, hay, before);
}

/// Searching backwards gives matches that start before the place it was asked
/// for, last one first, and no two of them overlap.
pub proof fn law_backward_matches_descend(
    items: Seq<Option<u8>>,
    hay: Seq<u8>,
    before: int,
    n: int,
)
    requires
        items.len() > 0,
        0 <= before,
        0 <= n,
    ensures
        ({
            let found = reader::matches_before(items, hay, before, n);
            &&& found.len() <= n
            &&& forall|i: int|
                0 <= i < found.len() ==> 0 <= #[trigger] found[i] < before && pattern::matches(
                    items,
                    hay,
                    found[i],
                )
            &&& forall|i: int, j: int|
                0 <= i < j < found.len() ==> #[trigger] found[j] + items.len() <= #[trigger] found[i]
        }),
{
    let upto = reader::matches_upto(items, hay, before);
    let found = reader::matches_before(items, hay, before, n);
    reader::lemma_upto(items, hay, before);
    pattern::lemma_all_matches(items, hay, 0, reader::stop_for(items, hay, before));
    assert forall|i: int| 0 <= i < found.len() implies #[trigger] found[i] == upto[upto.len() - 1
        - i] by {}
    assert forall|i: int, j: int| 0 <= i < j < found.len() implies #[trigger] found[j] + items.len()
        <= #[trigger] found[i] by {
        assert(upto[upto.len() - 1 - j] + items.len() <= upto[upto.len() - 1 - i]);
    }
}

/// A backward search finds the nearest matches: one that it leaves out lies
/// before all that it found, and there were as many of these as it was asked for.
pub proof fn law_a_backward_search_finds_the_nearest(
    items: Seq<Option<u8>>,
    hay: Seq<u8>,
    before: int,
    n: int,
    k: int,
)
    requires
        items.len() > 0,
        0 <= before,
        0 <= n,
        0 <= k < pattern::all_matches(items, hay, 0, hay.len() as int).len(),
        pattern::all_matches(items, hay, 0, hay.len() as int)[k] < before,
    ensures
        ({
            let p = pattern::all_matches(items, hay, 0, hay.len() as int)[k];
            let found = reader::matches_before(items, hay, before, n);
            found.contains(p) || found.len() == n && forall|i: int|
                0 <= i < found.len() ==> p < #[trigger] found[i]
        }),
{
    let all = pattern::all_matches(items, hay, 0, hay.len() as int);
    let p = all[k];
    let early = |p: int| p < before;
    let near = all.filter(early);
    let found = reader::matches_before(items, hay, before, n);
    assert(near.contains(p)) by {
        all.lemma_filter_contains(early, k);
    }
    reader::lemma_upto(items, hay, before);
    pattern::lemma_all_matches(items, hay, 0, reader::stop_for(items, hay, before));
    let j = choose|j: int| 0 <= j < near.len() && near[j] == p;
    let i = near.len() - 1 - j;
    if i < n {
        assert(found[i] == p);
    } else {
        assert forall|h: int| 0 <= h < found.len() implies p < #[trigger] found[h] by {
            assert(found[h] == near[near.len() - 1 - h]);
            assert(near[j] + items.len() <= near[near.len() - 1 - h]);
        }
    }
}

/// Reading goes on behind what is there until all of it is, and never says there
/// is more than was asked for.
pub proof fn law_reading_goes_on_until_all_is_there(filled: int, want: usize)
    requires
        0 <= filled,
    ensures
        filled < want ==> (reader::go_on::<()>(filled, want) matches reader::ReadAction::More(n)
            && n == filled),
        filled >= want ==> (reader::go_on::<()>(filled, want) matches reader::ReadAction::Done(n)
            && n == want),
{
}

} // verus!
