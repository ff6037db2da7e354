//! The first item of a sequence with a property.
use vstd::prelude::*;

verus! {

/// The place of the first item with the property; the length where there is none.
pub open spec fn first_where<T>(items: Seq<T>, holds: spec_fn(T) -> bool) -> int
    decreases items.len(),
{
    if items.len() == 0 || holds(items[0]) {
        0
    } else {
        1 + first_where(items.drop_first(), holds)
    }
}

/// Nothing before `k` has the property, and the item at `k`, if there is one, has it.
pub proof fn lemma_first_where<T>(items: Seq<T>, holds: spec_fn(T) -> bool, k: int)
    requires
        0 <= k <= items.len(),
        forall|j: int| 0 <= j < k ==> !holds(#[trigger] items[j]),
        k < items.len() ==> holds(items[k]),
    ensures
        first_where(items, holds) == k,
    decreases items.len(),
{
    if k > 0 {
        let rest = items.drop_first();
        assert forall|j: int| 0 <= j < k - 1 implies !holds(#[trigger] rest[j]) by {
            assert(!holds(items[j + 1]));
        }
        lemma_first_where(rest, holds, k - 1);
    }
}

/// What the first place says of the items.
pub proof fn lemma_first_where_holds<T>(items: Seq<T>, holds: spec_fn(T) -> bool)
    ensures
        0 <= first_where(items, holds) <= items.len(),
        forall|j: int| 0 <= j < first_where(items, holds) ==> !holds(#[trigger] items[j]),
        first_where(items, holds) < items.len() ==> holds(items[first_where(items, holds)]),
    decreases items.len(),
{
    if items.len() > 0 && !holds(items[0]) {
        let rest = items.drop_first();
        lemma_first_where_holds(rest, holds);
        let k = first_where(items, holds);
        assert forall|j: int| 0 <= j < k implies !holds(#[trigger] items[j]) by {
            if j > 0 {
                assert(!holds(rest[j - 1]));
            }
        }
        if k < items.len() {
            assert(items[k] == rest[k - 1]);
        }
    }
}

} // verus!
