//! What lists hold that were put together from others.
use vstd::prelude::*;

verus! {

/// A list with one more holds what it held, and that one.
pub proof fn lemma_pushed<A>(list: Seq<A>, last: A, item: A)
    ensures
        list.push(last).contains(item) == (list.contains(item) || item == last),
{
    let longer = list.push(last);
    assert(longer[list.len() as int] == last);
    if list.contains(item) {
        let k = choose|k: int| 0 <= k < list.len() && list[k] == item;
        assert(longer[k] == item);
    }
    if longer.contains(item) && item != last {
        let k = choose|k: int| 0 <= k < longer.len() && longer[k] == item;
        assert(list[k] == item);
    }
}

/// Two lists, one behind the other, hold what either holds.
pub proof fn lemma_joined<A>(a: Seq<A>, b: Seq<A>, item: A)
    ensures
        (a + b).contains(item) == (a.contains(item) || b.contains(item)),
{
    if a.contains(item) {
        let k = choose|k: int| 0 <= k < a.len() && a[k] == item;
        assert((a + b)[k] == item);
    }
    if b.contains(item) {
        let k = choose|k: int| 0 <= k < b.len() && b[k] == item;
        assert((a + b)[a.len() + k] == item);
    }
    if (a + b).contains(item) {
        let k = choose|k: int| 0 <= k < (a + b).len() && (a + b)[k] == item;
        if k < a.len() {
            assert(a[k] == item);
        } else {
            assert(b[k - a.len()] == item);
        }
    }
}

} // verus!
