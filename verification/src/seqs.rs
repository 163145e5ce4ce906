//! Sequences that hold each item once, in the order of first entry.

use vstd::prelude::*;

verus! {

/// `s` with `x` appended unless it is there already.
pub open spec fn push_new<A>(s: Seq<A>, x: A) -> Seq<A> {
    if s.contains(x) {
        s
    } else {
        s.push(x)
    }
}

/// `s` with the items of `more` entered one after the other, each unless it
/// is there already.
pub open spec fn merge_new<A>(s: Seq<A>, more: Seq<A>) -> Seq<A>
    decreases more.len(),
{
    if more.len() == 0 {
        s
    } else {
        push_new(merge_new(s, more.drop_last()), more.last())
    }
}

/// What a sequence holds after an item was entered.
pub proof fn lemma_push_new_contains<A>(s: Seq<A>, x: A)
    ensures
        forall|y: A| #[trigger] push_new(s, x).contains(y) <==> (y == x || s.contains(y)),
{
    let t = push_new(s, x);
    if !s.contains(x) {
        assert(t[s.len() as int] == x);
        assert forall|y: A| t.contains(y) implies (y == x || s.contains(y)) by {
            let i = choose|i: int| 0 <= i < t.len() && t[i] == y;
            if i < s.len() {
                assert(s[i] == y);
            }
        }
        assert forall|y: A| s.contains(y) implies t.contains(y) by {
            let i = choose|i: int| 0 <= i < s.len() && s[i] == y;
            assert(t[i] == y);
        }
    }
}

/// Entering an item keeps the items distinct and in front.
pub proof fn lemma_push_new_no_duplicates<A>(s: Seq<A>, x: A)
    requires
        s.no_duplicates(),
    ensures
        push_new(s, x).no_duplicates(),
        push_new(s, x).contains(x),
        s.is_prefix_of(push_new(s, x)),
        forall|y: A| #[trigger] push_new(s, x).contains(y) <==> (y == x || s.contains(y)),
{
    let t = push_new(s, x);
    if s.contains(x) {
        assert(t.take(s.len() as int) =~= s);
    } else {
        assert(t[s.len() as int] == x);
        assert(t.take(s.len() as int) =~= s);
        assert forall|y: A| t.contains(y) implies (y == x || s.contains(y)) by {
            let i = choose|i: int| 0 <= i < t.len() && t[i] == y;
            if i < s.len() {
                assert(s[i] == y);
            }
        }
        assert forall|y: A| s.contains(y) implies t.contains(y) by {
            let i = choose|i: int| 0 <= i < s.len() && s[i] == y;
            assert(t[i] == y);
        }
    }
}

/// Entering items keeps the items distinct and in front, and adds the
/// items entered and no others.
pub proof fn lemma_merge_new<A>(s: Seq<A>, more: Seq<A>)
    requires
        s.no_duplicates(),
    ensures
        merge_new(s, more).no_duplicates(),
        s.is_prefix_of(merge_new(s, more)),
        forall|y: A| #[trigger] merge_new(s, more).contains(y) <==> (s.contains(y) || more.contains(y)),
    decreases more.len(),
{
    if more.len() == 0 {
        assert(s.take(s.len() as int) =~= s);
    } else {
        let front = more.drop_last();
        let mid = merge_new(s, front);
        lemma_merge_new(s, front);
        lemma_push_new_no_duplicates(mid, more.last());
        let all = merge_new(s, more);
        assert(all.take(s.len() as int) =~= mid.take(s.len() as int));
        assert forall|y: A| #[trigger] all.contains(y) <==> (s.contains(y) || more.contains(y)) by {
            if more.contains(y) {
                let i = choose|i: int| 0 <= i < more.len() && more[i] == y;
                if i < front.len() {
                    assert(front[i] == y);
                }
            }
            if front.contains(y) {
                let i = choose|i: int| 0 <= i < front.len() && front[i] == y;
                assert(more[i] == y);
            }
            assert(more[more.len() - 1] == more.last());
        }
    }
}

/// Entering one item more is entering the items before it and then the item.
pub proof fn lemma_merge_new_step<A>(s: Seq<A>, more: Seq<A>, upto: int)
    requires
        0 <= upto < more.len(),
    ensures
        merge_new(s, more.take(upto + 1)) == push_new(merge_new(s, more.take(upto)), more[upto]),
{
    assert(more.take(upto + 1).drop_last() =~= more.take(upto));
}

} // verus!
