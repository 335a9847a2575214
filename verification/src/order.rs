//! Putting things in order: texts by their characters, indices by whatever is said of them.

use crate::text::chars_of;
use vstd::prelude::*;

verus! {

/// `left` comes before `right` in the order of their characters, a text before its continuations.
pub open spec fn text_before(left: Seq<char>, right: Seq<char>) -> bool
    decreases left.len(),
{
    if right.len() == 0 {
        false
    } else if left.len() == 0 {
        true
    } else if left[0] == right[0] {
        text_before(left.drop_first(), right.drop_first())
    } else {
        left[0] < right[0]
    }
}

/// Of two different texts exactly one comes before the other.
pub proof fn lemma_text_before_total(left: Seq<char>, right: Seq<char>)
    ensures
        text_before(left, right) ==> !text_before(right, left) && left != right,
        text_before(left, right) || text_before(right, left) || left == right,
    decreases left.len(),
{
    if left.len() > 0 && right.len() > 0 {
        if left[0] == right[0] {
            lemma_text_before_total(left.drop_first(), right.drop_first());
            if left.drop_first() == right.drop_first() {
                assert(left =~= seq![left[0]] + left.drop_first());
                assert(right =~= seq![right[0]] + right.drop_first());
            }
        }
    } else if left.len() == 0 && right.len() == 0 {
        assert(left =~= right);
    }
}

/// What comes before a text comes before all that this text comes before.
pub proof fn lemma_text_before_transitive(first: Seq<char>, second: Seq<char>, third: Seq<char>)
    requires
        text_before(first, second),
        text_before(second, third),
    ensures
        text_before(first, third),
    decreases first.len(),
{
    if first.len() > 0 && first[0] == second[0] && second[0] == third[0] {
        lemma_text_before_transitive(first.drop_first(), second.drop_first(), third.drop_first());
    }
}

/// Whether `left` comes before `right`.
pub fn is_text_before(left: &str, right: &str) -> (before: bool)
    ensures
        before == text_before(left@, right@),
{
    let left_chars = chars_of(left);
    let right_chars = chars_of(right);
    let mut i: usize = 0;
    assert(left@.skip(0) =~= left@);
    assert(right@.skip(0) =~= right@);
    while i < left_chars.len() && i < right_chars.len()
        invariant
            i <= left_chars.len(),
            i <= right_chars.len(),
            left_chars@ == left@,
            right_chars@ == right@,
            text_before(left@, right@) == text_before(left@.skip(i as int), right@.skip(i as int)),
        decreases left_chars.len() - i,
    {
        assert(left@.skip(i as int).drop_first() =~= left@.skip(i + 1));
        assert(right@.skip(i as int).drop_first() =~= right@.skip(i + 1));
        if left_chars[i] != right_chars[i] {
            return left_chars[i] < right_chars[i];
        }
        i = i + 1;
    }
    i < right_chars.len()
}

/// `before` orders the integers strictly: any two different ones, one way round, consistently.
pub open spec fn is_strict_order(before: spec_fn(int, int) -> bool) -> bool {
    &&& forall|a: int| !#[trigger] before(a, a)
    &&& forall|a: int, b: int| a != b ==> #[trigger] before(a, b) || before(b, a)
    &&& forall|a: int, b: int, c: int| #[trigger]
        before(a, b) && #[trigger] before(b, c) ==> before(a, c)
}

/// `list` holds the chosen indices, each once, in their order.
pub open spec fn is_arrangement(
    list: Seq<int>,
    chosen: spec_fn(int) -> bool,
    before: spec_fn(int, int) -> bool,
) -> bool {
    &&& forall|k: int| #[trigger] list.contains(k) <==> chosen(k)
    &&& forall|i: int, j: int| 0 <= i < j < list.len() ==> before(#[trigger] list[i], #[trigger] list[j])
}

/// There is one way only to put the chosen indices in their order.
pub proof fn arrangement_is_unique(
    first: Seq<int>,
    second: Seq<int>,
    chosen: spec_fn(int) -> bool,
    before: spec_fn(int, int) -> bool,
)
    requires
        is_strict_order(before),
        is_arrangement(first, chosen, before),
        is_arrangement(second, chosen, before),
    ensures
        first == second,
    decreases first.len(),
{
    if first.len() == 0 {
        if second.len() > 0 {
            assert(second.contains(second[0]));
            assert(first.contains(second[0]));
        }
        assert(first =~= second);
    } else if second.len() == 0 {
        assert(first.contains(first[0]));
        assert(second.contains(first[0]));
    } else {
        let head = first[0];
        assert(first.contains(head));
        assert(second.contains(head));
        assert(second.contains(second[0]));
        assert(first.contains(second[0]));
        let in_second = second.index_of(head);
        let in_first = first.index_of(second[0]);
        if in_second > 0 {
            assert(before(second[0], second[in_second]));
            assert(before(first[0], first[in_first]));
            assert(before(head, head));
        }
        let rest = |k: int| chosen(k) && k != head;
        lemma_tail_arrangement(first, chosen, before);
        lemma_tail_arrangement(second, chosen, before);
        assert(is_arrangement(second.drop_first(), rest, before)) by {
            assert forall|k: int| #[trigger] second.drop_first().contains(k) <==> rest(k) by {
                assert(second.drop_first().contains(k) <==> chosen(k) && k != second[0]);
            }
        }
        assert(is_arrangement(first.drop_first(), rest, before)) by {
            assert forall|k: int| #[trigger] first.drop_first().contains(k) <==> rest(k) by {
                assert(first.drop_first().contains(k) <==> chosen(k) && k != first[0]);
            }
        }
        arrangement_is_unique(first.drop_first(), second.drop_first(), rest, before);
        assert(first =~= seq![head] + first.drop_first());
        assert(second =~= seq![head] + second.drop_first());
    }
}

proof fn lemma_tail_arrangement(
    list: Seq<int>,
    chosen: spec_fn(int) -> bool,
    before: spec_fn(int, int) -> bool,
)
    requires
        is_strict_order(before),
        is_arrangement(list, chosen, before),
        list.len() > 0,
    ensures
        forall|k: int| #[trigger]
            list.drop_first().contains(k) <==> chosen(k) && k != list[0],
        forall|i: int, j: int|
            0 <= i < j < list.drop_first().len() ==> before(
                #[trigger] list.drop_first()[i],
                #[trigger] list.drop_first()[j],
            ),
{
    let tail = list.drop_first();
    assert forall|k: int| #[trigger] tail.contains(k) <==> chosen(k) && k != list[0] by {
        if tail.contains(k) {
            let at = tail.index_of(k);
            assert(list[at + 1] == k);
            assert(list.contains(k));
            assert(before(list[0], list[at + 1]));
        }
        if chosen(k) && k != list[0] {
            assert(list.contains(k));
            let at = list.index_of(k);
            assert(tail[at - 1] == k);
        }
    }
}

/// The indices of a list.
pub open spec fn index_views(list: Seq<usize>) -> Seq<int> {
    list.map_values(|index: usize| index as int)
}

/// An order on the indices of something.
pub trait Precedence {
    /// `index` stands for something that can be put in order.
    spec fn covers(&self, index: int) -> bool;

    /// `left` comes before `right`.
    spec fn before(&self, left: int, right: int) -> bool;

    /// The order is strict.
    proof fn strict(&self)
        ensures
            is_strict_order(|left: int, right: int| self.before(left, right)),
    ;

    /// Whether `left` comes before `right`.
    fn precedes(&self, left: usize, right: usize) -> (before: bool)
        requires
            self.covers(left as int),
            self.covers(right as int),
        ensures
            before == self.before(left as int, right as int),
    ;
}

/// The chosen indices in their order.
pub fn arrange<P: Precedence>(order: &P, chosen: &Vec<bool>) -> (list: Vec<usize>)
    requires
        forall|k: int| 0 <= k < chosen.len() ==> #[trigger] order.covers(k),
    ensures
        is_arrangement(
            index_views(list@),
            |k: int| 0 <= k < chosen@.len() && chosen@[k],
            |left: int, right: int| order.before(left, right),
        ),
        forall|i: int| 0 <= i < list@.len() ==> (#[trigger] list@[i]) < chosen.len(),
{
    let mut list: Vec<usize> = Vec::new();
    let ghost before = |left: int, right: int| order.before(left, right);
    let mut k: usize = 0;
    while k < chosen.len()
        invariant
            k <= chosen.len(),
            forall|k: int| 0 <= k < chosen.len() ==> #[trigger] order.covers(k),
            before == (|left: int, right: int| order.before(left, right)),
            is_arrangement(index_views(list@), |i: int| 0 <= i < k && chosen@[i], before),
            forall|i: int| 0 <= i < list@.len() ==> (#[trigger] list@[i]) < k,
        decreases chosen.len() - k,
    {
        if chosen[k] {
            insert_index(order, &mut list, k, chosen);
        } else {
            assert(is_arrangement(index_views(list@), |i: int| 0 <= i < k + 1 && chosen@[i], before))
                by {
                assert forall|i: int| #[trigger]
                    index_views(list@).contains(i) <==> (0 <= i < k + 1 && chosen@[i]) by {
                    assert(index_views(list@).contains(i) <==> (|i: int|
                        0 <= i < k && chosen@[i])(i));
                }
            }
        }
        k = k + 1;
    }
    list
}

/// Puts index `k` where it belongs among smaller ones.
fn insert_index<P: Precedence>(order: &P, list: &mut Vec<usize>, k: usize, chosen: &Vec<bool>)
    requires
        k < chosen.len(),
        chosen@[k as int],
        forall|i: int| 0 <= i < chosen.len() ==> #[trigger] order.covers(i),
        is_arrangement(
            index_views(old(list)@),
            |i: int| 0 <= i < k && chosen@[i],
            |left: int, right: int| order.before(left, right),
        ),
        forall|i: int| 0 <= i < old(list)@.len() ==> (#[trigger] old(list)@[i]) < k,
    ensures
        is_arrangement(
            index_views(final(list)@),
            |i: int| 0 <= i < k + 1 && chosen@[i],
            |left: int, right: int| order.before(left, right),
        ),
        forall|i: int| 0 <= i < final(list)@.len() ==> (#[trigger] final(list)@[i]) < k + 1,
{
    let ghost before = |left: int, right: int| order.before(left, right);
    let ghost rest = index_views(list@);
    let mut at: usize = 0;
    while at < list.len() && order.precedes(list[at], k)
        invariant
            at <= list.len(),
            list@ == old(list)@,
            rest == index_views(list@),
            k < chosen.len(),
            before == (|left: int, right: int| order.before(left, right)),
            forall|i: int| 0 <= i < chosen.len() ==> #[trigger] order.covers(i),
            forall|i: int| 0 <= i < list@.len() ==> (#[trigger] list@[i]) < k,
            forall|i: int| 0 <= i < at ==> before(#[trigger] rest[i], k as int),
        decreases list.len() - at,
    {
        assert(rest[at as int] == list@[at as int]);
        at = at + 1;
    }
    list.insert(at, k);
    proof {
        order.strict();
        if at < rest.len() {
            assert(rest[at as int] == old(list)@[at as int]);
        }
        let whole = index_views(list@);
        assert(whole =~= rest.insert(at as int, k as int));
        assert(!rest.contains(k as int)) by {
            assert(rest.contains(k as int) <==> (|i: int| 0 <= i < k && chosen@[i])(k as int));
        }
        lemma_insert(rest, at as int, k as int, before);
        assert forall|i: int| #[trigger] whole.contains(i) <==> (0 <= i < k + 1 && chosen@[i]) by {
            assert(rest.contains(i) <==> (|i: int| 0 <= i < k && chosen@[i])(i));
        }
    }
}

proof fn lemma_insert(rest: Seq<int>, at: int, k: int, before: spec_fn(int, int) -> bool)
    requires
        0 <= at <= rest.len(),
        is_strict_order(before),
        !rest.contains(k),
        forall|i: int, j: int|
            0 <= i < j < rest.len() ==> before(#[trigger] rest[i], #[trigger] rest[j]),
        forall|i: int| 0 <= i < at ==> before(#[trigger] rest[i], k),
        at < rest.len() ==> !before(rest[at], k),
    ensures
        forall|i: int, j: int|
            0 <= i < j < rest.insert(at, k).len() ==> before(
                #[trigger] rest.insert(at, k)[i],
                #[trigger] rest.insert(at, k)[j],
            ),
        forall|i: int| #[trigger] rest.insert(at, k).contains(i) <==> i == k || rest.contains(i),
{
    let whole = rest.insert(at, k);
    if at < rest.len() {
        assert(rest.contains(rest[at]));
        assert(before(k, rest[at]));
    }
    assert forall|i: int, j: int| 0 <= i < j < whole.len() implies before(
        #[trigger] whole[i],
        #[trigger] whole[j],
    ) by {
        if j < at {
            assert(whole[i] == rest[i] && whole[j] == rest[j]);
        } else if j == at {
            assert(whole[i] == rest[i]);
        } else if i > at {
            assert(whole[i] == rest[i - 1] && whole[j] == rest[j - 1]);
        } else if i == at {
            assert(whole[j] == rest[j - 1]);
            if j - 1 > at {
                assert(before(rest[at], rest[j - 1]));
            }
        } else {
            assert(whole[i] == rest[i] && whole[j] == rest[j - 1]);
        }
    }
    assert forall|i: int| #[trigger] whole.contains(i) <==> i == k || rest.contains(i) by {
        if whole.contains(i) {
            let place = whole.index_of(i);
            if place < at {
                assert(rest[place] == i);
            } else if place > at {
                assert(rest[place - 1] == i);
            }
        }
        if i == k {
            assert(whole[at] == i);
        } else if rest.contains(i) {
            let place = rest.index_of(i);
            if place < at {
                assert(whole[place] == i);
            } else {
                assert(whole[place + 1] == i);
            }
        }
    }
}

proof fn lemma_insertion_point(
    rest: Seq<int>,
    from: int,
    k: int,
    before: spec_fn(int, int) -> bool,
) -> (at: int)
    requires
        0 <= from <= rest.len(),
        forall|i: int| 0 <= i < from ==> before(#[trigger] rest[i], k),
    ensures
        0 <= at <= rest.len(),
        forall|i: int| 0 <= i < at ==> before(#[trigger] rest[i], k),
        at < rest.len() ==> !before(rest[at], k),
    decreases rest.len() - from,
{
    if from < rest.len() && before(rest[from], k) {
        lemma_insertion_point(rest, from + 1, k, before)
    } else {
        from
    }
}

/// Finitely many chosen indices can be put in their order.
pub proof fn arrangement_exists(
    count: nat,
    chosen: spec_fn(int) -> bool,
    before: spec_fn(int, int) -> bool,
) -> (list: Seq<int>)
    requires
        is_strict_order(before),
        forall|k: int| #[trigger] chosen(k) ==> 0 <= k < count,
    ensures
        is_arrangement(list, chosen, before),
    decreases count,
{
    if count == 0 {
        let list = Seq::<int>::empty();
        assert(forall|k: int| !list.contains(k));
        list
    } else {
        let k = count - 1;
        let fewer = |i: int| chosen(i) && i != k;
        let rest = arrangement_exists(k as nat, fewer, before);
        assert forall|i: int| #[trigger] rest.contains(i) <==> chosen(i) && i != k by {
            assert(rest.contains(i) <==> fewer(i));
        }
        if chosen(k) {
            let at = lemma_insertion_point(rest, 0, k, before);
            lemma_insert(rest, at, k, before);
            rest.insert(at, k)
        } else {
            rest
        }
    }
}

/// Of two texts, the one comes first that has the lower character where they first differ; a text
/// comes before every longer one that begins with it.
pub proof fn the_first_difference_decides(
    shared: Seq<char>,
    left: char,
    right: char,
    left_rest: Seq<char>,
    right_rest: Seq<char>,
)
    requires
        (left as u32) < (right as u32),
    ensures
        text_before(shared + seq![left] + left_rest, shared + seq![right] + right_rest),
        !text_before(shared + seq![right] + right_rest, shared + seq![left] + left_rest),
        text_before(shared, shared + seq![left] + left_rest),
        !text_before(shared, shared),
    decreases shared.len(),
{
    let one = shared + seq![left] + left_rest;
    let two = shared + seq![right] + right_rest;
    if shared.len() > 0 {
        the_first_difference_decides(shared.drop_first(), left, right, left_rest, right_rest);
        assert(one.drop_first() =~= shared.drop_first() + seq![left] + left_rest);
        assert(two.drop_first() =~= shared.drop_first() + seq![right] + right_rest);
        assert(one[0] == shared[0] && two[0] == shared[0]);
    } else {
        assert(one[0] == left && two[0] == right);
    }
    lemma_text_before_total(one, two);
    lemma_text_before_total(shared, shared);
}

} // verus!
