//! Ordering by keys: a key is a list of numbers, and keys are compared number by number.
use vstd::prelude::*;

verus! {

/// Whether the key `a` comes before the key `b`, looking only at the numbers from place `i` on:
/// the first number in which they differ decides, and a key comes before every key that it
/// begins.
pub open spec fn lex_less_from(a: Seq<int>, b: Seq<int>, i: int) -> bool
    decreases a.len() - i,
{
    if i < 0 || i >= b.len() {
        false
    } else if i >= a.len() {
        true
    } else if a[i] != b[i] {
        a[i] < b[i]
    } else {
        lex_less_from(a, b, i + 1)
    }
}

/// Whether the key `a` comes before the key `b`.
pub open spec fn lex_less(a: Seq<int>, b: Seq<int>) -> bool {
    lex_less_from(a, b, 0)
}

/// The numbers of a list.
pub open spec fn nums(v: Seq<usize>) -> Seq<int> {
    Seq::new(v.len(), |i: int| v[i] as int)
}

/// The keys of a list.
pub open spec fn key_seqs(keys: Seq<Vec<usize>>) -> Seq<Seq<int>> {
    Seq::new(keys.len(), |i: int| nums(keys[i]@))
}

/// The place at which the item `x` enters an ordered list: behind every item that does not
/// come after it.
pub open spec fn slot(keys: Seq<Seq<int>>, order: Seq<int>, x: int, pos: int) -> int
    decreases pos,
{
    if 0 < pos <= order.len() && lex_less(keys[x], keys[order[pos - 1]]) {
        slot(keys, order, x, pos - 1)
    } else {
        pos
    }
}

/// The first `n` items in the order of their keys; items with equal keys keep their order.
pub open spec fn order_upto(keys: Seq<Seq<int>>, n: nat) -> Seq<int>
    decreases n,
{
    if n == 0 || n > keys.len() {
        Seq::empty()
    } else {
        let before = order_upto(keys, (n - 1) as nat);
        before.insert(slot(keys, before, n - 1, before.len() as int), n - 1)
    }
}

/// The places of all items in the order of their keys; items with equal keys keep their order.
pub open spec fn order_of(keys: Seq<Seq<int>>) -> Seq<int> {
    order_upto(keys, keys.len())
}

/// The items in the given order.
pub open spec fn arranged<T>(items: Seq<T>, order: Seq<int>) -> Seq<T> {
    Seq::new(order.len(), |i: int| items[order[i]])
}

/// The slot lies in the list, or at its end.
pub proof fn lemma_slot(keys: Seq<Seq<int>>, order: Seq<int>, x: int, pos: int)
    requires
        0 <= pos <= order.len(),
    ensures
        0 <= slot(keys, order, x, pos) <= pos,
    decreases pos,
{
    if 0 < pos && lex_less(keys[x], keys[order[pos - 1]]) {
        lemma_slot(keys, order, x, pos - 1);
    }
}

/// The order of the first `n` items names each of them once.
pub proof fn lemma_order_upto(keys: Seq<Seq<int>>, n: nat)
    requires
        n <= keys.len(),
    ensures
        order_upto(keys, n).len() == n,
        forall|i: int| 0 <= i < n ==> 0 <= #[trigger] order_upto(keys, n)[i] < n,
        forall|i: int, j: int| 0 <= i < j < n ==> order_upto(keys, n)[i] != order_upto(keys, n)[j],
        forall|x: int| 0 <= x < n ==> order_upto(keys, n).contains(x),
    decreases n,
{
    if n > 0 {
        let before = order_upto(keys, (n - 1) as nat);
        lemma_order_upto(keys, (n - 1) as nat);
        let at = slot(keys, before, n - 1, before.len() as int);
        lemma_slot(keys, before, n - 1, before.len() as int);
        let now = order_upto(keys, n);
        assert(now == before.insert(at, n - 1));
        assert forall|i: int| 0 <= i < n implies now[i] == (if i < at {
            before[i]
        } else if i == at {
            n - 1
        } else {
            before[i - 1]
        }) by {}
        assert forall|x: int| 0 <= x < n implies now.contains(x) by {
            if x == n - 1 {
                assert(now[at] == x);
            } else {
                assert(before.contains(x));
                let i = choose|i: int| 0 <= i < before.len() && before[i] == x;
                if i < at {
                    assert(now[i] == x);
                } else {
                    assert(now[i + 1] == x);
                }
            }
        }
    }
}

/// The order of a list names each of its items once.
pub proof fn lemma_order_of(keys: Seq<Seq<int>>)
    ensures
        order_of(keys).len() == keys.len(),
        forall|i: int| 0 <= i < keys.len() ==> 0 <= #[trigger] order_of(keys)[i] < keys.len(),
        forall|i: int, j: int| 0 <= i < j < keys.len() ==> order_of(keys)[i] != order_of(keys)[j],
        forall|x: int| 0 <= x < keys.len() ==> order_of(keys).contains(x),
{
    lemma_order_upto(keys, keys.len());
}

/// Where a key comes before another, it comes before a third key, or the third comes before
/// the other.
pub proof fn lemma_lex_between(a: Seq<int>, b: Seq<int>, c: Seq<int>, i: int)
    requires
        0 <= i,
        lex_less_from(a, c, i),
    ensures
        lex_less_from(a, b, i) || lex_less_from(b, c, i),
    decreases c.len() - i,
{
    if i < a.len() && i < b.len() && i < c.len() && a[i] == b[i] && b[i] == c[i] {
        lemma_lex_between(a, b, c, i + 1);
    }
}

/// Of two keys at most one comes before the other.
pub proof fn lemma_lex_one_way(a: Seq<int>, b: Seq<int>, i: int)
    requires
        0 <= i,
        lex_less_from(a, b, i),
    ensures
        !lex_less_from(b, a, i),
    decreases b.len() - i,
{
    if i < a.len() && i < b.len() && a[i] == b[i] {
        lemma_lex_one_way(a, b, i + 1);
    }
}

/// Whether no key of the order comes before a key that stands in front of it.
pub open spec fn in_order(keys: Seq<Seq<int>>, order: Seq<int>) -> bool {
    forall|i: int, j: int| 0 <= i < j < order.len() ==> !lex_less(keys[#[trigger] order[j]], keys[#[trigger] order[i]])
}

/// The item `x` comes before every item from its slot on.
proof fn lemma_slot_before(keys: Seq<Seq<int>>, order: Seq<int>, x: int, pos: int)
    requires
        0 <= pos <= order.len(),
    ensures
        forall|p: int| slot(keys, order, x, pos) <= p < pos ==> lex_less(keys[x], keys[#[trigger] order[p]]),
        slot(keys, order, x, pos) > 0 ==> !lex_less(keys[x], keys[order[slot(keys, order, x, pos) - 1]]),
    decreases pos,
{
    if 0 < pos && lex_less(keys[x], keys[order[pos - 1]]) {
        lemma_slot_before(keys, order, x, pos - 1);
    }
}

/// The order of the first `n` items is in order.
pub proof fn lemma_order_upto_sorted(keys: Seq<Seq<int>>, n: nat)
    requires
        n <= keys.len(),
    ensures
        in_order(keys, order_upto(keys, n)),
    decreases n,
{
    if n > 0 {
        let before = order_upto(keys, (n - 1) as nat);
        lemma_order_upto_sorted(keys, (n - 1) as nat);
        lemma_order_upto(keys, (n - 1) as nat);
        let x = n - 1;
        let at = slot(keys, before, x, before.len() as int);
        lemma_slot(keys, before, x, before.len() as int);
        lemma_slot_before(keys, before, x, before.len() as int);
        let now = order_upto(keys, n);
        assert(now == before.insert(at, x));
        assert forall|i: int, j: int| 0 <= i < j < now.len() implies !lex_less(keys[#[trigger] now[j]], keys[#[trigger] now[i]]) by {
            let from = |k: int| if k < at { k } else { k - 1 };
            if i == at {
                assert(now[j] == before[j - 1]);
                lemma_lex_one_way(keys[x], keys[before[j - 1]], 0);
            } else if j == at {
                assert(now[i] == before[i]);
                if i < at - 1 {
                    assert(!lex_less(keys[before[at - 1]], keys[before[i]]));
                    if lex_less(keys[x], keys[before[i]]) {
                        lemma_lex_between(keys[x], keys[before[at - 1]], keys[before[i]], 0);
                    }
                }
            } else {
                assert(now[i] == before[from(i)] && now[j] == before[from(j)]);
            }
        }
    }
}

/// The order of a list is in order: no item comes before one that stands in front of it.
pub proof fn lemma_order_sorted(keys: Seq<Seq<int>>)
    ensures
        in_order(keys, order_of(keys)),
{
    lemma_order_upto_sorted(keys, keys.len());
}

/// Whether the key `a` comes before the key `b`.
pub fn key_less(a: &Vec<usize>, b: &Vec<usize>) -> (r: bool)
    ensures
        r == lex_less(nums(a@), nums(b@)),
{
    let mut i: usize = 0;
    loop
        invariant
            i <= a@.len(),
            lex_less_from(nums(a@), nums(b@), i as int) == lex_less(nums(a@), nums(b@)),
        decreases a@.len() - i,
    {
        if i >= b.len() {
            return false;
        }
        if i >= a.len() {
            return true;
        }
        if a[i] != b[i] {
            return a[i] < b[i];
        }
        i = i + 1;
    }
}

/// The places of all items in the order of their keys; items with equal keys keep their order.
pub fn sorted_order(keys: &Vec<Vec<usize>>) -> (order: Vec<usize>)
    ensures
        nums(order@) == order_of(key_seqs(keys@)),
        order@.len() == keys@.len(),
        forall|i: int| 0 <= i < order@.len() ==> #[trigger] order@[i] < keys@.len(),
{
    let ghost ks = key_seqs(keys@);
    let mut order: Vec<usize> = Vec::new();
    let mut x: usize = 0;
    assert(nums(order@) =~= order_upto(ks, 0));
    while x < keys.len()
        invariant
            x <= keys@.len(),
            ks == key_seqs(keys@),
            nums(order@) == order_upto(ks, x as nat),
            order@.len() == x,
            forall|i: int| 0 <= i < order@.len() ==> #[trigger] order@[i] < x,
        decreases keys@.len() - x,
    {
        let ghost before = nums(order@);
        let mut pos: usize = order.len();
        while pos > 0 && key_less(&keys[x], &keys[order[pos - 1]])
            invariant
                pos <= order@.len(),
                x < keys@.len(),
                ks == key_seqs(keys@),
                before == nums(order@),
                forall|i: int| 0 <= i < order@.len() ==> #[trigger] order@[i] < x,
                slot(ks, before, x as int, pos as int) == slot(ks, before, x as int, before.len() as int),
            decreases pos,
        {
            assert(ks[x as int] == nums(keys@[x as int]@));
            assert(ks[before[pos - 1]] == nums(keys@[order@[pos - 1] as int]@));
            pos = pos - 1;
        }
        proof {
            if pos > 0 {
                assert(ks[x as int] == nums(keys@[x as int]@));
                assert(ks[before[pos - 1]] == nums(keys@[order@[pos - 1] as int]@));
            }
            assert(slot(ks, before, x as int, pos as int) == pos);
        }
        order.insert(pos, x);
        assert(nums(order@) =~= before.insert(pos as int, x as int));
        x = x + 1;
    }
    order
}

} // verus!
