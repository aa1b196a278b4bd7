//! The weight of a selector, and the stable sort by weight that the parser
//! and the cascade share.
use vstd::prelude::*;

verus! {

/// The weight of a selector: how many ids, classes and tag names it asks
/// for, in this order of importance.
pub type Specificity = (usize, usize, usize);

/// Whether `a` weighs more than `b`: the first part that differs decides.
pub open spec fn outranks(a: Specificity, b: Specificity) -> bool {
    a.0 > b.0 || (a.0 == b.0 && (a.1 > b.1 || (a.1 == b.1 && a.2 > b.2)))
}

/// Whether an item of weight `a` has to stand before one of weight `b`.
pub open spec fn goes_before(a: Specificity, b: Specificity, descending: bool) -> bool {
    if descending {
        outranks(a, b)
    } else {
        outranks(b, a)
    }
}

/// Whether `a` weighs more than `b`.
pub fn weighs_more(a: Specificity, b: Specificity) -> (r: bool)
    ensures
        r == outranks(a, b),
{
    a.0 > b.0 || (a.0 == b.0 && (a.1 > b.1 || (a.1 == b.1 && a.2 > b.2)))
}

/// Whether an item of weight `a` has to stand before one of weight `b`.
pub fn stands_before(a: Specificity, b: Specificity, descending: bool) -> (r: bool)
    ensures
        r == goes_before(a, b, descending),
{
    if descending {
        weighs_more(a, b)
    } else {
        weighs_more(b, a)
    }
}

/// Something that has a weight to be sorted by.
pub trait Ranked {
    spec fn rank(&self) -> Specificity;

    fn weight(&self) -> (r: Specificity)
        ensures
            r == self.rank(),
    ;
}

/// The ranks of a list of items, in order.
pub open spec fn ranks<T: Ranked>(items: Seq<T>) -> Seq<Specificity> {
    Seq::new(items.len(), |i: int| items[i].rank())
}

/// Where the key `key` goes among the first `upto` places of `order`, a
/// sorted arrangement of indices into `keys`: after every index whose key
/// it does not have to stand before.
pub open spec fn insertion_point(
    keys: Seq<Specificity>,
    order: Seq<int>,
    key: Specificity,
    descending: bool,
    upto: int,
) -> int
    decreases upto,
{
    if upto <= 0 {
        0
    } else if goes_before(key, keys[order[upto - 1]], descending) {
        insertion_point(keys, order, key, descending, upto - 1)
    } else {
        upto
    }
}

/// The order in which a stable sort puts the first `count` of `keys`: the
/// indices `0..count`, by key, and by index where keys are equal.
pub open spec fn stable_order_of(keys: Seq<Specificity>, count: int, descending: bool) -> Seq<int>
    decreases count,
{
    if count <= 0 {
        Seq::empty()
    } else {
        let front = stable_order_of(keys, count - 1, descending);
        front.insert(
            insertion_point(keys, front, keys[count - 1], descending, count - 1),
            count - 1,
        )
    }
}

/// The order in which a stable sort puts `keys`.
pub open spec fn stable_order(keys: Seq<Specificity>, descending: bool) -> Seq<int> {
    stable_order_of(keys, keys.len() as int, descending)
}

/// The items of `items` in the order `order`.
pub open spec fn arrange<T>(items: Seq<T>, order: Seq<int>) -> Seq<T> {
    Seq::new(order.len(), |k: int| items[order[k]])
}

/// Whether `order` lists the indices `0..count`, each once, by key, and by
/// index where keys are equal.
pub open spec fn is_stable_order(
    keys: Seq<Specificity>,
    count: int,
    descending: bool,
    order: Seq<int>,
) -> bool {
    &&& order.len() == count
    &&& forall|k: int| 0 <= k < count ==> 0 <= #[trigger] order[k] < count
    &&& forall|i: int| 0 <= i < count ==> #[trigger] order.contains(i)
    &&& forall|k: int, l: int|
        0 <= k < l < count ==> {
            ||| goes_before(keys[#[trigger] order[k]], keys[#[trigger] order[l]], descending)
            ||| (keys[order[k]] == keys[order[l]] && order[k] < order[l])
        }
}

proof fn lemma_insertion_point(
    keys: Seq<Specificity>,
    order: Seq<int>,
    key: Specificity,
    descending: bool,
    upto: int,
)
    requires
        0 <= upto <= order.len(),
    ensures
        0 <= insertion_point(keys, order, key, descending, upto) <= upto,
        forall|k: int|
            insertion_point(keys, order, key, descending, upto) <= k < upto ==> goes_before(
                key,
                keys[#[trigger] order[k]],
                descending,
            ),
        insertion_point(keys, order, key, descending, upto) > 0 ==> !goes_before(
            key,
            keys[order[insertion_point(keys, order, key, descending, upto) - 1]],
            descending,
        ),
    decreases upto,
{
    if upto > 0 && goes_before(key, keys[order[upto - 1]], descending) {
        lemma_insertion_point(keys, order, key, descending, upto - 1);
    }
}

/// A stable sort's order lists every index once, by key, and keeps the
/// indices of equal keys in their order.
pub proof fn lemma_stable_order(keys: Seq<Specificity>, count: int, descending: bool)
    requires
        0 <= count <= keys.len(),
    ensures
        is_stable_order(keys, count, descending, stable_order_of(keys, count, descending)),
    decreases count,
{
    if count > 0 {
        let front = stable_order_of(keys, count - 1, descending);
        let key = keys[count - 1];
        let at = insertion_point(keys, front, key, descending, count - 1);
        let order = stable_order_of(keys, count, descending);
        lemma_stable_order(keys, count - 1, descending);
        lemma_insertion_point(keys, front, key, descending, count - 1);
        assert(order == front.insert(at, count - 1));
        assert forall|k: int| 0 <= k < count implies 0 <= #[trigger] order[k] < count by {
            if k < at {
                assert(order[k] == front[k]);
            } else if k > at {
                assert(order[k] == front[k - 1]);
            }
        }
        assert forall|i: int| 0 <= i < count implies #[trigger] order.contains(i) by {
            if i == count - 1 {
                assert(order[at] == i);
            } else {
                assert(front.contains(i));
                let k = choose|k: int| 0 <= k < front.len() && front[k] == i;
                if k < at {
                    assert(order[k] == i);
                } else {
                    assert(order[k + 1] == i);
                }
            }
        }
        assert forall|k: int, l: int| 0 <= k < l < count implies {
            ||| goes_before(keys[#[trigger] order[k]], keys[#[trigger] order[l]], descending)
            ||| (keys[order[k]] == keys[order[l]] && order[k] < order[l])
        } by {
            if l < at {
                assert(order[k] == front[k] && order[l] == front[l]);
            } else if l == at {
                // order[l] is the new index; front[k] stays before it
                assert(order[k] == front[k]);
                assert(!goes_before(key, keys[front[at - 1]], descending));
                if k < at - 1 {
                    assert(goes_before(keys[front[k]], keys[front[at - 1]], descending) || (keys[front[k]]
                        == keys[front[at - 1]] && front[k] < front[at - 1]));
                }
            } else if k == at {
                assert(order[l] == front[l - 1]);
                assert(goes_before(key, keys[front[l - 1]], descending));
            } else if k > at {
                assert(order[k] == front[k - 1] && order[l] == front[l - 1]);
            } else {
                assert(order[k] == front[k] && order[l] == front[l - 1]);
            }
        }
    }
}

/// Sorts `items` by rank, the heaviest first if `descending` and the
/// lightest first otherwise; items of equal rank keep their order.
pub fn stable_sort<T: Ranked>(items: &mut Vec<T>, descending: bool)
    ensures
        final(items)@ == arrange(old(items)@, stable_order(ranks(old(items)@), descending)),
{
    let ghost given = items@;
    let ghost keys = ranks(given);
    let ghost mut order: Seq<int> = Seq::empty();
    let mut i: usize = 0;
    while i < items.len()
        invariant
            items@.len() == given.len(),
            keys == ranks(given),
            i <= items@.len(),
            order == stable_order_of(keys, i as int, descending),
            is_stable_order(keys, i as int, descending, order),
            forall|k: int| 0 <= k < i ==> #[trigger] items@[k] == given[order[k]],
            forall|k: int| i <= k < items@.len() ==> #[trigger] items@[k] == given[k],
        decreases items@.len() - i,
    {
        let ghost before = items@;
        let item = items.remove(i);
        let key = item.weight();
        assert(key == keys[i as int]);
        let mut at: usize = i;
        while at > 0 && stands_before(key, items[at - 1].weight(), descending)
            invariant
                at <= i < before.len(),
                before.len() == given.len(),
                items@ == before.remove(i as int),
                keys == ranks(given),
                is_stable_order(keys, i as int, descending, order),
                forall|k: int| 0 <= k < i ==> #[trigger] before[k] == given[order[k]],
                insertion_point(keys, order, key, descending, i as int) == insertion_point(
                    keys,
                    order,
                    key,
                    descending,
                    at as int,
                ),
            decreases at,
        {
            proof {
                let k = at - 1;
                assert(0 <= order[k] < i);
                assert(items@[k] == before[k]);
                assert(before[k] == given[order[k]]);
                assert(keys[order[k]] == given[order[k]].rank());
            }
            at -= 1;
        }
        items.insert(at, item);
        proof {
            let old_order = order;
            order = old_order.insert(at as int, i as int);
            lemma_stable_order(keys, i + 1, descending);
            assert forall|k: int| 0 <= k < i + 1 implies #[trigger] items@[k]
                == given[order[k]] by {
                if k < at {
                    assert(items@[k] == before[k]);
                    assert(order[k] == old_order[k]);
                } else if k > at {
                    assert(items@[k] == before[k - 1]);
                    assert(order[k] == old_order[k - 1]);
                }
            }
        }
        i += 1;
    }
    proof {
        assert(items@ =~= arrange(given, order));
    }
}

} // verus!
