use vstd::prelude::*;

verus! {

/// Where `x` goes into the arrangement `r`: in front of the run of items at
/// the end of `r` that `x` comes before.
pub open spec fn slot(r: Seq<int>, x: int, before: spec_fn(int, int) -> bool) -> int
    decreases r.len(),
{
    if r.len() == 0 {
        0
    } else if before(x, r.last()) {
        slot(r.drop_last(), x, before)
    } else {
        r.len() as int
    }
}

/// The numbers `0..n` arranged by `before`: each number in turn is put in
/// front of the run of numbers at the end that it comes before, so that
/// numbers of which neither comes before the other keep their order.
pub open spec fn order_of(n: nat, before: spec_fn(int, int) -> bool) -> Seq<int>
    decreases n,
{
    if n == 0 {
        Seq::empty()
    } else {
        let r = order_of((n - 1) as nat, before);
        r.insert(slot(r, n - 1, before), n - 1)
    }
}

/// Whether `r` holds each of the numbers `0..n` once.
pub open spec fn is_permutation(r: Seq<int>, n: nat) -> bool {
    &&& r.len() == n
    &&& forall|k: int| 0 <= k < r.len() ==> 0 <= #[trigger] r[k] < n
    &&& forall|k: int, l: int| 0 <= k < l < r.len() ==> r[k] != r[l]
}

/// The items picked in the order that `order` gives.
pub open spec fn arranged<A>(items: Seq<A>, order: Seq<int>) -> Seq<A> {
    Seq::new(order.len(), |k: int| items[order[k]])
}

/// The places of a list of indices as numbers.
pub open spec fn indices(order: Seq<usize>) -> Seq<int> {
    Seq::new(order.len(), |k: int| order[k] as int)
}

/// Whether no later item of `r` comes before an earlier one.
pub open spec fn in_order(r: Seq<int>, before: spec_fn(int, int) -> bool) -> bool {
    forall|k: int, l: int| 0 <= k < l < r.len() ==> !before(#[trigger] r[l], #[trigger] r[k])
}

/// Whether each earlier item of `r` comes before each later one.
pub open spec fn strictly_in_order(r: Seq<int>, before: spec_fn(int, int) -> bool) -> bool {
    forall|k: int, l: int| 0 <= k < l < r.len() ==> before(#[trigger] r[k], #[trigger] r[l])
}

/// Whether `before` orders the numbers `0..n` like a ranking with ties:
/// never both ways, and "not before" carries over a middle number.
pub open spec fn is_weak_order(n: nat, before: spec_fn(int, int) -> bool) -> bool {
    &&& forall|a: int, b: int|
        0 <= a < n && 0 <= b < n && #[trigger] before(a, b) ==> !before(b, a)
    &&& forall|a: int, b: int, c: int|
        0 <= a < n && 0 <= b < n && 0 <= c < n && !#[trigger] before(a, b) && !#[trigger] before(
            b,
            c,
        ) ==> !before(a, c)
}

/// Whether `before` ranks the numbers `0..n` without ties: of two different
/// numbers exactly one comes before the other, and "before" carries over a
/// middle number.
pub open spec fn is_strict_order(n: nat, before: spec_fn(int, int) -> bool) -> bool {
    &&& forall|a: int, b: int|
        0 <= a < n && 0 <= b < n && #[trigger] before(a, b) ==> !before(b, a)
    &&& forall|a: int, b: int|
        0 <= a < n && 0 <= b < n && a != b ==> #[trigger] before(a, b) || before(b, a)
    &&& forall|a: int, b: int, c: int|
        0 <= a < n && 0 <= b < n && 0 <= c < n && #[trigger] before(a, b) && #[trigger] before(
            b,
            c,
        ) ==> before(a, c)
}

/// The slot of `x` lies in `r` or at its end, `x` comes before every item
/// from the slot on, and not before the item in front of the slot.
pub proof fn lemma_slot(r: Seq<int>, x: int, before: spec_fn(int, int) -> bool)
    ensures
        0 <= slot(r, x, before) <= r.len(),
        forall|k: int| slot(r, x, before) <= k < r.len() ==> before(x, #[trigger] r[k]),
        slot(r, x, before) > 0 ==> !before(x, r[slot(r, x, before) - 1]),
    decreases r.len(),
{
    if r.len() == 0 {
    } else if before(x, r.last()) {
        lemma_slot(r.drop_last(), x, before);
        let p = slot(r.drop_last(), x, before);
        assert forall|k: int| p <= k < r.len() implies before(x, #[trigger] r[k]) by {
            if k < r.len() - 1 {
                assert(r.drop_last()[k] == r[k]);
            }
        }
        if p > 0 {
            assert(r.drop_last()[p - 1] == r[p - 1]);
        }
    } else {
    }
}

/// The arrangement of `0..n` holds each of these numbers once.
pub proof fn lemma_order_is_permutation(n: nat, before: spec_fn(int, int) -> bool)
    ensures
        is_permutation(order_of(n, before), n),
    decreases n,
{
    if n > 0 {
        let r = order_of((n - 1) as nat, before);
        lemma_order_is_permutation((n - 1) as nat, before);
        lemma_slot(r, n - 1, before);
        let p = slot(r, n - 1, before);
        let after = r.insert(p, n - 1);
        assert forall|k: int| 0 <= k < after.len() implies 0 <= #[trigger] after[k] < n by {
            if k < p {
                assert(after[k] == r[k]);
            } else if k > p {
                assert(after[k] == r[k - 1]);
            }
        }
        assert forall|k: int, l: int| 0 <= k < l < after.len() implies after[k] != after[l] by {
            let a = if k < p {
                k
            } else {
                k - 1
            };
            let b = if l < p {
                l
            } else {
                l - 1
            };
            if k != p {
                assert(after[k] == r[a]);
            }
            if l != p {
                assert(after[l] == r[b]);
            }
        }
    }
}

/// Each of the numbers `0..n` has its place in the arrangement.
pub proof fn lemma_order_place(n: nat, before: spec_fn(int, int) -> bool, i: int) -> (k: int)
    requires
        0 <= i < n,
    ensures
        0 <= k < n,
        order_of(n, before).len() == n,
        order_of(n, before)[k] == i,
    decreases n,
{
    lemma_order_is_permutation(n, before);
    let r = order_of((n - 1) as nat, before);
    lemma_order_is_permutation((n - 1) as nat, before);
    lemma_slot(r, n - 1, before);
    let p = slot(r, n - 1, before);
    if i == n - 1 {
        p
    } else {
        let k0 = lemma_order_place((n - 1) as nat, before, i);
        if k0 < p {
            k0
        } else {
            k0 + 1
        }
    }
}

/// Under a ranking with ties, no later item of the arrangement comes before
/// an earlier one.
pub proof fn lemma_order_in_order(n: nat, before: spec_fn(int, int) -> bool)
    requires
        is_weak_order(n, before),
    ensures
        in_order(order_of(n, before), before),
    decreases n,
{
    if n > 0 {
        let r = order_of((n - 1) as nat, before);
        lemma_order_in_order((n - 1) as nat, before);
        lemma_order_is_permutation((n - 1) as nat, before);
        lemma_slot(r, n - 1, before);
        let x = n - 1;
        let p = slot(r, x, before);
        let after = r.insert(p, x);
        assert forall|k: int, l: int| 0 <= k < l < after.len() implies !before(
            #[trigger] after[l],
            #[trigger] after[k],
        ) by {
            if l == p {
                assert(after[k] == r[k]);
                assert(!before(x, r[p - 1]));
                if k < p - 1 {
                    assert(!before(r[p - 1], r[k]));
                }
            } else if k == p {
                assert(after[l] == r[l - 1]);
                assert(before(x, r[l - 1]));
            } else {
                let a = if k < p {
                    k
                } else {
                    k - 1
                };
                let b = if l < p {
                    l
                } else {
                    l - 1
                };
                assert(after[k] == r[a]);
                assert(after[l] == r[b]);
                assert(!before(r[b], r[a]));
            }
        }
    }
}

/// Under a ranking without ties, each earlier item of the arrangement comes
/// before each later one.
pub proof fn lemma_order_strictly_in_order(n: nat, before: spec_fn(int, int) -> bool)
    requires
        is_strict_order(n, before),
    ensures
        strictly_in_order(order_of(n, before), before),
{
    assert(is_weak_order(n, before)) by {
        assert forall|a: int, b: int, c: int|
            0 <= a < n && 0 <= b < n && 0 <= c < n && !#[trigger] before(a, b) && !#[trigger] before(
                b,
                c,
            ) implies !before(a, c) by {
            if before(a, c) {
                if a == b {
                } else if b == c {
                } else {
                    assert(before(b, a));
                    assert(before(c, b));
                    assert(before(c, a));
                }
            }
        }
    }
    lemma_order_in_order(n, before);
    lemma_order_is_permutation(n, before);
    let r = order_of(n, before);
    assert forall|k: int, l: int| 0 <= k < l < r.len() implies before(
        #[trigger] r[k],
        #[trigger] r[l],
    ) by {
        assert(!before(r[l], r[k]));
        assert(r[k] != r[l]);
    }
}

/// Whether the number at `i` is smaller than the number at `j`.
pub open spec fn smaller_key(keys: Seq<u128>) -> spec_fn(int, int) -> bool {
    |i: int, j: int| keys[i] < keys[j]
}

/// Two ways of comparing that agree on the numbers `0..n` arrange them
/// alike.
pub proof fn lemma_order_agrees(
    n: nat,
    f: spec_fn(int, int) -> bool,
    g: spec_fn(int, int) -> bool,
)
    requires
        forall|i: int, j: int| 0 <= i < n && 0 <= j < n ==> #[trigger] f(i, j) == g(i, j),
    ensures
        order_of(n, f) == order_of(n, g),
    decreases n,
{
    if n > 0 {
        lemma_order_agrees((n - 1) as nat, f, g);
        lemma_order_is_permutation((n - 1) as nat, f);
        lemma_slot_agrees(order_of((n - 1) as nat, f), n - 1, n, f, g);
    }
}

proof fn lemma_slot_agrees(
    r: Seq<int>,
    x: int,
    n: nat,
    f: spec_fn(int, int) -> bool,
    g: spec_fn(int, int) -> bool,
)
    requires
        0 <= x < n,
        forall|k: int| 0 <= k < r.len() ==> 0 <= #[trigger] r[k] < n,
        forall|i: int, j: int| 0 <= i < n && 0 <= j < n ==> #[trigger] f(i, j) == g(i, j),
    ensures
        slot(r, x, f) == slot(r, x, g),
    decreases r.len(),
{
    if r.len() > 0 {
        assert(0 <= r[r.len() - 1] < n);
        assert(f(x, r.last()) == g(x, r.last()));
        assert forall|k: int| 0 <= k < r.drop_last().len() implies 0 <= #[trigger] r.drop_last()[k]
            < n by {
            assert(r.drop_last()[k] == r[k]);
        }
        lemma_slot_agrees(r.drop_last(), x, n, f, g);
    }
}

/// The places of the numbers from the smallest to the largest, equal
/// numbers in the order they have.
pub fn order_by_key(keys: &Vec<u128>) -> (order: Vec<usize>)
    ensures
        indices(order@) == order_of(keys@.len(), smaller_key(keys@)),
        is_permutation(indices(order@), keys@.len()),
        in_order(indices(order@), smaller_key(keys@)),
{
    let ghost before = smaller_key(keys@);
    let mut order: Vec<usize> = Vec::new();
    let mut i: usize = 0;
    while i < keys.len()
        invariant
            i <= keys.len(),
            before == smaller_key(keys@),
            is_permutation(indices(order@), i as nat),
            indices(order@) == order_of(i as nat, before),
        decreases keys.len() - i,
    {
        let mut p: usize = order.len();
        let ghost r = indices(order@);
        assert(r.take(p as int) =~= r);
        let mut moving = true;
        while p > 0 && moving
            invariant
                p <= order.len(),
                i < keys.len(),
                r == indices(order@),
                before == smaller_key(keys@),
                is_permutation(r, i as nat),
                moving ==> slot(r, i as int, before) == slot(r.take(p as int), i as int, before),
                !moving ==> slot(r, i as int, before) == p,
            decreases p + if moving {
                1int
            } else {
                0int
            },
        {
            assert(r[p - 1] == order@[p - 1]);
            assert(r.take(p as int).last() == r[p - 1]);
            let first = keys[i] < keys[order[p - 1]];
            assert(first == before(i as int, r[p - 1]));
            if first {
                assert(r.take(p as int).drop_last() =~= r.take(p - 1));
                p = p - 1;
            } else {
                moving = false;
            }
        }
        order.insert(p, i);
        proof {
            assert(indices(order@) =~= r.insert(p as int, i as int));
            lemma_order_is_permutation((i + 1) as nat, before);
        }
        i += 1;
    }
    proof {
        assert(is_weak_order(keys@.len(), before));
        lemma_order_in_order(keys@.len(), before);
    }
    order
}

/// The first fault among the pairs `(i, j)` with `i` below `m`.
pub open spec fn row_fault<E>(j: int, m: nat, fault: spec_fn(int, int) -> Option<E>) -> Option<E>
    decreases m,
{
    if m == 0 {
        None
    } else {
        match row_fault(j, (m - 1) as nat, fault) {
            Some(e) => Some(e),
            None => fault(m - 1, j),
        }
    }
}

/// The first fault among the pairs `(i, j)` with `i < j < n`, looked for
/// with `j` going up and, for each `j`, `i` going up.
pub open spec fn first_fault<E>(n: nat, fault: spec_fn(int, int) -> Option<E>) -> Option<E>
    decreases n,
{
    if n == 0 {
        None
    } else {
        match first_fault((n - 1) as nat, fault) {
            Some(e) => Some(e),
            None => row_fault(n - 1, (n - 1) as nat, fault),
        }
    }
}

pub proof fn lemma_row_fault<E>(j: int, m: nat, fault: spec_fn(int, int) -> Option<E>)
    ensures
        row_fault(j, m, fault) is None <==> forall|i: int|
            0 <= i < m ==> #[trigger] fault(i, j) is None,
        row_fault(j, m, fault) is Some ==> exists|i: int|
            0 <= i < m && #[trigger] fault(i, j) == row_fault(j, m, fault),
    decreases m,
{
    if m > 0 {
        lemma_row_fault(j, (m - 1) as nat, fault);
        if row_fault(j, (m - 1) as nat, fault) is None {
            if fault(m - 1, j) is Some {
                assert(fault(m - 1, j) == row_fault(j, m, fault));
            }
        } else {
            let i = choose|i: int|
                0 <= i < m - 1 && #[trigger] fault(i, j) == row_fault(j, (m - 1) as nat, fault);
            assert(fault(i, j) == row_fault(j, m, fault));
        }
    }
}

/// There is no first fault just when no pair has one, and a first fault is
/// the fault of some pair.
pub proof fn lemma_first_fault<E>(n: nat, fault: spec_fn(int, int) -> Option<E>)
    ensures
        first_fault(n, fault) is None <==> forall|i: int, j: int|
            0 <= i < j < n ==> #[trigger] fault(i, j) is None,
        first_fault(n, fault) is Some ==> exists|i: int, j: int|
            0 <= i < j < n && #[trigger] fault(i, j) == first_fault(n, fault),
    decreases n,
{
    if n > 0 {
        lemma_first_fault((n - 1) as nat, fault);
        lemma_row_fault(n - 1, (n - 1) as nat, fault);
        if first_fault((n - 1) as nat, fault) is None {
            if row_fault(n - 1, (n - 1) as nat, fault) is Some {
                let i = choose|i: int|
                    0 <= i < n - 1 && #[trigger] fault(i, n - 1) == row_fault(
                        n - 1,
                        (n - 1) as nat,
                        fault,
                    );
                assert(fault(i, n - 1) == first_fault(n, fault));
            } else {
                assert forall|i: int, j: int| 0 <= i < j < n implies #[trigger] fault(
                    i,
                    j,
                ) is None by {
                    if j == n - 1 {
                    } else {
                    }
                }
            }
        } else {
            let (i, j) = choose|i: int, j: int|
                0 <= i < j < n - 1 && #[trigger] fault(i, j) == first_fault(
                    (n - 1) as nat,
                    fault,
                );
            assert(fault(i, j) == first_fault(n, fault));
        }
    }
}

/// A fault found in row `j` at `i`, with none before it, is the first fault
/// of any longer list.
pub proof fn lemma_fault_found<E>(n: nat, fault: spec_fn(int, int) -> Option<E>, j: int, i: int)
    requires
        0 <= i < j < n,
        first_fault(j as nat, fault) is None,
        row_fault(j, i as nat, fault) is None,
        fault(i, j) is Some,
    ensures
        first_fault(n, fault) == fault(i, j),
    decreases n,
{
    lemma_row_found(j, j as nat, fault, i);
    if n == j + 1 {
    } else {
        lemma_fault_found((n - 1) as nat, fault, j, i);
    }
}

/// A fault found at `i` in a row, with none before it, is the first fault of
/// the row however far it is read.
pub proof fn lemma_row_found<E>(j: int, m: nat, fault: spec_fn(int, int) -> Option<E>, i: int)
    requires
        0 <= i < m,
        row_fault(j, i as nat, fault) is None,
        fault(i, j) is Some,
    ensures
        row_fault(j, m, fault) == fault(i, j),
    decreases m,
{
    if m == i + 1 {
    } else {
        lemma_row_found(j, (m - 1) as nat, fault, i);
    }
}

/// The items in the order that `order` gives.
pub fn permuted<T>(items: Vec<T>, order: &Vec<usize>) -> (out: Vec<T>)
    requires
        is_permutation(indices(order@), items@.len()),
    ensures
        out@ == arranged(items@, indices(order@)),
{
    let ghost orig = items@;
    let mut cells: Vec<Option<T>> = Vec::new();
    for x in it: items
        invariant
            cells@.len() == it.index(),
            forall|k: int| 0 <= k < cells@.len() ==> cells@[k] == Some(it.seq()[k]),
    {
        cells.push(Some(x));
    }
    let mut out: Vec<T> = Vec::new();
    let mut k: usize = 0;
    while k < order.len()
        invariant
            k <= order.len(),
            cells@.len() == orig.len(),
            is_permutation(indices(order@), orig.len()),
            out@.len() == k,
            forall|j: int| 0 <= j < k ==> out@[j] == orig[order@[j] as int],
            forall|c: int|
                0 <= c < cells@.len() ==> (#[trigger] cells@[c] == Some(orig[c]) || (cells@[c] is None
                    && exists|j: int| 0 <= j < k && order@[j] == c)),
        decreases order.len() - k,
    {
        assert(indices(order@)[k as int] == order@[k as int]);
        let idx = order[k];
        let taken = cells[idx].take();
        match taken {
            Some(x) => {
                out.push(x);
            },
            None => {
                proof {
                    let j = choose|j: int| 0 <= j < k && order@[j] == idx;
                    assert(indices(order@)[j] != indices(order@)[k as int]);
                }
                assert(false);
            },
        }
        k += 1;
    }
    assert(out@ =~= arranged(orig, indices(order@)));
    out
}

} // verus!
