//! Putting rows in order and choosing the ones to show.

use vstd::prelude::*;

verus! {

/// What has a place in a list: the rank with the smaller first number, then the smaller
/// second number, comes first.
pub trait Ranked: Sized {
    spec fn rank(&self) -> (int, int);

    fn goes_before(&self, other: &Self) -> (r: bool)
        ensures
            r == precedes(self.rank(), other.rank()),
    ;
}

/// A rank is strictly in front of another.
pub open spec fn precedes(a: (int, int), b: (int, int)) -> bool {
    a.0 < b.0 || (a.0 == b.0 && a.1 < b.1)
}

/// No item stands behind one that it should precede.
pub open spec fn is_ranked<T: Ranked>(items: Seq<T>) -> bool {
    forall|i: int, j: int|
        0 <= i < j < items.len() ==> !precedes(#[trigger] items[j].rank(), #[trigger] items[i].rank())
}

/// The items of one rank, in their order.
pub open spec fn at_rank<T: Ranked>(items: Seq<T>, rank: (int, int)) -> Seq<T> {
    items.filter(|x: T| x.rank() == rank)
}

/// `after` is `before` put in order: ranked, and with the items of each rank kept as they were.
pub open spec fn is_ordering_of<T: Ranked>(before: Seq<T>, after: Seq<T>) -> bool {
    &&& is_ranked(after)
    &&& forall|rank: (int, int)| #[trigger] at_rank(after, rank) == at_rank(before, rank)
}

proof fn lemma_at_rank_sum<T: Ranked>(a: Seq<T>, b: Seq<T>, rank: (int, int))
    ensures
        at_rank(a + b, rank) == at_rank(a, rank) + at_rank(b, rank),
{
    Seq::filter_distributes_over_add(a, b, |x: T| x.rank() == rank);
}

proof fn lemma_at_rank_one<T: Ranked>(x: T, rank: (int, int))
    ensures
        at_rank(seq![x], rank) == (if x.rank() == rank {
            seq![x]
        } else {
            Seq::empty()
        }),
{
    let one = seq![x];
    let none = one.drop_last();
    lemma_at_rank_none(none, rank);
    reveal(Seq::filter);
    assert(one.last() == x);
    if x.rank() == rank {
        assert(at_rank(one, rank) =~= at_rank(none, rank).push(x));
    } else {
        assert(at_rank(one, rank) =~= at_rank(none, rank));
    }
}

proof fn lemma_at_rank_none<T: Ranked>(items: Seq<T>, rank: (int, int))
    requires
        forall|i: int| 0 <= i < items.len() ==> #[trigger] items[i].rank() != rank,
    ensures
        at_rank(items, rank).len() == 0,
    decreases items.len(),
{
    reveal(Seq::filter);
    if items.len() > 0 {
        assert(items[items.len() - 1].rank() != rank);
        let front = items.drop_last();
        assert forall|i: int| 0 <= i < front.len() implies #[trigger] front[i].rank() != rank by {
            assert(front[i] == items[i]);
        }
        lemma_at_rank_none(front, rank);
    }
}

/// Putting an item in front of the first one that does not precede it keeps things in order.
proof fn lemma_insert<T: Ranked>(before: Seq<T>, after: Seq<T>, x: T, at: int)
    requires
        is_ordering_of(before, after),
        0 <= at <= after.len(),
        forall|i: int| 0 <= i < at ==> precedes(#[trigger] after[i].rank(), x.rank()),
        at < after.len() ==> !precedes(after[at].rank(), x.rank()),
    ensures
        is_ordering_of(seq![x] + before, after.insert(at, x)),
{
    let (head, tail) = (after.take(at), after.skip(at));
    let longer = after.insert(at, x);
    assert(longer =~= head + (seq![x] + tail));
    assert(after =~= head + tail);
    assert forall|i: int, j: int| 0 <= i < j < longer.len() implies !precedes(
        #[trigger] longer[j].rank(),
        #[trigger] longer[i].rank(),
    ) by {
        let k = if j < at {
            j
        } else {
            j - 1
        };
        if i < at {
            assert(longer[i] == after[i]);
            if j != at {
                assert(longer[j] == after[k]);
            }
        } else if i == at {
            assert(longer[j] == after[k]);
            if k > at {
                assert(!precedes(after[k].rank(), after[at].rank()));
            }
        } else {
            assert(longer[i] == after[i - 1]);
            assert(longer[j] == after[k]);
        }
    }
    assert forall|rank: (int, int)| #[trigger]
        at_rank(longer, rank) == at_rank(seq![x] + before, rank) by {
        lemma_at_rank_sum(head, seq![x] + tail, rank);
        lemma_at_rank_sum(seq![x], tail, rank);
        lemma_at_rank_sum(head, tail, rank);
        lemma_at_rank_sum(seq![x], before, rank);
        lemma_at_rank_one(x, rank);
        assert(at_rank(after, rank) == at_rank(before, rank));
        if x.rank() == rank {
            assert forall|i: int| 0 <= i < head.len() implies #[trigger] head[i].rank() != rank by {
                assert(head[i] == after[i]);
            }
            lemma_at_rank_none(head, rank);
            assert(at_rank(longer, rank) =~= seq![x] + at_rank(tail, rank));
            assert(at_rank(after, rank) =~= at_rank(tail, rank));
        } else {
            assert(at_rank(longer, rank) =~= at_rank(head, rank) + at_rank(tail, rank));
            assert(at_rank(seq![x] + before, rank) =~= at_rank(before, rank));
        }
    }
}

/// Puts items in order, those of the same rank as they were.
pub fn in_order<T: Ranked>(items: Vec<T>) -> (r: Vec<T>)
    ensures
        is_ordering_of(items@, r@),
        r@.len() == items@.len(),
{
    let ghost all = items@;
    let mut left = items;
    let mut out: Vec<T> = Vec::new();
    assert(all.skip(all.len() as int) =~= Seq::<T>::empty());
    loop
        invariant
            left@.len() <= all.len(),
            left@ == all.take(left@.len() as int),
            is_ordering_of(all.skip(left@.len() as int), out@),
            out@.len() + left@.len() == all.len(),
        ensures
            left@.len() == 0,
        decreases left@.len(),
    {
        let ghost n = left@.len() as int;
        match left.pop() {
            None => {
                break;
            },
            Some(x) => {
                let mut at: usize = 0;
                while at < out.len() && out[at].goes_before(&x)
                    invariant
                        at <= out@.len(),
                        forall|i: int| 0 <= i < at ==> precedes(#[trigger] out@[i].rank(), x.rank()),
                    ensures
                        at <= out@.len(),
                        forall|i: int| 0 <= i < at ==> precedes(#[trigger] out@[i].rank(), x.rank()),
                        at < out@.len() ==> !precedes(out@[at as int].rank(), x.rank()),
                    decreases out@.len() - at,
                {
                    at = at + 1;
                }
                proof {
                    lemma_insert(all.skip(n), out@, x, at as int);
                    assert(all.skip(n - 1) =~= seq![x] + all.skip(n));
                }
                out.insert(at, x);
            },
        }
    }
    assert(all.skip(0) =~= all);
    out
}

/// How many of `len` rows are shown when `topn` are asked for.
pub open spec fn shown(topn: usize, len: nat) -> nat {
    if topn == 0 || topn >= len {
        len
    } else {
        topn as nat
    }
}

/// Counts the rows to show.
pub fn shown_count(topn: usize, len: usize) -> (r: usize)
    ensures
        r == shown(topn, len as nat),
{
    if topn == 0 || topn >= len {
        len
    } else {
        topn
    }
}

proof fn lemma_count_at_rank<T: Ranked>(items: Seq<T>, x: T)
    ensures
        items.to_multiset().count(x) == at_rank(items, x.rank()).to_multiset().count(x),
    decreases items.len(),
{
    reveal(Seq::filter);
    items.to_multiset_ensures();
    if items.len() > 0 {
        let front = items.drop_last();
        let y = items.last();
        lemma_count_at_rank(front, x);
        front.to_multiset_ensures();
        at_rank(front, x.rank()).to_multiset_ensures();
        assert(items =~= front.push(y));
        if y.rank() == x.rank() {
            assert(at_rank(items, x.rank()) =~= at_rank(front, x.rank()).push(y));
        } else {
            assert(at_rank(items, x.rank()) =~= at_rank(front, x.rank()));
        }
    } else {
        assert(at_rank(items, x.rank()) =~= items);
    }
}

/// Putting items in order neither drops, adds nor changes any.
pub proof fn law_ordering_keeps_the_items<T: Ranked>(before: Seq<T>, after: Seq<T>)
    requires
        is_ordering_of(before, after),
    ensures
        after.to_multiset() == before.to_multiset(),
        after.len() == before.len(),
{
    assert forall|x: T| #[trigger]
        after.to_multiset().count(x) == before.to_multiset().count(x) by {
        lemma_count_at_rank(before, x);
        lemma_count_at_rank(after, x);
        assert(at_rank(after, x.rank()) == at_rank(before, x.rank()));
    }
    assert(after.to_multiset() =~= before.to_multiset());
    before.to_multiset_ensures();
    after.to_multiset_ensures();
}

proof fn lemma_at_rank_first<T: Ranked>(items: Seq<T>, rank: (int, int))
    requires
        items.len() > 0,
    ensures
        at_rank(items, rank) == (if items[0].rank() == rank {
            seq![items[0]]
        } else {
            Seq::empty()
        }) + at_rank(items.drop_first(), rank),
{
    assert(items =~= seq![items[0]] + items.drop_first());
    lemma_at_rank_sum(seq![items[0]], items.drop_first(), rank);
    lemma_at_rank_one(items[0], rank);
}

proof fn lemma_ranked_head<T: Ranked>(items: Seq<T>, rank: (int, int))
    requires
        is_ranked(items),
        at_rank(items, rank).len() > 0,
    ensures
        items.len() > 0,
        !precedes(rank, items[0].rank()),
{
    if items.len() == 0 || precedes(rank, items[0].rank()) {
        assert forall|i: int| 0 <= i < items.len() implies #[trigger] items[i].rank() != rank by {
            if i > 0 {
                assert(!precedes(items[i].rank(), items[0].rank()));
            }
        }
        lemma_at_rank_none(items, rank);
    }
}

proof fn lemma_ranked_unique<T: Ranked>(a: Seq<T>, b: Seq<T>)
    requires
        is_ranked(a),
        is_ranked(b),
        forall|rank: (int, int)| #[trigger] at_rank(a, rank) == at_rank(b, rank),
    ensures
        a == b,
    decreases a.len(),
{
    if a.len() == 0 {
        if b.len() > 0 {
            lemma_at_rank_first(b, b[0].rank());
            assert(at_rank(a, b[0].rank()) == at_rank(b, b[0].rank()));
            lemma_ranked_head(a, b[0].rank());
        }
        assert(a =~= b);
    } else {
        let k = a[0].rank();
        lemma_at_rank_first(a, k);
        assert(at_rank(a, k) == at_rank(b, k));
        lemma_ranked_head(b, k);
        let l = b[0].rank();
        lemma_at_rank_first(b, l);
        assert(at_rank(a, l) == at_rank(b, l));
        lemma_ranked_head(a, l);
        assert(k == l);
        lemma_at_rank_first(b, k);
        assert(a[0] == at_rank(a, k)[0]);
        assert(b[0] == at_rank(b, k)[0]);
        let (c, d) = (a.drop_first(), b.drop_first());
        assert forall|rank: (int, int)| #[trigger] at_rank(c, rank) == at_rank(d, rank) by {
            lemma_at_rank_first(a, rank);
            lemma_at_rank_first(b, rank);
            assert(at_rank(a, rank) == at_rank(b, rank));
            let n = at_rank(a, rank).len() - at_rank(c, rank).len();
            assert(at_rank(c, rank) =~= at_rank(a, rank).skip(n));
            assert(at_rank(d, rank) =~= at_rank(b, rank).skip(n));
        }
        assert(is_ranked(c)) by {
            assert forall|i: int, j: int| 0 <= i < j < c.len() implies !precedes(
                #[trigger] c[j].rank(),
                #[trigger] c[i].rank(),
            ) by {
                assert(!precedes(a[j + 1].rank(), a[i + 1].rank()));
            }
        }
        assert(is_ranked(d)) by {
            assert forall|i: int, j: int| 0 <= i < j < d.len() implies !precedes(
                #[trigger] d[j].rank(),
                #[trigger] d[i].rank(),
            ) by {
                assert(!precedes(b[j + 1].rank(), b[i + 1].rank()));
            }
        }
        lemma_ranked_unique(c, d);
        assert(a =~= seq![a[0]] + c);
        assert(b =~= seq![b[0]] + d);
    }
}

/// Changing items without changing their ranks leaves them in order.
pub(crate) proof fn lemma_ordering_mapped<T: Ranked>(
    before: Seq<T>,
    after: Seq<T>,
    f: spec_fn(T) -> T,
)
    requires
        is_ordering_of(before, after),
        forall|x: T| (#[trigger] f(x)).rank() == x.rank(),
    ensures
        is_ordering_of(before.map_values(f), after.map_values(f)),
{
    let (a, b) = (before.map_values(f), after.map_values(f));
    assert forall|i: int, j: int| 0 <= i < j < b.len() implies !precedes(
        #[trigger] b[j].rank(),
        #[trigger] b[i].rank(),
    ) by {
        assert(b[j] == f(after[j]) && b[i] == f(after[i]));
        assert(!precedes(after[j].rank(), after[i].rank()));
    }
    assert forall|rank: (int, int)| #[trigger] at_rank(b, rank) == at_rank(a, rank) by {
        lemma_at_rank_mapped(before, f, rank);
        lemma_at_rank_mapped(after, f, rank);
        assert(at_rank(after, rank) == at_rank(before, rank));
    }
}

proof fn lemma_at_rank_mapped<T: Ranked>(items: Seq<T>, f: spec_fn(T) -> T, rank: (int, int))
    requires
        forall|x: T| (#[trigger] f(x)).rank() == x.rank(),
    ensures
        at_rank(items.map_values(f), rank) == at_rank(items, rank).map_values(f),
    decreases items.len(),
{
    let mapped = items.map_values(f);
    if items.len() == 0 {
        lemma_at_rank_none(items, rank);
        lemma_at_rank_none(mapped, rank);
        assert(at_rank(mapped, rank) =~= at_rank(items, rank).map_values(f));
    } else {
        lemma_at_rank_first(items, rank);
        lemma_at_rank_first(mapped, rank);
        lemma_at_rank_mapped(items.drop_first(), f, rank);
        assert(mapped[0] == f(items[0]));
        assert(mapped.drop_first() =~= items.drop_first().map_values(f));
        assert(at_rank(mapped, rank) =~= at_rank(items, rank).map_values(f));
    }
}

/// There is only one way to put items in order.
pub proof fn law_ordering_is_unique<T: Ranked>(before: Seq<T>, a: Seq<T>, b: Seq<T>)
    requires
        is_ordering_of(before, a),
        is_ordering_of(before, b),
    ensures
        a == b,
{
    assert forall|rank: (int, int)| #[trigger] at_rank(a, rank) == at_rank(b, rank) by {
        assert(at_rank(a, rank) == at_rank(before, rank));
        assert(at_rank(b, rank) == at_rank(before, rank));
    }
    lemma_ranked_unique(a, b);
}

/// The one item of a rank, where no two have the same.
proof fn lemma_at_rank_single<T: Ranked>(items: Seq<T>, at: int)
    requires
        0 <= at < items.len(),
        forall|i: int| 0 <= i < items.len() && i != at ==> #[trigger] items[i].rank()
            != items[at].rank(),
    ensures
        at_rank(items, items[at].rank()) == seq![items[at]],
{
    let x = items[at];
    let (head, tail) = (items.take(at), items.skip(at + 1));
    assert(items =~= head + (seq![x] + tail));
    lemma_at_rank_sum(head, seq![x] + tail, x.rank());
    lemma_at_rank_sum(seq![x], tail, x.rank());
    lemma_at_rank_one(x, x.rank());
    assert forall|i: int| 0 <= i < head.len() implies #[trigger] head[i].rank() != x.rank() by {
        assert(head[i] == items[i]);
    }
    assert forall|i: int| 0 <= i < tail.len() implies #[trigger] tail[i].rank() != x.rank() by {
        assert(tail[i] == items[at + 1 + i]);
    }
    lemma_at_rank_none(head, x.rank());
    lemma_at_rank_none(tail, x.rank());
    assert(at_rank(items, x.rank()) =~= seq![x]);
}

/// Items of different ranks can be put in order in one way only, whichever way they are found.
pub proof fn law_distinct_ranks_fix_the_order<T: Ranked>(a: Seq<T>, b: Seq<T>)
    requires
        is_ranked(a),
        is_ranked(b),
        forall|i: int, j: int|
            0 <= i < j < a.len() ==> #[trigger] a[i].rank() != #[trigger] a[j].rank(),
        forall|i: int, j: int|
            0 <= i < j < b.len() ==> #[trigger] b[i].rank() != #[trigger] b[j].rank(),
        forall|x: T| #[trigger] a.contains(x) <==> b.contains(x),
    ensures
        a == b,
{
    assert forall|rank: (int, int)| #[trigger] at_rank(a, rank) == at_rank(b, rank) by {
        if exists|i: int| 0 <= i < a.len() && #[trigger] a[i].rank() == rank {
            let i = choose|i: int| 0 <= i < a.len() && #[trigger] a[i].rank() == rank;
            assert(a.contains(a[i]));
            assert(b.contains(a[i]));
            let j = choose|j: int| 0 <= j < b.len() && b[j] == a[i];
            lemma_at_rank_single(a, i);
            lemma_at_rank_single(b, j);
        } else {
            assert forall|j: int| 0 <= j < b.len() implies #[trigger] b[j].rank() != rank by {
                assert(b.contains(b[j]));
                assert(a.contains(b[j]));
                let i = choose|i: int| 0 <= i < a.len() && a[i] == b[j];
                assert(a[i].rank() == b[j].rank());
            }
            lemma_at_rank_none(a, rank);
            lemma_at_rank_none(b, rank);
            assert(at_rank(a, rank) =~= at_rank(b, rank));
        }
    }
    lemma_ranked_unique(a, b);
}

/// No row that is left out should come before one that is shown; all are shown if none is
/// asked for in particular.
pub proof fn law_shown_rows_come_first<T: Ranked>(items: Seq<T>, topn: usize, i: int, j: int)
    requires
        is_ranked(items),
        0 <= i < shown(topn, items.len()) <= j < items.len(),
    ensures
        !precedes(items[j].rank(), items[i].rank()),
        topn > 0,
        shown(topn, items.len()) == topn,
{
}

/// `pids` without repetitions, each where it comes first.
pub open spec fn firsts(pids: Seq<i32>) -> Seq<i32>
    decreases pids.len(),
{
    if pids.len() == 0 {
        Seq::empty()
    } else {
        let front = firsts(pids.drop_last());
        if front.contains(pids.last()) {
            front
        } else {
            front.push(pids.last())
        }
    }
}

/// Leaving out repetitions keeps every number, and each just once.
pub proof fn law_firsts_are_distinct(pids: Seq<i32>)
    ensures
        firsts(pids).no_duplicates(),
        forall|pid: i32| #[trigger] firsts(pids).contains(pid) <==> pids.contains(pid),
    decreases pids.len(),
{
    if pids.len() > 0 {
        let front = pids.drop_last();
        let last = pids.last();
        law_firsts_are_distinct(front);
        assert forall|pid: i32| #[trigger] firsts(pids).contains(pid) <==> pids.contains(pid) by {
            assert(pids =~= front.push(last));
            if pids.contains(pid) && pid != last {
                let i = choose|i: int| 0 <= i < pids.len() && pids[i] == pid;
                assert(front[i] == pid);
            }
            if front.contains(pid) {
                let i = choose|i: int| 0 <= i < front.len() && front[i] == pid;
                assert(pids[i] == pid);
            }
            assert(pids[pids.len() - 1] == last);
            if !firsts(front).contains(last) {
                let longer = firsts(front).push(last);
                assert(longer[longer.len() - 1] == last);
                if firsts(front).contains(pid) {
                    let i = choose|i: int| 0 <= i < firsts(front).len() && firsts(front)[i] == pid;
                    assert(longer[i] == pid);
                }
                if longer.contains(pid) && pid != last {
                    let i = choose|i: int| 0 <= i < longer.len() && longer[i] == pid;
                    assert(firsts(front)[i] == pid);
                }
            }
        }
    }
}

/// Leaves out repetitions.
pub(crate) fn distinct(pids: &Vec<i32>) -> (r: Vec<i32>)
    ensures
        r@ == firsts(pids@),
{
    let mut out: Vec<i32> = Vec::new();
    let mut i: usize = 0;
    assert(pids@.take(0) =~= Seq::<i32>::empty());
    while i < pids.len()
        invariant
            i <= pids@.len(),
            out@ == firsts(pids@.take(i as int)),
        decreases pids@.len() - i,
    {
        assert(pids@.take(i + 1).drop_last() =~= pids@.take(i as int));
        let pid: i32 = pids[i];
        let mut k: usize = 0;
        while k < out.len() && out[k] != pid
            invariant
                k <= out@.len(),
                forall|j: int| 0 <= j < k ==> out@[j] != pid,
            ensures
                k <= out@.len(),
                forall|j: int| 0 <= j < k ==> out@[j] != pid,
                k < out@.len() ==> out@[k as int] == pid,
            decreases out@.len() - k,
        {
            k = k + 1;
        }
        if k == out.len() {
            out.push(pid);
        }
        i = i + 1;
    }
    assert(pids@.take(pids@.len() as int) =~= pids@);
    out
}

} // verus!
