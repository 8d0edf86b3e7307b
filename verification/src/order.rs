//! A stable sort by a pair of numbers.
use std::ops::Range;
use vstd::prelude::*;

verus! {

/// A value that is ordered by a pair of numbers.
pub trait Keyed: Sized {
    spec fn key(&self) -> (int, int);

    /// Whether `self` comes before `other`.
    fn is_before(&self, other: &Self) -> (r: bool)
        ensures
            r == before(self.key(), other.key()),
    ;
}

/// The lexicographic order of pairs.
pub open spec fn before(a: (int, int), b: (int, int)) -> bool {
    a.0 < b.0 || (a.0 == b.0 && a.1 < b.1)
}

impl Keyed for Range<usize> {
    open spec fn key(&self) -> (int, int) {
        (self.start as int, self.end as int)
    }

    fn is_before(&self, other: &Self) -> (r: bool) {
        self.start < other.start || (self.start == other.start && self.end < other.end)
    }
}

impl Keyed for Range<u32> {
    open spec fn key(&self) -> (int, int) {
        (self.start as int, self.end as int)
    }

    fn is_before(&self, other: &Self) -> (r: bool) {
        self.start < other.start || (self.start == other.start && self.end < other.end)
    }
}

/// `s` with `x` behind every value that does not come after it.
pub open spec fn inserted<T: Keyed>(s: Seq<T>, x: T) -> Seq<T>
    decreases s.len(),
{
    if s.len() > 0 && before(x.key(), s.last().key()) {
        inserted(s.drop_last(), x).push(s.last())
    } else {
        s.push(x)
    }
}

/// `s` in order; values with one key stay in the order in which `s` has them.
pub open spec fn sorted<T: Keyed>(s: Seq<T>) -> Seq<T>
    decreases s.len(),
{
    if s.len() == 0 {
        s
    } else {
        inserted(sorted(s.drop_last()), s.last())
    }
}

/// No value of `s` comes before one to its left.
pub open spec fn is_ordered<T: Keyed>(s: Seq<T>) -> bool {
    forall|i: int, j: int| 0 <= i < j < s.len() ==> !before((#[trigger] s[j]).key(), (#[trigger] s[i]).key())
}

proof fn lemma_inserted<T: Keyed>(s: Seq<T>, x: T)
    ensures
        inserted(s, x).len() == s.len() + 1,
        inserted(s, x).to_multiset() == s.to_multiset().insert(x),
        is_ordered(s) ==> is_ordered(inserted(s, x)),
    decreases s.len(),
{
    broadcast use vstd::seq_lib::group_to_multiset_ensures;

    if s.len() > 0 && before(x.key(), s.last().key()) {
        let init = s.drop_last();
        lemma_inserted(init, x);
        let r = inserted(init, x);
        assert(init.push(s.last()) =~= s);
        assert(r.push(s.last()).to_multiset() =~= s.to_multiset().insert(x));
        if is_ordered(s) {
            assert(is_ordered(init));
            assert forall|i: int| 0 <= i < r.len() implies !before(
                s.last().key(),
                (#[trigger] r[i]).key(),
            ) by {
                assert(r.to_multiset().contains(r[i]));
                assert(init.to_multiset().insert(x).contains(r[i]));
                if r[i] != x {
                    assert(init.to_multiset().contains(r[i]));
                    assert(init.contains(r[i]));
                    let k = choose|k: int| 0 <= k < init.len() && init[k] == r[i];
                    assert(s[k] == r[i] && s[s.len() - 1] == s.last());
                }
            }
        }
    } else if is_ordered(s) {
        assert forall|i: int| 0 <= i < s.len() implies !before(
            x.key(),
            (#[trigger] s[i]).key(),
        ) by {
            assert(s[s.len() - 1] == s.last());
            if i < s.len() - 1 {
                assert(!before(s[s.len() - 1].key(), s[i].key()));
            }
        }
    }
}

/// A sorted list is in order and holds what the list held.
pub proof fn lemma_sorted<T: Keyed>(s: Seq<T>)
    ensures
        sorted(s).len() == s.len(),
        sorted(s).to_multiset() == s.to_multiset(),
        is_ordered(sorted(s)),
    decreases s.len(),
{
    broadcast use vstd::seq_lib::group_to_multiset_ensures;

    if s.len() > 0 {
        lemma_sorted(s.drop_last());
        lemma_inserted(sorted(s.drop_last()), s.last());
        assert(s.drop_last().push(s.last()) =~= s);
    }
}

/// A list in order is its own sorted list.
pub proof fn lemma_sorted_of_ordered<T: Keyed>(s: Seq<T>)
    requires
        is_ordered(s),
    ensures
        sorted(s) == s,
    decreases s.len(),
{
    if s.len() > 0 {
        let init = s.drop_last();
        assert forall|i: int, j: int| 0 <= i < j < init.len() implies !before(
            (#[trigger] init[j]).key(),
            (#[trigger] init[i]).key(),
        ) by {
            assert(s[i] == init[i] && s[j] == init[j]);
        }
        lemma_sorted_of_ordered(init);
        if init.len() > 0 {
            assert(!before(s[s.len() - 1].key(), s[s.len() - 2].key()));
        }
        assert(init.push(s.last()) =~= s);
    }
}

/// Inserts `x` into a list in order: see [`inserted`].
fn insert<T: Keyed>(v: &mut Vec<T>, x: T)
    ensures
        final(v)@ == inserted(old(v)@, x),
{
    let mut i: usize = v.len();
    assert(inserted(v@, x) =~= inserted(v@.take(i as int), x) + v@.skip(i as int)) by {
        assert(v@.take(v@.len() as int) =~= v@);
    }
    while i > 0 && x.is_before(&v[i - 1])
        invariant
            i <= v@.len(),
            inserted(v@, x) == inserted(v@.take(i as int), x) + v@.skip(i as int),
        decreases i,
    {
        proof {
            let head = v@.take(i as int);
            assert(head.drop_last() =~= v@.take(i - 1));
            assert(head.last() == v@[i - 1]);
            assert(inserted(v@.take(i - 1), x).push(v@[i - 1]) + v@.skip(i as int) =~= inserted(
                v@.take(i - 1),
                x,
            ) + v@.skip(i - 1));
        }
        i -= 1;
    }
    proof {
        let head = v@.take(i as int);
        if i > 0 {
            assert(head.last() == v@[i - 1]);
        }
        assert(inserted(head, x) == head.push(x));
        assert(v@.insert(i as int, x) =~= head.push(x) + v@.skip(i as int));
    }
    v.insert(i, x);
}

/// Sorts a list: see [`sorted`].
pub fn sort<T: Keyed>(v: Vec<T>) -> (r: Vec<T>)
    ensures
        r@ == sorted(v@),
{
    let mut r: Vec<T> = Vec::new();
    let ghost all = v@;
    assert(all.take(0) =~= Seq::<T>::empty());
    for x in iter: v
        invariant
            iter.seq() == all,
            r@ == sorted(all.take(iter.index())),
    {
        insert(&mut r, x);
        proof {
            let n = iter.index();
            assert(all.take(n + 1).drop_last() =~= all.take(n));
            assert(all.take(n + 1).last() == all[n]);
        }
    }
    assert(all.take(all.len() as int) =~= all);
    r
}

/// A collection of ranges has one order.
pub proof fn lemma_order_is_unique(x: Seq<Range<usize>>, y: Seq<Range<usize>>)
    requires
        is_ordered(x),
        is_ordered(y),
        x.to_multiset() == y.to_multiset(),
    ensures
        x == y,
{
    let leq = |a: Range<usize>, b: Range<usize>| !before(b.key(), a.key());
    vstd::seq_lib::lemma_sorted_unique(x, y, leq);
}

} // verus!
