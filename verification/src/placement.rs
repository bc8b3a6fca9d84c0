//! Lists of things that begin at an address, in the order of their addresses.

use vstd::prelude::*;

verus! {

/// What begins at an address.
pub trait Placed: Sized {
    /// The address.
    spec fn start(&self) -> u64;
}

/// What begins at an address that can be asked for.
pub trait HasStart: Placed {
    /// The address.
    fn get_start(&self) -> (r: u64)
        ensures
            r == self.start(),
    ;
}

/// Whether the addresses do not fall.
pub open spec fn starts_rise<T: Placed>(s: Seq<T>) -> bool {
    forall|i: int, j: int|
        #![trigger s[i], s[j]]
        0 <= i <= j < s.len() ==> s[i].start() <= s[j].start()
}

/// How many of the first `n` items of `s` stay before an item that begins at `start`: all up to
/// the last that does not begin behind it.
pub open spec fn place_of<T: Placed>(s: Seq<T>, n: nat, start: u64) -> nat
    decreases n,
{
    if n == 0 || s[n - 1].start() <= start {
        n
    } else {
        place_of(s, (n - 1) as nat, start)
    }
}

/// The items of `s` in the order of their addresses. Items with one address keep their order.
pub open spec fn in_order<T: Placed>(s: Seq<T>) -> Seq<T>
    decreases s.len(),
{
    if s.len() == 0 {
        s
    } else {
        let rest = in_order(s.drop_last());
        rest.insert(place_of(rest, rest.len(), s.last().start()) as int, s.last())
    }
}

proof fn lemma_place_of<T: Placed>(s: Seq<T>, n: nat, start: u64)
    requires
        n <= s.len(),
    ensures
        place_of(s, n, start) <= n,
        place_of(s, n, start) > 0 ==> s[place_of(s, n, start) - 1].start() <= start,
        forall|k: int| place_of(s, n, start) <= k < n ==> (#[trigger] s[k]).start() > start,
    decreases n,
{
    if n > 0 && s[n - 1].start() > start {
        lemma_place_of(s, (n - 1) as nat, start);
    }
}

/// Ordering a list keeps all its items and no more, and their addresses do not fall.
pub proof fn in_order_is_sorted<T: Placed>(s: Seq<T>)
    ensures
        in_order(s).len() == s.len(),
        in_order(s).to_multiset() == s.to_multiset(),
        starts_rise(in_order(s)),
    decreases s.len(),
{
    if s.len() > 0 {
        let rest = in_order(s.drop_last());
        let x = s.last();
        let p = place_of(rest, rest.len(), x.start()) as int;
        in_order_is_sorted(s.drop_last());
        lemma_place_of(rest, rest.len(), x.start());
        let all = rest.insert(p, x);
        assert forall|i: int, j: int|
            #![trigger all[i], all[j]]
            0 <= i <= j < all.len() implies all[i].start() <= all[j].start() by {
            let a = if i < p {
                i
            } else {
                i - 1
            };
            let b = if j < p {
                j
            } else {
                j - 1
            };
            if i != p {
                assert(all[i] == rest[a]);
            }
            if j != p {
                assert(all[j] == rest[b]);
            }
            if i < p && j == p {
                assert(rest[i].start() <= rest[p - 1].start());
            }
        }
        broadcast use vstd::seq_lib::group_to_multiset_ensures;

        assert(s =~= s.drop_last().push(x));
        assert(rest.insert(p, x).to_multiset() =~= rest.to_multiset().insert(x));
    }
}

/// Whether an item begins at `start`.
pub open spec fn begins_at<T: Placed>(start: u64) -> spec_fn(T) -> bool {
    |x: T| x.start() == start
}

/// The items of `s` that begin at `start`.
pub open spec fn at_start<T: Placed>(s: Seq<T>, start: u64) -> Seq<T> {
    s.filter(begins_at(start))
}

proof fn lemma_none_at_start<T: Placed>(s: Seq<T>, start: u64)
    requires
        forall|k: int| 0 <= k < s.len() ==> (#[trigger] s[k]).start() != start,
    ensures
        at_start(s, start) == Seq::<T>::empty(),
    decreases s.len(),
{
    reveal(Seq::filter);
    if s.len() > 0 {
        assert(s[s.len() - 1].start() != start);
        lemma_none_at_start(s.drop_last(), start);
    }
}

/// Items with one address keep their order.
pub proof fn in_order_is_stable<T: Placed>(s: Seq<T>, start: u64)
    ensures
        at_start(in_order(s), start) == at_start(s, start),
    decreases s.len(),
{
    if s.len() > 0 {
        let f = begins_at::<T>(start);
        let rest = in_order(s.drop_last());
        let x = s.last();
        let p = place_of(rest, rest.len(), x.start()) as int;
        let all = rest.insert(p, x);
        in_order_is_stable(s.drop_last(), start);
        lemma_place_of(rest, rest.len(), x.start());
        let one = seq![x];
        assert(all =~= rest.take(p) + one + rest.skip(p));
        assert(rest =~= rest.take(p) + rest.skip(p));
        assert(s =~= s.drop_last() + one);
        Seq::filter_distributes_over_add(rest.take(p) + one, rest.skip(p), f);
        Seq::filter_distributes_over_add(rest.take(p), one, f);
        Seq::filter_distributes_over_add(rest.take(p), rest.skip(p), f);
        Seq::filter_distributes_over_add(s.drop_last(), one, f);
        if x.start() == start {
            lemma_none_at_start(rest.skip(p), start);
            assert(all.filter(f) =~= rest.filter(f) + one.filter(f));
        } else {
            lemma_none_at_start(one, start);
            assert(all.filter(f) =~= rest.filter(f));
            assert(s.filter(f) =~= s.drop_last().filter(f));
        }
    }
}

proof fn lemma_place_of_mapped<A: Placed, B: Placed>(
    s: Seq<A>,
    f: spec_fn(A) -> B,
    n: nat,
    start: u64,
)
    requires
        n <= s.len(),
        forall|x: A| (#[trigger] f(x)).start() == x.start(),
    ensures
        place_of(s.map_values(f), n, start) == place_of(s, n, start),
    decreases n,
{
    if n > 0 && s[n - 1].start() > start {
        lemma_place_of_mapped(s, f, (n - 1) as nat, start);
    }
}

/// What is made of the items of a list one by one, keeping their addresses, comes out in the same
/// order.
pub proof fn in_order_of_mapped<A: Placed, B: Placed>(s: Seq<A>, f: spec_fn(A) -> B)
    requires
        forall|x: A| (#[trigger] f(x)).start() == x.start(),
    ensures
        in_order(s.map_values(f)) == in_order(s).map_values(f),
    decreases s.len(),
{
    if s.len() > 0 {
        in_order_of_mapped(s.drop_last(), f);
        assert(s.map_values(f).drop_last() =~= s.drop_last().map_values(f));
        let rest = in_order(s.drop_last());
        let start = s.last().start();
        lemma_place_of_mapped(rest, f, rest.len(), start);
        lemma_place_of(rest, rest.len(), start);
        assert(in_order(s.map_values(f)) =~= in_order(s).map_values(f));
    } else {
        assert(in_order(s.map_values(f)) =~= in_order(s).map_values(f));
    }
}

/// Adds an item to the ordered items of `seen`, where it belongs.
fn insert_in_order<T: HasStart>(items: &mut Vec<T>, item: T, Ghost(seen): Ghost<Seq<T>>)
    requires
        old(items)@ == in_order(seen),
    ensures
        final(items)@ == in_order(seen.push(item)),
{
    let mut n: usize = items.len();
    while n > 0 && items[n - 1].get_start() > item.get_start()
        invariant
            n <= items@.len(),
            items@ == in_order(seen),
            place_of(items@, items@.len(), item.start()) == place_of(
                items@,
                n as nat,
                item.start(),
            ),
        decreases n,
    {
        n = n - 1;
    }
    items.insert(n, item);
    assert(seen.push(item).drop_last() =~= seen);
}

/// The items in the order of their addresses.
pub fn sort_by_start<T: HasStart>(items: Vec<T>) -> (r: Vec<T>)
    ensures
        r@ == in_order(items@),
{
    let mut r: Vec<T> = Vec::new();
    let ghost all = items@;
    let mut items = items;
    let mut reversed: Vec<T> = Vec::new();
    while items.len() > 0
        invariant
            items@.len() <= all.len(),
            items@ == all.take(items@.len() as int),
            reversed@ == all.skip(items@.len() as int).reverse(),
        decreases items@.len(),
    {
        let ghost n = items@.len() - 1;
        match items.pop() {
            Some(x) => {
                reversed.push(x);
                assert(items@ =~= all.take(n));
                assert(reversed@ =~= all.skip(n).reverse());
            },
            None => {},
        }
    }
    assert(reversed@ =~= all.reverse());
    assert(all.take(0) =~= Seq::<T>::empty());
    while reversed.len() > 0
        invariant
            reversed@.len() <= all.len(),
            reversed@ == all.skip(all.len() - reversed@.len()).reverse(),
            r@ == in_order(all.take(all.len() - reversed@.len())),
        decreases reversed@.len(),
    {
        let ghost done = all.len() - reversed@.len();
        match reversed.pop() {
            Some(x) => {
                assert(x == all[done]);
                assert(reversed@ =~= all.skip(done + 1).reverse());
                assert(all.take(done).push(x) =~= all.take(done + 1));
                insert_in_order(&mut r, x, Ghost(all.take(done)));
            },
            None => {},
        }
    }
    assert(all.take(all.len() as int) =~= all);
    r
}

} // verus!
