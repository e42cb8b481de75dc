use crate::infinite_set::{advances, is_least, InfiniteSet};
use vstd::prelude::*;

verus! {

/// The smallest value of `s`, where `s` has one.
pub open spec fn least(s: Set<u128>) -> u128 {
    choose|x: u128| is_least(s, x)
}

/// The first `n` values that a sequence hands out, when the values it has still
/// to hand out are `s` (fewer where `s` runs out).
pub open spec fn draws(s: Set<u128>, n: nat) -> Seq<u128>
    decreases n,
{
    if n == 0 || s == Set::<u128>::empty() {
        Seq::empty()
    } else {
        seq![least(s)] + draws(s.remove(least(s)), (n - 1) as nat)
    }
}

/// A nonempty set of `u128` values has a smallest one.
pub proof fn lemma_least_exists(s: Set<u128>, x: u128)
    requires
        s.contains(x),
    ensures
        is_least(s, least(s)),
    decreases x,
{
    if exists|y: u128| s.contains(y) && y < x {
        let y = choose|y: u128| s.contains(y) && y < x;
        lemma_least_exists(s, y);
    } else {
        assert(is_least(s, x));
    }
}

/// A set other than the empty one holds a value.
proof fn lemma_nonempty(s: Set<u128>)
    requires
        s != Set::<u128>::empty(),
    ensures
        exists|x: u128| s.contains(x),
{
    if !exists|x: u128| s.contains(x) {
        assert(s =~= Set::<u128>::empty());
    }
}

/// One call of `next` hands out the first of the values `draws` lists, and the
/// rest are what the sequence then has still to hand out: `n + 1` calls in a row
/// hand out `draws(s, n + 1)`.
pub proof fn lemma_next_draws(s: Set<u128>, r: Option<u128>, t: Set<u128>, n: nat)
    requires
        advances(s, r, t),
    ensures
        match r {
            Some(x) => draws(s, n + 1) == seq![x] + draws(t, n),
            None => draws(s, n + 1) == Seq::<u128>::empty(),
        },
{
    if let Some(x) = r {
        lemma_least_exists(s, x);
        assert(least(s) == x);
    }
}

/// Every value that `draws` lists is one of `s`.
pub proof fn lemma_draws_within(s: Set<u128>, n: nat)
    ensures
        forall|i: int| 0 <= i < draws(s, n).len() ==> s.contains(#[trigger] draws(s, n)[i]),
    decreases n,
{
    if n > 0 && s != Set::<u128>::empty() {
        lemma_nonempty(s);
        let x = choose|x: u128| s.contains(x);
        lemma_least_exists(s, x);
        let m = least(s);
        lemma_draws_within(s.remove(m), (n - 1) as nat);
        assert forall|i: int| 0 <= i < draws(s, n).len() implies s.contains(
            #[trigger] draws(s, n)[i],
        ) by {
            if i > 0 {
                assert(draws(s, n)[i] == draws(s.remove(m), (n - 1) as nat)[i - 1]);
            }
        }
    }
}

/// The values a sequence hands out strictly increase: none comes twice and none
/// comes after a larger one.
pub proof fn lemma_draws_increase(s: Set<u128>, n: nat)
    ensures
        forall|i: int, j: int|
            0 <= i < j < draws(s, n).len() ==> #[trigger] draws(s, n)[i] < #[trigger] draws(s, n)[j],
    decreases n,
{
    if n > 0 && s != Set::<u128>::empty() {
        lemma_nonempty(s);
        let x = choose|x: u128| s.contains(x);
        lemma_least_exists(s, x);
        let m = least(s);
        let rest = draws(s.remove(m), (n - 1) as nat);
        lemma_draws_increase(s.remove(m), (n - 1) as nat);
        lemma_draws_within(s.remove(m), (n - 1) as nat);
        assert forall|i: int, j: int| 0 <= i < j < draws(s, n).len() implies #[trigger] draws(
            s,
            n,
        )[i] < #[trigger] draws(s, n)[j] by {
            assert(draws(s, n)[j] == rest[j - 1]);
            if i > 0 {
                assert(draws(s, n)[i] == rest[i - 1]);
            } else {
                assert(s.remove(m).contains(rest[j - 1]));
            }
        }
    }
}

/// The union of `a` and `b` hands out strictly increasing values, and each of
/// them is a member of `a` or of `b`.
pub proof fn lemma_union_draws<A: InfiniteSet, B: InfiniteSet>(a: A, b: B, n: nat)
    requires
        a.wf(),
        b.wf(),
    ensures
        forall|i: int, j: int|
            0 <= i < j < draws(a.ahead() + b.ahead(), n).len() ==> #[trigger] draws(
                a.ahead() + b.ahead(),
                n,
            )[i] < #[trigger] draws(a.ahead() + b.ahead(), n)[j],
        forall|i: int|
            0 <= i < draws(a.ahead() + b.ahead(), n).len() ==> a.members().contains(
                #[trigger] draws(a.ahead() + b.ahead(), n)[i],
            ) || b.members().contains(draws(a.ahead() + b.ahead(), n)[i]),
{
    a.lemma_ahead_members();
    b.lemma_ahead_members();
    lemma_draws_increase(a.ahead() + b.ahead(), n);
    lemma_draws_within(a.ahead() + b.ahead(), n);
}

/// Each value that the intersection of `a` and `b` hands out is a member of both.
pub proof fn lemma_intersection_draws<A: InfiniteSet, B: InfiniteSet>(a: A, b: B, n: nat)
    requires
        a.wf(),
        b.wf(),
    ensures
        forall|i: int|
            0 <= i < draws(a.ahead().intersect(b.members()), n).len() ==> a.members().contains(
                #[trigger] draws(a.ahead().intersect(b.members()), n)[i],
            ) && b.members().contains(draws(a.ahead().intersect(b.members()), n)[i]),
{
    a.lemma_ahead_members();
    lemma_draws_within(a.ahead().intersect(b.members()), n);
}

/// Whatever a sequence hands out is a member of it; since `next` leaves the
/// members as they are, `contains` answers `true` for such a value before and
/// after it comes out.
pub proof fn lemma_draws_are_members<P: InfiniteSet>(p: P, n: nat)
    requires
        p.wf(),
    ensures
        forall|i: int|
            0 <= i < draws(p.ahead(), n).len() ==> p.members().contains(
                #[trigger] draws(p.ahead(), n)[i],
            ),
{
    p.lemma_ahead_members();
    lemma_draws_within(p.ahead(), n);
}

/// The union of `a` and `b` and the union of `b` and `a` have the same members
/// and hand out the same values in the same order.
pub proof fn lemma_union_commutes<A: InfiniteSet, B: InfiniteSet>(a: A, b: B, n: nat)
    requires
        a.wf(),
        b.wf(),
    ensures
        a.members() + b.members() == b.members() + a.members(),
        draws(a.ahead() + b.ahead(), n) == draws(b.ahead() + a.ahead(), n),
{
    assert(a.members() + b.members() =~= b.members() + a.members());
    assert(a.ahead() + b.ahead() =~= b.ahead() + a.ahead());
}

} // verus!
