use vstd::prelude::*;

verus! {

/// `x` is the smallest value of `s`.
pub open spec fn is_least(s: Set<u128>, x: u128) -> bool {
    s.contains(x) && forall|y: u128| #[trigger] s.contains(y) ==> x <= y
}

/// One step of an ordered lazy sequence whose values still to come were `before`:
/// it hands out the smallest of them and keeps the rest, or reports that none is left.
pub open spec fn advances(before: Set<u128>, r: Option<u128>, after: Set<u128>) -> bool {
    match r {
        Some(x) => is_least(before, x) && after == before.remove(x),
        None => before == Set::<u128>::empty() && after == before,
    }
}

/// An unbounded ordered set, walked lazily in increasing order.
///
/// `members` is the set that `contains` answers for; it does not change as the
/// sequence advances. `ahead` holds the values that `next` has yet to hand out:
/// each call hands out the smallest of them. Values are `u128`: a sequence that
/// reaches the top of that range reports `None` from then on.
pub trait InfiniteSet: Sized {
    spec fn members(&self) -> Set<u128>;

    spec fn ahead(&self) -> Set<u128>;

    spec fn wf(&self) -> bool;

    /// Every value still to come is a member.
    proof fn lemma_ahead_members(&self)
        requires
            self.wf(),
        ensures
            self.ahead().subset_of(self.members()),
    ;

    /// Whether `x` belongs to the set, wherever the sequence stands.
    fn contains(&self, x: &u128) -> (r: bool)
        requires
            self.wf(),
        ensures
            r == self.members().contains(*x),
    ;

    /// The next value of the sequence: the smallest one not yet handed out.
    fn next(&mut self) -> (r: Option<u128>)
        requires
            old(self).wf(),
        ensures
            final(self).wf(),
            final(self).members() == old(self).members(),
            advances(old(self).ahead(), r, final(self).ahead()),
    ;
}

/// The one value that `o` holds, or nothing.
pub open spec fn opt_set(o: Option<u128>) -> Set<u128> {
    match o {
        Some(x) => set![x],
        None => Set::<u128>::empty(),
    }
}

/// `head` was drawn from a source whose values still to come are `rest`: it lies
/// below all of them, and it is missing only once the source has run dry.
pub open spec fn heads(head: Option<u128>, rest: Set<u128>) -> bool {
    match head {
        Some(h) => forall|y: u128| #[trigger] rest.contains(y) ==> h < y,
        None => rest == Set::<u128>::empty(),
    }
}

/// A value drawn by one step, put back in front of what its source still holds,
/// gives what the source held before the step.
proof fn lemma_draw(before: Set<u128>, r: Option<u128>, after: Set<u128>, members: Set<u128>)
    requires
        advances(before, r, after),
        before.subset_of(members),
    ensures
        opt_set(r) + after == before,
        heads(r, after),
        opt_set(r).subset_of(members),
{
    assert(opt_set(r) + after =~= before);
}

/// The union of two ordered lazy sequences.
///
/// One value of each operand is held back (`first_next`, `second_next`) and the
/// value to hand out next is computed ahead of time (`next_value`): comparing two
/// freshly drawn values and dropping the larger would lose it.
pub struct InfiniteUnion<A, B> {
    first_set: A,
    second_set: B,
    first_next: Option<u128>,
    second_next: Option<u128>,
    /// The value the next call to `next` hands out.
    next_value: Option<u128>,
}

impl<A: InfiniteSet, B: InfiniteSet> InfiniteUnion<A, B> {
    /// The values the operands still owe the union, those held back included.
    spec fn pending(&self) -> Set<u128> {
        opt_set(self.first_next) + self.first_set.ahead() + opt_set(self.second_next)
            + self.second_set.ahead()
    }

    spec fn sources_wf(&self) -> bool {
        &&& self.first_set.wf()
        &&& self.second_set.wf()
        &&& heads(self.first_next, self.first_set.ahead())
        &&& heads(self.second_next, self.second_set.ahead())
        &&& opt_set(self.first_next).subset_of(self.first_set.members())
        &&& opt_set(self.second_next).subset_of(self.second_set.members())
    }

    /// Hands out the smaller of the two held-back values and draws its replacement.
    fn emit_smaller(&mut self) -> (r: Option<u128>)
        requires
            old(self).sources_wf(),
            old(self).first_next.is_none() || old(self).first_next != old(self).second_next,
        ensures
            final(self).sources_wf(),
            final(self).first_set.members() == old(self).first_set.members(),
            final(self).second_set.members() == old(self).second_set.members(),
            final(self).next_value == old(self).next_value,
            advances(old(self).pending(), r, final(self).pending()),
    {
        let ghost p0 = self.pending();
        let take_first = match (self.first_next, self.second_next) {
            (None, None) => {
                assert(p0 =~= Set::<u128>::empty());
                return None;
            },
            (Some(a), Some(b)) => a < b,
            (Some(_), None) => true,
            (None, Some(_)) => false,
        };
        if take_first {
            let a = self.first_next.unwrap();
            let ghost before = self.first_set.ahead();
            proof {
                self.first_set.lemma_ahead_members();
            }
            self.first_next = self.first_set.next();
            proof {
                lemma_draw(before, self.first_next, self.first_set.ahead(), self.first_set.members());
                assert(self.pending() =~= p0.remove(a));
            }
            Some(a)
        } else {
            let b = self.second_next.unwrap();
            let ghost before = self.second_set.ahead();
            proof {
                self.second_set.lemma_ahead_members();
            }
            self.second_next = self.second_set.next();
            proof {
                lemma_draw(before, self.second_next, self.second_set.ahead(), self.second_set.members());
                assert(self.pending() =~= p0.remove(b));
            }
            Some(b)
        }
    }

    /// The merge step. Where both held-back values are equal, the first one is
    /// dropped and replaced; its replacement is larger, so the two then differ and
    /// the smaller of them is handed out.
    fn merge(&mut self) -> (r: Option<u128>)
        requires
            old(self).sources_wf(),
        ensures
            final(self).sources_wf(),
            final(self).first_set.members() == old(self).first_set.members(),
            final(self).second_set.members() == old(self).second_set.members(),
            final(self).next_value == old(self).next_value,
            advances(old(self).pending(), r, final(self).pending()),
    {
        if self.first_next.is_some() && self.first_next == self.second_next {
            let ghost p0 = self.pending();
            let ghost before = self.first_set.ahead();
            proof {
                self.first_set.lemma_ahead_members();
            }
            self.first_next = self.first_set.next();
            proof {
                lemma_draw(before, self.first_next, self.first_set.ahead(), self.first_set.members());
                assert(self.pending() =~= p0);
            }
        }
        self.emit_smaller()
    }
}

impl<A: InfiniteSet, B: InfiniteSet> InfiniteUnion<A, B> {
    /// Builds the union of two sequences, taking both over. Its members are those
    /// of either operand, and it hands out, in increasing order and each once,
    /// every value that either operand still had to hand out.
    pub fn from_sets(first_set: A, second_set: B) -> (r: Self)
        requires
            first_set.wf(),
            second_set.wf(),
        ensures
            r.wf(),
            r.members() == first_set.members() + second_set.members(),
            r.ahead() == first_set.ahead() + second_set.ahead(),
    {
        let ghost all = first_set.ahead() + second_set.ahead();
        let mut first_set = first_set;
        let mut second_set = second_set;
        let ghost before = first_set.ahead();
        proof {
            first_set.lemma_ahead_members();
        }
        let first_next = first_set.next();
        proof {
            lemma_draw(before, first_next, first_set.ahead(), first_set.members());
        }
        let ghost before = second_set.ahead();
        proof {
            second_set.lemma_ahead_members();
        }
        let ghost m2 = second_set.members();
        let mut second_next = second_set.next();
        proof {
            lemma_draw(before, second_next, second_set.ahead(), second_set.members());
        }
        // a value that both operands hold is taken from the first one only
        while second_next.is_some() && second_next == first_next
            invariant
                second_set.wf(),
                second_set.members() == m2,
                heads(second_next, second_set.ahead()),
                opt_set(second_next).subset_of(second_set.members()),
                opt_set(first_next) + first_set.ahead() + opt_set(second_next) + second_set.ahead()
                    == all,
            decreases
                (if second_next.is_some() && second_next == first_next {
                    1int
                } else {
                    0int
                }),
        {
            let ghost p0 = opt_set(first_next) + first_set.ahead() + opt_set(second_next)
                + second_set.ahead();
            let ghost before = second_set.ahead();
            proof {
                second_set.lemma_ahead_members();
            }
            second_next = second_set.next();
            proof {
                lemma_draw(before, second_next, second_set.ahead(), second_set.members());
                assert(opt_set(first_next) + first_set.ahead() + opt_set(second_next)
                    + second_set.ahead() =~= p0);
            }
        }
        let mut r = InfiniteUnion { first_set, second_set, first_next, second_next, next_value: None };
        let next_value = r.merge();
        r.next_value = next_value;
        proof {
            lemma_draw(all, next_value, r.pending(), all);
        }
        r
    }
}

impl<A: InfiniteSet, B: InfiniteSet> InfiniteSet for InfiniteUnion<A, B> {
    closed spec fn members(&self) -> Set<u128> {
        self.first_set.members() + self.second_set.members()
    }

    closed spec fn ahead(&self) -> Set<u128> {
        opt_set(self.next_value) + self.pending()
    }

    closed spec fn wf(&self) -> bool {
        &&& self.sources_wf()
        &&& heads(self.next_value, self.pending())
        &&& opt_set(self.next_value).subset_of(self.members())
    }

    proof fn lemma_ahead_members(&self) {
        self.first_set.lemma_ahead_members();
        self.second_set.lemma_ahead_members();
    }

    fn contains(&self, x: &u128) -> (r: bool) {
        self.first_set.contains(x) || self.second_set.contains(x)
    }

    fn next(&mut self) -> (r: Option<u128>) {
        let ghost a0 = self.ahead();
        let ghost p0 = self.pending();
        let ghost m0 = self.members();
        proof {
            self.lemma_ahead_members();
        }
        let r = self.next_value;
        let next_value = self.merge();
        proof {
            lemma_draw(p0, next_value, self.pending(), m0);
            if let Some(v) = r {
                assert(a0.remove(v) =~= p0);
            } else {
                assert(a0 =~= p0);
            }
        }
        self.next_value = next_value;
        proof {
            assert(self.ahead() == p0);
        }
        r
    }
}

/// The intersection of two ordered lazy sequences.
///
/// It walks the first operand and keeps the values that the second one contains.
/// Where the two share no value beyond the first operand's position, `next` walks
/// the whole remaining range of `u128` before it reports that none is left; for a
/// bounded search see `next_within`.
pub struct InfiniteIntersection<A, B> {
    first: A,
    second: B,
}

impl<A: InfiniteSet, B: InfiniteSet> InfiniteIntersection<A, B> {
    /// Builds the intersection of two sequences, taking both over. Its members are
    /// those of both operands; it hands out, in increasing order, the values still
    /// to come from the first operand that the second one contains.
    pub fn from_sets(first: A, second: B) -> (r: Self)
        requires
            first.wf(),
            second.wf(),
        ensures
            r.wf(),
            r.members() == first.members().intersect(second.members()),
            r.ahead() == first.ahead().intersect(second.members()),
    {
        InfiniteIntersection { first, second }
    }

    /// The values that the first operand has still to hand out.
    pub closed spec fn first_ahead(&self) -> Set<u128> {
        self.first.ahead()
    }

    /// Like `next`, but draws at most `budget` values from the first operand.
    /// Where none of them is contained in the second operand, it returns `None`
    /// and the intersection has lost no value still to come: a later call goes on
    /// from where this one stopped.
    pub fn next_within(&mut self, budget: u64) -> (r: Option<u128>)
        requires
            old(self).wf(),
        ensures
            final(self).wf(),
            final(self).members() == old(self).members(),
            match r {
                Some(x) => advances(old(self).ahead(), Some(x), final(self).ahead()),
                None => final(self).ahead() == old(self).ahead(),
            },
            exists|passed: Set<u128>|
                #[trigger] passed_over(old(self).first_ahead(), passed, final(self).first_ahead())
                    && passed.len() <= budget && (r is None ==> passed.len() == budget
                    || final(self).first_ahead() == Set::<u128>::empty()),
    {
        let r = first_common_within(&mut self.first, &self.second, budget);
        proof {
            let passed = choose|passed: Set<u128>|
                #[trigger] passed_over(old(self).first.ahead(), passed, self.first.ahead())
                    && passed.len() <= budget && (r is None ==> passed.len() == budget
                    || self.first.ahead() == Set::<u128>::empty());
            assert(passed_over(old(self).first_ahead(), passed, self.first_ahead()));
        }
        r
    }
}

impl<A: InfiniteSet, B: InfiniteSet> InfiniteSet for InfiniteIntersection<A, B> {
    closed spec fn members(&self) -> Set<u128> {
        self.first.members().intersect(self.second.members())
    }

    closed spec fn ahead(&self) -> Set<u128> {
        self.first.ahead().intersect(self.second.members())
    }

    closed spec fn wf(&self) -> bool {
        self.first.wf() && self.second.wf()
    }

    proof fn lemma_ahead_members(&self) {
        self.first.lemma_ahead_members();
    }

    fn contains(&self, x: &u128) -> (r: bool) {
        self.first.contains(x) && self.second.contains(x)
    }

    fn next(&mut self) -> (r: Option<u128>) {
        let r = first_common(&mut self.first, &self.second);
        assert(self.ahead() == self.first.ahead().intersect(self.second.members()));
        r
    }
}

/// `passed` are the values of `before` that lie below all of `after`, and
/// `after` is what is left of `before` without them.
pub open spec fn passed_over(before: Set<u128>, passed: Set<u128>, after: Set<u128>) -> bool {
    &&& passed.finite()
    &&& before == passed + after
    &&& forall|a: u128, b: u128| passed.contains(a) && after.contains(b) ==> a < b
}

/// Like `first_common`, but draws at most `budget` values from `first`.
fn first_common_within<A: InfiniteSet, B: InfiniteSet>(first: &mut A, second: &B, budget: u64) -> (r:
    Option<u128>)
    requires
        old(first).wf(),
        second.wf(),
    ensures
        final(first).wf(),
        final(first).members() == old(first).members(),
        match r {
            Some(x) => advances(
                old(first).ahead().intersect(second.members()),
                Some(x),
                final(first).ahead().intersect(second.members()),
            ),
            None => final(first).ahead().intersect(second.members()) == old(
                first,
            ).ahead().intersect(second.members()),
        },
        exists|passed: Set<u128>|
            #[trigger] passed_over(old(first).ahead(), passed, final(first).ahead())
                && passed.len() <= budget && (r is None ==> passed.len() == budget
                || final(first).ahead() == Set::<u128>::empty()),
{
    let ghost a0 = old(first).ahead().intersect(second.members());
    let ghost mut passed = Set::<u128>::empty();
    let mut i: u64 = 0;
    assert(old(first).ahead() =~= passed + first.ahead());
    while i < budget
        invariant
            first.wf(),
            second.wf(),
            i <= budget,
            first.members() == old(first).members(),
            a0 == old(first).ahead().intersect(second.members()),
            first.ahead().intersect(second.members()) == a0,
            passed_over(old(first).ahead(), passed, first.ahead()),
            passed.len() == i,
        decreases budget - i,
    {
        let ghost before = first.ahead();
        match first.next() {
            None => {
                assert(a0 =~= Set::<u128>::empty());
                assert(passed_over(old(first).ahead(), passed, first.ahead()));
                return None;
            },
            Some(x) => {
                proof {
                    assert(!passed.contains(x));
                    passed = passed.insert(x);
                    assert(old(first).ahead() =~= passed + first.ahead());
                    assert(passed_over(old(first).ahead(), passed, first.ahead()));
                }
                i = i + 1;
                if second.contains(&x) {
                    assert(first.ahead().intersect(second.members()) =~= a0.remove(x));
                    return Some(x);
                }
                assert(first.ahead().intersect(second.members()) =~= a0);
            },
        }
    }
    assert(passed_over(old(first).ahead(), passed, first.ahead()));
    None
}

/// Draws from `first` until a value that `second` contains comes out, and hands
/// it out; the values passed over on the way are not members of `second`.
fn first_common<A: InfiniteSet, B: InfiniteSet>(first: &mut A, second: &B) -> (r: Option<u128>)
    requires
        old(first).wf(),
        second.wf(),
    ensures
        final(first).wf(),
        final(first).members() == old(first).members(),
        advances(
            old(first).ahead().intersect(second.members()),
            r,
            final(first).ahead().intersect(second.members()),
        ),
{
    let ghost a0 = old(first).ahead().intersect(second.members());
    // a lower bound of what `first` still holds
    let ghost mut lo: int = 0;
    loop
        invariant
            first.wf(),
            second.wf(),
            first.members() == old(first).members(),
            a0 == old(first).ahead().intersect(second.members()),
            first.ahead().intersect(second.members()) == a0,
            0 <= lo <= u128::MAX + 1,
            forall|y: u128| #[trigger] first.ahead().contains(y) ==> lo <= y,
        decreases u128::MAX + 1 - lo,
    {
        match first.next() {
            None => {
                assert(a0 =~= Set::<u128>::empty());
                return None;
            },
            Some(x) => {
                if second.contains(&x) {
                    assert(first.ahead().intersect(second.members()) =~= a0.remove(x));
                    return Some(x);
                }
                assert(first.ahead().intersect(second.members()) =~= a0);
                proof {
                    lo = x + 1;
                }
            },
        }
    }
}

/// The union of two sequences, taking both over.
pub fn union<A: InfiniteSet, B: InfiniteSet>(first: A, second: B) -> (r: InfiniteUnion<A, B>)
    requires
        first.wf(),
        second.wf(),
    ensures
        r.wf(),
        r.members() == first.members() + second.members(),
        r.ahead() == first.ahead() + second.ahead(),
{
    InfiniteUnion::from_sets(first, second)
}

/// The intersection of two sequences, taking both over.
pub fn intersect<A: InfiniteSet, B: InfiniteSet>(first: A, second: B) -> (r: InfiniteIntersection<A, B>)
    requires
        first.wf(),
        second.wf(),
    ensures
        r.wf(),
        r.members() == first.members().intersect(second.members()),
        r.ahead() == first.ahead().intersect(second.members()),
{
    InfiniteIntersection::from_sets(first, second)
}

} // verus!
