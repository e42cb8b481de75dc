use infinite_sets::{
    intersect, union, InfiniteEvens, InfiniteIntersection, InfiniteOdds, InfinitePositiveInts, InfinitePrimes,
    InfiniteSet, InfiniteTwoPowers, InfiniteUnion,
};

fn take<S: InfiniteSet>(s: &mut S, n: usize) -> Vec<u128> {
    let mut out = Vec::new();
    for _ in 0..n {
        match s.next() {
            Some(x) => out.push(x),
            None => break,
        }
    }
    out
}

#[test]
fn odd_primes_from_intersection() {
    let mut s = intersect(InfinitePrimes::new(), InfiniteOdds::new());
    assert_eq!(take(&mut s, 10), vec![3, 5, 7, 11, 13, 17, 19, 23, 29, 31]);
}

#[test]
fn union_of_evens_and_odds() {
    let mut s = union(InfiniteEvens::new(), InfiniteOdds::new());
    assert_eq!(take(&mut s, 10), vec![1, 2, 3, 4, 5, 6, 7, 8, 9, 10]);
}

#[test]
fn union_of_powers_and_odds() {
    let mut s = union(InfiniteTwoPowers::new(), InfiniteOdds::new());
    assert_eq!(take(&mut s, 10), vec![1, 2, 3, 4, 5, 7, 8, 9, 11, 13]);
}

#[test]
fn disjoint_intersection_reports_within_budget() {
    let mut s = intersect(InfiniteEvens::new(), InfiniteOdds::new());
    assert_eq!(s.next_within(1000), None);
    assert_eq!(s.next_within(1000), None);
}

#[test]
fn budget_search_resumes_where_it_stopped() {
    let mut s = InfiniteIntersection::from_sets(InfinitePrimes::new(), InfiniteOdds::new());
    // 2 is the first prime and is even
    assert_eq!(s.next_within(1), None);
    assert_eq!(s.next_within(1), Some(3));
    assert_eq!(s.next_within(0), None);
    assert_eq!(s.next(), Some(5));
}

#[test]
fn union_is_strictly_increasing_without_repeats() {
    let mut s = union(InfinitePositiveInts::new(), InfiniteEvens::new());
    let v = take(&mut s, 50);
    assert_eq!(v, (1..=50).collect::<Vec<u128>>());
    for w in v.windows(2) {
        assert!(w[0] < w[1]);
    }
}

#[test]
fn union_with_itself_repeats_nothing() {
    let mut s = InfiniteUnion::from_sets(InfiniteEvens::new(), InfiniteEvens::new());
    assert_eq!(take(&mut s, 5), vec![2, 4, 6, 8, 10]);
}

#[test]
fn union_emits_only_members_of_an_operand() {
    let mut s = union(InfiniteTwoPowers::new(), InfinitePrimes::new());
    let v = take(&mut s, 40);
    let powers = InfiniteTwoPowers::new();
    let primes = InfinitePrimes::new();
    for x in &v {
        assert!(powers.contains(x) || primes.contains(x));
    }
    assert_eq!(&v[..8], &[1, 2, 3, 4, 5, 7, 8, 11]);
}

#[test]
fn intersection_emits_only_common_members() {
    let mut s = intersect(InfinitePositiveInts::new(), InfiniteEvens::new());
    let v = take(&mut s, 20);
    let evens = InfiniteEvens::new();
    for x in &v {
        assert!(*x > 0 && evens.contains(x));
    }
    assert_eq!(&v[..3], &[2, 4, 6]);
}

#[test]
fn membership_holds_before_and_after_drawing() {
    let mut p = InfinitePrimes::new();
    assert!(p.contains(&29));
    let v = take(&mut p, 10);
    assert_eq!(v, vec![2, 3, 5, 7, 11, 13, 17, 19, 23, 29]);
    for x in &v {
        assert!(p.contains(x));
    }
}

#[test]
fn union_commutes() {
    let mut a = union(InfiniteTwoPowers::new(), InfiniteOdds::new());
    let mut b = union(InfiniteOdds::new(), InfiniteTwoPowers::new());
    assert_eq!(take(&mut a, 30), take(&mut b, 30));
}

#[test]
fn nested_combinators() {
    let odd_primes = intersect(InfinitePrimes::new(), InfiniteOdds::new());
    let mut s = union(odd_primes, InfiniteTwoPowers::new());
    assert_eq!(take(&mut s, 10), vec![1, 2, 3, 4, 5, 7, 8, 11, 13, 16]);
    assert!(s.contains(&64));
    assert!(s.contains(&97));
    assert!(!s.contains(&9));
}

#[test]
fn positive_ints_start_at_one() {
    let mut s = InfinitePositiveInts::new();
    assert_eq!(take(&mut s, 4), vec![1, 2, 3, 4]);
    assert!(!s.contains(&0));
    assert!(s.contains(&1));
}

#[test]
fn evens_and_odds_membership() {
    let mut e = InfiniteEvens::new();
    let mut o = InfiniteOdds::new();
    assert_eq!(take(&mut e, 3), vec![2, 4, 6]);
    assert_eq!(take(&mut o, 3), vec![1, 3, 5]);
    assert!(!e.contains(&0));
    assert!(e.contains(&u128::MAX.wrapping_sub(1)));
    assert!(!e.contains(&7));
    assert!(o.contains(&u128::MAX));
    assert!(!o.contains(&8));
}

#[test]
fn powers_of_two_membership() {
    let p = InfiniteTwoPowers::new();
    assert!(p.contains(&1));
    assert!(p.contains(&1024));
    assert!(p.contains(&(1u128 << 127)));
    assert!(!p.contains(&0));
    assert!(!p.contains(&6));
    assert!(!p.contains(&1023));
}

#[test]
fn powers_of_two_run_out_at_the_top_of_u128() {
    let mut p = InfiniteTwoPowers::new();
    let v = take(&mut p, 200);
    assert_eq!(v.len(), 128);
    assert_eq!(v[127], 1u128 << 127);
    assert_eq!(p.next(), None);
}

#[test]
fn primes_membership() {
    let p = InfinitePrimes::new();
    assert!(p.contains(&2));
    assert!(p.contains(&97));
    assert!(!p.contains(&1));
    assert!(!p.contains(&91));
    assert!(p.contains(&18_446_744_073_709_551_557));
    // beyond u64 nothing is tested, and nothing is handed out
    assert!(!p.contains(&((1u128 << 64) + 13)));
}

#[test]
fn union_runs_out_with_its_operands() {
    let mut s = union(InfiniteTwoPowers::new(), InfiniteTwoPowers::new());
    assert_eq!(take(&mut s, 300).len(), 128);
    assert_eq!(s.next(), None);
}
