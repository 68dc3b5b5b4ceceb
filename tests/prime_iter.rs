use primeiter::PrimeIter;

fn take(g: &mut PrimeIter, n: usize) -> Vec<u64> {
    let mut v = Vec::new();
    for _ in 0..n {
        v.push(g.next().expect("a prime fits in u64"));
    }
    v
}

fn naive_is_prime(n: u64) -> bool {
    n > 1 && (2..n).all(|d| n % d != 0)
}

#[test]
fn first_ten_primes() {
    let mut g = PrimeIter::new();
    assert_eq!(take(&mut g, 10), vec![2, 3, 5, 7, 11, 13, 17, 19, 23, 29]);
}

#[test]
fn produced_values_are_prime() {
    let mut g = PrimeIter::new();
    for p in take(&mut g, 1000) {
        assert!(naive_is_prime(p), "{} is not prime", p);
    }
}

#[test]
fn produced_values_increase() {
    let mut g = PrimeIter::new();
    let v = take(&mut g, 1000);
    for w in v.windows(2) {
        assert!(w[1] > w[0]);
    }
}

#[test]
fn no_prime_is_skipped() {
    let mut g = PrimeIter::new();
    let v = take(&mut g, 1000);
    let last = *v.last().unwrap();
    let expected: Vec<u64> = (2..=last).filter(|&n| naive_is_prime(n)).collect();
    assert_eq!(v, expected);
    assert_eq!(last, 7919);
}

#[test]
fn two_generators_agree() {
    let mut a = PrimeIter::new();
    let mut b = PrimeIter::new();
    assert_eq!(take(&mut a, 500), take(&mut b, 500));
}

#[test]
fn generators_do_not_share_state() {
    let mut a = PrimeIter::new();
    take(&mut a, 20);
    let mut b = PrimeIter::new();
    assert_eq!(b.next(), Some(2));
    assert_eq!(a.next(), Some(73));
}

#[test]
fn construction_alone_has_no_effect() {
    let g = PrimeIter::new();
    drop(g);
    let mut h = PrimeIter::new();
    assert_eq!(h.next(), Some(2));
}

#[test]
fn starts_with_two_then_three() {
    let mut g = PrimeIter::new();
    assert_eq!(g.next(), Some(2));
    assert_eq!(g.next(), Some(3));
    assert_eq!(g.next(), Some(5));
}
