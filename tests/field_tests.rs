use ec_divisors::field::Fp;

fn f101() -> Fp {
    Fp::new(101)
}

#[test]
fn add_wraps_around() {
    assert_eq!(f101().add(100, 5), 4);
    assert_eq!(f101().add(3, 4), 7);
}

#[test]
fn sub_wraps_around() {
    assert_eq!(f101().sub(3, 5), 99);
    assert_eq!(f101().sub(5, 3), 2);
}

#[test]
fn mul_reduces() {
    assert_eq!(f101().mul(50, 3), 49);
    assert_eq!(f101().mul(100, 100), 1);
}

#[test]
fn from_index_maps_into_field() {
    assert_eq!(f101().from_index(205), 3);
    assert_eq!(f101().from_index(7), 7);
}

#[test]
fn inv_gives_inverse() {
    let f = f101();
    assert_eq!(f.inv(7), 29);
    assert_eq!(f.inv(1), 1);
    for x in 1..101u64 {
        assert_eq!(f.mul(x, f.inv(x)), 1);
    }
}

#[test]
fn inv_of_zero_is_zero() {
    assert_eq!(f101().inv(0), 0);
}

#[test]
fn batch_invert_keeps_zeros() {
    let mut v = vec![0, 7, 50, 1, 0, 100];
    f101().batch_invert(&mut v);
    assert_eq!(v, vec![0, 29, 99, 1, 0, 100]);
}

#[test]
fn batch_invert_empty() {
    let mut v: Vec<u64> = vec![];
    f101().batch_invert(&mut v);
    assert!(v.is_empty());
}

#[test]
fn batch_invert_matches_single_inversions() {
    let f = Fp::new(97);
    let mut v: Vec<u64> = (0..97).collect();
    f.batch_invert(&mut v);
    for x in 0..97u64 {
        assert_eq!(v[x as usize], f.inv(x));
    }
}
