use sus::{choose_multiple, choose_multiple_weighted, SampleError};

fn sus(rng: &mut rand::rngs::ThreadRng, amount: usize, weights: &[u64]) -> Vec<usize> {
    choose_multiple_weighted(rng, amount, &weights.to_vec()).unwrap()
}

fn assert_data_eq(a: &mut [usize], b: &mut [usize]) {
    a.sort();
    b.sort();
    assert_eq!(a, b);
}

#[test]
fn no_data() {
    let mut rng = rand::thread_rng();
    assert_data_eq(&mut sus(&mut rng, 0, &[]), &mut []);
    assert_data_eq(&mut sus(&mut rng, 0, &[1, 2, 3]), &mut []);
}

#[test]
#[should_panic]
fn no_data_panic() {
    let mut rng = rand::thread_rng();
    sus(&mut rng, 100, &[]);
}

#[test]
fn not_enough_data() {
    let mut rng = rand::thread_rng();
    assert_data_eq(&mut sus(&mut rng, 2, &[1]), &mut [0, 0]);
}

#[test]
fn zero_data() {
    let mut rng = rand::thread_rng();
    assert_data_eq(&mut sus(&mut rng, 1, &[0]), &mut [0]);
    assert_data_eq(
        &mut sus(&mut rng, 10, &[0; 10]),
        &mut [0, 1, 2, 3, 4, 5, 6, 7, 8, 9],
    );
    assert_data_eq(&mut sus(&mut rng, 6, &[0; 3]), &mut [0, 0, 1, 1, 2, 2]);
    sus(&mut rng, 7, &[0; 3]);
}

#[test]
fn round_robin() {
    let mut rng = rand::thread_rng();
    assert_data_eq(&mut sus(&mut rng, 3, &[1; 3]), &mut [0, 1, 2]);
    assert_data_eq(&mut sus(&mut rng, 6, &[1; 3]), &mut [0, 1, 2, 0, 1, 2]);
}

#[test]
fn it_works() {
    let mut rng = rand::thread_rng();
    assert_data_eq(&mut sus(&mut rng, 2, &[1, 0, 1]), &mut [0, 2]);
    assert_data_eq(&mut sus(&mut rng, 3, &[2, 0, 1]), &mut [0, 0, 2]);
    assert_data_eq(&mut sus(&mut rng, 3, &[2, 0, 1]), &mut [0, 0, 2]);
    assert_data_eq(&mut sus(&mut rng, 6, &[1, 2, 3]), &mut [0, 1, 1, 2, 2, 2]);
}

#[test]
fn sample_one() {
    let mut rng = rand::thread_rng();
    let mut data = [0; 10000];
    data[1234] = 1;
    assert_data_eq(&mut sus(&mut rng, 1, &data), &mut [1234]);
}

#[test]
fn random_data() {
    let mut rng = rand::thread_rng();
    assert!(sus(&mut rng, 1, &[1; 10000]) != sus(&mut rng, 1, &[1; 10000]));
    assert!(sus(&mut rng, 40, &[1; 2000]) != sus(&mut rng, 40, &[1; 2000]));
}

#[test]
fn random_order() {
    let mut rng = rand::thread_rng();
    let mut a = sus(&mut rng, 2000, &[1; 2000]);
    let mut b = sus(&mut rng, 2000, &[1; 2000]);
    assert!(a != b);
    assert_data_eq(&mut a, &mut b);
}

#[test]
fn random_order_repeats() {
    let mut rng = rand::thread_rng();
    for _ in 0..100 {
        let mut a = sus(&mut rng, 100, &[1; 2]);
        let mut b = sus(&mut rng, 100, &[1; 2]);
        assert!(a != b);
        assert_data_eq(&mut a, &mut b);
    }
}

#[test]
fn uniform_weights() {
    let mut rng = rand::thread_rng();

    let mut a = sus(&mut rng, 13, &[3; 13]);
    let mut b = sus(&mut rng, 13, &[0; 13]);
    let mut c = choose_multiple(&mut rng, 13, 13).unwrap();
    assert_data_eq(&mut a, &mut b);
    assert_data_eq(&mut a, &mut c);

    let mut x = choose_multiple(&mut rng, 1000, 1033).unwrap();
    let mut y = choose_multiple(&mut rng, 1000, 1033).unwrap();

    x.sort();
    y.sort();
    assert!(x != y);
}

#[test]
fn empty_input_errors() {
    let mut rng = rand::thread_rng();
    assert_eq!(
        choose_multiple_weighted(&mut rng, 5, &vec![]),
        Err(SampleError::EmptyInput)
    );
    assert_eq!(choose_multiple(&mut rng, 5, 0), Err(SampleError::EmptyInput));
    assert_eq!(choose_multiple(&mut rng, 0, 0), Ok(vec![]));
}

#[test]
fn total_overflow_error() {
    let mut rng = rand::thread_rng();
    assert_eq!(
        choose_multiple_weighted(&mut rng, 1, &vec![u64::MAX, 1]),
        Err(SampleError::TotalOverflow)
    );
    // The largest representable total is still served.
    assert_data_eq(
        &mut sus(&mut rng, 2, &[u64::MAX, 0]),
        &mut [0, 0],
    );
}

#[test]
fn remainder_is_distinct() {
    let mut rng = rand::thread_rng();
    for _ in 0..50 {
        let mut v = choose_multiple(&mut rng, 2, 5).unwrap();
        v.sort();
        assert_eq!(v.len(), 2);
        assert!(v[0] < 5 && v[1] < 5);
        assert!(v[0] != v[1]);
    }
}

#[test]
fn even_split_bounds() {
    let mut rng = rand::thread_rng();
    for _ in 0..20 {
        let v = choose_multiple(&mut rng, 7, 3).unwrap();
        assert_eq!(v.len(), 7);
        for j in 0..3 {
            let count = v.iter().filter(|&&x| x == j).count();
            assert!(count == 2 || count == 3);
        }
    }
}

#[test]
fn whole_shares_are_exact() {
    let mut rng = rand::thread_rng();
    assert_data_eq(
        &mut sus(&mut rng, 8, &[1, 1, 2]),
        &mut [0, 0, 1, 1, 2, 2, 2, 2],
    );
}

#[test]
fn fractional_shares_stay_within_one() {
    let mut rng = rand::thread_rng();
    for _ in 0..20 {
        // Ideal shares of 5 selections over weights [1, 3]: 1.25 and 3.75.
        let v = sus(&mut rng, 5, &[1, 3]);
        assert_eq!(v.len(), 5);
        let zeros = v.iter().filter(|&&x| x == 0).count();
        let ones = v.iter().filter(|&&x| x == 1).count();
        assert!(zeros == 1 || zeros == 2);
        assert!(ones == 3 || ones == 4);
        assert_eq!(zeros + ones, 5);
    }
}
