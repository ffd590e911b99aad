use npb::lcg::{find_starting_seed, mul_mod46, randlc, vranlc, TWO_46};

fn reference_step(x: u64, a: u64) -> u64 {
    ((x as u128 * a as u128) % (TWO_46 as u128)) as u64
}

#[test]
fn randlc_first_seeds_of_the_is_generator() {
    let a: u64 = 1220703125;
    let mut x: u64 = 314159265;
    let expected: [u64; 5] = [
        55909509111989,
        61155031930969,
        45573031421645,
        55279057169489,
        1250169187877,
    ];
    for e in expected.iter() {
        let r = randlc(&mut x, a);
        assert_eq!(r, *e);
        assert_eq!(x, *e);
    }
}

#[test]
fn randlc_deviate_lies_in_unit_interval() {
    let mut x: u64 = 271828183;
    let r = randlc(&mut x, 1220703125);
    let deviate = r as f64 * 2f64.powi(-46);
    assert!(deviate > 0.0 && deviate < 1.0);
}

#[test]
fn mul_mod46_matches_wide_product() {
    let cases: [(u64, u64); 6] = [
        (0, 0),
        (1, 1),
        (TWO_46 - 1, TWO_46 - 1),
        (1220703125, 314159265),
        (8388607, 8388609),
        (123456789012345, 65432109876543),
    ];
    for (a, x) in cases.iter() {
        assert_eq!(mul_mod46(*a, *x), reference_step(*x, *a));
    }
    assert_eq!(mul_mod46(TWO_46 - 1, TWO_46 - 1), 1);
}

#[test]
fn vranlc_writes_nothing_for_nonpositive_count() {
    let mut y = vec![7u64; 4];
    vranlc(0, 314159265, 1220703125, &mut y);
    assert_eq!(y, vec![7u64; 4]);
    vranlc(-3, 314159265, 1220703125, &mut y);
    assert_eq!(y, vec![7u64; 4]);
}

#[test]
fn vranlc_matches_repeated_steps_across_batches() {
    let a: u64 = 1220703125;
    let x: u64 = 314159265;
    for n in [1usize, 5, 63, 64, 65, 128, 130, 200].iter() {
        let mut y = vec![0u64; *n + 3];
        vranlc(*n as i32, x, a, &mut y);
        let mut s = x;
        for k in 0..*n {
            s = reference_step(s, a);
            assert_eq!(y[k], s, "n = {}, k = {}", n, k);
        }
        assert_eq!(&y[*n..], &[0u64, 0, 0]);
    }
}

#[test]
fn vranlc_two_hundred_seeds_end_at_closed_form() {
    let mut y = vec![0u64; 200];
    vranlc(200, 314159265, 1220703125, &mut y);
    assert_eq!(y[199], 8943062473217);
}

#[test]
fn find_starting_seed_jumps_like_stepping() {
    let a: u64 = 1220703125;
    let s: u64 = 271828183;
    for kk in [0u64, 1, 2, 3, 7, 64, 100, 1023].iter() {
        let mut t = s;
        for _ in 0..*kk {
            t = reference_step(t, a);
        }
        assert_eq!(find_starting_seed(s, a, *kk), t, "kk = {}", kk);
    }
}

#[test]
fn find_starting_seed_ep_constants() {
    assert_eq!(find_starting_seed(31269, 132608, 0), 31269);
    assert_eq!(find_starting_seed(31269, 132608, 1), 4146519552);
    assert_eq!(find_starting_seed(31269, 132608, 10), 0);
}

#[test]
fn find_starting_seed_handles_largest_jump() {
    let a: u64 = 1220703125;
    let s: u64 = 314159265;
    let r = find_starting_seed(s, a, u64::MAX);
    let mut expect: u128 = 1;
    let mut base: u128 = a as u128;
    let mut e = u64::MAX;
    let m = TWO_46 as u128;
    while e > 0 {
        if e & 1 == 1 {
            expect = expect * base % m;
        }
        base = base * base % m;
        e >>= 1;
    }
    assert_eq!(r as u128, expect * s as u128 % m);
}

#[test]
fn seeds_compose_concrete() {
    // Taking 3 steps and then 4 more equals taking 7 steps.
    let a: u64 = 1220703125;
    let s: u64 = 314159265;
    let three = find_starting_seed(s, a, 3);
    assert_eq!(find_starting_seed(three, a, 4), find_starting_seed(s, a, 7));
    // One step with a^64 jumps 64 steps ahead.
    let a64 = find_starting_seed(a, a, 63);
    assert_eq!(a64, 50673755460353);
    let mut x = find_starting_seed(s, a, 5);
    randlc(&mut x, a64);
    assert_eq!(x, find_starting_seed(s, a, 69));
}
