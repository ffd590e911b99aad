use npb::classes::{ep_class_exponent, ep_class_of, is_class_params};

#[test]
fn ep_class_letters_and_sizes() {
    let table = [('S', 24), ('W', 25), ('A', 28), ('B', 30), ('C', 32), ('D', 36), ('E', 40), ('F', 44)];
    for (c, m) in table.iter() {
        assert_eq!(ep_class_exponent(*c), Some(*m));
        assert_eq!(ep_class_of(*m), *c);
    }
    assert_eq!(ep_class_exponent('X'), None);
    assert_eq!(ep_class_exponent('s'), None);
    assert_eq!(ep_class_of(26), 'U');
    assert_eq!(ep_class_of(0), 'U');
}

#[test]
fn is_class_sizes() {
    let s = is_class_params('S').unwrap();
    assert_eq!((s.class, s.total_keys, s.max_key, s.num_buckets), ('S', 1 << 16, 1 << 11, 1 << 9));
    let w = is_class_params('W').unwrap();
    assert_eq!((w.total_keys, w.max_key, w.num_buckets), (1 << 20, 1 << 16, 1 << 10));
    let a = is_class_params('A').unwrap();
    assert_eq!((a.total_keys, a.max_key, a.num_buckets), (1 << 23, 1 << 19, 1 << 10));
    let b = is_class_params('B').unwrap();
    assert_eq!((b.total_keys, b.max_key, b.num_buckets), (1 << 25, 1 << 21, 1 << 10));
    let c = is_class_params('C').unwrap();
    assert_eq!((c.total_keys, c.max_key, c.num_buckets), (1 << 27, 1 << 23, 1 << 10));
    let d = is_class_params('D').unwrap();
    assert_eq!((d.total_keys, d.max_key, d.num_buckets), (1i64 << 31, 1 << 27, 1 << 10));
    let e = is_class_params('E').unwrap();
    assert_eq!((e.class, e.total_keys, e.max_key, e.num_buckets), ('E', 1i64 << 35, 1i64 << 31, 1 << 10));
    assert!(is_class_params('F').is_none());
    assert!(is_class_params('U').is_none());
}
