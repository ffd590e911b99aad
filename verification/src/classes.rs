//! Problem classes of the EP and IS benchmarks.
use vstd::prelude::*;

verus! {

/// The EP problem size `m` (2^(m+1) random numbers) of a class letter.
pub open spec fn ep_exponent_of(class: char) -> Option<i32> {
    if class == 'S' {
        Some(24)
    } else if class == 'W' {
        Some(25)
    } else if class == 'A' {
        Some(28)
    } else if class == 'B' {
        Some(30)
    } else if class == 'C' {
        Some(32)
    } else if class == 'D' {
        Some(36)
    } else if class == 'E' {
        Some(40)
    } else if class == 'F' {
        Some(44)
    } else {
        None
    }
}

/// The EP class letter of a problem size `m`; `'U'` for a size of no class.
pub open spec fn ep_class_for(m: i32) -> char {
    if m == 24 {
        'S'
    } else if m == 25 {
        'W'
    } else if m == 28 {
        'A'
    } else if m == 30 {
        'B'
    } else if m == 32 {
        'C'
    } else if m == 36 {
        'D'
    } else if m == 40 {
        'E'
    } else if m == 44 {
        'F'
    } else {
        'U'
    }
}

/// The EP problem size of a class letter, `None` for a letter of no class.
pub fn ep_class_exponent(class: char) -> (m: Option<i32>)
    ensures
        m == ep_exponent_of(class),
{
    if class == 'S' {
        Some(24)
    } else if class == 'W' {
        Some(25)
    } else if class == 'A' {
        Some(28)
    } else if class == 'B' {
        Some(30)
    } else if class == 'C' {
        Some(32)
    } else if class == 'D' {
        Some(36)
    } else if class == 'E' {
        Some(40)
    } else if class == 'F' {
        Some(44)
    } else {
        None
    }
}

/// The EP class letter of a problem size, `'U'` (unknown) for other sizes.
pub fn ep_class_of(m: i32) -> (class: char)
    ensures
        class == ep_class_for(m),
{
    if m == 24 {
        'S'
    } else if m == 25 {
        'W'
    } else if m == 28 {
        'A'
    } else if m == 30 {
        'B'
    } else if m == 32 {
        'C'
    } else if m == 36 {
        'D'
    } else if m == 40 {
        'E'
    } else if m == 44 {
        'F'
    } else {
        'U'
    }
}

/// The class letters and the EP problem sizes are in one-to-one
/// correspondence: a letter's size maps back to the letter, and a size of a
/// known class maps back to that size.
pub proof fn lemma_ep_class_roundtrip(class: char, m: i32)
    ensures
        ep_exponent_of(class) matches Some(e) ==> ep_class_for(e) == class,
        ep_class_for(m) != 'U' ==> ep_exponent_of(ep_class_for(m)) == Some(m),
{
}

/// Sizes of an IS problem class.
#[derive(Clone, Copy, Debug)]
pub struct IsClass {
    /// The class letter.
    pub class: char,
    /// Number of keys ranked.
    pub total_keys: i64,
    /// Bound of the key values.
    pub max_key: i64,
    /// Number of buckets of the bucket sort.
    pub num_buckets: usize,
}

/// The IS sizes of a class letter.
pub open spec fn is_params_of(class: char) -> Option<IsClass> {
    if class == 'S' {
        Some(IsClass { class: 'S', total_keys: 65536, max_key: 2048, num_buckets: 512 })
    } else if class == 'W' {
        Some(IsClass { class: 'W', total_keys: 1048576, max_key: 65536, num_buckets: 1024 })
    } else if class == 'A' {
        Some(IsClass { class: 'A', total_keys: 8388608, max_key: 524288, num_buckets: 1024 })
    } else if class == 'B' {
        Some(IsClass { class: 'B', total_keys: 33554432, max_key: 2097152, num_buckets: 1024 })
    } else if class == 'C' {
        Some(IsClass { class: 'C', total_keys: 134217728, max_key: 8388608, num_buckets: 1024 })
    } else if class == 'D' {
        Some(
            IsClass { class: 'D', total_keys: 2147483648, max_key: 134217728, num_buckets: 1024 },
        )
    } else if class == 'E' {
        Some(
            IsClass {
                class: 'E',
                total_keys: 34359738368,
                max_key: 2147483648,
                num_buckets: 1024,
            },
        )
    } else {
        None
    }
}

/// The IS sizes of a class letter, `None` for a letter of no class.
pub fn is_class_params(class: char) -> (p: Option<IsClass>)
    ensures
        p == is_params_of(class),
{
    if class == 'S' {
        Some(IsClass { class: 'S', total_keys: 65536, max_key: 2048, num_buckets: 512 })
    } else if class == 'W' {
        Some(IsClass { class: 'W', total_keys: 1048576, max_key: 65536, num_buckets: 1024 })
    } else if class == 'A' {
        Some(IsClass { class: 'A', total_keys: 8388608, max_key: 524288, num_buckets: 1024 })
    } else if class == 'B' {
        Some(IsClass { class: 'B', total_keys: 33554432, max_key: 2097152, num_buckets: 1024 })
    } else if class == 'C' {
        Some(IsClass { class: 'C', total_keys: 134217728, max_key: 8388608, num_buckets: 1024 })
    } else if class == 'D' {
        Some(IsClass { class: 'D', total_keys: 2147483648, max_key: 134217728, num_buckets: 1024 })
    } else if class == 'E' {
        Some(IsClass { class: 'E', total_keys: 34359738368, max_key: 2147483648, num_buckets: 1024 })
    } else {
        None
    }
}

/// Every IS class letter names itself, and each class has fewer distinct key
/// values than keys and at least one bucket.
pub proof fn lemma_is_class_consistent(class: char)
    ensures
        is_params_of(class) matches Some(p) ==> p.class == class && 0 < p.max_key < p.total_keys
            && p.num_buckets > 0,
{
}

} // verus!
