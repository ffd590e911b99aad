//! Key sequences of the IS benchmark: distributing keys into buckets,
//! sorting each bucket, and counting out-of-order pairs.
use vstd::multiset::*;
use vstd::prelude::*;
use vstd::relations::*;
use vstd::seq_lib::*;

verus! {

/// Number of adjacent pairs `(s[i-1], s[i])` with `s[i-1] > s[i]`.
pub open spec fn count_descents(s: Seq<i64>) -> nat
    decreases s.len(),
{
    if s.len() < 2 {
        0
    } else {
        count_descents(s.drop_last()) + if s[s.len() - 2] > s[s.len() - 1] {
            1nat
        } else {
            0nat
        }
    }
}

/// The positions `i` in `1..s.len()` where `s[i - 1] > s[i]`.
pub open spec fn descent_positions(s: Seq<i64>) -> Set<int> {
    Set::new(|i: int| 1 <= i < s.len() && s[i - 1] > s[i])
}

/// The descent count is the number of positions `i` in `1..s.len()` with
/// `s[i - 1] > s[i]`; this set of positions is finite.
pub proof fn lemma_descents_are_positions(s: Seq<i64>)
    ensures
        descent_positions(s).finite(),
        count_descents(s) == descent_positions(s).len(),
    decreases s.len(),
{
    if s.len() < 2 {
        assert(descent_positions(s) =~= Set::<int>::empty());
    } else {
        let t = s.drop_last();
        let n = s.len() as int;
        lemma_descents_are_positions(t);
        if s[n - 2] > s[n - 1] {
            assert(descent_positions(s) =~= descent_positions(t).insert(n - 1));
            assert(!descent_positions(t).contains(n - 1));
        } else {
            assert(descent_positions(s) =~= descent_positions(t));
        }
    }
}

/// Appending a key adds one descent exactly when it is smaller than the
/// previous last key, and leaves the count unchanged otherwise.
pub proof fn lemma_descents_push(s: Seq<i64>, x: i64)
    ensures
        count_descents(s.push(x)) == count_descents(s) + if s.len() > 0 && s.last() > x {
            1nat
        } else {
            0nat
        },
{
    let u = s.push(x);
    lemma_descents_are_positions(s);
    lemma_descents_are_positions(u);
    let n = u.len() as int;
    if s.len() > 0 && s.last() > x {
        assert(descent_positions(u) =~= descent_positions(s).insert(n - 1));
        assert(!descent_positions(s).contains(n - 1));
    } else {
        assert(descent_positions(u) =~= descent_positions(s));
    }
}

/// Counts the positions `i` in `1..vec.len()` where `vec[i - 1] > vec[i]`;
/// zero means the keys are in non-decreasing order.
pub fn verify_sort(vec: &Vec<i64>) -> (count: i64)
    requires
        vec.len() <= i64::MAX,
    ensures
        count == count_descents(vec@),
        count == descent_positions(vec@).len(),
{
    proof {
        lemma_descents_are_positions(vec@);
    }
    let mut count: i64 = 0;
    let n = vec.len();
    if n < 2 {
        return 0;
    }
    let mut i: usize = 1;
    while i < n
        invariant
            1 <= i <= n,
            n == vec.len(),
            n <= i64::MAX,
            count == count_descents(vec@.take(i as int)),
            count <= i - 1,
        decreases n - i,
    {
        proof {
            assert(vec@.take(i as int + 1).drop_last() =~= vec@.take(i as int));
        }
        if vec[i - 1] > vec[i] {
            count = count + 1;
        }
        i = i + 1;
    }
    proof {
        assert(vec@.take(n as int) =~= vec@);
    }
    count
}

/// The ascending order of keys.
pub open spec fn ascending() -> spec_fn(i64, i64) -> bool {
    |x: i64, y: i64| x <= y
}

/// The keys of `keys` whose bucket index in `idx` is `b`, in their order.
pub open spec fn bucket_contents(keys: Seq<i64>, idx: Seq<usize>, b: int) -> Seq<i64>
    decreases keys.len(),
{
    if keys.len() == 0 {
        Seq::empty()
    } else {
        let rest = bucket_contents(keys.drop_last(), idx.drop_last(), b);
        if idx[keys.len() - 1] == b {
            rest.push(keys.last())
        } else {
            rest
        }
    }
}

/// The first `n` buckets, each sorted in ascending order.
pub open spec fn sorted_buckets(keys: Seq<i64>, idx: Seq<usize>, n: nat) -> Seq<Seq<i64>> {
    Seq::new(n, |b: int| bucket_contents(keys, idx, b).sort_by(ascending()))
}

/// The result of a bucket sort with `nb` buckets: the buckets, each sorted,
/// concatenated in the order of their indices.
pub open spec fn bucket_sorted(keys: Seq<i64>, idx: Seq<usize>, nb: nat) -> Seq<i64> {
    sorted_buckets(keys, idx, nb).flatten()
}

/// Every bucket index of `idx` is below `nb`.
pub open spec fn indices_below(idx: Seq<usize>, nb: nat) -> bool {
    forall|i: int| 0 <= i < idx.len() ==> #[trigger] idx[i] < nb
}

/// Smaller keys never go to a later bucket.
pub open spec fn monotone_buckets(keys: Seq<i64>, idx: Seq<usize>) -> bool {
    forall|i: int, j: int|
        0 <= i < keys.len() && 0 <= j < keys.len() && #[trigger] keys[i] < #[trigger] keys[j]
            ==> idx[i] <= idx[j]
}

proof fn lemma_ascending_total()
    ensures
        total_ordering(ascending()),
{
}

/// Appending a sorted bucket to the concatenation of the earlier ones.
proof fn lemma_flatten_step(keys: Seq<i64>, idx: Seq<usize>, n: nat)
    ensures
        sorted_buckets(keys, idx, n + 1).flatten() == sorted_buckets(keys, idx, n).flatten()
            + bucket_contents(keys, idx, n as int).sort_by(ascending()),
{
    let seg = bucket_contents(keys, idx, n as int).sort_by(ascending());
    let x = sorted_buckets(keys, idx, n);
    let y = seq![seg];
    assert(sorted_buckets(keys, idx, n + 1) =~= x + y);
    lemma_flatten_concat(x, y);
    y.lemma_flatten_one_element();
}

/// A key in bucket `b` is a key of `keys` whose index is `b`.
proof fn lemma_bucket_member(keys: Seq<i64>, idx: Seq<usize>, b: int, v: i64)
    requires
        keys.len() == idx.len(),
        bucket_contents(keys, idx, b).contains(v),
    ensures
        exists|i: int| 0 <= i < keys.len() && keys[i] == v && idx[i] == b,
    decreases keys.len(),
{
    let rest = bucket_contents(keys.drop_last(), idx.drop_last(), b);
    if idx[keys.len() - 1] == b && v == keys.last() {
        assert(keys[keys.len() - 1] == v);
    } else {
        if idx[keys.len() - 1] == b {
            let k = choose|k: int| 0 <= k < rest.push(keys.last()).len() && rest.push(keys.last())[k] == v;
            assert(k < rest.len());
            assert(rest[k] == v);
        }
        assert(rest.contains(v));
        lemma_bucket_member(keys.drop_last(), idx.drop_last(), b, v);
        let i = choose|i: int| 0 <= i < keys.drop_last().len() && keys.drop_last()[i] == v && idx.drop_last()[i] == b;
        assert(keys[i] == v && idx[i] == b);
    }
}

/// The multiset of the first `n` buckets.
pub open spec fn buckets_multiset(keys: Seq<i64>, idx: Seq<usize>, n: nat) -> Multiset<i64>
    decreases n,
{
    if n == 0 {
        Multiset::empty()
    } else {
        buckets_multiset(keys, idx, (n - 1) as nat).add(
            bucket_contents(keys, idx, n - 1).to_multiset(),
        )
    }
}

proof fn lemma_sorted_buckets_multiset(keys: Seq<i64>, idx: Seq<usize>, n: nat)
    ensures
        sorted_buckets(keys, idx, n).flatten().to_multiset() == buckets_multiset(keys, idx, n),
    decreases n,
{
    broadcast use group_to_multiset_ensures, group_multiset_axioms;

    if n == 0 {
        assert(sorted_buckets(keys, idx, 0) =~= Seq::<Seq<i64>>::empty());
        assert(sorted_buckets(keys, idx, 0).flatten() =~= Seq::<i64>::empty());
    } else {
        let m = (n - 1) as nat;
        lemma_sorted_buckets_multiset(keys, idx, m);
        lemma_flatten_step(keys, idx, m);
        let seg = bucket_contents(keys, idx, m as int);
        lemma_ascending_total();
        seg.lemma_sort_by_ensures(ascending());
        lemma_multiset_commutative(sorted_buckets(keys, idx, m).flatten(), seg.sort_by(ascending()));
    }
}

/// Adding one key to the input adds it to the bucket multiset when its index
/// is among the first `n`.
proof fn lemma_buckets_multiset_push(keys: Seq<i64>, idx: Seq<usize>, n: nat)
    requires
        keys.len() == idx.len(),
        keys.len() > 0,
    ensures
        buckets_multiset(keys, idx, n) == if idx.last() < n {
            buckets_multiset(keys.drop_last(), idx.drop_last(), n).insert(keys.last())
        } else {
            buckets_multiset(keys.drop_last(), idx.drop_last(), n)
        },
    decreases n,
{
    broadcast use group_to_multiset_ensures, group_multiset_axioms;

    if n > 0 {
        let m = (n - 1) as nat;
        lemma_buckets_multiset_push(keys, idx, m);
        let a = buckets_multiset(keys.drop_last(), idx.drop_last(), m);
        let c = bucket_contents(keys.drop_last(), idx.drop_last(), m as int).to_multiset();
        if idx.last() == m {
            assert(bucket_contents(keys, idx, m as int).to_multiset() =~= c.insert(keys.last()));
            assert(a.add(c.insert(keys.last())) =~= a.add(c).insert(keys.last()));
        } else if idx.last() < m {
            assert(a.insert(keys.last()).add(c) =~= a.add(c).insert(keys.last()));
        }
    }
}

proof fn lemma_buckets_multiset_all(keys: Seq<i64>, idx: Seq<usize>, nb: nat)
    requires
        keys.len() == idx.len(),
        indices_below(idx, nb),
    ensures
        buckets_multiset(keys, idx, nb) == keys.to_multiset(),
    decreases keys.len(),
{
    broadcast use group_to_multiset_ensures, group_multiset_axioms;

    if keys.len() == 0 {
        lemma_buckets_multiset_empty(keys, idx, nb);
    } else {
        assert(indices_below(idx.drop_last(), nb)) by {
            assert forall|i: int| 0 <= i < idx.drop_last().len() implies #[trigger] idx.drop_last()[i] < nb by {
                assert(idx.drop_last()[i] == idx[i]);
            }
        }
        lemma_buckets_multiset_all(keys.drop_last(), idx.drop_last(), nb);
        lemma_buckets_multiset_push(keys, idx, nb);
        assert(idx[idx.len() - 1] < nb);
        assert(keys =~= keys.drop_last().push(keys.last()));
    }
}

proof fn lemma_buckets_multiset_empty(keys: Seq<i64>, idx: Seq<usize>, n: nat)
    requires
        keys.len() == 0,
    ensures
        buckets_multiset(keys, idx, n) == Multiset::<i64>::empty(),
    decreases n,
{
    broadcast use group_to_multiset_ensures, group_multiset_axioms;

    if n > 0 {
        lemma_buckets_multiset_empty(keys, idx, (n - 1) as nat);
        assert(bucket_contents(keys, idx, n - 1) =~= Seq::<i64>::empty());
        assert(Multiset::<i64>::empty().add(Multiset::empty()) =~= Multiset::empty());
    }
}

/// A bucket sort rearranges its input: the result holds exactly the keys of
/// the input, each as often, when every bucket index is below `nb`.
pub proof fn lemma_bucket_sort_permutes(keys: Seq<i64>, idx: Seq<usize>, nb: nat)
    requires
        keys.len() == idx.len(),
        indices_below(idx, nb),
    ensures
        bucket_sorted(keys, idx, nb).to_multiset() == keys.to_multiset(),
{
    lemma_sorted_buckets_multiset(keys, idx, nb);
    lemma_buckets_multiset_all(keys, idx, nb);
}

/// A bucket sort whose buckets follow the order of the keys (a smaller key
/// never lands in a later bucket) yields the keys in ascending order.
pub proof fn lemma_bucket_sort_sorted(keys: Seq<i64>, idx: Seq<usize>, nb: nat)
    requires
        keys.len() == idx.len(),
        monotone_buckets(keys, idx),
    ensures
        sorted_by(bucket_sorted(keys, idx, nb), ascending()),
        count_descents(bucket_sorted(keys, idx, nb)) == 0,
{
    lemma_sorted_prefix(keys, idx, nb);
    lemma_no_descents_iff_sorted(bucket_sorted(keys, idx, nb));
}

proof fn lemma_sorted_prefix(keys: Seq<i64>, idx: Seq<usize>, n: nat)
    requires
        keys.len() == idx.len(),
        monotone_buckets(keys, idx),
    ensures
        sorted_by(sorted_buckets(keys, idx, n).flatten(), ascending()),
        forall|v: i64|
            sorted_buckets(keys, idx, n).flatten().contains(v) ==> exists|i: int|
                0 <= i < keys.len() && keys[i] == v && idx[i] < n,
    decreases n,
{
    if n == 0 {
        assert(sorted_buckets(keys, idx, 0) =~= Seq::<Seq<i64>>::empty());
        assert(sorted_buckets(keys, idx, 0).flatten() =~= Seq::<i64>::empty());
    } else {
        let m = (n - 1) as nat;
        lemma_sorted_prefix(keys, idx, m);
        lemma_flatten_step(keys, idx, m);
        let a = sorted_buckets(keys, idx, m).flatten();
        let raw = bucket_contents(keys, idx, m as int);
        let b = raw.sort_by(ascending());
        lemma_ascending_total();
        raw.lemma_sort_by_ensures(ascending());
        let ab = a + b;
        assert forall|v: i64| #[trigger] b.contains(v) implies exists|i: int|
            0 <= i < keys.len() && keys[i] == v && idx[i] == m by {
            lemma_bucket_member(keys, idx, m as int, v);
        }
        assert forall|i: int, j: int| 0 <= i < j < ab.len() implies #[trigger] ascending()(ab[i], ab[j]) by {
            if j < a.len() {
                assert(ascending()(a[i], a[j]));
            } else if i >= a.len() {
                assert(ascending()(b[i - a.len()], b[j - a.len()]));
            } else {
                let x = a[i];
                let y = b[j - a.len()];
                assert(a.contains(x));
                assert(b.contains(y));
                let p = choose|p: int| 0 <= p < keys.len() && keys[p] == x && idx[p] < m;
                let q = choose|q: int| 0 <= q < keys.len() && keys[q] == y && idx[q] == m;
                if x > y {
                    assert(keys[q] < keys[p]);
                    assert(idx[q] <= idx[p]);
                }
            }
        }
        assert forall|v: i64| ab.contains(v) implies exists|i: int|
            0 <= i < keys.len() && keys[i] == v && idx[i] < n by {
            let k = choose|k: int| 0 <= k < ab.len() && ab[k] == v;
            if k < a.len() {
                assert(a.contains(v));
            } else {
                assert(b[k - a.len()] == v);
                assert(b.contains(v));
            }
        }
    }
}

/// The count of out-of-order adjacent pairs is zero exactly when the keys
/// are in ascending order.
pub proof fn lemma_no_descents_iff_sorted(s: Seq<i64>)
    ensures
        count_descents(s) == 0 <==> sorted_by(s, ascending()),
    decreases s.len(),
{
    if s.len() >= 2 {
        let t = s.drop_last();
        lemma_no_descents_iff_sorted(t);
        let n = s.len() as int;
        if count_descents(s) == 0 {
            assert forall|i: int, j: int| 0 <= i < j < s.len() implies #[trigger] ascending()(s[i], s[j]) by {
                if j < n - 1 {
                    assert(ascending()(t[i], t[j]));
                } else if i < n - 2 {
                    assert(ascending()(t[i], t[n - 2]));
                }
            }
        }
        if sorted_by(s, ascending()) {
            assert forall|i: int, j: int| 0 <= i < j < t.len() implies #[trigger] ascending()(t[i], t[j]) by {
                assert(ascending()(s[i], s[j]));
            }
            assert(ascending()(s[n - 2], s[n - 1]));
        }
    }
}

/// Wraps `slice::sort` (through `Vec`'s deref): std documents that it sorts
/// the slice in ascending order, so afterwards the keys are a rearrangement
/// of the old ones and ascending. Which of two equal keys comes first is
/// not observable on `i64`.
#[verifier::external_body]
fn sort_keys(keys: &mut Vec<i64>)
    ensures
        final(keys)@.to_multiset() == old(keys)@.to_multiset(),
        sorted_by(final(keys)@, ascending()),
{
    keys.sort();
}

/// Sorts `arr` by buckets: key `arr[i]` goes to bucket `bucket_of[i]`, each
/// bucket is sorted in ascending order, and the buckets are concatenated in
/// the order of their indices.
pub fn bucket_sort(arr: Vec<i64>, bucket_of: &Vec<usize>, num_buckets: usize) -> (sorted: Vec<i64>)
    requires
        arr@.len() == bucket_of@.len(),
        indices_below(bucket_of@, num_buckets as nat),
    ensures
        sorted@ == bucket_sorted(arr@, bucket_of@, num_buckets as nat),
        sorted@.to_multiset() == arr@.to_multiset(),
        monotone_buckets(arr@, bucket_of@) ==> sorted_by(sorted@, ascending()),
{
    let len = arr.len();
    let mut buckets: Vec<Vec<i64>> = Vec::new();
    let mut b: usize = 0;
    while b < num_buckets
        invariant
            b <= num_buckets,
            buckets@.len() == b,
            forall|c: int| 0 <= c < b ==> (#[trigger] buckets@[c])@ == Seq::<i64>::empty(),
        decreases num_buckets - b,
    {
        buckets.push(Vec::new());
        b = b + 1;
    }
    proof {
        assert forall|c: int| 0 <= c < num_buckets implies (#[trigger] buckets@[c])@ == bucket_contents(
            arr@.take(0),
            bucket_of@.take(0),
            c,
        ) by {}
    }
    let mut i: usize = 0;
    while i < len
        invariant
            i <= len,
            len == arr@.len(),
            len == bucket_of@.len(),
            indices_below(bucket_of@, num_buckets as nat),
            buckets@.len() == num_buckets,
            forall|c: int|
                0 <= c < num_buckets ==> (#[trigger] buckets@[c])@ == bucket_contents(
                    arr@.take(i as int),
                    bucket_of@.take(i as int),
                    c,
                ),
        decreases len - i,
    {
        let bi = bucket_of[i];
        assert(bi < num_buckets);
        let key = arr[i];
        let ghost before = buckets@;
        buckets[bi].push(key);
        proof {
            let k1 = arr@.take(i as int + 1);
            let i1 = bucket_of@.take(i as int + 1);
            assert(k1.drop_last() =~= arr@.take(i as int));
            assert(i1.drop_last() =~= bucket_of@.take(i as int));
            assert forall|c: int| 0 <= c < num_buckets implies (#[trigger] buckets@[c])@ == bucket_contents(
                k1,
                i1,
                c,
            ) by {
                if c != bi {
                    assert(buckets@[c] == before[c]);
                }
            }
        }
        i = i + 1;
    }
    proof {
        assert(arr@.take(len as int) =~= arr@);
        assert(bucket_of@.take(len as int) =~= bucket_of@);
    }
    let mut sorted_vec: Vec<i64> = Vec::new();
    let mut b: usize = 0;
    proof {
        assert(sorted_buckets(arr@, bucket_of@, 0) =~= Seq::<Seq<i64>>::empty());
        assert(sorted_buckets(arr@, bucket_of@, 0).flatten() =~= Seq::<i64>::empty());
        lemma_ascending_total();
    }
    while b < num_buckets
        invariant
            b <= num_buckets,
            buckets@.len() == num_buckets,
            total_ordering(ascending()),
            forall|c: int|
                b <= c < num_buckets ==> (#[trigger] buckets@[c])@ == bucket_contents(
                    arr@,
                    bucket_of@,
                    c,
                ),
            sorted_vec@ == sorted_buckets(arr@, bucket_of@, b as nat).flatten(),
        decreases num_buckets - b,
    {
        let mut bucket: Vec<i64> = Vec::new();
        let ghost before = buckets@;
        std::mem::swap(&mut bucket, &mut buckets[b]);
        proof {
            assert forall|c: int| b < c < num_buckets implies (#[trigger] buckets@[c])@ == bucket_contents(
                arr@,
                bucket_of@,
                c,
            ) by {
                assert(buckets@[c] == before[c]);
            }
        }
        let ghost raw = bucket@;
        sort_keys(&mut bucket);
        proof {
            raw.lemma_sort_by_ensures(ascending());
            lemma_sorted_unique(bucket@, raw.sort_by(ascending()), ascending());
            lemma_flatten_step(arr@, bucket_of@, b as nat);
        }
        sorted_vec.append(&mut bucket);
        b = b + 1;
    }
    proof {
        lemma_bucket_sort_permutes(arr@, bucket_of@, num_buckets as nat);
        if monotone_buckets(arr@, bucket_of@) {
            lemma_bucket_sort_sorted(arr@, bucket_of@, num_buckets as nat);
        }
    }
    sorted_vec
}

} // verus!
