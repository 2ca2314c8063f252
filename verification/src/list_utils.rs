use vstd::prelude::*;
use vstd::multiset::Multiset;

verus! {

broadcast use vstd::seq_lib::group_to_multiset_ensures;

/// Whether a vector contains a value.
fn contains_id(vector: &Vec<u64>, x: u64) -> (r: bool)
    ensures
        r == vector@.contains(x),
{
    let n = vector.len();
    let mut i: usize = 0;
    while i < n
        invariant
            n == vector@.len(),
            0 <= i <= n,
            forall|k: int| 0 <= k < i ==> vector@[k] != x,
        decreases n - i,
    {
        if vector[i] == x {
            return true;
        }
        i = i + 1;
    }
    false
}

/// Retrieves the elements of the first vector that are also present in the
/// second, keeping the first vector's order.
pub fn get_present(vector_a: &Vec<u64>, vector_b: &Vec<u64>) -> (r: Vec<u64>)
    ensures
        r@ == vector_a@.filter(|x: u64| vector_b@.contains(x)),
{
    let ghost pred = |x: u64| vector_b@.contains(x);
    let n = vector_a.len();
    let mut result: Vec<u64> = Vec::new();
    let mut i: usize = 0;
    while i < n
        invariant
            n == vector_a@.len(),
            0 <= i <= n,
            pred == (|x: u64| vector_b@.contains(x)),
            result@ == vector_a@.take(i as int).filter(pred),
        decreases n - i,
    {
        let x = vector_a[i];
        proof {
            assert(vector_a@.take(i + 1) =~= vector_a@.take(i as int).push(x));
            lemma_filter_push_one(vector_a@.take(i as int), x, pred);
        }
        if contains_id(vector_b, x) {
            result.push(x);
        }
        i = i + 1;
    }
    proof {
        assert(vector_a@.take(n as int) =~= vector_a@);
    }
    result
}

/// Retrieves the elements of the first vector that are absent from the
/// second, keeping the first vector's order.
pub fn get_absent(vector_a: &Vec<u64>, vector_b: &Vec<u64>) -> (r: Vec<u64>)
    ensures
        r@ == vector_a@.filter(|x: u64| !vector_b@.contains(x)),
{
    let ghost pred = |x: u64| !vector_b@.contains(x);
    let n = vector_a.len();
    let mut result: Vec<u64> = Vec::new();
    let mut i: usize = 0;
    while i < n
        invariant
            n == vector_a@.len(),
            0 <= i <= n,
            pred == (|x: u64| !vector_b@.contains(x)),
            result@ == vector_a@.take(i as int).filter(pred),
        decreases n - i,
    {
        let x = vector_a[i];
        proof {
            assert(vector_a@.take(i + 1) =~= vector_a@.take(i as int).push(x));
            lemma_filter_push_one(vector_a@.take(i as int), x, pred);
        }
        if !contains_id(vector_b, x) {
            result.push(x);
        }
        i = i + 1;
    }
    proof {
        assert(vector_a@.take(n as int) =~= vector_a@);
    }
    result
}

/// Filtering a sequence extended by one element keeps the earlier selection
/// and appends the new element exactly when it satisfies the predicate.
proof fn lemma_filter_push_one<A>(s: Seq<A>, x: A, pred: spec_fn(A) -> bool)
    ensures
        s.push(x).filter(pred) == if pred(x) {
            s.filter(pred).push(x)
        } else {
            s.filter(pred)
        },
{
    reveal(Seq::filter);
    assert(s.push(x).drop_last() =~= s);
    assert(s.push(x).last() == x);
}

/// The index of a smallest element of the non-empty suffix of a vector.
fn min_index(vector: &Vec<u64>) -> (r: usize)
    requires
        vector@.len() > 0,
    ensures
        0 <= r < vector@.len(),
        forall|k: int| 0 <= k < vector@.len() ==> vector@[r as int] <= vector@[k],
{
    let n = vector.len();
    let mut best: usize = 0;
    let mut i: usize = 1;
    while i < n
        invariant
            n == vector@.len(),
            0 <= best < n,
            1 <= i <= n,
            forall|k: int| 0 <= k < i ==> vector@[best as int] <= vector@[k],
        decreases n - i,
    {
        if vector[i] < vector[best] {
            best = i;
        }
        i = i + 1;
    }
    best
}

/// The index of a largest element of the non-empty suffix of a vector.
fn max_index(vector: &Vec<u64>) -> (r: usize)
    requires
        vector@.len() > 0,
    ensures
        0 <= r < vector@.len(),
        forall|k: int| 0 <= k < vector@.len() ==> vector@[r as int] >= vector@[k],
{
    let n = vector.len();
    let mut best: usize = 0;
    let mut i: usize = 1;
    while i < n
        invariant
            n == vector@.len(),
            0 <= best < n,
            1 <= i <= n,
            forall|k: int| 0 <= k < i ==> vector@[best as int] >= vector@[k],
        decreases n - i,
    {
        if vector[i] > vector[best] {
            best = i;
        }
        i = i + 1;
    }
    best
}

/// Sorts the vector in ascending order, keeping exactly the same elements.
pub fn ascendant_sort(vector: &mut Vec<u64>)
    ensures
        final (vector)@.to_multiset() == old(vector)@.to_multiset(),
        final (vector)@.len() == old(vector)@.len(),
        forall|i: int, j: int|
            0 <= i < j < final (vector)@.len() ==> final (vector)@[i] <= final (vector)@[j],
{
    let ghost orig = vector@;
    let mut result: Vec<u64> = Vec::new();
    proof {
        assert(result@.to_multiset().add(vector@.to_multiset()) =~= orig.to_multiset());
    }
    while vector.len() > 0
        invariant
            result@.to_multiset().add(vector@.to_multiset()) == orig.to_multiset(),
            result@.len() + vector@.len() == orig.len(),
            forall|i: int, j: int| 0 <= i < j < result@.len() ==> result@[i] <= result@[j],
            forall|i: int, k: int|
                0 <= i < result@.len() && 0 <= k < vector@.len() ==> result@[i] <= vector@[k],
        decreases vector@.len(),
    {
        let mi = min_index(vector);
        let x = vector[mi];
        let ghost before = vector@;
        vector.remove(mi);
        result.push(x);
        proof {
            assert(vector@.to_multiset() =~= before.to_multiset().remove(x));
            assert(before.to_multiset().count(x) > 0);
            assert(result@.to_multiset().add(vector@.to_multiset()) =~= orig.to_multiset());
            assert(forall|k: int|
                0 <= k < vector@.len() ==> exists|l: int|
                    0 <= l < before.len() && before[l] == #[trigger] vector@[k]);
        }
    }
    proof {
        assert(vector@.to_multiset() =~= Multiset::<u64>::empty());
        assert(result@.to_multiset().add(Multiset::<u64>::empty()) =~= result@.to_multiset());
    }
    *vector = result;
}

/// Sorts the vector in descending order, keeping exactly the same elements.
pub fn descendant_sort(vector: &mut Vec<u64>)
    ensures
        final (vector)@.to_multiset() == old(vector)@.to_multiset(),
        final (vector)@.len() == old(vector)@.len(),
        forall|i: int, j: int|
            0 <= i < j < final (vector)@.len() ==> final (vector)@[i] >= final (vector)@[j],
{
    let ghost orig = vector@;
    let mut result: Vec<u64> = Vec::new();
    proof {
        assert(result@.to_multiset().add(vector@.to_multiset()) =~= orig.to_multiset());
    }
    while vector.len() > 0
        invariant
            result@.to_multiset().add(vector@.to_multiset()) == orig.to_multiset(),
            result@.len() + vector@.len() == orig.len(),
            forall|i: int, j: int| 0 <= i < j < result@.len() ==> result@[i] >= result@[j],
            forall|i: int, k: int|
                0 <= i < result@.len() && 0 <= k < vector@.len() ==> result@[i] >= vector@[k],
        decreases vector@.len(),
    {
        let mi = max_index(vector);
        let x = vector[mi];
        let ghost before = vector@;
        vector.remove(mi);
        result.push(x);
        proof {
            assert(vector@.to_multiset() =~= before.to_multiset().remove(x));
            assert(before.to_multiset().count(x) > 0);
            assert(result@.to_multiset().add(vector@.to_multiset()) =~= orig.to_multiset());
            assert(forall|k: int|
                0 <= k < vector@.len() ==> exists|l: int|
                    0 <= l < before.len() && before[l] == #[trigger] vector@[k]);
        }
    }
    proof {
        assert(vector@.to_multiset() =~= Multiset::<u64>::empty());
        assert(result@.to_multiset().add(Multiset::<u64>::empty()) =~= result@.to_multiset());
    }
    *vector = result;
}

} // verus!
