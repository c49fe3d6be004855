use vstd::prelude::*;

use itertools::Itertools;

use crate::rect::Rectangle;

verus! {

/// `s` lists `k` distinct positions below `n` in increasing order.
pub open spec fn is_k_subset(s: Seq<usize>, n: nat, k: nat) -> bool {
    &&& s.len() == k
    &&& forall|i: int| 0 <= i < s.len() ==> s[i] < n
    &&& forall|i: int, j: int| 0 <= i < j < s.len() ==> s[i] < s[j]
}

/// `s` lists every position below `n` exactly once.
pub open spec fn is_permutation(s: Seq<usize>, n: nat) -> bool {
    &&& s.len() == n
    &&& forall|i: int| 0 <= i < s.len() ==> s[i] < n
    &&& s.no_duplicates()
}

/// `t` picks one member from each of the sets, in their order.
pub open spec fn is_choice(t: Seq<Rectangle>, sets: Seq<Vec<Rectangle>>) -> bool {
    &&& t.len() == sets.len()
    &&& forall|j: int| 0 <= j < t.len() ==> sets[j]@.contains(#[trigger] t[j])
}

/// No earlier key equals the key at `i`.
pub open spec fn first_of_its_key(keys: Seq<Vec<u64>>, i: int) -> bool {
    forall|j: int| 0 <= j < i ==> keys[j]@ != keys[i]@
}

pub open spec fn sorted_u64(s: Seq<u64>) -> bool {
    forall|i: int, j: int| 0 <= i < j < s.len() ==> s[i] <= s[j]
}

/// The decimal digits of a natural number, most significant first.
pub open spec fn decimal_digits(n: nat) -> Seq<char>
    decreases n,
{
    let d = seq!['0', '1', '2', '3', '4', '5', '6', '7', '8', '9'][(n % 10) as int];
    if n < 10 {
        seq![d]
    } else {
        decimal_digits(n / 10).push(d)
    }
}

/// An integer as `Display` writes it: a minus sign when negative, then its digits.
pub open spec fn int_text(x: int) -> Seq<char> {
    if x < 0 {
        seq!['-'] + decimal_digits((-x) as nat)
    } else {
        decimal_digits(x as nat)
    }
}

/// The ids written out and separated by commas.
pub open spec fn ids_text(ids: Seq<i8>) -> Seq<char>
    decreases ids.len(),
{
    if ids.len() == 0 {
        Seq::empty()
    } else if ids.len() == 1 {
        int_text(ids[0] as int)
    } else {
        ids_text(ids.drop_last()) + seq![','] + int_text(ids.last() as int)
    }
}

/// Relies on Itertools::join with "," over the ids, each written by `Display`.
#[verifier::external_body]
pub(crate) fn join_ids(ids: &Vec<i8>) -> (r: String)
    ensures
        r@ == ids_text(ids@),
{
    ids.iter().join(",")
}

/// Relies on Itertools::combinations over `0..n`: every `k`-element subset once, each
/// as its increasing list of positions.
#[verifier::external_body]
pub(crate) fn index_combinations(n: usize, k: usize) -> (r: Vec<Vec<usize>>)
    ensures
        forall|i: int, j: int| 0 <= i < j < r@.len() ==> r@[i]@ != r@[j]@,
        forall|i: int| 0 <= i < r@.len() ==> is_k_subset(#[trigger] r@[i]@, n as nat, k as nat),
        forall|s: Seq<usize>|
            is_k_subset(s, n as nat, k as nat) ==> exists|i: int|
                0 <= i < r@.len() && #[trigger] r@[i]@ == s,
{
    (0..n).combinations(k).collect()
}

/// Relies on Itertools::permutations over `0..n`, taking all `n`: every ordering of
/// the positions.
#[verifier::external_body]
pub(crate) fn index_permutations(n: usize) -> (r: Vec<Vec<usize>>)
    ensures
        forall|i: int| 0 <= i < r@.len() ==> is_permutation(#[trigger] r@[i]@, n as nat),
        forall|s: Seq<usize>|
            is_permutation(s, n as nat) ==> exists|i: int|
                0 <= i < r@.len() && #[trigger] r@[i]@ == s,
{
    (0..n).permutations(n).collect()
}

/// Relies on Itertools::multi_cartesian_product: every way to pick one member of each
/// set, for at least one set.
#[verifier::external_body]
pub(crate) fn cartesian_product(sets: &Vec<Vec<Rectangle>>) -> (r: Vec<Vec<Rectangle>>)
    requires
        sets@.len() > 0,
    ensures
        forall|i: int| 0 <= i < r@.len() ==> is_choice(#[trigger] r@[i]@, sets@),
        forall|t: Seq<Rectangle>|
            is_choice(t, sets@) ==> exists|i: int| 0 <= i < r@.len() && #[trigger] r@[i]@ == t,
{
    sets.iter().map(|s| s.iter().copied()).multi_cartesian_product().collect()
}

/// Relies on Itertools::unique_by: the positions of the keys that no earlier key
/// equals, in increasing order.
#[verifier::external_body]
pub(crate) fn first_of_each_key(keys: &Vec<Vec<u64>>) -> (r: Vec<usize>)
    ensures
        forall|a: int, b: int| 0 <= a < b < r@.len() ==> r@[a] < r@[b],
        forall|a: int| 0 <= a < r@.len() ==> r@[a] < keys@.len(),
        forall|i: int|
            0 <= i < keys@.len() ==> (r@.contains(i as usize) <==> first_of_its_key(keys@, i)),
{
    keys.iter().enumerate().unique_by(|p| p.1).map(|p| p.0).collect()
}

/// Relies on Itertools::sorted: the same values in ascending order.
#[verifier::external_body]
pub(crate) fn sort_values(v: Vec<u64>) -> (r: Vec<u64>)
    ensures
        r@.to_multiset() == v@.to_multiset(),
        sorted_u64(r@),
{
    v.into_iter().sorted().collect()
}

/// Relies on Itertools::sorted_by_key, a stable sort: the positions of `keys` ordered by
/// key, equal keys in their original order.
#[verifier::external_body]
pub(crate) fn order_by_key(keys: &Vec<i128>) -> (r: Vec<usize>)
    ensures
        is_permutation(r@, keys@.len()),
        forall|i: usize| i < keys@.len() ==> #[trigger] r@.contains(i),
        forall|a: int, b: int|
            0 <= a < b < r@.len() ==> keys@[r@[a] as int] < keys@[r@[b] as int] || (keys@[r@[a] as int]
                == keys@[r@[b] as int] && r@[a] < r@[b]),
{
    keys.iter().enumerate().sorted_by_key(|p| *p.1).map(|p| p.0).collect()
}

} // verus!
