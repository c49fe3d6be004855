use vstd::prelude::*;
use vstd::relations::{sorted_by, total_ordering};
use vstd::seq_lib::{to_multiset_build, to_multiset_contains, to_multiset_len, to_multiset_remove};

use crate::combinatorics::{
    first_of_each_key, first_of_its_key, ids_text, join_ids, sort_values, sorted_u64,
};
use crate::config::RectConfiguration;
use crate::matching::marks;
use crate::rect::{dedup_spec, RecId, Rectangle};

verus! {

/// A set of distinct pieces, as strictly increasing positions in the inventory.
pub type Combination = Vec<usize>;

/// Three layers of a covering.
pub type Solution = (Combination, Combination, Combination);

/// Every member names a piece of the inventory.
pub open spec fn within(n: nat, c: Seq<usize>) -> bool {
    forall|i: int| 0 <= i < c.len() ==> c[i] < n
}

/// Members in strictly increasing order, hence distinct.
pub open spec fn increasing(c: Seq<usize>) -> bool {
    forall|i: int, j: int| 0 <= i < j < c.len() ==> c[i] < c[j]
}

/// A pair of sides as one integer, the first side in the high half; the order of the
/// integers is the lexicographic order of the pairs.
pub open spec fn pack(p: (u32, u32)) -> u64 {
    (p.0 as int * 0x1_0000_0000 + p.1 as int) as u64
}

/// The dimension-equivalence key of a piece, packed.
pub open spec fn piece_key(r: Rectangle) -> u64 {
    pack(dedup_spec(r))
}

pub open spec fn u64_leq() -> spec_fn(u64, u64) -> bool {
    |a: u64, b: u64| a <= b
}

/// The packed key of each member, in the combination's order.
pub open spec fn member_keys(blocks: Seq<Rectangle>, c: Seq<usize>) -> Seq<u64> {
    c.map_values(|i: usize| piece_key(blocks[i as int]))
}

/// The dedup key of a combination: its members' keys, sorted.
pub open spec fn combination_key(blocks: Seq<Rectangle>, c: Seq<usize>) -> Seq<u64> {
    member_keys(blocks, c).sort_by(u64_leq())
}

proof fn lemma_u64_leq_total()
    ensures
        total_ordering(u64_leq()),
{
}

/// Two sorted sequences with the same elements are equal.
proof fn lemma_sorted_unique(a: Seq<u64>, b: Seq<u64>)
    requires
        sorted_u64(a),
        sorted_u64(b),
        a.to_multiset() == b.to_multiset(),
    ensures
        a == b,
    decreases a.len(),
{
    to_multiset_len(a);
    to_multiset_len(b);
    if a.len() == 0 {
        assert(a =~= b);
    } else {
        to_multiset_contains(a, a[0]);
        to_multiset_contains(b, a[0]);
        to_multiset_contains(a, b[0]);
        to_multiset_contains(b, b[0]);
        let j = choose|j: int| 0 <= j < b.len() && b[j] == a[0];
        let i = choose|i: int| 0 <= i < a.len() && a[i] == b[0];
        assert(b[0] <= b[j]);
        assert(a[0] <= a[i]);
        to_multiset_remove(a, 0);
        to_multiset_remove(b, 0);
        assert(a.remove(0) =~= a.drop_first());
        assert(b.remove(0) =~= b.drop_first());
        assert(a[0] == b[0]);
        assert(a.drop_first().to_multiset() == b.drop_first().to_multiset());
        lemma_sorted_unique(a.drop_first(), b.drop_first());
        assert forall|k: int| 0 <= k < a.len() implies a[k] == b[k] by {
            if k > 0 {
                assert(a[k] == a.drop_first()[k - 1]);
                assert(b[k] == b.drop_first()[k - 1]);
            }
        }
        assert(a =~= b);
    }
}

/// Mapping two sequences with the same elements gives sequences with the same elements.
proof fn lemma_map_multiset<A, B>(a: Seq<A>, b: Seq<A>, f: spec_fn(A) -> B)
    requires
        a.to_multiset() == b.to_multiset(),
    ensures
        a.map_values(f).to_multiset() == b.map_values(f).to_multiset(),
    decreases a.len(),
{
    broadcast use vstd::multiset::group_multiset_axioms;

    to_multiset_len(a);
    to_multiset_len(b);
    if a.len() == 0 {
        assert(a.map_values(f) =~= b.map_values(f));
    } else {
        let x = a.last();
        let a1 = a.drop_last();
        assert(a1.push(x) =~= a);
        to_multiset_build(a1, x);
        to_multiset_contains(b, x);
        let j = choose|j: int| 0 <= j < b.len() && b[j] == x;
        let b1 = b.remove(j);
        to_multiset_remove(b, j);
        assert(a1.to_multiset() =~= a.to_multiset().remove(x));
        lemma_map_multiset(a1, b1, f);
        assert(a1.map_values(f).push(f(x)) =~= a.map_values(f));
        to_multiset_build(a1.map_values(f), f(x));
        assert(b.map_values(f).remove(j) =~= b1.map_values(f));
        to_multiset_remove(b.map_values(f), j);
        to_multiset_contains(b.map_values(f), f(x));
        assert(b.map_values(f)[j] == f(x));
        assert(b.map_values(f).to_multiset() =~= b1.map_values(f).to_multiset().insert(f(x)));
    }
}

/// The dedup key of a combination depends only on which pieces it holds: building the
/// same set of pieces in another order gives the same key.
pub proof fn lemma_key_ignores_order(blocks: Seq<Rectangle>, a: Seq<usize>, b: Seq<usize>)
    requires
        a.no_duplicates(),
        b.no_duplicates(),
        a.to_set() == b.to_set(),
    ensures
        combination_key(blocks, a) == combination_key(blocks, b),
{
    broadcast use vstd::multiset::group_multiset_axioms;

    a.lemma_multiset_has_no_duplicates();
    b.lemma_multiset_has_no_duplicates();
    assert forall|x: usize| a.to_multiset().count(x) == b.to_multiset().count(x) by {
        to_multiset_contains(a, x);
        to_multiset_contains(b, x);
        assert(a.contains(x) <==> a.to_set().contains(x));
        assert(b.contains(x) <==> b.to_set().contains(x));
    }
    assert(a.to_multiset() =~= b.to_multiset());
    let f = |i: usize| piece_key(blocks[i as int]);
    lemma_map_multiset(a, b, f);
    lemma_u64_leq_total();
    member_keys(blocks, a).lemma_sort_by_ensures(u64_leq());
    member_keys(blocks, b).lemma_sort_by_ensures(u64_leq());
    let ka = combination_key(blocks, a);
    let kb = combination_key(blocks, b);
    assert(sorted_by(ka, u64_leq()));
    assert(sorted_by(kb, u64_leq()));
    assert forall|i: int, j: int| 0 <= i < j < ka.len() implies ka[i] <= ka[j] by {
        assert(u64_leq()(ka[i], ka[j]));
    }
    assert forall|i: int, j: int| 0 <= i < j < kb.len() implies kb[i] <= kb[j] by {
        assert(u64_leq()(kb[i], kb[j]));
    }
    lemma_sorted_unique(ka, kb);
}

/// The two sides packed into one integer.
fn pack_key(p: (u32, u32)) -> (r: u64)
    ensures
        r == pack(p),
{
    (p.0 as u64) * 0x1_0000_0000 + (p.1 as u64)
}

/// The ids of the members, in the combination's order.
pub open spec fn member_ids(blocks: Seq<Rectangle>, c: Seq<usize>) -> Seq<i8> {
    c.map_values(|i: usize| blocks[i as int].id)
}

/// Ids in ascending order.
pub open spec fn ascending_ids(s: Seq<i8>) -> bool {
    forall|i: int, j: int| 0 <= i < j < s.len() ==> s[i] <= s[j]
}

pub open spec fn id_to_key(x: i8) -> u64 {
    (x as int + 128) as u64
}

pub open spec fn key_to_id(k: u64) -> i8 {
    (k as int - 128) as i8
}

/// The ids of the members in ascending order.
fn sort_ids(ids: &Vec<RecId>) -> (r: Vec<RecId>)
    ensures
        ascending_ids(r@),
        r@.to_multiset() == ids@.to_multiset(),
{
    let mut keys: Vec<u64> = Vec::new();
    let mut i: usize = 0;
    while i < ids.len()
        invariant
            0 <= i <= ids@.len(),
            keys@ == ids@.subrange(0, i as int).map_values(|x: i8| id_to_key(x)),
        decreases ids@.len() - i,
    {
        keys.push((ids[i] as i64 + 128) as u64);
        i += 1;
        assert(keys@ =~= ids@.subrange(0, i as int).map_values(|x: i8| id_to_key(x)));
    }
    assert(ids@.subrange(0, i as int) =~= ids@);
    let ghost unsorted = keys@;
    let sorted = sort_values(keys);
    proof {
        assert forall|k: int| 0 <= k < sorted@.len() implies sorted@[k] <= 255 by {
            to_multiset_contains(sorted@, sorted@[k]);
            to_multiset_contains(unsorted, sorted@[k]);
            let j = choose|j: int| 0 <= j < unsorted.len() && unsorted[j] == sorted@[k];
        }
    }
    let mut r: Vec<RecId> = Vec::new();
    let mut j: usize = 0;
    while j < sorted.len()
        invariant
            0 <= j <= sorted@.len(),
            forall|k: int| 0 <= k < sorted@.len() ==> sorted@[k] <= 255,
            r@ == sorted@.subrange(0, j as int).map_values(|k: u64| key_to_id(k)),
        decreases sorted@.len() - j,
    {
        r.push((sorted[j] as i64 - 128) as i8);
        j += 1;
        assert(r@ =~= sorted@.subrange(0, j as int).map_values(|k: u64| key_to_id(k)));
    }
    assert(sorted@.subrange(0, j as int) =~= sorted@);
    proof {
        lemma_map_multiset(sorted@, unsorted, |k: u64| key_to_id(k));
        assert(unsorted.map_values(|k: u64| key_to_id(k)) =~= ids@);
        assert forall|a: int, b: int| 0 <= a < b < r@.len() implies r@[a] <= r@[b] by {
            assert(sorted@[a] <= sorted@[b]);
        }
    }
    r
}

/// The combination as text: the ids of its members in ascending order, joined by
/// commas.
pub fn combination_to_string(cfg: &RectConfiguration, combination: &Combination) -> (r: String)
    requires
        within(cfg.available_blocks@.len(), combination@),
    ensures
        exists|s: Seq<i8>|
            ascending_ids(s) && s.to_multiset() == member_ids(cfg.available_blocks@, combination@).to_multiset()
                && r@ == #[trigger] ids_text(s),
{
    let mut ids: Vec<RecId> = Vec::new();
    let mut i: usize = 0;
    while i < combination.len()
        invariant
            0 <= i <= combination@.len(),
            within(cfg.available_blocks@.len(), combination@),
            ids@ == member_ids(cfg.available_blocks@, combination@.subrange(0, i as int)),
        decreases combination@.len() - i,
    {
        ids.push(cfg.available_blocks[combination[i]].id);
        i += 1;
        assert(ids@ =~= member_ids(cfg.available_blocks@, combination@.subrange(0, i as int)));
    }
    assert(combination@.subrange(0, i as int) =~= combination@);
    let sorted = sort_ids(&ids);
    let r = join_ids(&sorted);
    assert(ascending_ids(sorted@) && sorted@.to_multiset() == member_ids(cfg.available_blocks@, combination@).to_multiset() && r@ == ids_text(sorted@));
    r
}

/// Some piece of the inventory carries the id.
pub open spec fn known_id(blocks: Seq<Rectangle>, id: i8) -> bool {
    exists|i: int| 0 <= i < blocks.len() && blocks[i].id == id
}

/// `r` is the combination of the pieces with the ids `ids`, or `None` exactly when an id
/// names no piece of the inventory.
pub open spec fn combination_of_ids(blocks: Seq<Rectangle>, ids: Seq<i8>, r: Option<Combination>) -> bool {
    &&& (r is None <==> exists|k: int| 0 <= k < ids.len() && !known_id(blocks, #[trigger] ids[k]))
    &&& (r matches Some(c) ==> increasing(c@) && within(blocks.len(), c@) && forall|i: int|
        0 <= i < blocks.len() ==> (c@.contains(i as usize) <==> ids.contains(blocks[i].id)))
}

/// The combination of the pieces with the given ids, or `None` when an id names no
/// piece of the inventory. Repeated ids count once.
pub fn combination_from_ids(cfg: &RectConfiguration, ids: &Vec<RecId>) -> (r: Option<Combination>)
    ensures
        combination_of_ids(cfg.available_blocks@, ids@, r),
{
    let n = cfg.available_blocks.len();
    let mut k: usize = 0;
    while k < ids.len()
        invariant
            0 <= k <= ids@.len(),
            forall|q: int| 0 <= q < k ==> known_id(cfg.available_blocks@, #[trigger] ids@[q]),
        decreases ids@.len() - k,
    {
        match cfg.find_block(ids[k]) {
            Some(_) => {},
            None => {
                return None;
            },
        }
        k += 1;
    }
    let mut c: Combination = Vec::new();
    let mut i: usize = 0;
    while i < n
        invariant
            0 <= i <= n,
            n == cfg.available_blocks@.len(),
            increasing(c@),
            forall|q: int| 0 <= q < ids@.len() ==> known_id(cfg.available_blocks@, #[trigger] ids@[q]),
            forall|q: int| 0 <= q < c@.len() ==> c@[q] < i,
            forall|j: int|
                0 <= j < i ==> (c@.contains(j as usize) <==> ids@.contains(cfg.available_blocks@[j].id)),
        decreases n - i,
    {
        let id = cfg.available_blocks[i].id;
        let mut found = false;
        let mut q: usize = 0;
        while q < ids.len()
            invariant
                0 <= q <= ids@.len(),
                found <==> exists|p: int| 0 <= p < q && ids@[p] == id,
            decreases ids@.len() - q,
        {
            if ids[q] == id {
                found = true;
            }
            q += 1;
        }
        let ghost before = c@;
        if found {
            c.push(i);
        }
        proof {
            assert forall|j: int|
                0 <= j < i + 1 implies (c@.contains(j as usize) <==> ids@.contains(cfg.available_blocks@[j].id)) by {
                if j < i {
                    if c@.contains(j as usize) {
                        let p = choose|p: int| 0 <= p < c@.len() && c@[p] == j as usize;
                        if p < before.len() {
                            assert(before.contains(j as usize));
                        }
                    }
                    if before.contains(j as usize) {
                        let p = choose|p: int| 0 <= p < before.len() && before[p] == j as usize;
                        assert(c@[p] == j as usize);
                    }
                } else {
                    if found {
                        assert(c@[before.len() as int] == i);
                    } else {
                        if c@.contains(j as usize) {
                            let p = choose|p: int| 0 <= p < c@.len() && c@[p] == j as usize;
                        }
                    }
                }
            }
        }
        i += 1;
    }
    Some(c)
}

/// A copy of the combination.
pub fn clone_combination(c: &Combination) -> (r: Combination)
    ensures
        r@ == c@,
{
    let r = c.clone();
    assert(r@ =~= c@);
    r
}

/// The dedup key of a combination: its members' dimension-equivalence keys, each packed
/// into one integer, sorted. Combinations with equal keys have the same shape pattern.
pub fn get_unique_combination_key(cfg: &RectConfiguration, combination: &Combination) -> (r: Vec<
    u64,
>)
    requires
        within(cfg.available_blocks@.len(), combination@),
    ensures
        r@ == combination_key(cfg.available_blocks@, combination@),
{
    let ghost blocks = cfg.available_blocks@;
    let mut keys: Vec<u64> = Vec::new();
    let mut i: usize = 0;
    while i < combination.len()
        invariant
            0 <= i <= combination@.len(),
            blocks == cfg.available_blocks@,
            within(blocks.len(), combination@),
            keys@ == member_keys(blocks, combination@.subrange(0, i as int)),
        decreases combination@.len() - i,
    {
        let k = pack_key(cfg.available_blocks[combination[i]].dedup());
        keys.push(k);
        i += 1;
        assert(keys@ =~= member_keys(blocks, combination@.subrange(0, i as int)));
    }
    assert(combination@.subrange(0, i as int) =~= combination@);
    let ghost unsorted = keys@;
    let r = sort_values(keys);
    proof {
        lemma_u64_leq_total();
        unsorted.lemma_sort_by_ensures(u64_leq());
        let s = unsorted.sort_by(u64_leq());
        assert forall|a: int, b: int| 0 <= a < b < s.len() implies s[a] <= s[b] by {
            assert(u64_leq()(s[a], s[b]));
        }
        lemma_sorted_unique(r@, s);
    }
    r
}

/// The members of each combination of the list.
pub open spec fn views(s: Seq<Combination>) -> Seq<Seq<usize>> {
    s.map_values(|c: Combination| c@)
}

/// The combination at `i` is the first of the list with its dedup key.
pub open spec fn first_of_its_shape(blocks: Seq<Rectangle>, combos: Seq<Seq<usize>>, i: int) -> bool {
    forall|j: int|
        0 <= j < i ==> combination_key(blocks, combos[j]) != combination_key(blocks, combos[i])
}

/// `r` holds, in list order, the combinations of `combos` that come first with their
/// dedup key.
pub open spec fn keeps_first_of_each_shape(blocks: Seq<Rectangle>, combos: Seq<Seq<usize>>, r: Seq<Seq<usize>>) -> bool {
    exists|idx: Seq<usize>|
        {
            &&& increasing(idx)
            &&& idx.len() == r.len()
            &&& forall|a: int| 0 <= a < idx.len() ==> idx[a] < combos.len()
            &&& forall|i: int|
                0 <= i < combos.len() ==> (idx.contains(i as usize) <==> first_of_its_shape(
                    blocks,
                    combos,
                    i,
                ))
            &&& forall|a: int| 0 <= a < idx.len() ==> #[trigger] r[a] == combos[idx[a] as int]
        }
}

/// Keep one combination per dedup key: the first of the list with that key, in the
/// order of the list.
pub fn dedup_comb_iter(cfg: &RectConfiguration, combos: &Vec<Combination>) -> (r: Vec<
    Combination,
>)
    requires
        forall|i: int|
            0 <= i < combos@.len() ==> within(cfg.available_blocks@.len(), #[trigger] combos@[i]@),
    ensures
        keeps_first_of_each_shape(cfg.available_blocks@, views(combos@), views(r@)),
        forall|k: int| 0 <= k < r@.len() ==> within(cfg.available_blocks@.len(), #[trigger] r@[k]@),
{
    let ghost blocks = cfg.available_blocks@;
    let mut keys: Vec<Vec<u64>> = Vec::new();
    let mut i: usize = 0;
    while i < combos.len()
        invariant
            0 <= i <= combos@.len(),
            blocks == cfg.available_blocks@,
            forall|k: int| 0 <= k < combos@.len() ==> within(blocks.len(), #[trigger] combos@[k]@),
            keys@.len() == i,
            forall|k: int| 0 <= k < i ==> #[trigger] keys@[k]@ == combination_key(blocks, combos@[k]@),
        decreases combos@.len() - i,
    {
        let k = get_unique_combination_key(cfg, &combos[i]);
        keys.push(k);
        i += 1;
    }
    let idx = first_of_each_key(&keys);
    let mut r: Vec<Combination> = Vec::new();
    let mut a: usize = 0;
    while a < idx.len()
        invariant
            0 <= a <= idx@.len(),
            forall|b: int| 0 <= b < idx@.len() ==> idx@[b] < combos@.len(),
            forall|k: int| 0 <= k < combos@.len() ==> within(cfg.available_blocks@.len(), #[trigger] combos@[k]@),
            forall|b: int| 0 <= b < a ==> within(cfg.available_blocks@.len(), #[trigger] r@[b]@),
            r@.len() == a,
            forall|b: int| 0 <= b < a ==> #[trigger] r@[b]@ == combos@[idx@[b] as int]@,
        decreases idx@.len() - a,
    {
        r.push(clone_combination(&combos[idx[a]]));
        a += 1;
    }
    proof {
        assert forall|i: int| 0 <= i < combos@.len() implies first_of_its_key(keys@, i)
            == first_of_its_shape(blocks, views(combos@), i) by {
            assert(keys@[i]@ == combination_key(blocks, combos@[i]@));
            assert(views(combos@)[i] == combos@[i]@);
            if !first_of_its_key(keys@, i) {
                let j = choose|j: int| 0 <= j < i && keys@[j]@ == keys@[i]@;
                assert(keys@[j]@ == combination_key(blocks, combos@[j]@));
                assert(views(combos@)[j] == combos@[j]@);
            }
            if !first_of_its_shape(blocks, views(combos@), i) {
                let j = choose|j: int|
                    0 <= j < i && combination_key(blocks, views(combos@)[j]) == combination_key(
                        blocks,
                        views(combos@)[i],
                    );
                assert(keys@[j]@ == combination_key(blocks, combos@[j]@));
                assert(views(combos@)[j] == combos@[j]@);
            }
        }
        assert(increasing(idx@));
        assert(idx@.len() == views(r@).len());
        assert forall|i: int| 0 <= i < combos@.len() implies (idx@.contains(i as usize)
            <==> first_of_its_shape(cfg.available_blocks@, views(combos@), i)) by {
            assert(idx@.contains(i as usize) <==> first_of_its_key(keys@, i));
        }
        assert(forall|a: int| 0 <= a < idx@.len() ==> #[trigger] views(r@)[a] == views(combos@)[idx@[a] as int]);
    }
    r
}

/// Pieces `a` and `m` share a dimension-equivalence class (each is its own class-mate).
pub open spec fn classmates(blocks: Seq<Rectangle>, a: usize, m: usize) -> bool {
    &&& a < blocks.len()
    &&& m < blocks.len()
    &&& dedup_spec(blocks[m as int]) == dedup_spec(blocks[a as int])
}

/// Piece `m` may stand in for member `e` next to the pieces `r`: a class-mate of `e`,
/// not committed elsewhere, not already used.
pub open spec fn may_substitute(
    blocks: Seq<Rectangle>,
    excluded: Seq<bool>,
    e: usize,
    r: Set<usize>,
    m: usize,
) -> bool {
    &&& classmates(blocks, e, m)
    &&& !excluded[m as int]
    &&& !r.contains(m)
}

/// Every set of pieces obtained from `c` by replacing each member with a distinct
/// class-mate that is not excluded.
pub open spec fn expansions(blocks: Seq<Rectangle>, c: Seq<usize>, excluded: Seq<bool>) -> Set<
    Set<usize>,
>
    decreases c.len(),
{
    if c.len() == 0 {
        Set::empty().insert(Set::empty())
    } else {
        let prev = expansions(blocks, c.drop_last(), excluded);
        Set::new(
            |s: Set<usize>|
                exists|r: Set<usize>, m: usize|
                    prev.contains(r) && may_substitute(blocks, excluded, c.last(), r, m) && s
                        == r.insert(m),
        )
    }
}

/// What redup yields for `c`: its expansions, and none for an empty combination, which
/// has no member to substitute.
pub open spec fn redup_set(blocks: Seq<Rectangle>, c: Seq<usize>, excluded: Seq<bool>) -> Set<Set<usize>> {
    if c.len() == 0 {
        Set::empty()
    } else {
        expansions(blocks, c, excluded)
    }
}

proof fn lemma_expansions_keep_original(blocks: Seq<Rectangle>, c: Seq<usize>, excluded: Seq<bool>)
    requires
        within(blocks.len(), c),
        c.no_duplicates(),
        excluded.len() == blocks.len(),
        forall|i: int| 0 <= i < excluded.len() ==> !excluded[i],
    ensures
        expansions(blocks, c, excluded).contains(c.to_set()),
    decreases c.len(),
{
    if c.len() == 0 {
        assert(c.to_set() =~= Set::<usize>::empty());
    } else {
        let c1 = c.drop_last();
        let x = c.last();
        assert(c1.no_duplicates());
        lemma_expansions_keep_original(blocks, c1, excluded);
        assert(c1.push(x) =~= c);
        c1.lemma_push_to_set_commute(x);
        assert(!c1.contains(x));
        assert(!c1.to_set().contains(x));
        assert(may_substitute(blocks, excluded, x, c1.to_set(), x));
        assert(c.to_set() == c1.to_set().insert(x));
    }
}

/// Whether `m` is a member of `c`.
pub(crate) fn has_member(c: &Combination, m: usize) -> (r: bool)
    ensures
        r == c@.contains(m),
{
    let mut i: usize = 0;
    while i < c.len()
        invariant
            0 <= i <= c@.len(),
            forall|k: int| 0 <= k < i ==> c@[k] != m,
        decreases c@.len() - i,
    {
        if c[i] == m {
            return true;
        }
        i += 1;
    }
    false
}

/// The combination with `m` added in its place.
fn insert_member(c: &Combination, m: usize) -> (r: Combination)
    requires
        increasing(c@),
        !c@.contains(m),
    ensures
        increasing(r@),
        r@.to_set() == c@.to_set().insert(m),
        r@.len() == c@.len() + 1,
        forall|k: int| 0 <= k < r@.len() ==> r@[k] == m || c@.contains(#[trigger] r@[k]),
{
    let mut r: Combination = Vec::new();
    let mut i: usize = 0;
    while i < c.len() && c[i] < m
        invariant
            0 <= i <= c@.len(),
            increasing(c@),
            r@ == c@.subrange(0, i as int),
            forall|k: int| 0 <= k < i ==> c@[k] < m,
        decreases c@.len() - i,
    {
        r.push(c[i]);
        i += 1;
    }
    let ghost split = i as int;
    r.push(m);
    while i < c.len()
        invariant
            split <= i <= c@.len(),
            0 <= split,
            increasing(c@),
            !c@.contains(m),
            forall|k: int| 0 <= k < split ==> c@[k] < m,
            split < c@.len() ==> c@[split] > m,
            r@ == c@.subrange(0, split).push(m) + c@.subrange(split, i as int),
        decreases c@.len() - i,
    {
        proof {
            if split < c@.len() {
                assert(c@[split] != m);
            }
        }
        r.push(c[i]);
        i += 1;
        assert(r@ =~= c@.subrange(0, split).push(m) + c@.subrange(split, i as int));
    }
    proof {
        if split < c@.len() {
            assert(c@[split] >= m);
            assert(c@[split] != m);
        }
        let rs = r@;
        assert forall|a: int, b: int| 0 <= a < b < rs.len() implies rs[a] < rs[b] by {
            if a < split && b > split {
                assert(rs[a] == c@[a]);
                assert(rs[b] == c@[b - 1]);
                if b - 1 > split {
                    assert(c@[split] < c@[b - 1]);
                }
            } else if a < split && b == split {
            } else if a == split && b > split {
                assert(rs[b] == c@[b - 1]);
                if b - 1 > split {
                    assert(c@[split] < c@[b - 1]);
                }
            } else if a > split {
                assert(rs[a] == c@[a - 1]);
                assert(rs[b] == c@[b - 1]);
            } else {
                assert(rs[a] == c@[a]);
                assert(rs[b] == c@[b]);
            }
        }
        assert forall|x: usize| rs.to_set().contains(x) <==> c@.to_set().insert(m).contains(x) by {
            if rs.contains(x) {
                let k = choose|k: int| 0 <= k < rs.len() && rs[k] == x;
                if k < split {
                    assert(c@[k] == x);
                } else if k > split {
                    assert(c@[k - 1] == x);
                }
            }
            if c@.contains(x) {
                let k = choose|k: int| 0 <= k < c@.len() && c@[k] == x;
                if k < split {
                    assert(rs[k] == x);
                } else {
                    assert(rs[k + 1] == x);
                }
            }
            if x == m {
                assert(rs[split] == m);
            }
        }
        assert(rs.to_set() =~= c@.to_set().insert(m));
        assert forall|k: int| 0 <= k < rs.len() implies rs[k] == m || c@.contains(#[trigger] rs[k]) by {
            if k < split {
                assert(rs[k] == c@[k]);
            } else if k > split {
                assert(rs[k] == c@[k - 1]);
            }
        }
    }
    r
}

/// Some combination of `v` holds exactly the pieces `s`.
pub open spec fn listed(v: Seq<Combination>, s: Set<usize>) -> bool {
    exists|q: int| 0 <= q < v.len() && #[trigger] v[q]@.to_set() == s
}

/// `s` grows one of the first combinations of `cur` (those before `(a, m)`) by a
/// substitute for member `e`.
pub open spec fn grown_before(
    blocks: Seq<Rectangle>,
    excluded: Seq<bool>,
    e: usize,
    cur: Seq<Combination>,
    a: int,
    m: int,
    s: Set<usize>,
) -> bool {
    exists|b: int, m2: usize|
        0 <= b < cur.len() && (b < a || (b == a && m2 < m)) && #[trigger] may_substitute(
            blocks,
            excluded,
            e,
            cur[b]@.to_set(),
            m2,
        ) && s == cur[b]@.to_set().insert(m2)
}

/// Every expansion of `combination`, possibly listing one set more than once.
fn all_substitutions(
    cfg: &RectConfiguration,
    combination: &Combination,
    excluded: &Vec<bool>,
) -> (r: Vec<Combination>)
    requires
        within(cfg.available_blocks@.len(), combination@),
        excluded@.len() == cfg.available_blocks@.len(),
    ensures
        forall|k: int|
            0 <= k < r@.len() ==> increasing(#[trigger] r@[k]@) && within(
                cfg.available_blocks@.len(),
                r@[k]@,
            ),
        forall|s: Set<usize>|
            #[trigger] expansions(cfg.available_blocks@, combination@, excluded@).contains(s)
                <==> listed(r@, s),
{
    let ghost blocks = cfg.available_blocks@;
    let ghost c = combination@;
    let n = cfg.available_blocks.len();
    let mut cur: Vec<Combination> = Vec::new();
    cur.push(Vec::new());
    proof {
        assert(cur@[0]@.to_set() =~= Set::<usize>::empty());
        assert(c.subrange(0, 0).len() == 0);
        assert(listed(cur@, Set::<usize>::empty()));
    }
    let mut t: usize = 0;
    while t < combination.len()
        invariant
            0 <= t <= c.len(),
            c == combination@,
            blocks == cfg.available_blocks@,
            n == blocks.len(),
            within(n as nat, c),
            excluded@.len() == n,
            forall|k: int|
                0 <= k < cur@.len() ==> increasing(#[trigger] cur@[k]@) && within(n as nat, cur@[k]@),
            forall|s: Set<usize>|
                #[trigger] expansions(blocks, c.subrange(0, t as int), excluded@).contains(s)
                    <==> listed(cur@, s),
        decreases c.len() - t,
    {
        let e = combination[t];
        let key = cfg.available_blocks[e].dedup();
        let mut next: Vec<Combination> = Vec::new();
        let mut a: usize = 0;
        while a < cur.len()
            invariant
                0 <= a <= cur@.len(),
                e < n,
                key == dedup_spec(blocks[e as int]),
                blocks == cfg.available_blocks@,
                n == blocks.len(),
                excluded@.len() == n,
                forall|k: int|
                    0 <= k < cur@.len() ==> increasing(#[trigger] cur@[k]@) && within(n as nat, cur@[k]@),
                forall|k: int|
                    0 <= k < next@.len() ==> increasing(#[trigger] next@[k]@) && within(n as nat, next@[k]@),
                forall|s: Set<usize>|
                    #[trigger] listed(next@, s) <==> grown_before(blocks, excluded@, e, cur@, a as int, 0, s),
            decreases cur@.len() - a,
        {
            let mut m: usize = 0;
            while m < n
                invariant
                    0 <= a < cur@.len(),
                    0 <= m <= n,
                    e < n,
                    key == dedup_spec(blocks[e as int]),
                    blocks == cfg.available_blocks@,
                    n == blocks.len(),
                    excluded@.len() == n,
                    forall|k: int|
                        0 <= k < cur@.len() ==> increasing(#[trigger] cur@[k]@) && within(n as nat, cur@[k]@),
                    forall|k: int|
                        0 <= k < next@.len() ==> increasing(#[trigger] next@[k]@) && within(n as nat, next@[k]@),
                    forall|s: Set<usize>|
                        #[trigger] listed(next@, s) <==> grown_before(blocks, excluded@, e, cur@, a as int, m as int, s),
                decreases n - m,
            {
                let mk = cfg.available_blocks[m].dedup();
                let ok = mk.0 == key.0 && mk.1 == key.1 && !excluded[m] && !has_member(&cur[a], m);
                let ghost old_next = next@;
                if ok {
                    proof {
                        assert(!cur@[a as int]@.contains(m) ==> !cur@[a as int]@.to_set().contains(m));
                    }
                    let grown = insert_member(&cur[a], m);
                    proof {
                        assert forall|k: int| 0 <= k < grown@.len() implies grown@[k] < n by {
                            if grown@[k] != m {
                                let j = choose|j: int| 0 <= j < cur@[a as int]@.len() && cur@[a as int]@[j] == grown@[k];
                            }
                        }
                    }
                    next.push(grown);
                    proof {
                        assert(may_substitute(blocks, excluded@, e, cur@[a as int]@.to_set(), m));
                        assert forall|s: Set<usize>|
                            #[trigger] listed(next@, s) <==> grown_before(blocks, excluded@, e, cur@, a as int, m + 1, s) by {
                            if listed(next@, s) {
                                let q = choose|q: int| 0 <= q < next@.len() && #[trigger] next@[q]@.to_set() == s;
                                if q < old_next.len() {
                                    assert(old_next[q]@.to_set() == s);
                                    assert(listed(old_next, s));
                                }
                            }
                            if grown_before(blocks, excluded@, e, cur@, a as int, m + 1, s) {
                                let (b, m2) = choose|b: int, m2: usize|
                                    0 <= b < cur@.len() && (b < a || (b == a && m2 < m + 1)) && #[trigger] may_substitute(
                                        blocks,
                                        excluded@,
                                        e,
                                        cur@[b]@.to_set(),
                                        m2,
                                    ) && s == cur@[b]@.to_set().insert(m2);
                                if b == a && m2 == m {
                                    assert(next@[old_next.len() as int]@.to_set() == s);
                                } else {
                                    assert(grown_before(blocks, excluded@, e, cur@, a as int, m as int, s));
                                    assert(listed(old_next, s));
                                    let q = choose|q: int| 0 <= q < old_next.len() && #[trigger] old_next[q]@.to_set() == s;
                                    assert(next@[q]@.to_set() == s);
                                }
                            }
                        }
                    }
                } else {
                    proof {
                        assert forall|s: Set<usize>|
                            #[trigger] listed(next@, s) <==> grown_before(blocks, excluded@, e, cur@, a as int, m + 1, s) by {
                            if grown_before(blocks, excluded@, e, cur@, a as int, m + 1, s) {
                                let (b, m2) = choose|b: int, m2: usize|
                                    0 <= b < cur@.len() && (b < a || (b == a && m2 < m + 1)) && #[trigger] may_substitute(
                                        blocks,
                                        excluded@,
                                        e,
                                        cur@[b]@.to_set(),
                                        m2,
                                    ) && s == cur@[b]@.to_set().insert(m2);
                                if b == a && m2 == m {
                                    assert(cur@[a as int]@.to_set().contains(m) ==> cur@[a as int]@.contains(m));
                                    assert(false);
                                }
                                assert(grown_before(blocks, excluded@, e, cur@, a as int, m as int, s));
                            }
                        }
                    }
                }
                m += 1;
            }
            proof {
                assert forall|s: Set<usize>|
                    #[trigger] listed(next@, s) <==> grown_before(blocks, excluded@, e, cur@, a + 1, 0, s) by {
                    if grown_before(blocks, excluded@, e, cur@, a as int, n as int, s) {
                        let (b, m2) = choose|b: int, m2: usize|
                            0 <= b < cur@.len() && (b < a || (b == a && m2 < n)) && #[trigger] may_substitute(
                                blocks,
                                excluded@,
                                e,
                                cur@[b]@.to_set(),
                                m2,
                            ) && s == cur@[b]@.to_set().insert(m2);
                        assert(grown_before(blocks, excluded@, e, cur@, a + 1, 0, s));
                    }
                    if grown_before(blocks, excluded@, e, cur@, a + 1, 0, s) {
                        let (b, m2) = choose|b: int, m2: usize|
                            0 <= b < cur@.len() && (b < a + 1 || (b == a + 1 && m2 < 0)) && #[trigger] may_substitute(
                                blocks,
                                excluded@,
                                e,
                                cur@[b]@.to_set(),
                                m2,
                            ) && s == cur@[b]@.to_set().insert(m2);
                        assert(m2 < n);
                        assert(grown_before(blocks, excluded@, e, cur@, a as int, n as int, s));
                    }
                }
            }
            a += 1;
        }
        proof {
            let prev = expansions(blocks, c.subrange(0, t as int), excluded@);
            let c1 = c.subrange(0, t as int + 1);
            assert(c1.drop_last() =~= c.subrange(0, t as int));
            assert(c1.last() == e);
            assert forall|s: Set<usize>|
                #[trigger] expansions(blocks, c1, excluded@).contains(s) <==> listed(next@, s) by {
                if expansions(blocks, c1, excluded@).contains(s) {
                    let (r, m) = choose|r: Set<usize>, m: usize|
                        prev.contains(r) && may_substitute(blocks, excluded@, e, r, m) && s
                            == r.insert(m);
                    assert(listed(cur@, r));
                    let b = choose|b: int| 0 <= b < cur@.len() && #[trigger] cur@[b]@.to_set() == r;
                    assert(may_substitute(blocks, excluded@, e, cur@[b]@.to_set(), m));
                    assert(grown_before(blocks, excluded@, e, cur@, cur@.len() as int, 0, s));
                }
                if listed(next@, s) {
                    assert(grown_before(blocks, excluded@, e, cur@, cur@.len() as int, 0, s));
                    let (b, m) = choose|b: int, m: usize|
                        0 <= b < cur@.len() && (b < cur@.len() || (b == cur@.len() && m < 0)) && #[trigger] may_substitute(
                            blocks,
                            excluded@,
                            e,
                            cur@[b]@.to_set(),
                            m,
                        ) && s == cur@[b]@.to_set().insert(m);
                    assert(listed(cur@, cur@[b]@.to_set()));
                    assert(prev.contains(cur@[b]@.to_set()));
                }
            }
        }
        cur = next;
        t += 1;
    }
    proof {
        assert(c.subrange(0, c.len() as int) =~= c);
    }
    cur
}

/// A non-empty combination is among what redup yields for it when nothing is excluded.
pub proof fn lemma_redup_keeps_original(blocks: Seq<Rectangle>, c: Seq<usize>, excluded: Seq<bool>)
    requires
        c.len() > 0,
        within(blocks.len(), c),
        c.no_duplicates(),
        excluded.len() == blocks.len(),
        forall|i: int| 0 <= i < excluded.len() ==> !excluded[i],
    ensures
        redup_set(blocks, c, excluded).contains(c.to_set()),
{
    lemma_expansions_keep_original(blocks, c, excluded);
}

/// Every expansion of `combination`: each member replaced by a distinct class-mate
/// (itself included) that `excluded` does not mark, each set of pieces listed once as
/// an increasing combination; none for an empty combination.
pub fn duplicate_combination(
    cfg: &RectConfiguration,
    combination: &Combination,
    excluded: &Vec<bool>,
) -> (r: Vec<Combination>)
    requires
        within(cfg.available_blocks@.len(), combination@),
        excluded@.len() == cfg.available_blocks@.len(),
    ensures
        forall|k: int|
            0 <= k < r@.len() ==> increasing(#[trigger] r@[k]@) && within(
                cfg.available_blocks@.len(),
                r@[k]@,
            ),
        forall|s: Set<usize>|
            #[trigger] redup_set(cfg.available_blocks@, combination@, excluded@).contains(s)
                <==> listed(r@, s),
        forall|a: int, b: int| 0 <= a < b < r@.len() ==> r@[a]@ != r@[b]@,
        combination@.len() == 0 ==> r@.len() == 0,
{
    if combination.len() == 0 {
        return Vec::new();
    }
    let all = all_substitutions(cfg, combination, excluded);
    unique_combinations(&all, cfg.available_blocks.len())
}

/// The members of a combination as keys.
pub open spec fn as_key(c: Seq<usize>) -> Seq<u64> {
    c.map_values(|x: usize| x as u64)
}

proof fn lemma_as_key_injective(a: Seq<usize>, b: Seq<usize>)
    requires
        as_key(a) == as_key(b),
    ensures
        a == b,
{
    assert(a.len() == as_key(a).len());
    assert forall|i: int| 0 <= i < a.len() implies a[i] == b[i] by {
        assert(as_key(a)[i] == as_key(b)[i]);
        assert(as_key(a)[i] == a[i] as u64);
        assert(as_key(b)[i] == b[i] as u64);
    }
    assert(a =~= b);
}

pub(crate) proof fn lemma_first_with_key(keys: Seq<Vec<u64>>, q: int) -> (f: int)
    requires
        0 <= q < keys.len(),
    ensures
        0 <= f <= q,
        first_of_its_key(keys, f),
        keys[f]@ == keys[q]@,
    decreases q,
{
    if first_of_its_key(keys, q) {
        q
    } else {
        let j = choose|j: int| 0 <= j < q && keys[j]@ != keys[q]@ == false;
        lemma_first_with_key(keys, j)
    }
}

/// Every expansion of every combination of the list, against no committed pieces,
/// each set of pieces once.
pub fn redup_comb_iter(cfg: &RectConfiguration, combos: &Vec<Combination>) -> (r: Vec<Combination>)
    requires
        forall|l: int| 0 <= l < combos@.len() ==> within(cfg.available_blocks@.len(), #[trigger] combos@[l]@),
    ensures
        forall|k: int|
            0 <= k < r@.len() ==> increasing(#[trigger] r@[k]@) && within(cfg.available_blocks@.len(), r@[k]@),
        forall|s: Set<usize>|
            #[trigger] listed(r@, s) <==> exists|l: int|
                0 <= l < combos@.len() && #[trigger] redup_set(
                    cfg.available_blocks@,
                    combos@[l]@,
                    marks(cfg.available_blocks@.len(), Set::empty()),
                ).contains(s),
        forall|a: int, b: int| 0 <= a < b < r@.len() ==> r@[a]@ != r@[b]@,
{
    let ghost blocks = cfg.available_blocks@;
    let n = cfg.available_blocks.len();
    let mut none: Vec<bool> = Vec::new();
    let mut i: usize = 0;
    while i < n
        invariant
            0 <= i <= n,
            none@.len() == i,
            forall|k: int| 0 <= k < i ==> !none@[k],
        decreases n - i,
    {
        none.push(false);
        i += 1;
    }
    assert(none@ =~= marks(n as nat, Set::empty()));
    let mut all: Vec<Combination> = Vec::new();
    let mut l: usize = 0;
    while l < combos.len()
        invariant
            0 <= l <= combos@.len(),
            blocks == cfg.available_blocks@,
            n == blocks.len(),
            none@ == marks(n as nat, Set::empty()),
            forall|k: int| 0 <= k < combos@.len() ==> within(n as nat, #[trigger] combos@[k]@),
            forall|k: int| 0 <= k < all@.len() ==> increasing(#[trigger] all@[k]@) && within(n as nat, all@[k]@),
            forall|s: Set<usize>|
                #[trigger] listed(all@, s) <==> exists|l2: int|
                    0 <= l2 < l && #[trigger] redup_set(blocks, combos@[l2]@, marks(n as nat, Set::empty())).contains(s),
        decreases combos@.len() - l,
    {
        let more = duplicate_combination(cfg, &combos[l], &none);
        let ghost before = all@;
        let mut m: usize = 0;
        while m < more.len()
            invariant
                0 <= m <= more@.len(),
                all@.len() == before.len() + m,
                forall|k: int| 0 <= k < before.len() ==> #[trigger] all@[k] == before[k],
                forall|k: int| 0 <= k < m ==> #[trigger] all@[before.len() + k]@ == more@[k]@,
                forall|k: int| 0 <= k < before.len() ==> increasing(#[trigger] before[k]@) && within(n as nat, before[k]@),
                forall|k: int| 0 <= k < more@.len() ==> increasing(#[trigger] more@[k]@) && within(n as nat, more@[k]@),
                forall|k: int| 0 <= k < all@.len() ==> increasing(#[trigger] all@[k]@) && within(n as nat, all@[k]@),
            decreases more@.len() - m,
        {
            all.push(clone_combination(&more[m]));
            m += 1;
        }
        proof {
            assert forall|s: Set<usize>|
                #[trigger] listed(all@, s) <==> exists|l2: int|
                    0 <= l2 < l + 1 && #[trigger] redup_set(blocks, combos@[l2]@, marks(n as nat, Set::empty())).contains(s) by {
                if listed(all@, s) {
                    let q = choose|q: int| 0 <= q < all@.len() && #[trigger] all@[q]@.to_set() == s;
                    if q < before.len() {
                        assert(all@[q] == before[q]);
                        assert(listed(before, s));
                        let l2 = choose|l2: int|
                            0 <= l2 < l && #[trigger] redup_set(blocks, combos@[l2]@, marks(n as nat, Set::empty())).contains(s);
                        assert(redup_set(blocks, combos@[l2]@, marks(n as nat, Set::empty())).contains(s));
                    } else {
                        let k = q - before.len();
                        assert(all@[before.len() + k]@ == more@[k]@);
                        assert(more@[k]@.to_set() == s);
                        assert(listed(more@, s));
                        assert(redup_set(blocks, combos@[l as int]@, marks(n as nat, Set::empty())).contains(s));
                    }
                }
                if exists|l2: int|
                    0 <= l2 < l + 1 && #[trigger] redup_set(blocks, combos@[l2]@, marks(n as nat, Set::empty())).contains(s) {
                    let l2 = choose|l2: int|
                        0 <= l2 < l + 1 && #[trigger] redup_set(blocks, combos@[l2]@, marks(n as nat, Set::empty())).contains(s);
                    if l2 < l {
                        assert(listed(before, s));
                        let q = choose|q: int| 0 <= q < before.len() && #[trigger] before[q]@.to_set() == s;
                        assert(all@[q] == before[q]);
                    } else {
                        assert(listed(more@, s));
                        let q = choose|q: int| 0 <= q < more@.len() && #[trigger] more@[q]@.to_set() == s;
                        assert(all@[before.len() + q]@ == more@[q]@);
                    }
                }
            }
        }
        l += 1;
    }
    unique_combinations(&all, n)
}

/// The combinations of the list, each listed once, the first of equal ones kept.
fn unique_combinations(all: &Vec<Combination>, n: usize) -> (r: Vec<Combination>)
    requires
        forall|k: int| 0 <= k < all@.len() ==> increasing(#[trigger] all@[k]@) && within(n as nat, all@[k]@),
    ensures
        forall|k: int| 0 <= k < r@.len() ==> increasing(#[trigger] r@[k]@) && within(n as nat, r@[k]@),
        forall|s: Set<usize>| #[trigger] listed(r@, s) <==> listed(all@, s),
        forall|a: int, b: int| 0 <= a < b < r@.len() ==> r@[a]@ != r@[b]@,
{
    let mut keys: Vec<Vec<u64>> = Vec::new();
    let mut q: usize = 0;
    while q < all.len()
        invariant
            0 <= q <= all@.len(),
            keys@.len() == q,
            forall|k: int| 0 <= k < q ==> #[trigger] keys@[k]@ == as_key(all@[k]@),
        decreases all@.len() - q,
    {
        let c = &all[q];
        let mut key: Vec<u64> = Vec::new();
        let mut j: usize = 0;
        while j < c.len()
            invariant
                0 <= j <= c@.len(),
                key@ == as_key(c@.subrange(0, j as int)),
            decreases c@.len() - j,
        {
            key.push(c[j] as u64);
            j += 1;
            assert(key@ =~= as_key(c@.subrange(0, j as int)));
        }
        assert(c@.subrange(0, j as int) =~= c@);
        keys.push(key);
        q += 1;
    }
    let firsts = first_of_each_key(&keys);
    let mut r: Vec<Combination> = Vec::new();
    let mut a: usize = 0;
    while a < firsts.len()
        invariant
            0 <= a <= firsts@.len(),
            forall|b: int| 0 <= b < firsts@.len() ==> firsts@[b] < all@.len(),
            forall|k: int| 0 <= k < all@.len() ==> increasing(#[trigger] all@[k]@) && within(n as nat, all@[k]@),
            r@.len() == a,
            forall|b: int| 0 <= b < a ==> #[trigger] r@[b]@ == all@[firsts@[b] as int]@,
            forall|b: int| 0 <= b < a ==> increasing(#[trigger] r@[b]@) && within(n as nat, r@[b]@),
        decreases firsts@.len() - a,
    {
        r.push(clone_combination(&all[firsts[a]]));
        a += 1;
    }
    proof {
        assert forall|s: Set<usize>| #[trigger] listed(r@, s) <==> listed(all@, s) by {
            if listed(r@, s) {
                let b = choose|b: int| 0 <= b < r@.len() && #[trigger] r@[b]@.to_set() == s;
                assert(all@[firsts@[b] as int]@.to_set() == s);
            }
            if listed(all@, s) {
                let q = choose|q: int| 0 <= q < all@.len() && #[trigger] all@[q]@.to_set() == s;
                let f = lemma_first_with_key(keys@, q);
                lemma_as_key_injective(all@[f]@, all@[q]@);
                assert(firsts@.contains(f as usize));
                let b = choose|b: int| 0 <= b < firsts@.len() && firsts@[b] == f as usize;
                assert(r@[b]@ == all@[f]@);
            }
        }
        assert forall|a: int, b: int| 0 <= a < b < r@.len() implies r@[a]@ != r@[b]@ by {
            let fa = firsts@[a] as int;
            let fb = firsts@[b] as int;
            assert(firsts@.contains(firsts@[b]));
            assert(first_of_its_key(keys@, fb));
            assert(keys@[fa]@ != keys@[fb]@);
        }
    }
    r
}

} // verus!
