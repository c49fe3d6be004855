use vstd::prelude::*;

use crate::combination::{
    clone_combination, combination_key, dedup_comb_iter, get_unique_combination_key, increasing,
    keeps_first_of_each_shape, views, within, Combination, Solution,
};
use crate::combinatorics::{index_combinations, is_k_subset, is_permutation, order_by_key};
use crate::config::RectConfiguration;
use crate::matching::{calculate_matches, matches_found};
use crate::rect::Rectangle;
use crate::settings::ProgramStorage;

verus! {

/// The summed area of the pieces of a combination.
pub open spec fn total_area(blocks: Seq<Rectangle>, c: Seq<usize>) -> int
    decreases c.len(),
{
    if c.len() == 0 {
        0
    } else {
        total_area(blocks, c.drop_last()) + blocks[c.last() as int].area
    }
}

/// A subset that the generator keeps: its size within the configured range, its area
/// at most the container's and at least the configured floor.
pub open spec fn is_candidate(storage: &ProgramStorage, c: Seq<usize>) -> bool {
    let blocks = storage.rect_configuration.available_blocks@;
    &&& storage.settings.min_rectangle_amount <= c.len() <= storage.settings.max_rectangle_amount
    &&& increasing(c)
    &&& within(blocks.len(), c)
    &&& total_area(blocks, c) <= storage.rect_configuration.big_rect.area
    &&& total_area(blocks, c) >= storage.settings.min_solution_area
}

/// The storage outside one stage's field is left as it was.
pub open spec fn same_inputs(a: &ProgramStorage, b: &ProgramStorage) -> bool {
    &&& a.rect_configuration == b.rect_configuration
    &&& a.settings == b.settings
}

/// The summed area of the pieces of a combination.
pub fn combination_area(cfg: &RectConfiguration, c: &Combination) -> (r: u128)
    requires
        within(cfg.available_blocks@.len(), c@),
    ensures
        r == total_area(cfg.available_blocks@, c@),
        r <= c@.len() * 0x1_0000_0000,
{
    let mut sum: u128 = 0;
    let mut i: usize = 0;
    while i < c.len()
        invariant
            0 <= i <= c@.len(),
            within(cfg.available_blocks@.len(), c@),
            sum == total_area(cfg.available_blocks@, c@.subrange(0, i as int)),
            sum <= i * 0x1_0000_0000,
        decreases c@.len() - i,
    {
        assert(c@.subrange(0, i + 1).drop_last() =~= c@.subrange(0, i as int));
        sum = sum + cfg.available_blocks[c[i]].area as u128;
        i += 1;
    }
    assert(c@.subrange(0, i as int) =~= c@);
    sum
}

/// Enumerate every subset of the inventory whose size lies in the configured range,
/// whose area fits the container's and reaches the configured floor; the result goes
/// to `gathered_combinations`.
pub fn step1_generate_candiates(storage: &mut ProgramStorage)
    ensures
        same_inputs(final(storage), old(storage)),
        final(storage).deduplicated_combinations == old(storage).deduplicated_combinations,
        final(storage).solutions == old(storage).solutions,
        final(storage).combined_solutions == old(storage).combined_solutions,
        final(storage).final_combinations == old(storage).final_combinations,
        forall|k: int|
            0 <= k < final(storage).gathered_combinations@.len() ==> is_candidate(
                final(storage),
                #[trigger] final(storage).gathered_combinations@[k]@,
            ),
        forall|c: Seq<usize>|
            is_candidate(final(storage), c) ==> exists|k: int|
                0 <= k < final(storage).gathered_combinations@.len()
                    && #[trigger] final(storage).gathered_combinations@[k]@ == c,
        forall|a: int, b: int|
            0 <= a < b < final(storage).gathered_combinations@.len()
                ==> final(storage).gathered_combinations@[a]@ != final(storage).gathered_combinations@[b]@,
{
    let n = storage.rect_configuration.available_blocks.len();
    let min = storage.settings.min_rectangle_amount as u16;
    let max = storage.settings.max_rectangle_amount as u16;
    let big_area = storage.rect_configuration.big_rect.area as u128;
    let floor = storage.settings.min_solution_area as u128;
    let mut gathered: Vec<Combination> = Vec::new();
    let mut s: u16 = min;
    while s <= max
        invariant
            min <= s,
            s == min || s <= max + 1,
            min == storage.settings.min_rectangle_amount,
            max == storage.settings.max_rectangle_amount,
            n == storage.rect_configuration.available_blocks@.len(),
            big_area == storage.rect_configuration.big_rect.area,
            floor == storage.settings.min_solution_area,
            storage == old(storage),
            forall|k: int| 0 <= k < gathered@.len() ==> is_candidate(storage, #[trigger] gathered@[k]@),
            forall|c: Seq<usize>|
                is_candidate(storage, c) && c.len() < s ==> exists|k: int|
                    0 <= k < gathered@.len() && #[trigger] gathered@[k]@ == c,
            forall|k: int| 0 <= k < gathered@.len() ==> (#[trigger] gathered@[k]@).len() < s,
            forall|a: int, b: int| 0 <= a < b < gathered@.len() ==> gathered@[a]@ != gathered@[b]@,
        decreases max + 1 - s,
    {
        let combos = index_combinations(n, s as usize);
        let mut i: usize = 0;
        while i < combos.len()
            invariant
                0 <= i <= combos@.len(),
                min <= s <= max,
                min == storage.settings.min_rectangle_amount,
                max == storage.settings.max_rectangle_amount,
                n == storage.rect_configuration.available_blocks@.len(),
                big_area == storage.rect_configuration.big_rect.area,
                floor == storage.settings.min_solution_area,
                storage == old(storage),
                forall|k: int| 0 <= k < combos@.len() ==> is_k_subset(#[trigger] combos@[k]@, n as nat, s as nat),
                forall|a: int, b: int| 0 <= a < b < combos@.len() ==> combos@[a]@ != combos@[b]@,
                forall|k: int|
                    0 <= k < gathered@.len() ==> (#[trigger] gathered@[k]@).len() < s || exists|j: int|
                        0 <= j < i && gathered@[k]@ == combos@[j]@,
                forall|a: int, b: int| 0 <= a < b < gathered@.len() ==> gathered@[a]@ != gathered@[b]@,
                forall|k: int| 0 <= k < gathered@.len() ==> is_candidate(storage, #[trigger] gathered@[k]@),
                forall|c: Seq<usize>|
                    is_candidate(storage, c) && c.len() < s ==> exists|k: int|
                        0 <= k < gathered@.len() && #[trigger] gathered@[k]@ == c,
                forall|j: int|
                    0 <= j < i && is_candidate(storage, #[trigger] combos@[j]@) ==> exists|k: int|
                        0 <= k < gathered@.len() && #[trigger] gathered@[k]@ == combos@[j]@,
            decreases combos@.len() - i,
        {
            assert(is_k_subset(combos@[i as int]@, n as nat, s as nat));
            let area = combination_area(&storage.rect_configuration, &combos[i]);
            if area <= big_area && area >= floor {
                let ghost before = gathered@;
                gathered.push(crate::combination::clone_combination(&combos[i]));
                proof {
                    assert(gathered@[before.len() as int]@ == combos@[i as int]@);
                    assert forall|k: int| 0 <= k < gathered@.len() implies (#[trigger] gathered@[k]@).len() < s
                        || exists|j: int| 0 <= j < i + 1 && gathered@[k]@ == combos@[j]@ by {
                        if k < before.len() {
                            assert(gathered@[k] == before[k]);
                            if before[k]@.len() >= s {
                                let j = choose|j: int| 0 <= j < i && before[k]@ == combos@[j]@;
                            }
                        } else {
                            assert(gathered@[k]@ == combos@[i as int]@);
                        }
                    }
                    assert forall|a: int, b: int| 0 <= a < b < gathered@.len() implies gathered@[a]@ != gathered@[b]@ by {
                        if b == before.len() {
                            assert(gathered@[a] == before[a]);
                            assert(combos@[i as int]@.len() == s);
                            if before[a]@.len() >= s {
                                let j = choose|j: int| 0 <= j < i && before[a]@ == combos@[j]@;
                                assert(combos@[j]@ != combos@[i as int]@);
                            }
                        } else {
                            assert(gathered@[a] == before[a]);
                            assert(gathered@[b] == before[b]);
                        }
                    }
                    assert forall|c: Seq<usize>|
                        is_candidate(storage, c) && c.len() < s implies exists|k: int|
                            0 <= k < gathered@.len() && #[trigger] gathered@[k]@ == c by {
                        let k = choose|k: int| 0 <= k < before.len() && #[trigger] before[k]@ == c;
                        assert(gathered@[k]@ == c);
                    }
                    assert forall|j: int|
                        0 <= j < i + 1 && is_candidate(storage, #[trigger] combos@[j]@) implies exists|k: int|
                            0 <= k < gathered@.len() && #[trigger] gathered@[k]@ == combos@[j]@ by {
                        if j < i {
                            let k = choose|k: int| 0 <= k < before.len() && #[trigger] before[k]@ == combos@[j]@;
                            assert(gathered@[k]@ == combos@[j]@);
                        }
                    }
                }
            }
            i += 1;
        }
        proof {
            assert forall|k: int| 0 <= k < gathered@.len() implies (#[trigger] gathered@[k]@).len() < s + 1 by {
                if gathered@[k]@.len() >= s {
                    let j = choose|j: int| 0 <= j < i && gathered@[k]@ == combos@[j]@;
                    assert(is_k_subset(combos@[j]@, n as nat, s as nat));
                }
            }
            assert forall|c: Seq<usize>|
                is_candidate(storage, c) && c.len() < s + 1 implies exists|k: int|
                    0 <= k < gathered@.len() && #[trigger] gathered@[k]@ == c by {
                if c.len() == s {
                    assert(is_k_subset(c, n as nat, s as nat));
                    let j = choose|j: int| 0 <= j < combos@.len() && #[trigger] combos@[j]@ == c;
                }
            }
        }
        s += 1;
    }
    let ghost kept = gathered@;
    let ghost pre = *storage;
    proof {
        assert forall|c: Seq<usize>| is_candidate(&pre, c) implies exists|k: int|
            0 <= k < kept.len() && #[trigger] kept[k]@ == c by {
            assert(c.len() < s);
        }
    }
    storage.gathered_combinations = gathered;
    proof {
        assert forall|c: Seq<usize>| is_candidate(storage, c) implies exists|k: int|
            0 <= k < storage.gathered_combinations@.len()
                && #[trigger] storage.gathered_combinations@[k]@ == c by {
            assert(is_candidate(&pre, c));
            let k = choose|k: int| 0 <= k < kept.len() && #[trigger] kept[k]@ == c;
            assert(storage.gathered_combinations@[k]@ == c);
        }
    }
}

/// `dst` lists the combinations of `src` in the order that `perm` picks them.
pub open spec fn reordered(src: Seq<Combination>, dst: Seq<Combination>, perm: Seq<usize>) -> bool {
    &&& is_permutation(perm, src.len())
    &&& dst.len() == src.len()
    &&& forall|q: int| 0 <= q < dst.len() ==> #[trigger] dst[q]@ == src[perm[q] as int]@
}

/// The combinations ordered by the given keys, ascending; equal keys keep their order.
fn reorder_by(combos: &Vec<Combination>, keys: &Vec<i128>) -> (r: Vec<Combination>)
    requires
        keys@.len() == combos@.len(),
    ensures
        exists|perm: Seq<usize>|
            #[trigger] reordered(combos@, r@, perm) && forall|a: int, b: int|
                0 <= a < b < r@.len() ==> keys@[perm[a] as int] <= keys@[perm[b] as int],
{
    let order = order_by_key(keys);
    let mut r: Vec<Combination> = Vec::new();
    let mut q: usize = 0;
    while q < order.len()
        invariant
            0 <= q <= order@.len(),
            is_permutation(order@, keys@.len()),
            keys@.len() == combos@.len(),
            r@.len() == q,
            forall|k: int| 0 <= k < q ==> #[trigger] r@[k]@ == combos@[order@[k] as int]@,
        decreases order@.len() - q,
    {
        r.push(clone_combination(&combos[order[q]]));
        q += 1;
    }
    assert(reordered(combos@, r@, order@));
    r
}

/// The sum of the ids of the pieces of a combination.
pub open spec fn id_sum(blocks: Seq<Rectangle>, c: Seq<usize>) -> int
    decreases c.len(),
{
    if c.len() == 0 {
        0
    } else {
        id_sum(blocks, c.drop_last()) + blocks[c.last() as int].id
    }
}

fn combination_id_sum(cfg: &RectConfiguration, c: &Combination) -> (r: i128)
    requires
        within(cfg.available_blocks@.len(), c@),
    ensures
        r == id_sum(cfg.available_blocks@, c@),
{
    let mut sum: i128 = 0;
    let mut i: usize = 0;
    while i < c.len()
        invariant
            0 <= i <= c@.len(),
            within(cfg.available_blocks@.len(), c@),
            sum == id_sum(cfg.available_blocks@, c@.subrange(0, i as int)),
            -128 * i <= sum <= 127 * i,
        decreases c@.len() - i,
    {
        assert(c@.subrange(0, i + 1).drop_last() =~= c@.subrange(0, i as int));
        sum = sum + cfg.available_blocks[c[i]].id as i128;
        i += 1;
    }
    assert(c@.subrange(0, i as int) =~= c@);
    sum
}

/// Keep one combination per dedup key among the gathered ones, taking them by
/// increasing sum of ids; the result goes to `deduplicated_combinations`.
pub fn step2_deduplication(storage: &mut ProgramStorage)
    requires
        forall|l: int|
            0 <= l < old(storage).gathered_combinations@.len() ==> within(
                old(storage).rect_configuration.available_blocks@.len(),
                #[trigger] old(storage).gathered_combinations@[l]@,
            ),
    ensures
        same_inputs(final(storage), old(storage)),
        final(storage).gathered_combinations == old(storage).gathered_combinations,
        final(storage).solutions == old(storage).solutions,
        final(storage).combined_solutions == old(storage).combined_solutions,
        final(storage).final_combinations == old(storage).final_combinations,
        exists|sorted: Seq<Combination>, perm: Seq<usize>|
            #[trigger] reordered(old(storage).gathered_combinations@, sorted, perm) && (forall|a: int, b: int|
                0 <= a < b < sorted.len() ==> id_sum(old(storage).rect_configuration.available_blocks@, sorted[a]@)
                    <= id_sum(old(storage).rect_configuration.available_blocks@, sorted[b]@))
                && keeps_first_of_each_shape(
                old(storage).rect_configuration.available_blocks@,
                views(sorted),
                views(final(storage).deduplicated_combinations@),
            ),
{
    let ghost blocks = storage.rect_configuration.available_blocks@;
    let mut keys: Vec<i128> = Vec::new();
    let mut i: usize = 0;
    while i < storage.gathered_combinations.len()
        invariant
            0 <= i <= storage.gathered_combinations@.len(),
            *storage == *old(storage),
            blocks == storage.rect_configuration.available_blocks@,
            forall|l: int|
                0 <= l < storage.gathered_combinations@.len() ==> within(blocks.len(), #[trigger] storage.gathered_combinations@[l]@),
            keys@.len() == i,
            forall|l: int| 0 <= l < i ==> keys@[l] == id_sum(blocks, #[trigger] storage.gathered_combinations@[l]@),
        decreases storage.gathered_combinations@.len() - i,
    {
        keys.push(combination_id_sum(&storage.rect_configuration, &storage.gathered_combinations[i]));
        i += 1;
    }
    let sorted = reorder_by(&storage.gathered_combinations, &keys);
    let ghost perm = choose|perm: Seq<usize>|
        #[trigger] reordered(storage.gathered_combinations@, sorted@, perm) && forall|a: int, b: int|
            0 <= a < b < sorted@.len() ==> keys@[perm[a] as int] <= keys@[perm[b] as int];
    proof {
        assert forall|l: int| 0 <= l < sorted@.len() implies within(blocks.len(), #[trigger] sorted@[l]@) by {
            assert(sorted@[l]@ == storage.gathered_combinations@[perm[l] as int]@);
        }
        assert forall|a: int, b: int|
            0 <= a < b < sorted@.len() implies id_sum(blocks, sorted@[a]@) <= id_sum(blocks, sorted@[b]@) by {
            assert(sorted@[a]@ == storage.gathered_combinations@[perm[a] as int]@);
            assert(sorted@[b]@ == storage.gathered_combinations@[perm[b] as int]@);
            assert(keys@[perm[a] as int] <= keys@[perm[b] as int]);
        }
    }
    let dedup = dedup_comb_iter(&storage.rect_configuration, &sorted);
    storage.deduplicated_combinations = dedup;
    proof {
        assert(reordered(old(storage).gathered_combinations@, sorted@, perm));
    }
}

/// The layers ordered by decreasing area; equal areas keep their order.
pub fn sort_by_area_desc(cfg: &RectConfiguration, combos: &Vec<Combination>) -> (r: Vec<Combination>)
    requires
        forall|l: int| 0 <= l < combos@.len() ==> within(cfg.available_blocks@.len(), #[trigger] combos@[l]@),
    ensures
        exists|perm: Seq<usize>| #[trigger] reordered(combos@, r@, perm),
        forall|a: int, b: int|
            0 <= a < b < r@.len() ==> total_area(cfg.available_blocks@, r@[a]@) >= total_area(
                cfg.available_blocks@,
                r@[b]@,
            ),
        forall|l: int| 0 <= l < r@.len() ==> within(cfg.available_blocks@.len(), #[trigger] r@[l]@),
{
    let ghost blocks = cfg.available_blocks@;
    let mut keys: Vec<i128> = Vec::new();
    let mut i: usize = 0;
    while i < combos.len()
        invariant
            0 <= i <= combos@.len(),
            blocks == cfg.available_blocks@,
            forall|l: int| 0 <= l < combos@.len() ==> within(blocks.len(), #[trigger] combos@[l]@),
            keys@.len() == i,
            forall|l: int| 0 <= l < i ==> keys@[l] == -total_area(blocks, #[trigger] combos@[l]@),
        decreases combos@.len() - i,
    {
        let area = combination_area(cfg, &combos[i]);
        let members = combos[i].len();
        assert(area <= 0x1_0000_0000_0000_0000_0000_0000) by (nonlinear_arith)
            requires
                area <= members * 0x1_0000_0000,
                members <= 0xffff_ffff_ffff_ffff,
        ;
        keys.push(-(area as i128));
        i += 1;
    }
    let sorted = reorder_by(combos, &keys);
    let ghost perm = choose|perm: Seq<usize>|
        #[trigger] reordered(combos@, sorted@, perm) && forall|a: int, b: int|
            0 <= a < b < sorted@.len() ==> keys@[perm[a] as int] <= keys@[perm[b] as int];
    proof {
        assert forall|l: int| 0 <= l < sorted@.len() implies within(blocks.len(), #[trigger] sorted@[l]@) by {
            assert(sorted@[l]@ == combos@[perm[l] as int]@);
        }
        assert forall|a: int, b: int|
            0 <= a < b < sorted@.len() implies total_area(blocks, sorted@[a]@) >= total_area(blocks, sorted@[b]@) by {
            assert(sorted@[a]@ == combos@[perm[a] as int]@);
            assert(sorted@[b]@ == combos@[perm[b] as int]@);
            assert(keys@[perm[a] as int] <= keys@[perm[b] as int]);
        }
    }
    sorted
}

/// Order the feasible layers by decreasing area, then record for every triple of them
/// that passes the cheap test a first concrete three-layer covering; the result goes to
/// `combined_solutions`.
pub fn step4_calculate_matches(storage: &mut ProgramStorage)
    requires
        forall|l: int|
            0 <= l < old(storage).solutions@.len() ==> within(
                old(storage).rect_configuration.available_blocks@.len(),
                #[trigger] old(storage).solutions@[l]@,
            ),
    ensures
        same_inputs(final(storage), old(storage)),
        final(storage).solutions == old(storage).solutions,
        final(storage).gathered_combinations == old(storage).gathered_combinations,
        final(storage).deduplicated_combinations == old(storage).deduplicated_combinations,
        final(storage).final_combinations == old(storage).final_combinations,
        final(storage).combined_solutions@.len() >= old(storage).combined_solutions@.len(),
        final(storage).combined_solutions@.subrange(0, old(storage).combined_solutions@.len() as int)
            == old(storage).combined_solutions@,
        exists|sorted: Seq<Combination>, perm: Seq<usize>|
            #[trigger] reordered(old(storage).solutions@, sorted, perm) && (forall|a: int, b: int|
                0 <= a < b < sorted.len() ==> total_area(old(storage).rect_configuration.available_blocks@, sorted[a]@)
                    >= total_area(old(storage).rect_configuration.available_blocks@, sorted[b]@))
                && matches_found(
                old(storage).rect_configuration.available_blocks@,
                sorted,
                final(storage).combined_solutions@.subrange(
                    old(storage).combined_solutions@.len() as int,
                    final(storage).combined_solutions@.len() as int,
                ),
            ),
{
    let sorted = sort_by_area_desc(&storage.rect_configuration, &storage.solutions);
    let ghost perm = choose|perm: Seq<usize>| #[trigger] reordered(storage.solutions@, sorted@, perm);
    let mut sols = calculate_matches(&storage.rect_configuration, &sorted);
    let ghost found = sols@;
    let ghost before = storage.combined_solutions@;
    storage.combined_solutions.append(&mut sols);
    proof {
        assert(reordered(old(storage).solutions@, sorted@, perm));
        assert(storage.combined_solutions@.subrange(0, before.len() as int) =~= before);
        assert(storage.combined_solutions@.subrange(before.len() as int, storage.combined_solutions@.len() as int) =~= found);
    }
}

/// The members of the layers of the solutions, three by three, in order.
pub open spec fn solution_layers(sols: Seq<Solution>) -> Seq<Seq<usize>>
    decreases sols.len(),
{
    if sols.len() == 0 {
        Seq::empty()
    } else {
        let s = sols.last();
        solution_layers(sols.drop_last()) + seq![s.0@, s.1@, s.2@]
    }
}

pub open spec fn same_shape_as(blocks: Seq<Rectangle>, c: Seq<usize>) -> spec_fn(Seq<usize>) -> bool {
    |x: Seq<usize>| combination_key(blocks, x) == combination_key(blocks, c)
}

/// How many of the layers have the shape pattern of `c`.
pub open spec fn shape_count(blocks: Seq<Rectangle>, layers: Seq<Seq<usize>>, c: Seq<usize>) -> nat {
    layers.filter(same_shape_as(blocks, c)).len()
}

fn same_key(a: &Vec<u64>, b: &Vec<u64>) -> (r: bool)
    ensures
        r == (a@ == b@),
{
    if a.len() != b.len() {
        return false;
    }
    let mut i: usize = 0;
    while i < a.len()
        invariant
            0 <= i <= a@.len(),
            a@.len() == b@.len(),
            forall|k: int| 0 <= k < i ==> a@[k] == b@[k],
        decreases a@.len() - i,
    {
        if a[i] != b[i] {
            return false;
        }
        i += 1;
    }
    assert(a@ =~= b@);
    true
}

/// Split the three-layer solutions into their layers, keep one layer per shape pattern
/// (the first met), and order them by how often their pattern occurs, least frequent
/// first; the result goes to `final_combinations`.
pub fn step5_sort_final_combinations(storage: &mut ProgramStorage)
    requires
        forall|t: int|
            0 <= t < old(storage).combined_solutions@.len() ==> {
                let s = #[trigger] old(storage).combined_solutions@[t];
                let n = old(storage).rect_configuration.available_blocks@.len();
                within(n, s.0@) && within(n, s.1@) && within(n, s.2@)
            },
    ensures
        same_inputs(final(storage), old(storage)),
        final(storage).combined_solutions == old(storage).combined_solutions,
        final(storage).gathered_combinations == old(storage).gathered_combinations,
        final(storage).deduplicated_combinations == old(storage).deduplicated_combinations,
        final(storage).solutions == old(storage).solutions,
        exists|reps: Seq<Combination>, perm: Seq<usize>|
            #[trigger] reordered(reps, final(storage).final_combinations@, perm) && keeps_first_of_each_shape(
                old(storage).rect_configuration.available_blocks@,
                solution_layers(old(storage).combined_solutions@),
                views(reps),
            ) && forall|a: int, b: int|
                0 <= a < b < final(storage).final_combinations@.len() ==> shape_count(
                    old(storage).rect_configuration.available_blocks@,
                    solution_layers(old(storage).combined_solutions@),
                    final(storage).final_combinations@[a]@,
                ) <= shape_count(
                    old(storage).rect_configuration.available_blocks@,
                    solution_layers(old(storage).combined_solutions@),
                    final(storage).final_combinations@[b]@,
                ),
{
    let ghost blocks = storage.rect_configuration.available_blocks@;
    let ghost sols = storage.combined_solutions@;
    let n = storage.rect_configuration.available_blocks.len();
    let mut layers: Vec<Combination> = Vec::new();
    let mut t: usize = 0;
    while t < storage.combined_solutions.len()
        invariant
            0 <= t <= sols.len(),
            *storage == *old(storage),
            sols == storage.combined_solutions@,
            blocks == storage.rect_configuration.available_blocks@,
            n == blocks.len(),
            forall|q: int|
                0 <= q < sols.len() ==> {
                    let s = #[trigger] sols[q];
                    within(n as nat, s.0@) && within(n as nat, s.1@) && within(n as nat, s.2@)
                },
            views(layers@) == solution_layers(sols.subrange(0, t as int)),
            forall|q: int| 0 <= q < layers@.len() ==> within(n as nat, #[trigger] layers@[q]@),
        decreases sols.len() - t,
    {
        let ghost before = layers@;
        let s = &storage.combined_solutions[t];
        layers.push(clone_combination(&s.0));
        layers.push(clone_combination(&s.1));
        layers.push(clone_combination(&s.2));
        proof {
            let sub = sols.subrange(0, t + 1);
            assert(sub.drop_last() =~= sols.subrange(0, t as int));
            assert(sub.last() == *s);
            assert(views(layers@) =~= views(before) + seq![s.0@, s.1@, s.2@]);
        }
        t += 1;
    }
    let ghost flat = solution_layers(sols);
    proof {
        assert(sols.subrange(0, sols.len() as int) =~= sols);
    }
    let reps = dedup_comb_iter(&storage.rect_configuration, &layers);
    let mut layer_keys: Vec<Vec<u64>> = Vec::new();
    let mut q: usize = 0;
    while q < layers.len()
        invariant
            0 <= q <= layers@.len(),
            blocks == storage.rect_configuration.available_blocks@,
            forall|k: int| 0 <= k < layers@.len() ==> within(blocks.len(), #[trigger] layers@[k]@),
            layer_keys@.len() == q,
            forall|k: int| 0 <= k < q ==> #[trigger] layer_keys@[k]@ == combination_key(blocks, layers@[k]@),
        decreases layers@.len() - q,
    {
        layer_keys.push(get_unique_combination_key(&storage.rect_configuration, &layers[q]));
        q += 1;
    }
    let mut counts: Vec<i128> = Vec::new();
    let mut a: usize = 0;
    while a < reps.len()
        invariant
            0 <= a <= reps@.len(),
            blocks == storage.rect_configuration.available_blocks@,
            views(layers@) == flat,
            layer_keys@.len() == layers@.len(),
            forall|k: int| 0 <= k < layers@.len() ==> #[trigger] layer_keys@[k]@ == combination_key(blocks, layers@[k]@),
            forall|k: int| 0 <= k < reps@.len() ==> within(blocks.len(), #[trigger] reps@[k]@),
            counts@.len() == a,
            forall|k: int| 0 <= k < a ==> counts@[k] == shape_count(blocks, flat, #[trigger] reps@[k]@),
        decreases reps@.len() - a,
    {
        let key = get_unique_combination_key(&storage.rect_configuration, &reps[a]);
        let ghost f = same_shape_as(blocks, reps@[a as int]@);
        let mut count: i128 = 0;
        let mut k: usize = 0;
        while k < layer_keys.len()
            invariant
                0 <= k <= layers@.len(),
                views(layers@) == flat,
                layer_keys@.len() == layers@.len(),
                forall|j: int| 0 <= j < layers@.len() ==> #[trigger] layer_keys@[j]@ == combination_key(blocks, layers@[j]@),
                key@ == combination_key(blocks, reps@[a as int]@),
                f == same_shape_as(blocks, reps@[a as int]@),
                count == flat.subrange(0, k as int).filter(f).len(),
                count <= k,
            decreases layers@.len() - k,
        {
            proof {
                assert(flat.subrange(0, k + 1) =~= flat.subrange(0, k as int).push(flat[k as int]));
                flat.subrange(0, k as int).lemma_filter_push(flat[k as int], f);
                assert(flat[k as int] == layers@[k as int]@);
            }
            if same_key(&layer_keys[k], &key) {
                count = count + 1;
            }
            k += 1;
        }
        assert(flat.subrange(0, k as int) =~= flat);
        counts.push(count);
        a += 1;
    }
    let ordered = reorder_by(&reps, &counts);
    let ghost perm = choose|perm: Seq<usize>|
        #[trigger] reordered(reps@, ordered@, perm) && forall|x: int, y: int|
            0 <= x < y < ordered@.len() ==> counts@[perm[x] as int] <= counts@[perm[y] as int];
    let ghost reps_v = reps@;
    storage.final_combinations = ordered;
    proof {
        assert(reordered(reps_v, storage.final_combinations@, perm));
        assert forall|x: int, y: int|
            0 <= x < y < storage.final_combinations@.len() implies shape_count(blocks, flat, storage.final_combinations@[x]@)
                <= shape_count(blocks, flat, storage.final_combinations@[y]@) by {
            assert(storage.final_combinations@[x]@ == reps_v[perm[x] as int]@);
            assert(storage.final_combinations@[y]@ == reps_v[perm[y] as int]@);
        }
    }
}

} // verus!
