use vstd::prelude::*;

use crate::combination::{
    clone_combination, duplicate_combination, expansions, has_member, increasing, listed,
    may_substitute, redup_set, within, Combination, Solution,
};
use crate::config::RectConfiguration;
use crate::rect::{dedup_spec, Rectangle};

verus! {

/// The pieces of `s` marked as committed, by position.
pub open spec fn marks(n: nat, s: Set<usize>) -> Seq<bool> {
    Seq::new(n, |i: int| s.contains(i as usize))
}

/// `s0`, `s1`, `s2` are concrete substitutions of the layers `a`, `b`, `c`, each
/// avoiding the pieces committed by the ones before, which together hold as many
/// pieces as the inventory.
pub open spec fn realizes(
    blocks: Seq<Rectangle>,
    a: Seq<usize>,
    b: Seq<usize>,
    c: Seq<usize>,
    s0: Set<usize>,
    s1: Set<usize>,
    s2: Set<usize>,
) -> bool {
    let n = blocks.len();
    &&& redup_set(blocks, a, marks(n, Set::empty())).contains(s0)
    &&& redup_set(blocks, b, marks(n, s0)).contains(s1)
    &&& redup_set(blocks, c, marks(n, s0.union(s1))).contains(s2)
    &&& s0.len() + s1.len() + s2.len() >= n
}

pub open spec fn realizable(blocks: Seq<Rectangle>, a: Seq<usize>, b: Seq<usize>, c: Seq<usize>) -> bool {
    exists|s0: Set<usize>, s1: Set<usize>, s2: Set<usize>| realizes(blocks, a, b, c, s0, s1, s2)
}

/// Some substitution of `c` avoiding `s0` and `s1` completes them to a covering.
pub open spec fn completes(blocks: Seq<Rectangle>, c: Seq<usize>, s0: Set<usize>, s1: Set<usize>) -> bool {
    exists|s2: Set<usize>|
        redup_set(blocks, c, marks(blocks.len(), s0.union(s1))).contains(s2) && s0.len() + s1.len()
            + s2.len() >= blocks.len()
}

/// Some realization of `a`, `b`, `c` starts with `s0`.
pub open spec fn starts(blocks: Seq<Rectangle>, a: Seq<usize>, b: Seq<usize>, c: Seq<usize>, s0: Set<usize>) -> bool {
    exists|s1: Set<usize>, s2: Set<usize>| realizes(blocks, a, b, c, s0, s1, s2)
}

pub open spec fn member_in_class(blocks: Seq<Rectangle>, key: (u32, u32)) -> spec_fn(usize) -> bool {
    |m: usize| dedup_spec(blocks[m as int]) == key
}

pub open spec fn piece_in_class(key: (u32, u32)) -> spec_fn(Rectangle) -> bool {
    |r: Rectangle| dedup_spec(r) == key
}

/// How many members of `s` fall in the class with the given key.
pub open spec fn class_draws(blocks: Seq<Rectangle>, s: Seq<usize>, key: (u32, u32)) -> nat {
    s.filter(member_in_class(blocks, key)).len()
}

/// How many pieces of the inventory fall in the class with the given key.
pub open spec fn class_size(blocks: Seq<Rectangle>, key: (u32, u32)) -> nat {
    blocks.filter(piece_in_class(key)).len()
}

/// The cheap test on representatives: enough members in all, and no class drawn from
/// more often than it has pieces.
pub open spec fn worth_expanding(blocks: Seq<Rectangle>, a: Seq<usize>, b: Seq<usize>, c: Seq<usize>) -> bool {
    &&& a.len() + b.len() + c.len() >= blocks.len()
    &&& forall|p: int|
        0 <= p < blocks.len() ==> class_draws(blocks, a + b + c, dedup_spec(blocks[p]))
            <= class_size(blocks, dedup_spec(#[trigger] blocks[p]))
}

/// Solution `s` realizes the layers `a`, `b`, `c`.
pub open spec fn solves(blocks: Seq<Rectangle>, a: Seq<usize>, b: Seq<usize>, c: Seq<usize>, s: Solution) -> bool {
    &&& realizes(blocks, a, b, c, s.0@.to_set(), s.1@.to_set(), s.2@.to_set())
    &&& increasing(s.0@) && increasing(s.1@) && increasing(s.2@)
}

/// Some recorded solution realizes layers `i`, `j`, `k`.
pub open spec fn found_for(
    blocks: Seq<Rectangle>,
    layers: Seq<Combination>,
    sols: Seq<Solution>,
    i: int,
    j: int,
    k: int,
) -> bool {
    exists|t: int| 0 <= t < sols.len() && solves(blocks, layers[i]@, layers[j]@, layers[k]@, #[trigger] sols[t])
}

/// Solution `s` realizes some triple of layers taken in list order.
pub open spec fn solves_some(blocks: Seq<Rectangle>, layers: Seq<Combination>, s: Solution) -> bool {
    exists|i: int, j: int, k: int|
        0 <= i < j < k < layers.len() && #[trigger] solves(blocks, layers[i]@, layers[j]@, layers[k]@, s)
}

/// Every recorded solution realizes some triple of layers taken in list order, and every
/// triple that passes the cheap test and can be realized has a recorded solution.
pub open spec fn matches_found(blocks: Seq<Rectangle>, layers: Seq<Combination>, sols: Seq<Solution>) -> bool {
    &&& forall|t: int| 0 <= t < sols.len() ==> solves_some(blocks, layers, #[trigger] sols[t])
    &&& forall|i: int, j: int, k: int|
        0 <= i < j < k < layers.len() && worth_expanding(blocks, layers[i]@, layers[j]@, layers[k]@)
            && realizable(blocks, layers[i]@, layers[j]@, layers[k]@) ==> #[trigger] found_for(
            blocks,
            layers,
            sols,
            i,
            j,
            k,
        )
}

/// `base` with the members of `c` marked too.
fn add_marks(base: &Vec<bool>, c: &Combination) -> (r: Vec<bool>)
    ensures
        r@.len() == base@.len(),
        forall|i: int| 0 <= i < r@.len() ==> r@[i] == (base@[i] || c@.contains(i as usize)),
{
    let mut r: Vec<bool> = Vec::new();
    let mut i: usize = 0;
    while i < base.len()
        invariant
            0 <= i <= base@.len(),
            r@.len() == i,
            forall|k: int| 0 <= k < i ==> r@[k] == (base@[k] || c@.contains(k as usize)),
        decreases base@.len() - i,
    {
        r.push(base[i] || has_member(c, i));
        i += 1;
    }
    r
}

/// A first concrete realization of the layers `a`, `b`, `c`, trying the substitutions of
/// each in turn against the pieces the earlier ones committed.
pub fn find_realization(cfg: &RectConfiguration, a: &Combination, b: &Combination, c: &Combination) -> (r: Option<Solution>)
    requires
        within(cfg.available_blocks@.len(), a@),
        within(cfg.available_blocks@.len(), b@),
        within(cfg.available_blocks@.len(), c@),
    ensures
        r matches Some(s) ==> solves(cfg.available_blocks@, a@, b@, c@, s),
        r is None ==> !realizable(cfg.available_blocks@, a@, b@, c@),
{
    let ghost blocks = cfg.available_blocks@;
    let n = cfg.available_blocks.len();
    let mut none: Vec<bool> = Vec::new();
    let mut i: usize = 0;
    while i < n
        invariant
            0 <= i <= n,
            none@.len() == i,
            forall|k: int| 0 <= k < i ==> !none@[k],
        decreases n - i,
    {
        none.push(false);
        i += 1;
    }
    assert(none@ =~= marks(n as nat, Set::empty()));
    let firsts = duplicate_combination(cfg, a, &none);
    let mut x: usize = 0;
    while x < firsts.len()
        invariant
            0 <= x <= firsts@.len(),
            none@ == marks(n as nat, Set::empty()),
            blocks == cfg.available_blocks@,
            n == blocks.len(),
            within(n as nat, b@),
            within(n as nat, c@),
            forall|k: int| 0 <= k < firsts@.len() ==> increasing(#[trigger] firsts@[k]@) && within(n as nat, firsts@[k]@),
            forall|s: Set<usize>|
                #[trigger] redup_set(blocks, a@, marks(n as nat, Set::empty())).contains(s) <==> listed(firsts@, s),
            forall|q: int| 0 <= q < x ==> !starts(blocks, a@, b@, c@, #[trigger] firsts@[q]@.to_set()),
        decreases firsts@.len() - x,
    {
        let s0 = &firsts[x];
        let ghost set0 = s0@.to_set();
        let ex1 = add_marks(&none, s0);
        proof {
            assert(ex1@ =~= marks(n as nat, set0));
            assert(firsts@[x as int]@.to_set() == set0);
            assert(listed(firsts@, set0));
        }
        let seconds = duplicate_combination(cfg, b, &ex1);
        let mut y: usize = 0;
        while y < seconds.len()
            invariant
                0 <= y <= seconds@.len(),
                0 <= x < firsts@.len(),
                s0 == &firsts@[x as int],
                set0 == s0@.to_set(),
                redup_set(blocks, a@, marks(n as nat, Set::empty())).contains(set0),
                blocks == cfg.available_blocks@,
                n == blocks.len(),
                within(n as nat, c@),
                ex1@ == marks(n as nat, set0),
                increasing(s0@),
                within(n as nat, s0@),
                forall|k: int| 0 <= k < seconds@.len() ==> increasing(#[trigger] seconds@[k]@) && within(n as nat, seconds@[k]@),
                forall|s: Set<usize>|
                    #[trigger] redup_set(blocks, b@, marks(n as nat, set0)).contains(s) <==> listed(seconds@, s),
                forall|q: int| 0 <= q < y ==> !completes(blocks, c@, set0, #[trigger] seconds@[q]@.to_set()),
            decreases seconds@.len() - y,
        {
            let s1 = &seconds[y];
            let ghost set1 = s1@.to_set();
            let ex2 = add_marks(&ex1, s1);
            proof {
                assert(ex2@ =~= marks(n as nat, set0.union(set1)));
                assert(seconds@[y as int]@.to_set() == set1);
                assert(listed(seconds@, set1));
            }
            let thirds = duplicate_combination(cfg, c, &ex2);
            let mut z: usize = 0;
            proof {
                s0@.unique_seq_to_set();
                s1@.unique_seq_to_set();
            }
            while z < thirds.len()
                invariant
                    0 <= z <= thirds@.len(),
                    0 <= y < seconds@.len(),
                    s1 == &seconds@[y as int],
                    set1 == s1@.to_set(),
                    set0 == s0@.to_set(),
                    redup_set(blocks, a@, marks(n as nat, Set::empty())).contains(set0),
                    redup_set(blocks, b@, marks(n as nat, set0)).contains(set1),
                    increasing(s0@),
                    increasing(s1@),
                    s0@.len() == set0.len(),
                    s1@.len() == set1.len(),
                    blocks == cfg.available_blocks@,
                    n == blocks.len(),
                    forall|k: int| 0 <= k < thirds@.len() ==> increasing(#[trigger] thirds@[k]@) && within(n as nat, thirds@[k]@),
                    forall|s: Set<usize>|
                        #[trigger] redup_set(blocks, c@, marks(n as nat, set0.union(set1))).contains(s) <==> listed(thirds@, s),
                    forall|q: int| 0 <= q < z ==> set0.len() + set1.len() + (#[trigger] thirds@[q])@.len() < n,
                decreases thirds@.len() - z,
            {
                if s0.len() as u128 + s1.len() as u128 + thirds[z].len() as u128 >= n as u128 {
                    let sol = (clone_combination(s0), clone_combination(s1), clone_combination(&thirds[z]));
                    proof {
                        thirds@[z as int]@.unique_seq_to_set();
                        assert(listed(thirds@, thirds@[z as int]@.to_set()));
                        assert(sol.0@ == s0@);
                        assert(sol.1@ == s1@);
                        assert(increasing(thirds@[z as int]@));
                    }
                    return Some(sol);
                }
                z += 1;
            }
            proof {
                if completes(blocks, c@, set0, set1) {
                    let s2 = choose|s2: Set<usize>|
                        redup_set(blocks, c@, marks(n as nat, set0.union(set1))).contains(s2) && set0.len()
                            + set1.len() + s2.len() >= n;
                    assert(listed(thirds@, s2));
                    let q = choose|q: int| 0 <= q < thirds@.len() && #[trigger] thirds@[q]@.to_set() == s2;
                    thirds@[q]@.unique_seq_to_set();
                    assert(false);
                }
            }
            y += 1;
        }
        proof {
            if starts(blocks, a@, b@, c@, set0) {
                let (s1, s2) = choose|s1: Set<usize>, s2: Set<usize>| realizes(blocks, a@, b@, c@, set0, s1, s2);
                assert(listed(seconds@, s1));
                let q = choose|q: int| 0 <= q < seconds@.len() && #[trigger] seconds@[q]@.to_set() == s1;
                assert(completes(blocks, c@, set0, s1));
                assert(false);
            }
        }
        x += 1;
    }
    proof {
        if realizable(blocks, a@, b@, c@) {
            let (s0, s1, s2) = choose|s0: Set<usize>, s1: Set<usize>, s2: Set<usize>| realizes(blocks, a@, b@, c@, s0, s1, s2);
            assert(listed(firsts@, s0));
            let q = choose|q: int| 0 <= q < firsts@.len() && #[trigger] firsts@[q]@.to_set() == s0;
            assert(starts(blocks, a@, b@, c@, s0));
            assert(false);
        }
    }
    None
}

/// How many members of `s` fall in the class with the given key.
fn count_class_draws(cfg: &RectConfiguration, s: &Vec<usize>, key: (u32, u32)) -> (r: usize)
    requires
        within(cfg.available_blocks@.len(), s@),
    ensures
        r == class_draws(cfg.available_blocks@, s@, key),
{
    let ghost f = member_in_class(cfg.available_blocks@, key);
    let mut count: usize = 0;
    let mut i: usize = 0;
    while i < s.len()
        invariant
            0 <= i <= s@.len(),
            within(cfg.available_blocks@.len(), s@),
            f == member_in_class(cfg.available_blocks@, key),
            count == s@.subrange(0, i as int).filter(f).len(),
            count <= i,
        decreases s@.len() - i,
    {
        proof {
            assert(s@.subrange(0, i + 1) =~= s@.subrange(0, i as int).push(s@[i as int]));
            s@.subrange(0, i as int).lemma_filter_push(s@[i as int], f);
        }
        let k = cfg.available_blocks[s[i]].dedup();
        if k.0 == key.0 && k.1 == key.1 {
            count += 1;
        }
        i += 1;
    }
    assert(s@.subrange(0, i as int) =~= s@);
    count
}

/// How many pieces of the inventory fall in the class with the given key.
fn count_class_size(cfg: &RectConfiguration, key: (u32, u32)) -> (r: usize)
    ensures
        r == class_size(cfg.available_blocks@, key),
{
    let ghost f = piece_in_class(key);
    let ghost blocks = cfg.available_blocks@;
    let mut count: usize = 0;
    let mut i: usize = 0;
    while i < cfg.available_blocks.len()
        invariant
            0 <= i <= blocks.len(),
            blocks == cfg.available_blocks@,
            f == piece_in_class(key),
            count == blocks.subrange(0, i as int).filter(f).len(),
            count <= i,
        decreases blocks.len() - i,
    {
        proof {
            assert(blocks.subrange(0, i + 1) =~= blocks.subrange(0, i as int).push(blocks[i as int]));
            blocks.subrange(0, i as int).lemma_filter_push(blocks[i as int], f);
        }
        let k = cfg.available_blocks[i].dedup();
        if k.0 == key.0 && k.1 == key.1 {
            count += 1;
        }
        i += 1;
    }
    assert(blocks.subrange(0, i as int) =~= blocks);
    count
}

/// The cheap test: enough members in all, and no class drawn from more often than it
/// has pieces.
pub fn worth_expanding_check(cfg: &RectConfiguration, a: &Combination, b: &Combination, c: &Combination) -> (r: bool)
    requires
        within(cfg.available_blocks@.len(), a@),
        within(cfg.available_blocks@.len(), b@),
        within(cfg.available_blocks@.len(), c@),
    ensures
        r == worth_expanding(cfg.available_blocks@, a@, b@, c@),
{
    let ghost blocks = cfg.available_blocks@;
    let n = cfg.available_blocks.len();
    if (a.len() as u128) + (b.len() as u128) + (c.len() as u128) < n as u128 {
        return false;
    }
    let mut all: Vec<usize> = Vec::new();
    let mut i: usize = 0;
    while i < a.len()
        invariant
            0 <= i <= a@.len(),
            all@ == a@.subrange(0, i as int),
        decreases a@.len() - i,
    {
        all.push(a[i]);
        i += 1;
    }
    i = 0;
    while i < b.len()
        invariant
            0 <= i <= b@.len(),
            all@ == a@ + b@.subrange(0, i as int),
        decreases b@.len() - i,
    {
        all.push(b[i]);
        i += 1;
        assert(all@ =~= a@ + b@.subrange(0, i as int));
    }
    i = 0;
    while i < c.len()
        invariant
            0 <= i <= c@.len(),
            all@ == a@ + b@ + c@.subrange(0, i as int),
        decreases c@.len() - i,
    {
        all.push(c[i]);
        i += 1;
        assert(all@ =~= a@ + b@ + c@.subrange(0, i as int));
    }
    assert(a@.subrange(0, a@.len() as int) =~= a@);
    assert(b@.subrange(0, b@.len() as int) =~= b@);
    assert(c@.subrange(0, c@.len() as int) =~= c@);
    assert(within(n as nat, all@)) by {
        assert forall|k: int| 0 <= k < all@.len() implies all@[k] < n by {
            if k < a@.len() {
                assert(all@[k] == a@[k]);
            } else if k < a@.len() + b@.len() {
                assert(all@[k] == b@[k - a@.len()]);
            } else {
                assert(all@[k] == c@[k - a@.len() - b@.len()]);
            }
        }
    }
    let mut p: usize = 0;
    while p < n
        invariant
            0 <= p <= n,
            n == blocks.len(),
            blocks == cfg.available_blocks@,
            all@ == a@ + b@ + c@,
            within(n as nat, all@),
            forall|q: int|
                0 <= q < p ==> class_draws(blocks, all@, dedup_spec(blocks[q])) <= class_size(
                    blocks,
                    dedup_spec(#[trigger] blocks[q]),
                ),
        decreases n - p,
    {
        let key = cfg.available_blocks[p].dedup();
        if count_class_draws(cfg, &all, key) > count_class_size(cfg, key) {
            return false;
        }
        p += 1;
    }
    true
}

pub open spec fn handled_before(i2: int, j2: int, k2: int, i: int, j: int, k: int) -> bool {
    i2 < i || (i2 == i && j2 < j) || (i2 == i && j2 == j && k2 < k)
}

/// Every triple `i < j < k` of layers, in list order: those that pass the cheap test
/// are searched for a concrete realization, and the first one found is recorded.
pub fn calculate_matches(cfg: &RectConfiguration, layers: &Vec<Combination>) -> (r: Vec<Solution>)
    requires
        forall|l: int| 0 <= l < layers@.len() ==> within(cfg.available_blocks@.len(), #[trigger] layers@[l]@),
    ensures
        matches_found(cfg.available_blocks@, layers@, r@),
{
    let ghost blocks = cfg.available_blocks@;
    let ghost ls = layers@;
    let len = layers.len();
    let mut sols: Vec<Solution> = Vec::new();
    let mut i: usize = 0;
    while i < len
        invariant
            0 <= i <= len,
            len == ls.len(),
            ls == layers@,
            blocks == cfg.available_blocks@,
            forall|l: int| 0 <= l < ls.len() ==> within(blocks.len(), #[trigger] ls[l]@),
            forall|t: int| 0 <= t < sols@.len() ==> solves_some(blocks, ls, #[trigger] sols@[t]),
            forall|i2: int, j2: int, k2: int|
                0 <= i2 < j2 < k2 < ls.len() && i2 < i && worth_expanding(blocks, ls[i2]@, ls[j2]@, ls[k2]@)
                    && realizable(blocks, ls[i2]@, ls[j2]@, ls[k2]@) ==> #[trigger] found_for(blocks, ls, sols@, i2, j2, k2),
        decreases len - i,
    {
        let mut j: usize = i + 1;
        while j < len
            invariant
                i < len,
                i + 1 <= j <= len,
                len == ls.len(),
                ls == layers@,
                blocks == cfg.available_blocks@,
                forall|l: int| 0 <= l < ls.len() ==> within(blocks.len(), #[trigger] ls[l]@),
                forall|t: int| 0 <= t < sols@.len() ==> solves_some(blocks, ls, #[trigger] sols@[t]),
                forall|i2: int, j2: int, k2: int|
                    0 <= i2 < j2 < k2 < ls.len() && (i2 < i || (i2 == i && j2 < j)) && worth_expanding(blocks, ls[i2]@, ls[j2]@, ls[k2]@)
                        && realizable(blocks, ls[i2]@, ls[j2]@, ls[k2]@) ==> #[trigger] found_for(blocks, ls, sols@, i2, j2, k2),
            decreases len - j,
        {
            let mut k: usize = j + 1;
            while k < len
                invariant
                    i < j < len,
                    j + 1 <= k <= len,
                    len == ls.len(),
                    ls == layers@,
                    blocks == cfg.available_blocks@,
                    forall|l: int| 0 <= l < ls.len() ==> within(blocks.len(), #[trigger] ls[l]@),
                    forall|t: int| 0 <= t < sols@.len() ==> solves_some(blocks, ls, #[trigger] sols@[t]),
                    forall|i2: int, j2: int, k2: int|
                        0 <= i2 < j2 < k2 < ls.len() && handled_before(i2, j2, k2, i as int, j as int, k as int)
                            && worth_expanding(blocks, ls[i2]@, ls[j2]@, ls[k2]@)
                            && realizable(blocks, ls[i2]@, ls[j2]@, ls[k2]@) ==> #[trigger] found_for(blocks, ls, sols@, i2, j2, k2),
                decreases len - k,
            {
                assert(within(blocks.len(), ls[i as int]@));
                assert(within(blocks.len(), ls[j as int]@));
                assert(within(blocks.len(), ls[k as int]@));
                if worth_expanding_check(cfg, &layers[i], &layers[j], &layers[k]) {
                    let found = find_realization(cfg, &layers[i], &layers[j], &layers[k]);
                    if let Some(sol) = found {
                        let ghost before = sols@;
                        sols.push(sol);
                        proof {
                            assert forall|t: int|
                                0 <= t < sols@.len() implies solves_some(blocks, ls, #[trigger] sols@[t]) by {
                                if t < before.len() {
                                    assert(sols@[t] == before[t]);
                                } else {
                                    assert(solves(blocks, ls[i as int]@, ls[j as int]@, ls[k as int]@, sols@[t]));
                                }
                            }
                            assert forall|i2: int, j2: int, k2: int|
                                0 <= i2 < j2 < k2 < ls.len() && handled_before(i2, j2, k2, i as int, j as int, k + 1)
                                    && worth_expanding(blocks, ls[i2]@, ls[j2]@, ls[k2]@)
                                    && realizable(blocks, ls[i2]@, ls[j2]@, ls[k2]@) implies #[trigger] found_for(blocks, ls, sols@, i2, j2, k2) by {
                                if handled_before(i2, j2, k2, i as int, j as int, k as int) {
                                    assert(found_for(blocks, ls, before, i2, j2, k2));
                                    let t = choose|t: int| 0 <= t < before.len() && solves(blocks, ls[i2]@, ls[j2]@, ls[k2]@, #[trigger] before[t]);
                                    assert(sols@[t] == before[t]);
                                } else {
                                    assert(sols@[before.len() as int] == sol);
                                }
                            }
                        }
                    }
                }
                k += 1;
            }
            j += 1;
        }
        i += 1;
    }
    sols
}

/// The pieces an expansion uses are pieces of the inventory that `excluded` leaves free.
proof fn lemma_expansion_members(blocks: Seq<Rectangle>, c: Seq<usize>, excluded: Seq<bool>, s: Set<usize>)
    requires
        expansions(blocks, c, excluded).contains(s) || redup_set(blocks, c, excluded).contains(s),
    ensures
        s.finite(),
        forall|x: usize| #[trigger] s.contains(x) ==> x < blocks.len() && !excluded[x as int],
    decreases c.len(),
{
    if c.len() == 0 {
        assert(s == Set::<usize>::empty());
    } else {
        let prev = expansions(blocks, c.drop_last(), excluded);
        let (r, m) = choose|r: Set<usize>, m: usize|
            prev.contains(r) && may_substitute(blocks, excluded, c.last(), r, m) && s == r.insert(m);
        lemma_expansion_members(blocks, c.drop_last(), excluded, r);
    }
}

/// The positions of an inventory of `n` pieces.
pub open spec fn all_positions(n: nat) -> Set<usize> {
    Set::new(|i: usize| i < n)
}

proof fn lemma_all_positions_len(n: nat)
    requires
        n <= usize::MAX + 1,
    ensures
        all_positions(n).finite(),
        all_positions(n).len() == n,
    decreases n,
{
    if n == 0 {
        assert(all_positions(n) =~= Set::<usize>::empty());
    } else {
        lemma_all_positions_len((n - 1) as nat);
        assert(all_positions((n - 1) as nat).insert((n - 1) as usize) =~= all_positions(n));
    }
}

/// A three-layer covering uses every piece of the inventory exactly once: its layers
/// are pairwise disjoint and together hold the whole inventory.
pub proof fn lemma_covering_partitions(
    blocks: Seq<Rectangle>,
    a: Seq<usize>,
    b: Seq<usize>,
    c: Seq<usize>,
    s0: Set<usize>,
    s1: Set<usize>,
    s2: Set<usize>,
)
    requires
        blocks.len() <= usize::MAX,
        realizes(blocks, a, b, c, s0, s1, s2),
    ensures
        s0.disjoint(s1),
        s0.disjoint(s2),
        s1.disjoint(s2),
        s0 + s1 + s2 == all_positions(blocks.len()),
{
    let n = blocks.len();
    lemma_expansion_members(blocks, a, marks(n, Set::empty()), s0);
    lemma_expansion_members(blocks, b, marks(n, s0), s1);
    lemma_expansion_members(blocks, c, marks(n, s0.union(s1)), s2);
    assert forall|x: usize| s1.contains(x) implies !s0.contains(x) by {
        assert(!marks(n, s0)[x as int]);
    }
    assert forall|x: usize| s2.contains(x) implies !s0.contains(x) && !s1.contains(x) by {
        assert(!marks(n, s0.union(s1))[x as int]);
    }
    let u = s0 + s1 + s2;
    vstd::set_lib::lemma_set_disjoint_lens(s0, s1);
    vstd::set_lib::lemma_set_disjoint_lens(s0 + s1, s2);
    lemma_all_positions_len(n);
    assert(u.subset_of(all_positions(n)));
    vstd::set_lib::lemma_len_subset(u, all_positions(n));
    vstd::set_lib::lemma_subset_equality(u, all_positions(n));
}

} // verus!
