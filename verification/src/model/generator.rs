use vstd::prelude::*;

use crate::model::layout::{
    easy_layout, lemma_flatten_singletons, no_attack, section, Layout, Section,
};
use rand::seq::SliceRandom;
use rand::RngExt;

verus! {

/// Relies on rand::seq::SliceRandom::shuffle: permutes the slice in place, so
/// the new contents are a rearrangement of the old contents.
#[verifier::external_body]
fn shuffle_cells(v: &mut Vec<usize>)
    ensures
        final(v)@.to_multiset() == old(v)@.to_multiset(),
{
    v.shuffle(&mut rand::rng());
}

/// Relies on rand::RngExt::random_range: returns some value of the nonempty
/// range `0..bound`.
#[verifier::external_body]
fn random_below(bound: usize) -> (r: usize)
    requires
        0 < bound,
    ensures
        r < bound,
{
    rand::rng().random_range(0..bound)
}

/// How many entries of the sequence are true.
spec fn count_true(s: Seq<bool>) -> int
    decreases s.len(),
{
    if s.len() == 0 {
        0
    } else {
        count_true(s.drop_last()) + if s.last() {
            1int
        } else {
            0int
        }
    }
}

proof fn lemma_count_true_bounds(s: Seq<bool>)
    ensures
        0 <= count_true(s) <= s.len(),
    decreases s.len(),
{
    if s.len() > 0 {
        lemma_count_true_bounds(s.drop_last());
    }
}

proof fn lemma_count_true_zero(s: Seq<bool>)
    requires
        forall|i: int| 0 <= i < s.len() ==> !s[i],
    ensures
        count_true(s) == 0,
    decreases s.len(),
{
    if s.len() > 0 {
        lemma_count_true_zero(s.drop_last());
    }
}

/// Setting one false entry to true raises the count by one.
proof fn lemma_count_true_update(s: Seq<bool>, i: int)
    requires
        0 <= i < s.len(),
        !s[i],
    ensures
        count_true(s.update(i, true)) == count_true(s) + 1,
    decreases s.len(),
{
    let t = s.update(i, true);
    if i == s.len() - 1 {
        assert(t.drop_last() =~= s.drop_last());
    } else {
        assert(t.drop_last() =~= s.drop_last().update(i, true));
        lemma_count_true_update(s.drop_last(), i);
    }
}

/// A full count means every entry is true.
proof fn lemma_count_true_full(s: Seq<bool>)
    requires
        count_true(s) == s.len(),
    ensures
        forall|i: int| 0 <= i < s.len() ==> s[i],
    decreases s.len(),
{
    if s.len() > 0 {
        lemma_count_true_bounds(s.drop_last());
        lemma_count_true_full(s.drop_last());
        assert(forall|i: int|
            0 <= i < s.len() - 1 ==> s[i] == s.drop_last()[i]);
    }
}

/// A vector of `len` entries, all false.
fn falses(len: usize) -> (v: Vec<bool>)
    ensures
        v@.len() == len,
        forall|i: int| 0 <= i < len ==> !v@[i],
{
    let mut v: Vec<bool> = Vec::new();
    let mut i: usize = 0;
    while i < len
        invariant
            i <= len,
            v@.len() == i,
            forall|j: int| 0 <= j < i ==> !v@[j],
        decreases len - i,
    {
        v.push(false);
        i = i + 1;
    }
    v
}

/// The seed of region `j` while the regions are still under construction.
spec fn seed_at(areas: Seq<Vec<Section>>, j: int) -> int {
    areas[j]@[0].start as int
}

/// Whether cell `c` already belongs to region `j` under construction.
spec fn gmember(areas: Seq<Vec<Section>>, j: int, c: int) -> bool {
    exists|k: int| 0 <= k < areas[j]@.len() && (#[trigger] areas[j]@[k]).start == c
}

/// Whether two cells of the 10-by-10 board share a row, a column, or an
/// immediate diagonal.
spec fn attacks(s: int, c: int) -> bool {
    !no_attack(s, c, 10)
}

/// The bookkeeping invariant of the growth phase: ten regions of one-cell
/// sections on the board, `placed` mirroring exactly the claimed cells, and no
/// cell claimed by two regions.
spec fn growth_inv(areas: Seq<Vec<Section>>, placed: Seq<bool>) -> bool {
    &&& areas.len() == 10
    &&& placed.len() == 100
    &&& forall|j: int| 0 <= j < 10 ==> (#[trigger] areas[j]@).len() >= 1
    &&& forall|j: int, k: int|
        0 <= j < 10 && 0 <= k < areas[j]@.len() ==> ((#[trigger] areas[j]@[k]).end == areas[j]@[
            k
        ].start + 1 && areas[j]@[k].start < 100)
    &&& forall|c: int|
        0 <= c < 100 ==> ((#[trigger] placed[c]) <==> exists|j: int|
            0 <= j < 10 && #[trigger] gmember(areas, j, c))
    &&& forall|j1: int, j2: int, c: int|
        #![trigger gmember(areas, j1, c), gmember(areas, j2, c)]
        0 <= j1 < 10 && 0 <= j2 < 10 && gmember(areas, j1, c) && gmember(areas, j2, c) ==> j1
            == j2
    &&& forall|j: int, k1: int, k2: int|
        0 <= j < 10 && 0 <= k1 < k2 < areas[j]@.len() ==> (#[trigger] areas[j]@[k1]).start != (
        #[trigger] areas[j]@[k2]).start
}

/// Claims the unclaimed cell `cell2` for region `j0`.
fn claim_cell(areas: &mut Vec<Vec<Section>>, placed: &mut Vec<bool>, j0: usize, cell2: usize)
    requires
        growth_inv(old(areas)@, old(placed)@),
        j0 < 10,
        cell2 < 100,
        !old(placed)@[cell2 as int],
    ensures
        growth_inv(final(areas)@, final(placed)@),
        final(placed)@ == old(placed)@.update(cell2 as int, true),
        forall|j: int| 0 <= j < 10 ==> seed_at(final(areas)@, j) == seed_at(old(areas)@, j),
{
    let ghost a0 = areas@;
    let ghost p0 = placed@;
    areas[j0].push(section(cell2, cell2 + 1));
    placed[cell2] = true;
    proof {
        let a1 = areas@;
        let j0i = j0 as int;
        assert(a1 == a0.update(j0i, a1[j0i]));
        assert(a1[j0i]@ == a0[j0i]@.push(Section { start: cell2, end: (cell2 + 1) as usize }));
        assert forall|j: int, c: int|
            0 <= j < 10 && j != j0i implies (gmember(a1, j, c) <==> gmember(a0, j, c)) by {
            assert(a1[j] == a0[j]);
        }
        assert forall|c: int| 0 <= c < 100 && c != cell2 implies (gmember(a1, j0i, c) <==> gmember(
            a0,
            j0i,
            c,
        )) by {
            if gmember(a1, j0i, c) {
                let k = choose|k: int|
                    0 <= k < a1[j0i]@.len() && (#[trigger] a1[j0i]@[k]).start == c;
                assert(k < a0[j0i]@.len());
                assert(a0[j0i]@[k].start == c);
            }
            if gmember(a0, j0i, c) {
                let k = choose|k: int|
                    0 <= k < a0[j0i]@.len() && (#[trigger] a0[j0i]@[k]).start == c;
                assert(a1[j0i]@[k].start == c);
            }
        }
        assert forall|j: int, k: int| 0 <= j < 10 && 0 <= k < a1[j]@.len() implies ((
        #[trigger] a1[j]@[k]).end == a1[j]@[k].start + 1 && a1[j]@[k].start < 100) by {
            if j == j0i && k == a0[j0i]@.len() {
            } else {
                assert(a1[j]@[k] == a0[j]@[k]);
            }
        }
        assert(a1[j0i]@[a0[j0i]@.len() as int].start == cell2);
        assert(gmember(a1, j0i, cell2 as int));
        assert forall|c: int| 0 <= c < 100 implies ((#[trigger] placed@[c]) <==> exists|j: int|
            0 <= j < 10 && #[trigger] gmember(a1, j, c)) by {
            if c == cell2 {
                assert(gmember(a1, j0i, c));
            } else {
                assert(placed@[c] == p0[c]);
            }
        }
        assert forall|j1: int, j2: int, c: int|
            0 <= j1 < 10 && 0 <= j2 < 10 && #[trigger] gmember(a1, j1, c) && #[trigger] gmember(
            a1,
            j2,
            c,
        ) implies j1 == j2 by {
            if c == cell2 {
                if j1 != j0i {
                    assert(gmember(a0, j1, c));
                    assert(p0[c]);
                }
                if j2 != j0i {
                    assert(gmember(a0, j2, c));
                    assert(p0[c]);
                }
            } else {
                let k = choose|k: int|
                    0 <= k < a1[j1]@.len() && (#[trigger] a1[j1]@[k]).start == c;
                assert(a1[j1]@[k].start == c && a1[j1]@[k].start < 100);
                assert(0 <= c < 100);
                assert(gmember(a0, j1, c) && gmember(a0, j2, c));
            }
        }
        assert forall|j: int, k1: int, k2: int|
            0 <= j < 10 && 0 <= k1 < k2 < a1[j]@.len() implies (#[trigger] a1[j]@[k1]).start != (
        #[trigger] a1[j]@[k2]).start by {
            if j == j0i && k2 == a0[j0i]@.len() {
                let st = a0[j0i]@[k1].start;
                assert(a1[j0i]@[k1].start == st);
                assert(gmember(a0, j0i, st as int));
                assert(p0[st as int]);
            } else if j == j0i {
                assert(a1[j]@[k1] == a0[j]@[k1] && a1[j]@[k2] == a0[j]@[k2]);
            } else {
                assert(a1[j] == a0[j]);
            }
        }
    }
}

/// The bookkeeping invariant of the seed phase, after `i` seeds were
/// accepted: `i` one-cell regions on the board, mutually non-attacking, with
/// `placed` mirroring exactly the seed cells.
spec fn seed_inv(areas: Seq<Vec<Section>>, placed: Seq<bool>, i: int) -> bool {
    &&& areas.len() == i
    &&& placed.len() == 100
    &&& forall|j: int| 0 <= j < i ==> (#[trigger] areas[j]@).len() == 1
    &&& forall|j: int|
        0 <= j < i ==> ((#[trigger] areas[j]@[0]).end == areas[j]@[0].start + 1 && areas[j]@[
            0
        ].start < 100)
    &&& forall|c: int|
        0 <= c < 100 ==> ((#[trigger] placed[c]) <==> exists|j: int|
            0 <= j < i && #[trigger] seed_at(areas, j) == c)
    &&& forall|j1: int, j2: int|
        #![trigger seed_at(areas, j1), seed_at(areas, j2)]
        0 <= j1 < j2 < i ==> no_attack(seed_at(areas, j1), seed_at(areas, j2), 10)
}

/// One attempt at the randomized layout: shuffle the cells, accept ten
/// mutually non-attacking seeds greedily, then grow the regions by random
/// adjacent claims. Returns nothing when the shuffled pool runs out of seed
/// candidates or the growth draws run out, and the caller retries.
#[verifier::loop_isolation(false)]
#[verifier::rlimit(80)]
pub fn try_generate_layout() -> (r: Option<Layout>)
    ensures
        r matches Some(l) ==> l.is_partition(10) && l.distinct_colors() && l.seeds_solve(10)
            && l.areas_distinct(),
{
    let n: usize = 10;
    let size: usize = 100;

    let mut numbers: Vec<usize> = Vec::new();
    let mut v: usize = 0;
    while v < size
        invariant
            v <= size,
            numbers@.len() == v,
            forall|j: int| 0 <= j < v ==> numbers@[j] == j,
        decreases size - v,
    {
        numbers.push(v);
        v = v + 1;
    }
    let ghost orig = numbers@;
    shuffle_cells(&mut numbers);
    proof {
        broadcast use vstd::seq_lib::group_to_multiset_ensures;

        assert(numbers@.len() == numbers@.to_multiset().len());
        assert(orig.len() == orig.to_multiset().len());
        assert(numbers@.len() == 100);
        assert forall|idx: int| 0 <= idx < numbers@.len() implies numbers@[idx] < 100 by {
            let val = numbers@[idx];
            assert(numbers@.contains(val));
            assert(numbers@.to_multiset().count(val) > 0);
            assert(orig.contains(val));
        }
    }

    let mut unavailable: Vec<bool> = falses(100);
    let mut placed: Vec<bool> = falses(100);
    let mut areas: Vec<Vec<Section>> = Vec::new();
    proof {
        lemma_count_true_zero(placed@);
    }

    let mut i: usize = 0;
    while i < n
        invariant
            i <= 10,
            seed_inv(areas@, placed@, i as int),
            count_true(placed@) == i,
            unavailable@.len() == 100,
            forall|j: int, c: int|
                0 <= j < i && 0 <= c < 100 && #[trigger] attacks(seed_at(areas@, j), c)
                    ==> unavailable@[c],
            forall|idx: int| 0 <= idx < numbers@.len() ==> numbers@[idx] < 100,
        decreases n - i,
    {
        let mut r: usize = 0;
        let mut got: bool = false;
        while !got
            invariant
                forall|idx: int| 0 <= idx < numbers@.len() ==> numbers@[idx] < 100,
                got ==> r < 100 && !unavailable@[r as int],
            decreases numbers@.len() + if got {
                0int
            } else {
                1int
            },
        {
            match numbers.pop() {
                None => {
                    // the shuffled pool is exhausted: retry with a fresh shuffle
                    return None;
                },
                Some(num) => {
                    if !unavailable[num] {
                        r = num;
                        got = true;
                    }
                },
            }
        }

        let ghost ri = r as int;
        proof {
            assert forall|j: int| 0 <= j < i implies !attacks(seed_at(areas@, j), ri) by {
                if attacks(seed_at(areas@, j), ri) {
                    assert(unavailable@[ri]);
                }
            }
            assert(!placed@[ri]) by {
                if placed@[ri] {
                    let j = choose|j: int| 0 <= j < i && #[trigger] seed_at(areas@, j) == ri;
                    assert(attacks(seed_at(areas@, j), ri));
                    assert(unavailable@[ri]);
                }
            }
        }

        // the seed's whole row and column become unavailable
        let rcol = r % 10;
        let rrow_base = r - rcol;
        assert(rrow_base == (ri / 10) * 10);
        let mut t: usize = 0;
        while t < 10
            invariant
                t <= 10,
                unavailable@.len() == 100,
                forall|j: int, c: int|
                    0 <= j < i && 0 <= c < 100 && #[trigger] attacks(seed_at(areas@, j), c)
                        ==> unavailable@[c],
                forall|c: int|
                    0 <= c < 100 && c % 10 == rcol && c / 10 < t ==> #[trigger] unavailable@[c],
                forall|c: int|
                    0 <= c < 100 && c / 10 == ri / 10 && c % 10 < t ==> #[trigger] unavailable@[c],
            decreases 10 - t,
        {
            unavailable[t * 10 + rcol] = true;
            unavailable[rrow_base + t] = true;
            t = t + 1;
        }

        // and so do its four immediate diagonal neighbours
        let bottom_row = r < 10;
        let top_row = r >= 90;
        let left_col = rcol == 0;
        let right_col = rcol == 9;
        if !bottom_row && !left_col {
            unavailable[r - 11] = true;
        }
        if !bottom_row && !right_col {
            unavailable[r - 9] = true;
        }
        if !top_row && !left_col {
            unavailable[r + 9] = true;
        }
        if !top_row && !right_col {
            unavailable[r + 11] = true;
        }

        proof {
            assert forall|c: int| 0 <= c < 100 && #[trigger] attacks(ri, c) implies unavailable@[
                c
            ] by {
                if c / 10 == ri / 10 {
                    assert(c == rrow_base + c % 10);
                } else if c % 10 == ri % 10 {
                    assert(c == (c / 10) * 10 + rcol);
                } else if ri % 10 != 9 && c == ri + 11 {
                } else if ri % 10 != 0 && c == ri + 9 {
                } else if c % 10 != 9 && ri == c + 11 {
                } else if c % 10 != 0 && ri == c + 9 {
                } else {
                    assert(!attacks(ri, c));
                }
            }
        }

        let ghost p0 = placed@;
        let ghost a0 = areas@;
        placed[r] = true;
        let mut vec: Vec<Section> = Vec::new();
        vec.push(section(r, r + 1));
        areas.push(vec);

        proof {
            assert(!p0[ri]);
            lemma_count_true_update(p0, ri);
            assert(areas@ == a0.push(areas@[i as int]));
            assert(seed_at(areas@, i as int) == ri);
            assert(forall|j: int| 0 <= j < i ==> areas@[j] == a0[j]);
            assert forall|c: int| 0 <= c < 100 implies ((#[trigger] placed@[c]) <==> exists|
                j: int,
            | 0 <= j < i + 1 && #[trigger] seed_at(areas@, j) == c) by {
                if c == ri {
                    assert(seed_at(areas@, i as int) == c);
                } else {
                    assert(placed@[c] == p0[c]);
                    if p0[c] {
                        let j = choose|j: int|
                            0 <= j < i && #[trigger] seed_at(a0, j) == c;
                        assert(seed_at(areas@, j) == c);
                    }
                    if exists|j: int| 0 <= j < i + 1 && #[trigger] seed_at(areas@, j) == c {
                        let j = choose|j: int|
                            0 <= j < i + 1 && #[trigger] seed_at(areas@, j) == c;
                        assert(j < i);
                        assert(seed_at(a0, j) == c);
                    }
                }
            }
            assert forall|j1: int, j2: int| 0 <= j1 < j2 < i + 1 implies no_attack(
                #[trigger] seed_at(areas@, j1),
                #[trigger] seed_at(areas@, j2),
                10,
            ) by {
                if j2 == i as int {
                    assert(seed_at(areas@, j1) == seed_at(a0, j1));
                    assert(seed_at(areas@, j2) == ri);
                    assert(!attacks(seed_at(a0, j1), ri));
                } else {
                    assert(seed_at(areas@, j1) == seed_at(a0, j1));
                    assert(seed_at(areas@, j2) == seed_at(a0, j2));
                    assert(no_attack(seed_at(a0, j1), seed_at(a0, j2), 10));
                }
            }
            assert forall|j: int, c: int|
                0 <= j < i + 1 && 0 <= c < 100 && #[trigger] attacks(seed_at(areas@, j), c)
                    implies unavailable@[c] by {
                if j < i {
                    assert(seed_at(areas@, j) == seed_at(a0, j));
                } else {
                    assert(seed_at(areas@, j) == ri);
                }
            }
        }
        i = i + 1;
    }

    // growth phase: claim random free neighbours of random region cells until
    // the board is full, within a fixed budget of draws
    let mut number_placed: usize = 10;
    let mut fuel: usize = 200000;
    proof {
        assert(growth_inv(areas@, placed@)) by {
            assert forall|j1: int, j2: int, c: int|
                0 <= j1 < 10 && 0 <= j2 < 10 && #[trigger] gmember(areas@, j1, c)
                    && #[trigger] gmember(areas@, j2, c) implies j1 == j2 by {
                assert(seed_at(areas@, j1) == c && seed_at(areas@, j2) == c);
                if j1 < j2 {
                    assert(no_attack(seed_at(areas@, j1), seed_at(areas@, j2), 10));
                }
                if j2 < j1 {
                    assert(no_attack(seed_at(areas@, j2), seed_at(areas@, j1), 10));
                }
            }
            assert forall|c: int| 0 <= c < 100 implies ((#[trigger] placed@[c]) <==> exists|
                j: int,
            | 0 <= j < 10 && #[trigger] gmember(areas@, j, c)) by {
                if placed@[c] {
                    let j = choose|j: int| 0 <= j < 10 && #[trigger] seed_at(areas@, j) == c;
                    assert(areas@[j]@[0].start == c);
                    assert(gmember(areas@, j, c));
                }
                if exists|j: int| 0 <= j < 10 && #[trigger] gmember(areas@, j, c) {
                    let j = choose|j: int| 0 <= j < 10 && #[trigger] gmember(areas@, j, c);
                    let k = choose|k: int|
                        0 <= k < areas@[j]@.len() && (#[trigger] areas@[j]@[k]).start == c;
                    assert(k == 0);
                    assert(seed_at(areas@, j) == c);
                }
            }
        }
    }

    while number_placed < size && fuel > 0
        invariant
            growth_inv(areas@, placed@),
            number_placed == count_true(placed@),
            number_placed <= 100,
            forall|j1: int, j2: int|
                #![trigger seed_at(areas@, j1), seed_at(areas@, j2)]
                0 <= j1 < j2 < 10 ==> no_attack(seed_at(areas@, j1), seed_at(areas@, j2), 10),
        decreases fuel,
    {
        fuel = fuel - 1;

        // we pick among the first n - 1 regions to guarantee a region of one cell
        let area_chosen_index = random_below(n - 1);
        let len_i = areas[area_chosen_index].len();
        let y = random_below(len_i);
        let cell = areas[area_chosen_index][y].start;
        assert(cell < 100);

        let bottom_row = cell < n;
        let top_row = cell >= size - n;
        let left_col = cell % n == 0;
        let right_col = cell % n == n - 1;

        let x = random_below(4);
        let ghost pb = placed@;

        if x == 0 && !left_col && !placed[cell - 1] {
            claim_cell(&mut areas, &mut placed, area_chosen_index, cell - 1);
            proof {
                lemma_count_true_update(pb, cell - 1);
                lemma_count_true_bounds(placed@);
            }
            number_placed = number_placed + 1;
        }
        if x == 1 && !right_col && !placed[cell + 1] {
            claim_cell(&mut areas, &mut placed, area_chosen_index, cell + 1);
            proof {
                lemma_count_true_update(pb, cell + 1);
                lemma_count_true_bounds(placed@);
            }
            number_placed = number_placed + 1;
        }
        if x == 2 && !bottom_row && !placed[cell - n] {
            claim_cell(&mut areas, &mut placed, area_chosen_index, cell - n);
            proof {
                lemma_count_true_update(pb, cell - n);
                lemma_count_true_bounds(placed@);
            }
            number_placed = number_placed + 1;
        }
        if x == 3 && !top_row && !placed[cell + n] {
            claim_cell(&mut areas, &mut placed, area_chosen_index, cell + n);
            proof {
                lemma_count_true_update(pb, cell + n);
                lemma_count_true_bounds(placed@);
            }
            number_placed = number_placed + 1;
        }
    }

    if number_placed < size {
        // the draw budget ran out: retry from scratch
        return None;
    }

    let ghost ga = areas@;
    let l = Layout::from_sections(areas, n);
    proof {
        lemma_count_true_full(placed@);
        assert forall|j: int| 0 <= j < 10 implies (#[trigger] l.areas@[j]).sections@.len()
            == ga[j]@.len() && forall|k: int|
            0 <= k < ga[j]@.len() ==> l.areas@[j].sections@[k] == (#[trigger] ga[j]@[k]).start by {
            lemma_flatten_singletons(ga[j]@);
        }
        assert forall|j: int, c: usize| 0 <= j < 10 implies (l.area_has(j, c) <==> gmember(
            ga,
            j,
            c as int,
        )) by {
            if l.area_has(j, c) {
                let k = choose|k: int|
                    0 <= k < l.areas@[j].sections@.len() && l.areas@[j].sections@[k] == c;
                assert(ga[j]@[k].start == c);
            }
            if gmember(ga, j, c as int) {
                let k = choose|k: int|
                    0 <= k < ga[j]@.len() && (#[trigger] ga[j]@[k]).start == c;
                assert(l.areas@[j].sections@[k] == c);
                assert(l.areas@[j].sections@.contains(c));
            }
        }
        assert forall|c: usize| c < 100 implies #[trigger] l.covers(10, c) by {
            assert(placed@[c as int]);
            let j = choose|j: int| 0 <= j < 10 && #[trigger] gmember(ga, j, c as int);
            assert(l.area_has(j, c));
        }
        assert forall|i2: int, c: usize|
            0 <= i2 < 10 && #[trigger] l.area_has(i2, c) implies c < 100 by {
            let k = choose|k: int|
                0 <= k < l.areas@[i2].sections@.len() && l.areas@[i2].sections@[k] == c;
            assert(ga[i2]@[k].start == c);
        }
        assert forall|i2: int, j2: int, c: usize|
            #![trigger l.area_has(i2, c), l.area_has(j2, c)]
            0 <= i2 < 10 && 0 <= j2 < 10 && l.area_has(i2, c) && l.area_has(j2, c) implies i2
            == j2 by {
            assert(gmember(ga, i2, c as int) && gmember(ga, j2, c as int));
        }
        assert(l.is_partition(10));
        assert forall|j: int| 0 <= j < 10 implies (#[trigger] l.areas@[
            j
        ]).sections@.no_duplicates() by {
            lemma_flatten_singletons(ga[j]@);
            assert forall|k1: int, k2: int|
                0 <= k1 < l.areas@[j].sections@.len() && 0 <= k2 < l.areas@[j].sections@.len()
                    && k1 != k2 implies (#[trigger] l.areas@[j].sections@[k1]) != (
            #[trigger] l.areas@[j].sections@[k2]) by {
                assert(l.areas@[j].sections@[k1] == ga[j]@[k1].start);
                assert(l.areas@[j].sections@[k2] == ga[j]@[k2].start);
                if k1 < k2 {
                    assert(ga[j]@[k1].start != ga[j]@[k2].start);
                } else {
                    assert(ga[j]@[k2].start != ga[j]@[k1].start);
                }
            }
        }
        assert forall|i2: int, j2: int|
            #![trigger l.seed_of(i2), l.seed_of(j2)]
            0 <= i2 < j2 < 10 implies no_attack(
            l.seed_of(i2) as int,
            l.seed_of(j2) as int,
            10,
        ) by {
            assert(l.seed_of(i2) == ga[i2]@[0].start);
            assert(l.seed_of(j2) == ga[j2]@[0].start);
            assert(no_attack(seed_at(ga, i2), seed_at(ga, j2), 10));
        }
    }
    Some(l)
}

/// Generates a random solvable layout with n=10: the seed cells of the areas
/// are one valid solution. Falls back to the row layout if no attempt within
/// the budget succeeds, so construction always terminates; every outcome is
/// either a layout whose seeds solve it or the row-bands layout.
pub fn generate_layout() -> (l: Layout)
    ensures
        l.is_partition(10),
        l.distinct_colors(),
        l.areas_distinct(),
        l.seeds_solve(10) || l.is_rows_layout(),
{
    let mut attempt: usize = 0;
    while attempt < 1000
        invariant
            attempt <= 1000,
        decreases 1000 - attempt,
    {
        match try_generate_layout() {
            Some(l) => {
                return l;
            },
            None => {},
        }
        attempt = attempt + 1;
    }
    easy_layout()
}

impl Default for Layout {
    /// A freshly generated random layout.
    fn default() -> (l: Self)
        ensures
            l.is_partition(10),
            l.distinct_colors(),
            l.areas_distinct(),
            l.seeds_solve(10) || l.is_rows_layout(),
    {
        generate_layout()
    }
}

} // verus!
