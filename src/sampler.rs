use vstd::prelude::*;
use crate::analyzer::Analyzer;
use crate::models::{has_number, strictly_ascending, valid_table, weight_cap, BallFrequency};
use crate::random::RandomSource;

verus! {

/// Sum of the weights of `t`.
pub open spec fn sum_weights(t: Seq<BallFrequency>) -> nat
    decreases t.len(),
{
    if t.len() == 0 {
        0
    } else {
        sum_weights(t.drop_last()) + t.last().weight as nat
    }
}

/// Total weight of a table.
fn total_weight(t: &Vec<BallFrequency>) -> (r: u128)
    requires
        valid_table(t@),
    ensures
        r as nat == sum_weights(t@),
{
    let mut acc: u128 = 0;
    let mut i: usize = 0;
    while i < t.len()
        invariant
            i <= t@.len() <= 64,
            valid_table(t@),
            acc as nat == sum_weights(t@.take(i as int)),
            acc <= i * weight_cap(),
        decreases t@.len() - i,
    {
        assert(t@.take(i + 1).drop_last() =~= t@.take(i as int));
        assert(t@[i as int].weight <= weight_cap());
        acc = acc + t[i].weight;
        i = i + 1;
    }
    assert(t@.take(t@.len() as int) =~= t@);
    acc
}

/// Inserts `x` into the ascending `v` at its place; returns that place.
fn insert_sorted(v: &mut Vec<u8>, x: u8) -> (p: usize)
    requires
        strictly_ascending(old(v)@),
        !old(v)@.contains(x),
    ensures
        p <= old(v)@.len(),
        final(v)@ == old(v)@.insert(p as int, x),
        strictly_ascending(final(v)@),
{
    let mut p: usize = 0;
    while p < v.len() && v[p] < x
        invariant
            p <= v@.len(),
            forall|q: int| 0 <= q < p ==> v@[q] < x,
        decreases v@.len() - p,
    {
        p = p + 1;
    }
    let ghost before = v@;
    assert forall|q: int| p <= q < before.len() implies before[q] > x by {
        assert(before[q] != x);
        if q > p {
            assert(before[p as int] < before[q]);
        }
    }
    v.insert(p, x);
    proof {
        before.insert_ensures(p as int, x);
        assert forall|i: int, j: int| 0 <= i < j < v@.len() implies v@[i] < v@[j] by {
            if j < p {
            } else if j == p {
            } else if i < p {
                assert(v@[j] == before[j - 1]);
            } else if i == p {
                assert(v@[j] == before[j - 1]);
            } else {
                assert(v@[j] == before[j - 1]);
                assert(v@[i] == before[i - 1]);
            }
        }
    }
    p
}

impl Analyzer {
    /// The index that a draw lands on when the weights of `t` are laid end to
    /// end: the entry whose span `[before, before + weight)` holds `draw`.
    pub fn pick_weighted(t: &Vec<BallFrequency>, draw: u128) -> (r: usize)
        requires
            valid_table(t@),
            draw < sum_weights(t@),
        ensures
            r < t@.len(),
            sum_weights(t@.take(r as int)) <= draw < sum_weights(t@.take(r + 1)),
    {
        let mut acc: u128 = 0;
        let mut i: usize = 0;
        while i < t.len()
            invariant
                i <= t@.len() <= 64,
                valid_table(t@),
                draw < sum_weights(t@),
                acc as nat == sum_weights(t@.take(i as int)),
                acc <= draw,
                acc <= i * weight_cap(),
            decreases t@.len() - i,
        {
            assert(t@.take(i + 1).drop_last() =~= t@.take(i as int));
            assert(t@[i as int].weight <= weight_cap());
            let next = acc + t[i].weight;
            if draw < next {
                return i;
            }
            acc = next;
            i = i + 1;
        }
        assert(t@.take(t@.len() as int) =~= t@);
        0
    }

    /// Draws `count` distinct numbers from `frequencies` without replacement
    /// (all of them if the table is smaller), each round choosing among the
    /// numbers left with probability proportional to weight, or uniformly
    /// when the weights left are all zero. Returned in ascending order.
    pub fn weighted_random_selection(
        frequencies: &[BallFrequency],
        count: usize,
        rng: &mut RandomSource,
    ) -> (r: Vec<u8>)
        requires
            valid_table(frequencies@),
        ensures
            r@.len() == (if count <= frequencies@.len() {
                count as int
            } else {
                frequencies@.len() as int
            }),
            strictly_ascending(r@),
            forall|k: int| 0 <= k < r@.len() ==> has_number(frequencies@, #[trigger] r@[k]),
    {
        let mut available: Vec<BallFrequency> = Vec::new();
        let mut i: usize = 0;
        while i < frequencies.len()
            invariant
                i <= frequencies@.len(),
                available@ == frequencies@.take(i as int),
            decreases frequencies@.len() - i,
        {
            available.push(frequencies[i]);
            assert(available@ =~= frequencies@.take(i + 1));
            i = i + 1;
        }
        assert(available@ =~= frequencies@);
        let mut selected: Vec<u8> = Vec::new();
        while selected.len() < count && available.len() > 0
            invariant
                valid_table(available@),
                valid_table(frequencies@),
                selected@.len() + available@.len() == frequencies@.len(),
                selected@.len() <= count,
                strictly_ascending(selected@),
                forall|k: int|
                    0 <= k < selected@.len() ==> has_number(frequencies@, #[trigger] selected@[k]),
                forall|a: int|
                    0 <= a < available@.len() ==> has_number(
                        frequencies@,
                        #[trigger] available@[a].number,
                    ),
                forall|a: int, k: int|
                    0 <= a < available@.len() && 0 <= k < selected@.len()
                        ==> available@[a].number != selected@[k],
            decreases available@.len(),
        {
            let total = total_weight(&available);
            let idx: usize = if total > 0 {
                let draw = rng.below(total);
                Self::pick_weighted(&available, draw)
            } else {
                rng.below(available.len() as u128) as usize
            };
            let ghost avail_before = available@;
            let ghost sel_before = selected@;
            let chosen = available[idx].number;
            assert(has_number(frequencies@, chosen));
            available.remove(idx);
            proof {
                avail_before.remove_ensures(idx as int);
                assert forall|q: int| 0 <= q < sel_before.len() implies sel_before[q] != chosen by {
                    assert(avail_before[idx as int].number != sel_before[q]);
                }
            }
            let p = insert_sorted(&mut selected, chosen);
            proof {
                sel_before.insert_ensures(p as int, chosen);
                assert forall|a: int| 0 <= a < available@.len() implies has_number(
                    frequencies@,
                    #[trigger] available@[a].number,
                ) by {
                    if a >= idx {
                        assert(available@[a] == avail_before[a + 1]);
                    }
                }
                assert forall|k: int| 0 <= k < selected@.len() implies has_number(
                    frequencies@,
                    #[trigger] selected@[k],
                ) by {
                    if k > p {
                        assert(selected@[k] == sel_before[k - 1]);
                    }
                }
                assert forall|a: int, k: int|
                    0 <= a < available@.len() && 0 <= k < selected@.len() implies available@[a].number
                    != selected@[k] by {
                    let aa = if a < idx { a } else { a + 1 };
                    assert(available@[a] == avail_before[aa]);
                    if k < p {
                        assert(selected@[k] == sel_before[k]);
                    } else if k == p {
                        assert(avail_before[aa].number != avail_before[idx as int].number);
                    } else {
                        assert(selected@[k] == sel_before[k - 1]);
                    }
                }
                assert forall|x: int, y: int|
                    0 <= x < y < available@.len() implies available@[x].number
                    != available@[y].number by {
                    let xx = if x < idx { x } else { x + 1 };
                    let yy = if y < idx { y } else { y + 1 };
                    assert(available@[x] == avail_before[xx]);
                    assert(available@[y] == avail_before[yy]);
                }
                assert forall|x: int| 0 <= x < available@.len() implies #[trigger] available@[x].weight
                    <= weight_cap() by {
                    let xx = if x < idx { x } else { x + 1 };
                    assert(available@[x] == avail_before[xx]);
                }
            }
        }
        selected
    }
}

} // verus!
