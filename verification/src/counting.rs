//! Counting runs of draws: how many sequences there are in which every draw
//! lies in a range of its own. Where draws are fair and do not depend on one
//! another, every such run is as likely as any other, so that the chance of
//! an outcome is the number of runs that lead to it over the number of all.
use vstd::prelude::*;
use vstd::relations::injective_on;
use vstd::set_lib::{lemma_map_size, lemma_set_disjoint_lens};

verus! {

/// There is one draw for each range, and draw `j` lies in `ranges[j]`, a
/// range that has its lower end and lacks its upper one.
pub open spec fn within(draws: Seq<usize>, ranges: Seq<(int, int)>) -> bool {
    &&& draws.len() == ranges.len()
    &&& forall|j: int| 0 <= j < ranges.len() ==> ranges[j].0 <= #[trigger] draws[j] < ranges[j].1
}

/// All the runs of draws that lie within `ranges`.
pub open spec fn runs_within(ranges: Seq<(int, int)>) -> Set<Seq<usize>> {
    Set::new(|draws: Seq<usize>| within(draws, ranges))
}

/// Every range starts at zero or above, ends where a draw can still reach,
/// and does not end before it starts.
pub open spec fn proper(ranges: Seq<(int, int)>) -> bool {
    forall|j: int|
        0 <= j < ranges.len() ==> 0 <= (#[trigger] ranges[j]).0 <= ranges[j].1 <= usize::MAX + 1
}

/// The product of the lengths of the ranges.
pub open spec fn volume(ranges: Seq<(int, int)>) -> nat
    decreases ranges.len(),
{
    if ranges.len() == 0 {
        1
    } else {
        volume(ranges.drop_last()) * ((ranges.last().1 - ranges.last().0) as nat)
    }
}

/// A run lies within ranges of which `first` is the first exactly when its
/// first draw lies in `first` and the draws after it lie within the rest.
pub proof fn lemma_within_first(draws: Seq<usize>, first: (int, int), rest: Seq<(int, int)>)
    ensures
        within(draws, seq![first] + rest) <==> draws.len() > 0 && first.0 <= draws[0] < first.1
            && within(draws.skip(1), rest),
{
    let ranges = seq![first] + rest;
    let after = draws.skip(1);
    if within(draws, ranges) {
        assert(ranges[0] == first);
        assert forall|j: int| 0 <= j < rest.len() implies rest[j].0 <= #[trigger] after[j]
            < rest[j].1 by {
            assert(ranges[j + 1] == rest[j]);
            assert(after[j] == draws[j + 1]);
        }
    }
    if draws.len() > 0 && first.0 <= draws[0] < first.1 && within(after, rest) {
        assert forall|j: int| 0 <= j < ranges.len() implies ranges[j].0 <= #[trigger] draws[j]
            < ranges[j].1 by {
            if j > 0 {
                assert(ranges[j] == rest[j - 1]);
                assert(draws[j] == after[j - 1]);
            }
        }
    }
}

/// A range put in front multiplies the volume by its length.
pub proof fn lemma_volume_first(first: (int, int), rest: Seq<(int, int)>)
    requires
        first.0 <= first.1,
    ensures
        volume(seq![first] + rest) == (first.1 - first.0) * volume(rest),
    decreases rest.len(),
{
    let ranges = seq![first] + rest;
    if rest.len() == 0 {
        assert(ranges.drop_last() =~= Seq::<(int, int)>::empty());
        assert(ranges.last() == first);
        assert(volume(ranges.drop_last()) == 1);
        assert(volume(rest) == 1);
        assert(volume(ranges) == volume(ranges.drop_last()) * ((first.1 - first.0) as nat));
    } else {
        let front = rest.drop_last();
        let span = (rest.last().1 - rest.last().0) as nat;
        let width = first.1 - first.0;
        assert(ranges.drop_last() =~= seq![first] + front);
        assert(ranges.last() == rest.last());
        lemma_volume_first(first, front);
        assert(volume(rest) == volume(front) * span);
        assert(volume(ranges) == volume(ranges.drop_last()) * span);
        assert((width * volume(front)) * span == width * (volume(front) * span))
            by (nonlinear_arith);
    }
}

/// The runs with one more draw, where the new draw lies in `[low, high)`,
/// are `high - low` times as many.
proof fn lemma_one_more_draw(ranges: Seq<(int, int)>, low: int, high: int)
    requires
        runs_within(ranges).finite(),
        0 <= low <= high <= usize::MAX + 1,
    ensures
        runs_within(ranges.push((low, high))).finite(),
        runs_within(ranges.push((low, high))).len() == runs_within(ranges).len() * (high - low),
    decreases high - low,
{
    let shorter = runs_within(ranges);
    let longer = runs_within(ranges.push((low, high)));
    let at = ranges.len() as int;
    if high == low {
        assert(longer =~= Set::<Seq<usize>>::empty()) by {
            assert forall|draws: Seq<usize>| !longer.contains(draws) by {
                if within(draws, ranges.push((low, high))) {
                    assert(ranges.push((low, high))[at] == (low, high));
                    assert(low <= draws[at] < high);
                }
            }
        }
        assert(shorter.len() * (high - low) == 0) by (nonlinear_arith)
            requires
                high == low,
        ;
    } else {
        let top = (high - 1) as usize;
        let fewer = runs_within(ranges.push((low, high - 1)));
        let extend = |draws: Seq<usize>| draws.push(top);
        let newest = shorter.map(extend);
        lemma_one_more_draw(ranges, low, high - 1);
        assert(injective_on(extend, shorter)) by {
            assert forall|a: Seq<usize>, b: Seq<usize>|
                shorter.contains(a) && shorter.contains(b) && #[trigger] extend(a)
                    == #[trigger] extend(b) implies a == b by {
                assert(a =~= extend(a).drop_last());
                assert(b =~= extend(b).drop_last());
            }
        }
        lemma_map_size(shorter, newest, extend);
        assert(longer =~= fewer + newest) by {
            assert forall|draws: Seq<usize>| longer.contains(draws) <==> (fewer + newest).contains(
                draws,
            ) by {
                let wide = ranges.push((low, high));
                let tight = ranges.push((low, high - 1));
                assert(wide[at] == (low, high));
                assert(tight[at] == (low, high - 1));
                if longer.contains(draws) {
                    assert(low <= draws[at] < high);
                    if draws[at] == top {
                        let front = draws.drop_last();
                        assert(within(front, ranges)) by {
                            assert forall|j: int| 0 <= j < ranges.len() implies ranges[j].0
                                <= #[trigger] front[j] < ranges[j].1 by {
                                assert(wide[j] == ranges[j]);
                                assert(front[j] == draws[j]);
                            }
                        }
                        assert(extend(front) =~= draws);
                        assert(shorter.contains(front) && draws == extend(front));
                        assert(newest.contains(draws));
                    } else {
                        assert(within(draws, tight)) by {
                            assert forall|j: int| 0 <= j < tight.len() implies tight[j].0
                                <= #[trigger] draws[j] < tight[j].1 by {
                                if j < at {
                                    assert(wide[j] == tight[j]);
                                }
                            }
                        }
                    }
                }
                if fewer.contains(draws) {
                    assert(within(draws, wide)) by {
                        assert forall|j: int| 0 <= j < wide.len() implies wide[j].0
                            <= #[trigger] draws[j] < wide[j].1 by {
                            if j < at {
                                assert(wide[j] == tight[j]);
                            }
                        }
                    }
                }
                if newest.contains(draws) {
                    let front = choose|front: Seq<usize>|
                        shorter.contains(front) && draws == extend(front);
                    assert(within(draws, wide)) by {
                        assert forall|j: int| 0 <= j < wide.len() implies wide[j].0
                            <= #[trigger] draws[j] < wide[j].1 by {
                            if j < at {
                                assert(wide[j] == ranges[j]);
                                assert(draws[j] == front[j]);
                            }
                        }
                    }
                }
            }
        }
        assert(fewer.disjoint(newest)) by {
            assert forall|draws: Seq<usize>| !(fewer.contains(draws) && newest.contains(draws)) by {
                if fewer.contains(draws) && newest.contains(draws) {
                    let tight = ranges.push((low, high - 1));
                    assert(tight[at] == (low, high - 1));
                    assert(draws[at] < high - 1);
                    let front = choose|front: Seq<usize>|
                        shorter.contains(front) && draws == extend(front);
                    assert(draws[at] == top);
                }
            }
        }
        lemma_set_disjoint_lens(fewer, newest);
        assert(shorter.len() * (high - 1 - low) + shorter.len() == shorter.len() * (high - low))
            by (nonlinear_arith);
    }
}

/// There are as many runs of draws within the ranges as the product of the
/// ranges' lengths.
pub proof fn lemma_volume(ranges: Seq<(int, int)>)
    requires
        proper(ranges),
    ensures
        runs_within(ranges).finite(),
        runs_within(ranges).len() == volume(ranges),
    decreases ranges.len(),
{
    if ranges.len() == 0 {
        let none = Seq::<usize>::empty();
        assert(runs_within(ranges) =~= Set::<Seq<usize>>::empty().insert(none)) by {
            assert forall|draws: Seq<usize>| runs_within(ranges).contains(draws) <==> draws
                == none by {
                if within(draws, ranges) {
                    assert(draws =~= none);
                }
            }
        }
    } else {
        let front = ranges.drop_last();
        let (low, high) = ranges.last();
        assert forall|j: int| 0 <= j < front.len() implies 0 <= (#[trigger] front[j]).0
            <= front[j].1 <= usize::MAX + 1 by {
            assert(front[j] == ranges[j]);
        }
        lemma_volume(front);
        lemma_one_more_draw(front, low, high);
        assert(front.push((low, high)) =~= ranges);
    }
}

} // verus!
