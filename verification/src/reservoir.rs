//! Picking one element of a sequence in a single pass, with room for one.
use crate::chance::draw_below;
use crate::counting::{lemma_volume, proper, runs_within, volume, within};
use rand::rngs::ThreadRng;
use vstd::prelude::*;
use vstd::std_specs::iter::IteratorSpec;

verus! {

/// Where the held element stands after a pass in which `draws[i]` was drawn
/// on meeting element `i`: at the last position whose draw was zero, since a
/// zero draw is what makes the newcomer replace the element held so far.
pub open spec fn held_after(draws: Seq<usize>) -> Option<int>
    decreases draws.len(),
{
    if draws.len() == 0 {
        None
    } else if draws.last() == 0 {
        Some(draws.len() - 1)
    } else {
        held_after(draws.drop_last())
    }
}

/// The element that a pass over `items` ends up holding for the given draws.
pub open spec fn chosen<T>(items: Seq<T>, draws: Seq<usize>) -> Option<T> {
    match held_after(draws) {
        Some(at) => Some(items[at]),
        None => None,
    }
}

/// Draws as a fair pass makes them: on meeting element `i`, which is the
/// `i + 1`-th, the draw is one of `0, ..., i`.
pub open spec fn admissible(draws: Seq<usize>) -> bool {
    forall|i: int| 0 <= i < draws.len() ==> #[trigger] draws[i] <= i
}

/// The element at `at` is the one held in the end exactly when its own draw
/// was zero and no later draw was. Under fair draws the first has one chance
/// in `at + 1` and each later element `j` spares it with `j` chances in
/// `j + 1`, which multiplies out to one in `draws.len()` for every position.
pub proof fn lemma_held_after(draws: Seq<usize>, at: int)
    ensures
        held_after(draws) == Some(at) <==> 0 <= at < draws.len() && draws[at] == 0 && forall|
            j: int,
        | at < j < draws.len() ==> #[trigger] draws[j] != 0,
        held_after(draws) is None <==> forall|j: int|
            0 <= j < draws.len() ==> #[trigger] draws[j] != 0,
    decreases draws.len(),
{
    if draws.len() != 0 {
        let front = draws.drop_last();
        lemma_held_after(front, at);
        assert forall|j: int| 0 <= j < front.len() implies front[j] == draws[j] by {}
        if draws.last() != 0 {
            if held_after(front) == Some(at) {
                assert forall|j: int| at < j < draws.len() implies #[trigger] draws[j] != 0 by {
                    if j < front.len() {
                        assert(front[j] != 0);
                    }
                }
            }
            if 0 <= at < draws.len() && draws[at] == 0 && forall|j: int|
                at < j < draws.len() ==> #[trigger] draws[j] != 0 {
                assert forall|j: int| at < j < front.len() implies #[trigger] front[j] != 0 by {
                    assert(draws[j] != 0);
                }
            }
            if held_after(front) is None {
                assert forall|j: int| 0 <= j < draws.len() implies #[trigger] draws[j] != 0 by {
                    if j < front.len() {
                        assert(front[j] != 0);
                    }
                }
            }
            if forall|j: int| 0 <= j < draws.len() ==> #[trigger] draws[j] != 0 {
                assert forall|j: int| 0 <= j < front.len() implies #[trigger] front[j] != 0 by {
                    assert(draws[j] != 0);
                }
            }
        } else {
            assert(draws[draws.len() - 1] == 0);
        }
    }
}

/// A fair pass over a sequence that is not empty always holds something in
/// the end, and what it holds is one of the elements.
pub proof fn lemma_fair_pass_holds<T>(items: Seq<T>, draws: Seq<usize>)
    requires
        admissible(draws),
        draws.len() == items.len(),
    ensures
        chosen(items, draws) is None <==> items.len() == 0,
        chosen(items, draws) matches Some(item) ==> items.contains(item),
{
    if draws.len() != 0 {
        assert(draws[0] == 0);
    }
    match held_after(draws) {
        Some(at) => {
            lemma_held_after(draws, at);
            assert(items[at] == items[at]);
        },
        None => {
            lemma_held_after(draws, 0);
        },
    }
}

/// The ranges that the draws of a fair pass over `count` elements lie in.
pub open spec fn fair(count: nat) -> Seq<(int, int)> {
    Seq::new(count, |j: int| (0int, j + 1))
}

/// The ranges that the draws of a fair pass over `count` elements lie in when
/// the pass ends up holding the element at `at`: that element's draw is
/// zero, no later draw is, and the draws before it are free.
pub open spec fn holding(count: nat, at: int) -> Seq<(int, int)> {
    Seq::new(
        count,
        |j: int|
            if j < at {
                (0int, j + 1)
            } else if j == at {
                (0int, 1int)
            } else {
                (1int, j + 1)
            },
    )
}

/// The fair passes over `count` elements.
pub open spec fn fair_passes(count: nat) -> Set<Seq<usize>> {
    Set::new(|draws: Seq<usize>| draws.len() == count && admissible(draws))
}

/// The fair passes over `count` elements that end up holding the element at
/// `at`.
pub open spec fn fair_passes_holding(count: nat, at: int) -> Set<Seq<usize>> {
    Set::new(
        |draws: Seq<usize>|
            draws.len() == count && admissible(draws) && held_after(draws) == Some(at),
    )
}

/// The runs that end up holding one place are a `count`-th of all.
proof fn lemma_holding_volume(count: nat, at: int)
    requires
        0 <= at < count,
    ensures
        volume(holding(count, at)) * count == volume(fair(count)),
        count > 0 ==> volume(fair(count)) == volume(fair((count - 1) as nat)) * count,
    decreases count,
{
    let less = (count - 1) as nat;
    let all = fair(count);
    let some = holding(count, at);
    assert(all.drop_last() =~= fair(less));
    assert(all.last() == (0int, count as int));
    if at == count - 1 {
        assert(some.drop_last() =~= fair(less));
        assert(some.last() == (0int, 1int));
        assert(volume(some) == volume(fair(less)) * 1);
        assert(volume(fair(less)) * 1 * count == volume(fair(less)) * count) by (nonlinear_arith);
    } else {
        lemma_holding_volume(less, at);
        assert(some.drop_last() =~= holding(less, at));
        assert(some.last() == (1int, count as int));
        assert(volume(some) == volume(holding(less, at)) * less);
    }
}

/// Of the fair passes over `count` elements, one in `count` ends up holding
/// the element at any given place: the choice is uniform.
pub proof fn lemma_pick_is_uniform(count: nat, at: int)
    requires
        0 <= at < count <= usize::MAX,
    ensures
        fair_passes(count).finite(),
        fair_passes_holding(count, at).finite(),
        fair_passes_holding(count, at).len() * count == fair_passes(count).len(),
{
    let all = fair(count);
    let some = holding(count, at);
    assert(proper(all));
    assert(proper(some));
    lemma_volume(all);
    lemma_volume(some);
    lemma_holding_volume(count, at);
    assert(runs_within(all) =~= fair_passes(count)) by {
        assert forall|draws: Seq<usize>| within(draws, all) <==> draws.len() == count
            && admissible(draws) by {
            if within(draws, all) {
                assert forall|j: int| 0 <= j < draws.len() implies #[trigger] draws[j] <= j by {
                    assert(all[j] == (0int, j + 1));
                }
            }
        }
    }
    assert(runs_within(some) =~= fair_passes_holding(count, at)) by {
        assert forall|draws: Seq<usize>| within(draws, some) <==> draws.len() == count
            && admissible(draws) && held_after(draws) == Some(at) by {
            lemma_held_after(draws, at);
            if within(draws, some) {
                assert forall|j: int| 0 <= j < draws.len() implies #[trigger] draws[j] <= j by {
                    assert(some[j].1 <= j + 1);
                }
                assert(some[at] == (0int, 1int));
                assert forall|j: int| at < j < draws.len() implies #[trigger] draws[j] != 0 by {
                    assert(some[j] == (1int, j + 1));
                }
            }
            if draws.len() == count && admissible(draws) && held_after(draws) == Some(at) {
                assert forall|j: int| 0 <= j < some.len() implies some[j].0
                    <= #[trigger] draws[j] < some[j].1 by {
                    assert(draws[j] <= j);
                }
            }
        }
    }
}

/// One step of the pass: a newcomer met with a zero draw takes the place of
/// the element held so far; with any other draw the held element stays.
pub fn keep<T>(held: Option<T>, item: T, draw: usize) -> (kept: Option<T>)
    ensures
        kept == if draw == 0 {
            Some(item)
        } else {
            held
        },
{
    if draw == 0 {
        Some(item)
    } else {
        held
    }
}

/// Runs the pass over `source` with the draws given rather than made: the
/// element held in the end is the last one whose draw is zero.
pub fn pick_with<T>(source: Vec<T>, draws: &Vec<usize>) -> (picked: Option<T>)
    requires
        draws@.len() == source@.len(),
    ensures
        picked == chosen(source@, draws@),
{
    let mut held: Option<T> = None;
    let mut count: usize = 0;
    assert(source@.len() == source.len());
    for item in it: source
        invariant
            count == it.index(),
            it.seq() == source@,
            source@.len() <= usize::MAX,
            draws@.len() == source@.len(),
            held == chosen(source@, draws@.take(count as int)),
    {
        let draw = draws[count];
        proof {
            let seen = draws@.take(count as int + 1);
            assert(seen.drop_last() =~= draws@.take(count as int));
            assert(seen.last() == draw);
        }
        held = keep(held, item, draw);
        count += 1;
    }
    assert(draws@.take(count as int) =~= draws@);
    held
}

/// Picks one of the elements that `source` yields, each with the same
/// chance, in one pass and with room for one element: the `n`-th element
/// met replaces the one held with one chance in `n`, decided by drawing from
/// `[0, n)` and replacing on zero. A source that yields nothing gives `None`,
/// and no other does.
pub fn pick_one<T, I: Iterator<Item = T>>(source: I, rng: &mut ThreadRng) -> (picked: Option<T>)
    requires
        source.obeys_prophetic_iter_laws(),
        source.decrease() is Some,
        source.remaining().len() <= usize::MAX,
    ensures
        exists|draws: Seq<usize>|
            draws.len() == source.remaining().len() && admissible(draws) && picked
                == #[trigger] chosen(source.remaining(), draws),
        picked is None <==> source.remaining().len() == 0,
        picked matches Some(item) ==> source.remaining().contains(item),
{
    let mut source = source;
    let mut held: Option<T> = None;
    let mut count: usize = 0;
    let ghost all = source.remaining();
    let ghost mut draws = Seq::<usize>::empty();
    loop
        invariant
            source.obeys_prophetic_iter_laws(),
            source.decrease() is Some,
            all.len() <= usize::MAX,
            count <= all.len(),
            source.remaining() == all.skip(count as int),
            draws.len() == count,
            admissible(draws),
            held == chosen(all, draws),
        ensures
            draws.len() == all.len(),
            admissible(draws),
            held == chosen(all, draws),
        decreases source.decrease()->0,
    {
        match source.next() {
            Some(item) => {
                proof {
                    assert(all.skip(count as int)[0] == all[count as int]);
                    assert(all.skip(count as int).drop_first() =~= all.skip(count as int + 1));
                }
                count += 1;
                let draw = draw_below(rng, count);
                proof {
                    let seen = draws.push(draw);
                    assert(seen.drop_last() =~= draws);
                    assert(seen.last() == draw);
                    draws = seen;
                }
                held = keep(held, item, draw);
            },
            None => {
                break ;
            },
        }
    }
    proof {
        lemma_fair_pass_holds(all, draws);
    }
    held
}

} // verus!
