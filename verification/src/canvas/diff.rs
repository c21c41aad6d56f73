//! What changes between two lists of indices.

use vstd::prelude::*;

verus! {

/// Whether every entry is larger than the one before it.
pub open spec fn ascending(list: Seq<usize>) -> bool {
    forall|i: int, j: int| 0 <= i < j < list.len() ==> list[i] < list[j]
}

/// The indices that a merge walk meets in both lists at once, in order.
pub open spec fn shared(live: Seq<usize>, desired: Seq<usize>) -> Seq<usize>
    decreases live.len() + desired.len(),
{
    if live.len() == 0 || desired.len() == 0 {
        seq![]
    } else if live[0] == desired[0] {
        seq![live[0]] + shared(live.skip(1), desired.skip(1))
    } else if live[0] < desired[0] {
        shared(live.skip(1), desired)
    } else {
        shared(live, desired.skip(1))
    }
}

/// What a merge walk finds only in `live`, and the shared indices that are stale.
///
/// `stale` tells for each shared index, in order, whether it is.
pub open spec fn departed(live: Seq<usize>, desired: Seq<usize>, stale: Seq<bool>) -> Seq<usize>
    decreases live.len() + desired.len(),
{
    if live.len() == 0 || desired.len() == 0 {
        live
    } else if live[0] == desired[0] {
        if stale[0] {
            seq![live[0]] + departed(live.skip(1), desired.skip(1), stale.skip(1))
        } else {
            departed(live.skip(1), desired.skip(1), stale.skip(1))
        }
    } else if live[0] < desired[0] {
        seq![live[0]] + departed(live.skip(1), desired, stale)
    } else {
        departed(live, desired.skip(1), stale)
    }
}

/// What a merge walk finds only in `desired`, and the shared indices that are stale.
pub open spec fn arrived(live: Seq<usize>, desired: Seq<usize>, stale: Seq<bool>) -> Seq<usize>
    decreases live.len() + desired.len(),
{
    if live.len() == 0 || desired.len() == 0 {
        desired
    } else if live[0] == desired[0] {
        if stale[0] {
            seq![live[0]] + arrived(live.skip(1), desired.skip(1), stale.skip(1))
        } else {
            arrived(live.skip(1), desired.skip(1), stale.skip(1))
        }
    } else if live[0] < desired[0] {
        arrived(live.skip(1), desired, stale)
    } else {
        seq![desired[0]] + arrived(live, desired.skip(1), stale)
    }
}

/// Splits two ascending index lists into what left and what arrived.
///
/// `keep_stale` is asked about indices present in both: returning `true` puts the index
/// in *both* outputs, which is how a widget gets rebuilt in place at a new detail level.
///
/// A merge walk rather than a lookup per element. The outputs are cleared first.
pub fn diff_sorted(
    live: &[usize],
    desired: &[usize],
    keep_stale: impl FnMut(usize) -> bool,
    removed: &mut Vec<usize>,
    added: &mut Vec<usize>,
)
    requires
        forall|i: usize| #[trigger] shared(live@, desired@).contains(i) ==> call_requires(
            keep_stale,
            (i,),
        ),
    ensures
        exists|stale: Seq<bool>|
            {
                &&& stale.len() == shared(live@, desired@).len()
                &&& forall|k: int|
                    0 <= k < stale.len() ==> call_ensures(
                        keep_stale,
                        (shared(live@, desired@)[k],),
                        #[trigger] stale[k],
                    )
                &&& final(removed)@ == #[trigger] departed(live@, desired@, stale)
                &&& final(added)@ == arrived(live@, desired@, stale)
            },
{
    removed.clear();
    added.clear();
    let ghost question = keep_stale;
    let mut keep_stale = keep_stale;
    let mut a: usize = 0;
    let mut b: usize = 0;
    let ghost mut met: Seq<usize> = seq![];
    let ghost mut stale: Seq<bool> = seq![];
    proof {
        assert(live@.skip(0) =~= live@ && desired@.skip(0) =~= desired@);
        assert forall|rest: Seq<bool>| #[trigger] (stale + rest) == rest by {
            assert(stale + rest =~= rest);
        }
    }
    while a < live.len() || b < desired.len()
        invariant
            keep_stale == question,
            a <= live@.len(),
            b <= desired@.len(),
            met.len() == stale.len(),
            shared(live@, desired@) =~= met + shared(live@.skip(a as int), desired@.skip(b as int)),
            forall|k: int|
                0 <= k < stale.len() ==> call_ensures(keep_stale, (met[k],), #[trigger] stale[k]),
            forall|i: usize| #[trigger] shared(live@, desired@).contains(i) ==> call_requires(
                keep_stale,
                (i,),
            ),
            forall|rest: Seq<bool>| #[trigger]
                departed(live@, desired@, stale + rest) =~= removed@ + departed(
                    live@.skip(a as int),
                    desired@.skip(b as int),
                    rest,
                ),
            forall|rest: Seq<bool>| #[trigger]
                arrived(live@, desired@, stale + rest) =~= added@ + arrived(
                    live@.skip(a as int),
                    desired@.skip(b as int),
                    rest,
                ),
        decreases live@.len() - a + desired@.len() - b,
    {
        let ghost left = live@.skip(a as int);
        let ghost right = desired@.skip(b as int);
        proof {
            assert(left.len() > 0 ==> left.skip(1) =~= live@.skip(a + 1) && left[0] == live@[a as int]);
            assert(right.len() > 0 ==> right.skip(1) =~= desired@.skip(b + 1) && right[0]
                == desired@[b as int]);
        }
        if a < live.len() && b < desired.len() && live[a] == desired[b] {
            let l = live[a];
            proof {
                assert(shared(live@, desired@)[met.len() as int] == l);
                assert(shared(live@, desired@).contains(l));
            }
            let again = keep_stale(l);
            let ghost before = stale;
            let ghost was_removed = removed@;
            let ghost was_added = added@;
            if again {
                removed.push(l);
                added.push(l);
            }
            proof {
                met = met.push(l);
                stale = stale.push(again);
                assert forall|rest: Seq<bool>| #[trigger]
                    departed(live@, desired@, stale + rest) =~= removed@ + departed(
                        live@.skip(a + 1),
                        desired@.skip(b + 1),
                        rest,
                    ) by {
                    let longer = seq![again] + rest;
                    assert(stale + rest =~= before + longer);
                    assert(longer.skip(1) =~= rest);
                    assert(departed(live@, desired@, before + longer) =~= was_removed + departed(
                        left,
                        right,
                        longer,
                    ));
                }
                assert forall|rest: Seq<bool>| #[trigger]
                    arrived(live@, desired@, stale + rest) =~= added@ + arrived(
                        live@.skip(a + 1),
                        desired@.skip(b + 1),
                        rest,
                    ) by {
                    let longer = seq![again] + rest;
                    assert(stale + rest =~= before + longer);
                    assert(longer.skip(1) =~= rest);
                    assert(arrived(live@, desired@, before + longer) =~= was_added + arrived(
                        left,
                        right,
                        longer,
                    ));
                }
            }
            a += 1;
            b += 1;
        } else if a < live.len() && (b >= desired.len() || live[a] < desired[b]) {
            let ghost was_removed = removed@;
            removed.push(live[a]);
            proof {
                if right.len() == 0 {
                    assert(left =~= seq![left[0]] + left.skip(1));
                }
                assert forall|rest: Seq<bool>| #[trigger]
                    departed(live@, desired@, stale + rest) =~= removed@ + departed(
                        live@.skip(a + 1),
                        desired@.skip(b as int),
                        rest,
                    ) by {
                    assert(departed(live@, desired@, stale + rest) =~= was_removed + departed(
                        left,
                        right,
                        rest,
                    ));
                }
            }
            a += 1;
        } else {
            let ghost was_added = added@;
            added.push(desired[b]);
            proof {
                if left.len() == 0 {
                    assert(right =~= seq![right[0]] + right.skip(1));
                }
                assert forall|rest: Seq<bool>| #[trigger]
                    arrived(live@, desired@, stale + rest) =~= added@ + arrived(
                        live@.skip(a as int),
                        desired@.skip(b + 1),
                        rest,
                    ) by {
                    assert(arrived(live@, desired@, stale + rest) =~= was_added + arrived(
                        left,
                        right,
                        rest,
                    ));
                }
            }
            b += 1;
        }
    }
    proof {
        assert(stale + Seq::<bool>::empty() =~= stale);
        assert(departed(live@, desired@, stale) =~= removed@);
        assert(arrived(live@, desired@, stale) =~= added@);
    }
}

/// Whether shared index `i` is stale.
pub open spec fn marked(shared: Seq<usize>, stale: Seq<bool>, i: usize) -> bool {
    exists|k: int| 0 <= k < shared.len() && #[trigger] shared[k] == i && stale[k]
}

proof fn lemma_head(list: Seq<usize>, i: usize)
    requires
        list.len() > 0,
    ensures
        list.contains(i) <==> i == list[0] || list.skip(1).contains(i),
{
    if list.contains(i) && i != list[0] {
        let k = list.index_of(i);
        assert(list.skip(1)[k - 1] == i);
    }
    if list.skip(1).contains(i) {
        let k = list.skip(1).index_of(i);
        assert(list[k + 1] == i);
    }
}

proof fn lemma_put(head: usize, tail: Seq<usize>, i: usize)
    ensures
        (seq![head] + tail).contains(i) <==> i == head || tail.contains(i),
{
    let list = seq![head] + tail;
    assert(list.skip(1) =~= tail);
    lemma_head(list, i);
}

proof fn lemma_put_ascending(head: usize, tail: Seq<usize>)
    requires
        ascending(tail),
        forall|i: usize| #[trigger] tail.contains(i) ==> head < i,
    ensures
        ascending(seq![head] + tail),
{
    let list = seq![head] + tail;
    assert forall|i: int, j: int| 0 <= i < j < list.len() implies list[i] < list[j] by {
        assert(tail.contains(tail[j - 1]));
    }
}

proof fn lemma_first_is_least(list: Seq<usize>)
    requires
        ascending(list),
        list.len() > 0,
    ensures
        ascending(list.skip(1)),
        forall|i: usize| #[trigger] list.skip(1).contains(i) ==> list[0] < i,
{
    assert forall|i: usize| #[trigger] list.skip(1).contains(i) implies list[0] < i by {
        let k = list.skip(1).index_of(i);
        assert(list.skip(1)[k] == list[k + 1]);
    }
}

/// On ascending lists the walk asks about exactly the indices in both, each once.
pub proof fn law_shared_is_intersection(live: Seq<usize>, desired: Seq<usize>)
    requires
        ascending(live),
        ascending(desired),
    ensures
        ascending(shared(live, desired)),
        forall|i: usize| #[trigger]
            shared(live, desired).contains(i) <==> live.contains(i) && desired.contains(i),
    decreases live.len() + desired.len(),
{
    if live.len() > 0 && desired.len() > 0 {
        lemma_first_is_least(live);
        lemma_first_is_least(desired);
        let (l, d) = if live[0] == desired[0] {
            (live.skip(1), desired.skip(1))
        } else if live[0] < desired[0] {
            (live.skip(1), desired)
        } else {
            (live, desired.skip(1))
        };
        law_shared_is_intersection(l, d);
        if live[0] == desired[0] {
            lemma_put_ascending(live[0], shared(l, d));
        }
        assert forall|i: usize| #[trigger] shared(live, desired).contains(i) <==> live.contains(i)
            && desired.contains(i) by {
            lemma_head(live, i);
            lemma_head(desired, i);
            assert(shared(l, d).contains(i) <==> l.contains(i) && d.contains(i));
            if live[0] == desired[0] {
                lemma_put(live[0], shared(l, d), i);
            }
        }
    }
}

proof fn lemma_marked_head(list: Seq<usize>, stale: Seq<bool>, i: usize)
    requires
        list.len() > 0,
        stale.len() == list.len(),
    ensures
        marked(list, stale, i) <==> (i == list[0] && stale[0]) || marked(
            list.skip(1),
            stale.skip(1),
            i,
        ),
{
    let rest = list.skip(1);
    let marks = stale.skip(1);
    if marked(list, stale, i) {
        let k = choose|k: int| 0 <= k < list.len() && #[trigger] list[k] == i && stale[k];
        if k > 0 {
            assert(rest[k - 1] == i && marks[k - 1]);
        }
    }
    if marked(rest, marks, i) {
        let k = choose|k: int| 0 <= k < rest.len() && #[trigger] rest[k] == i && marks[k];
        assert(list[k + 1] == i && stale[k + 1]);
    }
    if i == list[0] && stale[0] {
        assert(marked(list, stale, i));
    }
}

/// One step of the walk, from what holds after it.
proof fn lemma_step(
    live: Seq<usize>,
    desired: Seq<usize>,
    stale: Seq<bool>,
    l: Seq<usize>,
    d: Seq<usize>,
    s: Seq<bool>,
    i: usize,
)
    requires
        live.len() > 0,
        desired.len() > 0,
        ascending(live),
        ascending(desired),
        stale.len() == shared(live, desired).len(),
        (l, d, s) == (if live[0] == desired[0] {
            (live.skip(1), desired.skip(1), stale.skip(1))
        } else if live[0] < desired[0] {
            (live.skip(1), desired, stale)
        } else {
            (live, desired.skip(1), stale)
        }),
        departed(l, d, s).contains(i) <==> l.contains(i) && (!d.contains(i) || marked(
            shared(l, d),
            s,
            i,
        )),
        arrived(l, d, s).contains(i) <==> d.contains(i) && (!l.contains(i) || marked(
            shared(l, d),
            s,
            i,
        )),
    ensures
        departed(live, desired, stale).contains(i) <==> live.contains(i) && (!desired.contains(i)
            || marked(shared(live, desired), stale, i)),
        arrived(live, desired, stale).contains(i) <==> desired.contains(i) && (!live.contains(i)
            || marked(shared(live, desired), stale, i)),
{
    let out = departed(l, d, s);
    let inn = arrived(l, d, s);
    lemma_head(live, i);
    lemma_head(desired, i);
    lemma_first_is_least(live);
    lemma_first_is_least(desired);
    lemma_put(live[0], out, i);
    lemma_put(live[0], inn, i);
    lemma_put(desired[0], inn, i);
    law_shared_is_intersection(l, d);
    assert(marked(shared(l, d), s, i) ==> shared(l, d).contains(i));
    if live[0] == desired[0] {
        assert(shared(live, desired).skip(1) =~= shared(l, d));
        lemma_marked_head(shared(live, desired), stale, i);
    }
}

/// On ascending lists, what leaves is what is no longer desired and what is stale; what
/// arrives is what was not live and what is stale. Both come out ascending.
pub proof fn law_diff_is_set_difference(live: Seq<usize>, desired: Seq<usize>, stale: Seq<bool>)
    requires
        ascending(live),
        ascending(desired),
        stale.len() == shared(live, desired).len(),
    ensures
        ascending(departed(live, desired, stale)),
        ascending(arrived(live, desired, stale)),
        forall|i: usize| #[trigger]
            departed(live, desired, stale).contains(i) <==> live.contains(i) && (!desired.contains(
                i,
            ) || marked(shared(live, desired), stale, i)),
        forall|i: usize| #[trigger]
            arrived(live, desired, stale).contains(i) <==> desired.contains(i) && (!live.contains(i)
                || marked(shared(live, desired), stale, i)),
    decreases live.len() + desired.len(),
{
    law_shared_is_intersection(live, desired);
    if live.len() > 0 && desired.len() > 0 {
        lemma_first_is_least(live);
        lemma_first_is_least(desired);
        let (l, d, s) = if live[0] == desired[0] {
            (live.skip(1), desired.skip(1), stale.skip(1))
        } else if live[0] < desired[0] {
            (live.skip(1), desired, stale)
        } else {
            (live, desired.skip(1), stale)
        };
        if live[0] == desired[0] {
            assert((seq![live[0]] + shared(l, d)).skip(1) =~= shared(l, d));
        }
        law_diff_is_set_difference(l, d, s);
        law_shared_is_intersection(l, d);
        let out = departed(l, d, s);
        let inn = arrived(l, d, s);
        assert forall|i: usize| #[trigger]
            departed(live, desired, stale).contains(i) <==> live.contains(i) && (!desired.contains(
                i,
            ) || marked(shared(live, desired), stale, i)) by {
            lemma_step(live, desired, stale, l, d, s, i);
        }
        assert forall|i: usize| #[trigger]
            arrived(live, desired, stale).contains(i) <==> desired.contains(i) && (!live.contains(i)
                || marked(shared(live, desired), stale, i)) by {
            lemma_step(live, desired, stale, l, d, s, i);
        }
        if live[0] == desired[0] {
            if stale[0] {
                lemma_put_ascending(live[0], out);
                lemma_put_ascending(live[0], inn);
            }
        } else if live[0] < desired[0] {
            lemma_put_ascending(live[0], out);
        } else {
            lemma_put_ascending(desired[0], inn);
        }
    }
}

/// Exchanging the two lists exchanges what left and what arrived.
pub proof fn law_diff_is_symmetric(live: Seq<usize>, desired: Seq<usize>, stale: Seq<bool>)
    ensures
        shared(desired, live) == shared(live, desired),
        departed(desired, live, stale) == arrived(live, desired, stale),
        arrived(desired, live, stale) == departed(live, desired, stale),
    decreases live.len() + desired.len(),
{
    if live.len() > 0 && desired.len() > 0 {
        if live[0] == desired[0] {
            law_diff_is_symmetric(live.skip(1), desired.skip(1), stale.skip(1));
        } else if live[0] < desired[0] {
            law_diff_is_symmetric(live.skip(1), desired, stale);
        } else {
            law_diff_is_symmetric(live, desired.skip(1), stale);
        }
    } else {
        assert(live.len() == 0 && desired.len() == 0 ==> live =~= desired);
    }
}

} // verus!
