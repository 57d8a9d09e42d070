//! Ordering results by modification time, newest first, without disturbing
//! the order of results that carry the same time.

use crate::order::{lemma_text_le_total, lemma_text_le_transitive, text_le, text_no_later};
use crate::result::{views, ResultView, SearchResult};
use vstd::prelude::*;

verus! {

/// The results whose time text is `stamp`.
pub open spec fn has_stamp(stamp: Seq<char>) -> spec_fn(ResultView) -> bool {
    |r: ResultView| r.modified_at == stamp
}

/// No result stands before one with a later time text.
pub open spec fn newest_first(s: Seq<ResultView>) -> bool {
    forall|i: int, j: int|
        #![trigger s[i], s[j]]
        0 <= i < j < s.len() ==> text_le(s[j].modified_at, s[i].modified_at)
}

/// For every time text, `out` and `input` hold the same results with that
/// text, in the same order: `out` is `input` rearranged, and results with
/// equal time texts were not moved past each other.
pub open spec fn keeps_each_stamp(out: Seq<ResultView>, input: Seq<ResultView>) -> bool {
    forall|stamp: Seq<char>|
        #![trigger has_stamp(stamp)]
        out.filter(has_stamp(stamp)) == input.filter(has_stamp(stamp))
}

/// `out` is `input` sorted newest first, ties left in their order.
pub open spec fn is_stable_sort_of(out: Seq<ResultView>, input: Seq<ResultView>) -> bool {
    newest_first(out) && keeps_each_stamp(out, input)
}

proof fn lemma_views_push(s: Seq<SearchResult>, x: SearchResult)
    ensures
        views(s.push(x)) == views(s).push(x@),
{
    assert(views(s.push(x)) =~= views(s).push(x@));
}

proof fn lemma_views_drop_last(s: Seq<SearchResult>)
    requires
        s.len() > 0,
    ensures
        views(s.drop_last()) == views(s).drop_last(),
        views(s).last() == s.last()@,
{
    assert(views(s.drop_last()) =~= views(s).drop_last());
}

proof fn lemma_views_reverse(s: Seq<SearchResult>)
    ensures
        views(s.reverse()) == views(s).reverse(),
{
    assert(views(s.reverse()) =~= views(s).reverse());
}

proof fn lemma_views_split(s: Seq<SearchResult>, at: int)
    requires
        0 <= at <= s.len(),
    ensures
        views(s) == views(s.subrange(0, at)) + views(s.subrange(at, s.len() as int)),
{
    assert(views(s) =~= views(s.subrange(0, at)) + views(s.subrange(at, s.len() as int)));
}

/// Taking the last result off a run takes it off the run's selection for
/// its own time text and leaves every other selection as it was.
proof fn lemma_filter_without_last(s: Seq<ResultView>, stamp: Seq<char>)
    requires
        s.len() > 0,
    ensures
        s.filter(has_stamp(stamp)) == if s.last().modified_at == stamp {
            s.drop_last().filter(has_stamp(stamp)).push(s.last())
        } else {
            s.drop_last().filter(has_stamp(stamp))
        },
{
    assert(s.drop_last().push(s.last()) =~= s);
    s.drop_last().lemma_filter_push(s.last(), has_stamp(stamp));
}

/// A run in which nothing carries `stamp` has an empty selection for it.
proof fn lemma_filter_none(s: Seq<ResultView>, stamp: Seq<char>)
    requires
        forall|i: int| 0 <= i < s.len() ==> (#[trigger] s[i]).modified_at != stamp,
    ensures
        s.filter(has_stamp(stamp)) == Seq::<ResultView>::empty(),
{
    let keep = has_stamp(stamp);
    assert(s.all(|r: ResultView| !keep(r)));
    s.lemma_all_neg_filter_empty(keep);
    assert(s.filter(keep) =~= Seq::<ResultView>::empty());
}

/// What stands in the rearranged run stands in the other, and the other
/// way round.
pub proof fn lemma_same_results(out: Seq<ResultView>, input: Seq<ResultView>)
    requires
        keeps_each_stamp(out, input),
    ensures
        forall|i: int| 0 <= i < out.len() ==> input.contains(#[trigger] out[i]),
        forall|j: int| 0 <= j < input.len() ==> out.contains(#[trigger] input[j]),
{
    assert forall|i: int| 0 <= i < out.len() implies input.contains(#[trigger] out[i]) by {
        let keep = has_stamp(out[i].modified_at);
        out.lemma_filter_contains(keep, i);
        input.lemma_filter_contains_rev(keep, out[i]);
    }
    assert forall|j: int| 0 <= j < input.len() implies out.contains(#[trigger] input[j]) by {
        let keep = has_stamp(input[j].modified_at);
        input.lemma_filter_contains(keep, j);
        out.lemma_filter_contains_rev(keep, input[j]);
    }
}

/// A result that passes a selection occurs as often in the selection as in
/// the run it was taken from.
proof fn lemma_count_in_selection(s: Seq<ResultView>, r: ResultView)
    ensures
        s.filter(has_stamp(r.modified_at)).to_multiset().count(r) == s.to_multiset().count(r),
    decreases s.len(),
{
    broadcast use vstd::seq_lib::group_to_multiset_ensures;

    let keep = has_stamp(r.modified_at);
    if s.len() == 0 {
        lemma_filter_none(s, r.modified_at);
    } else {
        let rest = s.drop_last();
        assert(rest.push(s.last()) =~= s);
        lemma_count_in_selection(rest, r);
        lemma_filter_without_last(s, r.modified_at);
    }
}

/// Sorting neither loses nor adds a result: each occurs as often after as
/// before.
pub proof fn lemma_sort_keeps_every_result(out: Seq<ResultView>, input: Seq<ResultView>)
    requires
        keeps_each_stamp(out, input),
    ensures
        out.to_multiset() == input.to_multiset(),
        out.len() == input.len(),
{
    broadcast use vstd::seq_lib::group_to_multiset_ensures;

    assert forall|r: ResultView| out.to_multiset().count(r) == input.to_multiset().count(r) by {
        let keep = has_stamp(r.modified_at);
        lemma_count_in_selection(out, r);
        lemma_count_in_selection(input, r);
    }
    assert(out.to_multiset() =~= input.to_multiset());
    out.to_multiset_ensures();
    input.to_multiset_ensures();
}

proof fn lemma_newest_first_tail(s: Seq<ResultView>)
    requires
        newest_first(s),
        s.len() > 0,
    ensures
        newest_first(s.drop_first()),
{
    let tail = s.drop_first();
    assert forall|i: int, j: int| 0 <= i < j < tail.len() implies text_le(
        tail[j].modified_at,
        tail[i].modified_at,
    ) by {
        assert(tail[i] == s[i + 1]);
        assert(tail[j] == s[j + 1]);
    }
}

/// The selection of a run, told by its first result and the rest.
proof fn lemma_filter_from_front(s: Seq<ResultView>, stamp: Seq<char>)
    requires
        s.len() > 0,
    ensures
        s.filter(has_stamp(stamp)) == if s[0].modified_at == stamp {
            seq![s[0]] + s.drop_first().filter(has_stamp(stamp))
        } else {
            s.drop_first().filter(has_stamp(stamp))
        },
{
    assert(seq![s[0]] + s.drop_first() =~= s);
    s.drop_first().lemma_filter_prepend(s[0], has_stamp(stamp));
    assert(Seq::<ResultView>::empty() + s.drop_first().filter(has_stamp(stamp))
        =~= s.drop_first().filter(has_stamp(stamp)));
}

/// In two runs that are each newest first, and each of which holds the
/// first result of the other, the first results carry the same time text.
proof fn lemma_heads_agree(x: Seq<ResultView>, y: Seq<ResultView>)
    requires
        newest_first(x),
        newest_first(y),
        x.len() > 0,
        y.len() > 0,
        y.contains(x[0]),
        x.contains(y[0]),
    ensures
        x[0].modified_at == y[0].modified_at,
{
    let j = choose|j: int| 0 <= j < y.len() && y[j] == x[0];
    let i = choose|i: int| 0 <= i < x.len() && x[i] == y[0];
    crate::order::lemma_text_le_reflexive(x[0].modified_at);
    crate::order::lemma_text_le_reflexive(y[0].modified_at);
    assert(text_le(x[0].modified_at, y[0].modified_at)) by {
        if j > 0 {
            assert(text_le(y[j].modified_at, y[0].modified_at));
        }
    }
    assert(text_le(y[0].modified_at, x[0].modified_at)) by {
        if i > 0 {
            assert(text_le(x[i].modified_at, x[0].modified_at));
        }
    }
    crate::order::lemma_text_le_antisymmetric(x[0].modified_at, y[0].modified_at);
}

proof fn lemma_rearrangements_agree(x: Seq<ResultView>, y: Seq<ResultView>)
    requires
        newest_first(x),
        newest_first(y),
        keeps_each_stamp(x, y),
    ensures
        x == y,
    decreases x.len(),
{
    lemma_sort_keeps_every_result(x, y);
    if x.len() == 0 {
        assert(x =~= y);
    } else {
        lemma_same_results(x, y);
        lemma_heads_agree(x, y);
        let first = x[0].modified_at;
        let xt = x.drop_first();
        let yt = y.drop_first();
        lemma_filter_from_front(x, first);
        lemma_filter_from_front(y, first);
        assert(has_stamp(first) == has_stamp(first));
        let picked_x = seq![x[0]] + xt.filter(has_stamp(first));
        let picked_y = seq![y[0]] + yt.filter(has_stamp(first));
        assert(picked_x == picked_y);
        assert(picked_x[0] == picked_y[0]);
        assert(xt.filter(has_stamp(first)) =~= picked_x.drop_first());
        assert(yt.filter(has_stamp(first)) =~= picked_y.drop_first());
        assert forall|stamp: Seq<char>| #![trigger has_stamp(stamp)]
            xt.filter(has_stamp(stamp)) == yt.filter(has_stamp(stamp)) by {
            if stamp != first {
                lemma_filter_from_front(x, stamp);
                lemma_filter_from_front(y, stamp);
                assert(x.filter(has_stamp(stamp)) == y.filter(has_stamp(stamp)));
            }
        }
        lemma_newest_first_tail(x);
        lemma_newest_first_tail(y);
        lemma_rearrangements_agree(xt, yt);
        assert(x =~= seq![x[0]] + xt);
        assert(y =~= seq![y[0]] + yt);
    }
}

/// There is one way only to sort a run newest first without moving
/// results with equal time texts past each other: two runs that are both
/// such a sorting of the same input are the same run.
pub proof fn lemma_stable_sort_is_unique(
    x: Seq<ResultView>,
    y: Seq<ResultView>,
    input: Seq<ResultView>,
)
    requires
        is_stable_sort_of(x, input),
        is_stable_sort_of(y, input),
    ensures
        x == y,
{
    assert forall|stamp: Seq<char>| #![trigger has_stamp(stamp)]
        x.filter(has_stamp(stamp)) == y.filter(has_stamp(stamp)) by {
        assert(x.filter(has_stamp(stamp)) == input.filter(has_stamp(stamp)));
        assert(y.filter(has_stamp(stamp)) == input.filter(has_stamp(stamp)));
    }
    lemma_rearrangements_agree(x, y);
}

/// Two runs that are each newest first and hold the same results, each as
/// often, carry the same time text at every place: they can differ only in
/// the order of results whose time texts are equal.
pub proof fn lemma_sorted_runs_agree_on_stamps(x: Seq<ResultView>, y: Seq<ResultView>)
    requires
        newest_first(x),
        newest_first(y),
        x.to_multiset() == y.to_multiset(),
    ensures
        x.len() == y.len(),
        forall|i: int| 0 <= i < x.len() ==> (#[trigger] x[i]).modified_at == y[i].modified_at,
    decreases x.len(),
{
    x.to_multiset_ensures();
    y.to_multiset_ensures();
    if x.len() > 0 {
        assert(x.contains(x[0]));
        assert(x.to_multiset().count(x[0]) > 0);
        assert(y.to_multiset().count(x[0]) > 0);
        assert(y.contains(x[0]));
        let j = choose|j: int| 0 <= j < y.len() && y[j] == x[0];
        assert(y.contains(y[0]));
        assert(y.to_multiset().count(y[0]) > 0);
        assert(x.to_multiset().count(y[0]) > 0);
        assert(x.contains(y[0]));
        lemma_heads_agree(x, y);
        let xt = x.drop_first();
        let yt = y.remove(j);
        assert(xt =~= x.remove(0));
        assert(xt.to_multiset() == yt.to_multiset());
        lemma_newest_first_tail(x);
        assert forall|a: int, b: int| 0 <= a < b < yt.len() implies text_le(
            yt[b].modified_at,
            yt[a].modified_at,
        ) by {
            let a0 = if a < j { a } else { a + 1 };
            let b0 = if b < j { b } else { b + 1 };
            assert(yt[a] == y[a0]);
            assert(yt[b] == y[b0]);
        }
        lemma_sorted_runs_agree_on_stamps(xt, yt);
        assert forall|i: int| 0 <= i < x.len() implies (#[trigger] x[i]).modified_at
            == y[i].modified_at by {
            if i > 0 {
                assert(x[i] == xt[i - 1]);
                assert(xt[i - 1].modified_at == yt[i - 1].modified_at);
                if i - 1 >= j {
                    assert(yt[i - 1] == y[i]);
                } else {
                    assert(yt[i - 1] == y[i - 1]);
                    assert(text_le(y[i].modified_at, y[i - 1].modified_at));
                    assert(text_le(y[i - 1].modified_at, y[0].modified_at)) by {
                        if i - 1 == 0 {
                            crate::order::lemma_text_le_reflexive(y[0].modified_at);
                        }
                    }
                    assert(text_le(y[j].modified_at, y[i].modified_at)) by {
                        if i == j {
                            crate::order::lemma_text_le_reflexive(y[j].modified_at);
                        }
                    }
                    crate::order::lemma_text_le_transitive(
                        y[i - 1].modified_at,
                        y[0].modified_at,
                        y[i].modified_at,
                    );
                    crate::order::lemma_text_le_antisymmetric(
                        y[i].modified_at,
                        y[i - 1].modified_at,
                    );
                }
            }
        }
    }
}

/// The results of `v` in the opposite order.
fn reversed(v: Vec<SearchResult>) -> (out: Vec<SearchResult>)
    ensures
        out@ == v@.reverse(),
{
    let ghost whole = v@;
    let mut rest = v;
    let mut out: Vec<SearchResult> = Vec::new();
    while rest.len() > 0
        invariant
            rest@ == whole.subrange(0, rest.len() as int),
            rest.len() <= whole.len(),
            out.len() == whole.len() - rest.len(),
            forall|i: int| 0 <= i < out.len() ==> out@[i] == whole[whole.len() - 1 - i],
        decreases rest.len(),
    {
        let x = rest.pop().unwrap();
        out.push(x);
    }
    assert(out@ =~= whole.reverse());
    out
}

/// Nothing in `tail` is later than anything in `run`.
spec fn all_no_later(tail: Seq<ResultView>, run: Seq<ResultView>) -> bool {
    forall|i: int, j: int|
        #![trigger run[i], tail[j]]
        0 <= i < run.len() && 0 <= j < tail.len() ==> text_le(
            tail[j].modified_at,
            run[i].modified_at,
        )
}

/// A run that is newest first and whose last result is later than `stamp`
/// holds no result with that time text.
proof fn lemma_all_later(run: Seq<ResultView>, stamp: Seq<char>)
    requires
        newest_first(run),
        run.len() > 0 ==> !text_le(run.last().modified_at, stamp),
    ensures
        forall|i: int| 0 <= i < run.len() ==> (#[trigger] run[i]).modified_at != stamp,
{
    crate::order::lemma_text_le_reflexive(stamp);
    assert forall|i: int| 0 <= i < run.len() implies (#[trigger] run[i]).modified_at != stamp by {
        if i < run.len() - 1 {
            assert(text_le(run[run.len() - 1].modified_at, run[i].modified_at));
        }
    }
}

/// Moving the last result of `taken` to the front of `tail` keeps every
/// order that a merge relies on, provided that result is no later than the
/// last of `other`.
proof fn lemma_order_after_taking(
    taken: Seq<ResultView>,
    other: Seq<ResultView>,
    tail: Seq<ResultView>,
)
    requires
        taken.len() > 0,
        newest_first(taken),
        newest_first(other),
        newest_first(tail),
        all_no_later(tail, taken),
        all_no_later(tail, other),
        other.len() > 0 ==> text_le(taken.last().modified_at, other.last().modified_at),
    ensures
        newest_first(taken.drop_last()),
        newest_first(seq![taken.last()] + tail),
        all_no_later(seq![taken.last()] + tail, taken.drop_last()),
        all_no_later(seq![taken.last()] + tail, other),
{
    let x = taken.last();
    let grown = seq![x] + tail;
    let rest = taken.drop_last();
    assert forall|i: int, j: int| 0 <= i < j < rest.len() implies text_le(
        rest[j].modified_at,
        rest[i].modified_at,
    ) by {
        assert(rest[i] == taken[i] && rest[j] == taken[j]);
    }
    assert forall|i: int, j: int| 0 <= i < j < grown.len() implies text_le(
        grown[j].modified_at,
        grown[i].modified_at,
    ) by {
        assert(grown[j] == tail[j - 1]);
        if i == 0 {
            assert(text_le(tail[j - 1].modified_at, taken[taken.len() - 1].modified_at));
        } else {
            assert(grown[i] == tail[i - 1]);
        }
    }
    assert forall|i: int, j: int|
        #![trigger rest[i], grown[j]]
        0 <= i < rest.len() && 0 <= j < grown.len() implies text_le(
        grown[j].modified_at,
        rest[i].modified_at,
    ) by {
        assert(rest[i] == taken[i]);
        if j == 0 {
            assert(text_le(taken[taken.len() - 1].modified_at, taken[i].modified_at));
        } else {
            assert(grown[j] == tail[j - 1]);
        }
    }
    assert forall|i: int, j: int|
        #![trigger other[i], grown[j]]
        0 <= i < other.len() && 0 <= j < grown.len() implies text_le(
        grown[j].modified_at,
        other[i].modified_at,
    ) by {
        if j == 0 {
            let last = other.len() - 1;
            if i < last {
                assert(text_le(other[last].modified_at, other[i].modified_at));
                lemma_text_le_transitive(
                    x.modified_at,
                    other[last].modified_at,
                    other[i].modified_at,
                );
            }
        } else {
            assert(grown[j] == tail[j - 1]);
        }
    }
}

/// Moving the last result of one run to the front of `tail` leaves the
/// selection for every time text as it was, counted over the first run,
/// then the second, then the tail. Where the result comes from the first
/// run, the second must hold nothing with its time text.
proof fn lemma_selection_after_taking(
    a: Seq<ResultView>,
    b: Seq<ResultView>,
    tail: Seq<ResultView>,
    from_second: bool,
    stamp: Seq<char>,
)
    requires
        if from_second {
            b.len() > 0
        } else {
            a.len() > 0 && forall|i: int|
                0 <= i < b.len() ==> (#[trigger] b[i]).modified_at != a.last().modified_at
        },
    ensures
        ({
            let keep = has_stamp(stamp);
            let x = if from_second {
                b.last()
            } else {
                a.last()
            };
            let a_left = if from_second {
                a
            } else {
                a.drop_last()
            };
            let b_left = if from_second {
                b.drop_last()
            } else {
                b
            };
            a_left.filter(keep) + b_left.filter(keep) + (seq![x] + tail).filter(keep) == a.filter(
                keep,
            ) + b.filter(keep) + tail.filter(keep)
        }),
{
    let keep = has_stamp(stamp);
    if from_second {
        lemma_filter_without_last(b, stamp);
        tail.lemma_filter_prepend(b.last(), keep);
        assert(a.filter(keep) + b.drop_last().filter(keep) + (seq![b.last()] + tail).filter(keep)
            =~= a.filter(keep) + b.filter(keep) + tail.filter(keep));
    } else {
        lemma_filter_without_last(a, stamp);
        tail.lemma_filter_prepend(a.last(), keep);
        if a.last().modified_at == stamp {
            lemma_filter_none(b, stamp);
        }
        assert(a.drop_last().filter(keep) + b.filter(keep) + (seq![a.last()] + tail).filter(keep)
            =~= a.filter(keep) + b.filter(keep) + tail.filter(keep));
    }
}

/// Merges two runs that are each newest first into one; where the time
/// texts are equal, what came from `first` stands before what came from
/// `second`. The merged run is built from its end: each step moves the
/// last result of one run to the front of what is already merged.
fn merge(first: Vec<SearchResult>, second: Vec<SearchResult>) -> (out: Vec<SearchResult>)
    requires
        newest_first(views(first@)),
        newest_first(views(second@)),
    ensures
        newest_first(views(out@)),
        forall|stamp: Seq<char>|
            #![trigger has_stamp(stamp)]
            views(out@).filter(has_stamp(stamp)) == views(first@).filter(has_stamp(stamp)) + views(
                second@,
            ).filter(has_stamp(stamp)),
{
    let ghost first_all = views(first@);
    let ghost second_all = views(second@);
    let mut a = first;
    let mut b = second;
    let mut backwards: Vec<SearchResult> = Vec::new();
    let ghost mut tail: Seq<ResultView> = Seq::empty();
    proof {
        assert(views(backwards@) =~= tail.reverse());
        assert forall|stamp: Seq<char>| #![trigger has_stamp(stamp)]
            views(a@).filter(has_stamp(stamp)) + views(b@).filter(has_stamp(stamp)) + tail.filter(
                has_stamp(stamp),
            ) == first_all.filter(has_stamp(stamp)) + second_all.filter(has_stamp(stamp)) by {
            lemma_filter_none(tail, stamp);
            assert(first_all.filter(has_stamp(stamp)) + second_all.filter(has_stamp(stamp))
                + Seq::<ResultView>::empty() =~= first_all.filter(has_stamp(stamp))
                + second_all.filter(has_stamp(stamp)));
        }
    }
    while a.len() > 0 || b.len() > 0
        invariant
            newest_first(views(a@)),
            newest_first(views(b@)),
            newest_first(tail),
            views(backwards@) == tail.reverse(),
            all_no_later(tail, views(a@)),
            all_no_later(tail, views(b@)),
            forall|stamp: Seq<char>|
                #![trigger has_stamp(stamp)]
                views(a@).filter(has_stamp(stamp)) + views(b@).filter(has_stamp(stamp))
                    + tail.filter(has_stamp(stamp)) == first_all.filter(has_stamp(stamp))
                    + second_all.filter(has_stamp(stamp)),
        decreases a.len() + b.len(),
    {
        let ghost a_before = views(a@);
        let ghost b_before = views(b@);
        let ghost tail_before = tail;
        let from_second: bool = if a.len() == 0 {
            true
        } else if b.len() == 0 {
            false
        } else {
            text_no_later(b[b.len() - 1].modified_at(), a[a.len() - 1].modified_at())
        };
        proof {
            if from_second {
                lemma_views_drop_last(b@);
                lemma_order_after_taking(b_before, a_before, tail_before);
            } else {
                lemma_views_drop_last(a@);
                if b_before.len() > 0 {
                    lemma_text_le_total(b_before.last().modified_at, a_before.last().modified_at);
                }
                lemma_all_later(b_before, a_before.last().modified_at);
                lemma_order_after_taking(a_before, b_before, tail_before);
            }
        }
        let x = if from_second {
            b.pop().unwrap()
        } else {
            a.pop().unwrap()
        };
        proof {
            tail = seq![x@] + tail_before;
            lemma_views_push(backwards@, x);
            assert((seq![x@] + tail_before).reverse() =~= tail_before.reverse().push(x@));
            assert forall|stamp: Seq<char>| #![trigger has_stamp(stamp)]
                views(a@).filter(has_stamp(stamp)) + views(b@).filter(has_stamp(stamp))
                    + tail.filter(has_stamp(stamp)) == first_all.filter(has_stamp(stamp))
                    + second_all.filter(has_stamp(stamp)) by {
                lemma_selection_after_taking(a_before, b_before, tail_before, from_second, stamp);
            }
        }
        backwards.push(x);
    }
    let out = reversed(backwards);
    proof {
        lemma_views_reverse(backwards@);
        assert(tail.reverse().reverse() =~= tail);
        assert forall|stamp: Seq<char>| #![trigger has_stamp(stamp)]
            views(out@).filter(has_stamp(stamp)) == first_all.filter(has_stamp(stamp))
                + second_all.filter(has_stamp(stamp)) by {
            let keep = has_stamp(stamp);
            lemma_filter_none(views(a@), stamp);
            lemma_filter_none(views(b@), stamp);
            assert(views(a@).filter(keep) + views(b@).filter(keep) + tail.filter(keep)
                =~= tail.filter(keep));
        }
    }
    out
}

/// Sorts results by their time text, latest first. Results with the same
/// time text keep the order they came in.
pub fn sort_newest_first(results: Vec<SearchResult>) -> (out: Vec<SearchResult>)
    ensures
        is_stable_sort_of(views(out@), views(results@)),
    decreases results.len(),
{
    if results.len() <= 1 {
        return results;
    }
    let ghost whole = results@;
    let mut front = results;
    let half: usize = front.len() / 2;
    let back = front.split_off(half);
    let ghost front_in = views(front@);
    let ghost back_in = views(back@);
    let a = sort_newest_first(front);
    let b = sort_newest_first(back);
    let out = merge(a, b);
    proof {
        lemma_views_split(whole, half as int);
        assert forall|stamp: Seq<char>| #![trigger has_stamp(stamp)]
            views(out@).filter(has_stamp(stamp)) == views(whole).filter(has_stamp(stamp)) by {
            let keep = has_stamp(stamp);
            Seq::filter_distributes_over_add(front_in, back_in, keep);
        }
    }
    out
}

} // verus!
