//! The traversal engine: what is done with each entry that a walk of the
//! tree reports, and what a whole walk comes to.

use crate::clock::has_plain_shape;
use crate::entry::{build_result, plainly_dated, result_view, Entry, EntryView, FileFacts};
use crate::error::SearchError;
use crate::request::{RequestView, SearchRequest, request_of};
use crate::result::{views, ResultView, SearchResult};
use crate::request::DepthPolicy;
use crate::sorting::{
    is_stable_sort_of, lemma_same_results, lemma_sort_keeps_every_result,
    lemma_sorted_runs_agree_on_stamps, lemma_stable_sort_is_unique, sort_newest_first,
};
use vstd::multiset::Multiset;
use vstd::prelude::*;
use vstd::seq_lib::{commutative_foldr, lemma_fold_right_permutation};

verus! {

/// What a worker does next with an entry.
#[derive(Clone, Copy, Debug, PartialEq, Eq, Structural)]
pub enum EntryAction {
    /// Stop the whole search: it was cancelled.
    Abort,
    /// Leave the entry out; its metadata is not read.
    Skip,
    /// Read the entry's metadata and make a result of it.
    ReadFacts,
}

/// One entry of a walk, with what its worker saw and read.
#[derive(Debug)]
pub struct Visit {
    pub entry: Entry,
    /// Whether the token read as cancelled when the worker took the entry
    /// up.
    pub cancel_seen: bool,
    /// The entry's metadata; `None` where it could not be read.
    pub facts: Option<FileFacts>,
}

/// A [`Visit`] as plain mathematical values.
pub struct VisitView {
    pub entry: EntryView,
    pub cancel_seen: bool,
    pub facts: Option<FileFacts>,
}

impl View for Visit {
    type V = VisitView;

    open spec fn view(&self) -> VisitView {
        VisitView { entry: self.entry@, cancel_seen: self.cancel_seen, facts: self.facts }
    }
}

/// The views of a run of visits, in order.
pub open spec fn visit_views(visits: Seq<Visit>) -> Seq<VisitView> {
    visits.map_values(|v: Visit| v@)
}

/// The entry is within the depth that the request reaches and meets its
/// criteria on kind, name and extension.
pub open spec fn admits(request: RequestView, entry: EntryView) -> bool {
    request.depth.allows(entry.depth) && request.criteria_hold(entry.name, entry.is_dir)
}

/// What a worker does with an entry: it stops the search where it saw the
/// token cancelled, reads the metadata of an entry that the request admits,
/// and passes over any other.
pub open spec fn action_for(request: RequestView, entry: EntryView, cancel_seen: bool)
    -> EntryAction {
    if cancel_seen {
        EntryAction::Abort
    } else if admits(request, entry) {
        EntryAction::ReadFacts
    } else {
        EntryAction::Skip
    }
}

/// The result that a visit adds to the search, if any.
pub open spec fn yield_of(request: RequestView, visit: VisitView) -> Option<ResultView> {
    if admits(request, visit.entry) {
        result_view(visit.entry, visit.facts)
    } else {
        None
    }
}

/// The results of a walk in the order of its visits.
pub open spec fn matches_of(request: RequestView, visits: Seq<VisitView>) -> Seq<ResultView> {
    visits.filter_map(|v: VisitView| yield_of(request, v))
}

/// Some worker saw the token cancelled.
pub open spec fn cancel_seen_in(visits: Seq<VisitView>) -> bool {
    exists|i: int| 0 <= i < visits.len() && (#[trigger] visits[i]).cancel_seen
}

/// The root itself gives no result, whatever is asked for: a walk that
/// holds the root alone comes to nothing.
pub proof fn lemma_root_is_never_returned(request: RequestView, visit: VisitView)
    requires
        visit.entry.depth == 0,
    ensures
        yield_of(request, visit) is None,
        matches_of(request, seq![visit]) == Seq::<ResultView>::empty(),
{
    let pick = |v: VisitView| yield_of(request, v);
    assert(seq![visit].drop_last() =~= Seq::<VisitView>::empty());
    assert(Seq::<VisitView>::empty().filter_map(pick) =~= Seq::<ResultView>::empty());
    assert(seq![visit].filter_map(pick) =~= Seq::<ResultView>::empty());
}

/// Every result of a walk stems from a visit that the request admits.
proof fn lemma_match_has_a_visit(request: RequestView, visits: Seq<VisitView>, r: ResultView)
    requires
        matches_of(request, visits).contains(r),
    ensures
        exists|j: int|
            0 <= j < visits.len() && admits(request, (#[trigger] visits[j]).entry) && yield_of(
                request,
                visits[j],
            ) == Some(r),
{
    let pick = |v: VisitView| yield_of(request, v);
    visits.lemma_filter_map_contains(pick, r);
    let t = choose|t: VisitView| #[trigger] visits.contains(t) && pick(t) == Some(r);
    let j = choose|j: int| 0 <= j < visits.len() && visits[j] == t;
    assert(admits(request, visits[j].entry) && yield_of(request, visits[j]) == Some(r));
}

/// Whatever a search returns meets the request: each result is of a kind
/// asked for, its base name holds the term in lowercase, and, where it is
/// no directory and extensions were asked for, its extension is one of
/// them up to the case of ASCII letters. A directory among the results has
/// size zero.
pub proof fn lemma_results_meet_criteria(
    request: RequestView,
    visits: Seq<VisitView>,
    found: Seq<ResultView>,
)
    requires
        is_stable_sort_of(found, matches_of(request, visits)),
    ensures
        forall|i: int|
            0 <= i < found.len() ==> request.criteria_hold(
                (#[trigger] found[i]).name,
                found[i].is_dir,
            ) && found[i].well_formed(),
{
    lemma_same_results(found, matches_of(request, visits));
    assert forall|i: int| 0 <= i < found.len() implies request.criteria_hold(
        (#[trigger] found[i]).name,
        found[i].is_dir,
    ) && found[i].well_formed() by {
        lemma_match_has_a_visit(request, visits, found[i]);
    }
}

/// The result stems from a visit at a depth that the request reaches:
/// never from the root itself, and for a request of the top level only
/// from one of the root's immediate children.
pub open spec fn within_reach(request: RequestView, visits: Seq<VisitView>, r: ResultView)
    -> bool {
    exists|j: int|
        0 <= j < visits.len() && yield_of(request, #[trigger] visits[j]) == Some(r)
            && request.depth.allows(visits[j].entry.depth) && visits[j].entry.depth >= 1 && (
        request.depth == DepthPolicy::TopLevelOnly ==> visits[j].entry.depth == 1)
}

/// What the visit gives, if anything, carries its time in the form
/// `YYYY-MM-DD HH:MM:SS` where the local year lies between 0 and 9999.
pub open spec fn shape_holds(request: RequestView, visit: VisitView) -> bool {
    yield_of(request, visit) matches Some(r) ==> (plainly_dated(visit.facts) ==> has_plain_shape(
        r.modified_at,
    ))
}

/// The result stems from a visit, and carries its time in the form
/// `YYYY-MM-DD HH:MM:SS` where the local year of that visit's time lies
/// between 0 and 9999.
pub open spec fn plainly_stamped(request: RequestView, visits: Seq<VisitView>, r: ResultView)
    -> bool {
    exists|j: int|
        0 <= j < visits.len() && yield_of(request, #[trigger] visits[j]) == Some(r) && (
        plainly_dated(visits[j].facts) ==> has_plain_shape(r.modified_at))
}

/// Whatever a search returns lies within the depth that the request
/// reaches: the root itself is never returned, and a search of the top
/// level only returns nothing but immediate children of the root.
pub proof fn lemma_results_within_reach(
    request: RequestView,
    visits: Seq<VisitView>,
    found: Seq<ResultView>,
)
    requires
        is_stable_sort_of(found, matches_of(request, visits)),
    ensures
        forall|i: int| 0 <= i < found.len() ==> within_reach(request, visits, #[trigger] found[i]),
{
    lemma_same_results(found, matches_of(request, visits));
    assert forall|i: int| 0 <= i < found.len() implies within_reach(
        request,
        visits,
        #[trigger] found[i],
    ) by {
        lemma_match_has_a_visit(request, visits, found[i]);
    }
}

/// The same request over the same walk gives the same results in the same
/// order, however often it is run.
pub proof fn lemma_search_is_repeatable(
    request: RequestView,
    visits: Seq<VisitView>,
    first: Seq<ResultView>,
    second: Seq<ResultView>,
)
    requires
        is_stable_sort_of(first, matches_of(request, visits)),
        is_stable_sort_of(second, matches_of(request, visits)),
    ensures
        first == second,
{
    lemma_stable_sort_is_unique(first, second, matches_of(request, visits));
}

/// Adds to a collection of results what one visit gives.
spec fn gather(request: RequestView) -> spec_fn(VisitView, Multiset<ResultView>) -> Multiset<
    ResultView,
> {
    |v: VisitView, sofar: Multiset<ResultView>|
        match yield_of(request, v) {
            Some(r) => sofar.insert(r),
            None => sofar,
        }
}

proof fn lemma_matches_gathered(
    request: RequestView,
    visits: Seq<VisitView>,
    sofar: Multiset<ResultView>,
)
    ensures
        visits.fold_right(gather(request), sofar) == sofar.add(
            matches_of(request, visits).to_multiset(),
        ),
    decreases visits.len(),
{
    broadcast use vstd::multiset::group_multiset_axioms;
    broadcast use vstd::seq_lib::group_to_multiset_ensures;

    let pick = |v: VisitView| yield_of(request, v);
    if visits.len() == 0 {
        assert(matches_of(request, visits) =~= Seq::<ResultView>::empty());
        assert(sofar.add(Seq::<ResultView>::empty().to_multiset()) =~= sofar);
    } else {
        let rest = visits.drop_last();
        let last = visits.last();
        lemma_matches_gathered(request, rest, gather(request)(last, sofar));
        match yield_of(request, last) {
            Some(r) => {
                assert(matches_of(request, visits) =~= matches_of(request, rest).push(r));
                assert(sofar.insert(r).add(matches_of(request, rest).to_multiset()) =~= sofar.add(
                    matches_of(request, rest).to_multiset().insert(r),
                ));
            },
            None => {},
        }
    }
}

/// The order in which the workers take up the entries does not change
/// what is found: two walks that hold the same visits, in whatever order,
/// give the same results, each as often in one as in the other, and the
/// same time text at every place. The two answers can differ only in the
/// order of results whose time texts are equal.
pub proof fn lemma_order_of_visits_is_immaterial(
    request: RequestView,
    one: Seq<VisitView>,
    other: Seq<VisitView>,
    found_one: Seq<ResultView>,
    found_other: Seq<ResultView>,
)
    requires
        one.to_multiset() == other.to_multiset(),
        is_stable_sort_of(found_one, matches_of(request, one)),
        is_stable_sort_of(found_other, matches_of(request, other)),
    ensures
        found_one.to_multiset() == found_other.to_multiset(),
        found_one.len() == found_other.len(),
        forall|i: int|
            0 <= i < found_one.len() ==> (#[trigger] found_one[i]).modified_at
                == found_other[i].modified_at,
{
    broadcast use vstd::multiset::group_multiset_axioms;

    let none = Multiset::<ResultView>::empty();
    assert(commutative_foldr(gather(request))) by {
        assert forall|x: VisitView, y: VisitView, v: Multiset<ResultView>| #[trigger]
            gather(request)(x, gather(request)(y, v)) == gather(request)(
                y,
                gather(request)(x, v),
            ) by {
            assert(gather(request)(x, gather(request)(y, v)) =~= gather(request)(
                y,
                gather(request)(x, v),
            ));
        }
    }
    lemma_fold_right_permutation(one, other, gather(request), none);
    lemma_matches_gathered(request, one, none);
    lemma_matches_gathered(request, other, none);
    assert(none.add(matches_of(request, one).to_multiset()) =~= matches_of(
        request,
        one,
    ).to_multiset());
    assert(none.add(matches_of(request, other).to_multiset()) =~= matches_of(
        request,
        other,
    ).to_multiset());
    lemma_sort_keeps_every_result(found_one, matches_of(request, one));
    lemma_sort_keeps_every_result(found_other, matches_of(request, other));
    found_one.to_multiset_ensures();
    found_other.to_multiset_ensures();
    lemma_sorted_runs_agree_on_stamps(found_one, found_other);
}

/// Whether the request admits the entry.
pub fn entry_admitted(request: &SearchRequest, entry: &Entry) -> (r: bool)
    ensures
        r == admits(request@, entry@),
{
    if !request.depth().permits(entry.depth) {
        return false;
    }
    request.criteria_hold(entry.name.as_str(), entry.is_dir)
}

/// Decides what to do with an entry that a walk reports. `cancel_seen` is
/// what the token read when the worker took the entry up.
pub fn begin_entry(request: &SearchRequest, entry: &Entry, cancel_seen: bool) -> (r: EntryAction)
    ensures
        r == action_for(request@, entry@, cancel_seen),
{
    if cancel_seen {
        EntryAction::Abort
    } else if entry_admitted(request, entry) {
        EntryAction::ReadFacts
    } else {
        EntryAction::Skip
    }
}

/// Goes through a recorded walk as the workers do and gives what the
/// search comes to: the cancelled outcome where any worker saw the token
/// cancelled, else every result of the walk, newest first.
pub fn perform_parallel_search(
    visits: &Vec<Visit>,
    search_term: &str,
    level: &str,
    target: &str,
    file_extensions: &str,
) -> (r: Result<Vec<SearchResult>, SearchError>)
    ensures
        match r {
            Ok(found) => {
                let request = request_of(search_term@, level@, target@, file_extensions@);
                &&& !cancel_seen_in(visit_views(visits@))
                &&& is_stable_sort_of(views(found@), matches_of(request, visit_views(visits@)))
                &&& forall|i: int|
                    0 <= i < found@.len() ==> {
                        &&& request.criteria_hold(
                            (#[trigger] views(found@)[i]).name,
                            views(found@)[i].is_dir,
                        )
                        &&& views(found@)[i].well_formed()
                        &&& within_reach(request, visit_views(visits@), views(found@)[i])
                        &&& plainly_stamped(request, visit_views(visits@), views(found@)[i])
                    }
            },
            Err(why) => cancel_seen_in(visit_views(visits@)) && why == SearchError::Cancelled,
        },
{
    let request = SearchRequest::new(search_term, level, target, file_extensions);
    let ghost all = visit_views(visits@);
    let ghost pick = |v: VisitView| yield_of(request@, v);
    let mut found: Vec<SearchResult> = Vec::new();
    let mut i: usize = 0;
    assert(all.take(0).filter_map(pick) =~= Seq::<ResultView>::empty());
    while i < visits.len()
        invariant
            i <= visits.len(),
            all == visit_views(visits@),
            pick == (|v: VisitView| yield_of(request@, v)),
            forall|j: int| 0 <= j < i ==> !(#[trigger] all[j]).cancel_seen,
            forall|j: int| 0 <= j < i ==> shape_holds(request@, #[trigger] all[j]),
            views(found@) == all.take(i as int).filter_map(pick),
        decreases visits.len() - i,
    {
        let visit = &visits[i];
        proof {
            assert(all[i as int] == visit@);
            all.lemma_filter_map_take_succ(pick, i as int);
        }
        match begin_entry(&request, &visit.entry, visit.cancel_seen) {
            EntryAction::Abort => {
                return Err(SearchError::Cancelled);
            },
            EntryAction::Skip => {},
            EntryAction::ReadFacts => {
                match build_result(&visit.entry, visit.facts) {
                    Some(result) => {
                        assert(views(found@.push(result)) =~= views(found@).push(result@));
                        found.push(result);
                    },
                    None => {},
                }
            },
        }
        i += 1;
    }
    assert(all.take(visits.len() as int) =~= all);
    let sorted = sort_newest_first(found);
    proof {
        lemma_results_meet_criteria(request@, all, views(sorted@));
        lemma_results_within_reach(request@, all, views(sorted@));
        lemma_same_results(views(sorted@), matches_of(request@, all));
        assert forall|k: int| 0 <= k < sorted@.len() implies plainly_stamped(
            request@,
            all,
            #[trigger] views(sorted@)[k],
        ) by {
            lemma_match_has_a_visit(request@, all, views(sorted@)[k]);
            let j = choose|j: int|
                0 <= j < all.len() && admits(request@, (#[trigger] all[j]).entry) && yield_of(
                    request@,
                    all[j],
                ) == Some(views(sorted@)[k]);
            assert(shape_holds(request@, all[j]));
        }
    }
    Ok(sorted)
}

} // verus!
