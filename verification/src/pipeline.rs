//! The aggregate report of a run over many files: per-file results come in,
//! in whatever order the workers finish, and are kept by file path.

use crate::analyzer::{
    analyze_source, report_view, scores_positive, source_analysis, AnalysisError, Report,
};
use crate::render::{push_file, rendered};
use vstd::prelude::*;

verus! {

/// File paths with their reports, in the order in which they are kept.
pub type Listing = Seq<(Seq<char>, Report)>;

/// The result of analysing one file.
pub type CcResult = Vec<(String, usize)>;

/// What one task hands in: the path of its file with the report, or the
/// error that the file gave.
pub type Outcome = Result<(Seq<char>, Report), AnalysisError>;

/// The paths of a sequence of entries, in order.
pub open spec fn paths<V>(entries: Seq<(Seq<char>, V)>) -> Seq<Seq<char>> {
    entries.map_values(|e: (Seq<char>, V)| e.0)
}

/// The listing after the report of `path` has come in: it replaces the report
/// kept for that path, or goes to the end where none is kept.
pub open spec fn upsert(listing: Listing, path: Seq<char>, report: Report) -> Listing {
    match paths(listing).index_of_first(path) {
        Some(i) => listing.update(i, (path, report)),
        None => listing.push((path, report)),
    }
}

/// The listing kept once all of `arrivals` have come in, one after the other.
pub open spec fn gathered(arrivals: Listing) -> Listing
    decreases arrivals.len(),
{
    if arrivals.len() == 0 {
        Seq::empty()
    } else {
        upsert(gathered(arrivals.drop_last()), arrivals.last().0, arrivals.last().1)
    }
}

/// The mapping from path to report that a sequence of entries stands for;
/// where a path occurs more than once, the last entry counts.
pub open spec fn as_map(listing: Listing) -> Map<Seq<char>, Report>
    decreases listing.len(),
{
    if listing.len() == 0 {
        Map::empty()
    } else {
        as_map(listing.drop_last()).insert(listing.last().0, listing.last().1)
    }
}

/// The error of the first outcome that is one, if any is.
pub open spec fn first_failure(outcomes: Seq<Outcome>) -> Option<AnalysisError> {
    match outcomes.map_values(|o: Outcome| o is Err).index_of_first(true) {
        Some(i) => Some(outcomes[i]->Err_0),
        None => None,
    }
}

/// The entries that the outcomes carry, in order; meant for outcomes without
/// an error.
pub open spec fn arrivals(outcomes: Seq<Outcome>) -> Listing {
    outcomes.map_values(|o: Outcome| o->Ok_0)
}

/// What a run makes of the outcomes of its tasks, taken in the order in which
/// they come in: the first error ends the run, and without an error the
/// entries are gathered.
pub open spec fn run(outcomes: Seq<Outcome>) -> Result<Listing, AnalysisError> {
    match first_failure(outcomes) {
        Some(e) => Err(e),
        None => Ok(gathered(arrivals(outcomes))),
    }
}

/// The outcome of one task as plain values.
pub open spec fn outcome_view() -> spec_fn(Result<(String, CcResult), AnalysisError>) -> Outcome {
    |o: Result<(String, CcResult), AnalysisError>|
        match o {
            Ok(entry) => Ok((entry.0@, report_view(entry.1@))),
            Err(e) => Err(e),
        }
}

/// One kept entry as plain values.
pub open spec fn entry_view() -> spec_fn((String, CcResult)) -> (Seq<char>, Report) {
    |e: (String, CcResult)| (e.0@, report_view(e.1@))
}

/// The keys of the mapping are the paths of the entries.
pub proof fn lemma_as_map_dom(listing: Listing)
    ensures
        as_map(listing).dom() =~= paths(listing).to_set(),
    decreases listing.len(),
{
    if listing.len() == 0 {
        assert(paths(listing).to_set() =~= Set::<Seq<char>>::empty());
    } else {
        let rest = listing.drop_last();
        lemma_as_map_dom(rest);
        assert(paths(listing) =~= paths(rest).push(listing.last().0));
        paths(rest).lemma_push_to_set_commute(listing.last().0);
    }
}

/// Where no path occurs twice, the mapping holds for each entry's path that
/// entry's report.
pub proof fn lemma_as_map_lookup(listing: Listing, i: int)
    requires
        paths(listing).no_duplicates(),
        0 <= i < listing.len(),
    ensures
        as_map(listing).dom().contains(listing[i].0),
        as_map(listing)[listing[i].0] == listing[i].1,
    decreases listing.len(),
{
    let rest = listing.drop_last();
    if i < listing.len() - 1 {
        assert(paths(rest) =~= paths(listing).drop_last());
        assert(paths(listing)[i] != paths(listing)[listing.len() - 1]);
        lemma_as_map_lookup(rest, i);
    }
}

/// An arrival keeps the paths apart and acts on the mapping as an insertion.
pub proof fn lemma_upsert(listing: Listing, path: Seq<char>, report: Report)
    requires
        paths(listing).no_duplicates(),
    ensures
        paths(upsert(listing, path, report)).no_duplicates(),
        as_map(upsert(listing, path, report)) == as_map(listing).insert(path, report),
{
    let after = upsert(listing, path, report);
    paths(listing).index_of_first_ensures(path);
    match paths(listing).index_of_first(path) {
        Some(i) => {
            assert(paths(after) =~= paths(listing));
            lemma_as_map_dom(listing);
            lemma_as_map_dom(after);
            assert(paths(listing).to_set().contains(path));
            assert forall|k: Seq<char>| as_map(after).dom().contains(k) implies #[trigger] as_map(
                after,
            )[k] == as_map(listing).insert(path, report)[k] by {
                let j = choose|j: int| 0 <= j < paths(after).len() && paths(after)[j] == k;
                lemma_as_map_lookup(after, j);
                lemma_as_map_lookup(listing, j);
                if j != i {
                    assert(paths(listing)[j] != paths(listing)[i]);
                }
            }
            assert(as_map(after) =~= as_map(listing).insert(path, report));
        },
        None => {
            assert(after.drop_last() =~= listing);
            assert(paths(after) =~= paths(listing).push(path));
        },
    }
}

/// Gathering keeps each path once, and the mapping is the one that the
/// arrivals stand for: the last report of a path wins.
pub proof fn lemma_gathered(arrivals: Listing)
    ensures
        paths(gathered(arrivals)).no_duplicates(),
        as_map(gathered(arrivals)) == as_map(arrivals),
    decreases arrivals.len(),
{
    if arrivals.len() > 0 {
        lemma_gathered(arrivals.drop_last());
        lemma_upsert(gathered(arrivals.drop_last()), arrivals.last().0, arrivals.last().1);
    }
}

/// Two sequences with the same items, each as often in one as in the other,
/// have the same members.
pub proof fn lemma_same_members<T>(a: Seq<T>, b: Seq<T>)
    requires
        a.to_multiset() == b.to_multiset(),
    ensures
        a.len() == b.len(),
        forall|x: T| a.contains(x) <==> b.contains(x),
{
    vstd::seq_lib::to_multiset_len(a);
    vstd::seq_lib::to_multiset_len(b);
    assert forall|x: T| a.contains(x) <==> b.contains(x) by {
        vstd::seq_lib::to_multiset_contains(a, x);
        vstd::seq_lib::to_multiset_contains(b, x);
    }
}

/// Where no path occurs twice among entries, none does in a rearrangement of
/// them.
pub proof fn lemma_distinct_paths_transfer<V>(a: Seq<(Seq<char>, V)>, b: Seq<(Seq<char>, V)>)
    requires
        paths(a).no_duplicates(),
        a.to_multiset() == b.to_multiset(),
    ensures
        paths(b).no_duplicates(),
{
    broadcast use vstd::multiset::group_multiset_axioms;

    lemma_same_members(a, b);
    assert(a.no_duplicates()) by {
        assert forall|i: int, j: int| 0 <= i < a.len() && 0 <= j < a.len() && i != j implies a[i]
            != a[j] by {
            assert(paths(a)[i] != paths(a)[j]);
        }
    }
    a.lemma_multiset_has_no_duplicates();
    b.lemma_multiset_has_no_duplicates_conv();
    assert forall|i: int, j: int|
        0 <= i < paths(b).len() && 0 <= j < paths(b).len() && i != j implies paths(b)[i] != paths(
        b,
    )[j] by {
        assert(b[i] != b[j]);
        assert(b.contains(b[i]));
        assert(b.contains(b[j]));
        let p = choose|p: int| 0 <= p < a.len() && a[p] == b[i];
        let q = choose|q: int| 0 <= q < a.len() && a[q] == b[j];
        assert(paths(a)[p] != paths(a)[q]);
    }
}

/// Entries with the same members and no path twice stand for the same mapping.
pub proof fn lemma_as_map_by_members(a: Listing, b: Listing)
    requires
        paths(a).no_duplicates(),
        paths(b).no_duplicates(),
        forall|x: (Seq<char>, Report)| a.contains(x) <==> b.contains(x),
    ensures
        as_map(a) == as_map(b),
{
    lemma_as_map_dom(a);
    lemma_as_map_dom(b);
    assert forall|k: Seq<char>| paths(a).contains(k) implies paths(b).contains(k) && as_map(a)[k]
        == as_map(b)[k] by {
        let i = choose|i: int| 0 <= i < paths(a).len() && paths(a)[i] == k;
        assert(a.contains(a[i]));
        let j = choose|j: int| 0 <= j < b.len() && b[j] == a[i];
        assert(paths(b)[j] == k);
        lemma_as_map_lookup(a, i);
        lemma_as_map_lookup(b, j);
    }
    assert forall|k: Seq<char>| paths(b).contains(k) implies paths(a).contains(k) by {
        let j = choose|j: int| 0 <= j < paths(b).len() && paths(b)[j] == k;
        assert(b.contains(b[j]));
        let i = choose|i: int| 0 <= i < a.len() && a[i] == b[j];
        assert(paths(a)[i] == k);
    }
    assert(paths(a).to_set() =~= paths(b).to_set());
    assert forall|k: Seq<char>| as_map(a).dom().contains(k) implies #[trigger] as_map(a)[k]
        == as_map(b)[k] by {
        assert(paths(a).contains(k));
    }
    assert(as_map(a) =~= as_map(b));
}

/// Arrivals for pairwise different files are kept as they come, one entry
/// each, and the aggregate has exactly as many keys as files came in.
pub proof fn lemma_one_key_per_file(arrivals: Listing)
    requires
        paths(arrivals).no_duplicates(),
    ensures
        gathered(arrivals) == arrivals,
        as_map(gathered(arrivals)).dom().finite(),
        as_map(gathered(arrivals)).dom().len() == arrivals.len(),
    decreases arrivals.len(),
{
    if arrivals.len() > 0 {
        let rest = arrivals.drop_last();
        assert(paths(rest) =~= paths(arrivals).drop_last());
        lemma_one_key_per_file(rest);
        paths(rest).index_of_first_ensures(arrivals.last().0);
        if paths(rest).contains(arrivals.last().0) {
            let last = arrivals.last().0;
            let i = choose|i: int| 0 <= i < paths(rest).len() && paths(rest)[i] == last;
            assert(paths(arrivals)[i] == paths(arrivals)[arrivals.len() - 1]);
        }
        assert(gathered(arrivals) =~= arrivals);
    }
    lemma_as_map_dom(arrivals);
    paths(arrivals).unique_seq_to_set();
    vstd::seq_lib::seq_to_set_is_finite(paths(arrivals));
}

/// The order in which the results of pairwise different files come in does
/// not show in the aggregate: the same arrivals in another order give the same
/// mapping, with the same number of keys.
pub proof fn lemma_arrival_order_is_immaterial(first: Listing, second: Listing)
    requires
        paths(first).no_duplicates(),
        first.to_multiset() == second.to_multiset(),
    ensures
        as_map(gathered(first)) == as_map(gathered(second)),
        as_map(gathered(second)).dom().len() == first.len(),
{
    lemma_same_members(first, second);
    lemma_distinct_paths_transfer(first, second);
    lemma_gathered(first);
    lemma_gathered(second);
    lemma_as_map_by_members(first, second);
    lemma_one_key_per_file(second);
}

/// What the task of a file hands in, as a function of the file's path and
/// text.
pub open spec fn task_outcome() -> spec_fn((Seq<char>, Seq<char>)) -> Outcome {
    |file: (Seq<char>, Seq<char>)|
        match source_analysis(file.1) {
            Ok(report) => Ok((file.0, report)),
            Err(e) => Err(e),
        }
}

/// A run over files, given as path and text in the order in which their tasks
/// finish.
pub open spec fn run_on(files: Seq<(Seq<char>, Seq<char>)>) -> Result<Listing, AnalysisError> {
    run(files.map_values(task_outcome()))
}

/// Running twice over the same files gives the same result, whatever the
/// order in which the tasks finish: both runs fail or neither does, and where
/// they succeed every file has the same report in both.
pub proof fn lemma_rerun_agrees(
    first: Seq<(Seq<char>, Seq<char>)>,
    second: Seq<(Seq<char>, Seq<char>)>,
)
    requires
        paths(first).no_duplicates(),
        first.to_multiset() == second.to_multiset(),
    ensures
        run_on(first) is Ok <==> run_on(second) is Ok,
        run_on(first) is Ok ==> as_map(run_on(first)->Ok_0) == as_map(run_on(second)->Ok_0),
{
    lemma_same_members(first, second);
    lemma_distinct_paths_transfer(first, second);
    lemma_run_on(first);
    lemma_run_on(second);
    if run_on(first) is Ok {
        assert forall|k: int| 0 <= k < second.len() implies source_analysis(second[k].1) is Ok by {
            assert(second.contains(second[k]));
        }
    }
    if run_on(second) is Ok {
        assert forall|k: int| 0 <= k < first.len() implies source_analysis(first[k].1) is Ok by {
            assert(first.contains(first[k]));
        }
    }
    if run_on(first) is Ok {
        let a = arrivals(first.map_values(task_outcome()));
        let b = arrivals(second.map_values(task_outcome()));
        assert(paths(a) =~= paths(first));
        assert(paths(b) =~= paths(second));
        assert forall|x: (Seq<char>, Report)| a.contains(x) <==> b.contains(x) by {
            if a.contains(x) {
                let i = choose|i: int| 0 <= i < a.len() && a[i] == x;
                assert(first.contains(first[i]));
                let j = choose|j: int| 0 <= j < second.len() && second[j] == first[i];
                assert(b[j] == x);
            }
            if b.contains(x) {
                let j = choose|j: int| 0 <= j < b.len() && b[j] == x;
                assert(second.contains(second[j]));
                let i = choose|i: int| 0 <= i < first.len() && first[i] == second[j];
                assert(a[i] == x);
            }
        }
        lemma_gathered(a);
        lemma_gathered(b);
        lemma_as_map_by_members(a, b);
    }
}

/// A run succeeds exactly where every file's analysis does, and then gathers
/// the entries of all files.
pub proof fn lemma_run_on(files: Seq<(Seq<char>, Seq<char>)>)
    ensures
        run_on(files) is Ok <==> forall|k: int|
            0 <= k < files.len() ==> source_analysis(#[trigger] files[k].1) is Ok,
        run_on(files) is Ok ==> run_on(files)->Ok_0 == gathered(
            arrivals(files.map_values(task_outcome())),
        ),
{
    let outcomes = files.map_values(task_outcome());
    let failed = outcomes.map_values(|o: Outcome| o is Err);
    failed.index_of_first_ensures(true);
    if run_on(files) is Ok {
        assert forall|k: int| 0 <= k < files.len() implies source_analysis(
            #[trigger] files[k].1,
        ) is Ok by {
            assert(!failed.contains(true));
            assert(failed[k] == (outcomes[k] is Err));
        }
    } else {
        let i = failed.index_of_first(true)->Some_0;
        assert(failed[i]);
        assert(source_analysis(files[i].1) is Err);
    }
}

/// The results of a run, by file path.
pub struct FileCcCalculator(Vec<(String, CcResult)>);

impl View for FileCcCalculator {
    type V = Map<Seq<char>, Report>;

    open spec fn view(&self) -> Map<Seq<char>, Report> {
        as_map(self.listing())
    }
}

impl FileCcCalculator {
    /// The entries as plain values, in the order in which they are kept.
    pub closed spec fn listing(&self) -> Listing {
        self.0@.map_values(entry_view())
    }

    /// No path is kept twice.
    #[verifier::type_invariant]
    pub open spec fn wf(&self) -> bool {
        paths(self.listing()).no_duplicates()
    }

    /// The mapping is the one that the listing stands for; it has a key for
    /// each entry.
    pub proof fn lemma_view(&self)
        requires
            self.wf(),
        ensures
            self@ == as_map(self.listing()),
            self@.dom() == paths(self.listing()).to_set(),
            self@.dom().finite(),
            self@.dom().len() == self.listing().len(),
    {
        lemma_as_map_dom(self.listing());
        paths(self.listing()).unique_seq_to_set();
        vstd::seq_lib::seq_to_set_is_finite(paths(self.listing()));
    }

    /// An aggregate without entries.
    pub fn new() -> (out: Self)
        ensures
            out.wf(),
            out.listing() == Seq::<(Seq<char>, Report)>::empty(),
            out@ == Map::<Seq<char>, Report>::empty(),
    {
        let out = FileCcCalculator(Vec::new());
        assert(out.listing() =~= Seq::<(Seq<char>, Report)>::empty());
        out
    }

    /// The number of files in the aggregate.
    pub fn len(&self) -> (n: usize)
        ensures
            n == self.listing().len(),
            n == self@.dom().len(),
    {
        proof {
            use_type_invariant(self);
            self.lemma_view();
        }
        self.0.len()
    }

    /// Where `path` is kept: the index of its entry.
    fn position(&self, path: &str) -> (out: Option<usize>)
        ensures
            match out {
                Some(i) => paths(self.listing()).index_of_first(path@) == Some(i as int) && i
                    < self.0@.len(),
                None => paths(self.listing()).index_of_first(path@) is None,
            },
    {
        let ghost keys = paths(self.listing());
        let n = self.0.len();
        let mut i: usize = 0;
        while i < n
            invariant
                i <= n,
                n == self.0@.len(),
                keys == paths(self.listing()),
                forall|k: int| 0 <= k < i ==> keys[k] != path@,
            decreases n - i,
        {
            if crate::text::same_text(self.0[i].0.as_str(), path) {
                proof {
                    assert(keys[i as int] == path@);
                    keys.index_of_first_ensures(path@);
                }
                return Some(i);
            }
            i += 1;
        }
        proof {
            keys.index_of_first_ensures(path@);
        }
        None
    }

    /// The report kept for `path`.
    pub fn get(&self, path: &str) -> (out: Option<&CcResult>)
        ensures
            match out {
                Some(report) => self@.dom().contains(path@) && self@[path@] == report_view(
                    report@,
                ),
                None => !self@.dom().contains(path@),
            },
    {
        proof {
            use_type_invariant(self);
            self.lemma_view();
            paths(self.listing()).index_of_first_ensures(path@);
        }
        match self.position(path) {
            Some(i) => {
                proof {
                    lemma_as_map_lookup(self.listing(), i as int);
                }
                Some(&self.0[i].1)
            },
            None => None,
        }
    }

    /// Takes in the result of one file. A result that was kept for the same
    /// path is replaced.
    pub fn insert(&mut self, file_name: String, result: CcResult)
        ensures
            final(self).wf(),
            final(self).listing() == upsert(old(self).listing(), file_name@, report_view(result@)),
            final(self)@ == old(self)@.insert(file_name@, report_view(result@)),
    {
        proof {
            use_type_invariant(&*self);
            lemma_upsert(self.listing(), file_name@, report_view(result@));
        }
        let at = self.position(file_name.as_str());
        let mut entries: Vec<(String, CcResult)> = Vec::new();
        core::mem::swap(&mut self.0, &mut entries);
        match at {
            Some(i) => {
                entries.set(i, (file_name, result));
            },
            None => {
                entries.push((file_name, result));
            },
        }
        proof {
            let before = old(self).listing();
            let entry = (file_name@, report_view(result@));
            match at {
                Some(i) => {
                    assert(entries@.map_values(entry_view()) =~= before.update(i as int, entry));
                },
                None => {
                    assert(entries@.map_values(entry_view()) =~= before.push(entry));
                },
            }
        }
        self.0 = entries;
    }

    /// The task of one file: analyses the text `src` of the file `file_name`
    /// and pairs the report with the file's name.
    pub fn single_file_cc(file_name: String, src: &str) -> (out: Result<
        (String, CcResult),
        AnalysisError,
    >)
        ensures
            match out {
                Ok(entry) => {
                    &&& entry.0@ == file_name@
                    &&& source_analysis(src@) == Ok::<Report, AnalysisError>(
                        report_view(entry.1@),
                    )
                    &&& scores_positive(entry.1@)
                },
                Err(e) => source_analysis(src@) == Err::<Report, AnalysisError>(e),
            },
    {
        match analyze_source(src) {
            Ok(cc) => Ok((file_name, cc)),
            Err(e) => Err(e),
        }
    }

    /// Gathers the outcomes of the tasks of a run, in the order in which they
    /// came in. The first error ends the run and nothing is kept; without an
    /// error each file has one entry, which holds its last result, so that a
    /// run over pairwise different files has as many keys as files.
    pub fn process_files(outcomes: Vec<Result<(String, CcResult), AnalysisError>>) -> (out: Result<
        Self,
        AnalysisError,
    >)
        ensures
            match out {
                Ok(aggregate) => {
                    &&& aggregate.wf()
                    &&& run(outcomes@.map_values(outcome_view())) == Ok::<Listing, AnalysisError>(
                        aggregate.listing(),
                    )
                    &&& aggregate@ == as_map(arrivals(outcomes@.map_values(outcome_view())))
                    &&& paths(arrivals(outcomes@.map_values(outcome_view()))).no_duplicates()
                        ==> aggregate@.dom().len() == outcomes@.len()
                },
                Err(e) => run(outcomes@.map_values(outcome_view())) == Err::<
                    Listing,
                    AnalysisError,
                >(e),
            },
    {
        let mut aggregate = FileCcCalculator::new();
        let ghost all = outcomes@.map_values(outcome_view());
        let ghost failed = all.map_values(|o: Outcome| o is Err);
        proof {
            assert(arrivals(all.take(0)) =~= Seq::<(Seq<char>, Report)>::empty());
        }
        for outcome in it: outcomes.into_iter()
            invariant
                aggregate.wf(),
                it.seq() == outcomes@,
                all == outcomes@.map_values(outcome_view()),
                failed == all.map_values(|o: Outcome| o is Err),
                forall|k: int| 0 <= k < it.index() ==> !failed[k],
                aggregate.listing() == gathered(arrivals(all.take(it.index() as int))),
        {
            let ghost i = it.index() as int;
            proof {
                assert(all[i] == outcome_view()(outcome));
                assert(arrivals(all.take(i + 1)).drop_last() =~= arrivals(all.take(i)));
            }
            match outcome {
                Ok((file_name, result)) => {
                    aggregate.insert(file_name, result);
                },
                Err(e) => {
                    proof {
                        assert(failed[i]);
                        failed.index_of_first_ensures(true);
                    }
                    return Err(e);
                },
            }
        }
        proof {
            failed.index_of_first_ensures(true);
            assert(all.take(all.len() as int) =~= all);
            lemma_gathered(arrivals(all));
            aggregate.lemma_view();
            if paths(arrivals(all)).no_duplicates() {
                lemma_one_key_per_file(arrivals(all));
            }
        }
        Ok(aggregate)
    }

    /// Hands out the entries, in the order of the listing.
    pub fn into_entries(self) -> (entries: Vec<(String, CcResult)>)
        ensures
            entries@.map_values(entry_view()) == self.listing(),
    {
        self.0
    }

    /// The aggregate as text: the block of each file, in the order of the
    /// listing.
    pub fn display(&self) -> (text: String)
        ensures
            text@ == rendered(self.listing()),
    {
        let mut string = String::new();
        let ghost all = self.listing();
        let n = self.0.len();
        let mut i: usize = 0;
        proof {
            assert(all.take(0) =~= Seq::<(Seq<char>, Report)>::empty());
            assert(string@ =~= all.take(0).flat_map(crate::render::file_block()));
        }
        while i < n
            invariant
                i <= n,
                n == self.0@.len(),
                all == self.listing(),
                string@ == all.take(i as int).flat_map(crate::render::file_block()),
            decreases n - i,
        {
            proof {
                all.lemma_flat_map_take_append(crate::render::file_block(), i as int);
            }
            push_file(&mut string, self.0[i].0.as_str(), &self.0[i].1);
            i += 1;
        }
        proof {
            assert(all.take(n as int) =~= all);
        }
        string
    }
}

} // verus!
