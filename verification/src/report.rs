//! Reports of what differs between files.
use crate::text;
use vstd::prelude::*;

verus! {

/// What differs.
#[derive(Debug)]
pub enum DiffValues {
    /// One value for each file.
    PerObject(Vec<String>),
}

/// A difference between files.
#[derive(Debug)]
pub struct Diff {
    pub key: String,
    pub values: DiffValues,
}

/// What differs between files.
#[derive(Debug)]
pub struct Report {
    pub diffs: Vec<Diff>,
}

/// What differs between files, and which files they are.
#[derive(Debug)]
pub struct FileReport<P> {
    /// The names under which the files are shown.
    pub names: Vec<String>,
    /// Where the files are.
    pub paths: Vec<P>,
    /// Whether it is recorded which parts of the files were compared.
    pub coverage: bool,
    pub report: Report,
}

/// Model of a difference between files: what it is about, and one value for each file.
#[verifier::ext_equal]
pub struct DiffView {
    pub key: Seq<char>,
    pub values: Seq<Seq<char>>,
}

impl View for Diff {
    type V = DiffView;

    open spec fn view(&self) -> DiffView {
        DiffView {
            key: self.key@,
            values: match self.values {
                DiffValues::PerObject(values) => text::texts(values@),
            },
        }
    }
}

impl View for Report {
    type V = Seq<DiffView>;

    open spec fn view(&self) -> Seq<DiffView> {
        Seq::new(self.diffs@.len(), |k: int| self.diffs@[k]@)
    }
}

impl Report {
    /// Returns a report without differences.
    pub fn new() -> (report: Report)
        ensures
            report@ == Seq::<DiffView>::empty(),
    {
        let report = Report { diffs: Vec::new() };
        assert(report@ =~= Seq::<DiffView>::empty());
        report
    }

    /// Adds a difference.
    pub fn add_diff(&mut self, diff: Diff)
        ensures
            final(self)@ == old(self)@.push(diff@),
    {
        let ghost before = self@;
        self.diffs.push(diff);
        assert(self@ =~= before.push(diff@));
    }
}

/// Whether the first value occurs again.
pub open spec fn first_recurs(values: Seq<Seq<char>>) -> bool {
    exists|k: int| 1 <= k < values.len() && #[trigger] values[k] == values[0]
}

/// Returns whether the first value is equal to any of the others.
pub fn first_equals_any(values: &Vec<String>) -> (r: bool)
    requires
        values@.len() > 0,
    ensures
        r == first_recurs(text::texts(values@)),
{
    let ghost all = text::texts(values@);
    let mut k: usize = 1;
    while k < values.len()
        invariant
            1 <= k <= values@.len(),
            all == text::texts(values@),
            forall|l: int| 1 <= l < k ==> #[trigger] all[l] != all[0],
        decreases values@.len() - k,
    {
        assert(all[k as int] == values@[k as int]@);
        assert(all[0] == values@[0]@);
        if values[k] == values[0] {
            return true;
        }
        k += 1;
    }
    false
}

/// The report with a difference for the values, unless the first of them occurs again.
pub open spec fn with_values(report: Seq<DiffView>, key: Seq<char>, values: Seq<Seq<char>>) -> Seq<
    DiffView,
> {
    if first_recurs(values) {
        report
    } else {
        report.push(DiffView { key, values })
    }
}

/// Adds a difference for the values, unless the first of them is equal to any of the others.
pub fn report_values(report: &mut Report, key: &str, values: Vec<String>)
    requires
        values@.len() > 0,
    ensures
        final(report)@ == with_values(old(report)@, key@, text::texts(values@)),
{
    if first_equals_any(&values) {
        return ;
    }
    report.add_diff(Diff { key: key.to_owned(), values: DiffValues::PerObject(values) });
}

// ---- differences that are kept ----

/// Whether this is an answer of the function to whether differences with the key are kept.
pub open spec fn is_answer<K: Fn(&str) -> bool>(keeps: K, key: Seq<char>, answer: bool) -> bool {
    exists|text: &str| text@ == key && #[trigger] call_ensures(keeps, (text,), answer)
}

/// Whether these are answers of the function for the differences.
pub open spec fn are_answers<K: Fn(&str) -> bool>(
    keeps: K,
    diffs: Seq<DiffView>,
    answers: Seq<bool>,
) -> bool {
    &&& answers.len() == diffs.len()
    &&& forall|k: int|
        0 <= k < diffs.len() ==> is_answer(keeps, #[trigger] diffs[k].key, answers[k])
}

/// Those of the first `n` differences for which the answer was yes.
pub open spec fn kept(diffs: Seq<DiffView>, answers: Seq<bool>, n: int) -> Seq<DiffView>
    decreases n,
{
    if n <= 0 {
        Seq::empty()
    } else if answers[n - 1] {
        kept(diffs, answers, n - 1).push(diffs[n - 1])
    } else {
        kept(diffs, answers, n - 1)
    }
}

/// Whether the second report holds those differences of the first, in their order, for which the
/// function answers that they are kept.
pub open spec fn is_kept_part<K: Fn(&str) -> bool>(
    keeps: K,
    diffs: Seq<DiffView>,
    part: Seq<DiffView>,
) -> bool {
    exists|answers: Seq<bool>| #[trigger]
        are_answers(keeps, diffs, answers) && part == kept(diffs, answers, diffs.len() as int)
}

/// Whether the function can be asked for each of the differences.
pub open spec fn can_be_asked<K: Fn(&str) -> bool>(keeps: K, diffs: Seq<DiffView>) -> bool {
    forall|k: int, key: &str|
        0 <= k < diffs.len() && key@ == (#[trigger] diffs[k]).key ==> #[trigger] call_requires(
            keeps,
            (key,),
        )
}

/// Only answers for the first `n` differences count for which of them are kept.
proof fn lemma_kept(diffs: Seq<DiffView>, a: Seq<bool>, b: Seq<bool>, n: int)
    requires
        0 <= n <= diffs.len(),
        n <= a.len(),
        n <= b.len(),
        forall|k: int| 0 <= k < n ==> #[trigger] a[k] == b[k],
    ensures
        kept(diffs, a, n) == kept(diffs, b, n),
    decreases n,
{
    if n > 0 {
        lemma_kept(diffs, a, b, n - 1);
        let _ = a[n - 1];
    }
}

impl Report {
    /// Leaves out the differences that are not to be kept.
    pub fn keep<K: Fn(&str) -> bool>(&mut self, keeps: &K)
        requires
            can_be_asked(*keeps, old(self)@),
        ensures
            is_kept_part(*keeps, old(self)@, final(self)@),
    {
        let ghost all = self@;
        let ghost mut answers: Seq<bool> = Seq::empty();
        let mut k: usize = 0;
        assert(self@ =~= kept(all, answers, 0) + all);
        while k < self.diffs.len()
            invariant
                k <= self.diffs@.len(),
                can_be_asked(*keeps, all),
                answers.len() <= all.len(),
                k == kept(all, answers, answers.len() as int).len(),
                self@ == kept(all, answers, answers.len() as int) + all.skip(
                    answers.len() as int,
                ),
                forall|l: int|
                    0 <= l < answers.len() ==> is_answer(
                        *keeps,
                        #[trigger] all[l].key,
                        answers[l],
                    ),
            decreases self.diffs@.len() - k,
        {
            let ghost n = answers.len() as int;
            let ghost before = answers;
            let ghost held = self@;
            let key = self.diffs[k].key.as_str();
            assert(held[k as int] == self.diffs@[k as int]@);
            assert(held[k as int] == all.skip(n)[0]);
            assert(key@ == all[n].key);
            let answer = keeps(key);
            proof {
                assert(is_answer(*keeps, all[n].key, answer));
                answers = answers.push(answer);
                lemma_kept(all, before, answers, n);
                assert(all.skip(n) =~= seq![all[n]] + all.skip(n + 1));
            }
            if answer {
                k += 1;
                assert(self@ =~= kept(all, answers, n + 1) + all.skip(n + 1));
            } else {
                self.diffs.remove(k);
                assert(self@ =~= held.remove(k as int));
                assert(self@ =~= kept(all, answers, n + 1) + all.skip(n + 1));
            }
        }
        proof {
            assert(self@.len() == self.diffs@.len());
            assert(answers.len() == all.len());
            assert(self@ =~= kept(all, answers, all.len() as int));
            assert(are_answers(*keeps, all, answers));
        }
    }
}

} // verus!
