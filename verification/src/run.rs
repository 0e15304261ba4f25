//! A comparison run, as a machine that asks for files and takes their bytes.
//!
//! The run reads nothing itself. It is started on the names found in the
//! working directory and in the baseline directory, then says which file it
//! wants next and is fed the bytes of that file, until it wants no more and
//! gives its verdict.

use crate::binary32::{exceeds, greater, value, INFINITY};
use crate::difference::{max_abs_diff, max_difference};
use crate::names::{is_band_file, is_band_file_name, is_listed};
use crate::samples::{decode_samples, decoded};
use vstd::prelude::*;

verus! {

/// What a run does when a file or a pair of files is not as it should be.
#[derive(Clone, Copy, Debug, PartialEq, Eq, Structural)]
pub enum Policy {
    /// The run ends at once with the anomaly as its error.
    Fail,
    /// The anomaly is reported, the file or pair is left out, and the run
    /// goes on with the rest.
    WarnAndSkip,
}

/// The two directories that a pair of files comes from.
#[derive(Clone, Copy, Debug, PartialEq, Eq, Structural)]
pub enum Side {
    Present,
    Baseline,
}

/// What can be wrong with the directories and the files of a run. `file` is
/// the place of the present file's name in the listing that the run was
/// started on.
#[derive(Clone, Copy, Debug, PartialEq, Eq, Structural)]
pub enum Anomaly {
    /// There is no baseline directory.
    MissingBaselineDir,
    /// No name in the working directory is that of a band file.
    NoPresentFiles,
    /// The baseline directory has no file of the same name.
    MissingBaseline { file: usize },
    /// The bytes of the file do not come in whole groups of four.
    InvalidByteCount { file: usize, side: Side },
    /// The file holds no samples.
    EmptyFile { file: usize, side: Side },
    /// The two files hold different numbers of samples.
    LengthMismatch { file: usize },
}

/// A file whose bytes the run wants next.
#[derive(Clone, Copy, Debug, PartialEq, Eq, Structural)]
pub struct Request {
    pub side: Side,
    pub file: usize,
}

/// What feeding a run has done.
#[derive(Clone, Copy, Debug, PartialEq, Eq, Structural)]
pub enum Report {
    /// The run wanted nothing, and nothing has changed.
    Idle,
    /// The present file was taken in; its baseline file is wanted next.
    Loaded,
    /// A pair was compared: `biggest` is its largest absolute difference.
    Compared { file: usize, biggest: u32 },
    /// The pair was left out because of the anomaly.
    Skipped(Anomaly),
}

/// How a run ended.
#[derive(Clone, Copy, Debug, PartialEq, Eq, Structural)]
pub struct Verdict {
    /// The largest absolute difference over all pairs compared.
    pub max_diff: u32,
    /// Whether that difference is greater than the tolerance.
    pub exceeded: bool,
}

impl Verdict {
    /// The status for the process to end with: 0 where the difference is
    /// within the tolerance, 1 where it is not.
    pub fn exit_code(&self) -> (code: i32)
        ensures
            code == if self.exceeded { 1i32 } else { 0i32 },
    {
        if self.exceeded {
            1
        } else {
            0
        }
    }
}

/// The state of a run.
pub struct RunView {
    pub policy: Policy,
    /// The present files to compare, by their places in the listing.
    pub files: Seq<usize>,
    /// How many of them are done with.
    pub position: nat,
    /// The samples of the present file, once taken in, while the baseline
    /// file is awaited.
    pub pending: Option<Seq<u32>>,
    /// The largest absolute difference so far.
    pub max_diff: u32,
}

/// A comparison run. What it holds is told by its view.
#[derive(Debug)]
pub struct Run {
    policy: Policy,
    files: Vec<usize>,
    position: usize,
    pending: Option<Vec<u32>>,
    max_diff: u32,
}

impl View for Run {
    type V = RunView;

    closed spec fn view(&self) -> RunView {
        RunView {
            policy: self.policy,
            files: self.files@,
            position: self.position as nat,
            pending: match self.pending {
                Some(samples) => Some(samples@),
                None => None,
            },
            max_diff: self.max_diff,
        }
    }
}

/// Whether the name at place `i` of `present` is that of a band file.
pub open spec fn is_candidate(present: Seq<Seq<char>>, i: int) -> bool {
    is_band_file_name(present[i])
}

/// The places among the first `n` of `present` that hold the name of a band
/// file which `baseline` names too (`with_baseline`), or does not name.
pub open spec fn selected_among(
    present: Seq<Seq<char>>,
    baseline: Seq<Seq<char>>,
    with_baseline: bool,
    n: nat,
) -> Seq<usize>
    decreases n,
{
    if n == 0 {
        Seq::empty()
    } else {
        let before = selected_among(present, baseline, with_baseline, (n - 1) as nat);
        if is_candidate(present, n - 1) && baseline.contains(present[n - 1]) == with_baseline {
            before.push((n - 1) as usize)
        } else {
            before
        }
    }
}

/// The band files of `present` that have a baseline file, by their places,
/// in order.
pub open spec fn matched(present: Seq<Seq<char>>, baseline: Seq<Seq<char>>) -> Seq<usize> {
    selected_among(present, baseline, true, present.len())
}

/// The band files of `present` that have no baseline file, by their places,
/// in order.
pub open spec fn missing(present: Seq<Seq<char>>, baseline: Seq<Seq<char>>) -> Seq<usize> {
    selected_among(present, baseline, false, present.len())
}

/// One anomaly for each band file that has no baseline file.
pub open spec fn missing_baselines(files: Seq<usize>) -> Seq<Anomaly> {
    files.map_values(|file: usize| Anomaly::MissingBaseline { file })
}

/// Why no run starts on the given listings, if none does. Without a
/// baseline directory none ever starts. Under `Policy::Fail` none starts
/// while a band file lacks its baseline file, the first such file being
/// named, and none where there is no band file at all.
pub open spec fn refusal(
    baseline_dir_found: bool,
    present: Seq<Seq<char>>,
    baseline: Seq<Seq<char>>,
    policy: Policy,
) -> Option<Anomaly> {
    if !baseline_dir_found {
        Some(Anomaly::MissingBaselineDir)
    } else if policy == Policy::WarnAndSkip {
        None
    } else if missing(present, baseline).len() > 0 {
        Some(Anomaly::MissingBaseline { file: missing(present, baseline)[0] })
    } else if matched(present, baseline).len() == 0 {
        Some(Anomaly::NoPresentFiles)
    } else {
        None
    }
}

/// The state in which a run starts on the given listings.
pub open spec fn initial(
    present: Seq<Seq<char>>,
    baseline: Seq<Seq<char>>,
    policy: Policy,
) -> RunView {
    RunView {
        policy,
        files: matched(present, baseline),
        position: 0,
        pending: None,
        max_diff: 0,
    }
}

/// The file that a run in state `s` wants next, if any.
pub open spec fn wanted_in(s: RunView) -> Option<Request> {
    if s.position >= s.files.len() {
        None
    } else {
        Some(
            Request {
                side: if s.pending is None {
                    Side::Present
                } else {
                    Side::Baseline
                },
                file: s.files[s.position as int],
            },
        )
    }
}

/// The state after the file in hand was given up.
pub open spec fn past_current(s: RunView) -> RunView {
    RunView { position: s.position + 1, pending: None, ..s }
}

/// What an anomaly leads to in state `s`.
pub open spec fn met(s: RunView, anomaly: Anomaly) -> Result<(RunView, Report), Anomaly> {
    match s.policy {
        Policy::Fail => Err(anomaly),
        Policy::WarnAndSkip => Ok((past_current(s), Report::Skipped(anomaly))),
    }
}

/// The larger of two magnitudes.
pub open spec fn larger(a: u32, b: u32) -> u32 {
    if a >= b {
        a
    } else {
        b
    }
}

/// What feeding `bytes` to a run in state `s` leads to. A file is looked at
/// in this order: its bytes must come in groups of four, it must hold a
/// sample, and a baseline file must hold as many as its present file.
pub open spec fn fed(s: RunView, bytes: Seq<u8>) -> Result<(RunView, Report), Anomaly> {
    match wanted_in(s) {
        None => Ok((s, Report::Idle)),
        Some(Request { side, file }) => {
            if bytes.len() % 4 != 0 {
                met(s, Anomaly::InvalidByteCount { file, side })
            } else if bytes.len() == 0 {
                met(s, Anomaly::EmptyFile { file, side })
            } else {
                match s.pending {
                    None => Ok((RunView { pending: Some(decoded(bytes)), ..s }, Report::Loaded)),
                    Some(present) => {
                        if present.len() != decoded(bytes).len() {
                            met(s, Anomaly::LengthMismatch { file })
                        } else {
                            let biggest = max_difference(present, decoded(bytes));
                            Ok(
                                (
                                    RunView {
                                        max_diff: larger(s.max_diff, biggest),
                                        ..past_current(s)
                                    },
                                    Report::Compared { file, biggest },
                                ),
                            )
                        }
                    },
                }
            }
        },
    }
}

/// The verdict of a run in state `s`, once it wants no more files.
pub open spec fn finished(s: RunView, tolerance: u32) -> Option<Verdict> {
    if wanted_in(s) is None {
        Some(Verdict { max_diff: s.max_diff, exceeded: greater(s.max_diff, tolerance) })
    } else {
        None
    }
}

/// How many files a run in state `s` may still ask for.
pub open spec fn feeds_left(s: RunView) -> nat {
    if s.position >= s.files.len() {
        0
    } else if s.pending is Some {
        (2 * (s.files.len() - s.position) - 1) as nat
    } else {
        (2 * (s.files.len() - s.position)) as nat
    }
}

/// A run that wants a file and is fed it comes nearer to its end, unless it
/// ends there with an anomaly. Its files and its policy stay as they are,
/// and its largest difference never goes down.
pub proof fn lemma_feed_advances(s: RunView, bytes: Seq<u8>)
    requires
        wanted_in(s) is Some,
    ensures
        fed(s, bytes) matches Ok((t, _)) ==> {
            &&& feeds_left(t) < feeds_left(s)
            &&& t.files == s.files
            &&& t.policy == s.policy
            &&& t.max_diff >= s.max_diff
        },
        fed(s, bytes) is Err ==> s.policy == Policy::Fail,
{
}

/// A run that wants no file has none left to ask for, and the other way
/// round.
pub proof fn lemma_done_when_nothing_left(s: RunView)
    ensures
        wanted_in(s) is None <==> feeds_left(s) == 0,
{
}

/// What is selected among the first `n` names: places below `n`, in rising
/// order, each of a band file with or without its baseline file as asked,
/// and every such place.
proof fn lemma_selected_among(
    present: Seq<Seq<char>>,
    baseline: Seq<Seq<char>>,
    with_baseline: bool,
    n: nat,
)
    requires
        n <= present.len() <= usize::MAX,
    ensures
        forall|k: int|
            0 <= k < selected_among(present, baseline, with_baseline, n).len() ==> {
                let file = #[trigger] selected_among(present, baseline, with_baseline, n)[k];
                &&& file < n
                &&& is_candidate(present, file as int)
                &&& baseline.contains(present[file as int]) == with_baseline
            },
        forall|j: int, k: int|
            0 <= j < k < selected_among(present, baseline, with_baseline, n).len()
                ==> #[trigger] selected_among(present, baseline, with_baseline, n)[j]
                < #[trigger] selected_among(present, baseline, with_baseline, n)[k],
        forall|i: int|
            0 <= i < n && #[trigger] is_candidate(present, i) && baseline.contains(present[i])
                == with_baseline ==> selected_among(present, baseline, with_baseline, n).contains(
                i as usize,
            ),
    decreases n,
{
    if n > 0 {
        let before = selected_among(present, baseline, with_baseline, (n - 1) as nat);
        let now = selected_among(present, baseline, with_baseline, n);
        lemma_selected_among(present, baseline, with_baseline, (n - 1) as nat);
        assert forall|i: int|
            0 <= i < n && #[trigger] is_candidate(present, i) && baseline.contains(present[i])
                == with_baseline implies now.contains(i as usize) by {
            if i < n - 1 {
                let k = choose|k: int| 0 <= k < before.len() && before[k] == i as usize;
                assert(now[k] == i as usize);
            } else {
                assert(now[now.len() - 1] == i as usize);
            }
        }
    }
}

/// What is selected among the first names stays first among more names.
proof fn lemma_selection_grows(
    present: Seq<Seq<char>>,
    baseline: Seq<Seq<char>>,
    with_baseline: bool,
    n: nat,
    m: nat,
)
    requires
        n <= m,
    ensures
        selected_among(present, baseline, with_baseline, n).len() <= selected_among(
            present,
            baseline,
            with_baseline,
            m,
        ).len(),
        forall|k: int|
            0 <= k < selected_among(present, baseline, with_baseline, n).len() ==> selected_among(
                present,
                baseline,
                with_baseline,
                m,
            )[k] == selected_among(present, baseline, with_baseline, n)[k],
    decreases m,
{
    if n < m {
        lemma_selection_grows(present, baseline, with_baseline, n, (m - 1) as nat);
    }
}

/// A run compares exactly the band files of the working directory that have
/// a baseline file, each once, in the order of the listing.
pub proof fn lemma_matched_files(present: Seq<Seq<char>>, baseline: Seq<Seq<char>>)
    requires
        present.len() <= usize::MAX,
    ensures
        forall|k: int|
            0 <= k < matched(present, baseline).len() ==> {
                let file = #[trigger] matched(present, baseline)[k];
                &&& file < present.len()
                &&& is_candidate(present, file as int)
                &&& baseline.contains(present[file as int])
            },
        forall|j: int, k: int|
            0 <= j < k < matched(present, baseline).len() ==> #[trigger] matched(
                present,
                baseline,
            )[j] < #[trigger] matched(present, baseline)[k],
        forall|i: int|
            0 <= i < present.len() && #[trigger] is_candidate(present, i) && baseline.contains(
                present[i],
            ) ==> matched(present, baseline).contains(i as usize),
{
    lemma_selected_among(present, baseline, true, present.len());
}

/// The band files that are reported as missing their baseline file are
/// exactly those of the working directory that have none, each once, in the
/// order of the listing.
pub proof fn lemma_missing_files(present: Seq<Seq<char>>, baseline: Seq<Seq<char>>)
    requires
        present.len() <= usize::MAX,
    ensures
        forall|k: int|
            0 <= k < missing(present, baseline).len() ==> {
                let file = #[trigger] missing(present, baseline)[k];
                &&& file < present.len()
                &&& is_candidate(present, file as int)
                &&& !baseline.contains(present[file as int])
            },
        forall|j: int, k: int|
            0 <= j < k < missing(present, baseline).len() ==> #[trigger] missing(
                present,
                baseline,
            )[j] < #[trigger] missing(present, baseline)[k],
        forall|i: int|
            0 <= i < present.len() && #[trigger] is_candidate(present, i) && !baseline.contains(
                present[i],
            ) ==> missing(present, baseline).contains(i as usize),
{
    lemma_selected_among(present, baseline, false, present.len());
}

/// Under `Policy::Fail` no run starts while a band file in the working
/// directory lacks a baseline file of the same name: the start is refused,
/// and the refusal names the first such file.
pub proof fn lemma_missing_baseline_refuses(
    present: Seq<Seq<char>>,
    baseline: Seq<Seq<char>>,
    i: int,
)
    requires
        0 <= i < present.len() <= usize::MAX,
        is_candidate(present, i),
        !baseline.contains(present[i]),
    ensures
        refusal(true, present, baseline, Policy::Fail) matches Some(
            Anomaly::MissingBaseline { file },
        ) && file <= i && is_candidate(present, file as int) && !baseline.contains(
            present[file as int],
        ),
{
    lemma_missing_files(present, baseline);
    let files = missing(present, baseline);
    let k = choose|k: int| 0 <= k < files.len() && files[k] == i as usize;
    assert(files[0] <= files[k]);
}

/// A run that ends with its largest difference equal to the tolerance has
/// not exceeded it: only a greater difference does.
pub proof fn lemma_tolerance_itself_passes(s: RunView, tolerance: u32)
    requires
        wanted_in(s) is None,
        value(s.max_diff) == value(tolerance),
    ensures
        finished(s, tolerance) == Some(Verdict { max_diff: s.max_diff, exceeded: false }),
{
}

impl Run {
    #[verifier::type_invariant]
    spec fn well_formed(self) -> bool {
        &&& self.position <= self.files.len()
        &&& self.pending is Some ==> self.position < self.files.len()
        &&& self.max_diff <= INFINITY
    }

    /// Starts a run on the names found in the working directory (`present`)
    /// and in the baseline directory (`baseline`). Names that are not those
    /// of band files are passed over. With the run come the anomalies that
    /// `Policy::WarnAndSkip` let pass: one for each band file without a
    /// baseline file, which the run then leaves out.
    pub fn start(
        baseline_dir_found: bool,
        present: &Vec<String>,
        baseline: &Vec<String>,
        policy: Policy,
    ) -> (r: Result<(Run, Vec<Anomaly>), Anomaly>)
        ensures
            match r {
                Ok((run, warnings)) => {
                    &&& refusal(
                        baseline_dir_found,
                        present.deep_view(),
                        baseline.deep_view(),
                        policy,
                    ) is None
                    &&& run@ == initial(present.deep_view(), baseline.deep_view(), policy)
                    &&& warnings@ == missing_baselines(
                        missing(present.deep_view(), baseline.deep_view()),
                    )
                },
                Err(anomaly) => refusal(
                    baseline_dir_found,
                    present.deep_view(),
                    baseline.deep_view(),
                    policy,
                ) == Some(anomaly),
            },
    {
        if !baseline_dir_found {
            return Err(Anomaly::MissingBaselineDir);
        }
        let ghost names = present.deep_view();
        let ghost others = baseline.deep_view();
        let mut files: Vec<usize> = Vec::new();
        let mut warnings: Vec<Anomaly> = Vec::new();
        let mut i: usize = 0;
        while i < present.len()
            invariant
                baseline_dir_found,
                i <= present.len(),
                names == present.deep_view(),
                others == baseline.deep_view(),
                files@ == selected_among(names, others, true, i as nat),
                warnings@ == missing_baselines(selected_among(names, others, false, i as nat)),
                policy == Policy::Fail ==> warnings@.len() == 0,
            decreases present.len() - i,
        {
            if is_band_file(present[i].as_str()) {
                if is_listed(baseline, &present[i]) {
                    files.push(i);
                } else {
                    let anomaly = Anomaly::MissingBaseline { file: i };
                    match policy {
                        Policy::Fail => {
                            proof {
                                assert(selected_among(names, others, false, (i + 1) as nat)
                                    == selected_among(names, others, false, i as nat).push(i));
                                lemma_selection_grows(
                                    names,
                                    others,
                                    false,
                                    (i + 1) as nat,
                                    present.len() as nat,
                                );
                            }
                            return Err(anomaly);
                        },
                        Policy::WarnAndSkip => {
                            warnings.push(anomaly);
                            assert(warnings@ == missing_baselines(
                                selected_among(names, others, false, i as nat).push(i),
                            ));
                        },
                    }
                }
            }
            i = i + 1;
        }
        match policy {
            Policy::Fail => {
                if files.len() == 0 {
                    return Err(Anomaly::NoPresentFiles);
                }
            },
            Policy::WarnAndSkip => {},
        }
        Ok((Run { policy, files, position: 0, pending: None, max_diff: 0 }, warnings))
    }

    /// The file whose bytes the run wants next; `None` once all pairs are
    /// done with.
    pub fn wanted(&self) -> (r: Option<Request>)
        ensures
            r == wanted_in(self@),
    {
        if self.position >= self.files.len() {
            None
        } else {
            let side = if self.pending.is_none() {
                Side::Present
            } else {
                Side::Baseline
            };
            Some(Request { side, file: self.files[self.position] })
        }
    }

    /// Gives up the file in hand because of `anomaly`.
    fn meet(self, anomaly: Anomaly) -> (r: Result<(Run, Report), Anomaly>)
        requires
            self@.position < self@.files.len(),
        ensures
            match r {
                Ok((run, report)) => met(self@, anomaly) == Ok::<(RunView, Report), Anomaly>(
                    (run@, report),
                ),
                Err(a) => met(self@, anomaly) == Err::<(RunView, Report), Anomaly>(a),
            },
    {
        proof {
            use_type_invariant(&self);
        }
        match self.policy {
            Policy::Fail => Err(anomaly),
            Policy::WarnAndSkip => Ok(
                (
                    Run {
                        policy: self.policy,
                        files: self.files,
                        position: self.position + 1,
                        pending: None,
                        max_diff: self.max_diff,
                    },
                    Report::Skipped(anomaly),
                ),
            ),
        }
    }

    /// Feeds the run the bytes of the file that it wants.
    pub fn feed(self, bytes: &[u8]) -> (r: Result<(Run, Report), Anomaly>)
        ensures
            match r {
                Ok((run, report)) => fed(self@, bytes@) == Ok::<(RunView, Report), Anomaly>(
                    (run@, report),
                ),
                Err(anomaly) => fed(self@, bytes@) == Err::<(RunView, Report), Anomaly>(anomaly),
            },
    {
        proof {
            use_type_invariant(&self);
        }
        let (side, file) = match self.wanted() {
            None => {
                return Ok((self, Report::Idle));
            },
            Some(request) => (request.side, request.file),
        };
        let samples = match decode_samples(bytes) {
            None => {
                return self.meet(Anomaly::InvalidByteCount { file, side });
            },
            Some(samples) => samples,
        };
        if samples.len() == 0 {
            return self.meet(Anomaly::EmptyFile { file, side });
        }
        let Run { policy, files, position, pending, max_diff } = self;
        match pending {
            None => Ok(
                (
                    Run { policy, files, position, pending: Some(samples), max_diff },
                    Report::Loaded,
                ),
            ),
            Some(present) => {
                if present.len() != samples.len() {
                    let run = Run { policy, files, position, pending: None, max_diff };
                    return run.meet(Anomaly::LengthMismatch { file });
                }
                let biggest: u32 = max_abs_diff(present.as_slice(), samples.as_slice());
                let max_diff: u32 = if max_diff >= biggest {
                    max_diff
                } else {
                    biggest
                };
                Ok(
                    (
                        Run { policy, files, position: position + 1, pending: None, max_diff },
                        Report::Compared { file, biggest },
                    ),
                )
            },
        }
    }

    /// The verdict against `tolerance`, once the run wants no more files;
    /// `None` before that.
    pub fn finish(&self, tolerance: u32) -> (r: Option<Verdict>)
        ensures
            r == finished(self@, tolerance),
            r matches Some(verdict) ==> verdict.max_diff <= INFINITY,
    {
        proof {
            use_type_invariant(self);
        }
        if self.position < self.files.len() {
            None
        } else {
            Some(Verdict { max_diff: self.max_diff, exceeded: exceeds(self.max_diff, tolerance) })
        }
    }
}

} // verus!
