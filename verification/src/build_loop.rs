//! The build loop: repeated evaluation of a recipe file, pinning of the
//! produced artifacts against garbage collection, and growth of the
//! watched source set.
//!
//! The loop's decisions are verified here; the outside work of one
//! cycle — spawning the evaluator, installing a durable root on disk,
//! waiting for a filesystem change — is performed by the embedder,
//! which hands each outcome in as a plain value. [`BuildLoop::once`]
//! turns one evaluator outcome into the cycle's result and extends the
//! watch set; [`BuildLoop::forever`] drives cycle after cycle and
//! appends the lifecycle events, in strict `Started`,
//! `Completed`-or-`Failure` alternation, to the sink.

use vstd::prelude::*;
use crate::builder::{
    bytes_view, pairs_view, fold_logs, fold_named, fold_sources, keys_unique, stderr_data,
    lemma_fold_named_unique, parse_build_output, Error, ErrorView, EvalOutputView, EvaluatorOutput,
    Info,
};
use crate::parse::{clone_bytes, concat_bytes, split_lines_spec};
use crate::reduce::{reduce_paths, reduce_spec, seq_contains};

verus! {

/// A project bound to one build loop: the recipe file the evaluator
/// reads, and the directory the durable garbage-collection roots live
/// in.
#[derive(Debug, Clone)]
pub struct Project {
    /// Path of the root recipe file.
    pub nix_file: Vec<u8>,
    /// Directory that holds the project's durable roots.
    pub gc_root_dir: Vec<u8>,
}

/// Failure to install a durable root (permissions, disk full, ...);
/// fatal for the loop.
#[derive(Debug, Clone)]
pub struct AddRootError {
    pub msg: String,
}

/// Failure of the filesystem watcher; fatal for the loop.
#[derive(Debug, Clone)]
pub struct NotifyError {
    pub msg: String,
}

// ---------------------------------------------------------------------------
// Root naming discipline.
// ---------------------------------------------------------------------------

/// The decimal digits of `n`, most significant first.
pub open spec fn dec_digits(n: nat) -> Seq<u8>
    decreases n,
{
    if n < 10 {
        seq![(48 + n) as u8]
    } else {
        dec_digits(n / 10).push((48 + (n % 10)) as u8)
    }
}

/// The bytes of `attr-`.
pub open spec fn attr_tag() -> Seq<u8> {
    seq![97u8, 116u8, 116u8, 114u8, 45u8]
}

/// The bytes of `build-`.
pub open spec fn build_tag() -> Seq<u8> {
    seq![98u8, 117u8, 105u8, 108u8, 100u8, 45u8]
}

/// Logical root name of the artifact under attribute `name`:
/// `attr-<name>`.
pub open spec fn attr_root_name(name: Seq<u8>) -> Seq<u8> {
    attr_tag() + name
}

/// Logical root name of the positional artifact at index `i`:
/// `build-<i>`.
pub open spec fn build_root_name(i: nat) -> Seq<u8> {
    build_tag() + dec_digits(i)
}

/// The path of the durable root with logical name `name` in the root
/// directory `dir`: `<dir>/<name>`.
pub open spec fn root_path_for(dir: Seq<u8>, name: Seq<u8>) -> Seq<u8> {
    dir + seq![47u8] + name
}

fn usize_to_dec(n: usize) -> (s: Vec<u8>)
    ensures
        s@ == dec_digits(n as nat),
{
    let mut digits: Vec<u8> = Vec::new();
    let mut m: usize = n;
    proof {
        assert(dec_digits(n as nat) =~= dec_digits(m as nat) + digits@.reverse());
    }
    while m >= 10
        invariant
            dec_digits(n as nat) == dec_digits(m as nat) + digits@.reverse(),
        decreases m,
    {
        let d: u8 = 48u8 + ((m % 10) as u8);
        digits.push(d);
        proof {
            assert(digits@.reverse() =~= seq![d] + digits@.drop_last().reverse());
            assert(dec_digits((m / 10) as nat).push(d) + digits@.drop_last().reverse()
                =~= dec_digits((m / 10) as nat) + digits@.reverse());
        }
        m = m / 10;
    }
    let d: u8 = 48u8 + (m as u8);
    let mut s: Vec<u8> = Vec::new();
    s.push(d);
    proof {
        assert(dec_digits(m as nat) =~= seq![d]);
        assert(s@ =~= dec_digits(m as nat));
    }
    let k = digits.len();
    let mut j: usize = k;
    while j > 0
        invariant
            j <= k,
            k == digits@.len(),
            s@ == dec_digits(m as nat) + digits@.subrange(j as int, k as int).reverse(),
        decreases j,
    {
        j = j - 1;
        s.push(digits[j]);
        proof {
            assert(digits@.subrange(j as int, k as int).reverse() =~= digits@.subrange(
                j + 1,
                k as int,
            ).reverse().push(digits@[j as int]));
        }
    }
    proof {
        assert(digits@.subrange(0, k as int) =~= digits@);
        assert(dec_digits(n as nat) =~= dec_digits(m as nat) + digits@.reverse());
    }
    s
}

fn attr_tag_vec() -> (v: Vec<u8>)
    ensures
        v@ == attr_tag(),
{
    let v: Vec<u8> = vec![97u8, 116u8, 116u8, 114u8, 45u8];
    proof {
        assert(v@ =~= attr_tag());
    }
    v
}

fn build_tag_vec() -> (v: Vec<u8>)
    ensures
        v@ == build_tag(),
{
    let v: Vec<u8> = vec![98u8, 117u8, 105u8, 108u8, 100u8, 45u8];
    proof {
        assert(v@ =~= build_tag());
    }
    v
}

fn root_path_vec(dir: &Vec<u8>, name: &Vec<u8>) -> (r: Vec<u8>)
    ensures
        r@ == root_path_for(dir@, name@),
{
    let mut d = clone_bytes(dir);
    d.push(47u8);
    let r = concat_bytes(&d, name);
    proof {
        assert(d@ =~= dir@ + seq![47u8]);
    }
    r
}

// ---------------------------------------------------------------------------
// The registration plan.
// ---------------------------------------------------------------------------

/// The root registrations one build asks for: `(logical name, artifact
/// path)`, the named artifacts first, then the positional ones.
pub open spec fn plan_spec(named: Seq<(Seq<u8>, Seq<u8>)>, drvs: Seq<Seq<u8>>) -> Seq<(
    Seq<u8>,
    Seq<u8>,
)> {
    named.map_values(|p: (Seq<u8>, Seq<u8>)| (attr_root_name(p.0), p.1)) + Seq::new(
        drvs.len(),
        |i: int| (build_root_name(i as nat), drvs[i]),
    )
}

/// Computes the registration plan of a build: which durable roots the
/// embedder must install, and at which artifact each points.
pub fn root_plan(info: &Info) -> (plan: Vec<(Vec<u8>, Vec<u8>)>)
    ensures
        pairs_view(plan@) == plan_spec(pairs_view(info.named_drvs@), bytes_view(info.drvs@)),
{
    let ghost nv = pairs_view(info.named_drvs@);
    let ghost dv = bytes_view(info.drvs@);
    let ghost f1 = |p: (Seq<u8>, Seq<u8>)| (attr_root_name(p.0), p.1);
    let atag = attr_tag_vec();
    let btag = build_tag_vec();
    let mut plan: Vec<(Vec<u8>, Vec<u8>)> = Vec::new();
    let n = info.named_drvs.len();
    let mut t: usize = 0;
    proof {
        assert(pairs_view(plan@) =~= nv.take(0).map_values(f1));
    }
    while t < n
        invariant
            t <= n,
            n == info.named_drvs@.len(),
            nv == pairs_view(info.named_drvs@),
            nv.len() == n,
            atag@ == attr_tag(),
            f1 == (|p: (Seq<u8>, Seq<u8>)| (attr_root_name(p.0), p.1)),
            pairs_view(plan@) == nv.take(t as int).map_values(f1),
        decreases n - t,
    {
        let ghost pre = pairs_view(plan@);
        let name = concat_bytes(&atag, &info.named_drvs[t].0);
        let drv = clone_bytes(&info.named_drvs[t].1);
        proof {
            assert(nv[t as int] == (info.named_drvs@[t as int].0@, info.named_drvs@[t as int].1@));
            assert(name@ == attr_root_name(nv[t as int].0));
        }
        let ghost nmv = name@;
        let ghost dvv = drv@;
        plan.push((name, drv));
        proof {
            assert(pairs_view(plan@) =~~= pre.push((nmv, dvv)));
            assert((nmv, dvv) =~~= f1(nv[t as int]));
            assert(nv.take(t + 1) =~= nv.take(t as int).push(nv[t as int]));
            assert(nv.take(t + 1).map_values(f1) =~~= nv.take(t as int).map_values(f1).push(
                f1(nv[t as int]),
            ));
        }
        t = t + 1;
    }
    proof {
        assert(nv.take(n as int) =~= nv);
    }
    let m = info.drvs.len();
    let mut i: usize = 0;
    proof {
        assert(pairs_view(plan@) =~= nv.map_values(f1) + Seq::new(
            0,
            |i: int| (build_root_name(i as nat), dv[i]),
        ));
    }
    while i < m
        invariant
            i <= m,
            m == info.drvs@.len(),
            nv == pairs_view(info.named_drvs@),
            dv == bytes_view(info.drvs@),
            dv.len() == m,
            btag@ == build_tag(),
            f1 == (|p: (Seq<u8>, Seq<u8>)| (attr_root_name(p.0), p.1)),
            pairs_view(plan@) == nv.map_values(f1) + Seq::new(
                i as nat,
                |i: int| (build_root_name(i as nat), dv[i]),
            ),
        decreases m - i,
    {
        let ghost pre = pairs_view(plan@);
        let idx = usize_to_dec(i);
        let name = concat_bytes(&btag, &idx);
        let drv = clone_bytes(&info.drvs[i]);
        proof {
            assert(dv[i as int] == info.drvs@[i as int]@);
            assert(name@ == build_root_name(i as nat));
        }
        let ghost nmv = name@;
        let ghost dvv = drv@;
        plan.push((name, drv));
        proof {
            let g = |j: int| (build_root_name(j as nat), dv[j]);
            assert(pairs_view(plan@) =~~= pre.push((nmv, dvv)));
            assert(Seq::new((i + 1) as nat, g) =~= Seq::new(i as nat, g).push(g(i as int)));
            assert(pre.push((nmv, dvv)) =~~= nv.map_values(f1) + Seq::new(i as nat, g).push(
                g(i as int),
            ));
        }
        i = i + 1;
    }
    proof {
        assert(pairs_view(plan@) =~~= plan_spec(nv, dv));
    }
    plan
}

// ---------------------------------------------------------------------------
// Results of a cycle.
// ---------------------------------------------------------------------------

/// Results of a single, successful build: for each artifact, the path
/// of the durable root that pins it.
#[derive(Debug, Clone)]
pub struct BuildResults {
    /// Root path of each positional artifact, by index.
    pub drvs: Vec<Vec<u8>>,
    /// Root path of each named artifact, keyed by attribute name.
    pub named_drvs: Vec<(Vec<u8>, Vec<u8>)>,
}

/// Mathematical model of [`BuildResults`].
pub struct BuildResultsView {
    pub drvs: Seq<Seq<u8>>,
    pub named_drvs: Seq<(Seq<u8>, Seq<u8>)>,
}

impl View for BuildResults {
    type V = BuildResultsView;

    open spec fn view(&self) -> BuildResultsView {
        BuildResultsView { drvs: bytes_view(self.drvs@), named_drvs: pairs_view(self.named_drvs@) }
    }
}

/// Results of a single, failing build: the captured stderr log lines,
/// verbatim.
#[derive(Debug, Clone)]
pub struct BuildExitFailure {
    pub log_lines: Vec<Vec<u8>>,
}

impl View for BuildExitFailure {
    type V = Seq<Seq<u8>>;

    open spec fn view(&self) -> Seq<Seq<u8>> {
        bytes_view(self.log_lines@)
    }
}

/// Builder events the loop hands to its subscriber.
#[derive(Debug, Clone)]
pub enum Event {
    /// The build has started.
    Started,
    /// The build completed successfully.
    Completed(BuildResults),
    /// The build command returned a failing exit status.
    Failure(BuildExitFailure),
}

/// Mathematical model of an [`Event`].
pub enum EventView {
    Started,
    Completed(BuildResultsView),
    Failure(Seq<Seq<u8>>),
}

impl View for Event {
    type V = EventView;

    open spec fn view(&self) -> EventView {
        match self {
            Event::Started => EventView::Started,
            Event::Completed(r) => EventView::Completed(r@),
            Event::Failure(f) => EventView::Failure(f@),
        }
    }
}

/// Unrecoverable errors due to failures of the plumbing: the evaluator
/// could not be run, a root could not be installed, or the watcher
/// failed.
#[derive(Debug, Clone)]
pub enum UnrecoverableErrors {
    Build(Error),
    AddRoot(AddRootError),
    Notify(NotifyError),
}

/// Mathematical model of [`UnrecoverableErrors`].
pub enum UnrecoverableView {
    Build(ErrorView),
    AddRoot(Seq<char>),
    Notify(Seq<char>),
}

impl View for UnrecoverableErrors {
    type V = UnrecoverableView;

    open spec fn view(&self) -> UnrecoverableView {
        match self {
            UnrecoverableErrors::Build(e) => UnrecoverableView::Build(e@),
            UnrecoverableErrors::AddRoot(e) => UnrecoverableView::AddRoot(e.msg@),
            UnrecoverableErrors::Notify(e) => UnrecoverableView::Notify(e.msg@),
        }
    }
}

/// Error classes returnable from a build. Callers should exit on
/// `Unrecoverable` errors, but retry with `Recoverable` errors.
#[derive(Debug, Clone)]
pub enum BuildError {
    /// The evaluator itself exited with a failing status.
    Recoverable(BuildExitFailure),
    /// Anything else: plumbing failures the loop cannot retry.
    Unrecoverable(UnrecoverableErrors),
}

/// Mathematical model of a [`BuildError`].
pub enum BuildErrorView {
    Recoverable(Seq<Seq<u8>>),
    Unrecoverable(UnrecoverableView),
}

impl View for BuildError {
    type V = BuildErrorView;

    open spec fn view(&self) -> BuildErrorView {
        match self {
            BuildError::Recoverable(f) => BuildErrorView::Recoverable(f@),
            BuildError::Unrecoverable(u) => BuildErrorView::Unrecoverable(u@),
        }
    }
}

impl From<Error> for BuildError {
    /// A failure to run the evaluator is unrecoverable.
    fn from(e: Error) -> (r: BuildError) {
        BuildError::Unrecoverable(UnrecoverableErrors::Build(e))
    }
}

impl vstd::std_specs::convert::FromSpecImpl<Error> for BuildError {
    open spec fn obeys_from_spec() -> bool {
        true
    }

    open spec fn from_spec(e: Error) -> BuildError {
        BuildError::Unrecoverable(UnrecoverableErrors::Build(e))
    }
}

impl From<AddRootError> for BuildError {
    /// A failure to install a durable root is unrecoverable.
    fn from(e: AddRootError) -> (r: BuildError) {
        BuildError::Unrecoverable(UnrecoverableErrors::AddRoot(e))
    }
}

impl vstd::std_specs::convert::FromSpecImpl<AddRootError> for BuildError {
    open spec fn obeys_from_spec() -> bool {
        true
    }

    open spec fn from_spec(e: AddRootError) -> BuildError {
        BuildError::Unrecoverable(UnrecoverableErrors::AddRoot(e))
    }
}

impl From<NotifyError> for BuildError {
    /// A failure of the watcher is unrecoverable.
    fn from(e: NotifyError) -> (r: BuildError) {
        BuildError::Unrecoverable(UnrecoverableErrors::Notify(e))
    }
}

impl vstd::std_specs::convert::FromSpecImpl<NotifyError> for BuildError {
    open spec fn obeys_from_spec() -> bool {
        true
    }

    open spec fn from_spec(e: NotifyError) -> BuildError {
        BuildError::Unrecoverable(UnrecoverableErrors::Notify(e))
    }
}

// ---------------------------------------------------------------------------
// The loop itself.
// ---------------------------------------------------------------------------

/// The build loop's own state: the project it serves and the watched
/// source set, which only ever grows.
#[derive(Debug)]
pub struct BuildLoop {
    /// Path of the recipe file to be built.
    pub nix_file: Vec<u8>,
    /// Directory of the project's durable roots.
    pub gc_root_dir: Vec<u8>,
    /// Every source path handed to the watcher so far, without
    /// repetition, in first-appearance order.
    pub watched: Vec<Vec<u8>>,
}

/// Mathematical model of the loop state.
pub struct LoopView {
    pub nix_file: Seq<u8>,
    pub gc_root_dir: Seq<u8>,
    pub watched: Seq<Seq<u8>>,
}

impl View for BuildLoop {
    type V = LoopView;

    open spec fn view(&self) -> LoopView {
        LoopView {
            nix_file: self.nix_file@,
            gc_root_dir: self.gc_root_dir@,
            watched: bytes_view(self.watched@),
        }
    }
}

/// The watch set after adding `add`: each path of `add` in turn is
/// appended unless already present.
pub open spec fn extend_watch_spec(watched: Seq<Seq<u8>>, add: Seq<Seq<u8>>) -> Seq<Seq<u8>>
    decreases add.len(),
{
    if add.len() == 0 {
        watched
    } else {
        let w1 = if watched.contains(add[0]) {
            watched
        } else {
            watched.push(add[0])
        };
        extend_watch_spec(w1, add.drop_first())
    }
}

/// Law: the watch set only ever grows, and in place: what was watched
/// stays watched, at its position, whatever is added.
pub proof fn lemma_extend_watch_grows(watched: Seq<Seq<u8>>, add: Seq<Seq<u8>>)
    ensures
        watched.is_prefix_of(extend_watch_spec(watched, add)),
    decreases add.len(),
{
    if add.len() > 0 {
        let w1 = if watched.contains(add[0]) {
            watched
        } else {
            watched.push(add[0])
        };
        lemma_extend_watch_grows(w1, add.drop_first());
        let r = extend_watch_spec(watched, add);
        assert(watched.is_prefix_of(w1));
        assert(w1.subrange(0, watched.len() as int) =~= r.subrange(0, w1.len() as int).subrange(
            0,
            watched.len() as int,
        ));
        assert(r.subrange(0, w1.len() as int).subrange(0, watched.len() as int) =~= r.subrange(
            0,
            watched.len() as int,
        ));
    }
}

/// Law: a path is watched after an extension exactly when it was
/// watched before or stands among the added paths.
pub proof fn lemma_extend_watch_members(watched: Seq<Seq<u8>>, add: Seq<Seq<u8>>, x: Seq<u8>)
    ensures
        extend_watch_spec(watched, add).contains(x) <==> (watched.contains(x) || add.contains(x)),
    decreases add.len(),
{
    if add.len() == 0 {
        assert(!add.contains(x));
    } else {
        let w1 = if watched.contains(add[0]) {
            watched
        } else {
            watched.push(add[0])
        };
        lemma_extend_watch_members(w1, add.drop_first(), x);
        assert(w1.contains(x) <==> (watched.contains(x) || x == add[0])) by {
            if watched.contains(x) {
                let i = choose|i: int| 0 <= i < watched.len() && watched[i] == x;
                assert(w1[i] == x);
            }
            if w1.contains(x) && !watched.contains(x) {
                let i = choose|i: int| 0 <= i < w1.len() && w1[i] == x;
                assert(x == add[0]);
            }
            if x == add[0] && !watched.contains(add[0]) {
                assert(w1[watched.len() as int] == x);
            }
        }
        assert(add.contains(x) <==> (x == add[0] || add.drop_first().contains(x))) by {
            if add.contains(x) {
                let i = choose|i: int| 0 <= i < add.len() && add[i] == x;
                if i > 0 {
                    assert(add.drop_first()[i - 1] == x);
                }
            }
            if add.drop_first().contains(x) {
                let i = choose|i: int| 0 <= i < add.drop_first().len() && add.drop_first()[i] == x;
                assert(add[i + 1] == x);
            }
        }
    }
}

/// The named-artifact half of a successful result: each attribute name
/// mapped to the root path of its logical root.
pub open spec fn result_named_spec(dir: Seq<u8>, named: Seq<(Seq<u8>, Seq<u8>)>) -> Seq<(
    Seq<u8>,
    Seq<u8>,
)> {
    named.map_values(|p: (Seq<u8>, Seq<u8>)| (p.0, root_path_for(dir, attr_root_name(p.0))))
}

/// The positional half of a successful result: the root path of each
/// positional logical root, by index.
pub open spec fn result_drvs_spec(dir: Seq<u8>, n: nat) -> Seq<Seq<u8>> {
    Seq::new(n, |i: int| root_path_for(dir, build_root_name(i as nat)))
}

/// View of the evaluator outcome the embedder hands in.
pub open spec fn eval_arg_view(e: Result<EvaluatorOutput, Error>) -> Result<
    EvalOutputView,
    ErrorView,
> {
    match e {
        Result::Ok(o) => Result::Ok(o@),
        Result::Err(x) => Result::Err(x@),
    }
}

/// View of the root-installation outcome the embedder hands in.
pub open spec fn add_arg_view(a: Option<AddRootError>) -> Option<Seq<char>> {
    match a {
        Option::Some(e) => Option::Some(e.msg@),
        Option::None => Option::None,
    }
}

/// View of a cycle's result.
pub open spec fn build_result_view(r: Result<BuildResults, BuildError>) -> Result<
    BuildResultsView,
    BuildErrorView,
> {
    match r {
        Result::Ok(b) => Result::Ok(b@),
        Result::Err(e) => Result::Err(e@),
    }
}

/// One cycle of the loop, mathematically: the returned result and the
/// next loop state, from the evaluator outcome and the embedder's
/// root-installation outcome.
///
/// A failed spawn or a failed root installation is unrecoverable and
/// leaves the state untouched. Otherwise the watch set grows by the
/// reduced source set whatever the exit status; a zero exit status
/// yields the results, any other yields the recoverable failure with
/// the unrecognized log lines.
pub open spec fn once_spec(
    st: LoopView,
    eval: Result<EvalOutputView, ErrorView>,
    root_add: Option<Seq<char>>,
) -> (Result<BuildResultsView, BuildErrorView>, LoopView) {
    match eval {
        Result::Err(e) => (
            Result::Err(BuildErrorView::Unrecoverable(UnrecoverableView::Build(e))),
            st,
        ),
        Result::Ok(out) => match root_add {
            Option::Some(m) => (
                Result::Err(BuildErrorView::Unrecoverable(UnrecoverableView::AddRoot(m))),
                st,
            ),
            Option::None => {
                let data = stderr_data(out.stderr);
                let st2 = LoopView {
                    nix_file: st.nix_file,
                    gc_root_dir: st.gc_root_dir,
                    watched: extend_watch_spec(st.watched, reduce_spec(fold_sources(data))),
                };
                if out.exec_result.success {
                    (
                        Result::Ok(
                            BuildResultsView {
                                drvs: result_drvs_spec(
                                    st.gc_root_dir,
                                    split_lines_spec(out.stdout).len(),
                                ),
                                named_drvs: result_named_spec(st.gc_root_dir, fold_named(data)),
                            },
                        ),
                        st2,
                    )
                } else {
                    (Result::Err(BuildErrorView::Recoverable(fold_logs(data))), st2)
                }
            },
        },
    }
}

fn extend_watch(w: &mut Vec<Vec<u8>>, add: &Vec<Vec<u8>>)
    ensures
        bytes_view(final(w)@) == extend_watch_spec(bytes_view(old(w)@), bytes_view(add@)),
{
    let n = add.len();
    let ghost av = bytes_view(add@);
    let mut i: usize = 0;
    proof {
        assert(av.skip(0) =~= av);
    }
    while i < n
        invariant
            i <= n,
            n == add@.len(),
            av == bytes_view(add@),
            av.len() == n,
            extend_watch_spec(bytes_view(old(w)@), av) == extend_watch_spec(
                bytes_view(w@),
                av.skip(i as int),
            ),
        decreases n - i,
    {
        let ghost wv0 = bytes_view(w@);
        proof {
            assert(av.skip(i as int)[0] == av[i as int]);
            assert(av.skip(i as int).drop_first() =~~= av.skip(i + 1));
            assert(av[i as int] == add@[i as int]@);
        }
        if !seq_contains(w, &add[i]) {
            let pc = clone_bytes(&add[i]);
            w.push(pc);
            proof {
                assert(bytes_view(w@) =~~= wv0.push(av[i as int]));
                assert(extend_watch_spec(wv0, av.skip(i as int)) == extend_watch_spec(
                    bytes_view(w@),
                    av.skip(i + 1),
                ));
            }
        } else {
            proof {
                assert(extend_watch_spec(wv0, av.skip(i as int)) == extend_watch_spec(
                    bytes_view(w@),
                    av.skip(i + 1),
                ));
            }
        }
        i = i + 1;
    }
    proof {
        assert(av.skip(n as int) =~= Seq::<Seq<u8>>::empty());
    }
}

fn result_named(dir: &Vec<u8>, named: &Vec<(Vec<u8>, Vec<u8>)>) -> (r: Vec<(Vec<u8>, Vec<u8>)>)
    ensures
        pairs_view(r@) == result_named_spec(dir@, pairs_view(named@)),
{
    let ghost nv = pairs_view(named@);
    let ghost f = |p: (Seq<u8>, Seq<u8>)| (p.0, root_path_for(dir@, attr_root_name(p.0)));
    let atag = attr_tag_vec();
    let n = named.len();
    let mut r: Vec<(Vec<u8>, Vec<u8>)> = Vec::new();
    let mut t: usize = 0;
    proof {
        assert(pairs_view(r@) =~= nv.take(0).map_values(f));
    }
    while t < n
        invariant
            t <= n,
            n == named@.len(),
            nv == pairs_view(named@),
            nv.len() == n,
            atag@ == attr_tag(),
            f == (|p: (Seq<u8>, Seq<u8>)| (p.0, root_path_for(dir@, attr_root_name(p.0)))),
            pairs_view(r@) == nv.take(t as int).map_values(f),
        decreases n - t,
    {
        let ghost pre = pairs_view(r@);
        let name = clone_bytes(&named[t].0);
        let logical = concat_bytes(&atag, &named[t].0);
        let root = root_path_vec(dir, &logical);
        proof {
            assert(nv[t as int] == (named@[t as int].0@, named@[t as int].1@));
            assert(root@ == root_path_for(dir@, attr_root_name(nv[t as int].0)));
        }
        let ghost nmv = name@;
        let ghost rtv = root@;
        r.push((name, root));
        proof {
            assert(pairs_view(r@) =~~= pre.push((nmv, rtv)));
            assert((nmv, rtv) =~~= f(nv[t as int]));
            assert(nv.take(t + 1) =~= nv.take(t as int).push(nv[t as int]));
            assert(nv.take(t + 1).map_values(f) =~~= nv.take(t as int).map_values(f).push(
                f(nv[t as int]),
            ));
        }
        t = t + 1;
    }
    proof {
        assert(nv.take(n as int) =~= nv);
    }
    r
}

fn result_drvs(dir: &Vec<u8>, n: usize) -> (r: Vec<Vec<u8>>)
    ensures
        bytes_view(r@) == result_drvs_spec(dir@, n as nat),
{
    let btag = build_tag_vec();
    let ghost g = |i: int| root_path_for(dir@, build_root_name(i as nat));
    let mut r: Vec<Vec<u8>> = Vec::new();
    let mut i: usize = 0;
    proof {
        assert(bytes_view(r@) =~= Seq::new(0, g));
    }
    while i < n
        invariant
            i <= n,
            btag@ == build_tag(),
            g == (|i: int| root_path_for(dir@, build_root_name(i as nat))),
            bytes_view(r@) == Seq::new(i as nat, g),
        decreases n - i,
    {
        let idx = usize_to_dec(i);
        let logical = concat_bytes(&btag, &idx);
        let root = root_path_vec(dir, &logical);
        r.push(root);
        proof {
            assert(Seq::new((i + 1) as nat, g) =~= Seq::new(i as nat, g).push(g(i as int)));
            assert(bytes_view(r@) =~= bytes_view(r@.drop_last()).push(g(i as int)));
        }
        i = i + 1;
    }
    proof {
        assert(Seq::new(n as nat, g) =~= result_drvs_spec(dir@, n as nat));
    }
    r
}

impl BuildLoop {
    /// Instantiates a new build loop for `project`, with an empty
    /// watch set.
    pub fn new(project: &Project) -> (bl: BuildLoop)
        ensures
            bl@.nix_file == project.nix_file@,
            bl@.gc_root_dir == project.gc_root_dir@,
            bl@.watched == Seq::<Seq<u8>>::empty(),
    {
        let bl = BuildLoop {
            nix_file: clone_bytes(&project.nix_file),
            gc_root_dir: clone_bytes(&project.gc_root_dir),
            watched: Vec::new(),
        };
        proof {
            assert(bl@.watched =~= Seq::<Seq<u8>>::empty());
        }
        bl
    }

    /// Executes the decisions of a single cycle.
    ///
    /// The embedder has invoked the evaluator (handing in `eval`) and,
    /// on a captured output, has installed the durable roots of
    /// [`root_plan`] (handing in `root_add`, the first failure if
    /// any). This function folds the output, extends the watch set by
    /// the reduced source paths, and returns the build's results or
    /// its failure, exactly as [`once_spec`] states.
    pub fn once(&mut self, eval: Result<EvaluatorOutput, Error>, root_add: Option<AddRootError>)
        -> (r: Result<BuildResults, BuildError>)
        ensures
            build_result_view(r) == once_spec(
                old(self)@,
                eval_arg_view(eval),
                add_arg_view(root_add),
            ).0,
            final(self)@ == once_spec(old(self)@, eval_arg_view(eval), add_arg_view(root_add)).1,
    {
        match eval {
            Result::Err(e) => Result::Err(
                BuildError::Unrecoverable(UnrecoverableErrors::Build(e)),
            ),
            Result::Ok(out) => {
                match root_add {
                    Option::Some(e) => Result::Err(
                        BuildError::Unrecoverable(UnrecoverableErrors::AddRoot(e)),
                    ),
                    Option::None => {
                        let info = parse_build_output(&out);
                        let reduced = reduce_paths(&info.paths);
                        extend_watch(&mut self.watched, &reduced);
                        if out.exec_result.success {
                            let drvs = result_drvs(&self.gc_root_dir, info.drvs.len());
                            let named_drvs = result_named(&self.gc_root_dir, &info.named_drvs);
                            let res = BuildResults { drvs, named_drvs };
                            Result::Ok(res)
                        } else {
                            Result::Err(
                                BuildError::Recoverable(
                                    BuildExitFailure { log_lines: info.log_lines },
                                ),
                            )
                        }
                    },
                }
            },
        }
    }
}

// ---------------------------------------------------------------------------
// The root naming discipline is injective.
// ---------------------------------------------------------------------------

proof fn lemma_concat_inj(p: Seq<u8>, x: Seq<u8>, y: Seq<u8>)
    requires
        p + x == p + y,
    ensures
        x == y,
{
    assert((p + x).len() == p.len() + x.len());
    assert((p + y).len() == p.len() + y.len());
    assert(x.len() == y.len());
    assert forall|k: int| 0 <= k < x.len() implies x[k] == y[k] by {
        assert(0 <= p.len() + k < (p + x).len());
        assert((p + x)[p.len() + k] == x[k]);
        assert((p + y)[p.len() + k] == y[k]);
    }
    assert(x =~= y);
}

proof fn lemma_dec_digits_len(n: nat)
    ensures
        dec_digits(n).len() >= 1,
        n >= 10 ==> dec_digits(n).len() >= 2,
    decreases n,
{
    if n >= 10 {
        lemma_dec_digits_len(n / 10);
    }
}

proof fn lemma_dec_digits_injective(a: nat, b: nat)
    requires
        dec_digits(a) == dec_digits(b),
    ensures
        a == b,
    decreases a,
{
    lemma_dec_digits_len(a);
    lemma_dec_digits_len(b);
    if a < 10 && b < 10 {
        assert(dec_digits(a)[0] == (48 + a) as u8);
        assert(dec_digits(b)[0] == (48 + b) as u8);
    } else if a < 10 {
        assert(dec_digits(a).len() == 1);
        assert(dec_digits(b).len() >= 2);
    } else if b < 10 {
        assert(dec_digits(b).len() == 1);
        assert(dec_digits(a).len() >= 2);
    } else {
        assert(dec_digits(a).last() == (48 + (a % 10)) as u8);
        assert(dec_digits(b).last() == (48 + (b % 10)) as u8);
        assert(a % 10 == b % 10);
        assert(dec_digits(a).drop_last() =~= dec_digits(a / 10));
        assert(dec_digits(b).drop_last() =~= dec_digits(b / 10));
        lemma_dec_digits_injective(a / 10, b / 10);
    }
}

/// The root-naming discipline is injective: two distinct attribute
/// names, two distinct positional indices, or an attribute and an
/// index, never share a root path under one root directory. Hence
/// every root path in a successful result leads back to exactly one
/// artifact of the build that produced it.
pub proof fn lemma_root_names_injective(dir: Seq<u8>, n1: Seq<u8>, n2: Seq<u8>, i: nat, j: nat)
    ensures
        root_path_for(dir, attr_root_name(n1)) == root_path_for(dir, attr_root_name(n2)) ==> n1
            == n2,
        root_path_for(dir, build_root_name(i)) == root_path_for(dir, build_root_name(j)) ==> i
            == j,
        root_path_for(dir, attr_root_name(n1)) != root_path_for(dir, build_root_name(i)),
{
    let p = dir + seq![47u8];
    if root_path_for(dir, attr_root_name(n1)) == root_path_for(dir, attr_root_name(n2)) {
        lemma_concat_inj(p, attr_root_name(n1), attr_root_name(n2));
        lemma_concat_inj(attr_tag(), n1, n2);
    }
    if root_path_for(dir, build_root_name(i)) == root_path_for(dir, build_root_name(j)) {
        lemma_concat_inj(p, build_root_name(i), build_root_name(j));
        lemma_concat_inj(build_tag(), dec_digits(i), dec_digits(j));
        lemma_dec_digits_injective(i, j);
    }
    if root_path_for(dir, attr_root_name(n1)) == root_path_for(dir, build_root_name(i)) {
        lemma_concat_inj(p, attr_root_name(n1), build_root_name(i));
        assert(attr_root_name(n1)[0] == 97u8);
        assert(build_root_name(i)[0] == 98u8);
    }
}

/// In a successful result built under the naming discipline, distinct
/// entries carry distinct root paths: the mapping from artifacts to
/// roots is one to one.
pub proof fn lemma_results_map_back(dir: Seq<u8>, named: Seq<(Seq<u8>, Seq<u8>)>, n: nat)
    requires
        keys_unique(named),
    ensures
        forall|t: int, u: int|
            0 <= t < u < named.len() ==> #[trigger] result_named_spec(dir, named)[t].1
                != #[trigger] result_named_spec(dir, named)[u].1,
        forall|t: int, u: int|
            0 <= t < u < n ==> #[trigger] result_drvs_spec(dir, n)[t] != #[trigger] result_drvs_spec(
                dir,
                n,
            )[u],
        forall|t: int, u: int|
            0 <= t < named.len() && 0 <= u < n ==> #[trigger] result_named_spec(dir, named)[t].1
                != #[trigger] result_drvs_spec(dir, n)[u],
{
    assert forall|t: int, u: int| 0 <= t < u < named.len() implies result_named_spec(
        dir,
        named,
    )[t].1 != result_named_spec(dir, named)[u].1 by {
        lemma_root_names_injective(dir, named[t].0, named[u].0, 0, 0);
    }
    assert forall|t: int, u: int| 0 <= t < u < n implies result_drvs_spec(dir, n)[t]
        != result_drvs_spec(dir, n)[u] by {
        lemma_root_names_injective(dir, Seq::empty(), Seq::empty(), t as nat, u as nat);
    }
    assert forall|t: int, u: int| 0 <= t < named.len() && 0 <= u < n implies result_named_spec(
        dir,
        named,
    )[t].1 != result_drvs_spec(dir, n)[u] by {
        lemma_root_names_injective(dir, named[t].0, named[t].0, u as nat, 0);
    }
}


/// Law, instantiated for a cycle's successful result: with the
/// named-artifact fold of the evaluator's stderr (whose names are
/// unique) and any count of positional artifacts, all root paths in
/// the result differ, so each maps back to exactly one artifact.
pub proof fn lemma_once_roots_unique(dir: Seq<u8>, stderr: Seq<u8>, n: nat)
    ensures
        forall|t: int, u: int|
            0 <= t < u < fold_named(stderr_data(stderr)).len() ==> #[trigger] result_named_spec(
                dir,
                fold_named(stderr_data(stderr)),
            )[t].1 != #[trigger] result_named_spec(dir, fold_named(stderr_data(stderr)))[u].1,
        forall|t: int, u: int|
            0 <= t < u < n ==> #[trigger] result_drvs_spec(dir, n)[t] != #[trigger] result_drvs_spec(
                dir,
                n,
            )[u],
        forall|t: int, u: int|
            0 <= t < fold_named(stderr_data(stderr)).len() && 0 <= u < n
                ==> #[trigger] result_named_spec(dir, fold_named(stderr_data(stderr)))[t].1
                != #[trigger] result_drvs_spec(dir, n)[u],
{
    lemma_fold_named_unique(stderr_data(stderr));
    lemma_results_map_back(dir, fold_named(stderr_data(stderr)), n);
}

// ---------------------------------------------------------------------------
// The session: cycle after cycle.
// ---------------------------------------------------------------------------

/// The outside outcomes one cycle of [`BuildLoop::forever`] consumes:
/// the evaluator invocation's outcome, the root-installation outcome,
/// and the outcome of waiting for a filesystem change after the
/// cycle's event is emitted.
#[derive(Debug)]
pub struct CycleInput {
    pub eval: Result<EvaluatorOutput, Error>,
    pub root_add: Option<AddRootError>,
    pub wait: Result<(), NotifyError>,
}

/// Mathematical model of a [`CycleInput`].
pub struct CycleInputView {
    pub eval: Result<EvalOutputView, ErrorView>,
    pub root_add: Option<Seq<char>>,
    pub wait: Result<(), Seq<char>>,
}

/// View of the wait outcome the embedder hands in.
pub open spec fn wait_view(w: Result<(), NotifyError>) -> Result<(), Seq<char>> {
    match w {
        Result::Ok(u) => Result::Ok(u),
        Result::Err(e) => Result::Err(e.msg@),
    }
}

impl View for CycleInput {
    type V = CycleInputView;

    open spec fn view(&self) -> CycleInputView {
        CycleInputView {
            eval: eval_arg_view(self.eval),
            root_add: add_arg_view(self.root_add),
            wait: wait_view(self.wait),
        }
    }
}

/// The views of a sequence of cycle outcomes.
pub open spec fn cycles_view(s: Seq<CycleInput>) -> Seq<CycleInputView> {
    s.map_values(|c: CycleInput| c@)
}

/// The views of a sequence of events.
pub open spec fn events_view(s: Seq<Event>) -> Seq<EventView> {
    s.map_values(|e: Event| e@)
}

/// View of the session's early end, if any.
pub open spec fn aborted_view(a: Option<UnrecoverableErrors>) -> Option<UnrecoverableView> {
    match a {
        Option::Some(u) => Option::Some(u@),
        Option::None => Option::None,
    }
}

/// A session of the loop, mathematically: the events emitted for the
/// given cycle outcomes in order, the final loop state, and the
/// unrecoverable error that ended the session early, if any.
///
/// Each cycle emits `Started` and then its outcome event; an
/// unrecoverable cycle emits `Started` alone and ends the session; a
/// failed wait ends the session after the cycle's events.
pub open spec fn session_spec(st: LoopView, inputs: Seq<CycleInputView>) -> (
    Seq<EventView>,
    LoopView,
    Option<UnrecoverableView>,
)
    decreases inputs.len(),
{
    if inputs.len() == 0 {
        (Seq::empty(), st, Option::None)
    } else {
        let c = inputs[0];
        let stepped = once_spec(st, c.eval, c.root_add);
        match stepped.0 {
            Result::Ok(res) => match c.wait {
                Result::Ok(u) => {
                    let tail = session_spec(stepped.1, inputs.drop_first());
                    (
                        seq![EventView::Started, EventView::Completed(res)] + tail.0,
                        tail.1,
                        tail.2,
                    )
                },
                Result::Err(m) => (
                    seq![EventView::Started, EventView::Completed(res)],
                    stepped.1,
                    Option::Some(UnrecoverableView::Notify(m)),
                ),
            },
            Result::Err(e) => match e {
                BuildErrorView::Recoverable(logs) => match c.wait {
                    Result::Ok(u) => {
                        let tail = session_spec(stepped.1, inputs.drop_first());
                        (
                            seq![EventView::Started, EventView::Failure(logs)] + tail.0,
                            tail.1,
                            tail.2,
                        )
                    },
                    Result::Err(m) => (
                        seq![EventView::Started, EventView::Failure(logs)],
                        stepped.1,
                        Option::Some(UnrecoverableView::Notify(m)),
                    ),
                },
                BuildErrorView::Unrecoverable(u) => (
                    seq![EventView::Started],
                    stepped.1,
                    Option::Some(u),
                ),
            },
        }
    }
}

/// The event stream is a prefix of the language
/// `(Started (Completed | Failure))*`: at every even position stands
/// `Started`, at every odd position an outcome event.
pub open spec fn events_alternate(evs: Seq<EventView>) -> bool {
    forall|k: int|
        0 <= k < evs.len() ==> (if k % 2 == 0 {
            evs[k] is Started
        } else {
            evs[k] is Completed || evs[k] is Failure
        })
}

proof fn lemma_alternate_prepend(x: EventView, tail: Seq<EventView>)
    requires
        events_alternate(tail),
        x is Completed || x is Failure,
    ensures
        events_alternate(seq![EventView::Started, x] + tail),
{
    let s = seq![EventView::Started, x] + tail;
    assert forall|k: int|
        0 <= k < s.len() implies (if k % 2 == 0 {
        s[k] is Started
    } else {
        s[k] is Completed || s[k] is Failure
    }) by {
        if k == 0 {
            assert(s[0] == EventView::Started);
        } else if k == 1 {
            assert(s[1] == x);
        } else {
            assert(s[k] == tail[k - 2]);
            assert((k - 2) % 2 == k % 2);
        }
    }
}

/// Law: whatever the outside outcomes of its cycles, a session's event
/// stream is a prefix of `(Started (Completed | Failure))*`: `Started`
/// and an outcome event strictly alternate, a dangling `Started`
/// standing only at the very end.
pub proof fn lemma_session_alternates(st: LoopView, inputs: Seq<CycleInputView>)
    ensures
        events_alternate(session_spec(st, inputs).0),
    decreases inputs.len(),
{
    if inputs.len() > 0 {
        let c = inputs[0];
        let stepped = once_spec(st, c.eval, c.root_add);
        match stepped.0 {
            Result::Ok(res) => match c.wait {
                Result::Ok(u) => {
                    lemma_session_alternates(stepped.1, inputs.drop_first());
                    lemma_alternate_prepend(
                        EventView::Completed(res),
                        session_spec(stepped.1, inputs.drop_first()).0,
                    );
                },
                Result::Err(m) => {
                    lemma_alternate_prepend(EventView::Completed(res), Seq::empty());
                    assert(seq![EventView::Started, EventView::Completed(res)] + Seq::empty()
                        =~= seq![EventView::Started, EventView::Completed(res)]);
                },
            },
            Result::Err(e) => match e {
                BuildErrorView::Recoverable(logs) => match c.wait {
                    Result::Ok(u) => {
                        lemma_session_alternates(stepped.1, inputs.drop_first());
                        lemma_alternate_prepend(
                            EventView::Failure(logs),
                            session_spec(stepped.1, inputs.drop_first()).0,
                        );
                    },
                    Result::Err(m) => {
                        lemma_alternate_prepend(EventView::Failure(logs), Seq::empty());
                        assert(seq![EventView::Started, EventView::Failure(logs)] + Seq::empty()
                            =~= seq![EventView::Started, EventView::Failure(logs)]);
                    },
                },
                BuildErrorView::Unrecoverable(u) => {
                    assert(session_spec(st, inputs).0 =~= seq![EventView::Started]);
                },
            },
        }
    }
}

impl BuildLoop {
    /// Drives the loop cycle by cycle over the given outside outcomes,
    /// appending each cycle's events to `sink`: `Started`, then
    /// `Completed` or `Failure`. An unrecoverable cycle or a failed
    /// wait ends the session early, and the ending error is returned.
    ///
    /// The real loop runs indefinitely and blocks: the embedder
    /// invokes the evaluator, installs the roots, waits for changes,
    /// and feeds every outcome through this decision kernel; the
    /// events and the watch set are the same for the same outcomes,
    /// as [`session_spec`] states.
    #[verifier::rlimit(60)]
    pub fn forever(&mut self, inputs: Vec<CycleInput>, sink: &mut Vec<Event>) -> (aborted: Option<
        UnrecoverableErrors,
    >)
        ensures
            events_view(final(sink)@) == events_view(old(sink)@) + session_spec(
                old(self)@,
                cycles_view(inputs@),
            ).0,
            final(self)@ == session_spec(old(self)@, cycles_view(inputs@)).1,
            aborted_view(aborted) == session_spec(old(self)@, cycles_view(inputs@)).2,
            events_alternate(session_spec(old(self)@, cycles_view(inputs@)).0),
    {
        proof {
            lemma_session_alternates(self@, cycles_view(inputs@));
        }
        let ghost st0 = self@;
        let ghost cv0 = cycles_view(inputs@);
        let ghost n0: int = sink@.len() as int;
        let mut rest = inputs;
        while rest.len() > 0
            invariant
                st0 == old(self)@,
                cv0 == cycles_view(inputs@),
                events_alternate(session_spec(st0, cv0).0),
                n0 == old(sink)@.len(),
                n0 <= sink@.len(),
                sink@.subrange(0, n0) == old(sink)@,
                session_spec(st0, cv0).0 == events_view(sink@.skip(n0)) + session_spec(
                    self@,
                    cycles_view(rest@),
                ).0,
                session_spec(st0, cv0).1 == session_spec(self@, cycles_view(rest@)).1,
                session_spec(st0, cv0).2 == session_spec(self@, cycles_view(rest@)).2,
            decreases rest@.len(),
        {
            let ghost rpre = cycles_view(rest@);
            let ghost st_pre = self@;
            let ghost sink_pre = sink@;
            let c = rest.remove(0);
            let ghost cview = c@;
            proof {
                assert(rpre[0] == cview);
                assert(cycles_view(rest@) =~~= rpre.drop_first());
            }
            let CycleInput { eval, root_add, wait } = c;
            let ghost stepped = once_spec(st_pre, cview.eval, cview.root_add);
            proof {
                assert(cview.eval == eval_arg_view(eval));
                assert(cview.root_add == add_arg_view(root_add));
                assert(cview.wait == wait_view(wait));
            }
            let r = self.once(eval, root_add);
            proof {
                assert(build_result_view(r) == stepped.0);
                assert(self@ == stepped.1);
            }
            sink.push(Event::Started);
            match r {
                Result::Ok(res) => {
                    let ghost resv = res@;
                    proof {
                        assert(stepped.0 == Result::<BuildResultsView, BuildErrorView>::Ok(resv));
                    }
                    sink.push(Event::Completed(res));
                    proof {
                        assert(sink@.skip(n0) =~= sink_pre.skip(n0) + seq![
                            Event::Started,
                            sink@.last(),
                        ]);
                        assert(events_view(sink@.skip(n0)) =~~= events_view(sink_pre.skip(n0))
                            + seq![EventView::Started, EventView::Completed(resv)]);
                    }
                    match wait {
                        Result::Ok(_) => {
                            proof {
                                assert(cview.wait == Result::<(), Seq<char>>::Ok(()));
                                assert(session_spec(st_pre, rpre).0 =~= seq![
                                    EventView::Started,
                                    EventView::Completed(resv),
                                ] + session_spec(self@, cycles_view(rest@)).0);
                                assert(events_view(sink@.skip(n0)) + session_spec(
                                    self@,
                                    cycles_view(rest@),
                                ).0 =~= events_view(sink_pre.skip(n0)) + session_spec(
                                    st_pre,
                                    rpre,
                                ).0);
                                assert(sink@.subrange(0, n0) =~= sink_pre.subrange(0, n0));
                            }
                        },
                        Result::Err(ne) => {
                            proof {
                                assert(cview.wait == Result::<(), Seq<char>>::Err(ne.msg@));
                                assert(session_spec(st_pre, rpre).0 =~= seq![
                                    EventView::Started,
                                    EventView::Completed(resv),
                                ]);
                                assert(events_view(sink@.skip(n0)) =~= events_view(
                                    sink_pre.skip(n0),
                                ) + session_spec(st_pre, rpre).0);
                                assert(events_view(sink@) =~~= events_view(sink@.subrange(0, n0))
                                    + events_view(sink@.skip(n0)));
                                assert(sink@.subrange(0, n0) =~= sink_pre.subrange(0, n0));
                                assert(session_spec(st_pre, rpre).1 == stepped.1);
                                assert(session_spec(st_pre, rpre).2
                                    == Option::<UnrecoverableView>::Some(
                                    UnrecoverableView::Notify(ne.msg@),
                                ));
                                assert(events_view(sink@) =~~= events_view(old(sink)@)
                                    + session_spec(st0, cv0).0);
                                assert(self@ == session_spec(st0, cv0).1);
                            }
                            return Option::Some(UnrecoverableErrors::Notify(ne));
                        },
                    }
                },
                Result::Err(e) => {
                    match e {
                        BuildError::Recoverable(f) => {
                            let ghost fv = f@;
                            proof {
                                assert(stepped.0 == Result::<
                                    BuildResultsView,
                                    BuildErrorView,
                                >::Err(BuildErrorView::Recoverable(fv)));
                            }
                            sink.push(Event::Failure(f));
                            proof {
                                assert(sink@.skip(n0) =~= sink_pre.skip(n0) + seq![
                                    Event::Started,
                                    sink@.last(),
                                ]);
                                assert(events_view(sink@.skip(n0)) =~~= events_view(
                                    sink_pre.skip(n0),
                                ) + seq![EventView::Started, EventView::Failure(fv)]);
                            }
                            match wait {
                                Result::Ok(_) => {
                                    proof {
                                        assert(cview.wait == Result::<(), Seq<char>>::Ok(()));
                                        assert(session_spec(st_pre, rpre).0 =~= seq![
                                            EventView::Started,
                                            EventView::Failure(fv),
                                        ] + session_spec(self@, cycles_view(rest@)).0);
                                        assert(events_view(sink@.skip(n0)) + session_spec(
                                            self@,
                                            cycles_view(rest@),
                                        ).0 =~= events_view(sink_pre.skip(n0)) + session_spec(
                                            st_pre,
                                            rpre,
                                        ).0);
                                        assert(sink@.subrange(0, n0) =~= sink_pre.subrange(0, n0));
                                    }
                                },
                                Result::Err(ne) => {
                                    proof {
                                        assert(cview.wait == Result::<(), Seq<char>>::Err(
                                            ne.msg@,
                                        ));
                                        assert(session_spec(st_pre, rpre).0 =~= seq![
                                            EventView::Started,
                                            EventView::Failure(fv),
                                        ]);
                                        assert(events_view(sink@.skip(n0)) =~= events_view(
                                            sink_pre.skip(n0),
                                        ) + session_spec(st_pre, rpre).0);
                                        assert(events_view(sink@) =~~= events_view(
                                            sink@.subrange(0, n0),
                                        ) + events_view(sink@.skip(n0)));
                                        assert(sink@.subrange(0, n0) =~= sink_pre.subrange(0, n0));
                                        assert(session_spec(st_pre, rpre).1 == stepped.1);
                                        assert(session_spec(st_pre, rpre).2
                                            == Option::<UnrecoverableView>::Some(
                                            UnrecoverableView::Notify(ne.msg@),
                                        ));
                                        assert(events_view(sink@) =~~= events_view(old(sink)@)
                                            + session_spec(st0, cv0).0);
                                        assert(self@ == session_spec(st0, cv0).1);
                                    }
                                    return Option::Some(UnrecoverableErrors::Notify(ne));
                                },
                            }
                        },
                        BuildError::Unrecoverable(u) => {
                            let ghost uv = u@;
                            proof {
                                assert(stepped.0 == Result::<
                                    BuildResultsView,
                                    BuildErrorView,
                                >::Err(BuildErrorView::Unrecoverable(uv)));
                                assert(session_spec(st_pre, rpre).0 =~= seq![EventView::Started]);
                                assert(sink@.skip(n0) =~= sink_pre.skip(n0) + seq![Event::Started]);
                                assert(events_view(sink@.skip(n0)) =~~= events_view(
                                    sink_pre.skip(n0),
                                ) + seq![EventView::Started]);
                                assert(events_view(sink@) =~~= events_view(sink@.subrange(0, n0))
                                    + events_view(sink@.skip(n0)));
                                assert(sink@.subrange(0, n0) =~= sink_pre.subrange(0, n0));
                                assert(session_spec(st_pre, rpre).1 == stepped.1);
                                assert(session_spec(st_pre, rpre).2
                                    == Option::<UnrecoverableView>::Some(uv));
                                assert(events_view(sink@) =~~= events_view(old(sink)@)
                                    + session_spec(st0, cv0).0);
                                assert(self@ == session_spec(st0, cv0).1);
                            }
                            return Option::Some(u);
                        },
                    }
                },
            }
        }
        proof {
            assert(cycles_view(rest@) =~= Seq::<CycleInputView>::empty());
            assert(session_spec(st0, cv0).0 =~= events_view(sink@.skip(n0)));
            assert(events_view(sink@) =~~= events_view(sink@.subrange(0, n0)) + events_view(
                sink@.skip(n0),
            ));
        }
        Option::None
    }
}

} // verus!
