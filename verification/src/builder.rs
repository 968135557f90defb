//! Structured build information from one evaluator invocation.
//!
//! The evaluator is instrumented so that its stderr carries, among the
//! ordinary log lines, the source files it consulted and the artifacts
//! it produced under attribute names; its stdout lists the produced
//! artifact paths, one per line. This module folds the classified
//! output into [`Info`]. The spawning of the evaluator process itself
//! is the embedder's concern: it hands the captured output in as an
//! [`EvaluatorOutput`].

use vstd::prelude::*;
use crate::parse::{
    classify, classify_lines, split_lines, split_lines_spec, LogDatum, LogDatumView, bytes_equal,
    clone_bytes,
};

verus! {

/// Exit status of the evaluator child process: a success flag and the
/// raw integer code.
#[derive(Debug, Clone, Copy, PartialEq, Eq, Structural)]
pub struct ExitInfo {
    pub success: bool,
    pub code: i32,
}

/// The captured output of one evaluator invocation.
#[derive(Debug, Clone)]
pub struct EvaluatorOutput {
    pub stdout: Vec<u8>,
    pub stderr: Vec<u8>,
    pub exec_result: ExitInfo,
}

/// Mathematical model of an [`EvaluatorOutput`].
pub struct EvalOutputView {
    pub stdout: Seq<u8>,
    pub stderr: Seq<u8>,
    pub exec_result: ExitInfo,
}

impl View for EvaluatorOutput {
    type V = EvalOutputView;

    open spec fn view(&self) -> EvalOutputView {
        EvalOutputView { stdout: self.stdout@, stderr: self.stderr@, exec_result: self.exec_result }
    }
}

/// The results of an individual evaluation. Even when the exit code is
/// not zero there is still valuable information in the output, like new
/// paths to watch.
#[derive(Debug, Clone)]
pub struct Info {
    /// The exit status of the evaluator.
    pub exec_result: ExitInfo,
    /// Artifacts under attribute names; keys are unique, later
    /// occurrences in the log win.
    pub named_drvs: Vec<(Vec<u8>, Vec<u8>)>,
    /// The evaluation's result artifacts, positional, from stdout.
    pub drvs: Vec<Vec<u8>>,
    /// The source paths examined during the evaluation, in log order.
    pub paths: Vec<Vec<u8>>,
    /// The stderr lines not recognized as structured, verbatim.
    pub log_lines: Vec<Vec<u8>>,
}

/// Failure of an individual evaluator invocation's plumbing: the child
/// could not be spawned or awaited. The message is the embedder's
/// description of the underlying fault.
#[derive(Debug, Clone)]
pub enum Error {
    /// I/O failure launching or awaiting the evaluator.
    Io(String),
    /// Failure of a helper thread processing the output.
    ThreadFailure(String),
}

/// Mathematical model of an [`Error`].
pub enum ErrorView {
    Io(Seq<char>),
    ThreadFailure(Seq<char>),
}

impl View for Error {
    type V = ErrorView;

    open spec fn view(&self) -> ErrorView {
        match self {
            Error::Io(m) => ErrorView::Io(m@),
            Error::ThreadFailure(m) => ErrorView::ThreadFailure(m@),
        }
    }
}

/// The byte strings of a sequence of byte vectors.
pub open spec fn bytes_view(v: Seq<Vec<u8>>) -> Seq<Seq<u8>> {
    v.map_values(|x: Vec<u8>| x@)
}

/// The byte-string pairs of a sequence of byte-vector pairs.
pub open spec fn pairs_view(v: Seq<(Vec<u8>, Vec<u8>)>) -> Seq<(Seq<u8>, Seq<u8>)> {
    v.map_values(|p: (Vec<u8>, Vec<u8>)| (p.0@, p.1@))
}

/// The classified stderr stream: one datum per non-empty line.
pub open spec fn stderr_data(stderr: Seq<u8>) -> Seq<LogDatumView> {
    split_lines_spec(stderr).map_values(|l: Seq<u8>| classify(l))
}

/// The source paths of a classified stream, in order.
pub open spec fn fold_sources(data: Seq<LogDatumView>) -> Seq<Seq<u8>>
    decreases data.len(),
{
    if data.len() == 0 {
        Seq::empty()
    } else {
        let rest = fold_sources(data.drop_last());
        match data.last() {
            LogDatumView::Source(p) => rest.push(p),
            _ => rest,
        }
    }
}

/// The unrecognized lines of a classified stream, in order.
pub open spec fn fold_logs(data: Seq<LogDatumView>) -> Seq<Seq<u8>>
    decreases data.len(),
{
    if data.len() == 0 {
        Seq::empty()
    } else {
        let rest = fold_logs(data.drop_last());
        match data.last() {
            LogDatumView::Text(t) => rest.push(t),
            _ => rest,
        }
    }
}

/// Insertion into an association list: an existing key keeps its
/// position and takes the new value, a new key goes to the end.
pub open spec fn assoc_set(m: Seq<(Seq<u8>, Seq<u8>)>, k: Seq<u8>, v: Seq<u8>) -> Seq<(
    Seq<u8>,
    Seq<u8>,
)>
    decreases m.len(),
{
    if m.len() == 0 {
        seq![(k, v)]
    } else if m[0].0 == k {
        seq![(k, v)] + m.drop_first()
    } else {
        seq![m[0]] + assoc_set(m.drop_first(), k, v)
    }
}

/// The named artifacts of a classified stream: an association list in
/// first-appearance order of the names, the last write to a name
/// winning.
pub open spec fn fold_named(data: Seq<LogDatumView>) -> Seq<(Seq<u8>, Seq<u8>)>
    decreases data.len(),
{
    if data.len() == 0 {
        Seq::empty()
    } else {
        let rest = fold_named(data.drop_last());
        match data.last() {
            LogDatumView::AttrDrv(n, d) => assoc_set(rest, n, d),
            _ => rest,
        }
    }
}

/// All keys of the association list differ.
pub open spec fn keys_unique(m: Seq<(Seq<u8>, Seq<u8>)>) -> bool {
    forall|i: int, j: int| 0 <= i < j < m.len() ==> m[i].0 != m[j].0
}

proof fn lemma_assoc_set_found(m: Seq<(Seq<u8>, Seq<u8>)>, k: Seq<u8>, v: Seq<u8>, i: int)
    requires
        0 <= i < m.len(),
        m[i].0 == k,
        forall|j: int| 0 <= j < i ==> m[j].0 != k,
    ensures
        assoc_set(m, k, v) == m.update(i, (k, v)),
    decreases i,
{
    if i == 0 {
        assert(assoc_set(m, k, v) =~= m.update(0, (k, v)));
    } else {
        let m2 = m.drop_first();
        assert(forall|j: int| 0 <= j < i - 1 ==> m2[j].0 != k);
        lemma_assoc_set_found(m2, k, v, i - 1);
        assert(seq![m[0]] + m2.update(i - 1, (k, v)) =~= m.update(i, (k, v)));
    }
}

proof fn lemma_assoc_set_absent(m: Seq<(Seq<u8>, Seq<u8>)>, k: Seq<u8>, v: Seq<u8>)
    requires
        forall|j: int| 0 <= j < m.len() ==> m[j].0 != k,
    ensures
        assoc_set(m, k, v) == m.push((k, v)),
    decreases m.len(),
{
    if m.len() == 0 {
        assert(assoc_set(m, k, v) =~= m.push((k, v)));
    } else {
        let m2 = m.drop_first();
        lemma_assoc_set_absent(m2, k, v);
        assert(seq![m[0]] + m2.push((k, v)) =~= m.push((k, v)));
    }
}

/// A key of `assoc_set(m, k, v)` is `k` or a key of `m`.
proof fn lemma_assoc_set_keys(m: Seq<(Seq<u8>, Seq<u8>)>, k: Seq<u8>, v: Seq<u8>, t: int)
    requires
        0 <= t < assoc_set(m, k, v).len(),
    ensures
        assoc_set(m, k, v)[t].0 == k || exists|j: int|
            0 <= j < m.len() && m[j].0 == assoc_set(m, k, v)[t].0,
    decreases m.len(),
{
    if m.len() == 0 {
    } else if m[0].0 == k {
        if t > 0 {
            assert(assoc_set(m, k, v)[t] == m.drop_first()[t - 1]);
            assert(m[t] == assoc_set(m, k, v)[t]);
        }
    } else {
        if t > 0 {
            lemma_assoc_set_keys(m.drop_first(), k, v, t - 1);
            if exists|j: int|
                0 <= j < m.drop_first().len() && m.drop_first()[j].0 == assoc_set(m, k, v)[t].0 {
                let j = choose|j: int|
                    0 <= j < m.drop_first().len() && m.drop_first()[j].0 == assoc_set(
                        m,
                        k,
                        v,
                    )[t].0;
                assert(m[j + 1].0 == assoc_set(m, k, v)[t].0);
            }
        }
    }
}

proof fn lemma_assoc_set_unique(m: Seq<(Seq<u8>, Seq<u8>)>, k: Seq<u8>, v: Seq<u8>)
    requires
        keys_unique(m),
    ensures
        keys_unique(assoc_set(m, k, v)),
    decreases m.len(),
{
    let r = assoc_set(m, k, v);
    if m.len() == 0 {
    } else if m[0].0 == k {
        assert forall|i: int, j: int| 0 <= i < j < r.len() implies r[i].0 != r[j].0 by {
            assert(r[j] == m.drop_first()[j - 1]);
            assert(r[j] == m[j]);
            if i > 0 {
                assert(r[i] == m[i]);
            }
        }
    } else {
        assert(keys_unique(m.drop_first()));
        lemma_assoc_set_unique(m.drop_first(), k, v);
        let r2 = assoc_set(m.drop_first(), k, v);
        assert forall|i: int, j: int| 0 <= i < j < r.len() implies r[i].0 != r[j].0 by {
            assert(r[j] == r2[j - 1]);
            if i > 0 {
                assert(r[i] == r2[i - 1]);
            } else {
                assert(r[0] == m[0]);
                lemma_assoc_set_keys(m.drop_first(), k, v, j - 1);
                if exists|t: int|
                    0 <= t < m.drop_first().len() && m.drop_first()[t].0 == r2[j - 1].0 {
                    let t = choose|t: int|
                        0 <= t < m.drop_first().len() && m.drop_first()[t].0 == r2[j - 1].0;
                    assert(m[t + 1].0 == r2[j - 1].0);
                }
            }
        }
    }
}

/// The named-artifact fold never repeats a name.
pub proof fn lemma_fold_named_unique(data: Seq<LogDatumView>)
    ensures
        keys_unique(fold_named(data)),
    decreases data.len(),
{
    if data.len() > 0 {
        lemma_fold_named_unique(data.drop_last());
        match data.last() {
            LogDatumView::AttrDrv(n, d) => {
                lemma_assoc_set_unique(fold_named(data.drop_last()), n, d);
            },
            _ => {},
        }
    }
}

fn assoc_insert(m: &mut Vec<(Vec<u8>, Vec<u8>)>, k: Vec<u8>, v: Vec<u8>)
    ensures
        pairs_view(final(m)@) == assoc_set(pairs_view(old(m)@), k@, v@),
{
    let n = m.len();
    let mut i: usize = 0;
    while i < n
        invariant
            i <= n,
            n == m@.len(),
            m@ == old(m)@,
            forall|j: int| 0 <= j < i ==> pairs_view(m@)[j].0 != k@,
        decreases n - i,
    {
        if bytes_equal(&m[i].0, &k) {
            proof {
                lemma_assoc_set_found(pairs_view(m@), k@, v@, i as int);
            }
            m.set(i, (k, v));
            proof {
                assert(pairs_view(m@) =~= pairs_view(old(m)@).update(i as int, (k@, v@)));
            }
            return ;
        }
        i = i + 1;
    }
    proof {
        lemma_assoc_set_absent(pairs_view(m@), k@, v@);
    }
    m.push((k, v));
    proof {
        assert(pairs_view(m@) =~= pairs_view(old(m)@).push((k@, v@)));
    }
}

/// Folds the captured output of one evaluator invocation into
/// structured build information.
///
/// Stdout's non-empty lines are taken verbatim as artifact paths.
/// Each stderr line is classified; sources are collected in order,
/// named artifacts last-write-wins, everything else is kept as log
/// lines.
pub fn parse_build_output(output: &EvaluatorOutput) -> (info: Info)
    ensures
        info.exec_result == output.exec_result,
        bytes_view(info.drvs@) == split_lines_spec(output.stdout@),
        bytes_view(info.paths@) == fold_sources(stderr_data(output.stderr@)),
        pairs_view(info.named_drvs@) == fold_named(stderr_data(output.stderr@)),
        bytes_view(info.log_lines@) == fold_logs(stderr_data(output.stderr@)),
{
    let drvs = split_lines(&output.stdout);
    let lines = split_lines(&output.stderr);
    let data = classify_lines(&lines);
    let ghost dv: Seq<LogDatumView> = stderr_data(output.stderr@);
    proof {
        assert(dv.len() == data@.len());
        assert(forall|t: int| 0 <= t < data@.len() ==> data@[t]@ == dv[t]);
    }
    let n = data.len();
    let mut paths: Vec<Vec<u8>> = Vec::new();
    let mut named: Vec<(Vec<u8>, Vec<u8>)> = Vec::new();
    let mut logs: Vec<Vec<u8>> = Vec::new();
    let mut i: usize = 0;
    while i < n
        invariant
            i <= n,
            n == data@.len(),
            dv.len() == data@.len(),
            forall|t: int| 0 <= t < data@.len() ==> data@[t]@ == dv[t],
            bytes_view(paths@) == fold_sources(dv.take(i as int)),
            pairs_view(named@) == fold_named(dv.take(i as int)),
            bytes_view(logs@) == fold_logs(dv.take(i as int)),
        decreases n - i,
    {
        proof {
            assert(dv.take(i + 1).drop_last() =~= dv.take(i as int));
            assert(dv.take(i + 1).last() == dv[i as int]);
        }
        match &data[i] {
            LogDatum::Source(p) => {
                let pc = clone_bytes(p);
                paths.push(pc);
                proof {
                    assert(bytes_view(paths@) =~= bytes_view(paths@.drop_last()).push(
                        dv[i as int]->Source_0,
                    ));
                }
            },
            LogDatum::AttrDrv(nm, d) => {
                let nc = clone_bytes(nm);
                let dc = clone_bytes(d);
                assoc_insert(&mut named, nc, dc);
            },
            LogDatum::Text(t) => {
                let tc = clone_bytes(t);
                logs.push(tc);
                proof {
                    assert(bytes_view(logs@) =~= bytes_view(logs@.drop_last()).push(
                        dv[i as int]->Text_0,
                    ));
                }
            },
        }
        i = i + 1;
    }
    proof {
        assert(dv.take(n as int) =~= dv);
    }
    Info {
        exec_result: output.exec_result,
        named_drvs: named,
        drvs,
        paths,
        log_lines: logs,
    }
}

} // verus!
