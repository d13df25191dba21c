//! The decisions of a sync round and of the loop around it: which crypto type
//! to use, which files each export writes, and what follows a round.
use vstd::prelude::*;
use crate::config::{Config, ExportSpec, OutputFormat, format_for, opt_view};
use crate::paths::{json_sibling, json_sibling_path, same_path, lemma_json_sibling_distinct};
use crate::text::{chars_of, string_of};

verus! {

/// The crypto type to decrypt with: the configured one, else the one the server
/// reports; `None` leaves the default.
pub open spec fn crypto_type_in_force(configured: Option<Seq<char>>, reported: Option<Seq<char>>) -> Option<
    Seq<char>,
> {
    match configured {
        Some(c) => Some(c),
        None => reported,
    }
}

/// A configured crypto type is the one used, whatever the server reports,
/// nothing included; without one, the server's report is used.
pub proof fn lemma_configured_crypto_type_wins(configured: Seq<char>, reported: Option<Seq<char>>)
    ensures
        crypto_type_in_force(Some(configured), reported) == Some(configured),
        crypto_type_in_force(None, reported) == reported,
{
}

/// The crypto type to decrypt with.
pub fn choose_crypto_type(configured: &Option<String>, reported: &Option<String>) -> (res: Option<String>)
    ensures
        opt_view(res) == crypto_type_in_force(opt_view(*configured), opt_view(*reported)),
        configured is Some ==> opt_view(res) == opt_view(*configured),
        configured is None ==> opt_view(res) == opt_view(*reported),
{
    match configured {
        Some(c) => Some(c.clone()),
        None => match reported {
            Some(r) => Some(r.clone()),
            None => None,
        },
    }
}

/// The kind of a cookie file.
#[derive(Debug, Clone, Copy, PartialEq, Eq, Structural)]
pub enum FileKind {
    /// The Netscape cookie file of curl and wget.
    Netscape,
    /// CookieCloud's own JSON document.
    Json,
}

/// One file to write.
#[derive(Debug)]
pub struct WriteTarget {
    pub path: String,
    pub kind: FileKind,
}

/// The files that an export in format `fmt` to `path` writes, in order: the
/// Netscape file at `path`, the JSON file at `path`, or, for `both`, the
/// Netscape file at `path` and the JSON file beside it.
pub open spec fn targets_of(path: Seq<char>, fmt: OutputFormat) -> Seq<(Seq<char>, FileKind)> {
    match fmt {
        OutputFormat::Netscape => seq![(path, FileKind::Netscape)],
        OutputFormat::Json => seq![(path, FileKind::Json)],
        OutputFormat::Both => seq![(path, FileKind::Netscape), (json_sibling(path), FileKind::Json)],
    }
}

/// Every export writes the file at the path it names, first; `netscape` and
/// `json` write only that file, in their own format, and `both` writes it as a
/// Netscape file and adds one JSON file.
pub proof fn lemma_targets_own_path(path: Seq<char>, fmt: OutputFormat)
    ensures
        targets_of(path, fmt).len() == (if fmt == OutputFormat::Both { 2int } else { 1int }),
        targets_of(path, fmt)[0].0 == path,
        fmt == OutputFormat::Json ==> targets_of(path, fmt)[0].1 == FileKind::Json,
        fmt != OutputFormat::Json ==> targets_of(path, fmt)[0].1 == FileKind::Netscape,
        fmt == OutputFormat::Both ==> targets_of(path, fmt)[1].1 == FileKind::Json,
{
}

/// The two files of the `both` format are distinct files.
pub proof fn lemma_both_targets_distinct(path: Seq<char>)
    ensures
        targets_of(path, OutputFormat::Both).len() == 2,
        !same_path(targets_of(path, OutputFormat::Both)[0].0, targets_of(path, OutputFormat::Both)[1].0),
{
    lemma_json_sibling_distinct(path);
}

/// The view of a list of write targets.
pub open spec fn targets_view(v: Seq<WriteTarget>) -> Seq<(Seq<char>, FileKind)> {
    v.map_values(|t: WriteTarget| (t.path@, t.kind))
}

/// The files that an export in format `fmt` to `path` writes.
pub fn write_targets(path: &str, fmt: OutputFormat) -> (res: Vec<WriteTarget>)
    ensures
        targets_view(res@) == targets_of(path@, fmt),
        res.len() >= 1 && res@[0].path@ == path@,
        fmt == OutputFormat::Json ==> res.len() == 1 && res@[0].kind == FileKind::Json,
        fmt == OutputFormat::Both ==> res.len() == 2 && !same_path(res@[0].path@, res@[1].path@),
{
    let mut res: Vec<WriteTarget> = Vec::new();
    match fmt {
        OutputFormat::Netscape => {
            res.push(WriteTarget { path: String::from_str(path), kind: FileKind::Netscape });
        },
        OutputFormat::Json => {
            res.push(WriteTarget { path: String::from_str(path), kind: FileKind::Json });
        },
        OutputFormat::Both => {
            res.push(WriteTarget { path: String::from_str(path), kind: FileKind::Netscape });
            let json = json_sibling_path(&chars_of(path));
            res.push(WriteTarget { path: string_of(&json), kind: FileKind::Json });
        },
    }
    assert(targets_view(res@) =~= targets_of(path@, fmt));
    proof {
        if fmt == OutputFormat::Both {
            lemma_both_targets_distinct(path@);
            assert(targets_view(res@)[0] == (res@[0].path@, res@[0].kind));
            assert(targets_view(res@)[1] == (res@[1].path@, res@[1].kind));
        }
    }
    res
}

/// What one export does in a round.
#[derive(Debug)]
pub struct ExportPlan {
    /// The format the export is written in.
    pub format: OutputFormat,
    /// The files to write; none in a dry run.
    pub targets: Vec<WriteTarget>,
}

/// The plan of an export: its format, and the files it writes unless the run is
/// dry.
pub open spec fn plan_of(
    global: OutputFormat,
    dry_run: bool,
    spec: crate::config::ExportSpecView,
) -> (OutputFormat, Seq<(Seq<char>, FileKind)>) {
    let fmt = format_for(global, spec);
    (fmt, if dry_run { Seq::empty() } else { targets_of(spec.path, fmt) })
}

/// What each export of `config` does in a round, in the order of the exports.
pub fn plan_exports(config: &Config) -> (res: Vec<ExportPlan>)
    ensures
        res.len() == config.exports.len(),
        forall|i: int|
            0 <= i < res.len() ==> (#[trigger] res@[i].format, targets_view(res@[i].targets@))
                == plan_of(config.global_format, config.dry_run, config.exports@[i]@),
{
    let mut res: Vec<ExportPlan> = Vec::new();
    let mut i: usize = 0;
    while i < config.exports.len()
        invariant
            i <= config.exports.len(),
            res.len() == i,
            forall|j: int|
                0 <= j < i ==> (#[trigger] res@[j].format, targets_view(res@[j].targets@)) == plan_of(
                    config.global_format,
                    config.dry_run,
                    config.exports@[j]@,
                ),
        decreases config.exports.len() - i,
    {
        let spec: &ExportSpec = &config.exports[i];
        let format = config.resolve_format(spec);
        let targets = if config.dry_run {
            let t: Vec<WriteTarget> = Vec::new();
            assert(targets_view(t@) =~= Seq::<(Seq<char>, FileKind)>::empty());
            t
        } else {
            write_targets(spec.path.as_str(), format)
        };
        res.push(ExportPlan { format, targets });
        i = i + 1;
    }
    res
}

/// What an export does after the write of one of its files.
#[derive(Debug, Clone, Copy, PartialEq, Eq, Structural)]
pub enum WriteStep {
    /// Write the file at this index next.
    Write(usize),
    /// Every file was written: the export succeeded.
    Done,
    /// The write failed: the export fails with its error, and no later file of
    /// the export is written.
    Stop,
}

/// The step after the write of file `i` of an export's `n` files: a failed
/// write ends the export, else the next file follows, until none is left.
pub open spec fn write_step(i: int, n: int, succeeded: bool) -> WriteStep {
    if !succeeded {
        WriteStep::Stop
    } else if i + 1 < n {
        WriteStep::Write((i + 1) as usize)
    } else {
        WriteStep::Done
    }
}

/// The step after the write of file `i` of an export's `n` files.
pub fn after_write(i: usize, n: usize, succeeded: bool) -> (res: WriteStep)
    requires
        i < n,
    ensures
        res == write_step(i as int, n as int, succeeded),
{
    if !succeeded {
        WriteStep::Stop
    } else if i + 1 < n {
        WriteStep::Write(i + 1)
    } else {
        WriteStep::Done
    }
}

/// The errors among the outcomes of a round's exports, in the order of the
/// exports.
pub open spec fn failures_of<E>(outcomes: Seq<Option<E>>) -> Seq<E>
    decreases outcomes.len(),
{
    if outcomes.len() == 0 {
        Seq::empty()
    } else {
        let rest = failures_of(outcomes.drop_first());
        match outcomes[0] {
            Some(e) => seq![e] + rest,
            None => rest,
        }
    }
}

/// No export failed exactly when the list of failures is empty.
pub proof fn lemma_no_failures<E>(outcomes: Seq<Option<E>>)
    ensures
        failures_of(outcomes).len() == 0 <==> forall|i: int|
            0 <= i < outcomes.len() ==> #[trigger] outcomes[i] is None,
    decreases outcomes.len(),
{
    if outcomes.len() > 0 {
        lemma_no_failures(outcomes.drop_first());
        if outcomes[0] is None {
            assert forall|i: int| 0 <= i < outcomes.len() && (forall|j: int|
                0 <= j < outcomes.drop_first().len() ==> #[trigger] outcomes.drop_first()[j] is None)
                implies #[trigger] outcomes[i] is None by {
                if i > 0 {
                    assert(outcomes[i] == outcomes.drop_first()[i - 1]);
                }
            }
            assert((forall|i: int| 0 <= i < outcomes.len() ==> #[trigger] outcomes[i] is None) ==> (
            forall|j: int| 0 <= j < outcomes.drop_first().len() ==> #[trigger] outcomes.drop_first()[j] is None)) by {
                assert forall|j: int| 0 <= j < outcomes.drop_first().len() && (forall|i: int|
                    0 <= i < outcomes.len() ==> #[trigger] outcomes[i] is None) implies
                    #[trigger] outcomes.drop_first()[j] is None by {
                    assert(outcomes.drop_first()[j] == outcomes[j + 1]);
                }
            }
        }
    }
}

/// The result of a round from the outcome of each export, `None` for one that
/// succeeded: success where no export failed, else the errors of the failed
/// exports in order. A failed export does not keep later ones from running.
pub fn round_result<E>(outcomes: Vec<Option<E>>) -> (res: Result<(), Vec<E>>)
    ensures
        res is Ok <==> forall|i: int| 0 <= i < outcomes.len() ==> #[trigger] outcomes@[i] is None,
        res matches Err(v) ==> v@ == failures_of(outcomes@) && v.len() > 0,
{
    let ghost all = outcomes@;
    let mut rest = outcomes;
    let mut errors: Vec<E> = Vec::new();
    while rest.len() > 0
        invariant
            errors@ + failures_of(rest@) == failures_of(all),
        decreases rest.len(),
    {
        let ghost before = rest@;
        let first = rest.remove(0);
        proof {
            assert(rest@ =~= before.drop_first());
        }
        match first {
            Some(e) => {
                proof {
                    assert(errors@.push(e) + failures_of(rest@) =~= errors@ + (seq![e] + failures_of(
                        rest@,
                    )));
                }
                errors.push(e);
            },
            None => {},
        }
    }
    proof {
        assert(failures_of(rest@) =~= Seq::<E>::empty());
        assert(errors@ =~= failures_of(all));
        lemma_no_failures(all);
    }
    if errors.len() == 0 {
        Ok(())
    } else {
        Err(errors)
    }
}

/// What the loop does after a round.
#[derive(Debug, Clone, Copy, PartialEq, Eq, Structural)]
pub enum LoopStep {
    /// Stop: the one round asked for succeeded.
    Finish,
    /// Stop with a failure: the one round asked for failed.
    Fail,
    /// Sleep for the configured interval, then run again.
    Wait,
    /// Sleep for the backoff of this many consecutive failures, then run again.
    Retry(u32),
}

/// The step after a round, and the count of consecutive failures after it.
pub open spec fn step_after(once: bool, succeeded: bool, failures: u32) -> (LoopStep, int) {
    if succeeded {
        (if once { LoopStep::Finish } else { LoopStep::Wait }, 0)
    } else {
        (if once { LoopStep::Fail } else { LoopStep::Retry((failures + 1) as u32) }, failures + 1)
    }
}

/// The step after a round, given whether it succeeded and how many rounds had
/// failed in a row before it.
pub fn after_round(once: bool, succeeded: bool, failures: u32) -> (res: (LoopStep, u32))
    requires
        failures < u32::MAX,
    ensures
        (res.0, res.1 as int) == step_after(once, succeeded, failures),
{
    if succeeded {
        (if once { LoopStep::Finish } else { LoopStep::Wait }, 0)
    } else {
        let n = failures + 1;
        (if once { LoopStep::Fail } else { LoopStep::Retry(n) }, n)
    }
}

} // verus!
