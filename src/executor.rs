//! The decisions of the execution engine: which commands of a phase run and
//! in what order, how a finished command is judged, and what an error may
//! show of a command line.

use vstd::prelude::*;

use crate::config::{entries_for, HookDefinition, HookSpec, LifeCyclePhase, SmeeConfig};
use crate::platform::Platform;
use crate::text::{blank, char_is_space, chars_of, is_blank, is_space, push_range};

verus! {

/// The words of a command line: the maximal runs of characters that are not
/// whitespace, in order.
pub open spec fn words(s: Seq<char>) -> Seq<Seq<char>>
    decreases s.len(),
{
    if s.len() == 0 {
        Seq::empty()
    } else {
        let ws = words(s.drop_last());
        let c = s.last();
        if is_space(c) {
            ws
        } else if s.len() >= 2 && !is_space(s[s.len() - 2]) && ws.len() > 0 {
            ws.update(ws.len() - 1, ws.last().push(c))
        } else {
            ws.push(seq![c])
        }
    }
}

/// Whether a word looks like an inline environment assignment (`KEY=VALUE`):
/// it holds `=`, does not start with `-`, and holds no path separator.
pub open spec fn is_assignment(w: Seq<char>) -> bool {
    &&& w.contains('=')
    &&& !(w.len() > 0 && w[0] == '-')
    &&& !w.contains('/')
    &&& !w.contains('\\')
}

/// The position of the first word, from `i` on, that is not an assignment.
pub open spec fn program_position_from(ws: Seq<Seq<char>>, i: int) -> int
    decreases ws.len() - i,
{
    if i < 0 || i >= ws.len() {
        ws.len() as int
    } else if is_assignment(ws[i]) {
        program_position_from(ws, i + 1)
    } else {
        i
    }
}

/// The longest program name shown in full.
pub const SHOWN_NAME_LIMIT: usize = 80;

/// What stands for the arguments of a redacted command line.
pub open spec fn args_marker() -> Seq<char> {
    " <args redacted>"@
}

/// A program name as shown: in full up to the limit, else cut there and
/// followed by an ellipsis.
pub open spec fn shown_name(w: Seq<char>) -> Seq<char> {
    if w.len() > SHOWN_NAME_LIMIT {
        w.take(SHOWN_NAME_LIMIT as int) + "..."@
    } else {
        w
    }
}

/// A command line as an error may show it: the program name, without the
/// assignments before it, and the marker in place of any arguments. A line
/// of assignments alone shows as the marker, with its leading space.
pub open spec fn redacted(s: Seq<char>) -> Seq<char> {
    let ws = words(s);
    let k = program_position_from(ws, 0);
    if k >= ws.len() {
        if ws.len() > 0 {
            args_marker()
        } else {
            Seq::empty()
        }
    } else if k + 1 < ws.len() {
        shown_name(ws[k]) + args_marker()
    } else {
        shown_name(ws[k])
    }
}

/// The program word of a command line, if it has one.
pub open spec fn program_word(s: Seq<char>) -> Option<Seq<char>> {
    let ws = words(s);
    let k = program_position_from(ws, 0);
    if k < ws.len() {
        Some(ws[k])
    } else {
        None
    }
}

/// Whether a command line has words after its program word.
pub open spec fn has_arguments(s: Seq<char>) -> bool {
    let ws = words(s);
    program_position_from(ws, 0) + 1 < ws.len()
}

/// Redaction shows nothing of a command line but its program word: two
/// lines with the same program word, both with or both without arguments,
/// show alike whatever their assignments and arguments hold, so no secret
/// passed there reaches an error message.
pub proof fn lemma_redaction_hides_secrets(a: Seq<char>, b: Seq<char>)
    requires
        program_word(a) == program_word(b),
        program_word(a) is Some,
        has_arguments(a) == has_arguments(b),
    ensures
        redacted(a) == redacted(b),
{
}

/// Whether `x` occurs in `s` as a run of consecutive characters.
pub open spec fn occurs(s: Seq<char>, x: Seq<char>) -> bool {
    exists|o: int| 0 <= o && o + x.len() <= s.len() && #[trigger] s.subrange(o, o + x.len()) == x
}

proof fn lemma_occurs_split(a: Seq<char>, b: Seq<char>, x: Seq<char>)
    requires
        x.len() > 0,
        !x.contains(' '),
        occurs(a + seq![' '] + b, x),
    ensures
        occurs(a, x) || occurs(b, x),
{
    let s = a + seq![' '] + b;
    let o = choose|o: int| 0 <= o && o + x.len() <= s.len() && #[trigger] s.subrange(o, o + x.len()) == x;
    let n = a.len() as int;
    if o <= n && n < o + x.len() {
        assert(x[n - o] == s[n]);
        assert(x.contains(' '));
    } else if o + x.len() <= n {
        assert(a.subrange(o, o + x.len()) =~= s.subrange(o, o + x.len()));
    } else {
        assert(b.subrange(o - n - 1, o - n - 1 + x.len()) =~= s.subrange(o, o + x.len()));
    }
}

/// A secret never appears in the redacted text of a command line: any text
/// without a space that is neither part of the program name as shown nor
/// part of a word of the marker (`<args`, `redacted>`) is absent from it,
/// whatever assignments and arguments hold it.
pub proof fn lemma_redaction_omits(s: Seq<char>, x: Seq<char>)
    requires
        x.len() > 0,
        !x.contains(' '),
        program_word(s) matches Some(w) ==> !occurs(shown_name(w), x),
        !occurs("<args"@, x),
        !occurs("redacted>"@, x),
    ensures
        !occurs(redacted(s), x),
{
    reveal_strlit(" <args redacted>");
    reveal_strlit("<args");
    reveal_strlit("redacted>");
    let tail = "<args"@ + seq![' '] + "redacted>"@;
    assert(args_marker() =~= Seq::<char>::empty() + seq![' '] + tail);
    if occurs(tail, x) {
        lemma_occurs_split("<args"@, "redacted>"@, x);
    }
    if occurs(Seq::<char>::empty() + seq![' '] + tail, x) {
        lemma_occurs_split(Seq::<char>::empty(), tail, x);
    }
    let ws = words(s);
    let k = program_position_from(ws, 0);
    if k < ws.len() && k + 1 < ws.len() {
        let shown = shown_name(ws[k]);
        assert(redacted(s) =~= shown + seq![' '] + tail);
        if occurs(redacted(s), x) {
            lemma_occurs_split(shown, tail, x);
        }
    } else if k >= ws.len() && ws.len() == 0 {
        assert(redacted(s) =~= Seq::<char>::empty());
    }
}

/// A command line of one word that is not an assignment, of at most the
/// shown length, redacts to exactly that word.
pub proof fn lemma_single_word_shown_whole(s: Seq<char>)
    requires
        s.len() > 0,
        s.len() <= SHOWN_NAME_LIMIT,
        forall|i: int| 0 <= i < s.len() ==> !is_space(#[trigger] s[i]),
        !is_assignment(s),
    ensures
        redacted(s) == s,
{
    lemma_words_single(s);
}

proof fn lemma_words_single(s: Seq<char>)
    requires
        s.len() > 0,
        forall|i: int| 0 <= i < s.len() ==> !is_space(#[trigger] s[i]),
    ensures
        words(s) == seq![s],
    decreases s.len(),
{
    let p = s.drop_last();
    if s.len() == 1 {
        assert(words(p) == Seq::<Seq<char>>::empty());
        assert(seq![s.last()] =~= s);
    } else {
        assert(forall|i: int| 0 <= i < p.len() ==> p[i] == s[i]);
        lemma_words_single(p);
        assert(s[s.len() - 2] == p.last());
        assert(p.push(s.last()) =~= s);
        assert(words(s) =~= seq![s]);
    }
}

proof fn lemma_words_step(s: Seq<char>, i: int)
    requires
        0 <= i < s.len(),
    ensures
        s.take(i + 1).drop_last() == s.take(i),
        s.take(i + 1).last() == s[i],
        i >= 1 ==> s.take(i + 1)[i - 1] == s[i - 1],
{
    assert(s.take(i + 1).drop_last() =~= s.take(i));
}

/// The words of `s`.
fn split_words(s: &str) -> (r: Vec<Vec<char>>)
    ensures
        r.deep_view() == words(s@),
{
    let cs = chars_of(s);
    let ghost t = cs@;
    let mut r: Vec<Vec<char>> = Vec::new();
    let mut current: Vec<char> = Vec::new();
    let mut in_word = false;
    let mut i: usize = 0;
    assert(t.take(0) =~= Seq::<char>::empty());
    assert(r.deep_view() =~= Seq::<Seq<char>>::empty());
    while i < cs.len()
        invariant
            t == cs@,
            t == s@,
            i <= t.len(),
            in_word ==> i > 0 && !is_space(t[i - 1]),
            i > 0 && !is_space(t[i - 1]) ==> in_word,
            in_word ==> words(t.take(i as int)) == r.deep_view().push(current.deep_view()),
            !in_word ==> words(t.take(i as int)) == r.deep_view(),
            !in_word ==> current.deep_view().len() == 0,
        decreases t.len() - i,
    {
        let c = cs[i];
        proof {
            lemma_words_step(t, i as int);
        }
        if char_is_space(c) {
            if in_word {
                let ghost before = r.deep_view();
                let ghost word = current.deep_view();
                r.push(current);
                assert(r.deep_view() =~= before.push(word));
                current = Vec::new();
                in_word = false;
            }
        } else {
            let ghost old_word = current.deep_view();
            current.push(c);
            if !in_word {
                assert(current.deep_view() =~= seq![c]);
            } else {
                assert(current.deep_view() =~= old_word.push(c));
            }
            in_word = true;
            assert(words(t.take(i + 1)) =~= r.deep_view().push(current.deep_view()));
        }
        i = i + 1;
    }
    assert(t.take(i as int) =~= t);
    if in_word {
        let ghost before = r.deep_view();
        let ghost word = current.deep_view();
        r.push(current);
        assert(r.deep_view() =~= before.push(word));
    }
    r
}

/// Whether the word `w` looks like an inline environment assignment.
fn assignment_word(w: &Vec<char>) -> (r: bool)
    ensures
        r == is_assignment(w@),
{
    let mut has_eq = false;
    let mut has_sep = false;
    let mut i: usize = 0;
    while i < w.len()
        invariant
            i <= w@.len(),
            has_eq == (exists|j: int| 0 <= j < i && #[trigger] w@[j] == '='),
            has_sep == (exists|j: int| 0 <= j < i && (#[trigger] w@[j] == '/' || w@[j] == '\\')),
        decreases w@.len() - i,
    {
        let c = w[i];
        if c == '=' {
            has_eq = true;
        }
        if c == '/' || c == '\\' {
            has_sep = true;
        }
        i = i + 1;
    }
    assert(has_eq == w@.contains('='));
    assert(has_sep == (w@.contains('/') || w@.contains('\\')));
    has_eq && !(w.len() > 0 && w[0] == '-') && !has_sep
}

/// The command line as an error may show it (see [`redacted`]).
pub fn redact(command: &str) -> (r: String)
    ensures
        r@ == redacted(command@),
{
    let ws = split_words(command);
    let ghost dv = ws.deep_view();
    let mut k: usize = 0;
    loop
        invariant
            dv == ws.deep_view(),
            dv == words(command@),
            k <= ws@.len(),
            program_position_from(dv, 0) == program_position_from(dv, k as int),
        ensures
            k <= ws@.len(),
            program_position_from(dv, 0) == program_position_from(dv, k as int),
            k >= ws@.len() || !is_assignment(dv[k as int]),
        decreases ws@.len() - k,
    {
        if k >= ws.len() {
            break;
        }
        assert(dv[k as int] =~= ws@[k as int]@);
        if !assignment_word(&ws[k]) {
            break;
        }
        k = k + 1;
    }
    proof {
        reveal_strlit(" <args redacted>");
        reveal_strlit("...");
    }
    let mut r = String::new();
    if k >= ws.len() {
        if ws.len() > 0 {
            r.append(" <args redacted>");
        }
        return r;
    }
    let w = &ws[k];
    assert(dv[k as int] =~= w@);
    if w.len() > SHOWN_NAME_LIMIT {
        push_range(&mut r, w, 0, SHOWN_NAME_LIMIT);
        r.append("...");
        assert(w@.subrange(0, SHOWN_NAME_LIMIT as int) =~= w@.take(SHOWN_NAME_LIMIT as int));
    } else {
        push_range(&mut r, w, 0, w.len());
        assert(w@.subrange(0, w@.len() as int) =~= w@);
    }
    if k + 1 < ws.len() {
        r.append(" <args redacted>");
    }
    assert(r@ =~= redacted(command@));
    r
}

/// Why a hook command, or the run of a phase, failed.
#[derive(Debug)]
pub enum Error {
    /// The command ran and exited with this nonzero code.
    ExecutionFailed(i32),
    /// The command ended without an exit code, as when a signal stops it.
    ExecutionTerminatedBySignal,
    /// The configuration has no entry list for the phase.
    NoHooksConfigured(LifeCyclePhase),
    /// The command is empty once trimmed.
    NoCommandDefined,
    /// The shell could not be started. `command` is the redacted command
    /// line, `shell` the shell invocation and `reason` what the system said.
    CommandSpawnFailed { command: String, shell: String, reason: String },
}

/// How a started command ended, as the process layer saw it.
#[derive(Debug)]
pub enum ProcessOutcome {
    /// The process exited with this code.
    Exited(i32),
    /// The process ended without an exit code.
    Signalled,
    /// The shell could not be started; the text is the system's reason.
    SpawnFailed(String),
}

/// The shell invocation as an error shows it.
pub open spec fn shell_description(platform: Platform) -> Seq<char> {
    match platform {
        Platform::Unix => "sh -c"@,
        Platform::Windows => "cmd.exe /C"@,
    }
}

/// The program, flag and command line that run `command` on `platform`,
/// unless the command is empty once trimmed.
pub fn command_line(platform: Platform, command: &str) -> (r: Result<(&'static str, &'static str), Error>)
    ensures
        is_blank(command@) ==> r matches Err(Error::NoCommandDefined),
        !is_blank(command@) ==> (r matches Ok(inv) && (platform == Platform::Unix ==> inv.0@ == "sh"@
            && inv.1@ == "-c"@) && (platform == Platform::Windows ==> inv.0@ == "cmd.exe"@ && inv.1@
            == "/C"@)),
{
    if blank(command) {
        return Err(Error::NoCommandDefined);
    }
    Ok(platform.shell_invocation())
}

/// Judges a command that was handed to the shell: exit code zero is
/// success, another code is `ExecutionFailed` with that code, no code is
/// `ExecutionTerminatedBySignal`, and a shell that could not start is
/// `CommandSpawnFailed`, which shows the command only redacted.
pub fn judge_outcome(platform: Platform, command: &str, outcome: ProcessOutcome) -> (r: Result<(), Error>)
    ensures
        outcome matches ProcessOutcome::Exited(code) ==> (code == 0 <==> r is Ok) && (code != 0 ==> r
            == Err::<(), Error>(Error::ExecutionFailed(code))),
        outcome is Signalled ==> r matches Err(Error::ExecutionTerminatedBySignal),
        outcome matches ProcessOutcome::SpawnFailed(why) ==> (r matches Err(
            Error::CommandSpawnFailed { command: shown, shell, reason },
        ) && shown@ == redacted(command@) && shell@ == shell_description(platform) && reason@
            == why@),
{
    match outcome {
        ProcessOutcome::Exited(code) => {
            if code == 0 {
                Ok(())
            } else {
                Err(Error::ExecutionFailed(code))
            }
        },
        ProcessOutcome::Signalled => Err(Error::ExecutionTerminatedBySignal),
        ProcessOutcome::SpawnFailed(reason) => {
            let shell = match platform {
                Platform::Unix => String::from_str("sh -c"),
                Platform::Windows => String::from_str("cmd.exe /C"),
            };
            Err(Error::CommandSpawnFailed { command: redact(command), shell, reason })
        },
    }
}

/// The commands of entries whose `parallel_execution_allowed` equals
/// `parallel`, in the entries' order.
pub open spec fn commands_where(hooks: Seq<HookSpec>, parallel: bool) -> Seq<Seq<char>>
    decreases hooks.len(),
{
    if hooks.len() == 0 {
        Seq::empty()
    } else {
        let r = commands_where(hooks.drop_last(), parallel);
        if hooks.last().parallel_execution_allowed == parallel {
            r.push(hooks.last().command)
        } else {
            r
        }
    }
}

/// Where the run of a phase stands.
#[derive(Debug, PartialEq, Eq, Structural, Clone, Copy)]
pub enum Stage {
    /// Running the sequential commands, one at a time.
    Sequential,
    /// Running the parallel commands, all at once.
    Parallel,
    /// Nothing is left to run.
    Done,
}

/// The run of a phase as values: how many sequential and parallel commands
/// it has, how many sequential commands have succeeded, and its stage.
pub struct RunModel {
    pub seq_len: nat,
    pub par_len: nat,
    pub position: nat,
    pub stage: Stage,
}

/// What the engine asks for next, as values.
pub enum StepModel {
    /// Run the sequential command at this position, and wait for it.
    One(int),
    /// Run every parallel command, and wait for all of them.
    All,
    /// Nothing more: the run is over.
    Finished,
}

/// The start of a run: the first sequential command if there is one, else
/// the parallel ones, else nothing.
pub open spec fn initial(seq_len: nat, par_len: nat) -> RunModel {
    RunModel {
        seq_len,
        par_len,
        position: 0,
        stage: if seq_len > 0 {
            Stage::Sequential
        } else if par_len > 0 {
            Stage::Parallel
        } else {
            Stage::Done
        },
    }
}

/// The run after the step it asked for ended, in success (`ok`) or failure.
/// A failure ends the run; the parallel commands start only after the last
/// sequential command succeeded.
pub open spec fn advance(m: RunModel, ok: bool) -> RunModel {
    match m.stage {
        Stage::Sequential => if !ok {
            RunModel { stage: Stage::Done, ..m }
        } else if m.position + 1 < m.seq_len {
            RunModel { position: m.position + 1, ..m }
        } else {
            RunModel {
                position: m.seq_len,
                stage: if m.par_len > 0 {
                    Stage::Parallel
                } else {
                    Stage::Done
                },
                ..m
            }
        },
        Stage::Parallel => RunModel { stage: Stage::Done, ..m },
        Stage::Done => m,
    }
}

/// The step that a run asks for.
pub open spec fn issued(m: RunModel) -> StepModel {
    match m.stage {
        Stage::Sequential => StepModel::One(m.position as int),
        Stage::Parallel => StepModel::All,
        Stage::Done => StepModel::Finished,
    }
}

/// The steps that a run asks for, one after the other, when the steps end
/// as `oks` says, up to the end of the run or of `oks`.
pub open spec fn trace(m: RunModel, oks: Seq<bool>) -> Seq<StepModel>
    decreases oks.len(),
{
    if oks.len() == 0 || m.stage == Stage::Done {
        seq![issued(m)]
    } else {
        seq![issued(m)] + trace(advance(m, oks[0]), oks.drop_first())
    }
}

proof fn lemma_trace_succeeding(m: RunModel, oks: Seq<bool>)
    requires
        m.stage == Stage::Sequential,
        m.position < m.seq_len,
        m.par_len > 0,
        oks.len() == m.seq_len - m.position + 1,
        forall|i: int| 0 <= i < m.seq_len - m.position ==> oks[i],
    ensures
        trace(m, oks) == Seq::new((m.seq_len - m.position) as nat, |i: int| StepModel::One(m.position + i))
            + seq![StepModel::All, StepModel::Finished],
    decreases m.seq_len - m.position,
{
    let n = (m.seq_len - m.position) as nat;
    let next = advance(m, oks[0]);
    let rest = oks.drop_first();
    if m.position + 1 < m.seq_len {
        lemma_trace_succeeding(next, rest);
        assert(trace(m, oks) =~= Seq::new(n, |i: int| StepModel::One(m.position + i)) + seq![
            StepModel::All,
            StepModel::Finished,
        ]);
    } else {
        assert(next.stage == Stage::Parallel);
        assert(rest.len() == 1);
        assert(rest.drop_first().len() == 0);
        assert(trace(advance(next, rest[0]), rest.drop_first()) == seq![StepModel::Finished]);
        assert(trace(next, rest) =~= seq![StepModel::All, StepModel::Finished]);
        assert(trace(m, oks) =~= Seq::new(n, |i: int| StepModel::One(m.position + i)) + seq![
            StepModel::All,
            StepModel::Finished,
        ]);
    }
}

/// With every sequential command succeeding, the run asks for the
/// sequential commands one by one in their declared order, and only then
/// for the parallel commands.
pub proof fn lemma_sequential_before_parallel(seq_len: nat, par_len: nat, oks: Seq<bool>)
    requires
        seq_len > 0,
        par_len > 0,
        oks.len() == seq_len + 1,
        forall|i: int| 0 <= i < seq_len ==> oks[i],
    ensures
        trace(initial(seq_len, par_len), oks) == Seq::new(seq_len, |i: int| StepModel::One(i)) + seq![
            StepModel::All,
            StepModel::Finished,
        ],
{
    lemma_trace_succeeding(initial(seq_len, par_len), oks);
    assert(Seq::new(seq_len, |i: int| StepModel::One(0 + i)) =~= Seq::new(seq_len, |i: int| StepModel::One(i)));
}

proof fn lemma_trace_failing(m: RunModel, oks: Seq<bool>, f: int)
    requires
        m.stage == Stage::Sequential,
        m.position <= f < m.seq_len,
        f - m.position < oks.len(),
        forall|i: int| 0 <= i < f - m.position ==> oks[i],
        !oks[f - m.position],
    ensures
        trace(m, oks) == Seq::new((f - m.position + 1) as nat, |i: int| StepModel::One(m.position + i))
            + seq![StepModel::Finished],
    decreases f - m.position,
{
    let k = (f - m.position + 1) as nat;
    let next = advance(m, oks[0]);
    let rest = oks.drop_first();
    if m.position == f {
        assert(next.stage == Stage::Done);
        assert(trace(next, rest) == seq![StepModel::Finished]);
        assert(trace(m, oks) =~= Seq::new(k, |i: int| StepModel::One(m.position + i)) + seq![
            StepModel::Finished,
        ]);
    } else {
        assert(oks[0]);
        lemma_trace_failing(next, rest, f);
        assert(trace(m, oks) =~= Seq::new(k, |i: int| StepModel::One(m.position + i)) + seq![
            StepModel::Finished,
        ]);
    }
}

/// A failing sequential command ends the run: the commands after it are not
/// asked for, and no parallel command is.
pub proof fn lemma_failure_short_circuits(seq_len: nat, par_len: nat, oks: Seq<bool>, f: int)
    requires
        0 <= f < seq_len,
        f < oks.len(),
        forall|i: int| 0 <= i < f ==> oks[i],
        !oks[f],
    ensures
        trace(initial(seq_len, par_len), oks) == Seq::new((f + 1) as nat, |i: int| StepModel::One(i)) + seq![
            StepModel::Finished,
        ],
        !trace(initial(seq_len, par_len), oks).contains(StepModel::All),
{
    lemma_trace_failing(initial(seq_len, par_len), oks, f);
    let t = trace(initial(seq_len, par_len), oks);
    assert(Seq::new((f + 1) as nat, |i: int| StepModel::One(0 + i)) =~= Seq::new((f + 1) as nat, |i: int| StepModel::One(i)));
    assert forall|i: int| 0 <= i < t.len() implies t[i] != StepModel::All by {
        if i < f + 1 {
            assert(t[i] == StepModel::One(i));
        } else {
            assert(t[i] == StepModel::Finished);
        }
    }
}

/// What the engine asks for next.
#[derive(Debug, PartialEq, Eq, Structural, Clone, Copy)]
pub enum Step {
    /// Run the sequential command at this position, and record how it ended.
    RunSequential(usize),
    /// Run all the parallel commands, and record how they ended: the first
    /// failure observed, or success.
    RunParallel,
    /// Nothing more: take the result with [`PhaseRun::finish`].
    Finished,
}

/// A step as values.
pub open spec fn step_model(s: Step) -> StepModel {
    match s {
        Step::RunSequential(i) => StepModel::One(i as int),
        Step::RunParallel => StepModel::All,
        Step::Finished => StepModel::Finished,
    }
}

/// The run of the commands of one phase: the sequential group, in declared
/// order, then the parallel group, stopping at the first failure. The
/// caller performs each step that [`PhaseRun::next_step`] asks for and
/// records how it ended.
#[derive(Debug)]
pub struct PhaseRun {
    sequential: Vec<String>,
    parallel: Vec<String>,
    position: usize,
    stage: Stage,
    failure: Option<Error>,
}

impl PhaseRun {
    /// The run as values.
    pub closed spec fn model(&self) -> RunModel {
        RunModel {
            seq_len: self.sequential@.len(),
            par_len: self.parallel@.len(),
            position: self.position as nat,
            stage: self.stage,
        }
    }

    /// The commands of the sequential group, in order.
    pub closed spec fn sequential_view(&self) -> Seq<Seq<char>> {
        self.sequential@.map_values(|c: String| c@)
    }

    /// The commands of the parallel group, in order.
    pub closed spec fn parallel_view(&self) -> Seq<Seq<char>> {
        self.parallel@.map_values(|c: String| c@)
    }

    /// The failure recorded, if any.
    pub closed spec fn failure_view(&self) -> Option<Error> {
        self.failure
    }

    /// The run is consistent: its position stays within the sequential
    /// group, a run in the parallel stage has passed all of it, and only a
    /// finished run holds a failure.
    pub closed spec fn well_formed(&self) -> bool {
        &&& self.position <= self.sequential@.len()
        &&& self.stage == Stage::Sequential ==> self.position < self.sequential@.len()
        &&& self.stage == Stage::Parallel ==> self.position == self.sequential@.len()
            && self.parallel@.len() > 0
        &&& self.failure is Some ==> self.stage == Stage::Done
    }

    /// Starts the run of `phase`: its entries split into the sequential
    /// group and the parallel group, each in declared order. A phase with
    /// no entry list in the configuration is `NoHooksConfigured`.
    pub fn start(config: &SmeeConfig, phase: LifeCyclePhase) -> (r: Result<PhaseRun, Error>)
        ensures
            match entries_for(config@, phase) {
                None => r matches Err(Error::NoHooksConfigured(p)) && p == phase,
                Some(hooks) => r matches Ok(run) && run.well_formed() && run.sequential_view()
                    == commands_where(hooks, false) && run.parallel_view() == commands_where(
                    hooks,
                    true,
                ) && run.model() == initial(
                    commands_where(hooks, false).len(),
                    commands_where(hooks, true).len(),
                ) && run.failure_view() is None,
            },
    {
        let hooks = match config.get(phase) {
            None => {
                return Err(Error::NoHooksConfigured(phase));
            },
            Some(hooks) => hooks,
        };
        let ghost hs = crate::config::specs_of(hooks@);
        let mut sequential: Vec<String> = Vec::new();
        let mut parallel: Vec<String> = Vec::new();
        let mut i: usize = 0;
        while i < hooks.len()
            invariant
                hs == crate::config::specs_of(hooks@),
                i <= hooks@.len(),
                sequential@.map_values(|c: String| c@) == commands_where(hs.take(i as int), false),
                parallel@.map_values(|c: String| c@) == commands_where(hs.take(i as int), true),
            decreases hooks@.len() - i,
        {
            let hook: &HookDefinition = &hooks[i];
            assert(hs.take(i + 1).drop_last() =~= hs.take(i as int));
            assert(hs.take(i + 1).last() == hook@);
            if hook.parallel_execution_allowed {
                parallel.push(hook.command.clone());
            } else {
                sequential.push(hook.command.clone());
            }
            i = i + 1;
            assert(sequential@.map_values(|c: String| c@) =~= commands_where(hs.take(i as int), false));
            assert(parallel@.map_values(|c: String| c@) =~= commands_where(hs.take(i as int), true));
        }
        assert(hs.take(i as int) =~= hs);
        let stage = if sequential.len() > 0 {
            Stage::Sequential
        } else if parallel.len() > 0 {
            Stage::Parallel
        } else {
            Stage::Done
        };
        Ok(PhaseRun { sequential, parallel, position: 0, stage, failure: None })
    }

    /// The step that the run asks for.
    pub fn next_step(&self) -> (r: Step)
        requires
            self.well_formed(),
        ensures
            step_model(r) == issued(self.model()),
            r matches Step::RunSequential(i) ==> i < self.sequential_view().len(),
    {
        match self.stage {
            Stage::Sequential => Step::RunSequential(self.position),
            Stage::Parallel => Step::RunParallel,
            Stage::Done => Step::Finished,
        }
    }

    /// The sequential command at position `i`.
    pub fn sequential_command(&self, i: usize) -> (r: &str)
        requires
            i < self.sequential_view().len(),
        ensures
            r@ == self.sequential_view()[i as int],
    {
        self.sequential[i].as_str()
    }

    /// The commands of the parallel group.
    pub fn parallel_commands(&self) -> (r: &Vec<String>)
        ensures
            r@.map_values(|c: String| c@) == self.parallel_view(),
    {
        &self.parallel
    }

    /// Records how the step that the run asked for ended.
    pub fn record(&mut self, result: Result<(), Error>)
        requires
            old(self).well_formed(),
            old(self).model().stage != Stage::Done,
        ensures
            final(self).well_formed(),
            final(self).model() == advance(old(self).model(), result is Ok),
            final(self).sequential_view() == old(self).sequential_view(),
            final(self).parallel_view() == old(self).parallel_view(),
            match result {
                Ok(()) => final(self).failure_view() == old(self).failure_view(),
                Err(e) => final(self).failure_view() == Some(e),
            },
    {
        match result {
            Err(e) => {
                self.stage = Stage::Done;
                self.failure = Some(e);
            },
            Ok(()) => {
                match self.stage {
                    Stage::Sequential => {
                        if self.position < self.sequential.len() - 1 {
                            self.position = self.position + 1;
                        } else {
                            self.position = self.sequential.len();
                            if self.parallel.len() > 0 {
                                self.stage = Stage::Parallel;
                            } else {
                                self.stage = Stage::Done;
                            }
                        }
                    },
                    _ => {
                        self.stage = Stage::Done;
                    },
                }
            },
        }
    }

    /// The result of a finished run: the failure that ended it, or success.
    pub fn finish(self) -> (r: Result<(), Error>)
        requires
            self.model().stage == Stage::Done,
        ensures
            match self.failure_view() {
                Some(e) => r == Err::<(), Error>(e),
                None => r is Ok,
            },
    {
        match self.failure {
            Some(e) => Err(e),
            None => Ok(()),
        }
    }
}

} // verus!
