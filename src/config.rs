//! The hook configuration: the vocabulary of lifecycle phases, the entries
//! configured for each phase, and the rules that a configuration obeys.

use vstd::prelude::*;

use std::collections::BTreeMap;

use crate::text::{blank, is_blank, same_text};

verus! {

/// A hook phase of the version-control tool, client side first, then server
/// side.
#[derive(PartialEq, Eq, Structural, Hash, Debug, Clone, Copy)]
pub enum LifeCyclePhase {
    ApplypatchMsg,
    PreApplypatch,
    PostApplypatch,
    PreCommit,
    PrepareCommitMsg,
    CommitMsg,
    PostCommit,
    PreMergeCommit,
    PreRebase,
    PostCheckout,
    PostMerge,
    PostRewrite,
    PrePush,
    ReferenceTransaction,
    PushToCheckout,
    PreAutoGc,
    PostUpdate,
    FsmonitorWatchman,
    PostIndexChange,
    PreReceive,
    Update,
    ProcReceive,
    PostReceive,
}

/// The kebab-case name of a phase.
pub open spec fn phase_name(p: LifeCyclePhase) -> Seq<char> {
    match p {
            LifeCyclePhase::ApplypatchMsg => "applypatch-msg"@,
            LifeCyclePhase::PreApplypatch => "pre-applypatch"@,
            LifeCyclePhase::PostApplypatch => "post-applypatch"@,
            LifeCyclePhase::PreCommit => "pre-commit"@,
            LifeCyclePhase::PrepareCommitMsg => "prepare-commit-msg"@,
            LifeCyclePhase::CommitMsg => "commit-msg"@,
            LifeCyclePhase::PostCommit => "post-commit"@,
            LifeCyclePhase::PreMergeCommit => "pre-merge-commit"@,
            LifeCyclePhase::PreRebase => "pre-rebase"@,
            LifeCyclePhase::PostCheckout => "post-checkout"@,
            LifeCyclePhase::PostMerge => "post-merge"@,
            LifeCyclePhase::PostRewrite => "post-rewrite"@,
            LifeCyclePhase::PrePush => "pre-push"@,
            LifeCyclePhase::ReferenceTransaction => "reference-transaction"@,
            LifeCyclePhase::PushToCheckout => "push-to-checkout"@,
            LifeCyclePhase::PreAutoGc => "pre-auto-gc"@,
            LifeCyclePhase::PostUpdate => "post-update"@,
            LifeCyclePhase::FsmonitorWatchman => "fsmonitor-watchman"@,
            LifeCyclePhase::PostIndexChange => "post-index-change"@,
            LifeCyclePhase::PreReceive => "pre-receive"@,
            LifeCyclePhase::Update => "update"@,
            LifeCyclePhase::ProcReceive => "proc-receive"@,
            LifeCyclePhase::PostReceive => "post-receive"@,
    }
}

/// Whether `s` names some phase.
pub open spec fn names_a_phase(s: Seq<char>) -> bool {
    exists|p: LifeCyclePhase| phase_name(p) == s
}

/// A few characters of a name, enough to tell the phases' names apart.
spec fn name_signature(s: Seq<char>) -> (nat, char, char) {
    (s.len(), s[1], s[s.len() - 2])
}

spec fn phase_signature(p: LifeCyclePhase) -> (nat, char, char) {
    match p {
        LifeCyclePhase::ApplypatchMsg => (14, 'p', 's'),
        LifeCyclePhase::PreApplypatch => (14, 'r', 'c'),
        LifeCyclePhase::PostApplypatch => (15, 'o', 'c'),
        LifeCyclePhase::PreCommit => (10, 'r', 'i'),
        LifeCyclePhase::PrepareCommitMsg => (18, 'r', 's'),
        LifeCyclePhase::CommitMsg => (10, 'o', 's'),
        LifeCyclePhase::PostCommit => (11, 'o', 'i'),
        LifeCyclePhase::PreMergeCommit => (16, 'r', 'i'),
        LifeCyclePhase::PreRebase => (10, 'r', 's'),
        LifeCyclePhase::PostCheckout => (13, 'o', 'u'),
        LifeCyclePhase::PostMerge => (10, 'o', 'g'),
        LifeCyclePhase::PostRewrite => (12, 'o', 't'),
        LifeCyclePhase::PrePush => (8, 'r', 's'),
        LifeCyclePhase::ReferenceTransaction => (21, 'e', 'o'),
        LifeCyclePhase::PushToCheckout => (16, 'u', 'u'),
        LifeCyclePhase::PreAutoGc => (11, 'r', 'g'),
        LifeCyclePhase::PostUpdate => (11, 'o', 't'),
        LifeCyclePhase::FsmonitorWatchman => (18, 's', 'a'),
        LifeCyclePhase::PostIndexChange => (17, 'o', 'g'),
        LifeCyclePhase::PreReceive => (11, 'r', 'v'),
        LifeCyclePhase::Update => (6, 'p', 't'),
        LifeCyclePhase::ProcReceive => (12, 'r', 'v'),
        LifeCyclePhase::PostReceive => (12, 'o', 'v'),
    }
}

proof fn lemma_phase_signature(p: LifeCyclePhase)
    ensures
        name_signature(phase_name(p)) == phase_signature(p),
{
    match p {
        LifeCyclePhase::ApplypatchMsg => reveal_strlit("applypatch-msg"),
        LifeCyclePhase::PreApplypatch => reveal_strlit("pre-applypatch"),
        LifeCyclePhase::PostApplypatch => reveal_strlit("post-applypatch"),
        LifeCyclePhase::PreCommit => reveal_strlit("pre-commit"),
        LifeCyclePhase::PrepareCommitMsg => reveal_strlit("prepare-commit-msg"),
        LifeCyclePhase::CommitMsg => reveal_strlit("commit-msg"),
        LifeCyclePhase::PostCommit => reveal_strlit("post-commit"),
        LifeCyclePhase::PreMergeCommit => reveal_strlit("pre-merge-commit"),
        LifeCyclePhase::PreRebase => reveal_strlit("pre-rebase"),
        LifeCyclePhase::PostCheckout => reveal_strlit("post-checkout"),
        LifeCyclePhase::PostMerge => reveal_strlit("post-merge"),
        LifeCyclePhase::PostRewrite => reveal_strlit("post-rewrite"),
        LifeCyclePhase::PrePush => reveal_strlit("pre-push"),
        LifeCyclePhase::ReferenceTransaction => reveal_strlit("reference-transaction"),
        LifeCyclePhase::PushToCheckout => reveal_strlit("push-to-checkout"),
        LifeCyclePhase::PreAutoGc => reveal_strlit("pre-auto-gc"),
        LifeCyclePhase::PostUpdate => reveal_strlit("post-update"),
        LifeCyclePhase::FsmonitorWatchman => reveal_strlit("fsmonitor-watchman"),
        LifeCyclePhase::PostIndexChange => reveal_strlit("post-index-change"),
        LifeCyclePhase::PreReceive => reveal_strlit("pre-receive"),
        LifeCyclePhase::Update => reveal_strlit("update"),
        LifeCyclePhase::ProcReceive => reveal_strlit("proc-receive"),
        LifeCyclePhase::PostReceive => reveal_strlit("post-receive"),
    }
}

/// Distinct phases have distinct names: a name stands for one phase.
pub proof fn lemma_phase_names_distinct(p: LifeCyclePhase, q: LifeCyclePhase)
    ensures
        phase_name(p) == phase_name(q) ==> p == q,
{
    lemma_phase_signature(p);
    lemma_phase_signature(q);
}

impl LifeCyclePhase {
    /// The kebab-case name of the phase.
    pub fn as_str(&self) -> (r: &'static str)
        ensures
            r@ == phase_name(*self),
    {
        match self {
            LifeCyclePhase::ApplypatchMsg => "applypatch-msg",
            LifeCyclePhase::PreApplypatch => "pre-applypatch",
            LifeCyclePhase::PostApplypatch => "post-applypatch",
            LifeCyclePhase::PreCommit => "pre-commit",
            LifeCyclePhase::PrepareCommitMsg => "prepare-commit-msg",
            LifeCyclePhase::CommitMsg => "commit-msg",
            LifeCyclePhase::PostCommit => "post-commit",
            LifeCyclePhase::PreMergeCommit => "pre-merge-commit",
            LifeCyclePhase::PreRebase => "pre-rebase",
            LifeCyclePhase::PostCheckout => "post-checkout",
            LifeCyclePhase::PostMerge => "post-merge",
            LifeCyclePhase::PostRewrite => "post-rewrite",
            LifeCyclePhase::PrePush => "pre-push",
            LifeCyclePhase::ReferenceTransaction => "reference-transaction",
            LifeCyclePhase::PushToCheckout => "push-to-checkout",
            LifeCyclePhase::PreAutoGc => "pre-auto-gc",
            LifeCyclePhase::PostUpdate => "post-update",
            LifeCyclePhase::FsmonitorWatchman => "fsmonitor-watchman",
            LifeCyclePhase::PostIndexChange => "post-index-change",
            LifeCyclePhase::PreReceive => "pre-receive",
            LifeCyclePhase::Update => "update",
            LifeCyclePhase::ProcReceive => "proc-receive",
            LifeCyclePhase::PostReceive => "post-receive",
        }
    }

    /// Every phase, each once.
    pub fn all() -> (r: Vec<LifeCyclePhase>)
        ensures
            forall|p: LifeCyclePhase| #[trigger] r@.contains(p),
            forall|i: int, j: int| 0 <= i < j < r@.len() ==> r@[i] != r@[j],
    {
        let r = vec![
            LifeCyclePhase::ApplypatchMsg,
            LifeCyclePhase::PreApplypatch,
            LifeCyclePhase::PostApplypatch,
            LifeCyclePhase::PreCommit,
            LifeCyclePhase::PrepareCommitMsg,
            LifeCyclePhase::CommitMsg,
            LifeCyclePhase::PostCommit,
            LifeCyclePhase::PreMergeCommit,
            LifeCyclePhase::PreRebase,
            LifeCyclePhase::PostCheckout,
            LifeCyclePhase::PostMerge,
            LifeCyclePhase::PostRewrite,
            LifeCyclePhase::PrePush,
            LifeCyclePhase::ReferenceTransaction,
            LifeCyclePhase::PushToCheckout,
            LifeCyclePhase::PreAutoGc,
            LifeCyclePhase::PostUpdate,
            LifeCyclePhase::FsmonitorWatchman,
            LifeCyclePhase::PostIndexChange,
            LifeCyclePhase::PreReceive,
            LifeCyclePhase::Update,
            LifeCyclePhase::ProcReceive,
            LifeCyclePhase::PostReceive,
        ];
        assert forall|p: LifeCyclePhase| r@.contains(p) by {
            match p {
                LifeCyclePhase::ApplypatchMsg => assert(r@[0] == p),
                LifeCyclePhase::PreApplypatch => assert(r@[1] == p),
                LifeCyclePhase::PostApplypatch => assert(r@[2] == p),
                LifeCyclePhase::PreCommit => assert(r@[3] == p),
                LifeCyclePhase::PrepareCommitMsg => assert(r@[4] == p),
                LifeCyclePhase::CommitMsg => assert(r@[5] == p),
                LifeCyclePhase::PostCommit => assert(r@[6] == p),
                LifeCyclePhase::PreMergeCommit => assert(r@[7] == p),
                LifeCyclePhase::PreRebase => assert(r@[8] == p),
                LifeCyclePhase::PostCheckout => assert(r@[9] == p),
                LifeCyclePhase::PostMerge => assert(r@[10] == p),
                LifeCyclePhase::PostRewrite => assert(r@[11] == p),
                LifeCyclePhase::PrePush => assert(r@[12] == p),
                LifeCyclePhase::ReferenceTransaction => assert(r@[13] == p),
                LifeCyclePhase::PushToCheckout => assert(r@[14] == p),
                LifeCyclePhase::PreAutoGc => assert(r@[15] == p),
                LifeCyclePhase::PostUpdate => assert(r@[16] == p),
                LifeCyclePhase::FsmonitorWatchman => assert(r@[17] == p),
                LifeCyclePhase::PostIndexChange => assert(r@[18] == p),
                LifeCyclePhase::PreReceive => assert(r@[19] == p),
                LifeCyclePhase::Update => assert(r@[20] == p),
                LifeCyclePhase::ProcReceive => assert(r@[21] == p),
                LifeCyclePhase::PostReceive => assert(r@[22] == p),
            }
        }
        r
    }

    /// The phase named `s`.
    pub fn from_str(s: &str) -> (r: Result<LifeCyclePhase, Error>)
        ensures
            match r {
                Ok(p) => phase_name(p) == s@,
                Err(e) => !names_a_phase(s@) && (e matches Error::UnknownLifeCyclePhase(t) && t@ == s@),
            },
    {
        let phases = LifeCyclePhase::all();
        let mut i: usize = 0;
        while i < phases.len()
            invariant
                forall|p: LifeCyclePhase| phases@.contains(p),
                i <= phases@.len(),
                forall|j: int| 0 <= j < i ==> phase_name(#[trigger] phases@[j]) != s@,
            decreases phases@.len() - i,
        {
            if same_text(phases[i].as_str(), s) {
                return Ok(phases[i]);
            }
            i = i + 1;
        }
        assert(!names_a_phase(s@)) by {
            assert forall|p: LifeCyclePhase| phase_name(p) != s@ by {
                assert(phases@.contains(p));
                let j = choose|j: int| 0 <= j < phases@.len() && phases@[j] == p;
                assert(phase_name(phases@[j]) != s@);
            }
        }
        Err(Error::UnknownLifeCyclePhase(String::from_str(s)))
    }
}

/// The phase named `s`, where there is one.
pub open spec fn phase_of(s: Seq<char>) -> LifeCyclePhase {
    choose|p: LifeCyclePhase| phase_name(p) == s
}

/// Names and phases are in bijection: a phase's name names that phase and
/// no other, so parsing a phase's name gives the phase back.
pub proof fn lemma_phase_name_round_trip(p: LifeCyclePhase)
    ensures
        names_a_phase(phase_name(p)),
        phase_of(phase_name(p)) == p,
{
    assert(phase_name(p) == phase_name(p));
    let q = phase_of(phase_name(p));
    lemma_phase_names_distinct(p, q);
}

/// One configured command.
#[derive(Debug, Clone)]
pub struct HookDefinition {
    pub command: String,
    pub parallel_execution_allowed: bool,
}

/// What a [`HookDefinition`] holds, as values.
pub struct HookSpec {
    pub command: Seq<char>,
    pub parallel_execution_allowed: bool,
}

impl View for HookDefinition {
    type V = HookSpec;

    open spec fn view(&self) -> HookSpec {
        HookSpec { command: self.command@, parallel_execution_allowed: self.parallel_execution_allowed }
    }
}

/// A configuration as values: each configured phase with its entries, in
/// the order in which the configuration holds them.
pub type ConfigModel = Seq<(LifeCyclePhase, Seq<HookSpec>)>;

/// No phase occurs twice.
pub open spec fn phases_distinct(m: ConfigModel) -> bool {
    forall|i: int, j: int| 0 <= i < j < m.len() ==> m[i].0 != m[j].0
}

/// The position of the first phase of `m` equal to `p`, looking from `i` on.
pub open spec fn position_from(m: ConfigModel, p: LifeCyclePhase, i: int) -> Option<int>
    decreases m.len() - i,
{
    if i < 0 || i >= m.len() {
        None
    } else if m[i].0 == p {
        Some(i)
    } else {
        position_from(m, p, i + 1)
    }
}

/// Where `m` holds `p`, its entries.
pub open spec fn entries_for(m: ConfigModel, p: LifeCyclePhase) -> Option<Seq<HookSpec>> {
    match position_from(m, p, 0) {
        Some(i) => Some(m[i].1),
        None => None,
    }
}

/// What the search for a phase finds.
pub proof fn lemma_position(m: ConfigModel, p: LifeCyclePhase, i: int)
    requires
        0 <= i,
    ensures
        position_from(m, p, i) matches Some(k) ==> i <= k < m.len() && m[k].0 == p && forall|
            j: int,
        | i <= j < k ==> m[j].0 != p,
        position_from(m, p, i) is None ==> forall|j: int| i <= j < m.len() ==> m[j].0 != p,
    decreases m.len() - i,
{
    if i < m.len() && m[i].0 != p {
        lemma_position(m, p, i + 1);
    }
}

/// The phases of `m`, in order.
pub open spec fn phases_of(m: ConfigModel) -> Seq<LifeCyclePhase> {
    m.map_values(|e: (LifeCyclePhase, Seq<HookSpec>)| e.0)
}

/// A rule that a configuration breaks.
#[derive(Debug, Clone, Copy, PartialEq, Eq, Structural)]
pub enum ValidationError {
    /// The phase is present with no entries.
    EmptyHookEntries { phase: LifeCyclePhase },
    /// The entry at 1-based position `index` of the phase has a command that
    /// is empty once trimmed.
    EmptyCommand { phase: LifeCyclePhase, index: usize },
}

/// The 1-based position of the first entry whose command is blank, looking
/// from the 0-based position `j` on.
pub open spec fn first_blank_from(hooks: Seq<HookSpec>, j: int) -> Option<int>
    decreases hooks.len() - j,
{
    if j < 0 || j >= hooks.len() {
        None
    } else if is_blank(hooks[j].command) {
        Some(j + 1)
    } else {
        first_blank_from(hooks, j + 1)
    }
}

/// The rule that the entries configured for `p` break, if any.
pub open spec fn phase_violation(p: LifeCyclePhase, hooks: Seq<HookSpec>) -> Option<ValidationError> {
    if hooks.len() == 0 {
        Some(ValidationError::EmptyHookEntries { phase: p })
    } else {
        match first_blank_from(hooks, 0) {
            Some(n) => Some(ValidationError::EmptyCommand { phase: p, index: n as usize }),
            None => None,
        }
    }
}

/// The first rule broken, phase by phase in the configuration's order,
/// looking from the phase at position `i` on.
pub open spec fn first_violation_from(m: ConfigModel, i: int) -> Option<ValidationError>
    decreases m.len() - i,
{
    if i < 0 || i >= m.len() {
        None
    } else {
        match phase_violation(m[i].0, m[i].1) {
            Some(e) => Some(e),
            None => first_violation_from(m, i + 1),
        }
    }
}

/// `e` is a rule that `m` breaks: an empty entry list of the phase that it
/// names, or a blank command at the position that it names.
pub open spec fn is_violation(m: ConfigModel, e: ValidationError) -> bool {
    match e {
        ValidationError::EmptyHookEntries { phase } => exists|i: int|
            0 <= i < m.len() && m[i].0 == phase && #[trigger] m[i].1.len() == 0,
        ValidationError::EmptyCommand { phase, index } => exists|i: int|
            0 <= i < m.len() && m[i].0 == phase && 1 <= index <= #[trigger] m[i].1.len()
                && is_blank(m[i].1[index - 1].command),
    }
}

/// The configuration breaks no rule: every phase has an entry, and every
/// command holds more than whitespace.
pub open spec fn obeys_rules(m: ConfigModel) -> bool {
    forall|i: int|
        0 <= i < m.len() ==> #[trigger] m[i].1.len() > 0 && forall|j: int|
            0 <= j < m[i].1.len() ==> !is_blank(#[trigger] m[i].1[j].command)
}

/// The values of a list of entries.
pub open spec fn specs_of(v: Seq<HookDefinition>) -> Seq<HookSpec> {
    v.map_values(|h: HookDefinition| h@)
}

/// A hook configuration: the entries configured for each phase. Within a
/// phase the entries keep the order in which they were given.
#[derive(Debug)]
pub struct SmeeConfig {
    hooks: Vec<(LifeCyclePhase, Vec<HookDefinition>)>,
}

impl View for SmeeConfig {
    type V = ConfigModel;

    closed spec fn view(&self) -> ConfigModel {
        self.hooks@.map_values(|e: (LifeCyclePhase, Vec<HookDefinition>)| (e.0, specs_of(e.1@)))
    }
}

impl SmeeConfig {
    /// No phase occurs twice. Every constructor establishes this and
    /// [`SmeeConfig::insert`] keeps it.
    pub open spec fn well_formed(&self) -> bool {
        phases_distinct(self@)
    }

    /// A configuration with no phase.
    pub fn new() -> (r: SmeeConfig)
        ensures
            r@ == Seq::<(LifeCyclePhase, Seq<HookSpec>)>::empty(),
            r.well_formed(),
    {
        let r = SmeeConfig { hooks: Vec::new() };
        assert(r@ =~= Seq::<(LifeCyclePhase, Seq<HookSpec>)>::empty());
        r
    }

    /// The number of configured phases.
    pub fn len(&self) -> (r: usize)
        ensures
            r == self@.len(),
    {
        self.hooks.len()
    }

    /// Whether no phase is configured.
    pub fn is_empty(&self) -> (r: bool)
        ensures
            r == (self@.len() == 0),
    {
        self.hooks.len() == 0
    }

    /// The configured phases, in order.
    pub fn phases(&self) -> (r: Vec<LifeCyclePhase>)
        ensures
            r@ == phases_of(self@),
    {
        let mut r: Vec<LifeCyclePhase> = Vec::new();
        let mut i: usize = 0;
        while i < self.hooks.len()
            invariant
                i <= self.hooks@.len(),
                r@ == phases_of(self@).take(i as int),
            decreases self.hooks@.len() - i,
        {
            r.push(self.hooks[i].0);
            i = i + 1;
            assert(r@ =~= phases_of(self@).take(i as int));
        }
        assert(r@ =~= phases_of(self@));
        r
    }

    /// The entries configured for `phase`.
    pub fn get(&self, phase: LifeCyclePhase) -> (r: Option<&Vec<HookDefinition>>)
        ensures
            match r {
                Some(v) => entries_for(self@, phase) == Some(specs_of(v@)),
                None => entries_for(self@, phase) is None,
            },
    {
        let mut i: usize = 0;
        while i < self.hooks.len()
            invariant
                i <= self.hooks@.len(),
                position_from(self@, phase, 0) == position_from(self@, phase, i as int),
            decreases self.hooks@.len() - i,
        {
            if self.hooks[i].0 == phase {
                return Some(&self.hooks[i].1);
            }
            i = i + 1;
        }
        None
    }

    /// Sets the entries of `phase`, in place of those it had.
    pub fn insert(&mut self, phase: LifeCyclePhase, entries: Vec<HookDefinition>)
        ensures
            final(self)@ == match position_from(old(self)@, phase, 0) {
                Some(i) => old(self)@.update(i, (phase, specs_of(entries@))),
                None => old(self)@.push((phase, specs_of(entries@))),
            },
            old(self).well_formed() ==> final(self).well_formed(),
    {
        let ghost before = self@;
        let mut i: usize = 0;
        while i < self.hooks.len()
            invariant
                i <= self.hooks@.len(),
                self@ == before,
                before == old(self)@,
                position_from(before, phase, 0) == position_from(before, phase, i as int),
            decreases self.hooks@.len() - i,
        {
            if self.hooks[i].0 == phase {
                assert(before[i as int].0 == phase);
                self.hooks.set(i, (phase, entries));
                assert(self@ =~= before.update(i as int, (phase, specs_of(entries@))));
                assert(position_from(before, phase, i as int) == Some(i as int));
                proof {
                    lemma_position(before, phase, 0);
                    if phases_distinct(before) {
                        assert forall|a: int, b: int| 0 <= a < b < self@.len() implies self@[a].0 != self@[b].0 by {
                            if a != i && b != i {
                                assert(self@[a] == before[a] && self@[b] == before[b]);
                            }
                        }
                    }
                }
                return;
            }
            i = i + 1;
        }
        proof {
            lemma_position(before, phase, 0);
        }
        self.hooks.push((phase, entries));
        assert(self@ =~= before.push((phase, specs_of(entries@))));
    }

    /// Checks the rules of a configuration: each phase present has at least
    /// one entry, and no entry has a command that is empty once trimmed.
    /// Phases are checked in the configuration's order, entries in their
    /// own order, and the first rule broken is the one reported.
    pub fn validate(&self) -> (r: Result<(), ValidationError>)
        ensures
            r == match first_violation_from(self@, 0) {
                Some(e) => Err(e),
                None => Ok(()),
            },
            r is Ok <==> obeys_rules(self@),
            r matches Err(e) ==> is_violation(self@, e),
    {
        let mut i: usize = 0;
        while i < self.hooks.len()
            invariant
                i <= self.hooks@.len(),
                first_violation_from(self@, 0) == first_violation_from(self@, i as int),
                forall|k: int| 0 <= k < i ==> phase_violation(#[trigger] self@[k].0, self@[k].1) is None,
            decreases self.hooks@.len() - i,
        {
            let phase = self.hooks[i].0;
            let entries = &self.hooks[i].1;
            assert(self@[i as int].0 == phase);
            assert(self@[i as int].1 == specs_of(entries@));
            if entries.len() == 0 {
                proof { self.lemma_violation_is_present(i as int); }
                return Err(ValidationError::EmptyHookEntries { phase });
            }
            let mut j: usize = 0;
            while j < entries.len()
                invariant
                    i < self.hooks@.len(),
                    j <= entries@.len(),
                    entries@.len() > 0,
                    first_violation_from(self@, 0) == first_violation_from(self@, i as int),
                    self@[i as int].0 == phase,
                    self@[i as int].1 == specs_of(entries@),
                    first_blank_from(specs_of(entries@), 0) == first_blank_from(specs_of(entries@), j as int),
                    forall|k: int| 0 <= k < j ==> !is_blank(#[trigger] specs_of(entries@)[k].command),
                decreases entries@.len() - j,
            {
                assert(specs_of(entries@)[j as int] == entries@[j as int]@);
                if blank(entries[j].command.as_str()) {
                    assert(first_blank_from(specs_of(entries@), j as int) == Some(j + 1));
                    proof { self.lemma_violation_is_present(i as int); }
                    return Err(ValidationError::EmptyCommand { phase, index: j + 1 });
                }
                j = j + 1;
            }
            assert(phase_violation(self@[i as int].0, self@[i as int].1) is None);
            i = i + 1;
        }
        proof { self.lemma_no_violation(); }
        Ok(())
    }

    proof fn lemma_violation_is_present(&self, i: int)
        requires
            0 <= i < self@.len(),
            self@[i].1.len() <= usize::MAX,
            phase_violation(self@[i].0, self@[i].1) is Some,
        ensures
            is_violation(self@, phase_violation(self@[i].0, self@[i].1)->Some_0),
            !obeys_rules(self@),
    {
        let m = self@;
        if m[i].1.len() > 0 {
            lemma_first_blank(m[i].1, 0);
            let n = first_blank_from(m[i].1, 0)->Some_0;
            assert(1 <= n <= m[i].1.len() && is_blank(m[i].1[n - 1].command));
            assert(n as usize == n);
        }
    }

    proof fn lemma_no_violation(&self)
        requires
            forall|k: int| 0 <= k < self@.len() ==> phase_violation(#[trigger] self@[k].0, self@[k].1) is None,
        ensures
            obeys_rules(self@),
    {
        let m = self@;
        assert forall|i: int| 0 <= i < m.len() implies #[trigger] m[i].1.len() > 0 && forall|j: int|
            0 <= j < m[i].1.len() ==> !is_blank(#[trigger] m[i].1[j].command) by {
            assert(phase_violation(m[i].0, m[i].1) is None);
            assert forall|j: int| 0 <= j < m[i].1.len() implies !is_blank(#[trigger] m[i].1[j].command) by {
                lemma_no_blank(m[i].1, 0, j);
            }
        }
    }
}

/// Where a blank command is found, it is at the position reported.
proof fn lemma_first_blank(hooks: Seq<HookSpec>, j: int)
    requires
        0 <= j,
    ensures
        first_blank_from(hooks, j) matches Some(n) ==> j + 1 <= n <= hooks.len() && is_blank(hooks[n - 1].command),
    decreases hooks.len() - j,
{
    if j < hooks.len() && !is_blank(hooks[j].command) {
        lemma_first_blank(hooks, j + 1);
    }
}

/// Where no blank command is found from `j` on, none is there.
proof fn lemma_no_blank(hooks: Seq<HookSpec>, j: int, k: int)
    requires
        0 <= j <= k < hooks.len(),
        first_blank_from(hooks, j) is None,
    ensures
        !is_blank(hooks[k].command),
    decreases k - j,
{
    if j < k {
        lemma_no_blank(hooks, j + 1, k);
    }
}

impl Default for SmeeConfig {
    /// One pre-commit entry whose command only prints a line.
    fn default() -> (r: SmeeConfig)
        ensures
            r@ == seq![
                (
                    LifeCyclePhase::PreCommit,
                    seq![
                        HookSpec {
                            command: "echo 'Default pre-commit hook'"@,
                            parallel_execution_allowed: false,
                        },
                    ],
                ),
            ],
            r.well_formed(),
    {
        let entry = HookDefinition {
            command: String::from_str("echo 'Default pre-commit hook'"),
            parallel_execution_allowed: false,
        };
        let ghost spec_entry = entry@;
        let mut entries: Vec<HookDefinition> = Vec::new();
        entries.push(entry);
        assert(specs_of(entries@) =~= seq![spec_entry]);
        let mut hooks: Vec<(LifeCyclePhase, Vec<HookDefinition>)> = Vec::new();
        hooks.push((LifeCyclePhase::PreCommit, entries));
        let r = SmeeConfig { hooks };
        assert(r@ =~= seq![(LifeCyclePhase::PreCommit, seq![spec_entry])]);
        r
    }
}

/// Decides whether a configuration source may be read, from what is known
/// of the path: whether it exists, whether it is a regular file, and its
/// extension.
pub fn check_source(exists: bool, is_file: bool, extension: Option<&str>) -> (r: Result<(), Error>)
    ensures
        !exists ==> r matches Err(Error::MissingFile),
        exists && !is_file ==> r matches Err(Error::NotAFile),
        exists && is_file && extension is None ==> r matches Err(Error::CanNotReadExtension),
        exists && is_file && (extension matches Some(e) && e@ != "toml"@) ==> r matches Err(
            Error::NotATomlFileExtension,
        ),
        r is Ok <==> exists && is_file && (extension matches Some(e) && e@ == "toml"@),
{
    if !exists {
        return Err(Error::MissingFile);
    }
    if !is_file {
        return Err(Error::NotAFile);
    }
    match extension {
        None => Err(Error::CanNotReadExtension),
        Some(e) => {
            if same_text(e, "toml") {
                Ok(())
            } else {
                Err(Error::NotATomlFileExtension)
            }
        },
    }
}

/// A field of a document entry: its name, its value where that is text, and
/// its value where that is a boolean.
pub type RawField = (String, Option<String>, Option<bool>);

/// A document read into plain values: each top-level key with its list of
/// entries, each entry a list of fields.
pub type RawDocument = Vec<(String, Vec<Vec<RawField>>)>;

/// The values of a [`RawField`].
pub type FieldModel = (Seq<char>, Option<Seq<char>>, Option<bool>);

/// The values of a [`RawDocument`].
pub type DocumentModel = Seq<(Seq<char>, Seq<Seq<FieldModel>>)>;

/// Whether TOML reads the text as a document whose top-level values are
/// arrays of tables: a function of the text alone.
pub uninterp spec fn toml_reads(text: Seq<char>) -> bool;

/// A document as TOML reads it, where it reads: a function of the text alone.
pub uninterp spec fn toml_document(text: Seq<char>) -> DocumentModel;

/// A value written into a document: text or a boolean.
#[derive(Debug, Clone)]
pub enum TomlScalar {
    Text(String),
    Flag(bool),
}

/// What a [`TomlScalar`] holds, as values.
pub enum ScalarModel {
    Text(Seq<char>),
    Flag(bool),
}

impl DeepView for TomlScalar {
    type V = ScalarModel;

    open spec fn deep_view(&self) -> ScalarModel {
        match self {
            TomlScalar::Text(s) => ScalarModel::Text(s@),
            TomlScalar::Flag(b) => ScalarModel::Flag(*b),
        }
    }
}

/// A document to write, as values: each top-level key with its array of
/// tables, each table a list of fields.
pub type WrittenModel = Seq<(Seq<char>, Seq<Seq<(Seq<char>, ScalarModel)>>)>;

/// The TOML text written for a document given as values: a function of the
/// document alone.
pub uninterp spec fn toml_text(doc: WrittenModel) -> Seq<char>;

/// Relies on `toml::from_str`: reads `text` as a TOML document whose
/// top-level values are arrays of tables, and gives each field's value
/// where it is a string or a boolean (`Value::as_str`, `Value::as_bool`).
/// An error comes back as the text that it displays.
#[verifier::external_body]
fn parse_document(text: &str) -> (r: Result<RawDocument, String>)
    ensures
        r is Ok <==> toml_reads(text@),
        r matches Ok(d) ==> d.deep_view() == toml_document(text@),
{
    let doc: BTreeMap<String, Vec<BTreeMap<String, toml::Value>>> =
        toml::from_str(text).map_err(|e| e.to_string())?;
    Ok(doc.into_iter().map(|(phase, entries)| (phase, entries.into_iter().map(|entry|
        entry.into_iter().map(|(field, value)| (field, value.as_str().map(String::from),
        value.as_bool())).collect()).collect())).collect())
}

/// Relies on `toml::to_string_pretty`: writes each key as an array of
/// tables whose fields hold strings and booleans. With string keys and such
/// values none of the serializer's errors can arise (unsupported type,
/// `None`, key that is not a string, invalid date).
#[verifier::external_body]
fn render_document(doc: &Vec<(String, Vec<Vec<(String, TomlScalar)>>)>) -> (r: Result<String, String>)
    ensures
        r is Ok,
        r matches Ok(s) ==> s@ == toml_text(doc.deep_view()),
{
    let table: BTreeMap<&str, Vec<BTreeMap<&str, toml::Value>>> = doc.iter().map(|(key, tables)|
        (key.as_str(), tables.iter().map(|fields| fields.iter().map(|(name, value)| (name.as_str(),
        match value {
            TomlScalar::Text(s) => toml::Value::from(s.as_str()),
            TomlScalar::Flag(b) => toml::Value::from(*b),
        })).collect()).collect())).collect();
    toml::to_string_pretty(&table).map_err(|e| e.to_string())
}

/// What is wrong with a document, as values.
pub enum Problem {
    UnknownPhase(Seq<char>),
    DuplicatePhase(LifeCyclePhase),
    UnknownField(LifeCyclePhase, int, Seq<char>),
    MissingCommand(LifeCyclePhase, int),
    InvalidCommand(LifeCyclePhase, int),
    InvalidFlag(LifeCyclePhase, int),
}

/// Why a document is not a hook configuration. Entry positions count from 1.
#[derive(Debug)]
pub enum ParseFailure {
    /// The text is not a TOML document of arrays of tables; the text of
    /// the failure says where and why.
    Syntax(String),
    /// A top-level key that names no lifecycle phase.
    UnknownPhase(String),
    /// A phase given twice.
    DuplicatePhase(LifeCyclePhase),
    /// An entry field outside the entry schema.
    UnknownField { phase: LifeCyclePhase, index: usize, field: String },
    /// An entry without a `command`.
    MissingCommand { phase: LifeCyclePhase, index: usize },
    /// An entry whose `command` is not a string.
    InvalidCommand { phase: LifeCyclePhase, index: usize },
    /// An entry whose `parallel_execution_allowed` is not a boolean.
    InvalidFlag { phase: LifeCyclePhase, index: usize },
}

impl ParseFailure {
    /// What the failure reports, where it is about the document's schema.
    pub open spec fn problem(&self) -> Option<Problem> {
        match self {
            ParseFailure::Syntax(_) => None,
            ParseFailure::UnknownPhase(k) => Some(Problem::UnknownPhase(k@)),
            ParseFailure::DuplicatePhase(p) => Some(Problem::DuplicatePhase(*p)),
            ParseFailure::UnknownField { phase, index, field } => Some(
                Problem::UnknownField(*phase, *index as int, field@),
            ),
            ParseFailure::MissingCommand { phase, index } => Some(
                Problem::MissingCommand(*phase, *index as int),
            ),
            ParseFailure::InvalidCommand { phase, index } => Some(
                Problem::InvalidCommand(*phase, *index as int),
            ),
            ParseFailure::InvalidFlag { phase, index } => Some(
                Problem::InvalidFlag(*phase, *index as int),
            ),
        }
    }
}

/// Whether `name` is a field of the entry schema.
pub open spec fn known_field(name: Seq<char>) -> bool {
    name == "command"@ || name == "parallel_execution_allowed"@
}

/// The first field name outside the schema, looking from position `i` on.
pub open spec fn unknown_field_from(f: Seq<FieldModel>, i: int) -> Option<Seq<char>>
    decreases f.len() - i,
{
    if i < 0 || i >= f.len() {
        None
    } else if !known_field(f[i].0) {
        Some(f[i].0)
    } else {
        unknown_field_from(f, i + 1)
    }
}

/// The position of the first field called `name`, looking from `i` on.
pub open spec fn field_position_from(f: Seq<FieldModel>, name: Seq<char>, i: int) -> Option<int>
    decreases f.len() - i,
{
    if i < 0 || i >= f.len() {
        None
    } else if f[i].0 == name {
        Some(i)
    } else {
        field_position_from(f, name, i + 1)
    }
}

/// The entry at 1-based position `n` of phase `p`, read from its fields.
pub open spec fn entry_outcome(p: LifeCyclePhase, n: int, f: Seq<FieldModel>) -> Result<HookSpec, Problem> {
    match unknown_field_from(f, 0) {
        Some(name) => Err(Problem::UnknownField(p, n, name)),
        None => match field_position_from(f, "command"@, 0) {
            None => Err(Problem::MissingCommand(p, n)),
            Some(c) => match f[c].1 {
                None => Err(Problem::InvalidCommand(p, n)),
                Some(command) => match field_position_from(f, "parallel_execution_allowed"@, 0) {
                    None => Ok(HookSpec { command, parallel_execution_allowed: false }),
                    Some(k) => match f[k].2 {
                        Some(b) => Ok(HookSpec { command, parallel_execution_allowed: b }),
                        None => Err(Problem::InvalidFlag(p, n)),
                    },
                },
            },
        },
    }
}

/// The first problem among the entries of phase `p`, from position `j` on.
pub open spec fn entries_problem_from(p: LifeCyclePhase, es: Seq<Seq<FieldModel>>, j: int) -> Option<Problem>
    decreases es.len() - j,
{
    if j < 0 || j >= es.len() {
        None
    } else {
        match entry_outcome(p, j + 1, es[j]) {
            Err(pr) => Some(pr),
            Ok(_) => entries_problem_from(p, es, j + 1),
        }
    }
}

/// The entries of phase `p`, where none has a problem.
pub open spec fn entries_model(p: LifeCyclePhase, es: Seq<Seq<FieldModel>>) -> Seq<HookSpec> {
    Seq::new(es.len(), |k: int| entry_outcome(p, k + 1, es[k])->Ok_0)
}

/// The problem of the key at position `i` and of its entries, if any.
pub open spec fn key_problem(d: DocumentModel, i: int) -> Option<Problem> {
    if !names_a_phase(d[i].0) {
        Some(Problem::UnknownPhase(d[i].0))
    } else if exists|k: int| 0 <= k < i && d[k].0 == d[i].0 {
        Some(Problem::DuplicatePhase(phase_of(d[i].0)))
    } else {
        entries_problem_from(phase_of(d[i].0), d[i].1, 0)
    }
}

/// The first problem of a document, key by key from position `i` on.
pub open spec fn document_problem_from(d: DocumentModel, i: int) -> Option<Problem>
    decreases d.len() - i,
{
    if i < 0 || i >= d.len() {
        None
    } else {
        match key_problem(d, i) {
            Some(pr) => Some(pr),
            None => document_problem_from(d, i + 1),
        }
    }
}

/// The configuration that a document without problems describes.
pub open spec fn document_config(d: DocumentModel) -> ConfigModel {
    Seq::new(d.len(), |i: int| (phase_of(d[i].0), entries_model(phase_of(d[i].0), d[i].1)))
}

/// What loading a document read as `d` gives: the first problem of its
/// schema, else the first rule that its configuration breaks, else that
/// configuration.
pub open spec fn load_outcome(d: DocumentModel, r: Result<SmeeConfig, Error>) -> bool {
    match document_problem_from(d, 0) {
        Some(pr) => r matches Err(Error::ParseError(f)) && f.problem() == Some(pr),
        None => match first_violation_from(document_config(d), 0) {
            Some(v) => r matches Err(Error::ValidationError(e)) && e == v,
            None => r matches Ok(c) && c@ == document_config(d) && c.well_formed(),
        },
    }
}

/// The fields written for an entry: its `command` and its
/// `parallel_execution_allowed`, the two fields that [`known_field`] accepts.
pub open spec fn entry_fields(h: HookSpec) -> Seq<(Seq<char>, ScalarModel)> {
    seq![
        ("command"@, ScalarModel::Text(h.command)),
        ("parallel_execution_allowed"@, ScalarModel::Flag(h.parallel_execution_allowed)),
    ]
}

/// A configuration written as a document: each phase under its name, as an
/// array of tables of entry fields.
pub open spec fn document_of(m: ConfigModel) -> WrittenModel {
    m.map_values(
        |e: (LifeCyclePhase, Seq<HookSpec>)|
            (phase_name(e.0), e.1.map_values(|h: HookSpec| entry_fields(h))),
    )
}

/// The position of the first field called `name`.
fn field_position(fields: &Vec<RawField>, name: &str) -> (r: Option<usize>)
    ensures
        r matches Some(k) ==> k < fields@.len() && field_position_from(fields.deep_view(), name@, 0)
            == Some(k as int),
        r is None ==> field_position_from(fields.deep_view(), name@, 0) is None,
{
    let ghost f = fields.deep_view();
    let mut i: usize = 0;
    while i < fields.len()
        invariant
            f == fields.deep_view(),
            i <= fields@.len(),
            field_position_from(f, name@, 0) == field_position_from(f, name@, i as int),
        decreases fields@.len() - i,
    {
        assert(f[i as int].0 == fields@[i as int].0@);
        if same_text(fields[i].0.as_str(), name) {
            return Some(i);
        }
        i = i + 1;
    }
    None
}

/// Reads the entry at 1-based position `n` of phase `phase` from its fields.
fn entry_from_fields(phase: LifeCyclePhase, n: usize, fields: &Vec<RawField>) -> (r: Result<HookDefinition, ParseFailure>)
    ensures
        match entry_outcome(phase, n as int, fields.deep_view()) {
            Ok(h) => r matches Ok(d) && d@ == h,
            Err(pr) => r matches Err(f) && f.problem() == Some(pr),
        },
{
    let ghost f = fields.deep_view();
    let mut i: usize = 0;
    while i < fields.len()
        invariant
            f == fields.deep_view(),
            i <= fields@.len(),
            unknown_field_from(f, 0) == unknown_field_from(f, i as int),
        decreases fields@.len() - i,
    {
        let name = fields[i].0.as_str();
        assert(f[i as int].0 == name@);
        if !(same_text(name, "command") || same_text(name, "parallel_execution_allowed")) {
            return Err(ParseFailure::UnknownField { phase, index: n, field: fields[i].0.clone() });
        }
        i = i + 1;
    }
    let command = match field_position(fields, "command") {
        None => {
            return Err(ParseFailure::MissingCommand { phase, index: n });
        },
        Some(k) => {
            assert(f[k as int] == fields@[k as int].deep_view());
            match &fields[k].1 {
                Some(c) => c.clone(),
                None => {
                    return Err(ParseFailure::InvalidCommand { phase, index: n });
                },
            }
        },
    };
    let parallel_execution_allowed = match field_position(fields, "parallel_execution_allowed") {
        None => false,
        Some(k) => {
            assert(f[k as int] == fields@[k as int].deep_view());
            match fields[k].2 {
                Some(b) => b,
                None => {
                    return Err(ParseFailure::InvalidFlag { phase, index: n });
                },
            }
        },
    };
    Ok(HookDefinition { command, parallel_execution_allowed })
}

/// Reads the entries of phase `phase`.
fn entries_from_document(phase: LifeCyclePhase, entries: &Vec<Vec<RawField>>) -> (r: Result<Vec<HookDefinition>, ParseFailure>)
    ensures
        match entries_problem_from(phase, entries.deep_view(), 0) {
            Some(pr) => r matches Err(f) && f.problem() == Some(pr),
            None => r matches Ok(v) && specs_of(v@) == entries_model(phase, entries.deep_view()),
        },
{
    let ghost es = entries.deep_view();
    let mut v: Vec<HookDefinition> = Vec::new();
    let mut j: usize = 0;
    while j < entries.len()
        invariant
            es == entries.deep_view(),
            j <= entries@.len(),
            v@.len() == j,
            entries_problem_from(phase, es, 0) == entries_problem_from(phase, es, j as int),
            forall|k: int| 0 <= k < j ==> entry_outcome(phase, k + 1, es[k]) == Ok::<HookSpec, Problem>(#[trigger] v@[k]@),
        decreases entries@.len() - j,
    {
        assert(es[j as int] == entries@[j as int].deep_view());
        let h = entry_from_fields(phase, j + 1, &entries[j]);
        match h {
            Err(f) => {
                return Err(f);
            },
            Ok(d) => {
                v.push(d);
            },
        }
        j = j + 1;
    }
    assert(specs_of(v@) =~= entries_model(phase, es));
    Ok(v)
}

impl SmeeConfig {
    /// The configuration that a document describes, after checking the
    /// document's schema (phase names as keys, known entry fields, a string
    /// `command`, a boolean `parallel_execution_allowed` that defaults to
    /// false) and then the configuration's rules (see [`SmeeConfig::validate`]).
    pub fn from_document(doc: &RawDocument) -> (r: Result<SmeeConfig, Error>)
        ensures
            load_outcome(doc.deep_view(), r),
    {
        let ghost d = doc.deep_view();
        let mut config = SmeeConfig::new();
        let mut i: usize = 0;
        while i < doc.len()
            invariant
                d == doc.deep_view(),
                i <= doc@.len(),
                config@ == document_config(d).take(i as int),
                document_problem_from(d, 0) == document_problem_from(d, i as int),
                forall|k: int| 0 <= k < i ==> key_problem(d, k) is None,
                forall|k: int| 0 <= k < i ==> phase_name(#[trigger] config@[k].0) == d[k].0,
                config.well_formed(),
            decreases doc@.len() - i,
        {
            let key = doc[i].0.as_str();
            assert(d[i as int].0 == key@);
            assert(d[i as int].1 == doc@[i as int].1.deep_view());
            let phase = match LifeCyclePhase::from_str(key) {
                Ok(p) => p,
                Err(_) => {
                    return Err(Error::ParseError(ParseFailure::UnknownPhase(doc[i].0.clone())));
                },
            };
            proof {
                assert(names_a_phase(d[i as int].0));
                lemma_phase_names_distinct(phase, phase_of(d[i as int].0));
            }
            let mut k: usize = 0;
            while k < i
                invariant
                    d == doc.deep_view(),
                    i < doc@.len(),
                    k <= i,
                    key@ == d[i as int].0,
                    forall|m: int| 0 <= m < k ==> d[m].0 != d[i as int].0,
                    names_a_phase(d[i as int].0),
                    phase == phase_of(d[i as int].0),
                    document_problem_from(d, 0) == document_problem_from(d, i as int),
                decreases i - k,
            {
                assert(d[k as int].0 == doc@[k as int].0@);
                if same_text(doc[k].0.as_str(), key) {
                    assert(d[k as int].0 == d[i as int].0);
                    assert(key_problem(d, i as int) == Some(Problem::DuplicatePhase(phase)));
                    return Err(Error::ParseError(ParseFailure::DuplicatePhase(phase)));
                }
                k = k + 1;
            }
            let entries = match entries_from_document(phase, &doc[i].1) {
                Ok(v) => v,
                Err(f) => {
                    return Err(Error::ParseError(f));
                },
            };
            let ghost before = config@;
            proof {
                assert forall|m: int| 0 <= m < i implies config@[m].0 != phase by {
                    lemma_phase_names_distinct(config@[m].0, phase);
                }
                lemma_position(config@, phase, 0);
            }
            config.insert(phase, entries);
            assert(config@ =~= document_config(d).take(i + 1));
            i = i + 1;
        }
        assert(config@ =~= document_config(d));
        match config.validate() {
            Ok(()) => Ok(config),
            Err(e) => Err(Error::ValidationError(e)),
        }
    }

    /// Loads a configuration from the text of a TOML document: the text is
    /// read as TOML, then as in [`SmeeConfig::from_document`].
    pub fn from_toml_str(text: &str) -> (r: Result<SmeeConfig, Error>)
        ensures
            toml_reads(text@) ==> load_outcome(toml_document(text@), r),
            !toml_reads(text@) ==> r matches Err(Error::ParseError(ParseFailure::Syntax(_))),
    {
        match parse_document(text) {
            Err(e) => Err(Error::ParseError(ParseFailure::Syntax(e))),
            Ok(doc) => SmeeConfig::from_document(&doc),
        }
    }

    /// The configuration written as a TOML document: each phase an array of
    /// tables holding the fields of its entries.
    pub fn to_toml(&self) -> (r: Result<String, Error>)
        ensures
            r matches Ok(s) && s@ == toml_text(document_of(self@)),
    {
        let mut doc: Vec<(String, Vec<Vec<(String, TomlScalar)>>)> = Vec::new();
        let mut i: usize = 0;
        while i < self.hooks.len()
            invariant
                i <= self.hooks@.len(),
                doc.deep_view() == document_of(self@).take(i as int),
            decreases self.hooks@.len() - i,
        {
            let entries = &self.hooks[i].1;
            let mut tables: Vec<Vec<(String, TomlScalar)>> = Vec::new();
            assert(self@[i as int] == (self.hooks@[i as int].0, specs_of(entries@)));
            assert(document_of(self@)[i as int].1 == specs_of(entries@).map_values(
                |h: HookSpec| entry_fields(h),
            ));
            let mut j: usize = 0;
            while j < entries.len()
                invariant
                    i < self.hooks@.len(),
                    entries == &self.hooks@[i as int].1,
                    document_of(self@)[i as int].1 == specs_of(entries@).map_values(
                        |h: HookSpec| entry_fields(h),
                    ),
                    document_of(self@)[i as int].1.len() == entries@.len(),
                    j <= entries@.len(),
                    tables.deep_view() == document_of(self@)[i as int].1.take(j as int),
                decreases entries@.len() - j,
            {
                assert(document_of(self@)[i as int].1[j as int] == entry_fields(entries@[j as int]@));
                let mut fields: Vec<(String, TomlScalar)> = Vec::new();
                fields.push((String::from_str("command"), TomlScalar::Text(entries[j].command.clone())));
                fields.push(
                    (
                        String::from_str("parallel_execution_allowed"),
                        TomlScalar::Flag(entries[j].parallel_execution_allowed),
                    ),
                );
                assert(fields.deep_view() =~= entry_fields(entries@[j as int]@));
                let ghost prior = tables.deep_view();
                tables.push(fields);
                assert(tables.deep_view() =~= prior.push(document_of(self@)[i as int].1[j as int]));
                j = j + 1;
                assert(tables.deep_view() =~= document_of(self@)[i as int].1.take(j as int));
            }
            assert(tables.deep_view() =~= document_of(self@)[i as int].1);
            assert(document_of(self@)[i as int].0 == phase_name(self.hooks@[i as int].0));
            let ghost prior = doc.deep_view();
            doc.push((String::from_str(self.hooks[i].0.as_str()), tables));
            assert(doc.deep_view() =~= prior.push(document_of(self@)[i as int]));
            i = i + 1;
            assert(doc.deep_view() =~= document_of(self@).take(i as int));
        }
        assert(doc.deep_view() =~= document_of(self@));
        match render_document(&doc) {
            Ok(s) => Ok(s),
            Err(e) => Err(Error::SerializeError(e)),
        }
    }
}

proof fn lemma_blank_found_at(hooks: Seq<HookSpec>, t: int, j: int)
    requires
        0 <= t <= j < hooks.len(),
        is_blank(hooks[j].command),
        forall|k: int| t <= k < j ==> !is_blank(#[trigger] hooks[k].command),
    ensures
        first_blank_from(hooks, t) == Some(j + 1),
    decreases j - t,
{
    if t < j {
        lemma_blank_found_at(hooks, t + 1, j);
    }
}

proof fn lemma_no_blank_from(hooks: Seq<HookSpec>, t: int)
    requires
        0 <= t,
        forall|k: int| t <= k < hooks.len() ==> !is_blank(#[trigger] hooks[k].command),
    ensures
        first_blank_from(hooks, t) is None,
    decreases hooks.len() - t,
{
    if t < hooks.len() {
        lemma_no_blank_from(hooks, t + 1);
    }
}

/// Whether the phase at position `i` of `m` breaks no rule.
pub open spec fn phase_obeys_rules(m: ConfigModel, i: int) -> bool {
    m[i].1.len() > 0 && forall|j: int| 0 <= j < m[i].1.len() ==> !is_blank(#[trigger] m[i].1[j].command)
}

proof fn lemma_only_violation_from(m: ConfigModel, i: int, t: int)
    requires
        0 <= t <= i < m.len(),
        phase_violation(m[i].0, m[i].1) is Some,
        forall|k: int| 0 <= k < m.len() && k != i ==> #[trigger] phase_obeys_rules(m, k),
    ensures
        first_violation_from(m, t) == phase_violation(m[i].0, m[i].1),
    decreases i - t,
{
    if t < i {
        assert(phase_obeys_rules(m, t));
        lemma_no_blank_from(m[t].1, 0);
        lemma_only_violation_from(m, i, t + 1);
    }
}

/// A configuration whose one broken rule is a blank command, at 0-based
/// position `j` of the phase at position `i`, is reported as
/// `EmptyCommand` naming that phase and the 1-based position `j + 1`.
pub proof fn lemma_blank_command_reported(m: ConfigModel, i: int, j: int)
    requires
        0 <= i < m.len(),
        0 <= j < m[i].1.len() <= usize::MAX,
        is_blank(m[i].1[j].command),
        forall|k: int| 0 <= k < m[i].1.len() && k != j ==> !is_blank(#[trigger] m[i].1[k].command),
        forall|k: int| 0 <= k < m.len() && k != i ==> #[trigger] phase_obeys_rules(m, k),
    ensures
        first_violation_from(m, 0) == Some(
            ValidationError::EmptyCommand { phase: m[i].0, index: (j + 1) as usize },
        ),
{
    lemma_blank_found_at(m[i].1, 0, j);
    lemma_only_violation_from(m, i, 0);
}

/// A configuration whose one broken rule is the empty entry list of the
/// phase at position `i` is reported as `EmptyHookEntries` naming it.
pub proof fn lemma_empty_entries_reported(m: ConfigModel, i: int)
    requires
        0 <= i < m.len(),
        m[i].1.len() == 0,
        forall|k: int| 0 <= k < m.len() && k != i ==> #[trigger] phase_obeys_rules(m, k),
    ensures
        first_violation_from(m, 0) == Some(ValidationError::EmptyHookEntries { phase: m[i].0 }),
{
    lemma_only_violation_from(m, i, 0);
}

/// Why a configuration could not be loaded or written.
#[derive(Debug)]
pub enum Error {
    /// The configuration file does not exist.
    MissingFile,
    /// The configuration path exists but is not a regular file.
    NotAFile,
    /// The configuration path has no extension.
    CanNotReadExtension,
    /// The configuration path has an extension other than `toml`.
    NotATomlFileExtension,
    /// The configuration file could not be read; the text describes why.
    ReadError(String),
    /// The document is not a well-formed hook configuration.
    ParseError(ParseFailure),
    /// The configuration could not be written out as a document; the text
    /// says why.
    SerializeError(String),
    /// The configuration breaks a rule of [`SmeeConfig::validate`].
    ValidationError(ValidationError),
    /// The text names no lifecycle phase.
    UnknownLifeCyclePhase(String),
}

} // verus!
