//! Installation of generated files under an ownership protocol: a file that
//! this tool writes carries a marker line, and a file without it is never
//! overwritten unless the user forces it.

use vstd::prelude::*;

use crate::config::{document_of, phase_name, phases_of, toml_text, LifeCyclePhase, SmeeConfig};
use crate::platform::{
    escaped, fill, fill_template, lemma_escape_round_trip, lemma_filled_template, template_lead,
    template_tail, template_text, unquote, Platform,
};
use crate::text::{chars_of, occurs_at, push_char, push_range};

verus! {

/// How the marker line is written: as a `#` comment (shell scripts and the
/// configuration document) or as a `REM` comment (batch files).
#[derive(Debug, PartialEq, Eq, Structural, Clone, Copy)]
pub enum MarkerStyle {
    Hash,
    Rem,
}

/// The marker line in each of its two forms.
pub open spec fn marker_line(style: MarkerStyle) -> Seq<char> {
    match style {
        MarkerStyle::Hash => "# Managed by git-smee: this file is regenerated, do not edit it."@,
        MarkerStyle::Rem => "REM Managed by git-smee: this file is regenerated, do not edit it."@,
    }
}

/// The marker line of a style.
pub fn marker_text(style: MarkerStyle) -> (r: &'static str)
    ensures
        r@ == marker_line(style),
{
    match style {
        MarkerStyle::Hash => "# Managed by git-smee: this file is regenerated, do not edit it.",
        MarkerStyle::Rem => "REM Managed by git-smee: this file is regenerated, do not edit it.",
    }
}

/// The lines of a text, split at each line feed; a text always has at least
/// one line, possibly empty.
pub open spec fn split_lines(s: Seq<char>) -> Seq<Seq<char>>
    decreases s.len(),
{
    if s.len() == 0 {
        seq![Seq::empty()]
    } else {
        let ls = split_lines(s.drop_last());
        if s.last() == '\n' {
            ls.push(Seq::empty())
        } else {
            ls.update(ls.len() - 1, ls.last().push(s.last()))
        }
    }
}

/// A line without the carriage return that ends it in a CRLF text.
pub open spec fn strip_cr(l: Seq<char>) -> Seq<char> {
    if l.len() > 0 && l.last() == '\r' {
        l.drop_last()
    } else {
        l
    }
}

/// Whether a line is exactly the marker line, in either form.
pub open spec fn is_marker(l: Seq<char>) -> bool {
    strip_cr(l) == marker_line(MarkerStyle::Hash) || strip_cr(l) == marker_line(MarkerStyle::Rem)
}

/// The number of leading lines searched for the marker.
pub const MARKER_SEARCH_LINES: usize = 8;

/// Whether the text is the start of a managed file: one of its first eight
/// lines is the marker line.
pub open spec fn managed(head: Seq<char>) -> bool {
    exists|k: int|
        0 <= k < split_lines(head).len() && k < MARKER_SEARCH_LINES && is_marker(
            #[trigger] split_lines(head)[k],
        )
}

/// The position of the first line feed of `s`, from `i` on.
pub open spec fn newline_from(s: Seq<char>, i: int) -> Option<int>
    decreases s.len() - i,
{
    if i < 0 || i >= s.len() {
        None
    } else if s[i] == '\n' {
        Some(i)
    } else {
        newline_from(s, i + 1)
    }
}

/// Whether `c` starts with a shebang, `#!`.
pub open spec fn has_shebang(c: Seq<char>) -> bool {
    c.len() >= 2 && c[0] == '#' && c[1] == '!'
}

/// `c` with the marker line: after the shebang line where there is one,
/// else first and followed by an empty line.
pub open spec fn with_header(c: Seq<char>, style: MarkerStyle) -> Seq<char> {
    let m = marker_line(style);
    if has_shebang(c) {
        match newline_from(c, 0) {
            Some(k) => c.take(k + 1) + m + seq!['\n'] + c.skip(k + 1),
            None => c + seq!['\n'] + m + seq!['\n'],
        }
    } else {
        m + seq!['\n', '\n'] + c
    }
}

/// The part of `with_header(c, style)` that ends with the line feed after
/// the marker line.
pub open spec fn header_of(c: Seq<char>, style: MarkerStyle) -> Seq<char> {
    let m = marker_line(style);
    if has_shebang(c) {
        match newline_from(c, 0) {
            Some(k) => c.take(k + 1) + m + seq!['\n'],
            None => c + seq!['\n'] + m + seq!['\n'],
        }
    } else {
        m + seq!['\n']
    }
}

proof fn lemma_split_lines_len(s: Seq<char>)
    ensures
        split_lines(s).len() >= 1,
    decreases s.len(),
{
    if s.len() > 0 {
        lemma_split_lines_len(s.drop_last());
    }
}

proof fn lemma_single_line(s: Seq<char>)
    requires
        forall|i: int| 0 <= i < s.len() ==> s[i] != '\n',
    ensures
        split_lines(s) == seq![s],
    decreases s.len(),
{
    if s.len() == 0 {
        assert(s =~= Seq::<char>::empty());
    } else {
        lemma_single_line(s.drop_last());
        assert(s.drop_last().push(s.last()) =~= s);
        assert(split_lines(s) =~= seq![s]);
    }
}

proof fn lemma_split_concat(a: Seq<char>, b: Seq<char>)
    requires
        a.len() > 0,
        a.last() == '\n',
    ensures
        split_lines(a + b) == split_lines(a).drop_last() + split_lines(b),
    decreases b.len(),
{
    lemma_split_lines_len(a);
    if b.len() == 0 {
        assert(a + b =~= a);
        assert(split_lines(a).drop_last() + split_lines(b) =~= split_lines(a));
    } else {
        lemma_split_concat(a, b.drop_last());
        lemma_split_lines_len(b.drop_last());
        assert((a + b).drop_last() =~= a + b.drop_last());
        assert((a + b).last() == b.last());
        let p = split_lines(a).drop_last();
        let q = split_lines(b.drop_last());
        if b.last() == '\n' {
            assert((p + q).push(Seq::empty()) =~= p + q.push(Seq::empty()));
        } else {
            assert((p + q).update(p.len() + q.len() - 1, (p + q).last().push(b.last())) =~= p + q.update(
                q.len() - 1,
                q.last().push(b.last()),
            ));
        }
    }
}

proof fn lemma_newline_from(s: Seq<char>, i: int)
    requires
        0 <= i,
    ensures
        newline_from(s, i) matches Some(k) ==> i <= k < s.len() && s[k] == '\n' && forall|j: int|
            i <= j < k ==> s[j] != '\n',
        newline_from(s, i) is None ==> forall|j: int| i <= j < s.len() ==> s[j] != '\n',
    decreases s.len() - i,
{
    if i < s.len() && s[i] != '\n' {
        lemma_newline_from(s, i + 1);
    }
}

proof fn lemma_marker_shape(style: MarkerStyle)
    ensures
        forall|i: int| 0 <= i < marker_line(style).len() ==> marker_line(style)[i] != '\n',
        strip_cr(marker_line(style)) == marker_line(style),
        is_marker(marker_line(style)),
{
    reveal_strlit("# Managed by git-smee: this file is regenerated, do not edit it.");
    reveal_strlit("REM Managed by git-smee: this file is regenerated, do not edit it.");
}

/// The lines of `l + "\n" + rest` where `l` holds no line feed.
proof fn lemma_first_line(l: Seq<char>, rest: Seq<char>)
    requires
        forall|i: int| 0 <= i < l.len() ==> l[i] != '\n',
    ensures
        split_lines(l + seq!['\n'] + rest) == seq![l] + split_lines(rest),
{
    let a = l + seq!['\n'];
    lemma_single_line(l);
    assert(a.drop_last() =~= l);
    assert(split_lines(a) == seq![l].push(Seq::<char>::empty()));
    lemma_split_concat(a, rest);
    assert(split_lines(a).drop_last() =~= seq![l]);
}

/// A text that begins with the header written by [`with_managed_header`] is
/// recognised as managed, whatever follows the header.
pub proof fn lemma_header_is_managed(c: Seq<char>, style: MarkerStyle, rest: Seq<char>)
    ensures
        with_header(c, style).take(header_of(c, style).len() as int) == header_of(c, style),
        managed(header_of(c, style) + rest),
{
    let m = marker_line(style);
    lemma_marker_shape(style);
    lemma_newline_from(c, 0);
    if has_shebang(c) {
        let l0 = match newline_from(c, 0) {
            Some(k) => c.take(k),
            None => c,
        };
        let h = header_of(c, style);
        assert(h =~= l0 + seq!['\n'] + (m + seq!['\n'])) by {
            if let Some(k) = newline_from(c, 0) {
                assert(c.take(k + 1) =~= c.take(k) + seq!['\n']);
            }
        };
        assert(h + rest =~= l0 + seq!['\n'] + ((m + seq!['\n']) + rest));
        lemma_first_line(l0, (m + seq!['\n']) + rest);
        lemma_first_line(m, rest);
        assert(m + seq!['\n'] + rest =~= (m + seq!['\n']) + rest);
        let ls = split_lines(h + rest);
        assert(ls[1] == m);
        assert(managed(h + rest));
        assert(with_header(c, style).take(h.len() as int) =~= h);
    } else {
        let h = header_of(c, style);
        lemma_first_line(m, rest);
        assert(h + rest =~= m + seq!['\n'] + rest);
        assert(split_lines(h + rest)[0] == m);
        assert(with_header(c, style).take(h.len() as int) =~= h);
    }
}

/// The lines of a prefix of a text, but its last, are lines of the text.
proof fn lemma_lines_stable(s: Seq<char>, i: int, j: int)
    requires
        0 <= i <= j <= s.len(),
    ensures
        split_lines(s.take(j)).len() >= split_lines(s.take(i)).len(),
        forall|k: int|
            0 <= k < split_lines(s.take(i)).len() - 1 ==> #[trigger] split_lines(s.take(j))[k]
                == split_lines(s.take(i))[k],
    decreases j - i,
{
    if i < j {
        lemma_lines_stable(s, i, j - 1);
        assert(s.take(j).drop_last() =~= s.take(j - 1));
        lemma_split_lines_len(s.take(j - 1));
    }
}

/// Whether the characters of `cs` from `start` up to `end` make the marker
/// line, once a final carriage return is dropped.
fn line_is_marker(cs: &Vec<char>, start: usize, end: usize) -> (r: bool)
    requires
        start <= end <= cs@.len(),
    ensures
        r == is_marker(cs@.subrange(start as int, end as int)),
{
    let ghost l = cs@.subrange(start as int, end as int);
    let e = if end > start && cs[end - 1] == '\r' {
        end - 1
    } else {
        end
    };
    assert(strip_cr(l) =~= cs@.subrange(start as int, e as int));
    let hash = marker_text(MarkerStyle::Hash);
    let rem = marker_text(MarkerStyle::Rem);
    let is_hash = e - start == hash.unicode_len() && occurs_at(cs, start, hash);
    let is_rem = e - start == rem.unicode_len() && occurs_at(cs, start, rem);
    is_hash || is_rem
}

/// Whether a file is managed, from the text of its start (its first 1024
/// bytes): one of its first eight lines, line endings normalised, is exactly
/// the marker line in either form.
pub fn is_managed(head: &str) -> (r: bool)
    ensures
        r == managed(head@),
{
    let cs = chars_of(head);
    let ghost s = cs@;
    let n = cs.len();
    let mut i: usize = 0;
    let mut start: usize = 0;
    let mut line_no: usize = 0;
    assert(s.take(0) =~= Seq::<char>::empty());
    while i < n && line_no < MARKER_SEARCH_LINES
        invariant
            s == cs@,
            s == head@,
            n == s.len(),
            start <= i <= n,
            line_no <= MARKER_SEARCH_LINES,
            split_lines(s.take(i as int)).len() == line_no + 1,
            split_lines(s.take(i as int))[line_no as int] == s.subrange(start as int, i as int),
            forall|k: int| 0 <= k < line_no ==> #[trigger] split_lines(s)[k] == split_lines(s.take(i as int))[k],
            forall|k: int| 0 <= k < line_no ==> !is_marker(#[trigger] split_lines(s)[k]),
        decreases n - i,
    {
        let ghost before = split_lines(s.take(i as int));
        assert(s.take(i + 1).drop_last() =~= s.take(i as int));
        assert(s.take(i + 1).last() == s[i as int]);
        proof {
            lemma_lines_stable(s, i + 1, n as int);
            assert(s.take(n as int) =~= s);
        }
        if cs[i] == '\n' {
            assert(split_lines(s.take(i + 1)) == before.push(Seq::empty()));
            assert(split_lines(s)[line_no as int] == s.subrange(start as int, i as int));
            if line_is_marker(&cs, start, i) {
                assert(managed(s));
                return true;
            }
            line_no = line_no + 1;
            start = i + 1;
            i = i + 1;
            assert(s.subrange(start as int, i as int) =~= Seq::<char>::empty());
        } else {
            assert(split_lines(s.take(i + 1)) == before.update(line_no as int, before[line_no as int].push(s[i as int])));
            i = i + 1;
            assert(s.subrange(start as int, i as int) =~= s.subrange(start as int, i - 1).push(s[i - 1]));
        }
    }
    if line_no < MARKER_SEARCH_LINES {
        assert(s.take(i as int) =~= s);
        let r = line_is_marker(&cs, start, n);
        assert(r ==> managed(s));
        assert(!r ==> !managed(s));
        r
    } else {
        proof {
            lemma_lines_stable(s, i as int, n as int);
            assert(s.take(n as int) =~= s);
        }
        assert(!managed(s));
        false
    }
}

/// The text `content` with the marker line written in: after the first line
/// where `content` starts with a shebang, so that the script stays
/// executable; else first, followed by an empty line.
pub fn with_managed_header(content: &str, style: MarkerStyle) -> (r: String)
    ensures
        r@ == with_header(content@, style),
{
    let cs = chars_of(content);
    let ghost c = cs@;
    let marker = marker_text(style);
    let n = cs.len();
    if n >= 2 && cs[0] == '#' && cs[1] == '!' {
        let mut k: usize = 0;
        while k < n && cs[k] != '\n'
            invariant
                c == cs@,
                c == content@,
                n == c.len(),
                k <= n,
                newline_from(c, 0) == newline_from(c, k as int),
            decreases n - k,
        {
            k = k + 1;
        }
        let mut r = String::new();
        if k < n {
            push_range(&mut r, &cs, 0, k + 1);
            r.append(marker);
            push_char(&mut r, '\n');
            push_range(&mut r, &cs, k + 1, n);
            assert(cs@.subrange(0, k + 1) =~= c.take(k + 1));
            assert(cs@.subrange(k + 1, n as int) =~= c.skip(k + 1));
        } else {
            push_range(&mut r, &cs, 0, n);
            push_char(&mut r, '\n');
            r.append(marker);
            push_char(&mut r, '\n');
            assert(cs@.subrange(0, n as int) =~= c);
        }
        assert(r@ =~= with_header(c, style));
        r
    } else {
        let mut r = String::from_str(marker);
        push_char(&mut r, '\n');
        push_char(&mut r, '\n');
        r.append(content);
        assert(r@ =~= with_header(c, style));
        r
    }
}

/// Why a file could not be installed.
#[derive(Debug)]
pub enum Error {
    /// The hooks directory does not exist.
    HooksDirNotFound(String),
    /// The configuration has no phase, so there is no hook to install.
    NoHooksPresent,
    /// A hook file could not be written; the text says why.
    FailedToWriteHook(String),
    /// The configuration file could not be written; the text says why.
    FailedToWriteConfig(String),
    /// An existing file could not be read to check who owns it.
    FailedToReadExistingFile(String),
    /// A hook file of that name exists and this tool did not write it.
    RefusingToOverwriteUnmanagedHookFile(String),
    /// A configuration file exists and this tool did not write it.
    RefusingToOverwriteUnmanagedConfigFile(String),
    /// A configuration file written by this tool exists; it may hold the
    /// user's edits since.
    RefusingToOverwriteManagedConfigFile(String),
    /// The hook file could not be made executable.
    Platform(crate::platform::Error),
    /// The configuration could not be written out as a document.
    Config(crate::config::Error),
}

/// What kind of file is to be written.
#[derive(Debug, PartialEq, Eq, Structural, Clone, Copy)]
pub enum FileKind {
    Hook,
    Config,
}

/// Why a write is refused, as values.
#[derive(Debug, PartialEq, Eq, Structural, Clone, Copy)]
pub enum Refusal {
    UnmanagedHook,
    UnmanagedConfig,
    ManagedConfig,
}

/// Whether, and why, writing over a target is refused. `existing` is the
/// start of the file already there, if any. An absent target may be
/// written, and so may any target when the write is forced. Otherwise a hook
/// file may be replaced only if it is managed, and a configuration file is
/// never replaced: it may hold the user's edits.
pub open spec fn refusal(existing: Option<Seq<char>>, force: bool, kind: FileKind) -> Option<Refusal> {
    match existing {
        None => None,
        Some(head) => if force {
            None
        } else {
            match kind {
                FileKind::Hook => if managed(head) {
                    None
                } else {
                    Some(Refusal::UnmanagedHook)
                },
                FileKind::Config => if managed(head) {
                    Some(Refusal::ManagedConfig)
                } else {
                    Some(Refusal::UnmanagedConfig)
                },
            }
        },
    }
}

impl Error {
    /// The refusal that the error reports, with the file that it names.
    pub open spec fn refusal_of(&self) -> Option<(Refusal, Seq<char>)> {
        match self {
            Error::RefusingToOverwriteUnmanagedHookFile(n) => Some((Refusal::UnmanagedHook, n@)),
            Error::RefusingToOverwriteUnmanagedConfigFile(n) => Some((Refusal::UnmanagedConfig, n@)),
            Error::RefusingToOverwriteManagedConfigFile(n) => Some((Refusal::ManagedConfig, n@)),
            _ => None,
        }
    }
}

/// Installing into a clean place is allowed, and so is installing again over
/// what an earlier install wrote: a file that begins with the header of
/// [`with_managed_header`] may be replaced without forcing.
pub proof fn lemma_reinstall_allowed(c: Seq<char>, style: MarkerStyle, rest: Seq<char>)
    ensures
        refusal(None, false, FileKind::Hook) is None,
        refusal(Some(header_of(c, style) + rest), false, FileKind::Hook) is None,
{
    lemma_header_is_managed(c, style, rest);
}

/// A file that this tool did not write is never replaced without forcing:
/// the write is refused, so the file stays as it was.
pub proof fn lemma_unmanaged_preserved(head: Seq<char>, kind: FileKind)
    requires
        !managed(head),
    ensures
        refusal(Some(head), false, kind) is Some,
        kind == FileKind::Hook ==> refusal(Some(head), false, kind) == Some(Refusal::UnmanagedHook),
{
}

/// Where hooks are written, and whether existing files may be replaced
/// regardless of who wrote them.
#[derive(Debug)]
pub struct FileSystemHookInstaller {
    pub hooks_path: String,
    pub force: bool,
}

/// The hooks directory of a repository that does not relocate it.
pub const DEFAULT_HOOKS_DIR: &'static str = ".git/hooks";

impl FileSystemHookInstaller {
    /// An installer for the default hooks directory; `is_dir` tells
    /// whether that directory exists.
    pub fn from_default(is_dir: bool) -> (r: Result<FileSystemHookInstaller, Error>)
        ensures
            match r {
                Ok(i) => is_dir && i.hooks_path@ == DEFAULT_HOOKS_DIR@ && !i.force,
                Err(e) => !is_dir && (e matches Error::HooksDirNotFound(p) && p@ == DEFAULT_HOOKS_DIR@),
            },
    {
        Self::from_path(String::from_str(DEFAULT_HOOKS_DIR), is_dir)
    }

    /// An installer for the hooks directory `hooks_path`; `is_dir` tells
    /// whether that directory exists.
    pub fn from_path(hooks_path: String, is_dir: bool) -> (r: Result<FileSystemHookInstaller, Error>)
        ensures
            match r {
                Ok(i) => is_dir && i.hooks_path@ == hooks_path@ && !i.force,
                Err(e) => !is_dir && (e matches Error::HooksDirNotFound(p) && p@ == hooks_path@),
            },
    {
        if !is_dir {
            return Err(Error::HooksDirNotFound(hooks_path));
        }
        Ok(FileSystemHookInstaller { hooks_path, force: false })
    }

    /// The same installer, replacing existing files or not as `force` says.
    pub fn with_force(self, force: bool) -> (r: FileSystemHookInstaller)
        ensures
            r.hooks_path@ == self.hooks_path@,
            r.force == force,
    {
        FileSystemHookInstaller { hooks_path: self.hooks_path, force }
    }

    /// Decides whether the file `name` of kind `kind` may be written, given
    /// the start of the file already there (`existing`), if there is one.
    pub fn ensure_can_write(&self, name: &str, existing: Option<&str>, kind: FileKind) -> (r: Result<(), Error>)
        ensures
            match refusal(
                match existing {
                    Some(h) => Some(h@),
                    None => None,
                },
                self.force,
                kind,
            ) {
                None => r is Ok,
                Some(why) => r matches Err(e) && e.refusal_of() == Some((why, name@)),
            },
    {
        match existing {
            None => Ok(()),
            Some(head) => {
                if self.force {
                    return Ok(());
                }
                let is_ours = is_managed(head);
                match kind {
                    FileKind::Hook => {
                        if is_ours {
                            Ok(())
                        } else {
                            Err(Error::RefusingToOverwriteUnmanagedHookFile(String::from_str(name)))
                        }
                    },
                    FileKind::Config => {
                        if is_ours {
                            Err(Error::RefusingToOverwriteManagedConfigFile(String::from_str(name)))
                        } else {
                            Err(Error::RefusingToOverwriteUnmanagedConfigFile(String::from_str(name)))
                        }
                    },
                }
            },
        }
    }
}

/// What a hook script is rendered from, fixed for one install: this tool's
/// executable and the configuration file that the hooks read.
#[derive(Debug, Clone)]
pub struct HookScriptOptions {
    pub executable_path: String,
    pub config_path: String,
}

/// The marker style of a platform's scripts.
pub open spec fn style_of(platform: Platform) -> MarkerStyle {
    match platform {
        Platform::Unix => MarkerStyle::Hash,
        Platform::Windows => MarkerStyle::Rem,
    }
}

/// The hook script of `phase`: the platform's template with the phase name
/// and the two quoted paths filled in, and the marker line written in.
pub open spec fn script_text(platform: Platform, phase: LifeCyclePhase, exe: Seq<char>, cfg: Seq<char>) -> Seq<char> {
    with_header(
        fill(template_text(platform), phase_name(phase), escaped(platform, exe), escaped(platform, cfg)),
        style_of(platform),
    )
}

/// The marker style of a platform's scripts.
pub fn script_marker_style(platform: Platform) -> (r: MarkerStyle)
    ensures
        r == style_of(platform),
{
    match platform {
        Platform::Unix => MarkerStyle::Hash,
        Platform::Windows => MarkerStyle::Rem,
    }
}

/// Renders the hook script of `phase`.
pub fn render_hook_script(platform: Platform, phase: LifeCyclePhase, options: &HookScriptOptions) -> (r: String)
    ensures
        r@ == script_text(platform, phase, options.executable_path@, options.config_path@),
{
    let exe = platform.escape_path(options.executable_path.as_str());
    let cfg = platform.escape_path(options.config_path.as_str());
    let body = fill_template(platform.hook_script_template(), phase.as_str(), exe.as_str(), cfg.as_str());
    with_managed_header(body.as_str(), script_marker_style(platform))
}

/// The files to install for a configuration: for each configured phase, in
/// the configuration's order, a file named after the phase holding its hook
/// script. A configuration without phases has no hook to install.
pub fn hook_files(config: &SmeeConfig, options: &HookScriptOptions, platform: Platform) -> (r: Result<Vec<(String, String)>, Error>)
    ensures
        config@.len() == 0 ==> r matches Err(Error::NoHooksPresent),
        config@.len() > 0 ==> (r matches Ok(files) && files@.len() == config@.len() && forall|i: int|
            0 <= i < files@.len() ==> (#[trigger] files@[i]).0@ == phase_name(config@[i].0)
                && files@[i].1@ == script_text(
                platform,
                config@[i].0,
                options.executable_path@,
                options.config_path@,
            )),
{
    if config.is_empty() {
        return Err(Error::NoHooksPresent);
    }
    let phases = config.phases();
    let mut files: Vec<(String, String)> = Vec::new();
    let mut i: usize = 0;
    while i < phases.len()
        invariant
            phases@ == phases_of(config@),
            i <= phases@.len(),
            files@.len() == i,
            forall|k: int|
                0 <= k < i ==> (#[trigger] files@[k]).0@ == phase_name(config@[k].0)
                    && files@[k].1@ == script_text(
                    platform,
                    config@[k].0,
                    options.executable_path@,
                    options.config_path@,
                ),
        decreases phases@.len() - i,
    {
        let phase = phases[i];
        assert(phase == config@[i as int].0);
        let name = String::from_str(phase.as_str());
        let content = render_hook_script(platform, phase, options);
        files.push((name, content));
        i = i + 1;
    }
    Ok(files)
}

/// What writes a hook file: the filesystem in use, or a stand-in.
pub trait HookInstaller {
    /// Writes the hook file `hook_name` with the text `hook_content`.
    fn install_hook(&self, hook_name: &str, hook_content: &str) -> Result<(), Error>;
}

/// Installs the hook script of every configured phase through `installer`,
/// in the configuration's order (see [`hook_files`]). The first failure
/// stops the install; files already written stay.
pub fn install_hooks<T: HookInstaller>(
    config: &SmeeConfig,
    options: &HookScriptOptions,
    platform: Platform,
    installer: &T,
) -> (r: Result<(), Error>)
    ensures
        config@.len() == 0 ==> r matches Err(Error::NoHooksPresent),
{
    let files = match hook_files(config, options, platform) {
        Ok(files) => files,
        Err(e) => {
            return Err(e);
        },
    };
    let mut i: usize = 0;
    while i < files.len()
        invariant
            i <= files@.len(),
            config@.len() > 0,
        decreases files@.len() - i,
    {
        let installed = installer.install_hook(files[i].0.as_str(), files[i].1.as_str());
        if let Err(e) = installed {
            return Err(e);
        }
        i = i + 1;
    }
    Ok(())
}

/// The text of a configuration file for `config`: its TOML document with
/// the marker line first, so that the file is known as written by this
/// tool.
pub fn managed_config_text(config: &SmeeConfig) -> (r: Result<String, Error>)
    ensures
        r matches Ok(s) && s@ == with_header(toml_text(document_of(config@)), MarkerStyle::Hash),
{
    match config.to_toml() {
        Ok(text) => Ok(with_managed_header(text.as_str(), MarkerStyle::Hash)),
        Err(e) => Err(Error::Config(e)),
    }
}

/// A hook script as installed is managed, and so is every text that begins
/// with its header (as the first 1024 bytes of the file do): an install run
/// again, without forcing, may replace it.
pub proof fn lemma_installed_script_replaceable(
    platform: Platform,
    phase: LifeCyclePhase,
    exe: Seq<char>,
    cfg: Seq<char>,
    rest: Seq<char>,
)
    ensures
        managed(script_text(platform, phase, exe, cfg)),
        refusal(Some(script_text(platform, phase, exe, cfg)), false, FileKind::Hook) is None,
        ({
            let body = fill(template_text(platform), phase_name(phase), escaped(platform, exe), escaped(platform, cfg));
            refusal(Some(header_of(body, style_of(platform)) + rest), false, FileKind::Hook) is None
        }),
{
    let body = fill(template_text(platform), phase_name(phase), escaped(platform, exe), escaped(platform, cfg));
    let style = style_of(platform);
    let whole = with_header(body, style);
    let h = header_of(body, style);
    lemma_header_is_managed(body, style, whole.skip(h.len() as int));
    lemma_header_is_managed(body, style, rest);
    assert(h + whole.skip(h.len() as int) =~= whole);
}

/// Whether `x` stands in `s` somewhere.
pub open spec fn holds_at(s: Seq<char>, x: Seq<char>, o: int) -> bool {
    0 <= o && o + x.len() <= s.len() && s.subrange(o, o + x.len()) == x
}

proof fn lemma_header_keeps_after_first_line(c: Seq<char>, style: MarkerStyle, x: Seq<char>, o: int, n: int)
    requires
        holds_at(c, x, o),
        0 <= n < o,
        c[n] == '\n',
    ensures
        has_shebang(c) ==> holds_at(with_header(c, style), x, o + marker_line(style).len() + 1),
        !has_shebang(c) ==> holds_at(with_header(c, style), x, o + marker_line(style).len() + 2),
{
    let m = marker_line(style);
    let w = with_header(c, style);
    lemma_newline_from(c, 0);
    if has_shebang(c) {
        let k = newline_from(c, 0)->Some_0;
        assert(k <= n);
        let head = c.take(k + 1) + m + seq!['\n'];
        assert(w =~= head + c.skip(k + 1));
        assert(w.subrange(o + m.len() + 1, o + m.len() + 1 + x.len()) =~= c.subrange(o, o + x.len()));
    } else {
        let head = m + seq!['\n', '\n'];
        assert(w =~= head + c);
        assert(w.subrange(o + m.len() + 2, o + m.len() + 2 + x.len()) =~= c.subrange(o, o + x.len()));
    }
}

/// A rendered hook script holds each of the two paths quoted for the
/// platform's shell, and the shell reads each quoted path back as exactly
/// the path.
pub proof fn lemma_script_holds_paths(platform: Platform, phase: LifeCyclePhase, exe: Seq<char>, cfg: Seq<char>)
    ensures
        exists|o: int| holds_at(script_text(platform, phase, exe, cfg), escaped(platform, exe), o),
        exists|o: int| holds_at(script_text(platform, phase, exe, cfg), escaped(platform, cfg), o),
        unquote(platform, escaped(platform, exe)) == exe,
        unquote(platform, escaped(platform, cfg)) == cfg,
{
    let e = escaped(platform, exe);
    let g = escaped(platform, cfg);
    let h = phase_name(phase);
    let mid = " --config "@;
    lemma_filled_template(platform, h, e, g);
    lemma_escape_round_trip(platform, exe);
    lemma_escape_round_trip(platform, cfg);
    reveal_strlit("#!/usr/bin/env sh\nset -e\nexec ");
    reveal_strlit("@echo off\r\n");
    reveal_strlit(" --config ");
    let lead = template_lead(platform);
    let c = fill(template_text(platform), h, e, g);
    let rest = fill(template_tail(platform), h, e, g);
    assert(c == lead + e + mid + g + rest);
    let oe = lead.len() as int;
    let og = oe + e.len() + mid.len();
    assert(c.subrange(oe, oe + e.len()) =~= e);
    assert(c.subrange(og, og + g.len()) =~= g);
    let n: int = match platform {
        Platform::Unix => 17,
        Platform::Windows => 10,
    };
    assert(c[n] == lead[n]);
    let m = marker_line(style_of(platform));
    lemma_header_keeps_after_first_line(c, style_of(platform), e, oe, n);
    lemma_header_keeps_after_first_line(c, style_of(platform), g, og, n);
    if has_shebang(c) {
        assert(holds_at(script_text(platform, phase, exe, cfg), e, oe + m.len() + 1));
        assert(holds_at(script_text(platform, phase, exe, cfg), g, og + m.len() + 1));
    } else {
        assert(holds_at(script_text(platform, phase, exe, cfg), e, oe + m.len() + 2));
        assert(holds_at(script_text(platform, phase, exe, cfg), g, og + m.len() + 2));
    }
}

} // verus!
