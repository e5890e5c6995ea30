//! What differs between Unix-like systems and Windows: how a command line is
//! handed to the shell, the hook script template, how a path is quoted in
//! a script, and how a file is made executable.

use vstd::prelude::*;

use crate::text::{chars_of, occurs_at, push_char};

verus! {

/// The kind of system the hooks run on.
#[derive(Debug, PartialEq, Eq, Structural, Clone, Copy)]
pub enum Platform {
    Unix,
    Windows,
}

/// Why a file's permissions could not be changed; the text says why.
#[derive(Debug)]
pub enum Error {
    FailedToGetMetadata(String),
    FailedToSetPermissions(String),
}

/// Relies on `std::path::MAIN_SEPARATOR`, the path separator of the system
/// that the library was built for.
#[verifier::external_body]
fn main_separator() -> (r: char) {
    std::path::MAIN_SEPARATOR
}

/// What a quoted character becomes inside a single-quoted shell word: a
/// single quote closes the quoting, is given escaped, and opens it again.
pub open spec fn sh_piece(c: char) -> Seq<char> {
    if c == '\'' {
        seq!['\'', '\\', '\'', '\'']
    } else {
        seq![c]
    }
}

/// What a quoted character becomes inside a double-quoted batch word: double
/// quotes and percent signs are doubled.
pub open spec fn cmd_piece(c: char) -> Seq<char> {
    if c == '"' {
        seq!['"', '"']
    } else if c == '%' {
        seq!['%', '%']
    } else {
        seq![c]
    }
}

/// The quoted characters of `p`, for one of the two platforms.
pub open spec fn quoted_body(platform: Platform, p: Seq<char>) -> Seq<char>
    decreases p.len(),
{
    if p.len() == 0 {
        Seq::empty()
    } else {
        quoted_body(platform, p.drop_last()) + match platform {
            Platform::Unix => sh_piece(p.last()),
            Platform::Windows => cmd_piece(p.last()),
        }
    }
}

/// `p` as one word of a script: single-quoted on Unix, double-quoted on
/// Windows.
pub open spec fn escaped(platform: Platform, p: Seq<char>) -> Seq<char> {
    let q = match platform {
        Platform::Unix => '\'',
        Platform::Windows => '"',
    };
    seq![q] + quoted_body(platform, p) + seq![q]
}

/// How `sh` reads a word made of plain characters, single-quoted runs and
/// backslash escapes; `quoted` says whether a single-quoted run is open.
pub open spec fn sh_unquote(s: Seq<char>, quoted: bool) -> Seq<char>
    decreases s.len(),
{
    if s.len() == 0 {
        Seq::empty()
    } else if quoted {
        if s[0] == '\'' {
            sh_unquote(s.drop_first(), false)
        } else {
            seq![s[0]] + sh_unquote(s.drop_first(), true)
        }
    } else if s[0] == '\'' {
        sh_unquote(s.drop_first(), true)
    } else if s[0] == '\\' && s.len() >= 2 {
        seq![s[1]] + sh_unquote(s.skip(2), false)
    } else {
        seq![s[0]] + sh_unquote(s.drop_first(), false)
    }
}

/// How `cmd.exe` reads a word of a batch file: `%%` is a percent sign, a
/// doubled double quote inside quotes is a double quote, and a lone double
/// quote opens or closes the quoting.
pub open spec fn cmd_unquote(s: Seq<char>, quoted: bool) -> Seq<char>
    decreases s.len(),
{
    if s.len() == 0 {
        Seq::empty()
    } else if s[0] == '%' && s.len() >= 2 && s[1] == '%' {
        seq!['%'] + cmd_unquote(s.skip(2), quoted)
    } else if quoted && s[0] == '"' && s.len() >= 2 && s[1] == '"' {
        seq!['"'] + cmd_unquote(s.skip(2), true)
    } else if s[0] == '"' {
        cmd_unquote(s.drop_first(), !quoted)
    } else {
        seq![s[0]] + cmd_unquote(s.drop_first(), quoted)
    }
}

/// How the platform's shell reads a word back.
pub open spec fn unquote(platform: Platform, s: Seq<char>) -> Seq<char> {
    match platform {
        Platform::Unix => sh_unquote(s, false),
        Platform::Windows => cmd_unquote(s, false),
    }
}

proof fn lemma_quoted_body_concat(platform: Platform, a: Seq<char>, b: Seq<char>)
    ensures
        quoted_body(platform, a + b) == quoted_body(platform, a) + quoted_body(platform, b),
    decreases b.len(),
{
    if b.len() == 0 {
        assert(a + b =~= a);
        assert(quoted_body(platform, b) =~= Seq::<char>::empty());
    } else {
        assert((a + b).drop_last() =~= a + b.drop_last());
        assert((a + b).last() == b.last());
        lemma_quoted_body_concat(platform, a, b.drop_last());
    }
}

proof fn lemma_quoted_body_front(platform: Platform, p: Seq<char>)
    requires
        p.len() > 0,
    ensures
        quoted_body(platform, p) == quoted_body(platform, seq![p[0]]) + quoted_body(
            platform,
            p.drop_first(),
        ),
{
    assert(p =~= seq![p[0]] + p.drop_first());
    lemma_quoted_body_concat(platform, seq![p[0]], p.drop_first());
}

proof fn lemma_sh_body_read(p: Seq<char>, t: Seq<char>)
    ensures
        sh_unquote(quoted_body(Platform::Unix, p) + t, true) == p + sh_unquote(t, true),
    decreases p.len(),
{
    if p.len() == 0 {
        assert(quoted_body(Platform::Unix, p) + t =~= t);
        assert(p + sh_unquote(t, true) =~= sh_unquote(t, true));
    } else {
        let c = p[0];
        let rest = p.drop_first();
        lemma_quoted_body_front(Platform::Unix, p);
        assert(seq![c].drop_last() =~= Seq::<char>::empty());
        assert(seq![c].last() == c);
        assert(quoted_body(Platform::Unix, Seq::<char>::empty()) =~= Seq::<char>::empty());
        assert(quoted_body(Platform::Unix, seq![c]) =~= sh_piece(c));
        lemma_sh_body_read(rest, t);
        let u = quoted_body(Platform::Unix, rest) + t;
        let s = quoted_body(Platform::Unix, p) + t;
        assert(s =~= sh_piece(c) + u);
        if c == '\'' {
            let s1 = s.drop_first();
            assert(s1 =~= seq!['\\', '\'', '\''] + u);
            assert(s1.skip(2) =~= seq!['\''] + u);
            assert((seq!['\''] + u).drop_first() =~= u);
            assert(sh_unquote(s1.skip(2), false) == sh_unquote(u, true));
            assert(sh_unquote(s1, false) == seq!['\''] + sh_unquote(u, true));
            assert(sh_unquote(s, true) == sh_unquote(s1, false));
        } else {
            assert(s.drop_first() =~= u);
            assert(sh_unquote(s, true) == seq![c] + sh_unquote(u, true));
        }
        assert(p + sh_unquote(t, true) =~= seq![c] + (rest + sh_unquote(t, true)));
    }
}

proof fn lemma_cmd_body_read(p: Seq<char>, t: Seq<char>)
    ensures
        cmd_unquote(quoted_body(Platform::Windows, p) + t, true) == p + cmd_unquote(t, true),
    decreases p.len(),
{
    if p.len() == 0 {
        assert(quoted_body(Platform::Windows, p) + t =~= t);
        assert(p + cmd_unquote(t, true) =~= cmd_unquote(t, true));
    } else {
        let c = p[0];
        let rest = p.drop_first();
        lemma_quoted_body_front(Platform::Windows, p);
        assert(seq![c].drop_last() =~= Seq::<char>::empty());
        assert(seq![c].last() == c);
        assert(quoted_body(Platform::Windows, Seq::<char>::empty()) =~= Seq::<char>::empty());
        assert(quoted_body(Platform::Windows, seq![c]) =~= cmd_piece(c));
        lemma_cmd_body_read(rest, t);
        let u = quoted_body(Platform::Windows, rest) + t;
        let s = quoted_body(Platform::Windows, p) + t;
        assert(s =~= cmd_piece(c) + u);
        if c == '"' || c == '%' {
            assert(s.skip(2) =~= u);
            assert(cmd_unquote(s, true) == seq![c] + cmd_unquote(u, true));
        } else {
            assert(s.drop_first() =~= u);
            assert(cmd_unquote(s, true) == seq![c] + cmd_unquote(u, true));
        }
        assert(p + cmd_unquote(t, true) =~= seq![c] + (rest + cmd_unquote(t, true)));
    }
}

/// A path quoted into a script reads back, through the platform's shell, as
/// exactly the path.
pub proof fn lemma_escape_round_trip(platform: Platform, p: Seq<char>)
    ensures
        unquote(platform, escaped(platform, p)) == p,
{
    let e = escaped(platform, p);
    match platform {
        Platform::Unix => {
            let q = seq!['\''];
            assert(e.drop_first() =~= quoted_body(platform, p) + q);
            lemma_sh_body_read(p, q);
            assert(e[0] == '\'');
            assert(q.drop_first() =~= Seq::<char>::empty());
            assert(sh_unquote(q, true) == sh_unquote(Seq::<char>::empty(), false));
            assert(p + Seq::<char>::empty() =~= p);
        },
        Platform::Windows => {
            let q = seq!['"'];
            assert(e.drop_first() =~= quoted_body(platform, p) + q);
            lemma_cmd_body_read(p, q);
            assert(e[0] == '"');
            assert(q.drop_first() =~= Seq::<char>::empty());
            assert(cmd_unquote(q, true) == cmd_unquote(Seq::<char>::empty(), false));
            assert(p + Seq::<char>::empty() =~= p);
        },
    }
}

/// The hook script template of a platform. `{hook}` stands for the phase
/// name, `{executable_path}` for this tool's executable and `{config_path}`
/// for the configuration file, both quoted for the platform's shell.
pub open spec fn template_text(platform: Platform) -> Seq<char> {
    match platform {
        Platform::Unix => "#!/usr/bin/env sh\nset -e\nexec {executable_path} --config {config_path} run {hook} -- \"$@\"\n"@,
        Platform::Windows => "@echo off\r\n{executable_path} --config {config_path} run {hook} -- %*\r\nexit /b %ERRORLEVEL%\r\n"@,
    }
}

/// `t` with each placeholder replaced, left to right.
pub open spec fn fill(t: Seq<char>, hook: Seq<char>, exe: Seq<char>, cfg: Seq<char>) -> Seq<char>
    decreases t.len(),
{
    if t.len() == 0 {
        Seq::empty()
    } else if t.len() >= 6 && t.take(6) == "{hook}"@ {
        hook + fill(t.skip(6), hook, exe, cfg)
    } else if t.len() >= 17 && t.take(17) == "{executable_path}"@ {
        exe + fill(t.skip(17), hook, exe, cfg)
    } else if t.len() >= 13 && t.take(13) == "{config_path}"@ {
        cfg + fill(t.skip(13), hook, exe, cfg)
    } else {
        seq![t[0]] + fill(t.drop_first(), hook, exe, cfg)
    }
}

/// Replaces the placeholders of a template, left to right: `{hook}` by
/// `hook`, `{executable_path}` by `exe`, `{config_path}` by `cfg`.
pub fn fill_template(template: &str, hook: &str, exe: &str, cfg: &str) -> (r: String)
    ensures
        r@ == fill(template@, hook@, exe@, cfg@),
{
    let t = chars_of(template);
    let ghost ts = t@;
    let mut r = String::new();
    let mut i: usize = 0;
    assert(ts.skip(0) =~= ts);
    assert(r@ + fill(ts, hook@, exe@, cfg@) =~= fill(ts, hook@, exe@, cfg@));
    while i < t.len()
        invariant
            ts == t@,
            ts == template@,
            i <= ts.len(),
            r@ + fill(ts.skip(i as int), hook@, exe@, cfg@) == fill(ts, hook@, exe@, cfg@),
        decreases ts.len() - i,
    {
        proof {
            reveal_strlit("{hook}");
            reveal_strlit("{executable_path}");
            reveal_strlit("{config_path}");
        }
        let ghost rest = ts.skip(i as int);
        assert(rest.len() >= 6 ==> rest.take(6) =~= ts.subrange(i as int, i + 6));
        assert(rest.len() >= 17 ==> rest.take(17) =~= ts.subrange(i as int, i + 17));
        assert(rest.len() >= 13 ==> rest.take(13) =~= ts.subrange(i as int, i + 13));
        if occurs_at(&t, i, "{hook}") {
            assert(rest.skip(6) =~= ts.skip(i + 6));
            r.append(hook);
            i = i + 6;
            assert(r@ + fill(ts.skip(i as int), hook@, exe@, cfg@) =~= fill(ts, hook@, exe@, cfg@));
        } else if occurs_at(&t, i, "{executable_path}") {
            assert(rest.skip(17) =~= ts.skip(i + 17));
            r.append(exe);
            i = i + 17;
            assert(r@ + fill(ts.skip(i as int), hook@, exe@, cfg@) =~= fill(ts, hook@, exe@, cfg@));
        } else if occurs_at(&t, i, "{config_path}") {
            assert(rest.skip(13) =~= ts.skip(i + 13));
            r.append(cfg);
            i = i + 13;
            assert(r@ + fill(ts.skip(i as int), hook@, exe@, cfg@) =~= fill(ts, hook@, exe@, cfg@));
        } else {
            assert(rest.drop_first() =~= ts.skip(i + 1));
            assert(rest[0] == t@[i as int]);
            push_char(&mut r, t[i]);
            i = i + 1;
            assert(r@ + fill(ts.skip(i as int), hook@, exe@, cfg@) =~= fill(ts, hook@, exe@, cfg@));
        }
    }
    assert(ts.skip(i as int) =~= Seq::<char>::empty());
    assert(r@ + Seq::<char>::empty() =~= r@);
    r
}

/// The part of a platform's template before `{executable_path}`.
pub open spec fn template_lead(platform: Platform) -> Seq<char> {
    match platform {
        Platform::Unix => "#!/usr/bin/env sh\nset -e\nexec "@,
        Platform::Windows => "@echo off\r\n"@,
    }
}

/// The part of a platform's template after `{config_path}`.
pub open spec fn template_tail(platform: Platform) -> Seq<char> {
    match platform {
        Platform::Unix => " run {hook} -- \"$@\"\n"@,
        Platform::Windows => " run {hook} -- %*\r\nexit /b %ERRORLEVEL%\r\n"@,
    }
}

proof fn lemma_fill_plain(t: Seq<char>, n: int, hook: Seq<char>, exe: Seq<char>, cfg: Seq<char>)
    requires
        0 <= n <= t.len(),
        forall|k: int| 0 <= k < n ==> t[k] != '{',
    ensures
        fill(t, hook, exe, cfg) == t.take(n) + fill(t.skip(n), hook, exe, cfg),
    decreases n,
{
    reveal_strlit("{hook}");
    reveal_strlit("{executable_path}");
    reveal_strlit("{config_path}");
    if n == 0 {
        assert(t.skip(0) =~= t);
        assert(t.take(0) + fill(t, hook, exe, cfg) =~= fill(t, hook, exe, cfg));
    } else {
        assert(t.len() >= 6 ==> t.take(6)[0] == t[0]);
        assert(t.len() >= 17 ==> t.take(17)[0] == t[0]);
        assert(t.len() >= 13 ==> t.take(13)[0] == t[0]);
        let u = t.drop_first();
        lemma_fill_plain(u, n - 1, hook, exe, cfg);
        assert(u.skip(n - 1) =~= t.skip(n));
        assert(t.take(n) =~= seq![t[0]] + u.take(n - 1));
    }
}

proof fn lemma_fill_at(a: Seq<char>, p: Seq<char>, v: Seq<char>, b: Seq<char>, hook: Seq<char>, exe: Seq<char>, cfg: Seq<char>)
    requires
        forall|k: int| 0 <= k < a.len() ==> a[k] != '{',
        (p == "{executable_path}"@ && v == exe) || (p == "{config_path}"@ && v == cfg),
    ensures
        fill(a + p + b, hook, exe, cfg) == a + v + fill(b, hook, exe, cfg),
{
    reveal_strlit("{hook}");
    reveal_strlit("{executable_path}");
    reveal_strlit("{config_path}");
    let t = a + p + b;
    lemma_fill_plain(t, a.len() as int, hook, exe, cfg);
    let r = t.skip(a.len() as int);
    assert(t.take(a.len() as int) =~= a);
    assert(r =~= p + b);
    if p == "{executable_path}"@ {
        assert(r.take(6) != "{hook}"@) by {
            assert(r.take(6)[1] == 'e');
        }
        assert(r.take(17) =~= p);
        assert(r.skip(17) =~= b);
    } else {
        assert(r.take(6) != "{hook}"@) by {
            assert(r.take(6)[1] == 'c');
        }
        if r.len() >= 17 {
            assert(r.take(17) != "{executable_path}"@) by {
                assert(r.take(17)[1] == 'c');
            }
        }
        assert(r.take(13) =~= p);
        assert(r.skip(13) =~= b);
    }
}

/// The filled template holds the executable path, then ` --config `, then
/// the configuration path, as given.
pub proof fn lemma_filled_template(platform: Platform, hook: Seq<char>, exe: Seq<char>, cfg: Seq<char>)
    ensures
        fill(template_text(platform), hook, exe, cfg) == template_lead(platform) + exe + " --config "@
            + cfg + fill(template_tail(platform), hook, exe, cfg),
        forall|k: int| 0 <= k < template_lead(platform).len() ==> template_lead(platform)[k] != '{',
{
    reveal_strlit("#!/usr/bin/env sh\nset -e\nexec {executable_path} --config {config_path} run {hook} -- \"$@\"\n");
    reveal_strlit("@echo off\r\n{executable_path} --config {config_path} run {hook} -- %*\r\nexit /b %ERRORLEVEL%\r\n");
    reveal_strlit("#!/usr/bin/env sh\nset -e\nexec ");
    reveal_strlit("@echo off\r\n");
    reveal_strlit(" run {hook} -- \"$@\"\n");
    reveal_strlit(" run {hook} -- %*\r\nexit /b %ERRORLEVEL%\r\n");
    reveal_strlit("{executable_path}");
    reveal_strlit("{config_path}");
    reveal_strlit(" --config ");
    let lead = template_lead(platform);
    let mid = " --config "@;
    let tail = template_tail(platform);
    let pe = "{executable_path}"@;
    let pc = "{config_path}"@;
    assert(template_text(platform) =~= lead + pe + ((mid + pc) + tail));
    lemma_fill_at(lead, pe, exe, (mid + pc) + tail, hook, exe, cfg);
    assert(mid + pc + tail =~= (mid + pc) + tail);
    lemma_fill_at(mid, pc, cfg, tail, hook, exe, cfg);
    assert(lead + exe + (mid + cfg + fill(tail, hook, exe, cfg)) =~= lead + exe + mid + cfg + fill(
        tail,
        hook,
        exe,
        cfg,
    ));
}

impl Platform {
    /// The program and the flag that run one command line through the
    /// platform's shell: `sh -c` or `cmd.exe /C`.
    pub fn shell_invocation(&self) -> (r: (&'static str, &'static str))
        ensures
            *self == Platform::Unix ==> r.0@ == "sh"@ && r.1@ == "-c"@,
            *self == Platform::Windows ==> r.0@ == "cmd.exe"@ && r.1@ == "/C"@,
    {
        match self {
            Platform::Unix => ("sh", "-c"),
            Platform::Windows => ("cmd.exe", "/C"),
        }
    }

    /// The hook script template of the platform (see [`template_text`]).
    pub fn hook_script_template(&self) -> (r: &'static str)
        ensures
            r@ == template_text(*self),
    {
        match self {
            Platform::Unix => "#!/usr/bin/env sh\nset -e\nexec {executable_path} --config {config_path} run {hook} -- \"$@\"\n",
            Platform::Windows => "@echo off\r\n{executable_path} --config {config_path} run {hook} -- %*\r\nexit /b %ERRORLEVEL%\r\n",
        }
    }

    /// The permission bits to give a file so that it can be executed, from
    /// the bits it has: on Unix execute permission for everyone is added; on
    /// Windows, where the extension decides, nothing is to change.
    pub fn make_executable(&self, mode: u32) -> (r: Option<u32>)
        ensures
            *self == Platform::Unix ==> r == Some(mode | 0o111u32),
            *self == Platform::Windows ==> r is None,
    {
        match self {
            Platform::Unix => Some(mode | 0o111),
            Platform::Windows => None,
        }
    }

    /// The platform that the library was built for. Which one it is depends
    /// on the system alone.
    pub fn current() -> (r: Platform) {
        if main_separator() == '\\' {
            Platform::Windows
        } else {
            Platform::Unix
        }
    }

    /// `path` as one word of a hook script of this platform. On Unix it is
    /// single-quoted and each single quote inside it becomes `'\''`; on
    /// Windows it is double-quoted and each double quote or percent sign
    /// inside it is doubled.
    pub fn escape_path(&self, path: &str) -> (r: String)
        ensures
            r@ == escaped(*self, path@),
    {
        let cs = chars_of(path);
        let q = match self {
            Platform::Unix => '\'',
            Platform::Windows => '"',
        };
        let mut r = String::new();
        push_char(&mut r, q);
        let mut i: usize = 0;
        while i < cs.len()
            invariant
                cs@ == path@,
                i <= cs@.len(),
                r@ == seq![q] + quoted_body(*self, path@.take(i as int)),
            decreases cs@.len() - i,
        {
            let c = cs[i];
            match self {
                Platform::Unix => {
                    if c == '\'' {
                        push_char(&mut r, '\'');
                        push_char(&mut r, '\\');
                        push_char(&mut r, '\'');
                        push_char(&mut r, '\'');
                    } else {
                        push_char(&mut r, c);
                    }
                },
                Platform::Windows => {
                    if c == '"' || c == '%' {
                        push_char(&mut r, c);
                    }
                    push_char(&mut r, c);
                },
            }
            proof {
                assert(path@.take(i + 1).drop_last() =~= path@.take(i as int));
                assert(path@.take(i + 1).last() == c);
            }
            i = i + 1;
            assert(r@ =~= seq![q] + quoted_body(*self, path@.take(i as int)));
        }
        assert(path@.take(i as int) =~= path@);
        push_char(&mut r, q);
        assert(r@ =~= escaped(*self, path@));
        r
    }
}

} // verus!
