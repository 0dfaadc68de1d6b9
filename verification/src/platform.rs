//! What differs between Windows and POSIX systems: executable names, quoting
//! for Git's shell, and the user PATH entries that the installer adds.
use vstd::prelude::*;

use crate::paths::{join, join_path, AppPaths};
use crate::text::{
    append_chars, append_str, chars_contains, parse_u64_max, parse_unsigned, chars_eq, chars_of, chars_starts_with, contains,
    is_ws, lines, lines_of, lower, lower_chars, occurs_at, owned, push_char, replace_char,
    replace_chars, slice_chars, split_on, split_on_chars, starts_with, string_of, strip_cr, trim,
    trim_chars,
};

verus! {

#[derive(Clone, Copy, Debug, PartialEq, Eq, Structural)]
pub enum Platform {
    Unix,
    Windows,
}

pub open spec fn executable_name_of(platform: Platform) -> Seq<char> {
    match platform {
        Platform::Windows => "gitsama.exe"@,
        Platform::Unix => "gitsama"@,
    }
}

pub fn executable_name(platform: Platform) -> (r: &'static str)
    ensures
        r@ == executable_name_of(platform),
{
    match platform {
        Platform::Windows => "gitsama.exe",
        Platform::Unix => "gitsama",
    }
}

/// The separator of entries in the PATH variable.
pub fn path_separator(platform: Platform) -> (r: char)
    ensures
        platform == Platform::Windows ==> r == ';',
        platform == Platform::Unix ==> r == ':',
{
    match platform {
        Platform::Windows => ';',
        Platform::Unix => ':',
    }
}

/// Where the installed binary lives.
pub fn installed_binary(paths: &AppPaths, platform: Platform) -> (r: String)
    ensures
        r@ == join_path(paths.bin@, executable_name_of(platform), platform),
{
    join(paths.bin.as_str(), executable_name(platform), platform)
}

/// `\\?\UNC\`, the verbatim prefix of a network path.
pub open spec fn verbatim_unc() -> Seq<char> {
    seq!['\\', '\\', '?', '\\', 'U', 'N', 'C', '\\']
}

/// `\\?\`, the verbatim prefix of a local path.
pub open spec fn verbatim() -> Seq<char> {
    seq!['\\', '\\', '?', '\\']
}

/// The path as Git's POSIX shell must see it. On Windows the verbatim prefix
/// that canonicalisation adds is dropped and backslashes become slashes.
pub open spec fn shell_path(value: Seq<char>, platform: Platform) -> Seq<char> {
    match platform {
        Platform::Unix => value,
        Platform::Windows => if starts_with(value, verbatim_unc()) {
            seq!['/', '/'] + replace_char(value.skip(8), '\\', seq!['/'])
        } else if starts_with(value, verbatim()) {
            replace_char(value.skip(4), '\\', seq!['/'])
        } else {
            replace_char(value, '\\', seq!['/'])
        },
    }
}

// ---------------------------------------------------------------------------
// The Git process behind a hook
// ---------------------------------------------------------------------------
/// The process id that `GITSAMA_GIT_PID` names on a POSIX system: a `u32`
/// above 1 (1 is what a process whose parent is gone reports).
pub fn parent_git_pid(value: &str) -> (r: Option<u32>)
    ensures
        match parse_unsigned(value@, u32::MAX as nat) {
            Some(n) => if n > 1 {
                r == Some(n as u32)
            } else {
                r is None
            },
            None => r is None,
        },
{
    match parse_u64_max(&chars_of(value), u32::MAX as u64) {
        Some(n) => if n > 1 {
            Some(n as u32)
        } else {
            None
        },
        None => None,
    }
}

/// The first entry of a process table (id, parent id, whether it is
/// `git.exe`) for the process `pid`.
pub open spec fn process_entry(procs: Seq<(u32, u32, bool)>, pid: u32) -> Option<(u32, u32, bool)>
    decreases procs.len(),
{
    if procs.len() == 0 {
        None
    } else {
        match process_entry(procs.drop_last(), pid) {
            Some(e) => Some(e),
            None => if procs.last().0 == pid {
                Some(procs.last())
            } else {
                None
            },
        }
    }
}

/// Walking up from `pid` through at most `steps` processes, the first that
/// is `git.exe`; `None` when the walk leaves the table or runs out of steps.
pub open spec fn git_ancestor(procs: Seq<(u32, u32, bool)>, pid: u32, steps: nat) -> Option<u32>
    decreases steps,
{
    if steps == 0 {
        None
    } else {
        match process_entry(procs, pid) {
            None => None,
            Some(e) => if e.2 {
                Some(pid)
            } else {
                git_ancestor(procs, e.1, (steps - 1) as nat)
            },
        }
    }
}

fn find_process(procs: &Vec<(u32, u32, bool)>, pid: u32) -> (r: Option<(u32, u32, bool)>)
    ensures
        r == process_entry(procs@, pid),
{
    let mut i: usize = 0;
    while i < procs.len()
        invariant
            i <= procs@.len(),
            process_entry(procs@.take(i as int), pid) is None,
        decreases procs.len() - i,
    {
        assert(procs@.take(i + 1).drop_last() =~= procs@.take(i as int));
        if procs[i].0 == pid {
            proof {
                lemma_process_entry_prefix(procs@, i as int + 1, pid);
            }
            return Some(procs[i]);
        }
        i = i + 1;
    }
    assert(procs@.take(procs.len() as int) =~= procs@);
    None
}

proof fn lemma_process_entry_prefix(procs: Seq<(u32, u32, bool)>, i: int, pid: u32)
    requires
        0 <= i <= procs.len(),
        process_entry(procs.take(i), pid) is Some,
    ensures
        process_entry(procs, pid) == process_entry(procs.take(i), pid),
    decreases procs.len() - i,
{
    if i < procs.len() {
        assert(procs.take(i + 1).drop_last() =~= procs.take(i));
        lemma_process_entry_prefix(procs, i + 1, pid);
    } else {
        assert(procs.take(i) =~= procs);
    }
}

/// The Git process that runs this hook, found in a process table by walking
/// up from `start` through at most 16 processes (the POSIX emulation may put
/// several shells in between).
pub fn git_ancestor_of(procs: &Vec<(u32, u32, bool)>, start: u32) -> (r: Option<u32>)
    ensures
        r == git_ancestor(procs@, start, 16),
{
    let mut pid = start;
    let mut steps: u32 = 16;
    while steps > 0
        invariant
            git_ancestor(procs@, pid, steps as nat) == git_ancestor(procs@, start, 16),
        decreases steps,
    {
        match find_process(procs, pid) {
            None => {
                return None;
            },
            Some(e) => {
                if e.2 {
                    return Some(pid);
                }
                pid = e.1;
            },
        }
        steps = steps - 1;
    }
    None
}

/// A single-quoted shell word for the path; each `'` inside becomes `'\''`.
pub open spec fn shell_quoted(value: Seq<char>, platform: Platform) -> Seq<char> {
    seq!['\''] + replace_char(shell_path(value, platform), '\'', seq!['\'', '\\', '\'', '\''])
        + seq!['\'']
}

/// Quotes a path for a command that Git runs through its POSIX shell.
pub fn shell_quote(path: &str, platform: Platform) -> (r: String)
    ensures
        r@ == shell_quoted(path@, platform),
{
    let v = chars_of(path);
    let slash = vec!['/'];
    assert(slash@ =~= seq!['/']);
    let unc = vec!['\\', '\\', '?', '\\', 'U', 'N', 'C', '\\'];
    assert(unc@ =~= verbatim_unc());
    let verb = vec!['\\', '\\', '?', '\\'];
    assert(verb@ =~= verbatim());
    let value: Vec<char> = match platform {
        Platform::Unix => v,
        Platform::Windows => {
            if chars_starts_with(&v, &unc) {
                let rest = slice_chars(&v, 8, v.len());
                assert(rest@ =~= v@.skip(8));
                let mut out = vec!['/', '/'];
                let replaced = replace_chars(&rest, '\\', &slash);
                let mut k: usize = 0;
                while k < replaced.len()
                    invariant
                        k <= replaced.len(),
                        out@ =~= seq!['/', '/'] + replaced@.take(k as int),
                    decreases replaced.len() - k,
                {
                    out.push(replaced[k]);
                    k = k + 1;
                }
                assert(replaced@.take(replaced.len() as int) =~= replaced@);
                out
            } else if chars_starts_with(&v, &verb) {
                let rest = slice_chars(&v, 4, v.len());
                assert(rest@ =~= v@.skip(4));
                replace_chars(&rest, '\\', &slash)
            } else {
                replace_chars(&v, '\\', &slash)
            }
        },
    };
    assert(value@ == shell_path(path@, platform));
    let escape = vec!['\'', '\\', '\'', '\''];
    assert(escape@ =~= seq!['\'', '\\', '\'', '\'']);
    let escaped = replace_chars(&value, '\'', &escape);
    let mut r = String::new();
    push_char(&mut r, '\'');
    append_chars(&mut r, &escaped);
    push_char(&mut r, '\'');
    assert(r@ =~= shell_quoted(path@, platform));
    r
}

/// The word a POSIX shell reads from `s` when `s` is written only as
/// single-quoted strings and backslash-escaped characters (`quoted`: inside a
/// single-quoted string); `None` for any other text or an open quote.
pub open spec fn sh_word(s: Seq<char>, quoted: bool) -> Option<Seq<char>>
    decreases s.len(),
{
    if s.len() == 0 {
        if quoted {
            None
        } else {
            Some(Seq::<char>::empty())
        }
    } else if quoted {
        if s[0] == '\'' {
            sh_word(s.drop_first(), false)
        } else {
            match sh_word(s.drop_first(), true) {
                Some(r) => Some(seq![s[0]] + r),
                None => None,
            }
        }
    } else if s[0] == '\'' {
        sh_word(s.drop_first(), true)
    } else if s[0] == '\\' && s.len() >= 2 {
        match sh_word(s.skip(2), false) {
            Some(r) => Some(seq![s[1]] + r),
            None => None,
        }
    } else {
        None
    }
}

proof fn lemma_replace_char_concat(a: Seq<char>, b: Seq<char>, c: char, by: Seq<char>)
    ensures
        replace_char(a + b, c, by) == replace_char(a, c, by) + replace_char(b, c, by),
    decreases b.len(),
{
    if b.len() == 0 {
        assert(a + b =~= a);
        assert(replace_char(a, c, by) + replace_char(b, c, by) =~= replace_char(a, c, by));
    } else {
        assert((a + b).drop_last() =~= a + b.drop_last());
        lemma_replace_char_concat(a, b.drop_last(), c, by);
        let ra = replace_char(a, c, by);
        let rb = replace_char(b.drop_last(), c, by);
        if b.last() == c {
            assert((ra + rb) + by =~= ra + (rb + by));
        } else {
            assert((ra + rb).push(b.last()) =~= ra + rb.push(b.last()));
        }
    }
}

/// Inside a single-quoted string, the escaped text reads back as the text.
proof fn lemma_escaped_reads_back(x: Seq<char>, tail: Seq<char>)
    ensures
        match sh_word(tail, true) {
            Some(r) => sh_word(
                replace_char(x, '\'', seq!['\'', '\\', '\'', '\'']) + tail,
                true,
            ) == Some(x + r),
            None => sh_word(replace_char(x, '\'', seq!['\'', '\\', '\'', '\'']) + tail, true)
                is None,
        },
    decreases x.len(),
{
    let e = seq!['\'', '\\', '\'', '\''];
    if x.len() == 0 {
        assert(replace_char(x, '\'', e) + tail =~= tail);
        assert(x + Seq::<char>::empty() =~= x);
        match sh_word(tail, true) {
            Some(r) => {
                assert(x + r =~= r);
            },
            None => {},
        }
    } else {
        let c = x[0];
        let rest = x.drop_first();
        assert(x =~= seq![c] + rest);
        lemma_replace_char_concat(seq![c], rest, '\'', e);
        assert(seq![c].drop_last() =~= Seq::<char>::empty());
        assert(seq![c].last() == c);
        assert(replace_char(Seq::<char>::empty(), '\'', e) =~= Seq::<char>::empty());
        lemma_escaped_reads_back(rest, tail);
        let rr = replace_char(rest, '\'', e) + tail;
        if c == '\'' {
            assert(replace_char(seq![c], '\'', e) =~= e);
            let s = e + rr;
            assert(s[0] == '\'');
            assert(s.drop_first() =~= seq!['\\', '\'', '\''] + rr);
            let s1 = s.drop_first();
            assert(s1[0] == '\\' && s1[1] == '\'');
            assert(s1.skip(2) =~= seq!['\''] + rr);
            assert((seq!['\''] + rr).drop_first() =~= rr);
            assert(sh_word(s, true) == sh_word(s1, false));
            assert(sh_word(s1.skip(2), false) == sh_word(rr, true));
            match sh_word(tail, true) {
                Some(r) => {
                    assert(seq!['\''] + (rest + r) =~= x + r);
                },
                None => {},
            }
            assert(replace_char(x, '\'', e) + tail =~= s);
        } else {
            assert(replace_char(seq![c], '\'', e) =~= seq![c]);
            let s = seq![c] + rr;
            assert(s.drop_first() =~= rr);
            assert(s[0] == c);
            match sh_word(tail, true) {
                Some(r) => {
                    assert(seq![c] + (rest + r) =~= x + r);
                },
                None => {},
            }
            assert(replace_char(x, '\'', e) + tail =~= s);
        }
    }
}

/// A POSIX shell reads the quoted word back as the path it quotes.
pub proof fn lemma_shell_quote_reads_back(value: Seq<char>, platform: Platform)
    ensures
        sh_word(shell_quoted(value, platform), false) == Some(shell_path(value, platform)),
{
    let x = shell_path(value, platform);
    let e = seq!['\'', '\\', '\'', '\''];
    let q = shell_quoted(value, platform);
    assert(q.drop_first() =~= replace_char(x, '\'', e) + seq!['\'']);
    let close = seq!['\''];
    assert(close.drop_first() =~= Seq::<char>::empty());
    assert(sh_word(Seq::<char>::empty(), false) == Some(Seq::<char>::empty()));
    assert(sh_word(close, true) == Some(Seq::<char>::empty()));
    lemma_escaped_reads_back(x, close);
    assert(x + Seq::<char>::empty() =~= x);
}

/// A Windows path as the user PATH compares it: backslashes, no trailing
/// backslash, lowercase.
pub open spec fn normalized_windows_path(path: Seq<char>) -> Seq<char> {
    lower(trim_trailing_backslashes(replace_char(path, '/', seq!['\\'])))
}

/// `s` without the backslashes at its end.
pub open spec fn trim_trailing_backslashes(s: Seq<char>) -> Seq<char>
    decreases s.len(),
{
    if s.len() > 0 && s.last() == '\\' {
        trim_trailing_backslashes(s.drop_last())
    } else {
        s
    }
}

pub fn normalize_windows_path(path: &str) -> (r: String)
    ensures
        r@ == normalized_windows_path(path@),
{
    let v = chars_of(path);
    let back = vec!['\\'];
    assert(back@ =~= seq!['\\']);
    let mut replaced = replace_chars(&v, '/', &back);
    let ghost whole = replaced@;
    while replaced.len() > 0 && replaced[replaced.len() - 1] == '\\'
        invariant
            trim_trailing_backslashes(replaced@) == trim_trailing_backslashes(whole),
        decreases replaced.len(),
    {
        let ghost before = replaced@;
        replaced.pop();
        assert(replaced@ =~= before.drop_last());
    }
    let lowered = lower_chars(&replaced);
    string_of(&lowered)
}

/// A double-quoted `cmd.exe` word for the path.
pub open spec fn cmd_quoted(path: Seq<char>) -> Seq<char> {
    seq!['"'] + replace_char(path, '"', seq!['\\', '"']) + seq!['"']
}

pub fn windows_cmd_quote(path: &str) -> (r: String)
    ensures
        r@ == cmd_quoted(path@),
{
    let v = chars_of(path);
    let esc = vec!['\\', '"'];
    assert(esc@ =~= seq!['\\', '"']);
    let replaced = replace_chars(&v, '"', &esc);
    let mut r = String::new();
    push_char(&mut r, '"');
    append_chars(&mut r, &replaced);
    push_char(&mut r, '"');
    assert(r@ =~= cmd_quoted(path@));
    r
}


// ---------------------------------------------------------------------------
// Uninstall cleanup
// ---------------------------------------------------------------------------
/// A command to start: the program and its arguments.
#[derive(Clone, Debug)]
pub struct CleanupCommand {
    pub program: String,
    pub args: Vec<String>,
}

/// The `cmd.exe` script that waits for GitSama to exit and deletes it (and
/// the data directory, when given).
pub open spec fn windows_cleanup_script(executable: Seq<char>, data_root: Option<Seq<char>>) -> Seq<
    char,
> {
    let base = "cd /d \"%TEMP%\" >nul 2>nul & timeout /t 1 /nobreak >nul & del /f /q "@
        + cmd_quoted(executable);
    match data_root {
        Some(root) => base + " & rmdir /s /q "@ + cmd_quoted(root),
        None => base,
    }
}

/// The POSIX shell script that does the same with its positional arguments.
pub open spec fn unix_cleanup_script(with_root: bool) -> Seq<char> {
    if with_root {
        "sleep 1; rm -f -- \"$1\"; rm -rf -- \"$2\""@
    } else {
        "sleep 1; rm -f -- \"$1\""@
    }
}

/// The detached command that removes the running executable after GitSama
/// exits, and the data directory when one is given.
pub fn schedule_cleanup(platform: Platform, executable: &str, data_root: Option<&str>) -> (r:
    CleanupCommand)
    ensures
        platform == Platform::Windows ==> r.program@ == "cmd.exe"@ && views_of(r.args@) == seq![
            "/C"@,
            windows_cleanup_script(
                executable@,
                match data_root {
                    Some(d) => Some(d@),
                    None => None,
                },
            ),
        ],
        platform == Platform::Unix ==> r.program@ == "sh"@ && views_of(r.args@) == (match data_root {
            Some(d) => seq![
                "-c"@,
                unix_cleanup_script(true),
                "gitsama-cleanup"@,
                executable@,
                d@,
            ],
            None => seq!["-c"@, unix_cleanup_script(false), "gitsama-cleanup"@, executable@],
        }),
{
    let mut args: Vec<String> = Vec::new();
    match platform {
        Platform::Windows => {
            let mut text = owned(
                "cd /d \"%TEMP%\" >nul 2>nul & timeout /t 1 /nobreak >nul & del /f /q ",
            );
            append_str(&mut text, windows_cmd_quote(executable).as_str());
            match data_root {
                Some(root) => {
                    append_str(&mut text, " & rmdir /s /q ");
                    append_str(&mut text, windows_cmd_quote(root).as_str());
                },
                None => {},
            }
            args.push(owned("/C"));
            args.push(text);
            assert(views_of(args@) =~= seq![
                "/C"@,
                windows_cleanup_script(
                    executable@,
                    match data_root {
                        Some(d) => Some(d@),
                        None => None,
                    },
                ),
            ]);
            CleanupCommand { program: owned("cmd.exe"), args }
        },
        Platform::Unix => {
            args.push(owned("-c"));
            match data_root {
                Some(_) => args.push(owned("sleep 1; rm -f -- \"$1\"; rm -rf -- \"$2\"")),
                None => args.push(owned("sleep 1; rm -f -- \"$1\"")),
            }
            args.push(owned("gitsama-cleanup"));
            args.push(owned(executable));
            match data_root {
                Some(root) => args.push(owned(root)),
                None => {},
            }
            assert(views_of(args@) =~= match data_root {
                Some(d) => seq![
                    "-c"@,
                    unix_cleanup_script(true),
                    "gitsama-cleanup"@,
                    executable@,
                    d@,
                ],
                None => seq!["-c"@, unix_cleanup_script(false), "gitsama-cleanup"@, executable@],
            });
            CleanupCommand { program: owned("sh"), args }
        },
    }
}

pub open spec fn views_of(v: Seq<String>) -> Seq<Seq<char>> {
    v.map_values(|x: String| x@)
}

// ---------------------------------------------------------------------------
// The PATH entry in POSIX shell profiles
// ---------------------------------------------------------------------------
/// The comment line that the installer writes above its PATH line.
pub open spec fn path_marker() -> Seq<char> {
    "# GitSama PATH"@
}

/// The profile lines that remain, and whether a marker was found: each
/// marker line goes, with the line after it when that line names `bin`.
pub open spec fn strip_markers(ls: Seq<Seq<char>>, bin: Seq<char>) -> (Seq<Seq<char>>, bool)
    decreases ls.len(),
{
    if ls.len() == 0 {
        (seq![], false)
    } else if trim(ls[0]) == path_marker() {
        if ls.len() > 1 && contains(ls[1], bin) {
            (strip_markers(ls.skip(2), bin).0, true)
        } else {
            (strip_markers(ls.skip(1), bin).0, true)
        }
    } else {
        (seq![ls[0]] + strip_markers(ls.skip(1), bin).0, strip_markers(ls.skip(1), bin).1)
    }
}

/// `lines.join(sep)`.
pub open spec fn join_lines(ls: Seq<Seq<char>>, sep: Seq<char>) -> Seq<char>
    decreases ls.len(),
{
    if ls.len() == 0 {
        seq![]
    } else if ls.len() == 1 {
        ls[0]
    } else {
        join_lines(ls.drop_last(), sep) + sep + ls.last()
    }
}

/// A profile's text without GitSama's PATH lines, or `None` when it has
/// none. A final newline is kept.
pub open spec fn profile_without_markers(text: Seq<char>, bin: Seq<char>) -> Option<Seq<char>> {
    let (kept, changed) = strip_markers(lines(text), bin);
    if changed {
        Some(
            join_lines(kept, seq!['\n']) + (if text.len() > 0 && text.last() == '\n' {
                seq!['\n']
            } else {
                seq![]
            }),
        )
    } else {
        None
    }
}

// ---------------------------------------------------------------------------
// Removing the markers leaves none
// ---------------------------------------------------------------------------
/// `l` does not hold `c`.
pub open spec fn lacks(l: Seq<char>, c: char) -> bool {
    forall|j: int| 0 <= j < l.len() ==> l[j] != c
}

/// Whitespace at the end does not change the trim.
proof fn lemma_trim_drop_ws(s: Seq<char>)
    requires
        s.len() > 0,
        is_ws(s.last()),
    ensures
        trim(s) == trim(s.drop_last()),
{
    let d = s.drop_last();
    crate::text::lemma_lead_ws_bound(d);
    let p = crate::text::lead_ws(d);
    if p == d.len() {
        assert(crate::text::lead_ws(s) == s.len());
        assert(crate::text::trim_start(s) =~= Seq::<char>::empty());
        assert(crate::text::trim_start(d) =~= Seq::<char>::empty());
    } else {
        assert(crate::text::lead_ws(s) == p);
        let t = crate::text::trim_start(d);
        assert(crate::text::trim_start(s) =~= t.push(s.last()));
        crate::text::lemma_trail_ws_bound(t);
        assert(t.push(s.last()).drop_last() =~= t);
        assert(t.push(s.last()).take(t.len() - crate::text::trail_ws(t)) =~= t.take(
            t.len() - crate::text::trail_ws(t),
        ));
    }
}

proof fn lemma_trim_strip_cr(k: Seq<char>)
    ensures
        trim(strip_cr(k)) == trim(k),
{
    if k.len() > 0 && k.last() == '\r' {
        lemma_trim_drop_ws(k);
    }
}

/// No part of a split holds the separator.
proof fn lemma_split_parts_plain(s: Seq<char>, sep: char)
    ensures
        forall|i: int, j: int|
            0 <= i < split_on(s, sep).len() && 0 <= j < split_on(s, sep)[i].len() ==> split_on(
                s,
                sep,
            )[i][j] != sep,
    decreases s.len(),
{
    if s.len() > 0 {
        lemma_split_parts_plain(s.drop_last(), sep);
        crate::text::lemma_split_on_nonempty(s.drop_last(), sep);
        let prev = split_on(s.drop_last(), sep);
        if s.last() != sep {
            assert forall|i: int, j: int|
                0 <= i < split_on(s, sep).len() && 0 <= j < split_on(s, sep)[i].len() implies split_on(
                s,
                sep,
            )[i][j] != sep by {
                if i == prev.len() - 1 && j == prev.last().len() {
                } else if i == prev.len() - 1 {
                    assert(split_on(s, sep)[i][j] == prev.last()[j]);
                } else {
                    assert(split_on(s, sep)[i] == prev[i]);
                }
            }
        } else {
            assert forall|i: int, j: int|
                0 <= i < split_on(s, sep).len() && 0 <= j < split_on(s, sep)[i].len() implies split_on(
                s,
                sep,
            )[i][j] != sep by {
                if i < prev.len() {
                    assert(split_on(s, sep)[i] == prev[i]);
                }
            }
        }
    }
}

proof fn lemma_lines_plain(s: Seq<char>)
    ensures
        forall|i: int| 0 <= i < lines(s).len() ==> lacks(#[trigger] lines(s)[i], '\n'),
{
    lemma_split_parts_plain(s, '\n');
    crate::text::lemma_split_on_nonempty(s, '\n');
    let parts = split_on(s, '\n');
    assert forall|i: int| 0 <= i < lines(s).len() implies lacks(#[trigger] lines(s)[i], '\n') by {
        if i < parts.len() - 1 {
            let p = parts[i];
            assert(lines(s)[i] == strip_cr(p));
            assert forall|j: int| 0 <= j < strip_cr(p).len() implies strip_cr(p)[j] != '\n' by {
                assert(strip_cr(p)[j] == p[j]);
            }
        } else {
            assert(lines(s)[i] == parts.last());
        }
    }
}

/// The lines that stripping keeps are plain lines that are not markers.
proof fn lemma_kept_lines(ls: Seq<Seq<char>>, bin: Seq<char>)
    requires
        forall|i: int| 0 <= i < ls.len() ==> lacks(#[trigger] ls[i], '\n'),
    ensures
        forall|i: int|
            0 <= i < strip_markers(ls, bin).0.len() ==> lacks(
                #[trigger] strip_markers(ls, bin).0[i],
                '\n',
            ) && trim(strip_markers(ls, bin).0[i]) != path_marker(),
    decreases ls.len(),
{
    if ls.len() > 0 {
        assert forall|i: int| 0 <= i < ls.skip(1).len() implies lacks(#[trigger] ls.skip(1)[i], '\n') by {
            assert(ls.skip(1)[i] == ls[i + 1]);
        }
        lemma_kept_lines(ls.skip(1), bin);
        if ls.len() > 1 {
            assert forall|i: int| 0 <= i < ls.skip(2).len() implies lacks(#[trigger] ls.skip(2)[i], '\n') by {
                assert(ls.skip(2)[i] == ls[i + 2]);
            }
            lemma_kept_lines(ls.skip(2), bin);
        }
        let kept = strip_markers(ls, bin).0;
        if trim(ls[0]) != path_marker() {
            let rest = strip_markers(ls.skip(1), bin).0;
            assert(lacks(ls[0], '\n'));
            assert forall|i: int|
                0 <= i < kept.len() implies lacks(#[trigger] kept[i], '\n') && trim(kept[i])
                != path_marker() by {
                if i > 0 {
                    assert(kept[i] == rest[i - 1]);
                } else {
                    assert(kept[i] == ls[0]);
                }
            }
        } else if ls.len() > 1 && contains(ls[1], bin) {
            assert(kept == strip_markers(ls.skip(2), bin).0);
        } else {
            assert(kept == strip_markers(ls.skip(1), bin).0);
        }
    }
}

/// Profile lines without a marker are left as they are.
proof fn lemma_no_marker_no_change(ls: Seq<Seq<char>>, bin: Seq<char>)
    requires
        forall|i: int| 0 <= i < ls.len() ==> trim(#[trigger] ls[i]) != path_marker(),
    ensures
        !strip_markers(ls, bin).1,
    decreases ls.len(),
{
    if ls.len() > 0 {
        assert forall|i: int| 0 <= i < ls.skip(1).len() implies trim(#[trigger] ls.skip(1)[i])
            != path_marker() by {
            assert(ls.skip(1)[i] == ls[i + 1]);
        }
        lemma_no_marker_no_change(ls.skip(1), bin);
    }
}

/// Once GitSama's PATH lines are removed from a profile, removing them again
/// finds nothing: no marker line is left.
pub proof fn lemma_markers_removed(text: Seq<char>, bin: Seq<char>)
    ensures
        profile_without_markers(text, bin) matches Some(out) ==> profile_without_markers(out, bin)
            is None,
{
    reveal_strlit("# GitSama PATH");
    let (kept, changed) = strip_markers(lines(text), bin);
    if changed {
        let j = join_lines(kept, seq!['\n']);
        let out = profile_without_markers(text, bin)->Some_0;
        lemma_lines_plain(text);
        lemma_kept_lines(lines(text), bin);
        let lo = lines(out);
        assert(trim(Seq::<char>::empty()) =~= Seq::<char>::empty());
        if kept.len() > 0 {
            lemma_split_joined_by(kept, '\n');
        } else {
            assert(j =~= Seq::<char>::empty());
        }
        if text.len() > 0 && text.last() == '\n' {
            assert(out =~= j.push('\n'));
            assert(out.drop_last() =~= j);
            assert(split_on(out, '\n') == split_on(j, '\n').push(Seq::<char>::empty()));
            assert forall|i: int| 0 <= i < lo.len() implies trim(#[trigger] lo[i]) != path_marker() by {
                if kept.len() > 0 {
                    assert(split_on(out, '\n').drop_last() =~= kept);
                    assert(lo[i] == strip_cr(kept[i]));
                    lemma_trim_strip_cr(kept[i]);
                } else {
                    assert(lo[i] == strip_cr(Seq::<char>::empty()));
                }
            }
        } else {
            assert(out =~= j);
            assert forall|i: int| 0 <= i < lo.len() implies trim(#[trigger] lo[i]) != path_marker() by {
                if kept.len() > 0 {
                    if i < kept.len() - 1 {
                        assert(lo[i] == strip_cr(kept[i]));
                        lemma_trim_strip_cr(kept[i]);
                    } else {
                        assert(lo[i] == kept.last());
                    }
                } else {
                    assert(split_on(j, '\n') =~= seq![Seq::<char>::empty()]);
                }
            }
        }
        lemma_no_marker_no_change(lo, bin);
    }
}

pub fn join_chars(ls: &Vec<Vec<char>>, sep: &Vec<char>) -> (r: Vec<char>)
    ensures
        r@ == join_lines(ls@.map_values(|l: Vec<char>| l@), sep@),
{
    let ghost lv = ls@.map_values(|l: Vec<char>| l@);
    let mut r: Vec<char> = Vec::new();
    let mut i: usize = 0;
    while i < ls.len()
        invariant
            i <= ls.len(),
            lv == ls@.map_values(|l: Vec<char>| l@),
            r@ == join_lines(lv.take(i as int), sep@),
        decreases ls.len() - i,
    {
        assert(lv.take(i + 1).drop_last() =~= lv.take(i as int));
        assert(lv.take(i + 1).last() == ls@[i as int]@);
        let ghost before = r@;
        if i > 0 {
            let mut k: usize = 0;
            while k < sep.len()
                invariant
                    k <= sep.len(),
                    r@ == before + sep@.take(k as int),
                decreases sep.len() - k,
            {
                r.push(sep[k]);
                assert(sep@.take(k + 1) =~= sep@.take(k as int).push(sep@[k as int]));
                k = k + 1;
            }
            assert(sep@.take(sep.len() as int) =~= sep@);
        }
        let ghost mid = r@;
        let line = &ls[i];
        let mut k: usize = 0;
        while k < line.len()
            invariant
                k <= line.len(),
                r@ == mid + line@.take(k as int),
            decreases line.len() - k,
        {
            r.push(line[k]);
            assert(line@.take(k + 1) =~= line@.take(k as int).push(line@[k as int]));
            k = k + 1;
        }
        assert(line@.take(line.len() as int) =~= line@);
        if i == 0 {
            assert(lv.take(1) =~= seq![line@]);
            assert(r@ =~= line@);
        }
        i = i + 1;
    }
    assert(lv.take(ls.len() as int) =~= lv);
    r
}

/// Removes GitSama's PATH lines from a shell profile's text; `None` when the
/// profile has none.
pub fn remove_path_markers(text: &str, bin: &str) -> (r: Option<String>)
    ensures
        r is None <==> profile_without_markers(text@, bin@) is None,
        r matches Some(t) ==> profile_without_markers(text@, bin@) == Some(t@),
{
    let ls = lines_of(text);
    let ghost lv = lines(text@);
    let marker = chars_of("# GitSama PATH");
    let binv = chars_of(bin);
    let mut kept: Vec<Vec<char>> = Vec::new();
    let mut changed = false;
    let mut i: usize = 0;
    assert(lv.skip(0) =~= lv);
    while i < ls.len()
        invariant
            i <= ls.len(),
            ls@.len() == lv.len(),
            lv == lines(text@),
            marker@ == path_marker(),
            binv@ == bin@,
            forall|k: int| 0 <= k < ls@.len() ==> #[trigger] ls@[k]@ == lv[k],
            strip_markers(lv, bin@) == (
                kept@.map_values(|l: Vec<char>| l@) + strip_markers(lv.skip(i as int), bin@).0,
                changed || strip_markers(lv.skip(i as int), bin@).1,
            ),
        decreases ls.len() - i,
    {
        let ghost rest = lv.skip(i as int);
        assert(rest[0] == ls@[i as int]@);
        let ghost kv = kept@.map_values(|l: Vec<char>| l@);
        let t = trim_chars(&ls[i]);
        if chars_eq(&t, &marker) {
            changed = true;
            if i + 1 < ls.len() && chars_contains(&ls[i + 1], &binv) {
                assert(rest[1] == ls@[i + 1]@);
                assert(rest.skip(2) =~= lv.skip(i + 2));
                i = i + 2;
            } else {
                assert(rest.skip(1) =~= lv.skip(i + 1));
                i = i + 1;
            }
        } else {
            kept.push(ls[i].clone());
            assert(rest.skip(1) =~= lv.skip(i + 1));
            assert(kept@.map_values(|l: Vec<char>| l@) =~= kv.push(ls@[i as int]@));
            assert(seq![rest[0]] + strip_markers(rest.skip(1), bin@).0 =~= seq![ls@[i as int]@]
                + strip_markers(lv.skip(i + 1), bin@).0);
            assert(kv + (seq![ls@[i as int]@] + strip_markers(lv.skip(i + 1), bin@).0) =~= kv.push(
                ls@[i as int]@,
            ) + strip_markers(lv.skip(i + 1), bin@).0);
            i = i + 1;
        }
    }
    assert(strip_markers(lv.skip(i as int), bin@).0 =~= Seq::<Seq<char>>::empty());
    assert(kept@.map_values(|l: Vec<char>| l@) + Seq::<Seq<char>>::empty() =~= kept@.map_values(
        |l: Vec<char>| l@,
    ));
    if !changed {
        return None;
    }
    let nl = vec!['\n'];
    assert(nl@ =~= seq!['\n']);
    let mut out = join_chars(&kept, &nl);
    let tv = chars_of(text);
    if tv.len() > 0 && tv[tv.len() - 1] == '\n' {
        out.push('\n');
    }
    Some(string_of(&out))
}


// ---------------------------------------------------------------------------
// The PATH entry in the Windows user environment
// ---------------------------------------------------------------------------
/// The first of `ls` that contains `needle`.
pub open spec fn first_containing(ls: Seq<Seq<char>>, needle: Seq<char>) -> Option<Seq<char>>
    decreases ls.len(),
{
    if ls.len() == 0 {
        None
    } else {
        match first_containing(ls.drop_last(), needle) {
            Some(l) => Some(l),
            None => if contains(ls.last(), needle) {
                Some(ls.last())
            } else {
                None
            },
        }
    }
}

/// Where `needle` first occurs in `s`, or -1.
pub open spec fn first_occurrence(s: Seq<char>, needle: Seq<char>) -> int
    decreases s.len(),
{
    if s.len() < needle.len() {
        -1
    } else if s.len() == 0 {
        0
    } else {
        let p = first_occurrence(s.drop_last(), needle);
        if p >= 0 {
            p
        } else if occurs_at(s, needle, s.len() - needle.len()) {
            s.len() - needle.len()
        } else {
            -1
        }
    }
}

/// Where the first whitespace character of `s` is, or -1.
pub open spec fn first_ws(s: Seq<char>) -> int
    decreases s.len(),
{
    if s.len() == 0 {
        -1
    } else {
        let p = first_ws(s.drop_last());
        if p >= 0 {
            p
        } else if is_ws(s.last()) {
            s.len() - 1
        } else {
            -1
        }
    }
}

proof fn lemma_first_occurrence_bound(s: Seq<char>, needle: Seq<char>)
    ensures
        first_occurrence(s, needle) >= 0 ==> first_occurrence(s, needle) + needle.len() <= s.len(),
    decreases s.len(),
{
    if s.len() >= needle.len() && s.len() > 0 {
        lemma_first_occurrence_bound(s.drop_last(), needle);
    }
}

proof fn lemma_first_ws_bound(s: Seq<char>)
    ensures
        first_ws(s) < s.len(),
    decreases s.len(),
{
    if s.len() > 0 {
        lemma_first_ws_bound(s.drop_last());
    }
}

/// The value of the `Path` entry that `reg query HKCU\Environment /v Path`
/// printed: the text after the type word (`REG_...`) on its line, trimmed.
pub open spec fn reg_path_value(output: Seq<char>) -> Option<Seq<char>> {
    match first_containing(lines(output), "REG_"@) {
        None => None,
        Some(line) => {
            let rest = line.skip(first_occurrence(line, "REG_"@));
            let w = first_ws(rest);
            if w < 0 {
                None
            } else {
                Some(trim(rest.skip(w)))
            }
        },
    }
}

fn first_occurrence_of(s: &Vec<char>, needle: &Vec<char>) -> (r: Option<usize>)
    ensures
        r is None <==> first_occurrence(s@, needle@) < 0,
        r matches Some(p) ==> p == first_occurrence(s@, needle@),
{
    let mut p: Option<usize> = if needle.len() == 0 {
        Some(0)
    } else {
        None
    };
    let mut e: usize = 0;
    assert(s@.take(0) =~= Seq::<char>::empty());
    while e < s.len()
        invariant
            e <= s.len(),
            p is None <==> first_occurrence(s@.take(e as int), needle@) < 0,
            p matches Some(q) ==> q == first_occurrence(s@.take(e as int), needle@),
        decreases s.len() - e,
    {
        let ghost t = s@.take(e + 1);
        assert(t.drop_last() =~= s@.take(e as int));
        proof {
            lemma_first_occurrence_bound(s@.take(e as int), needle@);
        }
        if e + 1 >= needle.len() && p.is_none() {
            let start = e + 1 - needle.len();
            assert(t.subrange(start as int, start + needle.len()) =~= s@.subrange(
                start as int,
                start + needle.len(),
            ));
            if occurs_at_exec(s, needle, start) {
                p = Some(start);
            }
        }
        e = e + 1;
    }
    assert(s@.take(s.len() as int) =~= s@);
    p
}

fn occurs_at_exec(s: &Vec<char>, needle: &Vec<char>, i: usize) -> (r: bool)
    requires
        i + needle.len() <= s.len(),
    ensures
        r == occurs_at(s@, needle@, i as int),
{
    let mut k: usize = 0;
    while k < needle.len()
        invariant
            i + needle.len() <= s.len(),
            k <= needle.len(),
            forall|j: int| 0 <= j < k ==> s@[i + j] == needle@[j],
        decreases needle.len() - k,
    {
        if s[i + k] != needle[k] {
            assert(s@.subrange(i as int, i + needle.len())[k as int] != needle@[k as int]);
            return false;
        }
        k = k + 1;
    }
    assert(s@.subrange(i as int, i + needle.len()) =~= needle@);
    true
}

fn first_ws_of(s: &Vec<char>) -> (r: Option<usize>)
    ensures
        r is None <==> first_ws(s@) < 0,
        r matches Some(p) ==> p == first_ws(s@),
{
    let mut p: Option<usize> = None;
    let mut e: usize = 0;
    while e < s.len()
        invariant
            e <= s.len(),
            p is None <==> first_ws(s@.take(e as int)) < 0,
            p matches Some(q) ==> q == first_ws(s@.take(e as int)),
        decreases s.len() - e,
    {
        assert(s@.take(e + 1).drop_last() =~= s@.take(e as int));
        if p.is_none() && crate::text::char_is_ws(s[e]) {
            p = Some(e);
        }
        e = e + 1;
    }
    assert(s@.take(s.len() as int) =~= s@);
    p
}

/// Reads the user `Path` value from what `reg query` printed.
pub fn reg_path_of(output: &str) -> (r: Option<String>)
    ensures
        r is None <==> reg_path_value(output@) is None,
        r matches Some(v) ==> reg_path_value(output@) == Some(v@),
{
    let ls = lines_of(output);
    let ghost lv = lines(output@);
    let reg = chars_of("REG_");
    let mut found: Option<Vec<char>> = None;
    let mut i: usize = 0;
    while i < ls.len()
        invariant
            i <= ls.len(),
            ls@.len() == lv.len(),
            lv == lines(output@),
            reg@ == "REG_"@,
            forall|k: int| 0 <= k < ls@.len() ==> #[trigger] ls@[k]@ == lv[k],
            found is None <==> first_containing(lv.take(i as int), "REG_"@) is None,
            found matches Some(l) ==> first_containing(lv.take(i as int), "REG_"@) == Some(l@),
        decreases ls.len() - i,
    {
        assert(lv.take(i + 1).drop_last() =~= lv.take(i as int));
        assert(lv.take(i + 1).last() == ls@[i as int]@);
        if found.is_none() && chars_contains(&ls[i], &reg) {
            found = Some(ls[i].clone());
        }
        i = i + 1;
    }
    assert(lv.take(ls.len() as int) =~= lv);
    let line = match found {
        Some(l) => l,
        None => {
            return None;
        },
    };
    proof {
        lemma_first_containing_contains(lv, "REG_"@);
        lemma_first_occurrence_bound(line@, reg@);
        lemma_first_occurrence_found(line@, reg@);
    }
    let start = match first_occurrence_of(&line, &reg) {
        Some(p) => p,
        None => {
            return None;
        },
    };
    let rest = slice_chars(&line, start, line.len());
    assert(rest@ =~= line@.skip(start as int));
    let w = match first_ws_of(&rest) {
        Some(p) => p,
        None => {
            return None;
        },
    };
    proof {
        lemma_first_ws_bound(rest@);
    }
    let tail = slice_chars(&rest, w, rest.len());
    assert(tail@ =~= rest@.skip(w as int));
    let value = trim_chars(&tail);
    Some(string_of(&value))
}

/// The line that `first_containing` picks contains the needle.
proof fn lemma_first_containing_contains(ls: Seq<Seq<char>>, needle: Seq<char>)
    ensures
        first_containing(ls, needle) matches Some(l) ==> contains(l, needle),
    decreases ls.len(),
{
    if ls.len() > 0 {
        lemma_first_containing_contains(ls.drop_last(), needle);
    }
}

/// A text that contains the needle has a first occurrence.
proof fn lemma_first_occurrence_found(s: Seq<char>, needle: Seq<char>)
    requires
        contains(s, needle),
    ensures
        first_occurrence(s, needle) >= 0,
    decreases s.len(),
{
    let i = choose|i: int| occurs_at(s, needle, i);
    if s.len() > 0 && s.len() >= needle.len() {
        if i + needle.len() < s.len() {
            assert(s.drop_last().subrange(i, i + needle.len()) =~= s.subrange(i, i + needle.len()));
            assert(occurs_at(s.drop_last(), needle, i));
            lemma_first_occurrence_found(s.drop_last(), needle);
        } else {
            if first_occurrence(s.drop_last(), needle) < 0 {
                assert(i == s.len() - needle.len());
            }
        }
    }
}

/// What removing GitSama's directory from the user `Path` comes to.
#[derive(Clone, Debug)]
pub enum WindowsPathEdit {
    /// The directory is not on the path.
    Unchanged,
    /// The directory was the only entry: the value goes.
    Delete,
    /// The value without the directory.
    Replace(String),
}

/// The trimmed, non-empty entries of a `;`-separated value that are not
/// `wanted` once normalised.
pub open spec fn other_entries(parts: Seq<Seq<char>>, wanted: Seq<char>) -> Seq<Seq<char>>
    decreases parts.len(),
{
    if parts.len() == 0 {
        seq![]
    } else {
        let p = other_entries(parts.drop_last(), wanted);
        let t = trim(parts.last());
        if t.len() > 0 && normalized_windows_path(t) != wanted {
            p.push(t)
        } else {
            p
        }
    }
}

/// How many of the parts are not blank.
pub open spec fn nonblank_count(parts: Seq<Seq<char>>) -> nat
    decreases parts.len(),
{
    if parts.len() == 0 {
        0
    } else if trim(parts.last()).len() > 0 {
        nonblank_count(parts.drop_last()) + 1
    } else {
        nonblank_count(parts.drop_last())
    }
}

proof fn lemma_other_entries_len(parts: Seq<Seq<char>>, wanted: Seq<char>)
    ensures
        other_entries(parts, wanted).len() <= nonblank_count(parts),
        nonblank_count(parts) <= parts.len(),
    decreases parts.len(),
{
    if parts.len() > 0 {
        lemma_other_entries_len(parts.drop_last(), wanted);
    }
}

pub enum PathEditView {
    Unchanged,
    Delete,
    Replace(Seq<char>),
}

/// The edit that takes `bin` out of the user `Path` value.
pub open spec fn path_edit(value: Seq<char>, bin: Seq<char>) -> PathEditView {
    let parts = split_on(value, ';');
    let entries = other_entries(parts, normalized_windows_path(bin));
    if entries.len() == nonblank_count(parts) {
        PathEditView::Unchanged
    } else if entries.len() == 0 {
        PathEditView::Delete
    } else {
        PathEditView::Replace(join_lines(entries, seq![';']))
    }
}

/// Trimming keeps a character out.
proof fn lemma_trim_lacks(p: Seq<char>, c: char)
    requires
        lacks(p, c),
    ensures
        lacks(trim(p), c),
{
    crate::text::lemma_lead_ws_bound(p);
    let a = crate::text::trim_start(p);
    crate::text::lemma_trail_ws_bound(a);
    assert forall|j: int| 0 <= j < trim(p).len() implies trim(p)[j] != c by {
        assert(trim(p)[j] == a[j]);
        assert(a[j] == p[crate::text::lead_ws(p) + j]);
    }
}

/// What `other_entries` keeps: trimmed, non-blank entries without `;` that
/// are not `wanted`.
proof fn lemma_other_entries_kept(parts: Seq<Seq<char>>, wanted: Seq<char>)
    requires
        forall|i: int| 0 <= i < parts.len() ==> lacks(#[trigger] parts[i], ';'),
    ensures
        forall|i: int|
            0 <= i < other_entries(parts, wanted).len() ==> {
                let e = #[trigger] other_entries(parts, wanted)[i];
                &&& e.len() > 0
                &&& trim(e) == e
                &&& lacks(e, ';')
                &&& normalized_windows_path(e) != wanted
            },
    decreases parts.len(),
{
    if parts.len() > 0 {
        let d = parts.drop_last();
        assert forall|i: int| 0 <= i < d.len() implies lacks(#[trigger] d[i], ';') by {
            assert(d[i] == parts[i]);
        }
        lemma_other_entries_kept(d, wanted);
        let t = trim(parts.last());
        assert(lacks(parts[parts.len() - 1], ';'));
        lemma_trim_lacks(parts.last(), ';');
        if t.len() > 0 {
            crate::text::lemma_trim_twice(parts.last());
        }
        let p = other_entries(d, wanted);
        let e = other_entries(parts, wanted);
        assert forall|i: int| 0 <= i < e.len() implies {
            let x = #[trigger] e[i];
            &&& x.len() > 0
            &&& trim(x) == x
            &&& lacks(x, ';')
            &&& normalized_windows_path(x) != wanted
        } by {
            if i < p.len() {
                assert(e[i] == p[i]);
            } else {
                assert(e[i] == t);
            }
        }
    }
}

/// Entries that `other_entries` would keep are all kept, and all count.
proof fn lemma_entries_stay(e: Seq<Seq<char>>, wanted: Seq<char>)
    requires
        forall|i: int|
            0 <= i < e.len() ==> {
                let x = #[trigger] e[i];
                &&& x.len() > 0
                &&& trim(x) == x
                &&& normalized_windows_path(x) != wanted
            },
    ensures
        other_entries(e, wanted) == e,
        nonblank_count(e) == e.len(),
    decreases e.len(),
{
    if e.len() > 0 {
        let d = e.drop_last();
        assert forall|i: int| 0 <= i < d.len() implies {
            let x = #[trigger] d[i];
            &&& x.len() > 0
            &&& trim(x) == x
            &&& normalized_windows_path(x) != wanted
        } by {
            assert(d[i] == e[i]);
        }
        lemma_entries_stay(d, wanted);
        assert(e[e.len() - 1].len() > 0);
        assert(d.push(e.last()) =~= e);
    }
}

/// Joining parts without the separator and splitting again gives them back.
proof fn lemma_split_joined_by(k: Seq<Seq<char>>, c: char)
    requires
        k.len() > 0,
        forall|i: int| 0 <= i < k.len() ==> lacks(#[trigger] k[i], c),
    ensures
        split_on(join_lines(k, seq![c]), c) == k,
    decreases k.len(),
{
    if k.len() == 1 {
        crate::paths::lemma_split_on_plain(k[0], c);
        assert(seq![k[0]] =~= k);
    } else {
        let d = k.drop_last();
        assert forall|i: int| 0 <= i < d.len() implies lacks(#[trigger] d[i], c) by {
            assert(d[i] == k[i]);
        }
        lemma_split_joined_by(d, c);
        assert(lacks(k[k.len() - 1], c));
        crate::paths::lemma_split_on_plain(k.last(), c);
        assert(join_lines(k, seq![c]) =~= join_lines(d, seq![c]).push(c) + k.last());
        crate::paths::lemma_split_on_after_sep(join_lines(d, seq![c]), k.last(), c);
        assert(d + seq![k.last()] =~= k);
    }
}

/// Once GitSama's directory is taken out of the user `Path` value, taking it
/// out again changes nothing.
pub proof fn lemma_path_edit_settles(value: Seq<char>, bin: Seq<char>)
    ensures
        path_edit(value, bin) matches PathEditView::Replace(v) ==> path_edit(v, bin)
            == PathEditView::Unchanged,
{
    let parts = split_on(value, ';');
    let wanted = normalized_windows_path(bin);
    let e = other_entries(parts, wanted);
    if path_edit(value, bin) is Replace {
        let v = join_lines(e, seq![';']);
        lemma_split_parts_plain(value, ';');
        assert forall|i: int| 0 <= i < parts.len() implies lacks(#[trigger] parts[i], ';') by {
            assert forall|j: int| 0 <= j < parts[i].len() implies parts[i][j] != ';' by {
                assert(split_on(value, ';')[i][j] != ';');
            }
        }
        lemma_other_entries_kept(parts, wanted);
        assert(e.len() > 0);
        lemma_split_joined_by(e, ';');
        assert(split_on(v, ';') == e);
        lemma_entries_stay(e, wanted);
    }
}

pub fn windows_path_edit(value: &str, bin: &str) -> (r: WindowsPathEdit)
    ensures
        match path_edit(value@, bin@) {
            PathEditView::Unchanged => r is Unchanged,
            PathEditView::Delete => r is Delete,
            PathEditView::Replace(v) => r matches WindowsPathEdit::Replace(t) && t@ == v,
        },
{
    let wanted = normalize_windows_path(bin);
    let parts = split_on_chars(&chars_of(value), ';');
    let ghost pv = split_on(value@, ';');
    let ghost wv = normalized_windows_path(bin@);
    let mut entries: Vec<Vec<char>> = Vec::new();
    let mut count: usize = 0;
    let mut i: usize = 0;
    while i < parts.len()
        invariant
            i <= parts.len(),
            parts@.len() == pv.len(),
            pv == split_on(value@, ';'),
            wanted@ == wv,
            wv == normalized_windows_path(bin@),
            forall|k: int| 0 <= k < parts@.len() ==> #[trigger] parts@[k]@ == pv[k],
            entries@.map_values(|l: Vec<char>| l@) == other_entries(pv.take(i as int), wv),
            count == nonblank_count(pv.take(i as int)),
            count <= i,
        decreases parts.len() - i,
    {
        assert(pv.take(i + 1).drop_last() =~= pv.take(i as int));
        assert(pv.take(i + 1).last() == parts@[i as int]@);
        let ghost before = entries@.map_values(|l: Vec<char>| l@);
        let t = trim_chars(&parts[i]);
        if t.len() > 0 {
            count = count + 1;
            let text = string_of(&t);
            let norm = normalize_windows_path(text.as_str());
            if !(norm == wanted) {
                entries.push(t);
                assert(entries@.map_values(|l: Vec<char>| l@) =~= before.push(
                    trim(parts@[i as int]@),
                ));
            }
        }
        i = i + 1;
    }
    assert(pv.take(parts.len() as int) =~= pv);
    if entries.len() == count {
        WindowsPathEdit::Unchanged
    } else if entries.len() == 0 {
        WindowsPathEdit::Delete
    } else {
        let sep = vec![';'];
        assert(sep@ =~= seq![';']);
        let joined = join_chars(&entries, &sep);
        WindowsPathEdit::Replace(string_of(&joined))
    }
}

} // verus!
