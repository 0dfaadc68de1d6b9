//! Reading what Git reports: its version, configuration values and object ids.
//!
//! Running Git is the caller's part; these functions take what a run printed.
use vstd::prelude::*;

use crate::error::Error;
use crate::paths::{join, join_path};
use crate::platform::Platform;
use crate::text::{
    all_digits, append_str, chars_of, count_lead_digits, decimal, is_digit, is_ws, lead_digits,
    owned, parse_u64_max,
    parse_unsigned, push_decimal, slice_chars, split_once, split_once_chars, string_of, trim,
    trim_chars, trim_str, trimmed_lines, trimmed_lines_of, views, words, words_of,
};

verus! {

pub const MIN_GIT_MAJOR: u64 = 2;

pub const MIN_GIT_MINOR: u64 = 54;

#[derive(Clone, Debug, Eq, Ord, PartialEq, PartialOrd)]
pub struct GitVersion {
    pub major: u64,
    pub minor: u64,
    pub patch: u64,
    pub suffix: String,
}

/// What one run of Git reported: whether it succeeded, its exit code (if it
/// exited), the description of its exit status, and its two output streams.
#[derive(Clone, Debug)]
pub struct GitOutput {
    pub success: bool,
    pub code: Option<i32>,
    pub status: String,
    pub stdout: String,
    pub stderr: String,
}

/// The first of `ws` that starts with a decimal digit.
pub open spec fn first_numeric_word(ws: Seq<Seq<char>>) -> Option<Seq<char>>
    decreases ws.len(),
{
    if ws.len() == 0 {
        None
    } else {
        match first_numeric_word(ws.drop_last()) {
            Some(w) => Some(w),
            None => if ws.last().len() > 0 && is_digit(ws.last()[0]) {
                Some(ws.last())
            } else {
                None
            },
        }
    }
}

/// The word of Git's `--version` text that holds the version.
pub open spec fn version_word(text: Seq<char>) -> Option<Seq<char>> {
    first_numeric_word(words(text))
}

/// The part after the minor version: the third `.`-separated field and all
/// that follows it, or `0` when there is none.
pub open spec fn patch_part(word: Seq<char>) -> Seq<char> {
    match split_once(split_once(word, '.').1.unwrap(), '.').1 {
        Some(t) => t,
        None => seq!['0'],
    }
}

/// Major, minor, patch and suffix read from a version word such as
/// `2.55.1.windows.1`; `None` when the major or minor number is missing or
/// is not a `u64`. The patch number is the digits that open the third field
/// (0 when there are none or they overflow), the suffix what follows them.
pub open spec fn version_fields(word: Seq<char>) -> Option<(nat, nat, nat, Seq<char>)> {
    let (p1, r1) = split_once(word, '.');
    match (parse_unsigned(p1, u64::MAX as nat), r1) {
        (Some(major), Some(rest)) => {
            let (p2, r2) = split_once(rest, '.');
            match parse_unsigned(p2, u64::MAX as nat) {
                Some(minor) => {
                    let pp = patch_part(word);
                    let n = lead_digits(pp);
                    let patch = match parse_unsigned(pp.take(n as int), u64::MAX as nat) {
                        Some(p) => p,
                        None => 0,
                    };
                    Some((major, minor, patch, pp.skip(n as int)))
                },
                None => None,
            }
        },
        _ => None,
    }
}

/// What reading `text` gives: the fields, or the message of the `Git` error.
pub open spec fn parse_version(text: Seq<char>) -> Result<(nat, nat, nat, Seq<char>), Seq<char>> {
    match version_word(text) {
        None => Err("Git did not report a version"@),
        Some(w) => match version_fields(w) {
            Some(f) => Ok(f),
            None => Err(unparsable_message(text)),
        },
    }
}

/// `r` is what `o` describes.
pub open spec fn version_result(
    r: Result<GitVersion, Error>,
    o: Result<(nat, nat, nat, Seq<char>), Seq<char>>,
) -> bool {
    match (r, o) {
        (Ok(v), Ok(f)) => version_matches(v, f),
        (Err(Error::Git(m)), Err(msg)) => m@ == msg,
        _ => false,
    }
}

pub open spec fn version_matches(v: GitVersion, f: (nat, nat, nat, Seq<char>)) -> bool {
    v.major == f.0 && v.minor == f.1 && v.patch == f.2 && v.suffix@ == f.3
}

/// `major.minor.patch` followed by the suffix.
pub open spec fn short_text(v: GitVersion) -> Seq<char> {
    decimal(v.major as nat) + "."@ + decimal(v.minor as nat) + "."@ + decimal(v.patch as nat)
        + v.suffix@
}

pub open spec fn supported(v: GitVersion) -> bool {
    v.major > MIN_GIT_MAJOR || (v.major == MIN_GIT_MAJOR && v.minor >= MIN_GIT_MINOR)
}

pub open spec fn unparsable_message(text: Seq<char>) -> Seq<char> {
    "could not parse Git version from '"@ + text + "'"@
}

fn find_numeric_word(ws: &Vec<Vec<char>>) -> (r: Option<Vec<char>>)
    ensures
        r is None <==> first_numeric_word(ws@.map_values(|w: Vec<char>| w@)) is None,
        r matches Some(w) ==> first_numeric_word(ws@.map_values(|w: Vec<char>| w@)) == Some(w@),
{
    let ghost wv = ws@.map_values(|w: Vec<char>| w@);
    let mut i: usize = 0;
    while i < ws.len()
        invariant
            i <= ws.len(),
            wv == ws@.map_values(|w: Vec<char>| w@),
            first_numeric_word(wv.take(i as int)) is None,
        decreases ws.len() - i,
    {
        assert(wv.take(i + 1).drop_last() =~= wv.take(i as int));
        assert(wv.take(i + 1).last() == ws@[i as int]@);
        if ws[i].len() > 0 && crate::text::char_is_digit(ws[i][0]) {
            let w = ws[i].clone();
            proof {
                lemma_first_numeric_word_prefix(wv, i as int + 1);
            }
            return Some(w);
        }
        i = i + 1;
    }
    assert(wv.take(ws.len() as int) =~= wv);
    None
}

/// A word found in a prefix of `ws` is the first numeric word of all of `ws`.
proof fn lemma_first_numeric_word_prefix(ws: Seq<Seq<char>>, i: int)
    requires
        0 <= i <= ws.len(),
        first_numeric_word(ws.take(i)) is Some,
    ensures
        first_numeric_word(ws) == first_numeric_word(ws.take(i)),
    decreases ws.len() - i,
{
    if i < ws.len() {
        assert(ws.take(i + 1).drop_last() =~= ws.take(i));
        lemma_first_numeric_word_prefix(ws, i + 1);
    } else {
        assert(ws.take(i) =~= ws);
    }
}

impl GitVersion {
    /// Reads the version from what `git --version` printed.
    pub fn parse(text: &str) -> (r: Result<GitVersion, Error>)
        ensures
            version_result(r, parse_version(text@)),
    {
        let ws = words_of(text);
        let ghost wv = ws@.map_values(|w: Vec<char>| w@);
        assert(wv =~= words(text@));
        let word = match find_numeric_word(&ws) {
            Some(w) => w,
            None => {
                return Err(Error::Git(owned("Git did not report a version")));
            },
        };
        let (p1, r1) = split_once_chars(&word, '.');
        let major = match parse_u64_max(&p1, u64::MAX) {
            Some(v) => v,
            None => {
                return Err(GitVersion::unparsable(text));
            },
        };
        let rest = match r1 {
            Some(t) => t,
            None => {
                return Err(GitVersion::unparsable(text));
            },
        };
        let (p2, r2) = split_once_chars(&rest, '.');
        let minor = match parse_u64_max(&p2, u64::MAX) {
            Some(v) => v,
            None => {
                return Err(GitVersion::unparsable(text));
            },
        };
        let pp = match r2 {
            Some(t) => t,
            None => vec!['0'],
        };
        assert(pp@ == patch_part(word@));
        let n = count_lead_digits(&pp);
        proof {
            crate::text::lemma_lead_digits_bound(pp@);
        }
        let digits = slice_chars(&pp, 0, n);
        assert(digits@ =~= pp@.take(n as int));
        let patch = match parse_u64_max(&digits, u64::MAX) {
            Some(p) => p,
            None => 0,
        };
        let suffix_chars = slice_chars(&pp, n, pp.len());
        assert(suffix_chars@ =~= pp@.skip(n as int));
        let suffix = string_of(&suffix_chars);
        Ok(GitVersion { major, minor, patch, suffix })
    }

    fn unparsable(text: &str) -> (e: Error)
        ensures
            e matches Error::Git(m) && m@ == unparsable_message(text@),
    {
        let mut m = owned("could not parse Git version from '");
        append_str(&mut m, text);
        append_str(&mut m, "'");
        Error::Git(m)
    }

    /// Whether this Git has the named-hook system (2.54 or newer).
    pub fn is_supported(&self) -> (r: bool)
        ensures
            r == supported(*self),
    {
        self.major > MIN_GIT_MAJOR || (self.major == MIN_GIT_MAJOR && self.minor >= MIN_GIT_MINOR)
    }

    pub fn short(&self) -> (s: String)
        ensures
            s@ == short_text(*self),
    {
        let mut s = String::new();
        push_decimal(&mut s, self.major as u128);
        append_str(&mut s, ".");
        push_decimal(&mut s, self.minor as u128);
        append_str(&mut s, ".");
        push_decimal(&mut s, self.patch as u128);
        append_str(&mut s, self.suffix.as_str());
        s
    }
}

// ---------------------------------------------------------------------------
// Reading back what `short` writes
// ---------------------------------------------------------------------------
proof fn lemma_split_once_absent(a: Seq<char>, c: char)
    requires
        forall|i: int| 0 <= i < a.len() ==> a[i] != c,
    ensures
        split_once(a, c) == (a, Option::<Seq<char>>::None),
    decreases a.len(),
{
    if a.len() > 0 {
        lemma_split_once_absent(a.drop_last(), c);
        assert(a.drop_last().push(a.last()) =~= a);
    }
}

proof fn lemma_split_once_at(a: Seq<char>, b: Seq<char>, c: char)
    requires
        forall|i: int| 0 <= i < a.len() ==> a[i] != c,
    ensures
        split_once(a.push(c) + b, c) == (a, Some(b)),
    decreases b.len(),
{
    let s = a.push(c) + b;
    if b.len() == 0 {
        assert(s =~= a.push(c));
        assert(s.drop_last() =~= a);
        lemma_split_once_absent(a, c);
        assert(b =~= Seq::<char>::empty());
    } else {
        assert(s.drop_last() =~= a.push(c) + b.drop_last());
        lemma_split_once_at(a, b.drop_last(), c);
        assert(b.drop_last().push(b.last()) =~= b);
    }
}

proof fn lemma_words_single(s: Seq<char>)
    requires
        s.len() > 0,
        forall|i: int| 0 <= i < s.len() ==> !is_ws(s[i]),
    ensures
        words(s) == seq![s],
    decreases s.len(),
{
    assert(!is_ws(s[s.len() - 1]));
    if s.len() == 1 {
        assert(s.drop_last() =~= Seq::<char>::empty());
        assert(words(Seq::<char>::empty()) =~= Seq::<Seq<char>>::empty());
        assert(seq![s.last()] =~= s);
        assert(Seq::<Seq<char>>::empty().push(seq![s.last()]) =~= seq![s]);
    } else {
        assert(!is_ws(s[s.len() - 2]));
        lemma_words_single(s.drop_last());
        assert(s[s.len() - 2] == s.drop_last()[s.len() - 2]);
        assert(s.drop_last().push(s.last()) =~= s);
        assert(seq![s.drop_last()].update(0, s.drop_last().push(s.last())) =~= seq![s]);
    }
}

proof fn lemma_lead_digits_of_numeral(d: Seq<char>, rest: Seq<char>)
    requires
        all_digits(d),
        rest.len() == 0 || !is_digit(rest[0]),
    ensures
        lead_digits(d + rest) == d.len(),
{
    let s = d + rest;
    crate::text::lemma_lead_digits_bound(s);
    let l = lead_digits(s);
    if l < d.len() {
        assert(s[l as int] == d[l as int]);
        assert(is_digit(d[l as int]));
    }
    if l > d.len() {
        assert(s[d.len() as int] == rest[0]);
    }
}

/// What `short` writes reads back as the same version, when the suffix has
/// no whitespace and does not start with a digit (a suffix that does would
/// run into the patch number).
pub proof fn lemma_short_reads_back(v: GitVersion)
    requires
        forall|i: int| 0 <= i < v.suffix@.len() ==> !is_ws(#[trigger] v.suffix@[i]),
        v.suffix@.len() == 0 || !is_digit(v.suffix@[0]),
    ensures
        parse_version(short_text(v)) == Ok::<(nat, nat, nat, Seq<char>), Seq<char>>(
            (v.major as nat, v.minor as nat, v.patch as nat, v.suffix@),
        ),
{
    let dm = decimal(v.major as nat);
    let dn = decimal(v.minor as nat);
    let dp = decimal(v.patch as nat);
    let suf = v.suffix@;
    crate::text::lemma_decimal_digits(v.major as nat);
    crate::text::lemma_decimal_digits(v.minor as nat);
    crate::text::lemma_decimal_digits(v.patch as nat);
    crate::text::lemma_parse_decimal(v.major as nat, u64::MAX as nat);
    crate::text::lemma_parse_decimal(v.minor as nat, u64::MAX as nat);
    crate::text::lemma_parse_decimal(v.patch as nat, u64::MAX as nat);
    reveal_strlit(".");
    let t = short_text(v);
    let rest1 = dn.push('.') + (dp + suf);
    let pp = dp + suf;
    assert(t =~= dm.push('.') + rest1);
    assert forall|i: int| 0 <= i < dm.len() implies dm[i] != '.' by {
        assert(is_digit(dm[i]));
    }
    assert forall|i: int| 0 <= i < dn.len() implies dn[i] != '.' by {
        assert(is_digit(dn[i]));
    }
    lemma_split_once_at(dm, rest1, '.');
    lemma_split_once_at(dn, pp, '.');
    assert forall|i: int| 0 <= i < t.len() implies !is_ws(t[i]) by {
        if i < dm.len() {
            assert(t[i] == dm[i]);
            assert(is_digit(dm[i]));
        } else if i == dm.len() {
            assert(t[i] == '.');
        } else if i < dm.len() + 1 + dn.len() {
            assert(t[i] == dn[i - dm.len() - 1]);
            assert(is_digit(dn[i - dm.len() - 1]));
        } else if i == dm.len() + 1 + dn.len() {
            assert(t[i] == '.');
        } else if i < dm.len() + 2 + dn.len() + dp.len() {
            assert(t[i] == dp[i - dm.len() - 2 - dn.len()]);
            assert(is_digit(dp[i - dm.len() - 2 - dn.len()]));
        } else {
            assert(t[i] == suf[i - dm.len() - 2 - dn.len() - dp.len()]);
        }
    }
    lemma_words_single(t);
    assert(t[0] == dm[0]);
    assert(is_digit(dm[0]));
    assert(seq![t].drop_last() =~= Seq::<Seq<char>>::empty());
    assert(first_numeric_word(Seq::<Seq<char>>::empty()) == None::<Seq<char>>);
    assert(first_numeric_word(seq![t]) == Some(t));
    assert(version_word(t) == Some(t));
    assert(patch_part(t) == pp);
    lemma_lead_digits_of_numeral(dp, suf);
    assert(pp.take(dp.len() as int) =~= dp);
    assert(pp.skip(dp.len() as int) =~= suf);
}

proof fn lemma_words_plain(s: Seq<char>)
    ensures
        forall|i: int, j: int|
            0 <= i < words(s).len() && 0 <= j < words(s)[i].len() ==> !is_ws(
                #[trigger] words(s)[i][j],
            ),
    decreases s.len(),
{
    if s.len() > 0 {
        lemma_words_plain(s.drop_last());
        let prev = words(s.drop_last());
        let c = s.last();
        let w = words(s);
        if !is_ws(c) {
            if s.len() >= 2 && !is_ws(s[s.len() - 2]) {
                crate::text::lemma_words_nonempty_when_in_word(s.drop_last());
                assert forall|i: int, j: int| 0 <= i < w.len() && 0 <= j < w[i].len() implies !is_ws(
                    #[trigger] w[i][j],
                ) by {
                    if i == prev.len() - 1 {
                        if j < prev.last().len() {
                            assert(w[i][j] == prev.last()[j]);
                        }
                    } else {
                        assert(w[i] == prev[i]);
                    }
                }
            } else {
                assert forall|i: int, j: int| 0 <= i < w.len() && 0 <= j < w[i].len() implies !is_ws(
                    #[trigger] w[i][j],
                ) by {
                    if i < prev.len() {
                        assert(w[i] == prev[i]);
                    }
                }
            }
        }
    }
}

proof fn lemma_first_numeric_word_plain(ws: Seq<Seq<char>>)
    requires
        forall|i: int, j: int| 0 <= i < ws.len() && 0 <= j < ws[i].len() ==> !is_ws(#[trigger] ws[i][j]),
    ensures
        first_numeric_word(ws) matches Some(w) ==> forall|j: int| 0 <= j < w.len() ==> !is_ws(
            #[trigger] w[j],
        ),
    decreases ws.len(),
{
    if ws.len() > 0 {
        let d = ws.drop_last();
        assert forall|i: int, j: int| 0 <= i < d.len() && 0 <= j < d[i].len() implies !is_ws(
            #[trigger] d[i][j],
        ) by {
            assert(d[i] == ws[i]);
        }
        lemma_first_numeric_word_plain(d);
        if first_numeric_word(d) is None {
            assert forall|j: int| 0 <= j < ws.last().len() implies !is_ws(#[trigger] ws.last()[j]) by {
                assert(ws.last() == ws[ws.len() - 1]);
            }
        }
    }
}

proof fn lemma_split_once_shape(s: Seq<char>, c: char)
    ensures
        split_once(s, c).1 matches Some(t) ==> s == split_once(s, c).0.push(c) + t,
        split_once(s, c).1 is None ==> split_once(s, c).0 == s,
    decreases s.len(),
{
    if s.len() > 0 {
        lemma_split_once_shape(s.drop_last(), c);
        let (h, r) = split_once(s.drop_last(), c);
        match r {
            Some(t) => {
                assert(s.drop_last() == h.push(c) + t);
                assert(s =~= s.drop_last().push(s.last()));
                assert((h.push(c) + t).push(s.last()) =~= h.push(c) + t.push(s.last()));
            },
            None => {
                if s.last() == c {
                    assert(s =~= h.push(c) + Seq::<char>::empty());
                } else {
                    assert(s =~= h.push(s.last()));
                }
            },
        }
    }
}

/// Every version that `parse` reads is written back by `short` as text that
/// reads as the same version: the suffix it keeps has no whitespace and does
/// not start with a digit.
pub proof fn lemma_parsed_version_reads_back(text: Seq<char>, v: GitVersion)
    requires
        parse_version(text) is Ok,
        version_matches(v, parse_version(text)->Ok_0),
    ensures
        parse_version(short_text(v)) == parse_version(text),
{
    let w = version_word(text)->Some_0;
    lemma_words_plain(text);
    lemma_first_numeric_word_plain(words(text));
    lemma_split_once_shape(w, '.');
    let rest = split_once(w, '.').1->Some_0;
    lemma_split_once_shape(rest, '.');
    let pp = patch_part(w);
    assert forall|j: int| 0 <= j < pp.len() implies !is_ws(#[trigger] pp[j]) by {
        match split_once(rest, '.').1 {
            Some(t) => {
                let h1 = split_once(w, '.').0;
                let h2 = split_once(rest, '.').0;
                assert(pp == t);
                assert(w[h1.len() + 1 + h2.len() + 1 + j] == t[j]);
            },
            None => {
                assert(pp == seq!['0']);
            },
        }
    }
    let n = lead_digits(pp);
    crate::text::lemma_lead_digits_bound(pp);
    let suffix = pp.skip(n as int);
    assert(v.suffix@ == suffix);
    assert forall|i: int| 0 <= i < suffix.len() implies !is_ws(#[trigger] suffix[i]) by {
        assert(suffix[i] == pp[n + i]);
    }
    if suffix.len() > 0 {
        assert(suffix[0] == pp[n as int]);
    }
    lemma_short_reads_back(v);
}

/// The version that a run of `git --version` reports.
pub fn version(output: &GitOutput) -> (r: Result<GitVersion, Error>)
    ensures
        !output.success ==> (r matches Err(Error::Git(m)) && m@ == trim(output.stderr@)),
        output.success ==> version_result(r, parse_version(output.stdout@)),
{
    if !output.success {
        return Err(Error::Git(trim_str(output.stderr.as_str())));
    }
    GitVersion::parse(output.stdout.as_str())
}

/// The version that a run of `git --version` reports, when it is supported.
pub fn require_supported(output: &GitOutput) -> (r: Result<GitVersion, Error>)
    ensures
        !output.success ==> (r matches Err(Error::Git(m)) && m@ == trim(output.stderr@)),
        output.success && parse_version(output.stdout@) is Err ==> version_result(
            r,
            parse_version(output.stdout@),
        ),
        output.success && parse_version(output.stdout@) is Ok ==> ({
            let f = parse_version(output.stdout@)->Ok_0;
            let ok = f.0 > MIN_GIT_MAJOR || (f.0 == MIN_GIT_MAJOR && f.1 >= MIN_GIT_MINOR);
            &&& ok ==> (r matches Ok(v) && version_matches(v, f))
            &&& !ok ==> (r matches Err(Error::UnsupportedGit(s)) && s@ == decimal(f.0) + "."@
                + decimal(f.1) + "."@ + decimal(f.2) + f.3)
        }),
{
    let v = version(output)?;
    if v.is_supported() {
        Ok(v)
    } else {
        Err(Error::UnsupportedGit(v.short()))
    }
}

/// The message for a failed run that printed nothing on its error stream.
pub open spec fn exit_message(output: GitOutput) -> Seq<char> {
    if trim(output.stderr@).len() == 0 {
        "Git exited with "@ + output.status@
    } else {
        trim(output.stderr@)
    }
}

/// What a run printed, when it succeeded.
pub fn checked(output: &GitOutput) -> (r: Result<String, Error>)
    ensures
        output.success ==> (r matches Ok(s) && s@ == output.stdout@),
        !output.success ==> (r matches Err(Error::Git(m)) && m@ == exit_message(*output)),
{
    if output.success {
        Ok(output.stdout.clone())
    } else {
        let detail = trim_chars(&chars_of(output.stderr.as_str()));
        if detail.len() == 0 {
            let mut m = owned("Git exited with ");
            append_str(&mut m, output.status.as_str());
            Err(Error::Git(m))
        } else {
            Err(Error::Git(string_of(&detail)))
        }
    }
}

/// The repository's top directory, from `git rev-parse --show-toplevel`.
pub fn repository_root(output: &GitOutput) -> (r: Result<String, Error>)
    ensures
        output.success ==> (r matches Ok(s) && s@ == trim(output.stdout@)),
        !output.success ==> (r matches Err(Error::Git(m)) && m@ == exit_message(*output)),
{
    let text = checked(output)?;
    Ok(trim_str(text.as_str()))
}

/// The repository's Git directory, from `git rev-parse --git-dir`: a
/// relative answer is taken from the working directory `cwd`, by the path
/// rules of `platform`.
pub fn git_dir(output: &GitOutput, cwd: &str, platform: Platform) -> (r: Result<String, Error>)
    ensures
        output.success ==> (r matches Ok(s) && s@ == join_path(
            cwd@,
            trim(output.stdout@),
            platform,
        )),
        !output.success ==> (r matches Err(Error::Git(m)) && m@ == exit_message(*output)),
{
    let text = checked(output)?;
    let value = trim_str(text.as_str());
    Ok(join(cwd, value.as_str(), platform))
}

/// The checked-out branch, from `git symbolic-ref --quiet --short HEAD`.
pub fn current_branch(output: &GitOutput) -> (r: Result<String, Error>)
    ensures
        output.success ==> (r matches Ok(s) && s@ == trim(output.stdout@)),
        !output.success ==> (r matches Err(Error::Git(m)) && m@ == exit_message(*output)),
{
    let text = checked(output)?;
    Ok(trim_str(text.as_str()))
}

/// One configuration value, from `git config <scope> --get <key>`.
pub fn config_value(output: &GitOutput) -> (r: Option<String>)
    ensures
        output.success ==> (r matches Some(s) && s@ == trim(output.stdout@)),
        !output.success ==> r is None,
{
    if output.success {
        Some(trim_str(output.stdout.as_str()))
    } else {
        None
    }
}

/// All values of a key, from `git config <scope> --get-all <key>`: the
/// non-blank lines, trimmed.
pub fn config_values(output: &GitOutput) -> (r: Vec<String>)
    ensures
        output.success ==> views(r@) == trimmed_lines(output.stdout@),
        !output.success ==> r@.len() == 0,
{
    if output.success {
        trimmed_lines_of(output.stdout.as_str())
    } else {
        Vec::new()
    }
}

/// An object id made of zeros only: Git's mark for a ref that does not exist.
pub open spec fn zero_oid(s: Seq<char>) -> bool {
    s.len() > 0 && forall|i: int| 0 <= i < s.len() ==> #[trigger] s[i] == '0'
}

pub fn is_zero_oid(value: &str) -> (r: bool)
    ensures
        r == zero_oid(value@),
{
    let v = chars_of(value);
    if v.len() == 0 {
        return false;
    }
    let mut i: usize = 0;
    while i < v.len()
        invariant
            i <= v.len(),
            v@ == value@,
            forall|j: int| 0 <= j < i ==> v@[j] == '0',
        decreases v.len() - i,
    {
        if v[i] != '0' {
            return false;
        }
        i = i + 1;
    }
    true
}

} // verus!
