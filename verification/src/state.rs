//! Short-lived branch state shared by hook processes: a pending branch
//! creation, and a marker that a creation was just announced.
//!
//! Reading and writing the files is the caller's part; this module names them
//! and decides what their contents mean.
use vstd::prelude::*;
use vstd::utf8::encode_utf8;

use crate::paths::{components, join, join_path, lemma_join_plain_name, AppPaths};
use crate::platform::Platform;
use crate::text::{append_str, hex16, hex_digit, hex_fixed, owned, push_char};

verus! {

/// A branch whose creation was seen and not yet announced.
#[derive(Clone, Debug)]
pub struct PendingBranch {
    pub repository: String,
    pub branch: String,
    pub object_id: String,
    pub created_at_ms: u128,
}

/// A branch whose creation was announced, so that the checkout that follows
/// stays quiet until `expires_at_ms`.
#[derive(Clone, Debug)]
pub struct RecentBranch {
    pub branch: String,
    pub expires_at_ms: u128,
}

pub const FNV_OFFSET: u64 = 0xcbf29ce484222325;

pub const FNV_PRIME: u64 = 0x100000001b3;

/// The 64-bit FNV-1a hash of `bytes`.
pub open spec fn fnv1a(bytes: Seq<u8>) -> u64
    decreases bytes.len(),
{
    if bytes.len() == 0 {
        FNV_OFFSET
    } else {
        let h = fnv1a(bytes.drop_last()) ^ (bytes.last() as u64);
        ((h as nat * FNV_PRIME as nat) % 0x1_0000_0000_0000_0000) as u64
    }
}

/// The sixteen lowercase hex digits of the FNV-1a hash of the UTF-8 text.
pub open spec fn key_of(value: Seq<char>) -> Seq<char> {
    hex_fixed(fnv1a(encode_utf8(value)) as nat, 16)
}

/// A file-name-safe key that is the same in every process and on every run.
pub fn stable_key(value: &str) -> (r: String)
    ensures
        r@ == key_of(value@),
{
    let bytes = value.as_bytes();
    let mut hash: u64 = FNV_OFFSET;
    let mut i: usize = 0;
    while i < bytes.len()
        invariant
            i <= bytes@.len(),
            bytes@ == encode_utf8(value@),
            hash == fnv1a(bytes@.take(i as int)),
        decreases bytes.len() - i,
    {
        assert(bytes@.take(i + 1).drop_last() =~= bytes@.take(i as int));
        hash = hash ^ (bytes[i] as u64);
        hash = hash.wrapping_mul(FNV_PRIME);
        i = i + 1;
    }
    assert(bytes@.take(bytes@.len() as int) =~= bytes@);
    hex16(hash)
}

/// The text that keys one branch of one repository.
pub open spec fn branch_key(repository: Seq<char>, branch: Seq<char>) -> Seq<char> {
    key_of(repository.push('\0') + branch)
}

fn branch_key_of(repository: &str, branch: &str) -> (r: String)
    ensures
        r@ == branch_key(repository@, branch@),
{
    let mut text = owned(repository);
    push_char(&mut text, '\0');
    append_str(&mut text, branch);
    stable_key(text.as_str())
}

/// `<dir>/<prefix><key>.json`, joined by the rules of `platform`.
pub open spec fn state_file(
    dir: Seq<char>,
    prefix: Seq<char>,
    key: Seq<char>,
    platform: Platform,
) -> Seq<char> {
    join_path(dir, prefix + key + ".json"@, platform)
}

/// Where the pending creation of `branch` in `repository` is kept.
pub fn pending_path(paths: &AppPaths, repository: &str, branch: &str) -> (r: String)
    ensures
        r@ == state_file(
            paths.state@,
            "pending-"@,
            branch_key(repository@, branch@),
            paths.platform,
        ),
{
    let mut name = owned("pending-");
    append_str(&mut name, branch_key_of(repository, branch).as_str());
    append_str(&mut name, ".json");
    join(paths.state.as_str(), name.as_str(), paths.platform)
}

/// Where the marker of a just-announced `branch` in `repository` is kept.
pub fn recent_path(paths: &AppPaths, repository: &str, branch: &str) -> (r: String)
    ensures
        r@ == state_file(
            paths.state@,
            "recent-"@,
            branch_key(repository@, branch@),
            paths.platform,
        ),
{
    let mut name = owned("recent-");
    append_str(&mut name, branch_key_of(repository, branch).as_str());
    append_str(&mut name, ".json");
    join(paths.state.as_str(), name.as_str(), paths.platform)
}

/// Every character of a fixed-width hex numeral is a digit or `a`..`f`.
proof fn lemma_hex_chars(n: nat, width: nat)
    ensures
        forall|i: int|
            0 <= i < hex_fixed(n, width).len() ==> {
                let c = #[trigger] hex_fixed(n, width)[i];
                ('0' <= c && c <= '9') || ('a' <= c && c <= 'f')
            },
        hex_fixed(n, width).len() == width,
    decreases width,
{
    if width > 0 {
        lemma_hex_chars(n / 16, (width - 1) as nat);
        let d = n % 16;
        assert((hex_digit(d) as u32) == if d < 10 {
            d + 48
        } else {
            d + 87
        });
        let h = hex_fixed(n, width);
        assert forall|i: int| 0 <= i < h.len() implies {
            let c = #[trigger] h[i];
            ('0' <= c && c <= '9') || ('a' <= c && c <= 'f')
        } by {
            if i < h.len() - 1 {
                assert(h[i] == hex_fixed(n / 16, (width - 1) as nat)[i]);
            }
        }
    }
}

/// On a POSIX system both state files of a branch lie directly in the state
/// directory: their names are plain file names, whatever the repository and
/// branch are.
pub proof fn lemma_state_files_in_state_dir(state: Seq<char>, repository: Seq<char>, branch: Seq<char>)
    ensures
        components(state_file(state, "pending-"@, branch_key(repository, branch), Platform::Unix))
            == components(
            state,
        ).push("pending-"@ + branch_key(repository, branch) + ".json"@),
        components(state_file(state, "recent-"@, branch_key(repository, branch), Platform::Unix))
            == components(
            state,
        ).push("recent-"@ + branch_key(repository, branch) + ".json"@),
{
    reveal_strlit("pending-");
    reveal_strlit("recent-");
    reveal_strlit(".json");
    let key = branch_key(repository, branch);
    lemma_hex_chars(fnv1a(encode_utf8(repository.push('\0') + branch)) as nat, 16);
    assert forall|i: int| 0 <= i < key.len() implies key[i] != '/' by {
        let c = key[i];
        assert(('0' <= c && c <= '9') || ('a' <= c && c <= 'f'));
    }
    let p = "pending-"@ + key + ".json"@;
    let r = "recent-"@ + key + ".json"@;
    assert forall|i: int| 0 <= i < p.len() implies p[i] != '/' by {
        if 8 <= i < 8 + key.len() {
            assert(p[i] == key[i - 8]);
        }
    }
    assert forall|i: int| 0 <= i < r.len() implies r[i] != '/' by {
        if 7 <= i < 7 + key.len() {
            assert(r[i] == key[i - 7]);
        }
    }
    assert(p != seq!['.']) by {
        assert(p.len() > 1);
    }
    assert(r != seq!['.']) by {
        assert(r.len() > 1);
    }
    lemma_join_plain_name(state, p);
    lemma_join_plain_name(state, r);
}

/// More than `max_age_ms` passed between `created_at_ms` and `now_ms`
/// (a creation time in the future counts as no time passed).
pub open spec fn is_expired(created_at_ms: u128, max_age_ms: u64, now_ms: u128) -> bool {
    now_ms > created_at_ms && now_ms - created_at_ms > max_age_ms
}

pub fn expired(created_at_ms: u128, max_age_ms: u64, now_ms: u128) -> (r: bool)
    ensures
        r == is_expired(created_at_ms, max_age_ms, now_ms),
{
    now_ms.saturating_sub(created_at_ms) > max_age_ms as u128
}

/// What a claimed pending file yields: the pending branch while it is fresh.
pub fn fresh_pending(pending: PendingBranch, max_age_ms: u64, now_ms: u128) -> (r: Option<
    PendingBranch,
>)
    ensures
        is_expired(pending.created_at_ms, max_age_ms, now_ms) ==> r is None,
        !is_expired(pending.created_at_ms, max_age_ms, now_ms) ==> r == Some(pending),
{
    if expired(pending.created_at_ms, max_age_ms, now_ms) {
        None
    } else {
        Some(pending)
    }
}

/// A claimed marker silences the checkout of `branch` when it names that
/// branch and has not expired.
pub fn recent_applies(recent: &RecentBranch, branch: &str, now_ms: u128) -> (r: bool)
    ensures
        r == (recent.branch@ == branch@ && recent.expires_at_ms >= now_ms),
{
    crate::text::str_eq(recent.branch.as_str(), branch) && recent.expires_at_ms >= now_ms
}

/// The marker written when `branch` is announced at `now_ms`.
pub fn mark_recent(branch: &str, now_ms: u128, age_ms: u64) -> (r: RecentBranch)
    requires
        now_ms + age_ms <= u128::MAX,
    ensures
        r.branch@ == branch@,
        r.expires_at_ms == now_ms + age_ms,
{
    RecentBranch { branch: owned(branch), expires_at_ms: now_ms + age_ms as u128 }
}

} // verus!
