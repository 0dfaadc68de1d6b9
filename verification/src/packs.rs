//! Sound packs: the manifest's rules, where packs live, which file plays for
//! an event, and the packs that GitSama writes itself.
//!
//! Reading directories and manifests is the caller's part; the manifest that
//! reaches these functions has already been read from `pack.toml`.
use vstd::prelude::*;

use crate::error::Error;
use crate::events::{event_name, parse_event, unknown_event_message, EventKind};
use crate::platform::Platform;
use crate::paths::{
    char_win_sep, components, components_of, first_sep_of, join, join_path, lemma_join_plain_name,
    path_starts_with, win_disk, win_sep, win_unc, win_verbatim, AppPaths,
};
use crate::text::{
    append_str, char_is_alnum, char_lower, chars_eq, chars_of, decimal, is_alnum, is_digit,
    is_lower, lower, lower_char, lower_chars, owned, push_char, push_decimal, replace_char,
    replace_chars, str_eq, string_of, trim, trim_char, trim_char_chars, trim_chars, views,
};

verus! {

pub const PACK_SCHEMA_VERSION: u32 = 1;

pub const STARTER_ID: &'static str = "starter";

/// The pack that a new configuration selects: the bundled Naruto Voice Pack.
pub const DEFAULT_PACK_ID: &'static str = "naruto";

/// The contents of a pack's `pack.toml`. `events` maps each event name, in
/// ascending order and without repeats, to the audio paths listed for it.
#[derive(Clone, Debug)]
pub struct PackManifest {
    pub schema_version: u32,
    pub id: String,
    pub name: String,
    pub author: String,
    pub version: String,
    pub description: String,
    pub license: String,
    pub events: Vec<(String, Vec<String>)>,
}

pub type EventsView = Seq<(Seq<char>, Seq<Seq<char>>)>;

pub open spec fn events_view(events: Seq<(String, Vec<String>)>) -> EventsView {
    events.map_values(|e: (String, Vec<String>)| (e.0@, views(e.1@)))
}

/// The paths listed for the event named `name`, if it is listed.
pub open spec fn listed_files(events: EventsView, name: Seq<char>) -> Option<Seq<Seq<char>>>
    decreases events.len(),
{
    if events.len() == 0 {
        None
    } else {
        match listed_files(events.drop_last(), name) {
            Some(f) => Some(f),
            None => if events.last().0 == name {
                Some(events.last().1)
            } else {
                None
            },
        }
    }
}

/// A loaded pack: its canonical root directory and its manifest.
#[derive(Clone, Debug)]
pub struct Pack {
    pub root: String,
    pub manifest: PackManifest,
}

/// What the pack listing shows of a pack.
#[derive(Clone, Debug)]
pub struct PackSummary {
    pub id: String,
    pub name: String,
    pub author: String,
    pub version: String,
    pub root: String,
    pub valid: bool,
}

/// The files that play for `event`: the listed paths under the pack root,
/// joined by the rules of `platform`.
pub open spec fn event_paths(
    root: Seq<char>,
    events: EventsView,
    event: EventKind,
    platform: Platform,
) -> Seq<Seq<char>> {
    match listed_files(events, event_name(event)) {
        Some(files) => files.map_values(|f: Seq<char>| join_path(root, f, platform)),
        None => seq![],
    }
}

/// The event that actually plays for `event` and the files it may play: a
/// massive push with no files falls back to the push files.
pub open spec fn playable(
    root: Seq<char>,
    events: EventsView,
    event: EventKind,
    platform: Platform,
) -> (EventKind, Seq<Seq<char>>) {
    let own = event_paths(root, events, event, platform);
    if own.len() == 0 && event == EventKind::MassivePush {
        (EventKind::Push, event_paths(root, events, EventKind::Push, platform))
    } else {
        (event, own)
    }
}

/// The event that plays keeps its own files whenever it has any: a massive
/// push plays its own sound when it lists one, and falls back to the push
/// files only when it lists none; no other event falls back.
pub proof fn lemma_own_files_first(
    root: Seq<char>,
    events: EventsView,
    event: EventKind,
    platform: Platform,
)
    ensures
        ({
            let own = event_paths(root, events, event, platform);
            let (played, files) = playable(root, events, event, platform);
            &&& own.len() > 0 ==> played == event && files == own
            &&& own.len() == 0 && event == EventKind::MassivePush ==> played == EventKind::Push
                && files == event_paths(root, events, EventKind::Push, platform)
            &&& own.len() == 0 && event != EventKind::MassivePush ==> played == event
                && files.len() == 0
            &&& files.len() > 0 && played == event ==> files == own
        }),
{
}

/// A number in `0..len` from `rand::random_range`, drawn with the
/// thread-local generator. The contract claims only that it lies in the
/// range; which number comes is left open. `random_range` panics on an empty
/// range, which `requires` rules out.
#[verifier::external_body]
fn random_index(len: usize) -> (i: usize)
    requires
        len > 0,
    ensures
        i < len,
{
    rand::random_range(0..len)
}

fn lookup_files(events: &Vec<(String, Vec<String>)>, name: &str) -> (r: Option<Vec<String>>)
    ensures
        r is None <==> listed_files(events_view(events@), name@) is None,
        r matches Some(f) ==> listed_files(events_view(events@), name@) == Some(views(f@)),
{
    let ghost ev = events_view(events@);
    let mut i: usize = 0;
    while i < events.len()
        invariant
            i <= events.len(),
            ev == events_view(events@),
            listed_files(ev.take(i as int), name@) is None,
        decreases events.len() - i,
    {
        assert(ev.take(i + 1).drop_last() =~= ev.take(i as int));
        assert(ev.take(i + 1).last() == ev[i as int]);
        if str_eq(events[i].0.as_str(), name) {
            let files = events[i].1.clone();
            assert(files@ == events@[i as int].1@);
            proof {
                lemma_listed_files_prefix(ev, i as int + 1, name@);
            }
            return Some(files);
        }
        i = i + 1;
    }
    assert(ev.take(events.len() as int) =~= ev);
    None
}

proof fn lemma_listed_files_prefix(ev: EventsView, i: int, name: Seq<char>)
    requires
        0 <= i <= ev.len(),
        listed_files(ev.take(i), name) is Some,
    ensures
        listed_files(ev, name) == listed_files(ev.take(i), name),
    decreases ev.len() - i,
{
    if i < ev.len() {
        assert(ev.take(i + 1).drop_last() =~= ev.take(i));
        lemma_listed_files_prefix(ev, i + 1, name);
    } else {
        assert(ev.take(i) =~= ev);
    }
}

impl Pack {
    /// The files listed for `event`, under the pack root.
    pub fn files_for(&self, event: EventKind, platform: Platform) -> (r: Vec<String>)
        requires
            events_ordered(self.manifest),
        ensures
            views(r@) == event_paths(self.root@, events_view(self.manifest.events@), event, platform),
    {
        let mut r: Vec<String> = Vec::new();
        match lookup_files(&self.manifest.events, event.as_str()) {
            None => {
                assert(views(r@) =~= Seq::<Seq<char>>::empty());
            },
            Some(files) => {
                let ghost target = views(files@).map_values(
                    |f: Seq<char>| join_path(self.root@, f, platform),
                );
                let mut i: usize = 0;
                while i < files.len()
                    invariant
                        i <= files.len(),
                        target == views(files@).map_values(
                            |f: Seq<char>| join_path(self.root@, f, platform),
                        ),
                        views(r@) =~= target.take(i as int),
                    decreases files.len() - i,
                {
                    let ghost before = views(r@);
                    r.push(join(self.root.as_str(), files[i].as_str(), platform));
                    assert(views(r@) =~= before.push(target[i as int]));
                    assert(target.take(i + 1) =~= target.take(i as int).push(target[i as int]));
                    i = i + 1;
                }
                assert(target.take(files.len() as int) =~= target);
            },
        }
        r
    }

    /// The event that plays for `event` and one of its files, chosen at
    /// random; `None` when there is nothing to play.
    pub fn resolve(&self, event: EventKind, platform: Platform) -> (r: Option<(EventKind, String)>)
        requires
            events_ordered(self.manifest),
        ensures
            ({
                let (played, files) = playable(
                    self.root@,
                    events_view(self.manifest.events@),
                    event,
                    platform,
                );
                &&& files.len() == 0 ==> r is None
                &&& files.len() > 0 ==> (r matches Some((e, path)) && e == played && files.contains(
                    path@,
                ))
            }),
    {
        let mut candidates = self.files_for(event, platform);
        let resolved = if candidates.len() == 0 && event == EventKind::MassivePush {
            candidates = self.files_for(EventKind::Push, platform);
            EventKind::Push
        } else {
            event
        };
        if candidates.len() == 0 {
            return None;
        }
        let i = random_index(candidates.len());
        let path = candidates[i].clone();
        assert(views(candidates@)[i as int] == path@);
        Some((resolved, path))
    }
}

// ---------------------------------------------------------------------------
// Listing order
// ---------------------------------------------------------------------------
/// `a` comes no later than `b` in the order of `str`: character by
/// character, a prefix first.
pub open spec fn text_le(a: Seq<char>, b: Seq<char>) -> bool
    decreases a.len(),
{
    if a.len() == 0 {
        true
    } else if b.len() == 0 {
        false
    } else if a[0] != b[0] {
        a[0] < b[0]
    } else {
        text_le(a.drop_first(), b.drop_first())
    }
}

proof fn lemma_text_le_total(a: Seq<char>, b: Seq<char>)
    ensures
        text_le(a, b) || text_le(b, a),
    decreases a.len(),
{
    if a.len() > 0 && b.len() > 0 && a[0] == b[0] {
        lemma_text_le_total(a.drop_first(), b.drop_first());
    }
}

proof fn lemma_text_le_trans(a: Seq<char>, b: Seq<char>, c: Seq<char>)
    requires
        text_le(a, b),
        text_le(b, c),
    ensures
        text_le(a, c),
    decreases a.len(),
{
    if a.len() > 0 && b.len() > 0 && c.len() > 0 && a[0] == b[0] && b[0] == c[0] {
        lemma_text_le_trans(a.drop_first(), b.drop_first(), c.drop_first());
    }
}

/// `a` comes strictly before `b`.
pub open spec fn text_lt(a: Seq<char>, b: Seq<char>) -> bool {
    text_le(a, b) && a != b
}

/// The keys come in ascending order, none twice: what a map ordered by its
/// keys gives.
pub open spec fn keys_ascending(keys: Seq<Seq<char>>) -> bool {
    forall|i: int, j: int| 0 <= i < j < keys.len() ==> text_lt(#[trigger] keys[i], #[trigger] keys[j])
}

/// The event names of a manifest's map, in its order.
pub open spec fn event_keys(events: Seq<(String, Vec<String>)>) -> Seq<Seq<char>> {
    events.map_values(|e: (String, Vec<String>)| e.0@)
}

/// A manifest's events form a map: names in ascending order, none twice.
pub open spec fn events_ordered(m: PackManifest) -> bool {
    keys_ascending(event_keys(m.events@))
}

proof fn lemma_text_le_antisym(a: Seq<char>, b: Seq<char>)
    requires
        text_le(a, b),
        text_le(b, a),
    ensures
        a == b,
    decreases a.len(),
{
    if a.len() > 0 && b.len() > 0 {
        lemma_text_le_antisym(a.drop_first(), b.drop_first());
        assert(a =~= seq![a[0]] + a.drop_first());
        assert(b =~= seq![b[0]] + b.drop_first());
    } else if a.len() == 0 && b.len() == 0 {
        assert(a =~= b);
    }
}

proof fn lemma_text_lt_trans(a: Seq<char>, b: Seq<char>, c: Seq<char>)
    requires
        text_lt(a, b),
        text_lt(b, c),
    ensures
        text_lt(a, c),
{
    lemma_text_le_trans(a, b, c);
    if a == c {
        lemma_text_le_antisym(a, b);
    }
}

/// Keys that rise from each to the next are ascending.
proof fn lemma_keys_ascending_from_steps(keys: Seq<Seq<char>>)
    requires
        forall|k: int| 0 <= k < keys.len() - 1 ==> text_lt(#[trigger] keys[k], keys[k + 1]),
    ensures
        keys_ascending(keys),
    decreases keys.len(),
{
    if keys.len() > 1 {
        let d = keys.drop_last();
        assert forall|k: int| 0 <= k < d.len() - 1 implies text_lt(#[trigger] d[k], d[k + 1]) by {
            assert(d[k] == keys[k] && d[k + 1] == keys[k + 1]);
        }
        lemma_keys_ascending_from_steps(d);
        assert forall|i: int, j: int| 0 <= i < j < keys.len() implies text_lt(
            #[trigger] keys[i],
            #[trigger] keys[j],
        ) by {
            if j < keys.len() - 1 {
                assert(d[i] == keys[i] && d[j] == keys[j]);
            } else if i < j - 1 {
                assert(d[i] == keys[i] && d[j - 1] == keys[j - 1]);
                assert(text_lt(keys[j - 1], keys[j]));
                lemma_text_lt_trans(keys[i], keys[j - 1], keys[j]);
            }
        }
    }
}

/// A common prefix does not change the order.
proof fn lemma_text_le_common_prefix(a: Seq<char>, b: Seq<char>, k: int)
    requires
        0 <= k <= a.len(),
        k <= b.len(),
        a.take(k) == b.take(k),
    ensures
        text_le(a, b) == text_le(a.skip(k), b.skip(k)),
    decreases k,
{
    if k > 0 {
        assert(a[0] == a.take(k)[0]);
        assert(b[0] == b.take(k)[0]);
        assert(a.drop_first().take(k - 1) =~= a.take(k).drop_first());
        assert(b.drop_first().take(k - 1) =~= b.take(k).drop_first());
        lemma_text_le_common_prefix(a.drop_first(), b.drop_first(), k - 1);
        assert(a.drop_first().skip(k - 1) =~= a.skip(k));
        assert(b.drop_first().skip(k - 1) =~= b.skip(k));
    } else {
        assert(a.skip(0) =~= a);
        assert(b.skip(0) =~= b);
    }
}

/// Events listed in manifest order form a map.
proof fn lemma_manifest_order_events(events: Seq<(String, Vec<String>)>)
    requires
        events.len() == 8,
        forall|i: int| 0 <= i < 8 ==> (#[trigger] events[i]).0@ == event_name(manifest_order()[i]),
    ensures
        keys_ascending(event_keys(events)),
{
    lemma_manifest_order_ascending();
    assert(event_keys(events) =~= manifest_order().map_values(|e: EventKind| event_name(e))) by {
        assert forall|i: int| 0 <= i < 8 implies event_keys(events)[i] == manifest_order().map_values(
            |e: EventKind| event_name(e),
        )[i] by {
            assert(events[i].0@ == event_name(manifest_order()[i]));
        }
    }
}

/// The event names in the order a manifest lists them are ascending.
proof fn lemma_manifest_order_ascending()
    ensures
        keys_ascending(manifest_order().map_values(|e: EventKind| event_name(e))),
{
    reveal_strlit("branch_create");
    reveal_strlit("branch_delete");
    reveal_strlit("branch_switch");
    reveal_strlit("commit");
    reveal_strlit("massive_push");
    reveal_strlit("merge");
    reveal_strlit("push");
    reveal_strlit("rebase");
    let keys = manifest_order().map_values(|e: EventKind| event_name(e));
    assert(keys =~= seq![
        "branch_create"@,
        "branch_delete"@,
        "branch_switch"@,
        "commit"@,
        "massive_push"@,
        "merge"@,
        "push"@,
        "rebase"@,
    ]);
    assert(text_lt("branch_create"@, "branch_delete"@)) by {
        let a = "branch_create"@;
        let b = "branch_delete"@;
        assert(a.take(7) =~= b.take(7));
        lemma_text_le_common_prefix(a, b, 7);
        assert(a.skip(7)[0] == 'c' && b.skip(7)[0] == 'd');
        assert(a[7] != b[7]);
    }
    assert(text_lt("branch_delete"@, "branch_switch"@)) by {
        let a = "branch_delete"@;
        let b = "branch_switch"@;
        assert(a.take(7) =~= b.take(7));
        lemma_text_le_common_prefix(a, b, 7);
        assert(a.skip(7)[0] == 'd' && b.skip(7)[0] == 's');
        assert(a[7] != b[7]);
    }
    assert(text_lt("branch_switch"@, "commit"@)) by {
        reveal_with_fuel(text_le, 2);
    }
    assert(text_lt("commit"@, "massive_push"@)) by {
        reveal_with_fuel(text_le, 2);
    }
    assert(text_lt("massive_push"@, "merge"@)) by {
        reveal_with_fuel(text_le, 3);
    }
    assert(text_lt("merge"@, "push"@)) by {
        reveal_with_fuel(text_le, 2);
    }
    assert(text_lt("push"@, "rebase"@)) by {
        reveal_with_fuel(text_le, 2);
    }
    lemma_keys_ascending_from_steps(keys);
}

/// Whether `a` comes strictly before `b`.
fn text_less(a: &str, b: &str) -> (r: bool)
    ensures
        r == !text_le(b@, a@),
{
    let x = chars_of(a);
    let y = chars_of(b);
    let mut i: usize = 0;
    assert(y@.skip(0) =~= y@);
    assert(x@.skip(0) =~= x@);
    while i < x.len() && i < y.len()
        invariant
            x@ == a@,
            y@ == b@,
            i <= x@.len(),
            i <= y@.len(),
            text_le(y@, x@) == text_le(y@.skip(i as int), x@.skip(i as int)),
        decreases x.len() - i,
    {
        assert(y@.skip(i as int)[0] == y@[i as int]);
        assert(x@.skip(i as int)[0] == x@[i as int]);
        if x[i] != y[i] {
            assert(y@.skip(i as int).len() > 0 && x@.skip(i as int).len() > 0);
            assert(text_le(y@.skip(i as int), x@.skip(i as int)) == (y@[i as int] < x@[i as int]));
            let a_char = x[i];
            let b_char = y[i];
            return a_char < b_char;
        }
        assert(y@.skip(i as int).drop_first() =~= y@.skip(i + 1));
        assert(x@.skip(i as int).drop_first() =~= x@.skip(i + 1));
        i = i + 1;
    }
    x.len() < y.len()
}

pub open spec fn name_of(p: Pack) -> Seq<char> {
    p.manifest.name@
}

/// The packs of `s` named `n`, in the order of `s`.
pub open spec fn with_name(s: Seq<Pack>, n: Seq<char>) -> Seq<Pack> {
    s.filter(|q: Pack| name_of(q) == n)
}

proof fn lemma_filter_none(s: Seq<Pack>, pred: spec_fn(Pack) -> bool)
    requires
        forall|i: int| 0 <= i < s.len() ==> !pred(#[trigger] s[i]),
    ensures
        s.filter(pred) == Seq::<Pack>::empty(),
    decreases s.len(),
{
    reveal(Seq::filter);
    if s.len() > 0 {
        lemma_filter_none(s.drop_last(), pred);
        assert(!pred(s[s.len() - 1]));
    }
}

proof fn lemma_filter_one(p: Pack, pred: spec_fn(Pack) -> bool)
    ensures
        seq![p].filter(pred) == (if pred(p) { seq![p] } else { Seq::<Pack>::empty() }),
{
    reveal_with_fuel(Seq::filter, 2);
    assert(seq![p].drop_last() =~= Seq::<Pack>::empty());
}

/// Taking the first pack off `s`.
proof fn lemma_with_name_first(s: Seq<Pack>, n: Seq<char>)
    requires
        s.len() > 0,
    ensures
        with_name(s, n) == with_name(seq![s[0]], n) + with_name(s.drop_first(), n),
{
    assert(s =~= seq![s[0]] + s.drop_first());
    Seq::filter_distributes_over_add(seq![s[0]], s.drop_first(), |q: Pack| name_of(q) == n);
}

/// Putting `p` at `j`, after every pack whose name is not above its own and
/// before packs whose names are above it.
proof fn lemma_with_name_insert(s: Seq<Pack>, j: int, p: Pack, n: Seq<char>)
    requires
        0 <= j <= s.len(),
        forall|k: int| j <= k < s.len() ==> name_of(#[trigger] s[k]) != name_of(p),
    ensures
        with_name(s.insert(j, p), n) == if name_of(p) == n {
            with_name(s, n).push(p)
        } else {
            with_name(s, n)
        },
{
    let pred = |q: Pack| name_of(q) == n;
    let a = s.take(j);
    let b = s.skip(j);
    assert(s =~= a + b);
    assert(s.insert(j, p) =~= a + (seq![p] + b));
    Seq::filter_distributes_over_add(a, b, pred);
    Seq::filter_distributes_over_add(seq![p], b, pred);
    Seq::filter_distributes_over_add(a, seq![p] + b, pred);
    lemma_filter_one(p, pred);
    if name_of(p) == n {
        assert forall|i: int| 0 <= i < b.len() implies !pred(#[trigger] b[i]) by {
            assert(b[i] == s[j + i]);
        }
        lemma_filter_none(b, pred);
        assert(a.filter(pred) + (seq![p] + b.filter(pred)) =~= (a.filter(pred) + b.filter(pred)).push(p));
    } else {
        assert(seq![p].filter(pred) + b.filter(pred) =~= b.filter(pred));
    }
}

/// Packs in the order of their names. Packs with the same name keep the
/// order they came in.
pub fn sort_by_name(packs: Vec<Pack>) -> (r: Vec<Pack>)
    ensures
        r@.to_multiset() == packs@.to_multiset(),
        forall|i: int, k: int| 0 <= i < k < r@.len() ==> text_le(name_of(r@[i]), name_of(r@[k])),
        forall|n: Seq<char>| #[trigger] with_name(r@, n) == with_name(packs@, n),
{
    broadcast use vstd::multiset::group_multiset_axioms;

    let ghost all = packs@.to_multiset();
    let ghost given = packs@;
    let mut rest = packs;
    let mut sorted: Vec<Pack> = Vec::new();
    proof {
        vstd::seq_lib::to_multiset_len(sorted@);
        vstd::multiset::lemma_multiset_empty_len(sorted@.to_multiset());
        assert(sorted@.to_multiset().add(rest@.to_multiset()) =~= all);
        assert forall|n: Seq<char>| #[trigger] with_name(sorted@, n) + with_name(rest@, n) == with_name(given, n) by {
            reveal(Seq::filter);
            assert(with_name(sorted@, n) + with_name(rest@, n) =~= with_name(rest@, n));
        }
    }
    while rest.len() > 0
        invariant
            sorted@.to_multiset().add(rest@.to_multiset()) == all,
            forall|n: Seq<char>| #[trigger] with_name(sorted@, n) + with_name(rest@, n) == with_name(given, n),
            forall|i: int, k: int|
                0 <= i < k < sorted@.len() ==> text_le(name_of(sorted@[i]), name_of(sorted@[k])),
        decreases rest.len(),
    {
        let ghost before_rest = rest@;
        let ghost before_sorted = sorted@;
        let p = rest.remove(0);
        assert(before_rest.to_multiset().contains(p)) by {
            broadcast use vstd::seq_lib::to_multiset_contains;
            assert(before_rest.contains(p)) by {
                assert(before_rest[0] == p);
            }
        }
        let mut j: usize = 0;
        while j < sorted.len() && !text_less(p.manifest.name.as_str(), sorted[j].manifest.name.as_str())
            invariant
                j <= sorted@.len(),
                sorted@ == before_sorted,
                forall|k: int| 0 <= k < j ==> text_le(name_of(sorted@[k]), name_of(p)),
            decreases sorted.len() - j,
        {
            j = j + 1;
        }
        proof {
            if j < sorted@.len() {
                lemma_text_le_total(name_of(p), name_of(sorted@[j as int]));
                assert forall|k: int| j <= k < sorted@.len() implies text_le(
                    name_of(p),
                    name_of(sorted@[k]),
                ) by {
                    if k > j {
                        lemma_text_le_trans(
                            name_of(p),
                            name_of(sorted@[j as int]),
                            name_of(sorted@[k]),
                        );
                    }
                }
            }
        }
        proof {
            assert forall|k: int| j <= k < before_sorted.len() implies name_of(#[trigger] before_sorted[k]) != name_of(p) by {
                if name_of(before_sorted[k]) == name_of(p) {
                    if k > j {
                        lemma_text_le_trans(
                            name_of(before_sorted[j as int]),
                            name_of(before_sorted[k]),
                            name_of(p),
                        );
                    }
                }
            }
            assert forall|n: Seq<char>| #[trigger] with_name(before_sorted.insert(j as int, p), n) + with_name(before_rest.drop_first(), n) == with_name(given, n) by {
                lemma_with_name_insert(before_sorted, j as int, p, n);
                lemma_with_name_first(before_rest, n);
                lemma_filter_one(p, |q: Pack| name_of(q) == n);
                assert(before_rest[0] == p);
                assert(with_name(before_sorted, n) + with_name(before_rest, n) == with_name(given, n));
                if name_of(p) == n {
                    assert(with_name(before_sorted, n).push(p) + with_name(before_rest.drop_first(), n)
                        =~= with_name(before_sorted, n) + (seq![p] + with_name(before_rest.drop_first(), n)));
                } else {
                    assert(Seq::<Pack>::empty() + with_name(before_rest.drop_first(), n) =~= with_name(before_rest.drop_first(), n));
                }
            }
        }
        sorted.insert(j, p);
        assert forall|i: int, k: int|
            0 <= i < k < sorted@.len() implies text_le(name_of(sorted@[i]), name_of(sorted@[k])) by {
            if k < j {
            } else if k == j {
            } else if i < j {
                lemma_text_le_trans(name_of(sorted@[i]), name_of(p), name_of(sorted@[k]));
            } else if i == j {
            } else {
                assert(sorted@[i] == before_sorted[i - 1]);
                assert(sorted@[k] == before_sorted[k - 1]);
            }
        }
        proof {
            vstd::seq_lib::to_multiset_insert(before_sorted, j as int, p);
            vstd::seq_lib::to_multiset_remove(before_rest, 0);
            assert(before_rest[0] == p);
        }
        assert(sorted@.to_multiset().add(rest@.to_multiset()) =~= all);
    }
    proof {
        vstd::seq_lib::to_multiset_len(rest@);
        vstd::multiset::lemma_multiset_empty_len(rest@.to_multiset());
    }
    assert(sorted@.to_multiset() =~= all);
    assert forall|n: Seq<char>| #[trigger] with_name(sorted@, n) == with_name(given, n) by {
        reveal(Seq::filter);
        assert(with_name(sorted@, n) + with_name(rest@, n) == with_name(given, n));
        assert(with_name(sorted@, n) + with_name(rest@, n) =~= with_name(sorted@, n));
    }
    sorted
}

/// The summary of a loaded (and so valid) pack.
pub fn summary(pack: &Pack) -> (r: PackSummary)
    ensures
        r.id@ == pack.manifest.id@,
        r.name@ == pack.manifest.name@,
        r.author@ == pack.manifest.author@,
        r.version@ == pack.manifest.version@,
        r.root@ == pack.root@,
        r.valid,
{
    PackSummary {
        id: owned(pack.manifest.id.as_str()),
        name: owned(pack.manifest.name.as_str()),
        author: owned(pack.manifest.author.as_str()),
        version: owned(pack.manifest.version.as_str()),
        root: owned(pack.root.as_str()),
        valid: true,
    }
}

/// The summary reported when a pack validates.
pub fn validate(pack: &Pack) -> (r: PackSummary)
    ensures
        r.id@ == pack.manifest.id@,
        r.name@ == pack.manifest.name@,
        r.author@ == pack.manifest.author@,
        r.version@ == pack.manifest.version@,
        r.root@ == pack.root@,
        r.valid,
{
    summary(pack)
}

// ---------------------------------------------------------------------------
// Ids
// ---------------------------------------------------------------------------
pub open spec fn id_char(c: char) -> bool {
    is_lower(c) || is_digit(c) || c == '-' || c == '_'
}

/// A pack id: 1 to 64 lowercase letters, digits, `-` and `_`, not starting
/// with `-`.
pub open spec fn valid_id(s: Seq<char>) -> bool {
    &&& 0 < s.len() <= 64
    &&& forall|i: int| 0 <= i < s.len() ==> id_char(#[trigger] s[i])
    &&& s[0] != '-'
}

pub fn is_valid_id(id: &str) -> (r: bool)
    ensures
        r == valid_id(id@),
{
    let v = chars_of(id);
    if v.len() == 0 || v.len() > 64 {
        return false;
    }
    let mut i: usize = 0;
    while i < v.len()
        invariant
            i <= v.len(),
            v@ == id@,
            forall|j: int| 0 <= j < i ==> id_char(#[trigger] v@[j]),
        decreases v.len() - i,
    {
        let c = v[i];
        if !(('a' <= c && c <= 'z') || ('0' <= c && c <= '9') || c == '-' || c == '_') {
            return false;
        }
        i = i + 1;
    }
    v[0] != '-'
}

pub open spec fn invalid_id_message(id: Seq<char>) -> Seq<char> {
    "id '"@ + id + "' must use lowercase letters, digits, '-' or '_', and cannot start with '-'"@
}

pub fn validate_id(id: &str) -> (r: Result<(), Error>)
    ensures
        valid_id(id@) ==> r is Ok,
        !valid_id(id@) ==> (r matches Err(Error::Pack(m)) && m@ == invalid_id_message(id@)),
{
    if !is_valid_id(id) {
        let mut m = owned("id '");
        append_str(&mut m, id);
        append_str(
            &mut m,
            "' must use lowercase letters, digits, '-' or '_', and cannot start with '-'",
        );
        return Err(Error::Pack(m));
    }
    Ok(())
}

/// Where the pack `id` is installed, once the id is valid.
pub fn find(paths: &AppPaths, id: &str) -> (r: Result<String, Error>)
    ensures
        valid_id(id@) ==> (r matches Ok(p) && p@ == join_path(paths.packs@, id@, paths.platform)),
        !valid_id(id@) ==> (r matches Err(Error::Pack(m)) && m@ == invalid_id_message(id@)),
{
    validate_id(id)?;
    Ok(join(paths.packs.as_str(), id, paths.platform))
}

/// On a POSIX system a valid pack id names a directory directly inside the
/// packs directory: `find` and `remove` never reach outside it.
pub proof fn lemma_pack_dir_inside_packs(packs: Seq<char>, id: Seq<char>)
    requires
        valid_id(id),
    ensures
        components(join_path(packs, id, Platform::Unix)) == components(packs).push(id),
        path_starts_with(join_path(packs, id, Platform::Unix), packs),
{
    assert(id != seq!['.']) by {
        if id == seq!['.'] {
            assert(id_char(id[0]));
        }
    }
    assert forall|i: int| 0 <= i < id.len() implies id[i] != '/' by {
        assert(id_char(id[i]));
    }
    lemma_join_plain_name(packs, id);
}

/// The directory that removing the pack `id` deletes; the built-in Starter
/// pack cannot be removed.
pub fn remove(paths: &AppPaths, id: &str) -> (r: Result<String, Error>)
    ensures
        !valid_id(id@) ==> (r matches Err(Error::Pack(m)) && m@ == invalid_id_message(id@)),
        valid_id(id@) && id@ == "starter"@ ==> (r matches Err(Error::Pack(m)) && m@
            == "the Starter pack is built in and cannot be removed"@),
        valid_id(id@) && id@ != "starter"@ ==> (r matches Ok(p) && p@ == join_path(
            paths.packs@,
            id@,
            paths.platform,
        )),
{
    validate_id(id)?;
    if str_eq(id, STARTER_ID) {
        return Err(Error::Pack(owned("the Starter pack is built in and cannot be removed")));
    }
    Ok(join(paths.packs.as_str(), id, paths.platform))
}

// ---------------------------------------------------------------------------
// Slugs
// ---------------------------------------------------------------------------
/// A name turned into id characters: letters and digits lowercased, `-` and
/// `_` kept, any other run of characters one `-` (none at the start).
pub open spec fn slug_chars(s: Seq<char>) -> Seq<char>
    decreases s.len(),
{
    if s.len() == 0 {
        seq![]
    } else {
        let p = slug_chars(s.drop_last());
        let c = s.last();
        if is_alnum(c) {
            p.push(lower_char(c))
        } else if c == '-' || c == '_' {
            p.push(c)
        } else if p.len() > 0 && p.last() != '-' {
            p.push('-')
        } else {
            p
        }
    }
}

/// The id made from a pack name: `pack` when nothing usable remains.
pub open spec fn slug_of(name: Seq<char>) -> Seq<char> {
    let t = trim_char(slug_chars(trim(name)), '-');
    if t.len() == 0 {
        "pack"@
    } else {
        t
    }
}

pub fn slugify(name: &str) -> (r: String)
    ensures
        r@ == slug_of(name@),
{
    let t = trim_chars(&chars_of(name));
    let mut slug: Vec<char> = Vec::new();
    let mut i: usize = 0;
    while i < t.len()
        invariant
            i <= t.len(),
            slug@ == slug_chars(t@.take(i as int)),
        decreases t.len() - i,
    {
        assert(t@.take(i + 1).drop_last() =~= t@.take(i as int));
        let c = t[i];
        if char_is_alnum(c) {
            slug.push(char_lower(c));
        } else if c == '-' || c == '_' {
            slug.push(c);
        } else if slug.len() > 0 && slug[slug.len() - 1] != '-' {
            slug.push('-');
        }
        i = i + 1;
    }
    assert(t@.take(t.len() as int) =~= t@);
    let trimmed = trim_char_chars(&slug, '-');
    if trimmed.len() == 0 {
        owned("pack")
    } else {
        string_of(&trimmed)
    }
}

// ---------------------------------------------------------------------------
// Manifest rules
// ---------------------------------------------------------------------------
/// A rule broken, as the error that reports it.
pub enum Problem {
    Pack(Seq<char>),
    Message(Seq<char>),
}

pub open spec fn reports(e: Error, p: Problem) -> bool {
    match (e, p) {
        (Error::Pack(m), Problem::Pack(t)) => m@ == t,
        (Error::Message(m), Problem::Message(t)) => m@ == t,
        _ => false,
    }
}

/// What is wrong with one event key, if anything.
pub open spec fn key_problem(key: Seq<char>) -> Option<Problem> {
    match parse_event(key) {
        None => Some(Problem::Message(unknown_event_message(key))),
        Some(e) => if key != event_name(e) {
            Some(
                Problem::Pack(
                    "event '"@ + key + "' must use the canonical name '"@ + event_name(e) + "'"@,
                ),
            )
        } else {
            None
        },
    }
}

/// The first problem among the event keys.
pub open spec fn keys_problem(keys: Seq<Seq<char>>) -> Option<Problem>
    decreases keys.len(),
{
    if keys.len() == 0 {
        None
    } else {
        match keys_problem(keys.drop_last()) {
            Some(p) => Some(p),
            None => key_problem(keys.last()),
        }
    }
}

pub open spec fn empty_field(name: Seq<char>, value: Seq<char>) -> Option<Problem> {
    if trim(value).len() == 0 {
        Some(Problem::Pack(name + " cannot be empty"@))
    } else {
        None
    }
}

/// The first rule that a manifest breaks.
pub open spec fn manifest_problem(m: PackManifest) -> Option<Problem> {
    if m.schema_version != PACK_SCHEMA_VERSION {
        Some(
            Problem::Pack(
                "schema "@ + decimal(m.schema_version as nat)
                    + " is unsupported; this build supports schema "@ + decimal(
                    PACK_SCHEMA_VERSION as nat,
                ),
            ),
        )
    } else if !valid_id(m.id@) {
        Some(Problem::Pack(invalid_id_message(m.id@)))
    } else if empty_field("name"@, m.name@) is Some {
        empty_field("name"@, m.name@)
    } else if empty_field("author"@, m.author@) is Some {
        empty_field("author"@, m.author@)
    } else if empty_field("version"@, m.version@) is Some {
        empty_field("version"@, m.version@)
    } else if empty_field("description"@, m.description@) is Some {
        empty_field("description"@, m.description@)
    } else if empty_field("license"@, m.license@) is Some {
        empty_field("license"@, m.license@)
    } else {
        keys_problem(events_view(m.events@).map_values(|e: (Seq<char>, Seq<Seq<char>>)| e.0))
    }
}

fn check_field(name: &str, value: &String) -> (r: Result<(), Error>)
    ensures
        empty_field(name@, value@) is None ==> r is Ok,
        empty_field(name@, value@) matches Some(p) ==> (r matches Err(e) && reports(e, p)),
{
    let t = trim_chars(&chars_of(value.as_str()));
    if t.len() == 0 {
        let mut m = owned(name);
        append_str(&mut m, " cannot be empty");
        return Err(Error::Pack(m));
    }
    Ok(())
}

fn check_key(key: &str) -> (r: Result<(), Error>)
    ensures
        key_problem(key@) is None ==> r is Ok,
        key_problem(key@) matches Some(p) ==> (r matches Err(e) && reports(e, p)),
{
    let parsed = EventKind::parse(key)?;
    if !str_eq(key, parsed.as_str()) {
        let mut m = owned("event '");
        append_str(&mut m, key);
        append_str(&mut m, "' must use the canonical name '");
        append_str(&mut m, parsed.as_str());
        append_str(&mut m, "'");
        return Err(Error::Pack(m));
    }
    Ok(())
}

/// Checks a manifest; the error reports the first rule broken.
pub fn validate_manifest(manifest: &PackManifest) -> (r: Result<(), Error>)
    requires
        events_ordered(*manifest),
    ensures
        manifest_problem(*manifest) is None ==> r is Ok,
        manifest_problem(*manifest) matches Some(p) ==> (r matches Err(e) && reports(e, p)),
{
    if manifest.schema_version != PACK_SCHEMA_VERSION {
        let mut m = owned("schema ");
        push_decimal(&mut m, manifest.schema_version as u128);
        append_str(&mut m, " is unsupported; this build supports schema ");
        push_decimal(&mut m, PACK_SCHEMA_VERSION as u128);
        return Err(Error::Pack(m));
    }
    validate_id(manifest.id.as_str())?;
    check_field("name", &manifest.name)?;
    check_field("author", &manifest.author)?;
    check_field("version", &manifest.version)?;
    check_field("description", &manifest.description)?;
    check_field("license", &manifest.license)?;
    let ghost keys = events_view(manifest.events@).map_values(|e: (Seq<char>, Seq<Seq<char>>)| e.0);
    assert(manifest_problem(*manifest) == keys_problem(keys));
    let mut i: usize = 0;
    while i < manifest.events.len()
        invariant
            i <= manifest.events@.len(),
            keys == events_view(manifest.events@).map_values(
                |e: (Seq<char>, Seq<Seq<char>>)| e.0,
            ),
            keys_problem(keys.take(i as int)) is None,
            manifest_problem(*manifest) == keys_problem(keys),
        decreases manifest.events.len() - i,
    {
        assert(keys.take(i + 1).drop_last() =~= keys.take(i as int));
        assert(keys.take(i + 1).last() == manifest.events@[i as int].0@);
        let checked = check_key(manifest.events[i].0.as_str());
        if checked.is_err() {
            proof {
                lemma_keys_problem_prefix(keys, i as int + 1);
            }
            return checked;
        }
        i = i + 1;
    }
    assert(keys.take(manifest.events.len() as int) =~= keys);
    Ok(())
}

proof fn lemma_keys_problem_prefix(keys: Seq<Seq<char>>, i: int)
    requires
        0 <= i <= keys.len(),
        keys_problem(keys.take(i)) is Some,
    ensures
        keys_problem(keys) == keys_problem(keys.take(i)),
    decreases keys.len() - i,
{
    if i < keys.len() {
        assert(keys.take(i + 1).drop_last() =~= keys.take(i));
        lemma_keys_problem_prefix(keys, i + 1);
    } else {
        assert(keys.take(i) =~= keys);
    }
}

// ---------------------------------------------------------------------------
// Audio paths
// ---------------------------------------------------------------------------
/// On a POSIX system an audio path may name a file below the pack root
/// only: it is not blank, not absolute, and has no `..` component.
pub open spec fn posix_path_problem(value: Seq<char>) -> Option<Seq<char>> {
    if trim(value).len() == 0 || (value.len() > 0 && value[0] == '/') {
        Some("audio path must be relative: "@ + value)
    } else if components(value).contains(seq!['.', '.']) {
        Some("unsafe audio path: "@ + value)
    } else {
        None
    }
}

/// `Path::is_absolute` on Windows: a verbatim, device or network prefix, or
/// a drive prefix followed by a separator.
pub open spec fn win_absolute(v: Seq<char>) -> bool {
    win_verbatim(v) || win_unc(v) || (win_disk(v) && v.len() > 2 && win_sep(v[2]))
}

/// On Windows an audio path is refused when it is blank or absolute, when it
/// has a drive prefix or starts at a root, or when a component is `..`.
pub open spec fn windows_path_problem(value: Seq<char>) -> Option<Seq<char>> {
    if trim(value).len() == 0 || win_absolute(value) {
        Some("audio path must be relative: "@ + value)
    } else if win_disk(value) || (value.len() > 0 && win_sep(value[0])) || components(
        replace_char(value, '\\', seq!['/']),
    ).contains(seq!['.', '.']) {
        Some("unsafe audio path: "@ + value)
    } else {
        None
    }
}

/// What is wrong with an audio path on `platform`, if anything.
pub open spec fn audio_path_problem(value: Seq<char>, platform: Platform) -> Option<Seq<char>> {
    match platform {
        Platform::Unix => posix_path_problem(value),
        Platform::Windows => windows_path_problem(value),
    }
}

fn has_parent_component(value: &str) -> (r: bool)
    ensures
        r == components(value@).contains(seq!['.', '.']),
{
    let comps = components_of(value);
    let parent = vec!['.', '.'];
    assert(parent@ =~= seq!['.', '.']);
    let mut i: usize = 0;
    while i < comps.len()
        invariant
            i <= comps@.len(),
            parent@ == seq!['.', '.'],
            comps@.len() == components(value@).len(),
            forall|k: int| 0 <= k < comps@.len() ==> #[trigger] comps@[k]@ == components(value@)[k],
            forall|k: int| 0 <= k < i ==> components(value@)[k] != seq!['.', '.'],
        decreases comps.len() - i,
    {
        if chars_eq(&comps[i], &parent) {
            assert(components(value@)[i as int] == seq!['.', '.']);
            return true;
        }
        i = i + 1;
    }
    false
}

fn is_win_absolute(v: &Vec<char>) -> (r: bool)
    ensures
        r == win_absolute(v@),
{
    let n = v.len();
    let double = n >= 2 && char_win_sep(v[0]) && char_win_sep(v[1]);
    let verbatim = n >= 4 && double && (v[2] == '?' || v[2] == '.') && char_win_sep(v[3]);
    let disk = n >= 2 && (('a' <= v[0] && v[0] <= 'z') || ('A' <= v[0] && v[0] <= 'Z')) && v[1] == ':';
    if verbatim {
        return true;
    }
    if disk && n > 2 && char_win_sep(v[2]) {
        return true;
    }
    if !double {
        return false;
    }
    let i = first_sep_of(v, 2);
    proof {
        let rest = v@.skip(2);
        assert(v@.skip(2) == rest);
        if (i as int) + 1 < n {
            assert(rest[(i as int) - 1] == v@[(i as int) + 1]);
        }
    }
    i > 2 && i < n - 1 && !char_win_sep(v[i + 1])
}

/// Checks that an audio path stays inside the pack and gives it back.
pub fn safe_relative_path(value: &str, platform: Platform) -> (r: Result<String, Error>)
    ensures
        audio_path_problem(value@, platform) is None ==> (r matches Ok(p) && p@ == value@),
        audio_path_problem(value@, platform) matches Some(m) ==> (r matches Err(Error::Pack(t))
            && t@ == m),
{
    let v = chars_of(value);
    let t = trim_chars(&v);
    let absolute = match platform {
        Platform::Unix => v.len() > 0 && v[0] == '/',
        Platform::Windows => is_win_absolute(&v),
    };
    if t.len() == 0 || absolute {
        let mut m = owned("audio path must be relative: ");
        append_str(&mut m, value);
        return Err(Error::Pack(m));
    }
    let unsafe_path = match platform {
        Platform::Unix => has_parent_component(value),
        Platform::Windows => {
            let slash = vec!['/'];
            assert(slash@ =~= seq!['/']);
            let mapped = string_of(&replace_chars(&v, '\\', &slash));
            let disk = v.len() >= 2 && (('a' <= v[0] && v[0] <= 'z') || ('A' <= v[0] && v[0] <= 'Z'))
                && v[1] == ':';
            disk || (v.len() > 0 && char_win_sep(v[0])) || has_parent_component(mapped.as_str())
        },
    };
    if unsafe_path {
        let mut m = owned("unsafe audio path: ");
        append_str(&mut m, value);
        return Err(Error::Pack(m));
    }
    Ok(owned(value))
}

/// Index of the last `c` in `s`, or -1.
pub open spec fn last_index(s: Seq<char>, c: char) -> int
    decreases s.len(),
{
    if s.len() == 0 {
        -1
    } else if s.last() == c {
        s.len() - 1
    } else {
        last_index(s.drop_last(), c)
    }
}

pub proof fn lemma_last_index_bound(s: Seq<char>, c: char)
    ensures
        -1 <= last_index(s, c) < s.len(),
        last_index(s, c) >= 0 ==> s[last_index(s, c)] == c,
    decreases s.len(),
{
    if s.len() > 0 && s.last() != c {
        lemma_last_index_bound(s.drop_last(), c);
    }
}

/// `Path::extension` on a POSIX system: the text after the last `.` of the
/// file name, when there is text before that `.`.
pub open spec fn extension(p: Seq<char>) -> Option<Seq<char>> {
    let comps = components(p);
    if comps.len() == 0 {
        None
    } else {
        let name = comps.last();
        if name == seq!['/'] || (comps.len() == 1 && name == seq!['.']) || name == seq!['.', '.'] {
            None
        } else {
            let i = last_index(name, '.');
            if i <= 0 {
                None
            } else {
                Some(name.skip(i + 1))
            }
        }
    }
}

fn extension_of(p: &str) -> (r: Option<Vec<char>>)
    ensures
        r is None <==> extension(p@) is None,
        r matches Some(e) ==> extension(p@) == Some(e@),
{
    let comps = components_of(p);
    if comps.len() == 0 {
        return None;
    }
    let name = &comps[comps.len() - 1];
    assert(name@ == components(p@).last());
    let root = vec!['/'];
    assert(root@ =~= seq!['/']);
    let dot = vec!['.'];
    assert(dot@ =~= seq!['.']);
    let parent = vec!['.', '.'];
    assert(parent@ =~= seq!['.', '.']);
    if chars_eq(name, &root) || (comps.len() == 1 && chars_eq(name, &dot)) || chars_eq(
        name,
        &parent,
    ) {
        return None;
    }
    let mut last: usize = 0;
    let mut found = false;
    let mut i: usize = 0;
    while i < name.len()
        invariant
            i <= name@.len(),
            found ==> last < i,
            found ==> last_index(name@.take(i as int), '.') == last,
            !found ==> last_index(name@.take(i as int), '.') == -1,
        decreases name.len() - i,
    {
        assert(name@.take(i + 1).drop_last() =~= name@.take(i as int));
        if name[i] == '.' {
            last = i;
            found = true;
        }
        i = i + 1;
    }
    assert(name@.take(name.len() as int) =~= name@);
    if !found || last == 0 {
        return None;
    }
    let ext = crate::text::slice_chars(name, last + 1, name.len());
    assert(ext@ =~= name@.skip(last + 1));
    Some(ext)
}

/// The extension as compared with the supported ones: lowercase, empty when
/// there is none.
/// On Windows both `/` and `\\` end a component, so the file name is read
/// as on POSIX once every `\\` is a `/`.
pub open spec fn platform_extension(p: Seq<char>, platform: Platform) -> Option<Seq<char>> {
    match platform {
        Platform::Unix => extension(p),
        Platform::Windows => extension(replace_char(p, '\\', seq!['/'])),
    }
}

pub open spec fn audio_extension(p: Seq<char>, platform: Platform) -> Seq<char> {
    match platform_extension(p, platform) {
        Some(e) => lower(e),
        None => seq![],
    }
}

pub open spec fn supported_extension(e: Seq<char>) -> bool {
    e == "wav"@ || e == "mp3"@ || e == "ogg"@ || e == "flac"@
}

proof fn lemma_last_index_after(s: Seq<char>, t: Seq<char>, c: char)
    requires
        forall|i: int| 0 <= i < t.len() ==> #[trigger] t[i] != c,
    ensures
        last_index(s + t, c) == last_index(s, c),
    decreases t.len(),
{
    if t.len() == 0 {
        assert(s + t =~= s);
    } else {
        assert((s + t).drop_last() =~= s + t.drop_last());
        assert((s + t).last() == t.last());
        lemma_last_index_after(s, t.drop_last(), c);
    }
}

/// The formats that play are WAV, MP3, OGG and FLAC, in any letter case:
/// a file `<stem>.<ext>` in any directory passes the extension check
/// exactly when its extension, lowercased, is one of `wav`, `mp3`, `ogg`
/// and `flac`.
pub proof fn lemma_audio_formats(dir: Seq<char>, stem: Seq<char>, ext: Seq<char>)
    requires
        stem.len() > 0,
        forall|i: int| 0 <= i < stem.len() ==> #[trigger] stem[i] != '/',
        forall|i: int| 0 <= i < ext.len() ==> #[trigger] ext[i] != '/' && ext[i] != '.',
    ensures
        ({
            let file = join_path(dir, stem + seq!['.'] + ext, Platform::Unix);
            let e = lower(ext);
            &&& audio_extension(file, Platform::Unix) == e
            &&& supported_extension(audio_extension(file, Platform::Unix)) <==> (e == "wav"@ || e
                == "mp3"@ || e == "ogg"@ || e == "flac"@)
        }),
{
    let name = stem + seq!['.'] + ext;
    assert forall|i: int| 0 <= i < name.len() implies name[i] != '/' by {
        if i < stem.len() {
            assert(name[i] == stem[i]);
        } else if i > stem.len() {
            assert(name[i] == ext[i - stem.len() - 1]);
        }
    }
    assert(name.len() >= 2);
    lemma_join_plain_name(dir, name);
    let file = join_path(dir, name, Platform::Unix);
    let comps = components(file);
    assert(comps.last() == name);
    assert(name[0] != '/');
    assert(name != seq!['/']);
    lemma_last_index_after(stem + seq!['.'], ext, '.');
    assert(stem + seq!['.'] + ext == (stem + seq!['.']) + ext);
    assert(last_index(stem + seq!['.'], '.') == stem.len()) by {
        assert((stem + seq!['.']).last() == '.');
    }
    if name == seq!['.', '.'] {
        assert(ext.len() == 0);
        assert(lower(ext) =~= Seq::<char>::empty());
    } else {
        assert(name.skip(stem.len() as int + 1) =~= ext);
    }
}

/// A file plays only with a supported extension (WAV, MP3, OGG, FLAC, in any
/// case); `relative` is the path as the manifest wrote it.
pub fn check_audio_extension(path: &str, relative: &str, platform: Platform) -> (r: Result<
    (),
    Error,
>)
    ensures
        supported_extension(audio_extension(path@, platform)) ==> r is Ok,
        !supported_extension(audio_extension(path@, platform)) ==> (r matches Err(Error::Pack(m))
            && m@ == "unsupported audio extension '."@ + audio_extension(path@, platform)
            + "' for "@ + relative@),
{
    let name = match platform {
        Platform::Unix => owned(path),
        Platform::Windows => {
            let slash = vec!['/'];
            assert(slash@ =~= seq!['/']);
            string_of(&replace_chars(&chars_of(path), '\\', &slash))
        },
    };
    let ext: Vec<char> = match extension_of(name.as_str()) {
        Some(e) => lower_chars(&e),
        None => Vec::new(),
    };
    assert(ext@ =~= audio_extension(path@, platform));
    let text = string_of(&ext);
    if str_eq(text.as_str(), "wav") || str_eq(text.as_str(), "mp3") || str_eq(text.as_str(), "ogg")
        || str_eq(text.as_str(), "flac") {
        return Ok(());
    }
    let mut m = owned("unsupported audio extension '.");
    append_str(&mut m, text.as_str());
    append_str(&mut m, "' for ");
    append_str(&mut m, relative);
    Err(Error::Pack(m))
}


// ---------------------------------------------------------------------------
// Packs that GitSama writes
// ---------------------------------------------------------------------------
/// The events in the order of their names, as `pack.toml` lists them.
pub open spec fn manifest_order() -> Seq<EventKind> {
    seq![
        EventKind::BranchCreate,
        EventKind::BranchDelete,
        EventKind::BranchSwitch,
        EventKind::Commit,
        EventKind::MassivePush,
        EventKind::Merge,
        EventKind::Push,
        EventKind::Rebase,
    ]
}

fn manifest_order_exec() -> (r: Vec<EventKind>)
    ensures
        r@ == manifest_order(),
{
    let r = vec![
        EventKind::BranchCreate,
        EventKind::BranchDelete,
        EventKind::BranchSwitch,
        EventKind::Commit,
        EventKind::MassivePush,
        EventKind::Merge,
        EventKind::Push,
        EventKind::Rebase,
    ];
    assert(r@ =~= manifest_order());
    r
}

/// What a new pack holds: its id, its directory, its manifest (every event
/// listed with no file) and its README.
#[derive(Clone, Debug)]
pub struct Scaffold {
    pub id: String,
    pub root: String,
    pub manifest: PackManifest,
    pub readme: String,
}

pub open spec fn readme_text(name: Seq<char>, id: Seq<char>) -> Seq<char> {
    "# "@ + name
        + "\n\nAdd audio files under audio/, then map them in pack.toml.\n\nSupported formats: WAV, MP3, OGG, FLAC.\n\nValidate and install:\n\n    gitsama pack validate .\n    gitsama pack add .\n    gitsama use "@
        + id + "\n    gitsama test all\n\nOnly include audio you are legally allowed to redistribute.\n"@
}

/// The pack that `pack scaffold` creates for `name` under `parent`, with its
/// root joined by the rules of `platform`.
pub fn scaffold(name: &str, parent: &str, platform: Platform) -> (r: Result<Scaffold, Error>)
    ensures
        trim(name@).len() == 0 ==> (r matches Err(Error::Pack(m)) && m@
            == "pack name cannot be empty"@),
        trim(name@).len() > 0 ==> (r matches Ok(s) && s.id@ == slug_of(name@) && s.root@
            == join_path(parent@, slug_of(name@), platform) && s.manifest.schema_version
            == PACK_SCHEMA_VERSION && s.manifest.id@ == slug_of(name@) && s.manifest.name@
            == trim(name@) && s.manifest.author@ == "Your Name"@ && s.manifest.version@
            == "1.0.0"@ && s.manifest.description@ == "A GitSama sound pack."@
            && s.manifest.license@ == "user-provided"@ && events_view(s.manifest.events@)
            == manifest_order().map_values(
            |e: EventKind| (event_name(e), Seq::<Seq<char>>::empty()),
        ) && s.readme@ == readme_text(name@, slug_of(name@))),
        trim(name@).len() > 0 && slug_of(name@).len() <= 64 ==> (r matches Ok(s)
            && manifest_problem(s.manifest) is None),
        r matches Ok(s) ==> events_ordered(s.manifest),
{
    let trimmed = trim_chars(&chars_of(name));
    if trimmed.len() == 0 {
        return Err(Error::Pack(owned("pack name cannot be empty")));
    }
    let id = slugify(name);
    let root = join(parent, id.as_str(), platform);
    let order = manifest_order_exec();
    let ghost target = manifest_order().map_values(
        |e: EventKind| (event_name(e), Seq::<Seq<char>>::empty()),
    );
    let mut events: Vec<(String, Vec<String>)> = Vec::new();
    let mut i: usize = 0;
    while i < order.len()
        invariant
            i <= order.len(),
            order@ == manifest_order(),
            target == manifest_order().map_values(
                |e: EventKind| (event_name(e), Seq::<Seq<char>>::empty()),
            ),
            events_view(events@) =~= target.take(i as int),
        decreases order.len() - i,
    {
        let ghost before = events_view(events@);
        let files: Vec<String> = Vec::new();
        assert(views(files@) =~= Seq::<Seq<char>>::empty());
        events.push((owned(order[i].as_str()), files));
        assert(events_view(events@) =~= before.push(target[i as int]));
        assert(target.take(i + 1) =~= target.take(i as int).push(target[i as int]));
        i = i + 1;
    }
    assert(target.take(8) =~= target);
    proof {
        assert forall|i: int| 0 <= i < 8 implies (#[trigger] events@[i]).0@ == event_name(
            manifest_order()[i],
        ) by {
            assert(events_view(events@)[i] == target[i]);
        }
        lemma_manifest_order_events(events@);
    }
    proof {
        let keys = events_view(events@).map_values(|e: (Seq<char>, Seq<Seq<char>>)| e.0);
        lemma_canonical_keys(manifest_order(), keys);
        lemma_slug_is_id(name@);
        crate::text::lemma_trim_twice(name@);
        reveal_strlit("Your Name");
        reveal_strlit("1.0.0");
        reveal_strlit("A GitSama sound pack.");
        reveal_strlit("user-provided");
        crate::text::lemma_trim_noop("Your Name"@);
        crate::text::lemma_trim_noop("1.0.0"@);
        crate::text::lemma_trim_noop("A GitSama sound pack."@);
        crate::text::lemma_trim_noop("user-provided"@);
    }
    let manifest = PackManifest {
        schema_version: PACK_SCHEMA_VERSION,
        id: owned(id.as_str()),
        name: string_of(&trimmed),
        author: owned("Your Name"),
        version: owned("1.0.0"),
        description: owned("A GitSama sound pack."),
        license: owned("user-provided"),
        events,
    };
    let mut readme = owned("# ");
    append_str(&mut readme, name);
    append_str(
        &mut readme,
        "\n\nAdd audio files under audio/, then map them in pack.toml.\n\nSupported formats: WAV, MP3, OGG, FLAC.\n\nValidate and install:\n\n    gitsama pack validate .\n    gitsama pack add .\n    gitsama use ",
    );
    append_str(&mut readme, id.as_str());
    append_str(
        &mut readme,
        "\n    gitsama test all\n\nOnly include audio you are legally allowed to redistribute.\n",
    );
    Ok(Scaffold { id, root, manifest, readme })
}

/// The Starter pack's file for an event: its name with `-` for `_`, `.wav`.
pub open spec fn starter_file(e: EventKind) -> Seq<char> {
    replace_char(event_name(e), '_', seq!['-']) + ".wav"@
}

pub fn starter_file_name(event: EventKind) -> (r: String)
    ensures
        r@ == starter_file(event),
{
    let dash = vec!['-'];
    assert(dash@ =~= seq!['-']);
    let name = replace_chars(&chars_of(event.as_str()), '_', &dash);
    let mut r = string_of(&name);
    append_str(&mut r, ".wav");
    r
}

/// The tone the Starter pack plays for each event: frequency in hertz and
/// length in milliseconds.
pub open spec fn starter_tone(e: EventKind) -> (u32, u32) {
    match e {
        EventKind::Commit => (440, 180),
        EventKind::Push => (523, 220),
        EventKind::MassivePush => (659, 320),
        EventKind::Merge => (392, 250),
        EventKind::BranchSwitch => (494, 170),
        EventKind::BranchCreate => (587, 200),
        EventKind::BranchDelete => (330, 200),
        EventKind::Rebase => (740, 260),
    }
}

pub fn starter_tones() -> (r: Vec<(EventKind, u32, u32)>)
    ensures
        r@.len() == 8,
        forall|i: int|
            0 <= i < 8 ==> (#[trigger] r@[i]).0 == crate::events::all_events()[i] && (r@[i].1,
            r@[i].2) == starter_tone(r@[i].0),
{
    let r = vec![
        (EventKind::Commit, 440u32, 180u32),
        (EventKind::Push, 523, 220),
        (EventKind::MassivePush, 659, 320),
        (EventKind::Merge, 392, 250),
        (EventKind::BranchSwitch, 494, 170),
        (EventKind::BranchCreate, 587, 200),
        (EventKind::BranchDelete, 330, 200),
        (EventKind::Rebase, 740, 260),
    ];
    r
}

/// The sample rate of the Starter pack's tones.
pub const TONE_SAMPLE_RATE: u32 = 44_100;

/// The four little-endian bytes of `n`.
pub open spec fn le32(n: nat) -> Seq<u8> {
    seq![(n % 256) as u8, ((n / 256) % 256) as u8, ((n / 65536) % 256) as u8, ((n / 16777216) % 256) as u8]
}

/// The two little-endian bytes of `n`.
pub open spec fn le16(n: nat) -> Seq<u8> {
    seq![(n % 256) as u8, ((n / 256) % 256) as u8]
}

/// The 44-byte header of a mono 16-bit PCM WAV file holding `data_size`
/// bytes of samples at `rate` samples per second.
pub open spec fn wav_header(rate: nat, data_size: nat) -> Seq<u8> {
    seq![0x52u8, 0x49, 0x46, 0x46] + le32(36 + data_size) + seq![0x57u8, 0x41, 0x56, 0x45, 0x66,
        0x6d, 0x74, 0x20] + le32(16) + le16(1) + le16(1) + le32(rate) + le32(rate * 2) + le16(2)
        + le16(16) + seq![0x64u8, 0x61, 0x74, 0x61] + le32(data_size)
}

/// The number of samples in a tone of `duration_ms` milliseconds.
pub open spec fn tone_samples(duration_ms: nat) -> nat {
    (TONE_SAMPLE_RATE * duration_ms / 1000) as nat
}

fn push_le32(bytes: &mut Vec<u8>, n: u32)
    ensures
        final(bytes)@ == old(bytes)@ + le32(n as nat),
{
    bytes.push((n % 256) as u8);
    bytes.push(((n / 256) % 256) as u8);
    bytes.push(((n / 65536) % 256) as u8);
    bytes.push(((n / 16777216) % 256) as u8);
    assert(final(bytes)@ =~= old(bytes)@ + le32(n as nat));
}

fn push_le16(bytes: &mut Vec<u8>, n: u16)
    ensures
        final(bytes)@ == old(bytes)@ + le16(n as nat),
{
    bytes.push((n % 256) as u8);
    bytes.push(((n / 256) % 256) as u8);
    assert(final(bytes)@ =~= old(bytes)@ + le16(n as nat));
}

fn push_all(bytes: &mut Vec<u8>, more: &[u8])
    ensures
        final(bytes)@ == old(bytes)@ + more@,
{
    let mut i: usize = 0;
    while i < more.len()
        invariant
            i <= more@.len(),
            bytes@ == old(bytes)@ + more@.take(i as int),
        decreases more.len() - i,
    {
        bytes.push(more[i]);
        assert(more@.take(i + 1) =~= more@.take(i as int).push(more@[i as int]));
        i = i + 1;
    }
    assert(more@.take(more@.len() as int) =~= more@);
}

/// The header of a Starter tone of `duration_ms` milliseconds, and how many
/// samples follow it.
pub fn tone_header(duration_ms: u32) -> (r: (Vec<u8>, u32))
    requires
        TONE_SAMPLE_RATE * duration_ms <= u32::MAX,
    ensures
        r.1 == tone_samples(duration_ms as nat),
        r.0@ == wav_header(TONE_SAMPLE_RATE as nat, 2 * tone_samples(duration_ms as nat)),
{
    let sample_count = TONE_SAMPLE_RATE * duration_ms / 1_000;
    assert(sample_count <= 4_294_967_295u32 / 1_000);
    let data_size = sample_count * 2;
    let mut bytes: Vec<u8> = Vec::new();
    push_all(&mut bytes, &[0x52u8, 0x49, 0x46, 0x46]);
    push_le32(&mut bytes, 36 + data_size);
    push_all(&mut bytes, &[0x57u8, 0x41, 0x56, 0x45, 0x66, 0x6d, 0x74, 0x20]);
    push_le32(&mut bytes, 16);
    push_le16(&mut bytes, 1);
    push_le16(&mut bytes, 1);
    push_le32(&mut bytes, TONE_SAMPLE_RATE);
    push_le32(&mut bytes, TONE_SAMPLE_RATE * 2);
    push_le16(&mut bytes, 2);
    push_le16(&mut bytes, 16);
    push_all(&mut bytes, &[0x64u8, 0x61, 0x74, 0x61]);
    push_le32(&mut bytes, data_size);
    assert(bytes@ =~= wav_header(TONE_SAMPLE_RATE as nat, 2 * tone_samples(duration_ms as nat)));
    (bytes, sample_count)
}

/// The Starter pack's manifest: every event plays its generated tone.
pub fn starter_manifest() -> (r: PackManifest)
    ensures
        r.schema_version == PACK_SCHEMA_VERSION,
        r.id@ == "starter"@,
        r.name@ == "Starter"@,
        r.author@ == "GitSama"@,
        r.version@ == "1.0.0"@,
        r.description@ == "Generated tones for installation and CI verification."@,
        r.license@ == "MIT"@,
        events_view(r.events@) == manifest_order().map_values(
            |e: EventKind| (event_name(e), seq!["audio/"@ + starter_file(e)]),
        ),
        manifest_problem(r) is None,
        events_ordered(r),
{
    let order = manifest_order_exec();
    let ghost target = manifest_order().map_values(
        |e: EventKind| (event_name(e), seq!["audio/"@ + starter_file(e)]),
    );
    let mut events: Vec<(String, Vec<String>)> = Vec::new();
    let mut i: usize = 0;
    while i < order.len()
        invariant
            i <= order.len(),
            order@ == manifest_order(),
            target == manifest_order().map_values(
                |e: EventKind| (event_name(e), seq!["audio/"@ + starter_file(e)]),
            ),
            events_view(events@) =~= target.take(i as int),
        decreases order.len() - i,
    {
        let ghost before = events_view(events@);
        let mut path = owned("audio/");
        append_str(&mut path, starter_file_name(order[i]).as_str());
        let mut files: Vec<String> = Vec::new();
        files.push(path);
        assert(views(files@) =~= seq!["audio/"@ + starter_file(order@[i as int])]);
        events.push((owned(order[i].as_str()), files));
        assert(events_view(events@) =~= before.push(target[i as int]));
        assert(target.take(i + 1) =~= target.take(i as int).push(target[i as int]));
        i = i + 1;
    }
    assert(target.take(8) =~= target);
    proof {
        assert forall|i: int| 0 <= i < 8 implies (#[trigger] events@[i]).0@ == event_name(
            manifest_order()[i],
        ) by {
            assert(events_view(events@)[i] == target[i]);
        }
        lemma_manifest_order_events(events@);
    }
    proof {
        let keys = events_view(events@).map_values(|e: (Seq<char>, Seq<Seq<char>>)| e.0);
        lemma_canonical_keys(manifest_order(), keys);
        reveal_strlit("starter");
        reveal_strlit("Starter");
        reveal_strlit("GitSama");
        reveal_strlit("1.0.0");
        reveal_strlit("Generated tones for installation and CI verification.");
        reveal_strlit("MIT");
        crate::text::lemma_trim_noop("Starter"@);
        crate::text::lemma_trim_noop("GitSama"@);
        crate::text::lemma_trim_noop("1.0.0"@);
        crate::text::lemma_trim_noop("Generated tones for installation and CI verification."@);
        crate::text::lemma_trim_noop("MIT"@);
    }
    PackManifest {
        schema_version: PACK_SCHEMA_VERSION,
        id: owned(STARTER_ID),
        name: owned("Starter"),
        author: owned("GitSama"),
        version: owned("1.0.0"),
        description: owned("Generated tones for installation and CI verification."),
        license: owned("MIT"),
        events,
    }
}


// ---------------------------------------------------------------------------
// Laws of manifests and ids
// ---------------------------------------------------------------------------
proof fn lemma_keys_problem_each(keys: Seq<Seq<char>>)
    ensures
        keys_problem(keys) is None <==> forall|i: int|
            0 <= i < keys.len() ==> key_problem(#[trigger] keys[i]) is None,
    decreases keys.len(),
{
    if keys.len() > 0 {
        lemma_keys_problem_each(keys.drop_last());
        if keys_problem(keys) is None {
            assert forall|i: int| 0 <= i < keys.len() implies key_problem(#[trigger] keys[i]) is None by {
                if i < keys.len() - 1 {
                    assert(keys.drop_last()[i] == keys[i]);
                }
            }
        }
        if forall|i: int| 0 <= i < keys.len() ==> key_problem(#[trigger] keys[i]) is None {
            assert forall|i: int| 0 <= i < keys.drop_last().len() implies key_problem(
                #[trigger] keys.drop_last()[i],
            ) is None by {
                assert(keys.drop_last()[i] == keys[i]);
            }
            assert(key_problem(keys[keys.len() - 1]) is None);
        }
    }
}

/// A canonical event name is a valid manifest key.
pub proof fn lemma_event_name_is_valid_key(e: EventKind)
    ensures
        key_problem(event_name(e)) is None,
{
    crate::events::lemma_parse_event_name(e);
}

/// The events of a valid manifest are named exactly as GitSama names its
/// events (`commit`, `push`, `massive_push`, `merge`, `branch_switch`,
/// `branch_create`, `branch_delete`, `rebase`).
pub proof fn lemma_valid_manifest_keys(m: PackManifest)
    requires
        manifest_problem(m) is None,
    ensures
        forall|i: int|
            0 <= i < m.events@.len() ==> exists|e: EventKind| (#[trigger] m.events@[i]).0@ == event_name(e),
{
    let keys = events_view(m.events@).map_values(|e: (Seq<char>, Seq<Seq<char>>)| e.0);
    lemma_keys_problem_each(keys);
    assert forall|i: int| 0 <= i < m.events@.len() implies exists|e: EventKind| (#[trigger] m.events@[i]).0@
        == event_name(e) by {
        assert(keys[i] == m.events@[i].0@);
        assert(key_problem(keys[i]) is None);
        let e = parse_event(keys[i])->Some_0;
        assert(m.events@[i].0@ == event_name(e));
    }
}

proof fn lemma_canonical_keys(order: Seq<EventKind>, keys: Seq<Seq<char>>)
    requires
        keys.len() == order.len(),
        forall|i: int| 0 <= i < keys.len() ==> #[trigger] keys[i] == event_name(order[i]),
    ensures
        keys_problem(keys) is None,
{
    assert forall|i: int| 0 <= i < keys.len() implies key_problem(#[trigger] keys[i]) is None by {
        lemma_event_name_is_valid_key(order[i]);
    }
    lemma_keys_problem_each(keys);
}

/// Every character of a slug is an id character.
proof fn lemma_slug_chars(s: Seq<char>)
    ensures
        forall|i: int| 0 <= i < slug_chars(s).len() ==> id_char(#[trigger] slug_chars(s)[i]),
    decreases s.len(),
{
    if s.len() > 0 {
        lemma_slug_chars(s.drop_last());
        let p = slug_chars(s.drop_last());
        let c = s.last();
        assert forall|i: int| 0 <= i < slug_chars(s).len() implies id_char(#[trigger] slug_chars(s)[i]) by {
            if i < p.len() {
                assert(slug_chars(s)[i] == p[i]);
            }
        }
    }
}

/// A pack name always becomes an id that is valid when it is not longer
/// than an id may be.
pub proof fn lemma_slug_is_id(name: Seq<char>)
    ensures
        slug_of(name).len() > 0,
        slug_of(name).len() <= 64 ==> valid_id(slug_of(name)),
{
    reveal_strlit("pack");
    let raw = slug_chars(trim(name));
    lemma_slug_chars(trim(name));
    let lead = crate::text::lead_char(raw, '-');
    crate::text::lemma_lead_char_bound(raw, '-');
    let a = raw.skip(lead as int);
    crate::text::lemma_trail_char_bound(a, '-');
    let t = trim_char(raw, '-');
    assert(t =~= a.take(a.len() - crate::text::trail_char(a, '-')));
    if t.len() > 0 {
        assert(t[0] == a[0]);
        assert(a[0] == raw[lead as int]);
        assert forall|i: int| 0 <= i < t.len() implies id_char(#[trigger] t[i]) by {
            assert(t[i] == raw[i + lead]);
        }
    }
}


proof fn lemma_lead_char_zero(s: Seq<char>, c: char)
    requires
        s.len() > 0,
        s[0] != c,
    ensures
        crate::text::lead_char(s, c) == 0,
    decreases s.len(),
{
    if s.len() > 1 {
        assert(s.drop_last()[0] == s[0]);
        lemma_lead_char_zero(s.drop_last(), c);
    } else {
        assert(crate::text::lead_char(s.drop_last(), c) == 0);
        assert(s.last() == s[0]);
    }
}

proof fn lemma_trail_char_stop(s: Seq<char>, c: char)
    ensures
        crate::text::trail_char(s, c) < s.len() ==> s[s.len() - crate::text::trail_char(s, c) - 1]
            != c,
    decreases s.len(),
{
    if s.len() > 0 && s.last() == c {
        lemma_trail_char_stop(s.drop_last(), c);
        let t = crate::text::trail_char(s.drop_last(), c);
        if t < s.len() - 1 {
            assert(s.drop_last()[s.len() - 1 - t - 1] == s[s.len() - t - 2]);
        }
    }
}

/// Id characters pass through `slug_chars` unchanged.
proof fn lemma_slug_chars_of_id(s: Seq<char>)
    requires
        forall|i: int| 0 <= i < s.len() ==> id_char(#[trigger] s[i]),
    ensures
        slug_chars(s) == s,
    decreases s.len(),
{
    if s.len() > 0 {
        let d = s.drop_last();
        assert forall|i: int| 0 <= i < d.len() implies id_char(#[trigger] d[i]) by {
            assert(d[i] == s[i]);
        }
        lemma_slug_chars_of_id(d);
        assert(id_char(s[s.len() - 1]));
        assert(d.push(s.last()) =~= s);
    }
}

/// A slug is a non-empty id that neither starts nor ends with `-`, and
/// slugifying it again changes nothing.
pub proof fn lemma_slug_settles(name: Seq<char>)
    ensures
        slug_of(name).len() > 0,
        slug_of(name)[0] != '-',
        slug_of(name).last() != '-',
        forall|i: int| 0 <= i < slug_of(name).len() ==> id_char(#[trigger] slug_of(name)[i]),
        slug_of(slug_of(name)) == slug_of(name),
{
    reveal_strlit("pack");
    let raw = slug_chars(trim(name));
    lemma_slug_chars(trim(name));
    let lead = crate::text::lead_char(raw, '-');
    crate::text::lemma_lead_char_bound(raw, '-');
    let a = raw.skip(lead as int);
    crate::text::lemma_trail_char_bound(a, '-');
    lemma_trail_char_stop(a, '-');
    let t = trim_char(raw, '-');
    assert(t =~= a.take(a.len() - crate::text::trail_char(a, '-')));
    let s = slug_of(name);
    if t.len() > 0 {
        assert(t[0] == a[0]);
        assert(a[0] == raw[lead as int]);
        assert(t.last() == a[a.len() - crate::text::trail_char(a, '-') - 1]);
        assert forall|i: int| 0 <= i < t.len() implies id_char(#[trigger] t[i]) by {
            assert(t[i] == raw[i + lead]);
        }
    } else {
        assert forall|i: int| 0 <= i < s.len() implies id_char(#[trigger] s[i]) by {
            assert(s == "pack"@);
        }
    }
    // The slug read again: no whitespace to trim, every character kept, no
    // `-` at either end.
    assert(!crate::text::is_ws(s[0]) && !crate::text::is_ws(s.last())) by {
        assert(id_char(s[0]));
        assert(id_char(s[s.len() - 1]));
    }
    crate::text::lemma_trim_noop(s);
    lemma_slug_chars_of_id(s);
    lemma_lead_char_zero(s, '-');
    assert(s.skip(0) =~= s);
    assert(crate::text::trail_char(s, '-') == 0);
    assert(s.take(s.len() as int) =~= s);
}

} // verus!
