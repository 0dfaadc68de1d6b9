//! What GitSama's configuration edits leave in Git's configuration, when
//! every `git config` run succeeds.
use vstd::prelude::*;

use crate::hooks::{
    all_edits, disable_edit, enable_edit, hook_command, hook_key, hook_specs, install_edits,
    lemma_one_hook_per_native_event, remove_edits, EditView,
};
use crate::platform::Platform;
use crate::text::starts_with;

verus! {

/// Git's configuration as GitSama sees it: the values of each (scope, key),
/// in order. A key that is absent is not in the map.
pub type GitConfig = Map<(Seq<char>, Seq<char>), Seq<Seq<char>>>;

/// What one edit does: `--add` appends a value, a plain assignment makes the
/// value the only one, `--unset-all` removes the key.
pub open spec fn apply_edit(cfg: GitConfig, e: EditView) -> GitConfig {
    match e {
        EditView::Assign(scope, key, value, append) => if append && cfg.contains_key((scope, key)) {
            cfg.insert((scope, key), cfg[(scope, key)].push(value))
        } else {
            cfg.insert((scope, key), seq![value])
        },
        EditView::Remove(scope, key) => cfg.remove((scope, key)),
    }
}

/// The edits made one after the other.
pub open spec fn apply_edits(cfg: GitConfig, es: Seq<EditView>) -> GitConfig
    decreases es.len(),
{
    if es.len() == 0 {
        cfg
    } else {
        apply_edit(apply_edits(cfg, es.drop_last()), es.last())
    }
}

proof fn lemma_apply_concat(cfg: GitConfig, a: Seq<EditView>, b: Seq<EditView>)
    ensures
        apply_edits(cfg, a + b) == apply_edits(apply_edits(cfg, a), b),
    decreases b.len(),
{
    if b.len() == 0 {
        assert(a + b =~= a);
    } else {
        assert((a + b).drop_last() =~= a + b.drop_last());
        assert((a + b).last() == b.last());
        lemma_apply_concat(cfg, a, b.drop_last());
    }
}

/// `k` holds `v`: the values `v` when it is `Some`, no entry when `None`.
pub open spec fn holds(cfg: GitConfig, k: (Seq<char>, Seq<char>), v: Option<Seq<Seq<char>>>) -> bool {
    match v {
        Some(x) => cfg.contains_key(k) && cfg[k] == x,
        None => !cfg.contains_key(k),
    }
}

/// `a` and `b` agree on `k`.
pub open spec fn agrees(a: GitConfig, b: GitConfig, k: (Seq<char>, Seq<char>)) -> bool {
    a.contains_key(k) == b.contains_key(k) && (a.contains_key(k) ==> a[k] == b[k])
}

pub open spec fn no_dot(f: Seq<char>) -> bool {
    forall|i: int| 0 <= i < f.len() ==> f[i] != '.'
}

/// Keys of hooks whose names hold no `.` are told apart by name and field.
proof fn lemma_hook_key_injective(f1: Seq<char>, a: Seq<char>, f2: Seq<char>, b: Seq<char>)
    requires
        no_dot(f1),
        no_dot(f2),
        hook_key(f1, a) == hook_key(f2, b),
    ensures
        f1 == f2,
        a == b,
{
    reveal_strlit("hook.");
    reveal_strlit(".");
    let k = hook_key(f1, a);
    assert(k =~= "hook."@ + f1 + "."@ + a);
    assert(k =~= "hook."@ + f2 + "."@ + b);
    if f1.len() < f2.len() {
        assert(k[5 + f1.len() as int] == '.');
        assert(k[5 + f1.len() as int] == f2[f1.len() as int]);
    } else if f2.len() < f1.len() {
        assert(k[5 + f2.len() as int] == '.');
        assert(k[5 + f2.len() as int] == f1[f2.len() as int]);
    } else {
        assert(f1 =~= k.subrange(5, 5 + f1.len() as int));
        assert(f2 =~= k.subrange(5, 5 + f2.len() as int));
        assert(a =~= k.skip(6 + f1.len() as int));
        assert(b =~= k.skip(6 + f2.len() as int));
    }
}

/// The three keys of one hook differ from one another.
proof fn lemma_fields_distinct(f: Seq<char>)
    ensures
        hook_key(f, "event"@) != hook_key(f, "command"@),
        hook_key(f, "event"@) != hook_key(f, "enabled"@),
        hook_key(f, "command"@) != hook_key(f, "enabled"@),
{
    reveal_strlit("event");
    reveal_strlit("command");
    reveal_strlit("enabled");
    reveal_strlit("hook.");
    reveal_strlit(".");
    let c = hook_key(f, "command"@);
    let n = hook_key(f, "enabled"@);
    assert(c.len() == n.len());
    assert(c[c.len() - 7] == 'c');
    assert(n[n.len() - 7] == 'e');
}

/// The configuration after one hook's setup edits.
proof fn lemma_install_one(c: GitConfig, h: (Seq<char>, Seq<char>), binary: Seq<char>, platform: Platform)
    ensures
        ({
            let g = "--global"@;
            apply_edits(c, install_edits(h, binary, platform)) == c.remove((g, hook_key(h.0, "event"@)))
                .remove((g, hook_key(h.0, "command"@))).remove((g, hook_key(h.0, "enabled"@))).insert(
                (g, hook_key(h.0, "event"@)),
                seq![h.1],
            ).insert((g, hook_key(h.0, "command"@)), seq![hook_command(binary, platform, h.1)]).insert(
                (g, hook_key(h.0, "enabled"@)),
                seq!["true"@],
            )
        }),
{
    reveal_with_fuel(apply_edits, 7);
    let es = install_edits(h, binary, platform);
    assert(es.drop_last().drop_last().drop_last().drop_last().drop_last().drop_last() =~= Seq::<
        EditView,
    >::empty());
}

/// What one hook's edits `es`, started from `c`, leave at `k`: the value
/// `tk` names, or what `c` had when `tk` is `None`.
pub open spec fn effect_ok(
    c: GitConfig,
    es: Seq<EditView>,
    tk: Option<Option<Seq<Seq<char>>>>,
    k: (Seq<char>, Seq<char>),
) -> bool {
    match tk {
        Some(v) => holds(apply_edits(c, es), k, v),
        None => agrees(apply_edits(c, es), c, k),
    }
}

proof fn lemma_fold(
    cfg: GitConfig,
    hs: Seq<(Seq<char>, Seq<char>)>,
    f: spec_fn((Seq<char>, Seq<char>)) -> Seq<EditView>,
    t: spec_fn((Seq<char>, Seq<char>), (Seq<char>, Seq<char>)) -> Option<Option<Seq<Seq<char>>>>,
)
    requires
        forall|c: GitConfig, i: int, k: (Seq<char>, Seq<char>)|
            0 <= i < hs.len() ==> #[trigger] effect_ok(c, f(hs[i]), t(hs[i], k), k),
        forall|i: int, j: int, k: (Seq<char>, Seq<char>)|
            0 <= i < j < hs.len() && (#[trigger] t(hs[i], k)) is Some ==> (#[trigger] t(hs[j], k)) is None,
    ensures
        forall|i: int, k: (Seq<char>, Seq<char>)|
            0 <= i < hs.len() && (#[trigger] t(hs[i], k)) is Some ==> holds(
                apply_edits(cfg, all_edits(hs, f)),
                k,
                t(hs[i], k)->Some_0,
            ),
        forall|k: (Seq<char>, Seq<char>)|
            (forall|i: int| 0 <= i < hs.len() ==> (#[trigger] t(hs[i], k)) is None) ==> agrees(
                apply_edits(cfg, all_edits(hs, f)),
                cfg,
                k,
            ),
    decreases hs.len(),
{
    if hs.len() == 0 {
        assert(all_edits(hs, f) =~= Seq::<EditView>::empty());
    } else {
        let d = hs.drop_last();
        let h = hs.last();
        assert forall|c: GitConfig, i: int, k: (Seq<char>, Seq<char>)|
            0 <= i < d.len() implies #[trigger] effect_ok(c, f(d[i]), t(d[i], k), k) by {
            assert(d[i] == hs[i]);
            assert(effect_ok(c, f(hs[i]), t(hs[i], k), k));
        }
        assert forall|i: int, j: int, k: (Seq<char>, Seq<char>)|
            0 <= i < j < d.len() && (#[trigger] t(d[i], k)) is Some implies (#[trigger] t(
                d[j],
                k,
            )) is None by {
            assert(d[i] == hs[i] && d[j] == hs[j]);
        }
        lemma_fold(cfg, d, f, t);
        let prev = apply_edits(cfg, all_edits(d, f));
        lemma_apply_concat(cfg, all_edits(d, f), f(h));
        let r = apply_edits(cfg, all_edits(hs, f));
        assert(r == apply_edits(prev, f(h)));
        assert(h == hs[hs.len() - 1]);
        assert forall|i: int, k: (Seq<char>, Seq<char>)|
            0 <= i < hs.len() && (#[trigger] t(hs[i], k)) is Some implies holds(
                r,
                k,
                t(hs[i], k)->Some_0,
            ) by {
            assert(effect_ok(prev, f(hs[hs.len() - 1]), t(hs[hs.len() - 1], k), k));
            if i < hs.len() - 1 {
                assert(d[i] == hs[i]);
                assert(t(hs[hs.len() - 1], k) is None);
            }
        }
        assert forall|k: (Seq<char>, Seq<char>)|
            (forall|i: int| 0 <= i < hs.len() ==> (#[trigger] t(hs[i], k)) is None) implies agrees(
                r,
                cfg,
                k,
            ) by {
            assert(effect_ok(prev, f(hs[hs.len() - 1]), t(hs[hs.len() - 1], k), k));
            assert(t(hs[hs.len() - 1], k) is None);
            assert forall|i: int| 0 <= i < d.len() implies (#[trigger] t(d[i], k)) is None by {
                assert(d[i] == hs[i]);
                assert(t(hs[i], k) is None);
            }
            assert(agrees(prev, cfg, k));
            assert(agrees(r, prev, k));
        }
    }
}

/// The hooks' names are told apart and hold no `.`.
proof fn lemma_hook_names()
    ensures
        forall|i: int| 0 <= i < 6 ==> no_dot(#[trigger] hook_specs()[i].0),
        forall|i: int, j: int| 0 <= i < j < 6 ==> (#[trigger] hook_specs()[i]).0 != (#[trigger] hook_specs()[j]).0,
        forall|i: int| 0 <= i < 6 ==> starts_with(#[trigger] hook_specs()[i].0, "gitsama-"@),
{
    reveal_strlit("gitsama-post-commit");
    reveal_strlit("gitsama-pre-push");
    reveal_strlit("gitsama-post-merge");
    reveal_strlit("gitsama-post-checkout");
    reveal_strlit("gitsama-reference-transaction");
    reveal_strlit("gitsama-post-rewrite");
    lemma_one_hook_per_native_event();
    let hs = hook_specs();
    assert(hs[0].0.len() == 19 && hs[1].0.len() == 16 && hs[2].0.len() == 18);
    assert(hs[3].0.len() == 21 && hs[4].0.len() == 29 && hs[5].0.len() == 20);
}

/// Where the hooks' keys live, and which keys of one hook fall on `k`.
pub open spec fn hook_target(
    scope: Seq<char>,
    h: (Seq<char>, Seq<char>),
    k: (Seq<char>, Seq<char>),
    event: Option<Option<Seq<Seq<char>>>>,
    command: Option<Option<Seq<Seq<char>>>>,
    enabled: Option<Option<Seq<Seq<char>>>>,
) -> Option<Option<Seq<Seq<char>>>> {
    if event is Some && k == (scope, hook_key(h.0, "event"@)) {
        event
    } else if command is Some && k == (scope, hook_key(h.0, "command"@)) {
        command
    } else if enabled is Some && k == (scope, hook_key(h.0, "enabled"@)) {
        enabled
    } else {
        None
    }
}

/// What setup leaves at `k` for hook `h`: its event, its command and
/// `enabled = true`, each as the only value.
pub open spec fn install_target(
    h: (Seq<char>, Seq<char>),
    binary: Seq<char>,
    platform: Platform,
    k: (Seq<char>, Seq<char>),
) -> Option<Option<Seq<Seq<char>>>> {
    hook_target(
        "--global"@,
        h,
        k,
        Some(Some(seq![h.1])),
        Some(Some(seq![hook_command(binary, platform, h.1)])),
        Some(Some(seq!["true"@])),
    )
}

/// A target of a GitSama hook is a key of GitSama's own, in its scope.
proof fn lemma_target_key(
    scope: Seq<char>,
    h: (Seq<char>, Seq<char>),
    k: (Seq<char>, Seq<char>),
    a: Option<Option<Seq<Seq<char>>>>,
    b: Option<Option<Seq<Seq<char>>>>,
    c: Option<Option<Seq<Seq<char>>>>,
)
    requires
        starts_with(h.0, "gitsama-"@),
        hook_target(scope, h, k, a, b, c) is Some,
    ensures
        k.0 == scope,
        starts_with(k.1, "hook.gitsama-"@),
{
    crate::hooks::lemma_hook_key_prefix(h.0, "event"@);
    crate::hooks::lemma_hook_key_prefix(h.0, "command"@);
    crate::hooks::lemma_hook_key_prefix(h.0, "enabled"@);
}

/// Two hooks with different names never aim at the same key.
proof fn lemma_targets_disjoint(
    scope: Seq<char>,
    h1: (Seq<char>, Seq<char>),
    h2: (Seq<char>, Seq<char>),
    k: (Seq<char>, Seq<char>),
    a1: Option<Option<Seq<Seq<char>>>>,
    b1: Option<Option<Seq<Seq<char>>>>,
    c1: Option<Option<Seq<Seq<char>>>>,
    a2: Option<Option<Seq<Seq<char>>>>,
    b2: Option<Option<Seq<Seq<char>>>>,
    c2: Option<Option<Seq<Seq<char>>>>,
)
    requires
        no_dot(h1.0),
        no_dot(h2.0),
        h1.0 != h2.0,
        hook_target(scope, h1, k, a1, b1, c1) is Some,
    ensures
        hook_target(scope, h2, k, a2, b2, c2) is None,
{
    let fs = seq!["event"@, "command"@, "enabled"@];
    assert forall|x: int, y: int| 0 <= x < 3 && 0 <= y < 3 implies hook_key(h1.0, fs[x]) != hook_key(
        h2.0,
        fs[y],
    ) by {
        if hook_key(h1.0, fs[x]) == hook_key(h2.0, fs[y]) {
            lemma_hook_key_injective(h1.0, fs[x], h2.0, fs[y]);
        }
    }
    assert(hook_key(h1.0, "event"@) == hook_key(h1.0, fs[0]));
    assert(hook_key(h1.0, "command"@) == hook_key(h1.0, fs[1]));
    assert(hook_key(h1.0, "enabled"@) == hook_key(h1.0, fs[2]));
    assert(hook_key(h2.0, "event"@) == hook_key(h2.0, fs[0]));
    assert(hook_key(h2.0, "command"@) == hook_key(h2.0, fs[1]));
    assert(hook_key(h2.0, "enabled"@) == hook_key(h2.0, fs[2]));
}

proof fn lemma_install_effect(
    c: GitConfig,
    h: (Seq<char>, Seq<char>),
    binary: Seq<char>,
    platform: Platform,
    k: (Seq<char>, Seq<char>),
)
    ensures
        effect_ok(c, install_edits(h, binary, platform), install_target(h, binary, platform, k), k),
{
    lemma_install_one(c, h, binary, platform);
    lemma_fields_distinct(h.0);
}

/// The scope and key of GitSama's own hook entries in `scope`.
pub open spec fn gitsama_key(scope: Seq<char>, k: (Seq<char>, Seq<char>)) -> bool {
    k.0 == scope && starts_with(k.1, "hook.gitsama-"@)
}

/// `k` is one of the `event`, `command` or `enabled` keys of a GitSama hook
/// in `scope`.
pub open spec fn hook_entry(scope: Seq<char>, k: (Seq<char>, Seq<char>)) -> bool {
    exists|i: int|
        0 <= i < 6 && {
            let f = (#[trigger] hook_specs()[i]).0;
            ||| k == (scope, hook_key(f, "event"@))
            ||| k == (scope, hook_key(f, "command"@))
            ||| k == (scope, hook_key(f, "enabled"@))
        }
}

/// Running setup's edits leaves, for each hook, its native event as the only
/// value of `hook.<name>.event`, the quoted command as the only value of
/// `hook.<name>.command`, and `true` as `hook.<name>.enabled`, all global.
/// Every other key, in any scope, is as it was: `core.hooksPath`, other
/// hooks, and any other `hook.gitsama-*` key among them. Running the edits
/// again changes nothing.
pub proof fn lemma_setup_config(g0: GitConfig, binary: Seq<char>, platform: Platform)
    ensures
        ({
            let r = apply_edits(
                g0,
                all_edits(hook_specs(), |h: (Seq<char>, Seq<char>)| install_edits(h, binary, platform)),
            );
            &&& forall|i: int|
                0 <= i < 6 ==> {
                    let h = #[trigger] hook_specs()[i];
                    let g = "--global"@;
                    &&& holds(r, (g, hook_key(h.0, "event"@)), Some(seq![h.1]))
                    &&& holds(
                        r,
                        (g, hook_key(h.0, "command"@)),
                        Some(seq![hook_command(binary, platform, h.1)]),
                    )
                    &&& holds(r, (g, hook_key(h.0, "enabled"@)), Some(seq!["true"@]))
                }
            &&& forall|k: (Seq<char>, Seq<char>)| !gitsama_key("--global"@, k) ==> agrees(r, g0, k)
            &&& forall|k: (Seq<char>, Seq<char>)| !hook_entry("--global"@, k) ==> agrees(r, g0, k)
            &&& apply_edits(
                r,
                all_edits(hook_specs(), |h: (Seq<char>, Seq<char>)| install_edits(h, binary, platform)),
            ) == r
        }),
{
    let hs = hook_specs();
    let f = |h: (Seq<char>, Seq<char>)| install_edits(h, binary, platform);
    let t = |h: (Seq<char>, Seq<char>), k: (Seq<char>, Seq<char>)| install_target(h, binary, platform, k);
    lemma_hook_names();
    assert forall|c: GitConfig, i: int, k: (Seq<char>, Seq<char>)|
        0 <= i < hs.len() implies #[trigger] effect_ok(c, f(hs[i]), t(hs[i], k), k) by {
        lemma_install_effect(c, hs[i], binary, platform, k);
    }
    assert forall|i: int, j: int, k: (Seq<char>, Seq<char>)|
        0 <= i < j < hs.len() && (#[trigger] t(hs[i], k)) is Some implies (#[trigger] t(hs[j], k)) is None by {
        lemma_targets_disjoint(
            "--global"@,
            hs[i],
            hs[j],
            k,
            Some(Some(seq![hs[i].1])),
            Some(Some(seq![hook_command(binary, platform, hs[i].1)])),
            Some(Some(seq!["true"@])),
            Some(Some(seq![hs[j].1])),
            Some(Some(seq![hook_command(binary, platform, hs[j].1)])),
            Some(Some(seq!["true"@])),
        );
    }
    lemma_fold(g0, hs, f, t);
    let r = apply_edits(g0, all_edits(hs, f));
    lemma_fold(r, hs, f, t);
    let r2 = apply_edits(r, all_edits(hs, f));
    assert forall|i: int| 0 <= i < 6 implies {
        let h = #[trigger] hook_specs()[i];
        let g = "--global"@;
        &&& holds(r, (g, hook_key(h.0, "event"@)), Some(seq![h.1]))
        &&& holds(r, (g, hook_key(h.0, "command"@)), Some(seq![hook_command(binary, platform, h.1)]))
        &&& holds(r, (g, hook_key(h.0, "enabled"@)), Some(seq!["true"@]))
    } by {
        let h = hs[i];
        let g = "--global"@;
        lemma_fields_distinct(h.0);
        assert(t(hs[i], (g, hook_key(h.0, "event"@))) is Some);
        assert(t(hs[i], (g, hook_key(h.0, "command"@))) is Some);
        assert(t(hs[i], (g, hook_key(h.0, "enabled"@))) is Some);
    }
    assert forall|k: (Seq<char>, Seq<char>)| !gitsama_key("--global"@, k) implies agrees(r, g0, k) by {
        assert forall|i: int| 0 <= i < hs.len() implies (#[trigger] t(hs[i], k)) is None by {
            if t(hs[i], k) is Some {
                lemma_target_key(
                    "--global"@,
                    hs[i],
                    k,
                    Some(Some(seq![hs[i].1])),
                    Some(Some(seq![hook_command(binary, platform, hs[i].1)])),
                    Some(Some(seq!["true"@])),
                );
            }
        }
    }
    assert forall|k: (Seq<char>, Seq<char>)| !hook_entry("--global"@, k) implies agrees(r, g0, k) by {
        assert forall|i: int| 0 <= i < hs.len() implies (#[trigger] t(hs[i], k)) is None by {
            if t(hs[i], k) is Some {
                assert(hook_specs()[i] == hs[i]);
            }
        }
    }
    assert forall|k: (Seq<char>, Seq<char>)| agrees(r2, r, k) by {
        if exists|i: int| 0 <= i < hs.len() && (#[trigger] t(hs[i], k)) is Some {
            let i = choose|i: int| 0 <= i < hs.len() && (#[trigger] t(hs[i], k)) is Some;
            assert(holds(r2, k, t(hs[i], k)->Some_0));
            assert(holds(r, k, t(hs[i], k)->Some_0));
        } else {
            assert forall|i: int| 0 <= i < hs.len() implies (#[trigger] t(hs[i], k)) is None by {}
        }
    }
    lemma_same_config(r2, r);
}

/// Configurations that agree on every key are equal.
proof fn lemma_same_config(a: GitConfig, b: GitConfig)
    requires
        forall|k: (Seq<char>, Seq<char>)| agrees(a, b, k),
    ensures
        a == b,
{
    assert forall|k: (Seq<char>, Seq<char>)| a.dom().contains(k) == b.dom().contains(k) by {
        assert(agrees(a, b, k));
    }
    assert(a.dom() =~= b.dom());
    assert forall|k: (Seq<char>, Seq<char>)| a.dom().contains(k) implies a[k] == b[k] by {
        assert(agrees(a, b, k));
    }
    assert(a =~= b);
}

/// What running one operation's edits over all hooks leaves: the keys the
/// hooks aim at hold their values, keys outside GitSama's own in `scope`
/// are as they were, and a second run changes nothing.
proof fn lemma_hooks_op(
    g0: GitConfig,
    scope: Seq<char>,
    f: spec_fn((Seq<char>, Seq<char>)) -> Seq<EditView>,
    t: spec_fn((Seq<char>, Seq<char>), (Seq<char>, Seq<char>)) -> Option<Option<Seq<Seq<char>>>>,
)
    requires
        forall|c: GitConfig, i: int, k: (Seq<char>, Seq<char>)|
            0 <= i < 6 ==> #[trigger] effect_ok(c, f(hook_specs()[i]), t(hook_specs()[i], k), k),
        forall|i: int, j: int, k: (Seq<char>, Seq<char>)|
            0 <= i < j < 6 && (#[trigger] t(hook_specs()[i], k)) is Some ==> (#[trigger] t(
                hook_specs()[j],
                k,
            )) is None,
        forall|i: int, k: (Seq<char>, Seq<char>)|
            0 <= i < 6 && (#[trigger] t(hook_specs()[i], k)) is Some ==> gitsama_key(scope, k),
    ensures
        forall|i: int, k: (Seq<char>, Seq<char>)|
            0 <= i < 6 && (#[trigger] t(hook_specs()[i], k)) is Some ==> holds(
                apply_edits(g0, all_edits(hook_specs(), f)),
                k,
                t(hook_specs()[i], k)->Some_0,
            ),
        forall|k: (Seq<char>, Seq<char>)|
            !gitsama_key(scope, k) ==> agrees(apply_edits(g0, all_edits(hook_specs(), f)), g0, k),
        forall|k: (Seq<char>, Seq<char>)|
            (forall|i: int| 0 <= i < 6 ==> (#[trigger] t(hook_specs()[i], k)) is None) ==> agrees(
                apply_edits(g0, all_edits(hook_specs(), f)),
                g0,
                k,
            ),
        apply_edits(apply_edits(g0, all_edits(hook_specs(), f)), all_edits(hook_specs(), f))
            == apply_edits(g0, all_edits(hook_specs(), f)),
{
    let hs = hook_specs();
    lemma_fold(g0, hs, f, t);
    let r = apply_edits(g0, all_edits(hs, f));
    lemma_fold(r, hs, f, t);
    let r2 = apply_edits(r, all_edits(hs, f));
    assert forall|k: (Seq<char>, Seq<char>)| !gitsama_key(scope, k) implies agrees(r, g0, k) by {
        assert forall|i: int| 0 <= i < hs.len() implies (#[trigger] t(hs[i], k)) is None by {}
    }
    assert forall|k: (Seq<char>, Seq<char>)| agrees(r2, r, k) by {
        if exists|i: int| 0 <= i < hs.len() && (#[trigger] t(hs[i], k)) is Some {
            let i = choose|i: int| 0 <= i < hs.len() && (#[trigger] t(hs[i], k)) is Some;
            assert(holds(r2, k, t(hs[i], k)->Some_0));
            assert(holds(r, k, t(hs[i], k)->Some_0));
        } else {
            assert forall|i: int| 0 <= i < hs.len() implies (#[trigger] t(hs[i], k)) is None by {}
        }
    }
    lemma_same_config(r2, r);
}

/// What uninstall leaves at `k` for hook `h`: none of its global entries.
pub open spec fn remove_target(h: (Seq<char>, Seq<char>), k: (Seq<char>, Seq<char>)) -> Option<
    Option<Seq<Seq<char>>>,
> {
    hook_target("--global"@, h, k, Some(None), Some(None), Some(None))
}

/// Running uninstall's edits leaves no global `event`, `command` or
/// `enabled` entry of any GitSama hook, so none is registered. Every other
/// key, in any scope, is as it was: `core.hooksPath`, other hooks, and any
/// other `hook.gitsama-*` key among them. Running the edits again changes
/// nothing.
pub proof fn lemma_uninstall_config(g0: GitConfig)
    ensures
        ({
            let r = apply_edits(g0, all_edits(hook_specs(), |h: (Seq<char>, Seq<char>)| remove_edits(h)));
            &&& forall|i: int|
                0 <= i < 6 ==> {
                    let h = #[trigger] hook_specs()[i];
                    let g = "--global"@;
                    &&& !r.contains_key((g, hook_key(h.0, "event"@)))
                    &&& !r.contains_key((g, hook_key(h.0, "command"@)))
                    &&& !r.contains_key((g, hook_key(h.0, "enabled"@)))
                }
            &&& forall|k: (Seq<char>, Seq<char>)| !gitsama_key("--global"@, k) ==> agrees(r, g0, k)
            &&& forall|k: (Seq<char>, Seq<char>)| !hook_entry("--global"@, k) ==> agrees(r, g0, k)
            &&& apply_edits(r, all_edits(hook_specs(), |h: (Seq<char>, Seq<char>)| remove_edits(h))) == r
        }),
{
    let hs = hook_specs();
    let g = "--global"@;
    let f = |h: (Seq<char>, Seq<char>)| remove_edits(h);
    let t = |h: (Seq<char>, Seq<char>), k: (Seq<char>, Seq<char>)| remove_target(h, k);
    lemma_hook_names();
    assert forall|c: GitConfig, i: int, k: (Seq<char>, Seq<char>)|
        0 <= i < 6 implies #[trigger] effect_ok(c, f(hs[i]), t(hs[i], k), k) by {
        reveal_with_fuel(apply_edits, 4);
        let es = remove_edits(hs[i]);
        assert(es.drop_last().drop_last().drop_last() =~= Seq::<EditView>::empty());
        lemma_fields_distinct(hs[i].0);
    }
    assert forall|i: int, j: int, k: (Seq<char>, Seq<char>)|
        0 <= i < j < 6 && (#[trigger] t(hs[i], k)) is Some implies (#[trigger] t(hs[j], k)) is None by {
        lemma_targets_disjoint(g, hs[i], hs[j], k, Some(None), Some(None), Some(None), Some(None), Some(None), Some(None));
    }
    assert forall|i: int, k: (Seq<char>, Seq<char>)|
        0 <= i < 6 && (#[trigger] t(hs[i], k)) is Some implies gitsama_key(g, k) by {
        lemma_target_key(g, hs[i], k, Some(None), Some(None), Some(None));
    }
    lemma_hooks_op(g0, g, f, t);
    let r = apply_edits(g0, all_edits(hs, f));
    assert forall|k: (Seq<char>, Seq<char>)| !hook_entry(g, k) implies agrees(r, g0, k) by {
        assert forall|i: int| 0 <= i < 6 implies (#[trigger] t(hook_specs()[i], k)) is None by {
            if t(hook_specs()[i], k) is Some {
                assert(hook_specs()[i] == hs[i]);
            }
        }
    }
    assert forall|i: int| 0 <= i < 6 implies {
        let h = #[trigger] hook_specs()[i];
        &&& !r.contains_key((g, hook_key(h.0, "event"@)))
        &&& !r.contains_key((g, hook_key(h.0, "command"@)))
        &&& !r.contains_key((g, hook_key(h.0, "enabled"@)))
    } by {
        let h = hs[i];
        assert(t(hs[i], (g, hook_key(h.0, "event"@))) is Some);
        assert(t(hs[i], (g, hook_key(h.0, "command"@))) is Some);
        assert(t(hs[i], (g, hook_key(h.0, "enabled"@))) is Some);
    }
}

/// What `off-here` leaves at `k` for hook `h`: `enabled = false` locally.
pub open spec fn disable_target(h: (Seq<char>, Seq<char>), k: (Seq<char>, Seq<char>)) -> Option<
    Option<Seq<Seq<char>>>,
> {
    hook_target("--local"@, h, k, None, None, Some(Some(seq!["false"@])))
}

/// What `on-here` leaves at `k` for hook `h`: no local `enabled` entry.
pub open spec fn enable_target(h: (Seq<char>, Seq<char>), k: (Seq<char>, Seq<char>)) -> Option<
    Option<Seq<Seq<char>>>,
> {
    hook_target("--local"@, h, k, None, None, Some(None))
}

/// `off-here` sets every GitSama hook's local `enabled` to `false` and
/// nothing else: the global configuration and every other local key are as
/// they were.
pub proof fn lemma_off_here_config(g0: GitConfig)
    ensures
        ({
            let r = apply_edits(g0, all_edits(hook_specs(), |h: (Seq<char>, Seq<char>)| disable_edit(h)));
            &&& forall|i: int|
                0 <= i < 6 ==> holds(
                    r,
                    ("--local"@, hook_key((#[trigger] hook_specs()[i]).0, "enabled"@)),
                    Some(seq!["false"@]),
                )
            &&& forall|k: (Seq<char>, Seq<char>)| !gitsama_key("--local"@, k) ==> agrees(r, g0, k)
            &&& forall|k: (Seq<char>, Seq<char>)|
                (forall|i: int| 0 <= i < 6 ==> (#[trigger] disable_target(hook_specs()[i], k)) is None)
                    ==> agrees(r, g0, k)
        }),
{
    let hs = hook_specs();
    let l = "--local"@;
    let f = |h: (Seq<char>, Seq<char>)| disable_edit(h);
    let t = |h: (Seq<char>, Seq<char>), k: (Seq<char>, Seq<char>)| disable_target(h, k);
    lemma_hook_names();
    assert forall|c: GitConfig, i: int, k: (Seq<char>, Seq<char>)|
        0 <= i < 6 implies #[trigger] effect_ok(c, f(hs[i]), t(hs[i], k), k) by {
        reveal_with_fuel(apply_edits, 2);
        assert(disable_edit(hs[i]).drop_last() =~= Seq::<EditView>::empty());
    }
    assert forall|i: int, j: int, k: (Seq<char>, Seq<char>)|
        0 <= i < j < 6 && (#[trigger] t(hs[i], k)) is Some implies (#[trigger] t(hs[j], k)) is None by {
        lemma_targets_disjoint(l, hs[i], hs[j], k, None, None, Some(Some(seq!["false"@])), None, None, Some(Some(seq!["false"@])));
    }
    assert forall|i: int, k: (Seq<char>, Seq<char>)|
        0 <= i < 6 && (#[trigger] t(hs[i], k)) is Some implies gitsama_key(l, k) by {
        lemma_target_key(l, hs[i], k, None, None, Some(Some(seq!["false"@])));
    }
    lemma_hooks_op(g0, l, f, t);
    assert forall|i: int| 0 <= i < 6 implies holds(
        apply_edits(g0, all_edits(hs, f)),
        (l, hook_key((#[trigger] hook_specs()[i]).0, "enabled"@)),
        Some(seq!["false"@]),
    ) by {
        assert(t(hs[i], (l, hook_key(hs[i].0, "enabled"@))) is Some);
    }
}

/// `on-here` removes every GitSama hook's local `enabled` entry and nothing
/// else, so the repository follows the global setting again; running it again
/// changes nothing; and after `off-here` it gives back exactly the
/// configuration from before, when that had no such local entry.
pub proof fn lemma_on_here_config(g0: GitConfig)
    ensures
        ({
            let en = all_edits(hook_specs(), |h: (Seq<char>, Seq<char>)| enable_edit(h));
            let dis = all_edits(hook_specs(), |h: (Seq<char>, Seq<char>)| disable_edit(h));
            let r = apply_edits(g0, en);
            &&& forall|i: int|
                0 <= i < 6 ==> !r.contains_key(
                    ("--local"@, hook_key((#[trigger] hook_specs()[i]).0, "enabled"@)),
                )
            &&& forall|k: (Seq<char>, Seq<char>)| !gitsama_key("--local"@, k) ==> agrees(r, g0, k)
            &&& apply_edits(r, en) == r
            &&& (forall|i: int|
                0 <= i < 6 ==> !g0.contains_key(
                    ("--local"@, hook_key((#[trigger] hook_specs()[i]).0, "enabled"@)),
                )) ==> apply_edits(apply_edits(g0, dis), en) == g0
        }),
{
    let hs = hook_specs();
    let l = "--local"@;
    let f = |h: (Seq<char>, Seq<char>)| enable_edit(h);
    let t = |h: (Seq<char>, Seq<char>), k: (Seq<char>, Seq<char>)| enable_target(h, k);
    lemma_hook_names();
    assert forall|c: GitConfig, i: int, k: (Seq<char>, Seq<char>)|
        0 <= i < 6 implies #[trigger] effect_ok(c, f(hs[i]), t(hs[i], k), k) by {
        reveal_with_fuel(apply_edits, 2);
        assert(enable_edit(hs[i]).drop_last() =~= Seq::<EditView>::empty());
    }
    assert forall|i: int, j: int, k: (Seq<char>, Seq<char>)|
        0 <= i < j < 6 && (#[trigger] t(hs[i], k)) is Some implies (#[trigger] t(hs[j], k)) is None by {
        lemma_targets_disjoint(l, hs[i], hs[j], k, None, None, Some(None), None, None, Some(None));
    }
    assert forall|i: int, k: (Seq<char>, Seq<char>)|
        0 <= i < 6 && (#[trigger] t(hs[i], k)) is Some implies gitsama_key(l, k) by {
        lemma_target_key(l, hs[i], k, None, None, Some(None));
    }
    lemma_hooks_op(g0, l, f, t);
    let en = all_edits(hs, f);
    let r = apply_edits(g0, en);
    assert forall|i: int| 0 <= i < 6 implies !r.contains_key(
        (l, hook_key((#[trigger] hook_specs()[i]).0, "enabled"@)),
    ) by {
        assert(t(hs[i], (l, hook_key(hs[i].0, "enabled"@))) is Some);
    }
    let dis = all_edits(hs, |h: (Seq<char>, Seq<char>)| disable_edit(h));
    if forall|i: int|
        0 <= i < 6 ==> !g0.contains_key((l, hook_key((#[trigger] hook_specs()[i]).0, "enabled"@))) {
        let d = apply_edits(g0, dis);
        lemma_off_here_config(g0);
        lemma_hooks_op(d, l, f, t);
        let back = apply_edits(d, en);
        assert forall|k: (Seq<char>, Seq<char>)| agrees(back, g0, k) by {
            if gitsama_key(l, k) && exists|i: int| 0 <= i < 6 && (#[trigger] t(hs[i], k)) is Some {
                let i = choose|i: int| 0 <= i < 6 && (#[trigger] t(hs[i], k)) is Some;
                assert(k == (l, hook_key(hs[i].0, "enabled"@)));
                assert(!back.contains_key(k));
            } else if gitsama_key(l, k) {
                assert forall|i: int| 0 <= i < 6 implies (#[trigger] t(hs[i], k)) is None by {}
                lemma_fold(d, hs, f, t);
                assert(agrees(back, d, k));
                // `off-here` touches only the `enabled` keys.
                assert forall|i: int| 0 <= i < 6 implies (#[trigger] disable_target(hs[i], k)) is None by {
                    assert(t(hs[i], k) is None);
                }
                assert(agrees(d, g0, k));
            } else {
                assert(agrees(back, d, k));
                assert(agrees(d, g0, k));
            }
        }
        lemma_same_config(back, g0);
    }
}

} // verus!
