//! Reading `pre-push` input and deciding whether a push is a massive push.
//!
//! Counting outgoing commits runs `git rev-list` once per pushed branch. The
//! caller runs Git; [`PushCounter`] decides which runs to make, counts the
//! distinct commits they list and says when the answer is known.
use vstd::prelude::*;

use crate::error::Error;
use crate::events::EventKind;
use crate::git::{is_zero_oid, zero_oid};
use crate::text::{
    append_str, chars_of, concat, decimal, lines, lines_of, owned, push_decimal, starts_with,
    str_starts_with, string_of, trim, trim_chars, trimmed_lines, trimmed_lines_of, views, words,
    words_of,
};

verus! {

/// One line of `pre-push` input: what is pushed and where it goes.
#[derive(Clone, Debug)]
pub struct PushRef {
    pub local_ref: String,
    pub local_object_id: String,
    pub remote_ref: String,
    pub remote_object_id: String,
}

/// The four fields of a [`PushRef`].
pub type PushRefView = (Seq<char>, Seq<char>, Seq<char>, Seq<char>);

impl View for PushRef {
    type V = PushRefView;

    open spec fn view(&self) -> PushRefView {
        (self.local_ref@, self.local_object_id@, self.remote_ref@, self.remote_object_id@)
    }
}

pub open spec fn ref_deleted(r: PushRefView) -> bool {
    zero_oid(r.1)
}

pub open spec fn ref_is_branch(r: PushRefView) -> bool {
    starts_with(r.0, "refs/heads/"@)
}

impl PushRef {
    /// The push deletes the remote ref.
    pub fn is_deleted(&self) -> (r: bool)
        ensures
            r == ref_deleted(self@),
    {
        is_zero_oid(self.local_object_id.as_str())
    }

    /// The pushed ref is a local branch.
    pub fn is_branch(&self) -> (r: bool)
        ensures
            r == ref_is_branch(self@),
    {
        str_starts_with(self.local_ref.as_str(), "refs/heads/")
    }
}

#[derive(Clone, Copy, Debug, PartialEq, Eq, Structural)]
pub struct PushClassification {
    pub event: EventKind,
    pub commit_count: u64,
}

pub open spec fn field_count_message(n: nat) -> Seq<char> {
    "pre-push ref line should have four fields, got "@ + decimal(n)
}

/// A line is read as a ref when it has exactly four whitespace-separated fields.
pub open spec fn line_ref(line: Seq<char>) -> Option<PushRefView> {
    let w = words(line);
    if w.len() == 4 {
        Some((w[0], w[1], w[2], w[3]))
    } else {
        None
    }
}

/// Reads one `pre-push` line: `<local ref> <local oid> <remote ref> <remote oid>`.
pub fn parse_line(line: &str) -> (r: Result<PushRef, Error>)
    ensures
        line_ref(line@) matches Some(v) ==> (r matches Ok(p) && p@ == v),
        line_ref(line@) is None ==> (r matches Err(Error::Message(m)) && m@ == field_count_message(
            words(line@).len(),
        )),
{
    let parts = words_of(line);
    if parts.len() != 4 {
        let mut m = owned("pre-push ref line should have four fields, got ");
        push_decimal(&mut m, parts.len() as u128);
        return Err(Error::Message(m));
    }
    Ok(
        PushRef {
            local_ref: string_of(&parts[0]),
            local_object_id: string_of(&parts[1]),
            remote_ref: string_of(&parts[2]),
            remote_object_id: string_of(&parts[3]),
        },
    )
}

/// The lines that are not blank.
pub open spec fn nonblank(ls: Seq<Seq<char>>) -> Seq<Seq<char>>
    decreases ls.len(),
{
    if ls.len() == 0 {
        seq![]
    } else if trim(ls.last()).len() > 0 {
        nonblank(ls.drop_last()).push(ls.last())
    } else {
        nonblank(ls.drop_last())
    }
}

/// The refs of the given lines, or the field count of the first line that
/// is not a ref.
pub open spec fn read_refs(ls: Seq<Seq<char>>) -> Result<Seq<PushRefView>, nat>
    decreases ls.len(),
{
    if ls.len() == 0 {
        Ok(seq![])
    } else {
        match read_refs(ls.drop_last()) {
            Err(n) => Err(n),
            Ok(refs) => match line_ref(ls.last()) {
                Some(v) => Ok(refs.push(v)),
                None => Err(words(ls.last()).len()),
            },
        }
    }
}

/// What `pre-push` input reads as: its non-blank lines, each a ref.
pub open spec fn stdin_refs(text: Seq<char>) -> Result<Seq<PushRefView>, nat> {
    read_refs(nonblank(lines(text)))
}

/// Reads all of the `pre-push` input; a blank line is skipped and the first
/// line that is not a ref is the error.
pub fn parse_stdin(text: &str) -> (r: Result<Vec<PushRef>, Error>)
    ensures
        stdin_refs(text@) matches Ok(v) ==> (r matches Ok(refs) && ref_views(refs@) == v),
        stdin_refs(text@) matches Err(n) ==> (r matches Err(Error::Message(m)) && m@
            == field_count_message(n)),
{
    let ls = lines_of(text);
    let ghost spec_ls = lines(text@);
    let mut refs: Vec<PushRef> = Vec::new();
    assert(ref_views(refs@) =~= Seq::<PushRefView>::empty());
    assert(nonblank(spec_ls.take(0)) =~= Seq::<Seq<char>>::empty());
    let mut i: usize = 0;
    while i < ls.len()
        invariant
            i <= ls.len(),
            ls@.len() == spec_ls.len(),
            spec_ls == lines(text@),
            forall|k: int| 0 <= k < ls@.len() ==> #[trigger] ls@[k]@ == spec_ls[k],
            read_refs(nonblank(spec_ls.take(i as int))) is Ok,
            read_refs(nonblank(spec_ls.take(i as int)))->Ok_0 == ref_views(refs@),
        decreases ls.len() - i,
    {
        let ghost before = refs@;
        assert(spec_ls.take(i + 1).drop_last() =~= spec_ls.take(i as int));

        assert(spec_ls.take(i + 1).last() == ls@[i as int]@);
        let line = string_of(&ls[i]);
        let t = trim_chars(&ls[i]);
        let ghost nb_i = nonblank(spec_ls.take(i as int));
        let ghost nb_next = nonblank(spec_ls.take(i + 1));
        if t.len() > 0 {
            assert(nb_next == nb_i.push(spec_ls[i as int]));
            assert(nb_next.drop_last() =~= nb_i);
            assert(nb_next.last() == line@);
            let p = parse_line(line.as_str());
            match p {
                Ok(p) => {
                    refs.push(p);
                    assert(ref_views(refs@) =~= ref_views(before).push(p@));
                },
                Err(e) => {
                    proof {
                        assert(read_refs(nb_next) == Err::<Seq<PushRefView>, nat>(
                            words(line@).len(),
                        ));
                        lemma_read_refs_error_persists(nonblank(spec_ls), i as int + 1, spec_ls);
                    }
                    return Err(e);
                },
            }
        } else {
            assert(nb_next == nb_i);
        }
        i = i + 1;
    }
    assert(spec_ls.take(ls.len() as int) =~= spec_ls);
    Ok(refs)
}

/// The refs read from a prefix of the non-blank lines that ends in an error
/// are the refs read from all of them.
proof fn lemma_read_refs_error_persists(nb: Seq<Seq<char>>, i: int, ls: Seq<Seq<char>>)
    requires
        nb == nonblank(ls),
        0 <= i <= ls.len(),
        read_refs(nonblank(ls.take(i))) is Err,
    ensures
        read_refs(nb) == read_refs(nonblank(ls.take(i))),
    decreases ls.len() - i,
{
    if i < ls.len() {
        assert(ls.take(i + 1).drop_last() =~= ls.take(i));
        let nb1 = nonblank(ls.take(i + 1));
        if trim(ls[i]).len() > 0 {
            assert(nb1.drop_last() == nonblank(ls.take(i)));
        }
        lemma_read_refs_error_persists(nb, i + 1, ls);
    } else {
        assert(ls.take(i) =~= ls);
    }
}

/// `massive_push` when the count reaches the threshold, `push` below it.
pub open spec fn classification_of(commit_count: u64, threshold: u32) -> PushClassification {
    PushClassification {
        event: if commit_count >= threshold {
            EventKind::MassivePush
        } else {
            EventKind::Push
        },
        commit_count,
    }
}

pub fn classify_count(commit_count: u64, threshold: u32) -> (r: PushClassification)
    ensures
        r == classification_of(commit_count, threshold),
{
    PushClassification {
        event: if commit_count >= threshold as u64 {
            EventKind::MassivePush
        } else {
            EventKind::Push
        },
        commit_count,
    }
}

/// A ref whose commits are counted: a branch that the push does not delete.
pub open spec fn counted(r: PushRefView) -> bool {
    ref_is_branch(r) && !ref_deleted(r)
}

/// The first index at or after `from` of a counted ref, or the length.
pub open spec fn next_counted(refs: Seq<PushRefView>, from: int) -> int
    decreases refs.len() - from,
{
    if from >= refs.len() {
        refs.len() as int
    } else if counted(refs[from]) {
        from
    } else {
        next_counted(refs, from + 1)
    }
}

pub proof fn lemma_next_counted_bounds(refs: Seq<PushRefView>, from: int)
    requires
        0 <= from,
    ensures
        from <= next_counted(refs, from) || (from > refs.len() && next_counted(refs, from)
            == refs.len()),
        next_counted(refs, from) <= refs.len(),
        next_counted(refs, from) < refs.len() ==> counted(refs[next_counted(refs, from)]),
        forall|k: int| from <= k < next_counted(refs, from) ==> !counted(#[trigger] refs[k]),
    decreases refs.len() - from,
{
    if from < refs.len() && !counted(refs[from]) {
        lemma_next_counted_bounds(refs, from + 1);
    }
}

/// The arguments of the `git rev-list` run that lists the commits a ref
/// pushes: those not on the remote ref, or, for a new remote ref, not on any
/// of `exclusions`.
pub open spec fn rev_list_args(r: PushRefView, exclusions: Seq<Seq<char>>) -> Seq<Seq<char>> {
    let base = seq!["rev-list"@, r.1];
    if zero_oid(r.3) {
        if exclusions.len() > 0 {
            base.push("--not"@) + exclusions
        } else {
            base
        }
    } else {
        base.push("--not"@).push(r.3)
    }
}

/// Exactly the refs that push a branch tip are counted: a local ref under
/// `refs/heads/` whose local object id is not the zero id. Tags, other refs
/// and deletions are skipped, and the next run goes to the first such ref.
pub proof fn lemma_counted_refs(refs: Seq<PushRefView>, from: int)
    requires
        0 <= from <= refs.len(),
    ensures
        forall|r: PushRefView|
            #[trigger] counted(r) == (starts_with(r.0, "refs/heads/"@) && !zero_oid(r.1)),
        ({
            let i = next_counted(refs, from);
            &&& from <= i <= refs.len()
            &&& i < refs.len() ==> starts_with(refs[i].0, "refs/heads/"@) && !zero_oid(refs[i].1)
            &&& forall|k: int|
                from <= k < i ==> !(starts_with((#[trigger] refs[k]).0, "refs/heads/"@)
                    && !zero_oid(refs[k].1))
        }),
{
    lemma_next_counted_bounds(refs, from);
}

/// The `git rev-list` run for a pushed ref always lists the pushed tip and
/// excludes only what is already on the other side: the remote object id of
/// an existing remote ref, or, for a new remote ref, the given exclusions.
/// With no exclusions a new remote ref excludes nothing, so every commit of
/// the pushed tip is listed; and the pushed tip itself is never excluded
/// unless it already is the remote id or one of the exclusions.
pub proof fn lemma_rev_list_lists_the_tip(r: PushRefView, exclusions: Seq<Seq<char>>)
    ensures
        ({
            let a = rev_list_args(r, exclusions);
            &&& a.len() >= 2 && a[0] == "rev-list"@ && a[1] == r.1
            &&& (a.len() == 2) == (zero_oid(r.3) && exclusions.len() == 0)
            &&& zero_oid(r.3) && exclusions.len() == 0 ==> a == seq!["rev-list"@, r.1]
            &&& a.len() > 2 ==> a[2] == "--not"@
            &&& !zero_oid(r.3) ==> a.len() == 4 && a[3] == r.3
            &&& zero_oid(r.3) && exclusions.len() > 0 ==> a.skip(3) == exclusions
            &&& forall|i: int|
                3 <= i < a.len() ==> (#[trigger] a[i] == r.3 || exclusions.contains(a[i]))
            &&& forall|i: int|
                3 <= i < a.len() && a[i] == r.1 ==> (r.1 == r.3 || exclusions.contains(r.1))
        }),
{
    let a = rev_list_args(r, exclusions);
    if zero_oid(r.3) && exclusions.len() > 0 {
        assert(a.skip(3) =~= exclusions);
        assert forall|i: int| 3 <= i < a.len() implies (#[trigger] a[i] == r.3 || exclusions.contains(a[i])) by {
            assert(a[i] == exclusions[i - 3]);
        }
    }
}

/// The refs of `refs`, viewed.
pub open spec fn ref_views(refs: Seq<PushRef>) -> Seq<PushRefView> {
    refs.map_values(|p: PushRef| p@)
}

/// Counts the distinct commits that a push sends, one `git rev-list` run at a
/// time, and stops as soon as the threshold is reached.
pub struct PushCounter {
    refs: Vec<PushRef>,
    threshold: u32,
    next: usize,
    seen: Vec<String>,
}

impl PushCounter {
    pub closed spec fn refs(self) -> Seq<PushRefView> {
        ref_views(self.refs@)
    }

    pub closed spec fn threshold(self) -> u32 {
        self.threshold
    }

    /// How many refs have been handed out or skipped.
    pub closed spec fn position(self) -> int {
        self.next as int
    }

    /// The distinct commit ids seen so far.
    pub closed spec fn commits(self) -> Set<Seq<char>> {
        views(self.seen@).to_set()
    }

    pub closed spec fn wf(self) -> bool {
        &&& self.threshold >= 1
        &&& self.next <= self.refs@.len()
        &&& views(self.seen@).no_duplicates()
    }

    /// The number of distinct commits seen so far.
    pub open spec fn count(self) -> nat {
        self.commits().len()
    }

    proof fn lemma_count(self)
        requires
            self.wf(),
        ensures
            self.count() == self.seen@.len(),
            self.commits().finite(),
    {
        views(self.seen@).unique_seq_to_set();
    }

    /// The number of distinct commits seen so far.
    pub fn commit_count(&self) -> (n: u64)
        requires
            self.wf(),
        ensures
            n == self.count(),
    {
        proof {
            self.lemma_count();
        }
        self.seen.len() as u64
    }

    /// The next `git rev-list` run to make, for the next counted ref; `None`
    /// when every ref has been counted.
    pub fn next_rev_list(&mut self, exclusions: &Vec<String>) -> (r: Option<Vec<String>>)
        requires
            old(self).wf(),
        ensures
            final(self).wf(),
            final(self).refs() == old(self).refs(),
            final(self).threshold() == old(self).threshold(),
            final(self).commits() == old(self).commits(),
            ({
                let i = next_counted(old(self).refs(), old(self).position());
                &&& i < old(self).refs().len() ==> (r matches Some(args) && views(args@)
                    == rev_list_args(old(self).refs()[i], views(exclusions@))
                    && final(self).position() == i + 1)
                &&& i >= old(self).refs().len() ==> (r is None && final(self).position()
                    == old(self).refs().len())
            }),
    {
        proof {
            lemma_next_counted_bounds(self.refs(), self.next as int);
        }
        while self.next < self.refs.len()
            invariant
                self.wf(),
                self.refs == old(self).refs,
                self.threshold == old(self).threshold,
                self.seen == old(self).seen,
                old(self).next <= self.next,
                next_counted(self.refs(), self.next as int) == next_counted(
                    old(self).refs(),
                    old(self).next as int,
                ),
            decreases self.refs.len() - self.next,
        {
            let i = self.next;
            let push_ref = &self.refs[i];
            assert(self.refs()[i as int] == push_ref@);
            if push_ref.is_branch() && !push_ref.is_deleted() {
                let args = rev_list_args_of(push_ref, exclusions);
                self.next = i + 1;
                return Some(args);
            }
            self.next = i + 1;
        }
        None
    }

    /// Takes one line that `git rev-list` printed; returns whether counting
    /// should go on (the threshold is not reached yet).
    pub fn observe(&mut self, line: &str) -> (go_on: bool)
        requires
            old(self).wf(),
        ensures
            final(self).wf(),
            final(self).refs() == old(self).refs(),
            final(self).threshold() == old(self).threshold(),
            final(self).position() == old(self).position(),
            trim(line@).len() > 0 ==> final(self).commits() == old(self).commits().insert(
                trim(line@),
            ),
            trim(line@).len() == 0 ==> final(self).commits() == old(self).commits(),
            go_on == (final(self).count() < final(self).threshold()),
    {
        let t = trim_chars(&chars_of(line));
        if t.len() > 0 {
            let id = string_of(&t);
            let mut found = false;
            let mut k: usize = 0;
            while k < self.seen.len()
                invariant
                    k <= self.seen@.len(),
                    found <==> exists|j: int| 0 <= j < k && self.seen@[j]@ == id@,
                decreases self.seen.len() - k,
            {
                if self.seen[k] == id {
                    found = true;
                }
                k = k + 1;
            }
            let ghost before = views(self.seen@);
            if !found {
                self.seen.push(id);
                assert(views(self.seen@) =~= before.push(t@));
                proof {
                    before.lemma_push_to_set_commute(t@);
                    assert forall|a: int, b: int|
                        0 <= a < b < views(self.seen@).len() implies views(self.seen@)[a]
                        != views(self.seen@)[b] by {
                        if b == views(self.seen@).len() - 1 {
                            assert(self.seen@[a]@ == views(self.seen@)[a]);
                        }
                    }
                    before.unique_seq_to_set();
                    assert(views(self.seen@).to_set() =~= before.to_set().insert(t@));
                }
            } else if found {
                proof {
                    let j = choose|j: int| 0 <= j < self.seen@.len() && self.seen@[j]@ == id@;
                    assert(before[j] == t@);
                    assert(before.contains(t@));
                    assert(before.to_set().insert(t@) =~= before.to_set());
                }
            }
        }
        proof {
            self.lemma_count();
        }
        self.seen.len() < self.threshold as usize
    }

    /// The classification, as soon as the threshold is reached.
    pub fn reached(&self) -> (r: Option<PushClassification>)
        requires
            self.wf(),
        ensures
            self.count() >= self.threshold() ==> r == Some(
                PushClassification { event: EventKind::MassivePush, commit_count: self.count() as u64 },
            ),
            self.count() < self.threshold() ==> r is None,
    {
        let n = self.commit_count();
        if n >= self.threshold as u64 {
            Some(PushClassification { event: EventKind::MassivePush, commit_count: n })
        } else {
            None
        }
    }

    /// The classification once every counted ref has been listed.
    pub fn finish(&self) -> (r: PushClassification)
        requires
            self.wf(),
        ensures
            r == classification_of(self.count() as u64, self.threshold()),
    {
        classify_count(self.commit_count(), self.threshold)
    }
}

fn rev_list_args_of(push_ref: &PushRef, exclusions: &Vec<String>) -> (r: Vec<String>)
    ensures
        views(r@) == rev_list_args(push_ref@, views(exclusions@)),
{
    let mut args: Vec<String> = Vec::new();
    args.push(owned("rev-list"));
    args.push(push_ref.local_object_id.clone());
    if is_zero_oid(push_ref.remote_object_id.as_str()) {
        if exclusions.len() > 0 {
            args.push(owned("--not"));
            let mut k: usize = 0;
            let ghost base = views(args@);
            while k < exclusions.len()
                invariant
                    k <= exclusions.len(),
                    views(args@) == base + views(exclusions@).take(k as int),
                decreases exclusions.len() - k,
            {
                let ghost prev = views(args@);
                args.push(exclusions[k].clone());
                assert(views(args@) =~= prev.push(exclusions@[k as int]@));
                assert(views(exclusions@).take(k + 1) =~= views(exclusions@).take(k as int).push(
                    exclusions@[k as int]@,
                ));
                assert(views(args@) =~= base + views(exclusions@).take(k + 1));
                k = k + 1;
            }
            assert(views(exclusions@).take(exclusions.len() as int) =~= views(exclusions@));
        }
    } else {
        args.push(owned("--not"));
        args.push(push_ref.remote_object_id.clone());
    }
    assert(views(args@) =~= rev_list_args(push_ref@, views(exclusions@)));
    args
}

/// Starts counting the commits of a push; the threshold must be at least 1.
pub fn classify(refs: Vec<PushRef>, threshold: u32) -> (r: Result<PushCounter, Error>)
    ensures
        threshold == 0 ==> (r matches Err(Error::Message(m)) && m@
            == "push threshold must be at least 1"@),
        threshold >= 1 ==> (r matches Ok(c) && c.wf() && c.refs() == ref_views(refs@)
            && c.threshold() == threshold && c.position() == 0 && c.commits().len() == 0),
{
    if threshold == 0 {
        return Err(Error::message("push threshold must be at least 1"));
    }
    let c = PushCounter { refs, threshold, next: 0, seen: Vec::new() };
    proof {
        assert(views(c.seen@) =~= Seq::<Seq<char>>::empty());
        c.lemma_count();
    }
    Ok(c)
}

/// The arguments of the run that lists the remote's tracking-branch tips.
pub fn remote_tracking_args(remote_name: &str) -> (r: Vec<String>)
    ensures
        views(r@) == seq![
            "for-each-ref"@,
            "--format=%(objectname)"@,
            "refs/remotes/"@ + remote_name@,
        ],
{
    let mut r: Vec<String> = Vec::new();
    r.push(owned("for-each-ref"));
    r.push(owned("--format=%(objectname)"));
    r.push(concat("refs/remotes/", remote_name));
    assert(views(r@) =~= seq![
        "for-each-ref"@,
        "--format=%(objectname)"@,
        "refs/remotes/"@ + remote_name@,
    ]);
    r
}

/// The arguments of the run that lists the local branch tips.
pub fn local_branch_args() -> (r: Vec<String>)
    ensures
        views(r@) == seq!["for-each-ref"@, "--format=%(objectname)"@, "refs/heads/"@],
{
    let mut r: Vec<String> = Vec::new();
    r.push(owned("for-each-ref"));
    r.push(owned("--format=%(objectname)"));
    r.push(owned("refs/heads/"));
    assert(views(r@) =~= seq!["for-each-ref"@, "--format=%(objectname)"@, "refs/heads/"@]);
    r
}

/// The remote's tracking-branch tips, from what the listing run printed.
pub fn remote_tracking_tips(output: &str) -> (r: Vec<String>)
    ensures
        views(r@) == trimmed_lines(output@),
{
    trimmed_lines_of(output)
}

/// The ids of `ls` that are none of `pushed`.
pub open spec fn not_pushed(ls: Seq<Seq<char>>, pushed: Seq<PushRefView>) -> Seq<Seq<char>>
    decreases ls.len(),
{
    if ls.len() == 0 {
        seq![]
    } else if exists|k: int| 0 <= k < pushed.len() && pushed[k].1 == ls.last() {
        not_pushed(ls.drop_last(), pushed)
    } else {
        not_pushed(ls.drop_last(), pushed).push(ls.last())
    }
}

/// The local branch tips that none of the pushed refs sends, from what the
/// listing run printed.
pub fn local_branch_tips(output: &str, pushed_refs: &Vec<PushRef>) -> (r: Vec<String>)
    ensures
        views(r@) == not_pushed(trimmed_lines(output@), ref_views(pushed_refs@)),
{
    let tips = trimmed_lines_of(output);
    let ghost tv = views(tips@);
    let ghost pv = ref_views(pushed_refs@);
    let mut r: Vec<String> = Vec::new();
    let mut i: usize = 0;
    while i < tips.len()
        invariant
            i <= tips.len(),
            tv == views(tips@),
            pv == ref_views(pushed_refs@),
            views(r@) == not_pushed(tv.take(i as int), pv),
        decreases tips.len() - i,
    {
        assert(tv.take(i + 1).drop_last() =~= tv.take(i as int));
        assert(tv.take(i + 1).last() == tips@[i as int]@);
        let mut pushed = false;
        let mut k: usize = 0;
        while k < pushed_refs.len()
            invariant
                k <= pushed_refs.len(),
                i < tips.len(),
                pv == ref_views(pushed_refs@),
                pushed <==> exists|j: int| 0 <= j < k && pv[j].1 == tips@[i as int]@,
            decreases pushed_refs.len() - k,
        {
            assert(pv[k as int] == pushed_refs@[k as int]@);
            if pushed_refs[k].local_object_id == tips[i] {
                pushed = true;
            }
            k = k + 1;
        }
        if !pushed {
            let ghost before = views(r@);
            r.push(tips[i].clone());
            assert(views(r@) =~= before.push(tips@[i as int]@));
        }
        i = i + 1;
    }
    assert(tv.take(tips.len() as int) =~= tv);
    r
}

} // verus!
