//! The deletion engine: per-entry decisions and the depth-ordered erase
//! schedule.
//!
//! The engine never touches the filesystem itself beyond the walk that feeds
//! it: it turns the walked entries into a [`Plan`] — one [`Action`] per entry
//! for the file phase, and depth-descending [`DepthGroup`]s for the directory
//! phase — which the caller then carries out with real filesystem calls.

use vstd::prelude::*;

verus! {

/// The attribute bit that marks a directory-shaped entry as a junction or
/// reparse point on platforms that have the concept.
pub const FILE_ATTRIBUTE_REPARSE_POINT: u32 = 0x0400;

/// One filesystem entry as the walk reports it: its path, its distance from
/// the walk root, and the bits of its metadata that the engine decides on.
///
/// `ok` is false when the entry could not be read at all (a traversal error,
/// or a failed metadata fetch); such an entry is skipped.  `attributes`
/// carries the platform attribute bits, and is zero on platforms that have
/// none, so a junction is never reported there.
#[derive(Debug)]
pub struct FsEntry {
    pub path: String,
    pub depth: usize,
    pub ok: bool,
    pub is_dir: bool,
    pub is_file: bool,
    pub is_symlink: bool,
    pub readonly: bool,
    pub attributes: u32,
}

/// What the walk phase does with one entry.
///
/// Every failure while carrying an action out is logged and non-fatal: no
/// single entry can abort the walk.
#[derive(Clone, Copy, Debug, PartialEq, Eq, Structural)]
pub enum Action {
    /// Nothing to do: the entry could not be read, is the root itself, or is
    /// of a kind the engine does not handle.
    Skip,
    /// A junction/reparse-point directory: remove it as a single unit with a
    /// non-recursive directory delete, never descend into it, never record it.
    RemoveJunction,
    /// A file or symbolic link: remove it now, clearing the read-only bit
    /// first when it is set.
    RemoveFile { clear_readonly: bool },
    /// A plain directory below the root: clear its read-only bit when set,
    /// and record it for the depth-ordered erase phase.
    RecordDir { clear_readonly: bool },
}

/// All recorded directories that share one depth, erased as one parallel
/// batch.
pub struct DepthGroup {
    pub depth: usize,
    pub dirs: Vec<String>,
}

/// The full erase schedule for one walk: one action per walked entry, in walk
/// order, followed by the directory groups, deepest first.
pub struct Plan {
    pub actions: Vec<(String, Action)>,
    pub dir_groups: Vec<DepthGroup>,
}

/// True when the attribute bits mark a junction/reparse point.
pub open spec fn has_reparse_attribute(attributes: u32) -> bool {
    attributes & FILE_ATTRIBUTE_REPARSE_POINT != 0
}

/// The action the walk phase owes one entry.
///
/// The order of the tests mirrors the engine's rules: an unreadable entry is
/// skipped; a directory carrying the reparse attribute is a junction; any
/// file or symbolic link is removed; any other directory is recorded for the
/// erase phase — except the root itself (depth zero), which is kept.
pub open spec fn action_for(e: FsEntry) -> Action {
    if !e.ok {
        Action::Skip
    } else if e.is_dir && has_reparse_attribute(e.attributes) {
        Action::RemoveJunction
    } else if e.is_file || e.is_symlink {
        Action::RemoveFile { clear_readonly: e.readonly }
    } else if e.is_dir {
        if e.depth == 0 {
            Action::Skip
        } else {
            Action::RecordDir { clear_readonly: e.readonly }
        }
    } else {
        Action::Skip
    }
}

/// True when the walk phase records this entry as a directory to erase.
pub open spec fn records_dir(e: FsEntry) -> bool {
    action_for(e) is RecordDir
}

/// True when the walk phase removes this entry as a file or symbolic link.
pub open spec fn removes_file(e: FsEntry) -> bool {
    action_for(e) is RemoveFile
}

/// True when the walk phase removes this entry as a junction.
pub open spec fn is_junction(e: FsEntry) -> bool {
    action_for(e) is RemoveJunction
}

/// The directory records that a walk over `es` accumulates, in walk order:
/// the path and depth of every entry whose action is `RecordDir`.
pub open spec fn records_of(es: Seq<FsEntry>) -> Seq<(String, usize)>
    decreases es.len(),
{
    if es.len() == 0 {
        Seq::empty()
    } else {
        let rest = records_of(es.drop_last());
        let e = es.last();
        if records_dir(e) {
            rest.push((e.path, e.depth))
        } else {
            rest
        }
    }
}

/// The paths of the records in `rs` whose depth is `d`, in their order in
/// `rs`.
pub open spec fn dirs_at_depth(rs: Seq<(String, usize)>, d: int) -> Seq<String>
    decreases rs.len(),
{
    if rs.len() == 0 {
        Seq::empty()
    } else {
        let rest = dirs_at_depth(rs.drop_last(), d);
        if rs.last().1 == d {
            rest.push(rs.last().0)
        } else {
            rest
        }
    }
}

/// True when some group of `gs` is the group for depth `d`.
pub open spec fn depth_covered(gs: Seq<DepthGroup>, d: usize) -> bool {
    exists|i: int| 0 <= i < gs.len() && #[trigger] gs[i].depth == d
}

/// What the erase schedule `gs` owes the directory records `rs`: one group
/// per depth that occurs in `rs`, holding exactly the paths recorded at that
/// depth, with the groups in strictly decreasing depth order.
pub open spec fn groups_exact(rs: Seq<(String, usize)>, gs: Seq<DepthGroup>) -> bool {
    &&& forall|i: int|
        0 <= i < gs.len() ==> #[trigger] gs[i].dirs@ == dirs_at_depth(rs, gs[i].depth as int)
    &&& forall|i: int| 0 <= i < gs.len() ==> #[trigger] gs[i].dirs@.len() > 0
    &&& forall|i: int, j: int|
        0 <= i < j < gs.len() ==> #[trigger] gs[i].depth > #[trigger] gs[j].depth
    &&& forall|k: int| 0 <= k < rs.len() ==> #[trigger] depth_covered(gs, rs[k].1)
}

/// What a [`Plan`] owes the walked entries `es`: one action per entry, in
/// walk order, each the action [`action_for`] owes it, and an erase schedule
/// that is exact for the records of the walk.
pub open spec fn plan_complete(es: Seq<FsEntry>, plan: Plan) -> bool {
    &&& plan.actions@.len() == es.len()
    &&& forall|i: int|
        0 <= i < es.len() ==> (#[trigger] plan.actions@[i]).0 == es[i].path
            && plan.actions@[i].1 == action_for(es[i])
    &&& groups_exact(records_of(es), plan.dir_groups@)
}

/// The thread budget for a walk: the logical CPU count, heavily
/// oversubscribed because the work is syscall-bound, capped only by the
/// machine word.
pub open spec fn spec_thread_budget(cpus: usize) -> usize {
    if cpus * 100 <= usize::MAX {
        (cpus * 100) as usize
    } else {
        usize::MAX
    }
}

/// Computes the walk's thread budget from a logical CPU count.
pub fn thread_budget(cpus: usize) -> (t: usize)
    ensures
        t == spec_thread_budget(cpus),
        cpus >= 1 ==> t >= 100,
{
    if cpus <= usize::MAX / 100 {
        cpus * 100
    } else {
        proof {
            assert(cpus * 100 > usize::MAX) by (nonlinear_arith)
                requires
                    cpus > usize::MAX / 100,
                    usize::MAX >= 100,
            ;
        }
        usize::MAX
    }
}

/// Relies on `num_cpus::get`: the number of available logical CPUs, which its
/// documentation promises is always at least 1.
#[verifier::external_body]
fn cpu_count() -> (n: usize)
    ensures
        n >= 1,
{
    num_cpus::get()
}

/// True when `attributes` carries the reparse-point bit, marking a
/// directory-shaped entry as a junction.
pub fn is_reparse_point(attributes: u32) -> (r: bool)
    ensures
        r == has_reparse_attribute(attributes),
{
    attributes & FILE_ATTRIBUTE_REPARSE_POINT != 0
}

/// Decides what the walk phase does with one entry.
pub fn classify(e: &FsEntry) -> (a: Action)
    ensures
        a == action_for(*e),
{
    if !e.ok {
        Action::Skip
    } else if e.is_dir && is_reparse_point(e.attributes) {
        Action::RemoveJunction
    } else if e.is_file || e.is_symlink {
        Action::RemoveFile { clear_readonly: e.readonly }
    } else if e.is_dir {
        if e.depth == 0 {
            Action::Skip
        } else {
            Action::RecordDir { clear_readonly: e.readonly }
        }
    } else {
        Action::Skip
    }
}

impl FsEntry {
    /// An entry whose metadata was read successfully.  On platforms without
    /// attribute bits the walk reports none, so `attributes` is zero.
    pub fn found(
        path: String,
        depth: usize,
        is_dir: bool,
        is_file: bool,
        is_symlink: bool,
        readonly: bool,
    ) -> (e: FsEntry)
        ensures
            e == (FsEntry {
                path,
                depth,
                ok: true,
                is_dir,
                is_file,
                is_symlink,
                readonly,
                attributes: 0u32,
            }),
            !has_reparse_attribute(e.attributes),
    {
        proof {
            assert(0u32 & 0x400u32 == 0u32) by (bit_vector);
        }
        FsEntry { path, depth, ok: true, is_dir, is_file, is_symlink, readonly, attributes: 0 }
    }

    /// An entry whose metadata could not be read: it is skipped, and the
    /// failure is non-fatal to the walk.
    pub fn unreadable(path: String, depth: usize) -> (e: FsEntry)
        ensures
            e == (FsEntry {
                path,
                depth,
                ok: false,
                is_dir: false,
                is_file: false,
                is_symlink: false,
                readonly: false,
                attributes: 0u32,
            }),
            !e.ok,
    {
        FsEntry {
            path,
            depth,
            ok: false,
            is_dir: false,
            is_file: false,
            is_symlink: false,
            readonly: false,
            attributes: 0,
        }
    }

    /// A traversal-level failure: the walk reported an error instead of an
    /// entry.  It is skipped like an unreadable entry.
    pub fn walk_failure() -> (e: FsEntry)
        ensures
            !e.ok,
            action_for(e) == Action::Skip,
    {
        FsEntry {
            path: String::new(),
            depth: 0,
            ok: false,
            is_dir: false,
            is_file: false,
            is_symlink: false,
            readonly: false,
            attributes: 0,
        }
    }
}

/// Relies on `jwalk::WalkDir`: walks every entry reachable from `path`
/// (hidden entries included) with a pool of `threads` workers, and reports
/// each as the bits of its metadata that the engine decides on.  What comes
/// back depends on what is on disk, so nothing is promised of the contents;
/// the engine is verified for every value.
#[verifier::external_body]
fn walk_entries(path: &String, threads: usize) -> (entries: Vec<FsEntry>) {
    let pool = jwalk::Parallelism::RayonNewPool(threads);
    let walk = jwalk::WalkDir::new(path).skip_hidden(false).parallelism(pool);
    walk.into_iter().map(|item| match item {
        Ok(e) => {
            let (p, d) = (e.path().to_string_lossy().into_owned(), e.depth());
            match e.metadata() {
                Ok(m) => FsEntry::found(p, d, m.is_dir(), m.is_file(), m.is_symlink(), m.permissions().readonly()),
                Err(_) => FsEntry::unreadable(p, d),
            }
        }
        Err(_) => FsEntry::walk_failure(),
    }).collect()
}

/// The deletion engine for one target path.
///
/// It is built per target, accumulates the directory records of the walk
/// phase in `dirs`, and is consumed by the erase phase.
pub struct Cleaner {
    pub path: String,
    pub dirs: Vec<(String, usize)>,
    pub threads: usize,
}

impl Cleaner {
    /// Forms a new `Cleaner`; nothing is walked or removed until
    /// [`Cleaner::clean`] is called.
    pub fn new(path: &str) -> (c: Cleaner)
        ensures
            c.path@ == path@,
            c.dirs@.len() == 0,
            c.threads >= 100,
            exists|n: usize| n >= 1 && c.threads == spec_thread_budget(n),
    {
        let cpus = cpu_count();
        let threads = thread_budget(cpus);
        proof {
            assert(cpus >= 1 && threads == spec_thread_budget(cpus));
        }
        Cleaner { path: path.to_owned(), dirs: Vec::new(), threads }
    }

    /// The walk phase over the entries the walk reported: one action per
    /// entry, in walk order, and every recorded directory accumulated in
    /// `self.dirs`, in walk order.
    pub fn remove_files(&mut self, entries: &Vec<FsEntry>) -> (actions: Vec<(String, Action)>)
        ensures
            actions@.len() == entries@.len(),
            forall|i: int|
                0 <= i < entries@.len() ==> (#[trigger] actions@[i]).0 == entries@[i].path
                    && actions@[i].1 == action_for(entries@[i]),
            final(self).dirs@ == records_of(entries@),
            final(self).path == old(self).path,
            final(self).threads == old(self).threads,
    {
        let mut actions: Vec<(String, Action)> = Vec::new();
        let mut recs: Vec<(String, usize)> = Vec::new();
        let mut i: usize = 0;
        while i < entries.len()
            invariant
                i <= entries@.len(),
                actions@.len() == i,
                forall|j: int|
                    0 <= j < i ==> (#[trigger] actions@[j]).0 == entries@[j].path
                        && actions@[j].1 == action_for(entries@[j]),
                recs@ == records_of(entries@.take(i as int)),
            decreases entries@.len() - i,
        {
            let e = &entries[i];
            let a = classify(e);
            if let Action::RecordDir { .. } = a {
                recs.push((e.path.clone(), e.depth));
            }
            actions.push((e.path.clone(), a));
            proof {
                assert(entries@.take(i + 1).drop_last() =~= entries@.take(i as int));
                assert(entries@.take(i + 1).last() == entries@[i as int]);
            }
            i += 1;
        }
        proof {
            assert(entries@.take(entries@.len() as int) =~= entries@);
        }
        self.dirs = recs;
        actions
    }
}

/// Every record is visible in the path sequence of its own depth: filtering
/// `rs` for the depth of its `k`-th record yields that record's path.
pub proof fn lemma_dirs_at_depth_contains(rs: Seq<(String, usize)>, k: int)
    requires
        0 <= k < rs.len(),
    ensures
        dirs_at_depth(rs, rs[k].1 as int).contains(rs[k].0),
    decreases rs.len(),
{
    if k == rs.len() - 1 {
        assert(dirs_at_depth(rs, rs[k].1 as int).last() == rs[k].0);
    } else {
        lemma_dirs_at_depth_contains(rs.drop_last(), k);
        let d = rs[k].1 as int;
        assert(rs.drop_last()[k] == rs[k]);
        let paths = dirs_at_depth(rs.drop_last(), d);
        let w = choose|w: int| 0 <= w < paths.len() && paths[w] == rs[k].0;
        assert(dirs_at_depth(rs, d)[w] == rs[k].0);
    }
}

impl Cleaner {
    /// The erase phase's schedule: the recorded directories, bucketed by
    /// depth from the deepest level down, one group per depth that occurs.
    ///
    /// Each group holds exactly the paths recorded at its depth, and the
    /// groups come in strictly decreasing depth order, so a group's
    /// directories can be removed concurrently once every earlier — deeper —
    /// group is done.
    pub fn remove_dirs(&self) -> (groups: Vec<DepthGroup>)
        ensures
            groups_exact(self.dirs@, groups@),
    {
        let rs = &self.dirs;
        let mut max_d: usize = 0;
        let mut k: usize = 0;
        while k < rs.len()
            invariant
                k <= rs@.len(),
                forall|j: int| 0 <= j < k ==> (#[trigger] rs@[j]).1 <= max_d,
            decreases rs@.len() - k,
        {
            if rs[k].1 > max_d {
                max_d = rs[k].1;
            }
            k += 1;
        }
        let mut groups: Vec<DepthGroup> = Vec::new();
        let mut d: usize = max_d;
        loop
            invariant_except_break
                d <= max_d,
                forall|i: int| 0 <= i < groups@.len() ==> (#[trigger] groups@[i]).depth > d,
                forall|j: int|
                    0 <= j < rs@.len() && rs@[j].1 > d ==> #[trigger] depth_covered(
                        groups@,
                        rs@[j].1,
                    ),
            invariant
                forall|j: int| 0 <= j < rs@.len() ==> (#[trigger] rs@[j]).1 <= max_d,
                forall|i: int|
                    0 <= i < groups@.len() ==> (#[trigger] groups@[i]).dirs@ == dirs_at_depth(
                        rs@,
                        groups@[i].depth as int,
                    ),
                forall|i: int| 0 <= i < groups@.len() ==> (#[trigger] groups@[i]).dirs@.len() > 0,
                forall|i: int, j: int|
                    0 <= i < j < groups@.len() ==> #[trigger] groups@[i].depth
                        > #[trigger] groups@[j].depth,
            ensures
                forall|i: int|
                    0 <= i < groups@.len() ==> (#[trigger] groups@[i]).dirs@ == dirs_at_depth(
                        rs@,
                        groups@[i].depth as int,
                    ),
                forall|i: int| 0 <= i < groups@.len() ==> (#[trigger] groups@[i]).dirs@.len() > 0,
                forall|i: int, j: int|
                    0 <= i < j < groups@.len() ==> #[trigger] groups@[i].depth
                        > #[trigger] groups@[j].depth,
                forall|j: int|
                    0 <= j < rs@.len() ==> #[trigger] depth_covered(groups@, rs@[j].1),
            decreases d,
        {
            let ghost groups_before = groups@;
            let mut paths: Vec<String> = Vec::new();
            let mut k: usize = 0;
            while k < rs.len()
                invariant
                    k <= rs@.len(),
                    paths@ == dirs_at_depth(rs@.take(k as int), d as int),
                decreases rs@.len() - k,
            {
                if rs[k].1 == d {
                    paths.push(rs[k].0.clone());
                }
                proof {
                    assert(rs@.take(k + 1).drop_last() =~= rs@.take(k as int));
                    assert(rs@.take(k + 1).last() == rs@[k as int]);
                }
                k += 1;
            }
            proof {
                assert(rs@.take(rs@.len() as int) =~= rs@);
            }
            if paths.len() > 0 {
                groups.push(DepthGroup { depth: d, dirs: paths });
            }
            proof {
                assert forall|j: int| 0 <= j < rs@.len() && rs@[j].1 >= d implies #[trigger]
                    depth_covered(groups@, rs@[j].1) by {
                    if rs@[j].1 == d {
                        lemma_dirs_at_depth_contains(rs@, j);
                        assert(groups@.last().depth == rs@[j].1);
                        assert(0 <= groups@.len() - 1 < groups@.len());
                    } else {
                        assert(depth_covered(groups_before, rs@[j].1));
                        let i = choose|i: int|
                            0 <= i < groups_before.len() && #[trigger] groups_before[i].depth
                                == rs@[j].1;
                        assert(groups@[i].depth == rs@[j].1);
                    }
                }
            }
            if d == 0 {
                break;
            }
            d -= 1;
        }
        groups
    }

    /// Runs both phases of the engine over the entries one walk reported:
    /// the walk phase, which settles one action per entry and accumulates the
    /// directory records, and the erase phase, which schedules the recorded
    /// directories deepest level first.
    ///
    /// The plan is exact for the given entries, whatever they are: no entry
    /// is lost, none is invented, and the engine never fails.
    pub fn plan_clean(&mut self, entries: &Vec<FsEntry>) -> (plan: Plan)
        ensures
            plan_complete(entries@, plan),
            final(self).dirs@ == records_of(entries@),
            final(self).path == old(self).path,
            final(self).threads == old(self).threads,
    {
        let actions = self.remove_files(entries);
        let dir_groups = self.remove_dirs();
        Plan { actions, dir_groups }
    }

    /// Performs the full walk-then-erase sequence for the target path: walks
    /// every reachable entry with the configured worker pool and turns the
    /// walk into an erase plan.
    ///
    /// What is on disk decides what the walk reports, so the entries cannot
    /// be pinned down here; the plan is exact for whatever the walk found,
    /// its groups lie strictly below the root, and they come in strictly
    /// decreasing depth order.
    pub fn clean(&mut self) -> (plan: Plan)
        ensures
            exists|es: Seq<FsEntry>|
                #[trigger] plan_complete(es, plan) && final(self).dirs@ == records_of(es),
            final(self).path == old(self).path,
            final(self).threads == old(self).threads,
            forall|i: int, j: int|
                0 <= i < j < plan.dir_groups@.len() ==> #[trigger] plan.dir_groups@[i].depth
                    > #[trigger] plan.dir_groups@[j].depth,
            forall|g: int|
                0 <= g < plan.dir_groups@.len() ==> (#[trigger] plan.dir_groups@[g]).depth >= 1,
    {
        let entries = walk_entries(&self.path, self.threads);
        let plan = self.plan_clean(&entries);
        proof {
            assert(plan_complete(entries@, plan) && self.dirs@ == records_of(entries@));
            lemma_root_survives(entries@, plan.dir_groups@);
        }
        plan
    }
}

/// Every directory record names the path sequence of its own depth: filtering
/// `rs` for some depth `d` yields a non-empty sequence only when a record at
/// `d` exists.
pub proof fn lemma_dirs_at_depth_witness(rs: Seq<(String, usize)>, d: int)
    requires
        dirs_at_depth(rs, d).len() > 0,
    ensures
        exists|k: int| 0 <= k < rs.len() && (#[trigger] rs[k]).1 == d,
    decreases rs.len(),
{
    if rs.len() == 0 {
    } else if rs.last().1 == d {
        assert((rs[rs.len() - 1]).1 == d);
    } else {
        lemma_dirs_at_depth_witness(rs.drop_last(), d);
        let k = choose|k: int| 0 <= k < rs.drop_last().len() && (#[trigger] rs.drop_last()[k]).1
            == d;
        assert((rs[k]).1 == d);
    }
}

/// Only plain directories are ever recorded: every directory record of a walk
/// comes from an entry whose action is `RecordDir` — a readable, non-junction
/// directory below the root.  In particular a junction never reaches the
/// erase phase, and neither does the root.
pub proof fn lemma_only_plain_dirs_recorded(es: Seq<FsEntry>, k: int)
    requires
        0 <= k < records_of(es).len(),
    ensures
        exists|i: int|
            0 <= i < es.len() && records_dir(#[trigger] es[i]) && records_of(es)[k] == (
                es[i].path,
                es[i].depth,
            ),
    decreases es.len(),
{
    let rs = records_of(es);
    let rest = records_of(es.drop_last());
    if k < rest.len() {
        lemma_only_plain_dirs_recorded(es.drop_last(), k);
        let i = choose|i: int|
            0 <= i < es.drop_last().len() && records_dir(#[trigger] es.drop_last()[i])
                && records_of(es.drop_last())[k] == (es.drop_last()[i].path, es.drop_last()[i].depth);
        assert(es.drop_last()[i] == es[i]);
        assert(records_dir(es[i]) && rs[k] == (es[i].path, es[i].depth));
    } else {
        assert(records_dir(es.last()));
        assert(es.last() == es[es.len() - 1]);
        assert(records_dir(es[es.len() - 1]) && rs[k] == (
            es[es.len() - 1].path,
            es[es.len() - 1].depth,
        ));
    }
}

/// Every entry that the walk records shows up among the directory records,
/// with its path and its depth.
pub proof fn lemma_records_of_contains(es: Seq<FsEntry>, i: int)
    requires
        0 <= i < es.len(),
        records_dir(es[i]),
    ensures
        records_of(es).contains((es[i].path, es[i].depth)),
    decreases es.len(),
{
    if i == es.len() - 1 {
        assert(records_of(es).last() == (es[i].path, es[i].depth));
    } else {
        lemma_records_of_contains(es.drop_last(), i);
        assert(es.drop_last()[i] == es[i]);
        let rest = records_of(es.drop_last());
        let w = choose|w: int| 0 <= w < rest.len() && rest[w] == (es[i].path, es[i].depth);
        assert(records_of(es)[w] == (es[i].path, es[i].depth));
    }
}

/// Every file or symbolic link the walk could read is scheduled for removal
/// during the walk phase, clearing its read-only bit exactly when it is set:
/// a read-only file needs no preparation by the caller.
pub proof fn lemma_every_file_removed(es: Seq<FsEntry>, plan: Plan, i: int)
    requires
        plan_complete(es, plan),
        0 <= i < es.len(),
        removes_file(es[i]),
    ensures
        plan.actions@[i].0 == es[i].path,
        plan.actions@[i].1 == (Action::RemoveFile { clear_readonly: es[i].readonly }),
{
}

/// A junction is scheduled as one single non-recursive directory removal, and
/// nothing below it is owed anything: the walk neither records it for the
/// erase phase (see [`lemma_only_plain_dirs_recorded`]) nor removes it as a
/// file.
pub proof fn lemma_junction_single_unit(es: Seq<FsEntry>, plan: Plan, i: int)
    requires
        plan_complete(es, plan),
        0 <= i < es.len(),
        is_junction(es[i]),
    ensures
        plan.actions@[i].0 == es[i].path,
        plan.actions@[i].1 == Action::RemoveJunction,
        !records_dir(es[i]),
{
}

/// Every recorded directory is erased: it stands in the group of its own
/// depth in the erase schedule.
pub proof fn lemma_every_recorded_dir_erased(es: Seq<FsEntry>, plan: Plan, i: int)
    requires
        plan_complete(es, plan),
        0 <= i < es.len(),
        records_dir(es[i]),
    ensures
        exists|g: int|
            0 <= g < plan.dir_groups@.len() && (#[trigger] plan.dir_groups@[g]).depth
                == es[i].depth && plan.dir_groups@[g].dirs@.contains(es[i].path),
{
    let rs = records_of(es);
    let gs = plan.dir_groups@;
    lemma_records_of_contains(es, i);
    let k = choose|k: int| 0 <= k < rs.len() && rs[k] == (es[i].path, es[i].depth);
    assert(depth_covered(gs, rs[k].1));
    let g = choose|g: int| 0 <= g < gs.len() && #[trigger] gs[g].depth == rs[k].1;
    lemma_dirs_at_depth_contains(rs, k);
    assert(gs[g].dirs@ == dirs_at_depth(rs, rs[k].1 as int));
    assert(gs[g].depth == es[i].depth && gs[g].dirs@.contains(es[i].path));
}

/// The root itself is never erased: every group of an exact erase schedule
/// for a walk lies strictly below the root.
pub proof fn lemma_root_survives(es: Seq<FsEntry>, gs: Seq<DepthGroup>)
    requires
        groups_exact(records_of(es), gs),
    ensures
        forall|g: int| 0 <= g < gs.len() ==> (#[trigger] gs[g]).depth >= 1,
{
    let rs = records_of(es);
    assert forall|g: int| 0 <= g < gs.len() implies (#[trigger] gs[g]).depth >= 1 by {
        assert(gs[g].dirs@ == dirs_at_depth(rs, gs[g].depth as int));
        assert(gs[g].dirs@.len() > 0);
        lemma_dirs_at_depth_witness(rs, gs[g].depth as int);
        let k = choose|k: int| 0 <= k < rs.len() && (#[trigger] rs[k]).1 == gs[g].depth as int;
        lemma_only_plain_dirs_recorded(es, k);
        let i = choose|i: int|
            0 <= i < es.len() && records_dir(#[trigger] es[i]) && records_of(es)[k] == (
                es[i].path,
                es[i].depth,
            );
        assert(es[i].depth != 0);
    }
}

/// Depth-safety of the erase schedule: the deeper of two groups always comes
/// first, so no directory's removal can begin until every strictly deeper
/// directory's removal is scheduled before it.
pub proof fn lemma_deeper_groups_first(
    rs: Seq<(String, usize)>,
    gs: Seq<DepthGroup>,
    gi: int,
    gj: int,
)
    requires
        groups_exact(rs, gs),
        0 <= gi < gs.len(),
        0 <= gj < gs.len(),
        gs[gi].depth > gs[gj].depth,
    ensures
        gi < gj,
{
    if gi > gj {
        assert(gs[gj].depth > gs[gi].depth);
    }
}

/// Depth-safety over the records of a walk: a recorded directory strictly
/// deeper than another is erased in a strictly earlier group.
pub proof fn lemma_depth_safety(es: Seq<FsEntry>, plan: Plan, i: int, j: int)
    requires
        plan_complete(es, plan),
        0 <= i < es.len(),
        0 <= j < es.len(),
        records_dir(es[i]),
        records_dir(es[j]),
        es[i].depth > es[j].depth,
    ensures
        exists|gi: int, gj: int|
            0 <= gi < gj < plan.dir_groups@.len() && (#[trigger] plan.dir_groups@[gi]).dirs@.contains(
                es[i].path,
            ) && (#[trigger] plan.dir_groups@[gj]).dirs@.contains(es[j].path),
{
    let gs = plan.dir_groups@;
    lemma_every_recorded_dir_erased(es, plan, i);
    lemma_every_recorded_dir_erased(es, plan, j);
    let gi = choose|g: int|
        0 <= g < gs.len() && (#[trigger] gs[g]).depth == es[i].depth && gs[g].dirs@.contains(
            es[i].path,
        );
    let gj = choose|g: int|
        0 <= g < gs.len() && (#[trigger] gs[g]).depth == es[j].depth && gs[g].dirs@.contains(
            es[j].path,
        );
    lemma_deeper_groups_first(records_of(es), gs, gi, gj);
    assert(0 <= gi < gj < gs.len() && gs[gi].dirs@.contains(es[i].path) && gs[gj].dirs@.contains(
        es[j].path,
    ));
}

/// Idempotence of a fully successful clean: over a walk of plain, readable
/// entries — files, symbolic links and ordinary directories, junction-free —
/// every entry below the root is scheduled for removal, files and links in
/// the walk phase and directories in the group of their own depth, while the
/// root itself is skipped and stands in no group: a complete clean leaves
/// exactly the empty root behind.
pub proof fn lemma_plain_tree_fully_cleaned(es: Seq<FsEntry>, plan: Plan, i: int)
    requires
        plan_complete(es, plan),
        0 <= i < es.len(),
        es[i].ok,
        !has_reparse_attribute(es[i].attributes),
        es[i].is_file || es[i].is_symlink || es[i].is_dir,
    ensures
        es[i].is_file || es[i].is_symlink ==> plan.actions@[i].1 == (Action::RemoveFile {
            clear_readonly: es[i].readonly,
        }),
        !(es[i].is_file || es[i].is_symlink) && es[i].depth >= 1 ==> exists|g: int|
            0 <= g < plan.dir_groups@.len() && (#[trigger] plan.dir_groups@[g]).depth
                == es[i].depth && plan.dir_groups@[g].dirs@.contains(es[i].path),
        !(es[i].is_file || es[i].is_symlink) && es[i].depth == 0 ==> plan.actions@[i].1
            == Action::Skip && (forall|g: int|
            0 <= g < plan.dir_groups@.len() ==> (#[trigger] plan.dir_groups@[g]).depth >= 1),
{
    if es[i].is_file || es[i].is_symlink {
        lemma_every_file_removed(es, plan, i);
    } else if es[i].depth >= 1 {
        lemma_every_recorded_dir_erased(es, plan, i);
    } else {
        lemma_root_survives(es, plan.dir_groups@);
    }
}

/// The directory records of one group: each path paired with the group's
/// depth.
pub open spec fn group_records(g: DepthGroup) -> Seq<(String, usize)> {
    g.dirs@.map_values(|p: String| (p, g.depth))
}

/// The erase phase's removal sequence: every group's directories, in
/// schedule order.
pub open spec fn erase_sequence(gs: Seq<DepthGroup>) -> Seq<(String, usize)>
    decreases gs.len(),
{
    if gs.len() == 0 {
        Seq::empty()
    } else {
        group_records(gs.first()) + erase_sequence(gs.drop_first())
    }
}

proof fn lemma_erase_sequence_bound(gs: Seq<DepthGroup>, bound: usize)
    requires
        forall|i: int| 0 <= i < gs.len() ==> (#[trigger] gs[i]).depth <= bound,
    ensures
        forall|a: int|
            0 <= a < erase_sequence(gs).len() ==> (#[trigger] erase_sequence(gs)[a]).1 <= bound,
    decreases gs.len(),
{
    if gs.len() > 0 {
        assert(forall|i: int|
            0 <= i < gs.drop_first().len() ==> (#[trigger] gs.drop_first()[i]).depth <= bound);
        lemma_erase_sequence_bound(gs.drop_first(), bound);
        let head = group_records(gs.first());
        assert forall|a: int| 0 <= a < erase_sequence(gs).len() implies (
        #[trigger] erase_sequence(gs)[a]).1 <= bound by {
            if a < head.len() {
                assert(erase_sequence(gs)[a].1 == gs[0].depth);
            } else {
                assert(erase_sequence(gs)[a] == erase_sequence(gs.drop_first())[a - head.len()]);
            }
        }
    }
}

/// Depth-safety across the whole removal sequence: with the groups in
/// strictly decreasing depth order — as every schedule of this engine is —
/// the depths seen along the erase phase's removal sequence never increase,
/// so no directory's removal is scheduled before every strictly deeper
/// directory's removal.
pub proof fn lemma_erase_sequence_monotone(gs: Seq<DepthGroup>, a: int, b: int)
    requires
        forall|i: int, j: int|
            0 <= i < j < gs.len() ==> #[trigger] gs[i].depth > #[trigger] gs[j].depth,
        0 <= a < b < erase_sequence(gs).len(),
    ensures
        erase_sequence(gs)[a].1 >= erase_sequence(gs)[b].1,
    decreases gs.len(),
{
    let head = group_records(gs.first());
    let rest = erase_sequence(gs.drop_first());
    if b < head.len() {
        assert(erase_sequence(gs)[a].1 == gs[0].depth && erase_sequence(gs)[b].1 == gs[0].depth);
    } else if a < head.len() {
        assert(erase_sequence(gs)[a].1 == gs[0].depth);
        assert(erase_sequence(gs)[b] == rest[b - head.len()]);
        assert(gs.len() >= 2);
        assert(forall|i: int|
            0 <= i < gs.drop_first().len() ==> (#[trigger] gs.drop_first()[i]).depth
                <= gs[1].depth);
        lemma_erase_sequence_bound(gs.drop_first(), gs[1].depth);
        assert(rest[b - head.len()].1 <= gs[1].depth);
        assert(gs[0].depth > gs[1].depth);
    } else {
        assert(forall|i: int, j: int|
            0 <= i < j < gs.drop_first().len() ==> #[trigger] gs.drop_first()[i].depth
                > #[trigger] gs.drop_first()[j].depth);
        lemma_erase_sequence_monotone(gs.drop_first(), a - head.len(), b - head.len());
        assert(erase_sequence(gs)[a] == rest[a - head.len()]);
        assert(erase_sequence(gs)[b] == rest[b - head.len()]);
    }
}

/// Non-fatal error isolation: an entry that cannot be read or removed changes
/// nothing for any other entry — every other entry of the walk keeps exactly
/// the action it would have had.
pub proof fn lemma_failure_isolation(
    es1: Seq<FsEntry>,
    es2: Seq<FsEntry>,
    p1: Plan,
    p2: Plan,
    k: int,
)
    requires
        plan_complete(es1, p1),
        plan_complete(es2, p2),
        es1.len() == es2.len(),
        forall|j: int| 0 <= j < es1.len() && j != k ==> es1[j] == es2[j],
    ensures
        forall|j: int|
            0 <= j < es1.len() && j != k ==> (#[trigger] p1.actions@[j]).0 == p2.actions@[j].0
                && p1.actions@[j].1 == p2.actions@[j].1,
{
}

} // verus!
