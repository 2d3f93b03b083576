//! Rename planner: the full source-to-target mapping for a batch of entries,
//! with monotonic `_N` suffixes that keep targets from colliding. The suffix
//! goes before the final extension.
//!
//! Paths are held as a parent and a file name, both as bytes. The planner
//! reads no file system: the caller lists the entries and the names that
//! already exist beside them.

use vstd::prelude::*;

use crate::error::DetoxError;
use crate::filter::copy_range;
use crate::filter::max_length::{last_index_of, rposition};
use crate::lossy::{lossy_bytes, lossy_bytes_of};
use crate::sequence::Sequence;

verus! {

/// A path as its parent directory and its file name, both as bytes.
#[derive(Debug, Clone, PartialEq, Eq)]
pub struct NamedPath {
    /// The parent directory (empty for a bare name).
    pub parent: Vec<u8>,
    /// The file name.
    pub name: Vec<u8>,
}

/// One entry of a recursive directory walk: its path, and whether it is a
/// directory (otherwise a regular file or a symbolic link).
#[derive(Debug, Clone)]
pub struct WalkEntry {
    /// The entry's path.
    pub path: NamedPath,
    /// `true` for a directory.
    pub is_dir: bool,
}

/// The mathematical form of a [`NamedPath`]: (parent, name).
pub type PathView = (Seq<u8>, Seq<u8>);

impl View for NamedPath {
    type V = PathView;

    open spec fn view(&self) -> PathView {
        (self.parent@, self.name@)
    }
}

/// The bytes of `name` joined onto `parent` as std's `Path::join` does on
/// Unix: an absolute name replaces the parent; otherwise a `/` goes between
/// them unless the parent is empty or already ends with one.
pub open spec fn joined(p: PathView) -> Seq<u8> {
    let (parent, name) = p;
    if name.len() > 0 && name[0] == 0x2f {
        name
    } else if parent.len() == 0 {
        name
    } else if parent.last() == 0x2f {
        parent + name
    } else {
        parent.push(0x2f) + name
    }
}

/// The set of paths that `paths` holds.
pub open spec fn path_set(paths: Seq<NamedPath>) -> Set<PathView> {
    Set::new(|p: PathView| exists|i: int| 0 <= i < paths.len() && paths[i]@ == p)
}

/// Decimal digits of `n`, most significant first.
pub open spec fn decimal(n: nat) -> Seq<u8>
    decreases n,
{
    if n < 10 {
        seq![(0x30 + n) as u8]
    } else {
        decimal(n / 10).push((0x30 + n % 10) as u8)
    }
}

/// `name` split at its last `.` into stem and extension; a name without a
/// `.`, or whose only `.` leads, has no extension.
pub open spec fn split_ext(name: Seq<u8>) -> (Seq<u8>, Option<Seq<u8>>) {
    match last_index_of(name, 0x2e) {
        Some(d) => if d == 0 {
            (name, None)
        } else {
            (name.take(d), Some(name.skip(d + 1)))
        },
        None => (name, None),
    }
}

/// `name` split after its last `/`: the leading directories (empty when
/// there is no `/`) and the last component.
pub open spec fn split_dir(name: Seq<u8>) -> (Seq<u8>, Seq<u8>) {
    match last_index_of(name, 0x2f) {
        Some(k) => (name.take(k + 1), name.skip(k + 1)),
        None => (Seq::empty(), name),
    }
}

/// The file name `name` with collision suffix `n`: `stem_n.ext`, or `stem_n`
/// without an extension.
pub open spec fn suffixed_component(name: Seq<u8>, n: nat) -> Seq<u8> {
    let (stem, ext) = split_ext(name);
    let base = stem.push(0x5f) + decimal(n);
    match ext {
        Some(e) => base.push(0x2e) + e,
        None => base,
    }
}

/// The name with collision suffix `n` on its last path component (a
/// sequence may leave a `/` in a name): `dir/stem_n.ext`.
pub open spec fn candidate_name(name: Seq<u8>, n: nat) -> Seq<u8> {
    let (dir, last) = split_dir(name);
    dir + suffixed_component(last, n)
}

/// The first suffix from `n` to `cap` whose candidate is not taken.
pub open spec fn free_suffix(taken: Set<PathView>, parent: Seq<u8>, name: Seq<u8>, n: nat, cap: nat) -> Option<(PathView, Option<u32>)>
    decreases cap + 1 - n,
{
    if n > cap || n > u32::MAX {
        None
    } else if !taken.contains((parent, candidate_name(name, n))) {
        Some(((parent, candidate_name(name, n)), Some(n as u32)))
    } else {
        free_suffix(taken, parent, name, n + 1, cap)
    }
}

/// Where `target` lands given the `taken` paths: itself when free, else the
/// first free `_N` candidate with `N` in `1..=cap` (the name decoded lossily
/// first), else `None`.
pub open spec fn first_free(taken: Set<PathView>, target: PathView, cap: nat) -> Option<(PathView, Option<u32>)> {
    if !taken.contains(target) {
        Some((target, None))
    } else {
        free_suffix(taken, target.0, lossy_bytes(target.1), 1, cap)
    }
}

/// `dir` without its trailing `/` bytes; a lone `/` stays.
pub open spec fn trim_slashes(dir: Seq<u8>) -> Seq<u8>
    decreases dir.len(),
{
    if dir.len() > 1 && dir.last() == 0x2f {
        trim_slashes(dir.drop_last())
    } else {
        dir
    }
}

/// Where a file of directory `parent` lands when renamed to `name`, in the
/// (parent, file name) form that std's `Path` gives it: a directory part of
/// the name (a sequence may leave a `/` in it) moves into the parent.
pub open spec fn placed(parent: Seq<u8>, name: Seq<u8>) -> PathView {
    match last_index_of(name, 0x2f) {
        Some(k) => (joined((parent, trim_slashes(name.take(k + 1)))), name.skip(k + 1)),
        None => (parent, name),
    }
}

/// The name that `sequence` gives the file named `name`: the lossy decoding
/// of what the sequence makes of the lossily decoded name.
pub open spec fn planned_name(sequence: Sequence, name: Seq<u8>) -> Seq<u8> {
    lossy_bytes(sequence.output(lossy_bytes(name)))
}

/// One plan entry in mathematical form: (source, target, suffix).
pub type EntryView = (PathView, PathView, Option<u32>);

/// The plan for `entries` in order, starting from the `taken` paths: entries
/// whose name the sequence leaves unchanged are skipped and stay taken;
/// each other entry frees its own path and takes the place [`first_free`]
/// gives its new name. `Err` holds the target that found no free place.
pub open spec fn plan_fold(entries: Seq<PathView>, taken: Set<PathView>, sequence: Sequence, cap: nat) -> Result<(Set<PathView>, Seq<EntryView>), PathView>
    decreases entries.len(),
{
    if entries.len() == 0 {
        Ok((taken, Seq::empty()))
    } else {
        match plan_fold(entries.drop_last(), taken, sequence, cap) {
            Err(t) => Err(t),
            Ok((t, p)) => {
                let src = entries.last();
                let basename = lossy_bytes(src.1);
                let tname = planned_name(sequence, src.1);
                if tname == basename {
                    Ok((t.insert(src), p))
                } else {
                    let target = placed(src.0, tname);
                    let freed = t.remove(src);
                    match first_free(freed, target, cap) {
                        Some((fin, suf)) => Ok((freed.insert(fin), p.push((src, fin, suf)))),
                        None => Err(target),
                    }
                }
            },
        }
    }
}

/// A single source-to-target rename mapping.
#[non_exhaustive]
#[derive(Debug, Clone, PartialEq, Eq)]
pub struct RenamePlanEntry {
    /// Source path.
    pub source: NamedPath,
    /// Target path after the pipeline has been applied.
    pub target: NamedPath,
    /// Numeric collision suffix applied, if any.
    pub collision_suffix: Option<u32>,
}

impl View for RenamePlanEntry {
    type V = EntryView;

    open spec fn view(&self) -> EntryView {
        (self.source@, self.target@, self.collision_suffix)
    }
}

/// Whether two byte strings are equal.
pub fn bytes_equal(a: &[u8], b: &[u8]) -> (r: bool)
    ensures
        r == (a@ == b@),
{
    if a.len() != b.len() {
        return false;
    }
    let mut i: usize = 0;
    while i < a.len()
        invariant
            a@.len() == b@.len(),
            i <= a@.len(),
            forall|j: int| 0 <= j < i ==> a@[j] == b@[j],
        decreases a@.len() - i,
    {
        if a[i] != b[i] {
            return false;
        }
        i += 1;
    }
    assert(a@ =~= b@);
    true
}

impl NamedPath {
    /// A path from its parent and file name bytes.
    pub fn new(parent: &[u8], name: &[u8]) -> (p: NamedPath)
        ensures
            p@ == (parent@, name@),
    {
        NamedPath {
            parent: vstd::slice::slice_to_vec(parent),
            name: vstd::slice::slice_to_vec(name),
        }
    }

    /// A copy of this path.
    pub fn duplicate(&self) -> (p: NamedPath)
        ensures
            p@ == self@,
    {
        NamedPath::new(self.parent.as_slice(), self.name.as_slice())
    }

    /// Whether two paths are the same.
    pub fn same_as(&self, other: &NamedPath) -> (r: bool)
        ensures
            r == (self@ == other@),
    {
        bytes_equal(self.parent.as_slice(), other.parent.as_slice()) && bytes_equal(
            self.name.as_slice(),
            other.name.as_slice(),
        )
    }

    /// The full path bytes: the name joined onto the parent.
    pub fn to_bytes(&self) -> (r: Vec<u8>)
        ensures
            r@ == joined(self@),
    {
        let n = self.name.len();
        if (n > 0 && self.name[0] == 0x2f) || self.parent.len() == 0 {
            return copy_range(self.name.as_slice(), 0, n);
        }
        let mut r = copy_range(self.parent.as_slice(), 0, self.parent.len());
        if self.parent[self.parent.len() - 1] != 0x2f {
            r.push(0x2f);
        }
        let ghost head = r@;
        let mut k: usize = 0;
        while k < n
            invariant
                n == self.name@.len(),
                k <= n,
                r@ =~= head + self.name@.take(k as int),
            decreases n - k,
        {
            r.push(self.name[k]);
            k += 1;
        }
        assert(self.name@.take(n as int) =~= self.name@);
        r
    }
}

/// Whether `paths` holds `p`.
pub fn holds_path(paths: &Vec<NamedPath>, p: &NamedPath) -> (r: bool)
    ensures
        r == path_set(paths@).contains(p@),
{
    let mut i: usize = 0;
    while i < paths.len()
        invariant
            i <= paths@.len(),
            forall|j: int| 0 <= j < i ==> paths@[j]@ != p@,
        decreases paths@.len() - i,
    {
        if paths[i].same_as(p) {
            assert(paths@[i as int]@ == p@);
            return true;
        }
        i += 1;
    }
    false
}

/// Decimal digits of `n`.
pub fn decimal_digits(n: u32) -> (r: Vec<u8>)
    ensures
        r@ == decimal(n as nat),
    decreases n,
{
    if n < 10 {
        let mut r: Vec<u8> = Vec::new();
        r.push(0x30 + n as u8);
        r
    } else {
        let mut r = decimal_digits(n / 10);
        r.push(0x30 + (n % 10) as u8);
        r
    }
}

/// Split `name` into stem and extension at the last `.`. A name whose only
/// `.` is its first byte (".bashrc") has no extension.
pub fn split_extension(name: &[u8]) -> (r: (Vec<u8>, Option<Vec<u8>>))
    ensures
        r.0@ == split_ext(name@).0,
        match r.1 {
            Some(e) => split_ext(name@).1 == Some(e@),
            None => split_ext(name@).1 is None,
        },
{
    match rposition(name, 0x2e) {
        Some(dot) => {
            proof {
                crate::filter::max_length::lemma_last_index_of(name@, 0x2e);
                assert(last_index_of(name@, 0x2e) == Some(dot as int));
            }
            assert(dot < name.len());
            if dot == 0 {
                (copy_range(name, 0, name.len()), None)
            } else {
                (copy_range(name, 0, dot), Some(copy_range(name, dot + 1, name.len())))
            }
        },
        None => (copy_range(name, 0, name.len()), None),
    }
}

fn append(dst: &mut Vec<u8>, src: &[u8])
    ensures
        final(dst)@ == old(dst)@ + src@,
{
    let ghost head = dst@;
    let mut k: usize = 0;
    while k < src.len()
        invariant
            k <= src@.len(),
            dst@ =~= head + src@.take(k as int),
        decreases src@.len() - k,
    {
        dst.push(src[k]);
        k += 1;
    }
    assert(src@.take(k as int) =~= src@);
}

/// The name with collision suffix `n`, from its leading directories and the
/// split of its last component.
fn candidate(dir: &Vec<u8>, parts: &(Vec<u8>, Option<Vec<u8>>), n: u32, Ghost(name): Ghost<Seq<u8>>) -> (r: Vec<u8>)
    requires
        dir@ == split_dir(name).0,
        parts.0@ == split_ext(split_dir(name).1).0,
        match parts.1 {
            Some(e) => split_ext(split_dir(name).1).1 == Some(e@),
            None => split_ext(split_dir(name).1).1 is None,
        },
    ensures
        r@ == candidate_name(name, n as nat),
{
    let mut r = copy_range(dir.as_slice(), 0, dir.len());
    assert(r@ =~= dir@);
    append(&mut r, parts.0.as_slice());
    r.push(0x5f);
    let digits = decimal_digits(n);
    append(&mut r, digits.as_slice());
    match &parts.1 {
        Some(e) => {
            r.push(0x2e);
            append(&mut r, e.as_slice());
        },
        None => {},
    }
    proof {
        let comp = suffixed_component(split_dir(name).1, n as nat);
        assert(r@ =~= dir@ + comp);
    }
    r
}

/// The path a file of directory `parent` takes when renamed to `name`,
/// with any directory part of the name moved into the parent.
pub fn placed_path(parent: &[u8], name: &[u8]) -> (r: NamedPath)
    ensures
        r@ == placed(parent@, name@),
{
    proof {
        crate::filter::max_length::lemma_last_index_of(name@, 0x2f);
    }
    match rposition(name, 0x2f) {
        Some(k) => {
            let ghost dir = name@.take(k + 1);
            assert(k < name.len());
            let mut e: usize = k + 1;
            assert(dir.take(e as int) =~= dir);
            while e > 1 && name[e - 1] == 0x2f
                invariant
                    k < name@.len(),
                    dir == name@.take(k + 1),
                    1 <= e <= k + 1,
                    trim_slashes(dir) == trim_slashes(dir.take(e as int)),
                decreases e,
            {
                assert(dir.take(e as int).drop_last() =~= dir.take(e - 1));
                e -= 1;
            }
            assert(name@.subrange(0, e as int) =~= dir.take(e as int));
            let d = copy_range(name, 0, e);
            let up = NamedPath::new(parent, d.as_slice());
            NamedPath { parent: up.to_bytes(), name: copy_range(name, k + 1, name.len()) }
        },
        None => NamedPath::new(parent, name),
    }
}

/// Resolve a target collision by appending a `_N` suffix before the final
/// extension, with `N` counting up from 1. Returns the target and the suffix
/// applied (`None` when the target was free), or `Collision` when every
/// suffix up to `cap` is taken.
pub fn resolve_collision(target: &NamedPath, taken: &Vec<NamedPath>, cap: u32) -> (r: Result<(NamedPath, Option<u32>), DetoxError>)
    ensures
        match first_free(path_set(taken@), target@, cap as nat) {
            Some((p, suffix)) => r matches Ok((q, s)) && q@ == p && s == suffix,
            None => r matches Err(DetoxError::Collision { path, attempts }) && path@ == joined(target@)
                && attempts == cap,
        },
{
    if !holds_path(taken, target) {
        return Ok((target.duplicate(), None));
    }
    let name = lossy_bytes_of(target.name.as_slice());
    proof {
        crate::filter::max_length::lemma_last_index_of(name@, 0x2f);
    }
    let (dir, last) = match rposition(name.as_slice(), 0x2f) {
        Some(k) => (copy_range(name.as_slice(), 0, k + 1), copy_range(name.as_slice(), k + 1, name.len())),
        None => (Vec::new(), copy_range(name.as_slice(), 0, name.len())),
    };
    proof {
        crate::filter::max_length::lemma_last_index_of(name@, 0x2f);
        assert(dir@ =~= split_dir(name@).0);
        assert(last@ =~= split_dir(name@).1);
    }
    let parts = split_extension(last.as_slice());
    let ghost set = path_set(taken@);
    let ghost lname = lossy_bytes(target.name@);
    let mut n: u64 = 1;
    while n <= cap as u64
        invariant
            1 <= n <= cap as u64 + 1,
            name@ == lname,
            dir@ == split_dir(lname).0,
            parts.0@ == split_ext(split_dir(lname).1).0,
            match parts.1 {
                Some(e) => split_ext(split_dir(lname).1).1 == Some(e@),
                None => split_ext(split_dir(lname).1).1 is None,
            },
            set == path_set(taken@),
            set.contains(target@),
            first_free(set, target@, cap as nat) == free_suffix(set, target@.0, lname, n as nat, cap as nat),
        decreases cap as u64 + 1 - n,
    {
        let cand_name = candidate(&dir, &parts, n as u32, Ghost(lname));
        let cand = NamedPath {
            parent: copy_range(target.parent.as_slice(), 0, target.parent.len()),
            name: cand_name,
        };
        assert(target.parent@.subrange(0, target.parent@.len() as int) =~= target.parent@);
        assert(cand@ == (target@.0, candidate_name(lname, n as nat)));
        if !holds_path(taken, &cand) {
            return Ok((cand, Some(n as u32)));
        }
        n += 1;
    }
    Err(DetoxError::Collision { path: target.to_bytes(), attempts: cap })
}

/// The mathematical forms of `paths`, in order.
pub open spec fn path_views(paths: Seq<NamedPath>) -> Seq<PathView> {
    Seq::new(paths.len(), |i: int| paths[i]@)
}

/// The mathematical forms of the entries of `plan`, in order.
pub open spec fn plan_views(plan: Seq<RenamePlanEntry>) -> Seq<EntryView> {
    Seq::new(plan.len(), |i: int| plan[i]@)
}

fn remove_path(paths: &mut Vec<NamedPath>, p: &NamedPath)
    ensures
        path_set(final(paths)@) == path_set(old(paths)@).remove(p@),
{
    let mut kept: Vec<NamedPath> = Vec::new();
    let mut i: usize = 0;
    while i < paths.len()
        invariant
            i <= paths@.len(),
            forall|j: int| 0 <= j < kept@.len() ==> kept@[j]@ != p@,
            forall|q: PathView|
                path_set(kept@).contains(q) <==> (q != p@ && exists|j: int|
                    0 <= j < i && paths@[j]@ == q),
        decreases paths@.len() - i,
    {
        if !paths[i].same_as(p) {
            let ghost before = kept@;
            kept.push(paths[i].duplicate());
            assert forall|q: PathView|
                path_set(kept@).contains(q) <==> (q != p@ && exists|j: int|
                    0 <= j < i + 1 && paths@[j]@ == q) by {
                if path_set(kept@).contains(q) {
                    let j = choose|j: int| 0 <= j < kept@.len() && kept@[j]@ == q;
                    if j < before.len() {
                        assert(path_set(before).contains(q));
                    }
                }
                if q != p@ && exists|j: int| 0 <= j < i + 1 && paths@[j]@ == q {
                    let j = choose|j: int| 0 <= j < i + 1 && paths@[j]@ == q;
                    if j < i {
                        assert(path_set(before).contains(q));
                        let k = choose|k: int| 0 <= k < before.len() && before[k]@ == q;
                        assert(kept@[k] == before[k]);
                    } else {
                        assert(kept@[before.len() as int]@ == q);
                    }
                }
            }
        } else {
            assert forall|q: PathView|
                path_set(kept@).contains(q) <==> (q != p@ && exists|j: int|
                    0 <= j < i + 1 && paths@[j]@ == q) by {
                if q != p@ && exists|j: int| 0 <= j < i + 1 && paths@[j]@ == q {
                    let j = choose|j: int| 0 <= j < i + 1 && paths@[j]@ == q;
                    assert(j < i);
                }
            }
        }
        i += 1;
    }
    assert(path_set(kept@) =~= path_set(paths@).remove(p@));
    *paths = kept;
}

fn insert_path(paths: &mut Vec<NamedPath>, p: NamedPath)
    ensures
        path_set(final(paths)@) == path_set(old(paths)@).insert(p@),
{
    let ghost before = paths@;
    paths.push(p);
    assert forall|q: PathView| path_set(paths@).contains(q) <==> path_set(before).insert(p@).contains(q) by {
        if path_set(paths@).contains(q) {
            let j = choose|j: int| 0 <= j < paths@.len() && paths@[j]@ == q;
            if j < before.len() {
                assert(before[j] == paths@[j]);
            }
        }
        if path_set(before).contains(q) {
            let j = choose|j: int| 0 <= j < before.len() && before[j]@ == q;
            assert(paths@[j] == before[j]);
        }
        if q == p@ {
            assert(paths@[before.len() as int]@ == q);
        }
    }
    assert(path_set(paths@) =~= path_set(before).insert(p@));
}

fn copy_paths(paths: &Vec<NamedPath>) -> (r: Vec<NamedPath>)
    ensures
        path_set(r@) == path_set(paths@),
{
    let mut r: Vec<NamedPath> = Vec::new();
    let mut i: usize = 0;
    while i < paths.len()
        invariant
            i <= paths@.len(),
            r@.len() == i,
            forall|j: int| 0 <= j < i ==> r@[j]@ == paths@[j]@,
        decreases paths@.len() - i,
    {
        r.push(paths[i].duplicate());
        i += 1;
    }
    assert forall|q: PathView| path_set(r@).contains(q) <==> path_set(paths@).contains(q) by {
        if path_set(r@).contains(q) {
            let j = choose|j: int| 0 <= j < r@.len() && r@[j]@ == q;
            assert(paths@[j]@ == q);
        }
        if path_set(paths@).contains(q) {
            let j = choose|j: int| 0 <= j < paths@.len() && paths@[j]@ == q;
            assert(r@[j]@ == q);
        }
    }
    assert(path_set(r@) =~= path_set(paths@));
    r
}

proof fn lemma_fold_err_prefix(entries: Seq<PathView>, k: int, taken: Set<PathView>, sequence: Sequence, cap: nat)
    requires
        0 <= k <= entries.len(),
        plan_fold(entries.take(k), taken, sequence, cap) is Err,
    ensures
        plan_fold(entries, taken, sequence, cap) == plan_fold(entries.take(k), taken, sequence, cap),
    decreases entries.len(),
{
    if k == entries.len() {
        assert(entries.take(k) =~= entries);
    } else {
        assert(entries.drop_last().take(k) =~= entries.take(k));
        lemma_fold_err_prefix(entries.drop_last(), k, taken, sequence, cap);
    }
}

/// Plan the renames of `entries` (in order) with `sequence`, given the paths
/// that already exist beside them. Collisions are resolved with a suffix
/// counter that starts at 1 for each target. Fails with `Collision` when a
/// target finds no free name within `collision_cap` attempts.
pub fn plan_directory(
    entries: &Vec<NamedPath>,
    existing: &Vec<NamedPath>,
    sequence: &Sequence,
    collision_cap: u32,
) -> (r: Result<Vec<RenamePlanEntry>, DetoxError>)
    ensures
        match plan_fold(path_views(entries@), path_set(existing@), *sequence, collision_cap as nat) {
            Ok((_, p)) => r matches Ok(plan) && plan_views(plan@) == p,
            Err(t) => r matches Err(DetoxError::Collision { path, attempts }) && path@ == joined(t)
                && attempts == collision_cap,
        },
{
    let ghost views = path_views(entries@);
    let ghost set0 = path_set(existing@);
    let mut plan: Vec<RenamePlanEntry> = Vec::new();
    let mut taken = copy_paths(existing);
    let mut i: usize = 0;
    assert(views.take(0) =~= Seq::<PathView>::empty());
    assert(plan_views(plan@) =~= Seq::<EntryView>::empty());
    while i < entries.len()
        invariant
            i <= entries@.len(),
            views == path_views(entries@),
            set0 == path_set(existing@),
            plan_fold(views.take(i as int), set0, *sequence, collision_cap as nat) == Ok::<
                (Set<PathView>, Seq<EntryView>),
                PathView,
            >((path_set(taken@), plan_views(plan@))),
        decreases entries@.len() - i,
    {
        let src = &entries[i];
        assert(views.take(i + 1).drop_last() =~= views.take(i as int));
        assert(views.take(i + 1).last() == src@);
        let basename = lossy_bytes_of(src.name.as_slice());
        let transformed = sequence.apply(basename.as_slice());
        let target_name = lossy_bytes_of(transformed.as_slice());
        if bytes_equal(target_name.as_slice(), basename.as_slice()) {
            insert_path(&mut taken, src.duplicate());
        } else {
            let target = placed_path(src.parent.as_slice(), target_name.as_slice());
            remove_path(&mut taken, src);
            match resolve_collision(&target, &taken, collision_cap) {
                Ok((final_target, suffix)) => {
                    insert_path(&mut taken, final_target.duplicate());
                    let ghost before = plan@;
                    plan.push(
                        RenamePlanEntry {
                            source: src.duplicate(),
                            target: final_target,
                            collision_suffix: suffix,
                        },
                    );
                    assert(plan_views(plan@) =~= plan_views(before).push(plan@.last()@));
                },
                Err(e) => {
                    proof {
                        assert(plan_fold(views.take(i + 1), set0, *sequence, collision_cap as nat)
                            == Err::<(Set<PathView>, Seq<EntryView>), PathView>(target@));
                        lemma_fold_err_prefix(views, (i + 1) as int, set0, *sequence, collision_cap as nat);
                    }
                    return Err(e);
                },
            }
        }
        i += 1;
    }
    assert(views.take(i as int) =~= views);
    Ok(plan)
}

proof fn lemma_free_suffix_free(taken: Set<PathView>, parent: Seq<u8>, name: Seq<u8>, n: nat, cap: nat)
    ensures
        free_suffix(taken, parent, name, n, cap) matches Some((f, _)) ==> !taken.contains(f),
    decreases cap + 1 - n,
{
    if !(n > cap || n > u32::MAX) && taken.contains((parent, candidate_name(name, n))) {
        lemma_free_suffix_free(taken, parent, name, n + 1, cap);
    }
}

/// Whether `sequence` leaves the name of the entry `e` as it is: the entry
/// is already clean, and planning skips it.
pub open spec fn is_clean(sequence: Sequence, e: PathView) -> bool {
    planned_name(sequence, e.1) == lossy_bytes(e.1)
}

/// How many of `entries` are already clean.
pub open spec fn clean_count(entries: Seq<PathView>, sequence: Sequence) -> nat
    decreases entries.len(),
{
    if entries.len() == 0 {
        0
    } else {
        clean_count(entries.drop_last(), sequence) + if is_clean(sequence, entries.last()) {
            1nat
        } else {
            0nat
        }
    }
}

/// Every entry is either planned or already clean: a plan that succeeds has
/// one entry for each entry that is not clean.
pub proof fn lemma_plan_counts(entries: Seq<PathView>, taken: Set<PathView>, sequence: Sequence, cap: nat)
    ensures
        plan_fold(entries, taken, sequence, cap) matches Ok((_, p)) ==> p.len() + clean_count(entries, sequence)
            == entries.len(),
    decreases entries.len(),
{
    if entries.len() > 0 {
        lemma_plan_counts(entries.drop_last(), taken, sequence, cap);
    }
}

/// How many of `entries` the sequence leaves unchanged.
pub fn count_clean(entries: &Vec<NamedPath>, sequence: &Sequence) -> (n: usize)
    ensures
        n == clean_count(path_views(entries@), *sequence),
{
    let ghost views = path_views(entries@);
    let mut n: usize = 0;
    let mut i: usize = 0;
    while i < entries.len()
        invariant
            i <= entries@.len(),
            views == path_views(entries@),
            n == clean_count(views.take(i as int), *sequence),
            n <= i,
        decreases entries@.len() - i,
    {
        let src = &entries[i];
        assert(views.take(i + 1).drop_last() =~= views.take(i as int));
        assert(views.take(i + 1).last() == src@);
        let basename = lossy_bytes_of(src.name.as_slice());
        let transformed = sequence.apply(basename.as_slice());
        let target_name = lossy_bytes_of(transformed.as_slice());
        if bytes_equal(target_name.as_slice(), basename.as_slice()) {
            n += 1;
        }
        i += 1;
    }
    assert(views.take(i as int) =~= views);
    n
}

/// A place that [`first_free`] gives is not taken.
pub proof fn lemma_first_free_is_free(taken: Set<PathView>, target: PathView, cap: nat)
    ensures
        first_free(taken, target, cap) matches Some((f, _)) ==> !taken.contains(f),
{
    lemma_free_suffix_free(taken, target.0, lossy_bytes(target.1), 1, cap);
}

/// Holds when no path occurs twice in `entries`.
pub open spec fn distinct_paths(entries: Seq<PathView>) -> bool {
    forall|i: int, j: int| 0 <= i < j < entries.len() ==> entries[i] != entries[j]
}

/// What planning keeps true of the taken set and the plan so far.
spec fn plan_inv(prefix: Seq<PathView>, existing: Set<PathView>, t: Set<PathView>, p: Seq<EntryView>) -> bool {
    &&& forall|q: PathView|
        t.contains(q) <==> ((existing.contains(q) && !(exists|i: int| 0 <= i < p.len() && p[i].0 == q))
            || exists|i: int| 0 <= i < p.len() && p[i].1 == q)
    &&& forall|i: int, j: int| 0 <= i < j < p.len() ==> p[i].1 != p[j].1
    &&& forall|j: int|
        0 <= j < p.len() && existing.contains(#[trigger] p[j].1) ==> exists|i: int|
            0 <= i <= j && p[i].0 == p[j].1
    &&& forall|i: int| 0 <= i < p.len() ==> exists|m: int| 0 <= m < prefix.len() && #[trigger] p[i].0 == prefix[m]
}

proof fn lemma_plan_inv(entries: Seq<PathView>, existing: Set<PathView>, sequence: Sequence, cap: nat)
    requires
        distinct_paths(entries),
        forall|i: int| 0 <= i < entries.len() ==> existing.contains(#[trigger] entries[i]),
        plan_fold(entries, existing, sequence, cap) is Ok,
    ensures
        plan_fold(entries, existing, sequence, cap) matches Ok((t, p)) && plan_inv(entries, existing, t, p),
    decreases entries.len(),
{
    if entries.len() == 0 {
        return;
    }
    let prev = entries.drop_last();
    assert forall|i: int| 0 <= i < prev.len() implies existing.contains(#[trigger] prev[i]) by {
        assert(prev[i] == entries[i]);
    }
    lemma_plan_inv(prev, existing, sequence, cap);
    let (t, p) = plan_fold(prev, existing, sequence, cap)->Ok_0;
    let e = entries.last();
    assert(existing.contains(e)) by {
        assert(entries[entries.len() - 1] == e);
    }
    // `e` is no earlier source and no earlier target.
    assert forall|i: int| 0 <= i < p.len() implies p[i].0 != e by {
        let m = choose|m: int| 0 <= m < prev.len() && #[trigger] p[i].0 == prev[m];
        assert(entries[m] != entries[entries.len() - 1]);
    }
    assert forall|j: int| 0 <= j < p.len() implies p[j].1 != e by {
        if p[j].1 == e {
            assert(existing.contains(p[j].1));
            let i = choose|i: int| 0 <= i <= j && p[i].0 == p[j].1;
        }
    }
    let basename = lossy_bytes(e.1);
    let tname = planned_name(sequence, e.1);
    if tname == basename {
        let t2 = t.insert(e);
        assert forall|i: int| 0 <= i < p.len() implies exists|m: int|
            0 <= m < entries.len() && #[trigger] p[i].0 == entries[m] by {
            let m = choose|m: int| 0 <= m < prev.len() && #[trigger] p[i].0 == prev[m];
            assert(entries[m] == prev[m]);
        }
        assert forall|q: PathView|
            t2.contains(q) <==> ((existing.contains(q) && !(exists|i: int| 0 <= i < p.len() && p[i].0 == q))
                || exists|i: int| 0 <= i < p.len() && p[i].1 == q) by {
            if q == e {
                assert(t.contains(e));
            }
        }
    } else {
        let target = placed(e.0, tname);
        let freed = t.remove(e);
        lemma_first_free_is_free(freed, target, cap);
        let (fin, suf) = first_free(freed, target, cap)->Some_0;
        let p2 = p.push((e, fin, suf));
        let t2 = freed.insert(fin);
        assert(p2.len() == p.len() + 1);
        assert forall|i: int| 0 <= i < p2.len() implies exists|m: int|
            0 <= m < entries.len() && #[trigger] p2[i].0 == entries[m] by {
            if i < p.len() {
                assert(p2[i] == p[i]);
                let m = choose|m: int| 0 <= m < prev.len() && #[trigger] p[i].0 == prev[m];
                assert(entries[m] == prev[m]);
            } else {
                assert(p2[i].0 == entries[entries.len() - 1]);
            }
        }
        assert forall|i: int, j: int| 0 <= i < j < p2.len() implies p2[i].1 != p2[j].1 by {
            if j < p.len() {
                assert(p2[i] == p[i] && p2[j] == p[j]);
            } else {
                assert(p2[i] == p[i]);
                assert(t.contains(p[i].1));
                assert(freed.contains(p[i].1));
            }
        }
        assert forall|j: int|
            0 <= j < p2.len() && existing.contains(#[trigger] p2[j].1) implies exists|i: int|
                0 <= i <= j && p2[i].0 == p2[j].1 by {
            if j < p.len() {
                assert(p2[j] == p[j]);
                let i = choose|i: int| 0 <= i <= j && p[i].0 == p[j].1;
                assert(p2[i] == p[i]);
            } else {
                if fin != e {
                    if !(exists|i: int| 0 <= i < p.len() && p[i].0 == fin) {
                        assert(t.contains(fin));
                        assert(freed.contains(fin));
                    } else {
                        let i = choose|i: int| 0 <= i < p.len() && p[i].0 == fin;
                        assert(p2[i] == p[i]);
                    }
                } else {
                    assert(p2[j].0 == e);
                }
            }
        }
        assert forall|q: PathView|
            t2.contains(q) <==> ((existing.contains(q) && !(exists|i: int| 0 <= i < p2.len() && p2[i].0 == q))
                || exists|i: int| 0 <= i < p2.len() && p2[i].1 == q) by {
            if t2.contains(q) {
                if q != fin {
                    assert(t.contains(q) && q != e);
                    if exists|i: int| 0 <= i < p.len() && p[i].1 == q {
                        let i = choose|i: int| 0 <= i < p.len() && p[i].1 == q;
                        assert(p2[i] == p[i]);
                    } else {
                        assert forall|i: int| 0 <= i < p2.len() implies p2[i].0 != q by {
                            if i < p.len() {
                                assert(p2[i] == p[i]);
                            }
                        }
                    }
                } else {
                    assert(p2[p.len() as int].1 == q);
                }
            }
            if (existing.contains(q) && !(exists|i: int| 0 <= i < p2.len() && p2[i].0 == q)) {
                assert(p2[p.len() as int].0 == e);
                assert forall|i: int| 0 <= i < p.len() implies p[i].0 != q by {
                    assert(p2[i] == p[i]);
                }
                assert(t.contains(q));
            }
            if exists|i: int| 0 <= i < p2.len() && p2[i].1 == q {
                let i = choose|i: int| 0 <= i < p2.len() && p2[i].1 == q;
                if i < p.len() {
                    assert(p2[i] == p[i]);
                    assert(t.contains(q));
                }
            }
        }
    }
}

/// Collision safety of a plan. When the entries are distinct paths that all
/// exist, the planned targets are pairwise distinct, and a target is a path
/// that already existed only when an entry planned at or before it moves
/// away from that path. So no rename, done in plan order, overwrites a file.
/// Paths are compared in the (parent, file name) form that std's `Path`
/// gives them; targets are put in that form by [`placed`], which moves a
/// directory part that a sequence left in a name into the parent.
pub proof fn lemma_plan_collision_safe(
    entries: Seq<PathView>,
    existing: Set<PathView>,
    sequence: Sequence,
    cap: nat,
)
    requires
        distinct_paths(entries),
        forall|i: int| 0 <= i < entries.len() ==> existing.contains(#[trigger] entries[i]),
        plan_fold(entries, existing, sequence, cap) is Ok,
    ensures
        plan_fold(entries, existing, sequence, cap) matches Ok((_, p)) && (forall|i: int, j: int|
            0 <= i < j < p.len() ==> p[i].1 != p[j].1) && (forall|j: int|
            0 <= j < p.len() && existing.contains(#[trigger] p[j].1) ==> exists|i: int|
                0 <= i <= j && p[i].0 == p[j].1),
{
    lemma_plan_inv(entries, existing, sequence, cap);
}

} // verus!
