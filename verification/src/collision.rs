//! Detection of naming collisions among planned renames.
//!
//! A detector collects planned renames (grouped by their target path, in the
//! order in which targets were first seen) and the paths that already exist,
//! and reports every rename that would merge two items, overwrite an existing
//! item, do nothing, or clash only by letter case. Paths are compared by
//! their components, as std `Path` compares them.
use vstd::prelude::*;
use crate::rename::RenameItem;
use crate::path::{same_path, paths_equal};
use crate::text::{
    join_spec, lowercase_chars, lowercase_spec, push_decimal, push_str, decimal, chars_of,
    string_of, push_char, decimal_string,
};

verus! {

/// The kinds of collision the detector reports.
#[derive(Debug, Clone, Copy, PartialEq, Eq, Hash, Structural)]
pub enum CollisionType {
    /// Multiple sources trying to rename to the same target
    MultipleSourcesSameTarget,
    /// Target path already exists in filesystem
    TargetAlreadyExists,
    /// Source and target are the same (no-op)
    SourceEqualsTarget,
    /// Case-only difference on case-insensitive filesystem
    CaseOnlyDifference,
    /// Directory trying to rename to existing file path
    DirectoryToFile,
    /// File trying to rename to existing directory path
    FileToDirectory,
}

/// One detected collision.
#[derive(Debug)]
pub struct Collision {
    pub collision_type: CollisionType,
    pub target_path: String,
    pub source_paths: Vec<String>,
    pub description: String,
}

/// The mathematical content of a [`Collision`].
pub struct CollisionView {
    pub kind: CollisionType,
    pub target: Seq<char>,
    pub sources: Seq<Seq<char>>,
    pub description: Seq<char>,
}

/// The character sequences of a sequence of strings.
pub open spec fn string_views(v: Seq<String>) -> Seq<Seq<char>> {
    Seq::new(v.len(), |i: int| v[i]@)
}

impl View for Collision {
    type V = CollisionView;

    open spec fn view(&self) -> CollisionView {
        CollisionView {
            kind: self.collision_type,
            target: self.target_path@,
            sources: string_views(self.source_paths@),
            description: self.description@,
        }
    }
}

/// The views of a sequence of collisions.
pub open spec fn collision_views(v: Seq<Collision>) -> Seq<CollisionView> {
    Seq::new(v.len(), |i: int| v[i]@)
}

/// Copies a vector of strings.
fn copy_strings(v: &Vec<String>) -> (r: Vec<String>)
    ensures
        string_views(r@) == string_views(v@),
{
    let mut out: Vec<String> = Vec::new();
    let mut i: usize = 0;
    while i < v.len()
        invariant
            i <= v.len(),
            out@.len() == i,
            forall|j: int| 0 <= j < i ==> out@[j]@ == v@[j]@,
        decreases v.len() - i,
    {
        out.push(v[i].clone());
        i += 1;
    }
    assert(string_views(out@) =~= string_views(v@));
    out
}

impl Collision {
    /// A copy of this collision.
    pub fn duplicate(&self) -> (r: Collision)
        ensures
            r@ == self@,
    {
        let sources = copy_strings(&self.source_paths);
        Collision {
            collision_type: self.collision_type,
            target_path: self.target_path.clone(),
            source_paths: sources,
            description: self.description.clone(),
        }
    }
}

/// Copies a vector of collisions.
pub fn copy_collisions(v: &Vec<Collision>) -> (r: Vec<Collision>)
    ensures
        collision_views(r@) == collision_views(v@),
{
    let mut out: Vec<Collision> = Vec::new();
    let mut i: usize = 0;
    while i < v.len()
        invariant
            i <= v.len(),
            out@.len() == i,
            forall|j: int| 0 <= j < i ==> out@[j]@ == v@[j]@,
        decreases v.len() - i,
    {
        out.push(v[i].duplicate());
        i += 1;
    }
    assert(collision_views(out@) =~= collision_views(v@));
    out
}

/// One target path and the sources planned to be renamed to it.
pub struct TargetEntry {
    pub target: String,
    pub sources: Vec<String>,
}

/// Detects naming collisions in rename operations
pub struct CollisionDetector {
    /// New paths with their sources, in the order the targets were first added
    pub target_paths: Vec<TargetEntry>,
    /// Paths that already exist in the filesystem (each at most once)
    pub existing_paths: Vec<String>,
    /// Collisions found during detection
    pub collisions: Vec<Collision>,
}

/// A target with its sources, as sequences of characters.
pub type EntryView = (Seq<char>, Seq<Seq<char>>);

/// Whether some entry has target `t`.
pub open spec fn has_target(es: Seq<EntryView>, t: Seq<char>) -> bool {
    exists|i: int| 0 <= i < es.len() && same_path(es[i].0, t)
}

/// Some path of the list is the same path as `p` (compared by components).
pub open spec fn contains_path(v: Seq<Seq<char>>, p: Seq<char>) -> bool {
    exists|i: int| 0 <= i < v.len() && same_path(v[i], p)
}

/// The entries after planning the rename `s -> t`: `s` joins the sources of
/// the planned target that is the same path as `t` (which keeps its first
/// spelling); `t` is appended as a new target if none is.
pub open spec fn add_rename_spec(es: Seq<EntryView>, s: Seq<char>, t: Seq<char>) -> Seq<EntryView> {
    if has_target(es, t) {
        let i = choose|i: int| 0 <= i < es.len() && same_path(es[i].0, t);
        es.update(i, (es[i].0, es[i].1.push(s)))
    } else {
        es.push((t, seq![s]))
    }
}

/// The entries after planning every rename of `items` in order.
pub open spec fn add_renames_spec(es: Seq<EntryView>, items: Seq<(Seq<char>, Seq<char>)>) -> Seq<EntryView>
    decreases items.len(),
{
    if items.len() == 0 {
        es
    } else {
        add_rename_spec(add_renames_spec(es, items.drop_last()), items.last().0, items.last().1)
    }
}

/// Distinct targets, each with at least one source.
pub open spec fn entries_wf(es: Seq<EntryView>) -> bool {
    &&& forall|i: int, j: int| 0 <= i < j < es.len() ==> !same_path(es[i].0, es[j].0)
    &&& forall|i: int| 0 <= i < es.len() ==> es[i].1.len() > 0
}

/// `Multiple files/directories trying to rename to the same target: {target} (sources: {s1, s2, ...})`
pub open spec fn multi_description(t: Seq<char>, srcs: Seq<Seq<char>>) -> Seq<char> {
    "Multiple files/directories trying to rename to the same target: "@ + t + " (sources: "@
        + join_spec(srcs, ", "@) + ")"@
}

/// The collisions for targets with more than one source, in target order.
pub open spec fn multi_part(es: Seq<EntryView>) -> Seq<CollisionView>
    decreases es.len(),
{
    if es.len() == 0 {
        Seq::empty()
    } else {
        let e = es.last();
        multi_part(es.drop_last()) + if e.1.len() > 1 {
            seq![
                CollisionView {
                    kind: CollisionType::MultipleSourcesSameTarget,
                    target: e.0,
                    sources: e.1,
                    description: multi_description(e.0, e.1),
                },
            ]
        } else {
            Seq::empty()
        }
    }
}

/// The kind of an overwrite collision, from whether the target and the first
/// source are directories.
pub open spec fn overwrite_kind(target_is_dir: bool, source_is_dir: bool) -> CollisionType {
    if target_is_dir && !source_is_dir {
        CollisionType::FileToDirectory
    } else if !target_is_dir && source_is_dir {
        CollisionType::DirectoryToFile
    } else {
        CollisionType::TargetAlreadyExists
    }
}

/// The no-op or overwrite collision of one target, if any.
pub open spec fn existing_check(
    e: EntryView,
    existing: Seq<Seq<char>>,
    dirs: Seq<Seq<char>>,
) -> Seq<CollisionView> {
    let t = e.0;
    let srcs = e.1;
    if srcs.len() == 1 && same_path(srcs[0], t) {
        seq![
            CollisionView {
                kind: CollisionType::SourceEqualsTarget,
                target: t,
                sources: srcs,
                description: "Source and target are identical: "@ + t,
            },
        ]
    } else if contains_path(existing, t) {
        let source_is_dir = srcs.len() > 0 && contains_path(dirs, srcs[0]);
        seq![
            CollisionView {
                kind: overwrite_kind(contains_path(dirs, t), source_is_dir),
                target: t,
                sources: srcs,
                description: "Target path already exists: "@ + t,
            },
        ]
    } else {
        Seq::empty()
    }
}

/// The no-op and overwrite collisions, in target order.
pub open spec fn existing_part(
    es: Seq<EntryView>,
    existing: Seq<Seq<char>>,
    dirs: Seq<Seq<char>>,
) -> Seq<CollisionView>
    decreases es.len(),
{
    if es.len() == 0 {
        Seq::empty()
    } else {
        existing_part(es.drop_last(), existing, dirs) + existing_check(es.last(), existing, dirs)
    }
}

/// Another target has the same lowercase form as target `i`.
pub open spec fn case_conflicting(es: Seq<EntryView>, i: int) -> bool {
    exists|j: int| 0 <= j < es.len() && j != i && lowercase_spec(es[j].0) == lowercase_spec(es[i].0)
}

/// The case-only collision reported for one target.
pub open spec fn case_collision(e: EntryView) -> CollisionView {
    CollisionView {
        kind: CollisionType::CaseOnlyDifference,
        target: e.0,
        sources: e.1,
        description: "Case-only difference detected on case-insensitive filesystem: "@ + e.0,
    }
}

/// The case-only collisions among the first `k` targets, in target order.
pub open spec fn case_part(es: Seq<EntryView>, k: int) -> Seq<CollisionView>
    decreases k,
{
    if k <= 0 {
        Seq::empty()
    } else {
        case_part(es, k - 1) + if case_conflicting(es, k - 1) {
            seq![case_collision(es[k - 1])]
        } else {
            Seq::empty()
        }
    }
}

/// Everything `detect_collisions` reports for the given state, in order:
/// merges, then no-ops and overwrites, then (on a case-insensitive
/// filesystem) case-only clashes.
pub open spec fn detection_spec(
    es: Seq<EntryView>,
    existing: Seq<Seq<char>>,
    dirs: Seq<Seq<char>>,
    case_insensitive: bool,
) -> Seq<CollisionView> {
    multi_part(es) + existing_part(es, existing, dirs) + if case_insensitive {
        case_part(es, es.len() as int)
    } else {
        Seq::empty()
    }
}

/// Number of collisions of kind `k`.
pub open spec fn count_kind(cs: Seq<CollisionView>, k: CollisionType) -> nat
    decreases cs.len(),
{
    if cs.len() == 0 {
        0
    } else {
        count_kind(cs.drop_last(), k) + if cs.last().kind == k { 1nat } else { 0nat }
    }
}

/// Per-kind counts, kinds in order of first occurrence.
pub open spec fn summary_spec(cs: Seq<CollisionView>) -> Seq<(CollisionType, nat)>
    decreases cs.len(),
{
    if cs.len() == 0 {
        Seq::empty()
    } else {
        let s = summary_spec(cs.drop_last());
        let k = cs.last().kind;
        if exists|i: int| 0 <= i < s.len() && s[i].0 == k {
            let i = choose|i: int| 0 <= i < s.len() && s[i].0 == k;
            s.update(i, (k, s[i].1 + 1))
        } else {
            s.push((k, 1nat))
        }
    }
}

impl Default for CollisionDetector {
    /// An empty detector, as [`CollisionDetector::new`].
    fn default() -> (r: Self)
        ensures
            r.wf(),
            r.entries() == Seq::<EntryView>::empty(),
            r.existing() == Seq::<Seq<char>>::empty(),
            r.collision_list() == Seq::<CollisionView>::empty(),
    {
        Self::new()
    }
}

impl CollisionDetector {
    /// The planned renames, grouped by target, as sequences of characters.
    pub open spec fn entries(&self) -> Seq<EntryView> {
        Seq::new(
            self.target_paths@.len(),
            |i: int| (self.target_paths@[i].target@, string_views(self.target_paths@[i].sources@)),
        )
    }

    /// The existing paths, as sequences of characters.
    pub open spec fn existing(&self) -> Seq<Seq<char>> {
        string_views(self.existing_paths@)
    }

    /// The detected collisions, as views.
    pub open spec fn collision_list(&self) -> Seq<CollisionView> {
        collision_views(self.collisions@)
    }

    /// Targets are distinct paths and have sources; existing paths are
    /// distinct paths.
    pub open spec fn wf(&self) -> bool {
        &&& entries_wf(self.entries())
        &&& forall|i: int, j: int|
            0 <= i < j < self.existing_paths@.len() ==> !same_path(
                self.existing_paths@[i]@,
                self.existing_paths@[j]@,
            )
    }

    pub fn new() -> (r: Self)
        ensures
            r.wf(),
            r.entries() == Seq::<EntryView>::empty(),
            r.existing() == Seq::<Seq<char>>::empty(),
            r.collision_list() == Seq::<CollisionView>::empty(),
    {
        let r = Self { target_paths: Vec::new(), existing_paths: Vec::new(), collisions: Vec::new() };
        assert(r.entries() =~= Seq::<EntryView>::empty());
        assert(r.existing() =~= Seq::<Seq<char>>::empty());
        assert(r.collision_list() =~= Seq::<CollisionView>::empty());
        r
    }

    /// The index of the entry for target `t`, if any.
    fn find_target(&self, t: &String) -> (r: Option<usize>)
        requires
            self.wf(),
        ensures
            match r {
                Some(i) => i < self.target_paths@.len() && same_path(self.entries()[i as int].0, t@),
                None => !has_target(self.entries(), t@),
            },
    {
        let mut i: usize = 0;
        while i < self.target_paths.len()
            invariant
                i <= self.target_paths@.len(),
                forall|j: int| 0 <= j < i ==> !same_path(self.entries()[j].0, t@),
            decreases self.target_paths@.len() - i,
        {
            if paths_equal(self.target_paths[i].target.as_str(), t.as_str()) {
                return Some(i);
            }
            i += 1;
        }
        None
    }

    /// Add a rename operation to check for collisions
    pub fn add_rename(&mut self, source: String, target: String)
        requires
            old(self).wf(),
        ensures
            final(self).wf(),
            final(self).entries() == add_rename_spec(old(self).entries(), source@, target@),
            final(self).existing() == old(self).existing(),
            final(self).collision_list() == old(self).collision_list(),
    {
        let ghost es = self.entries();
        let ghost s = source@;
        let ghost t = target@;
        match self.find_target(&target) {
            Some(i) => {
                proof {
                    let c = choose|c: int| 0 <= c < es.len() && same_path(es[c].0, t);
                    if c < i {
                        assert(!same_path(es[c].0, es[i as int].0));
                    } else if c > i {
                        assert(!same_path(es[i as int].0, es[c].0));
                    }
                    assert(c == i);
                }
                let ghost old_paths = self.target_paths@;
                self.target_paths[i].sources.push(source);
                assert(string_views(self.target_paths@[i as int].sources@) =~= string_views(
                    old_paths[i as int].sources@,
                ).push(s));
                assert forall|j: int| 0 <= j < es.len() && j != i implies self.target_paths@[j]
                    == old_paths[j] by {}
                assert(self.entries() =~= es.update(i as int, (es[i as int].0, es[i as int].1.push(s))));
            },
            None => {
                let mut sources: Vec<String> = Vec::new();
                sources.push(source);
                self.target_paths.push(TargetEntry { target, sources });
                assert(string_views(self.target_paths@.last().sources@) =~= seq![s]);
                assert(self.entries() =~= es.push((t, seq![s])));
            },
        }
    }

    /// Add multiple rename operations
    pub fn add_renames(&mut self, items: &[RenameItem])
        requires
            old(self).wf(),
        ensures
            final(self).wf(),
            final(self).entries() == add_renames_spec(
                old(self).entries(),
                Seq::new(items@.len(), |i: int| (items@[i].original_path@, items@[i].new_path@)),
            ),
            final(self).existing() == old(self).existing(),
            final(self).collision_list() == old(self).collision_list(),
    {
        let ghost pairs = Seq::new(items@.len(), |i: int| (items@[i].original_path@, items@[i].new_path@));
        let mut k: usize = 0;
        assert(pairs.take(0) =~= Seq::<(Seq<char>, Seq<char>)>::empty());
        while k < items.len()
            invariant
                k <= items@.len(),
                self.wf(),
                pairs == Seq::new(items@.len(), |i: int| (items@[i].original_path@, items@[i].new_path@)),
                self.entries() == add_renames_spec(old(self).entries(), pairs.take(k as int)),
                self.existing() == old(self).existing(),
                self.collision_list() == old(self).collision_list(),
            decreases items@.len() - k,
        {
            assert(pairs.take(k + 1).drop_last() =~= pairs.take(k as int));
            self.add_rename(items[k].original_path.clone(), items[k].new_path.clone());
            k += 1;
        }
        assert(pairs.take(items@.len() as int) =~= pairs);
    }

    /// Add an existing filesystem path to check against
    pub fn add_existing_path(&mut self, path: &str)
        requires
            old(self).wf(),
        ensures
            final(self).wf(),
            final(self).entries() == old(self).entries(),
            final(self).collision_list() == old(self).collision_list(),
            final(self).existing() == if contains_path(old(self).existing(), path@) {
                old(self).existing()
            } else {
                old(self).existing().push(path@)
            },
    {
        let ghost ex = self.existing();
        let mut i: usize = 0;
        while i < self.existing_paths.len()
            invariant
                i <= self.existing_paths@.len(),
                self.wf(),
                ex == self.existing(),
                forall|j: int| 0 <= j < i ==> !same_path(ex[j], path@),
            decreases self.existing_paths@.len() - i,
        {
            if paths_equal(self.existing_paths[i].as_str(), path) {
                assert(same_path(ex[i as int], path@));
                return;
            }
            i += 1;
        }
        let p = crate::text::string_of(&chars_of(path));
        let ghost old_paths = self.existing_paths@;
        self.existing_paths.push(p);
        let ghost n = self.existing_paths@.len();
        assert forall|a: int, b: int| 0 <= a < b < n implies !same_path(
            self.existing_paths@[a]@,
            self.existing_paths@[b]@,
        ) by {
            if b == n - 1 {
                assert(ex[a] == old_paths[a]@);
                assert(!same_path(ex[a], path@));
            } else {
                assert(self.existing_paths@[a] == old_paths[a]);
                assert(self.existing_paths@[b] == old_paths[b]);
            }
        }
        assert(self.existing() =~= ex.push(path@));
    }

    /// Every target followed by its first source: the paths whose kind (file
    /// or directory) decides how an overwrite collision is classified.
    pub fn paths_to_probe(&self) -> (r: Vec<String>)
        requires
            self.wf(),
        ensures
            string_views(r@) == Seq::new(
                2 * self.entries().len(),
                |k: int|
                    if k % 2 == 0 {
                        self.entries()[k / 2].0
                    } else {
                        self.entries()[k / 2].1[0]
                    },
            ),
    {
        let mut out: Vec<String> = Vec::new();
        let mut i: usize = 0;
        while i < self.target_paths.len()
            invariant
                i <= self.target_paths@.len(),
                self.wf(),
                out@.len() == 2 * i,
                forall|k: int|
                    0 <= k < 2 * i ==> out@[k]@ == if k % 2 == 0 {
                        self.entries()[k / 2].0
                    } else {
                        self.entries()[k / 2].1[0]
                    },
            decreases self.target_paths@.len() - i,
        {
            assert(self.entries()[i as int].1.len() > 0);
            out.push(self.target_paths[i].target.clone());
            out.push(self.target_paths[i].sources[0].clone());
            i += 1;
        }
        assert(string_views(out@) =~= Seq::new(
            2 * self.entries().len(),
            |k: int|
                if k % 2 == 0 {
                    self.entries()[k / 2].0
                } else {
                    self.entries()[k / 2].1[0]
                },
        ));
        out
    }

    /// Detect all collisions.
    ///
    /// `directories` lists the paths that are directories on disk (the
    /// filesystem answers for the paths of [`Self::paths_to_probe`]);
    /// `case_insensitive` tells whether the filesystem ignores letter case.
    pub fn detect_collisions(&mut self, directories: &Vec<String>, case_insensitive: bool) -> (r: Vec<
        Collision,
    >)
        requires
            old(self).wf(),
        ensures
            final(self).wf(),
            final(self).entries() == old(self).entries(),
            final(self).existing() == old(self).existing(),
            final(self).collision_list() == detection_spec(
                old(self).entries(),
                old(self).existing(),
                string_views(directories@),
                case_insensitive,
            ),
            collision_views(r@) == final(self).collision_list(),
    {
        let ghost es = self.entries();
        let ghost ex = self.existing();
        let ghost dirs = string_views(directories@);
        self.collisions.clear();
        assert(self.collision_list() =~= Seq::<CollisionView>::empty());
        // Multiple sources targeting the same destination
        let mut i: usize = 0;
        assert(es.take(0) =~= Seq::<EntryView>::empty());
        while i < self.target_paths.len()
            invariant
                i <= self.target_paths@.len(),
                self.wf(),
                es == self.entries(),
                ex == self.existing(),
                self.collision_list() == multi_part(es.take(i as int)),
            decreases self.target_paths@.len() - i,
        {
            assert(es.take(i + 1).drop_last() =~= es.take(i as int));
            assert(es.take(i + 1).last() == es[i as int]);
            if self.target_paths[i].sources.len() > 1 {
                let c = Self::multi_collision(&self.target_paths[i]);
                let ghost before = self.collision_list();
                self.collisions.push(c);
                assert(self.collision_list() =~= before.push(c@));
            }
            i += 1;
        }
        assert(es.take(es.len() as int) =~= es);
        // Targets that equal their source or already exist
        let ghost multi = self.collision_list();
        let mut i: usize = 0;
        while i < self.target_paths.len()
            invariant
                i <= self.target_paths@.len(),
                self.wf(),
                es == self.entries(),
                ex == self.existing(),
                dirs == string_views(directories@),
                multi == multi_part(es),
                self.collision_list() == multi + existing_part(es.take(i as int), ex, dirs),
            decreases self.target_paths@.len() - i,
        {
            assert(es.take(i + 1).drop_last() =~= es.take(i as int));
            assert(es.take(i + 1).last() == es[i as int]);
            let ghost before = self.collision_list();
            let found = Self::existing_collision(
                &self.target_paths[i],
                &self.existing_paths,
                directories,
            );
            match found {
                Some(c) => {
                    self.collisions.push(c);
                    assert(self.collision_list() =~= before.push(c@));
                },
                None => {},
            }
            assert(self.collision_list() =~= multi + existing_part(es.take(i + 1), ex, dirs));
            i += 1;
        }
        assert(es.take(es.len() as int) =~= es);
        // Case-only differences on case-insensitive filesystems
        if case_insensitive {
            self.detect_case_collisions();
        }
        assert(self.collision_list() =~= detection_spec(es, ex, dirs, case_insensitive));
        copy_collisions(&self.collisions)
    }

    /// Appends the case-only collisions.
    fn detect_case_collisions(&mut self)
        requires
            old(self).wf(),
        ensures
            final(self).wf(),
            final(self).target_paths@ == old(self).target_paths@,
            final(self).existing_paths@ == old(self).existing_paths@,
            final(self).collision_list() == old(self).collision_list() + case_part(
                old(self).entries(),
                old(self).entries().len() as int,
            ),
    {
        let ghost es = self.entries();
        let ghost start = self.collision_list();
        let n = self.target_paths.len();
        let mut lowers: Vec<Vec<char>> = Vec::new();
        let mut i: usize = 0;
        while i < n
            invariant
                i <= n,
                n == self.target_paths@.len(),
                es == self.entries(),
                lowers@.len() == i,
                forall|j: int| 0 <= j < i ==> lowers@[j]@ == lowercase_spec(es[j].0),
            decreases n - i,
        {
            let t = chars_of(self.target_paths[i].target.as_str());
            lowers.push(lowercase_chars(&t));
            i += 1;
        }
        let mut i: usize = 0;
        while i < n
            invariant
                i <= n,
                n == self.target_paths@.len(),
                self.wf(),
                self.target_paths@ == old(self).target_paths@,
                self.existing_paths@ == old(self).existing_paths@,
                es == self.entries(),
                lowers@.len() == n,
                forall|j: int| 0 <= j < n ==> lowers@[j]@ == lowercase_spec(es[j].0),
                self.collision_list() == start + case_part(es, i as int),
            decreases n - i,
        {
            let mut conflict = false;
            let mut j: usize = 0;
            while j < n
                invariant
                    j <= n,
                    i < n,
                    lowers@.len() == n,
                    forall|k: int| 0 <= k < n ==> lowers@[k]@ == lowercase_spec(es[k].0),
                    conflict == exists|k: int|
                        0 <= k < j && k != i && lowercase_spec(es[k].0) == lowercase_spec(
                            es[i as int].0,
                        ),
                decreases n - j,
            {
                if j != i && crate::text::chars_eq(&lowers[j], &lowers[i]) {
                    conflict = true;
                }
                j += 1;
            }
            assert(conflict == case_conflicting(es, i as int));
            if conflict {
                let c = Self::case_collision(&self.target_paths[i]);
                let ghost before = self.collision_list();
                self.collisions.push(c);
                assert(self.collision_list() =~= before.push(c@));
            }
            assert(self.collision_list() =~= start + case_part(es, i + 1));
            i += 1;
        }
    }

    /// The collision reported for a target with several sources.
    fn multi_collision(e: &TargetEntry) -> (r: Collision)
        ensures
            r@ == (CollisionView {
                kind: CollisionType::MultipleSourcesSameTarget,
                target: e.target@,
                sources: string_views(e.sources@),
                description: multi_description(e.target@, string_views(e.sources@)),
            }),
    {
        let mut d = String::new();
        push_str(&mut d, "Multiple files/directories trying to rename to the same target: ");
        push_str(&mut d, e.target.as_str());
        push_str(&mut d, " (sources: ");
        let joined = join_strings(&e.sources, ", ");
        push_str(&mut d, joined.as_str());
        push_str(&mut d, ")");
        assert(d@ =~= multi_description(e.target@, string_views(e.sources@)));
        Collision {
            collision_type: CollisionType::MultipleSourcesSameTarget,
            target_path: e.target.clone(),
            source_paths: copy_strings(&e.sources),
            description: d,
        }
    }

    /// The no-op or overwrite collision for one target, if any.
    fn existing_collision(e: &TargetEntry, existing: &Vec<String>, dirs: &Vec<String>) -> (r: Option<
        Collision,
    >)
        ensures
            match r {
                Some(c) => existing_check(
                    (e.target@, string_views(e.sources@)),
                    string_views(existing@),
                    string_views(dirs@),
                ) == seq![c@],
                None => existing_check(
                    (e.target@, string_views(e.sources@)),
                    string_views(existing@),
                    string_views(dirs@),
                ) == Seq::<CollisionView>::empty(),
            },
    {
        let ghost srcs = string_views(e.sources@);
        if e.sources.len() == 1 && paths_equal(e.sources[0].as_str(), e.target.as_str()) {
            let mut d = String::new();
            push_str(&mut d, "Source and target are identical: ");
            push_str(&mut d, e.target.as_str());
            return Some(
                Collision {
                    collision_type: CollisionType::SourceEqualsTarget,
                    target_path: e.target.clone(),
                    source_paths: copy_strings(&e.sources),
                    description: d,
                },
            );
        }
        assert(!(srcs.len() == 1 && same_path(srcs[0], e.target@)));
        if has_path(existing, &e.target) {
            let target_is_dir = has_path(dirs, &e.target);
            let source_is_dir = if e.sources.len() > 0 {
                has_path(dirs, &e.sources[0])
            } else {
                false
            };
            let kind = if target_is_dir && !source_is_dir {
                CollisionType::FileToDirectory
            } else if !target_is_dir && source_is_dir {
                CollisionType::DirectoryToFile
            } else {
                CollisionType::TargetAlreadyExists
            };
            let mut d = String::new();
            push_str(&mut d, "Target path already exists: ");
            push_str(&mut d, e.target.as_str());
            return Some(
                Collision {
                    collision_type: kind,
                    target_path: e.target.clone(),
                    source_paths: copy_strings(&e.sources),
                    description: d,
                },
            );
        }
        None
    }

    /// The case-only collision for one target.
    fn case_collision(e: &TargetEntry) -> (r: Collision)
        ensures
            r@ == case_collision((e.target@, string_views(e.sources@))),
    {
        let mut d = String::new();
        push_str(&mut d, "Case-only difference detected on case-insensitive filesystem: ");
        push_str(&mut d, e.target.as_str());
        Collision {
            collision_type: CollisionType::CaseOnlyDifference,
            target_path: e.target.clone(),
            source_paths: copy_strings(&e.sources),
            description: d,
        }
    }
}

/// Whether some path of `v` is the same path as `p` (compared by
/// components).
pub fn has_path(v: &Vec<String>, p: &String) -> (r: bool)
    ensures
        r == contains_path(string_views(v@), p@),
{
    let mut i: usize = 0;
    while i < v.len()
        invariant
            i <= v.len(),
            forall|j: int| 0 <= j < i ==> !same_path(v@[j]@, p@),
        decreases v.len() - i,
    {
        if paths_equal(v[i].as_str(), p.as_str()) {
            assert(same_path(string_views(v@)[i as int], p@));
            return true;
        }
        i += 1;
    }
    assert forall|j: int| 0 <= j < string_views(v@).len() implies !same_path(string_views(v@)[j], p@) by {
        assert(string_views(v@)[j] == v@[j]@);
    }
    false
}

/// Joins strings with a separator between consecutive ones.
pub fn join_strings(v: &Vec<String>, sep: &str) -> (r: String)
    ensures
        r@ == join_spec(string_views(v@), sep@),
{
    let mut out = String::new();
    let mut i: usize = 0;
    while i < v.len()
        invariant
            i <= v.len(),
            out@ == join_spec(string_views(v@).take(i as int), sep@),
        decreases v.len() - i,
    {
        let ghost prefix = string_views(v@).take(i + 1);
        assert(prefix.drop_last() =~= string_views(v@).take(i as int));
        assert(prefix.last() == v@[i as int]@);
        if i > 0 {
            push_str(&mut out, sep);
        } else {
            assert(prefix.len() == 1);
        }
        push_str(&mut out, v[i].as_str());
        i += 1;
    }
    assert(string_views(v@).take(v.len() as int) =~= string_views(v@));
    out
}

/// The name `{:?}` prints for a collision kind.
pub open spec fn kind_name(k: CollisionType) -> Seq<char> {
    match k {
        CollisionType::MultipleSourcesSameTarget => "MultipleSourcesSameTarget"@,
        CollisionType::TargetAlreadyExists => "TargetAlreadyExists"@,
        CollisionType::SourceEqualsTarget => "SourceEqualsTarget"@,
        CollisionType::CaseOnlyDifference => "CaseOnlyDifference"@,
        CollisionType::DirectoryToFile => "DirectoryToFile"@,
        CollisionType::FileToDirectory => "FileToDirectory"@,
    }
}

impl CollisionType {
    /// The variant's name, as `{:?}` prints it.
    pub fn name(&self) -> (r: &'static str)
        ensures
            r@ == kind_name(*self),
    {
        match self {
            CollisionType::MultipleSourcesSameTarget => "MultipleSourcesSameTarget",
            CollisionType::TargetAlreadyExists => "TargetAlreadyExists",
            CollisionType::SourceEqualsTarget => "SourceEqualsTarget",
            CollisionType::CaseOnlyDifference => "CaseOnlyDifference",
            CollisionType::DirectoryToFile => "DirectoryToFile",
            CollisionType::FileToDirectory => "FileToDirectory",
        }
    }
}

/// The collisions of kind `k`, in order.
pub open spec fn filter_kind(cs: Seq<CollisionView>, k: CollisionType) -> Seq<CollisionView>
    decreases cs.len(),
{
    if cs.len() == 0 {
        Seq::empty()
    } else {
        filter_kind(cs.drop_last(), k) + if cs.last().kind == k {
            seq![cs.last()]
        } else {
            Seq::empty()
        }
    }
}

/// Per-kind collision counts.
pub struct CollisionSummary {
    /// Each kind that occurs, with its number of collisions, in order of first occurrence.
    pub entries: Vec<(CollisionType, usize)>,
}

impl CollisionSummary {
    /// The entries as kinds with counts.
    pub open spec fn counts(&self) -> Seq<(CollisionType, nat)> {
        Seq::new(self.entries@.len(), |i: int| (self.entries@[i].0, self.entries@[i].1 as nat))
    }

    /// The count for kind `t` (at its first entry), if it occurs.
    pub fn get(&self, t: &CollisionType) -> (r: Option<&usize>)
        ensures
            r matches Some(c) ==> exists|i: int|
                0 <= i < self.counts().len() && self.counts()[i] == (*t, *c as nat) && forall|j: int|
                    0 <= j < i ==> self.counts()[j].0 != *t,
            r is None ==> forall|i: int| 0 <= i < self.counts().len() ==> self.counts()[i].0 != *t,
    {
        let mut i: usize = 0;
        while i < self.entries.len()
            invariant
                i <= self.entries@.len(),
                forall|j: int| 0 <= j < i ==> self.counts()[j].0 != *t,
            decreases self.entries@.len() - i,
        {
            if self.entries[i].0 == *t {
                assert(self.counts()[i as int] == (*t, self.entries@[i as int].1 as nat));
                return Some(&self.entries[i].1);
            }
            i += 1;
        }
        None
    }

    /// The number of distinct kinds.
    pub fn len(&self) -> (r: usize)
        ensures
            r == self.counts().len(),
    {
        self.entries.len()
    }

    /// Whether no kind occurs.
    pub fn is_empty(&self) -> (r: bool)
        ensures
            r == (self.counts().len() == 0),
    {
        self.entries.len() == 0
    }
}

/// Kinds in a summary are distinct and counts do not exceed the number of collisions.
pub proof fn lemma_summary_shape(cs: Seq<CollisionView>)
    ensures
        forall|i: int, j: int|
            0 <= i < j < summary_spec(cs).len() ==> summary_spec(cs)[i].0 != summary_spec(cs)[j].0,
        forall|i: int| 0 <= i < summary_spec(cs).len() ==> summary_spec(cs)[i].1 <= cs.len(),
    decreases cs.len(),
{
    if cs.len() > 0 {
        let s0 = summary_spec(cs.drop_last());
        let k = cs.last().kind;
        lemma_summary_shape(cs.drop_last());
        let s = summary_spec(cs);
        if exists|i: int| 0 <= i < s0.len() && s0[i].0 == k {
            let c = choose|i: int| 0 <= i < s0.len() && s0[i].0 == k;
            assert(s == s0.update(c, (k, s0[c].1 + 1)));
            assert forall|i: int, j: int| 0 <= i < j < s.len() implies s[i].0 != s[j].0 by {
                assert(s0[i].0 != s0[j].0);
            }
        } else {
            assert(s == s0.push((k, 1nat)));
            assert forall|i: int, j: int| 0 <= i < j < s.len() implies s[i].0 != s[j].0 by {
                if j < s0.len() {
                    assert(s0[i].0 != s0[j].0);
                }
            }
        }
    }
}

/// `=` repeated fifty times.
pub open spec fn rule_line() -> Seq<char> {
    Seq::new(50, |i: int| '=')
}

/// The per-kind lines of a report.
pub open spec fn summary_lines(s: Seq<(CollisionType, nat)>) -> Seq<char>
    decreases s.len(),
{
    if s.len() == 0 {
        Seq::empty()
    } else {
        summary_lines(s.drop_last()) + "  "@ + kind_name(s.last().0) + ": "@ + decimal(s.last().1)
            + " issue(s)\n"@
    }
}

/// One line per source.
pub open spec fn source_lines(srcs: Seq<Seq<char>>) -> Seq<char>
    decreases srcs.len(),
{
    if srcs.len() == 0 {
        Seq::empty()
    } else {
        source_lines(srcs.drop_last()) + "     - "@ + srcs.last() + "\n"@
    }
}

/// The block describing collision number `num` of a report.
pub open spec fn item_text(num: nat, c: CollisionView) -> Seq<char> {
    decimal(num) + ". "@ + c.description + "\n"@ + "   Type: "@ + kind_name(c.kind) + "\n"@
        + "   Target: "@ + c.target + "\n"@ + (if c.sources.len() == 1 {
        "   Source: "@ + c.sources[0] + "\n"@
    } else {
        "   Sources:\n"@ + source_lines(c.sources)
    }) + "\n"@
}

/// The blocks of the first `k` collisions.
pub open spec fn items_text(cs: Seq<CollisionView>, k: int) -> Seq<char>
    decreases k,
{
    if k <= 0 {
        Seq::empty()
    } else {
        items_text(cs, k - 1) + item_text(k as nat, cs[k - 1])
    }
}

/// The text of a collision report.
pub open spec fn report_spec(cs: Seq<CollisionView>) -> Seq<char> {
    if cs.len() == 0 {
        "No collisions detected."@
    } else {
        "Collision Report ("@ + decimal(cs.len()) + " issues found):\n"@ + rule_line() + "\n"@
            + summary_lines(summary_spec(cs)) + "\n"@ + items_text(cs, cs.len() as int)
    }
}


/// Appends the report block of collision number `num`.
fn push_item(report: &mut String, num: usize, c: &Collision)
    ensures
        final(report)@ == old(report)@ + item_text(num as nat, c@),
{
    push_str(report, decimal_string(num as u64).as_str());
    push_str(report, ". ");
    push_str(report, c.description.as_str());
    push_str(report, "\n");
    push_str(report, "   Type: ");
    push_str(report, c.collision_type.name());
    push_str(report, "\n");
    push_str(report, "   Target: ");
    push_str(report, c.target_path.as_str());
    push_str(report, "\n");
    if c.source_paths.len() == 1 {
        push_str(report, "   Source: ");
        push_str(report, c.source_paths[0].as_str());
        push_str(report, "\n");
    } else {
        push_str(report, "   Sources:\n");
        let ghost srcs = string_views(c.source_paths@);
        let ghost before_sources = report@;
        let mut m: usize = 0;
        assert(srcs.take(0) =~= Seq::<Seq<char>>::empty());
        while m < c.source_paths.len()
            invariant
                m <= c.source_paths@.len(),
                srcs == string_views(c.source_paths@),
                report@ == before_sources + source_lines(srcs.take(m as int)),
            decreases c.source_paths@.len() - m,
        {
            assert(srcs.take(m + 1).drop_last() =~= srcs.take(m as int));
            assert(srcs.take(m + 1).last() == c.source_paths@[m as int]@);
            push_str(report, "     - ");
            push_str(report, c.source_paths[m].as_str());
            push_str(report, "\n");
            assert(report@ =~= before_sources + source_lines(srcs.take(m + 1)));
            m += 1;
        }
        assert(srcs.take(srcs.len() as int) =~= srcs);
    }
    push_str(report, "\n");
    assert(report@ =~= old(report)@ + item_text(num as nat, c@));
}

impl CollisionDetector {
    /// Get all detected collisions
    pub fn get_collisions(&self) -> (r: &[Collision])
        ensures
            r@ == self.collisions@,
    {
        self.collisions.as_slice()
    }

    /// Check if any collisions were detected
    pub fn has_collisions(&self) -> (r: bool)
        ensures
            r == (self.collision_list().len() > 0),
    {
        !self.collisions.is_empty()
    }

    /// Get the number of collisions
    pub fn collision_count(&self) -> (r: usize)
        ensures
            r == self.collision_list().len(),
    {
        self.collisions.len()
    }

    /// Filter collisions by type
    pub fn get_collisions_by_type(&self, collision_type: CollisionType) -> (r: Vec<&Collision>)
        ensures
            Seq::new(r@.len(), |i: int| r@[i]@) == filter_kind(self.collision_list(), collision_type),
    {
        let ghost cl = self.collision_list();
        let mut out: Vec<&Collision> = Vec::new();
        let mut i: usize = 0;
        assert(cl.take(0) =~= Seq::<CollisionView>::empty());
        while i < self.collisions.len()
            invariant
                i <= self.collisions@.len(),
                cl == self.collision_list(),
                Seq::new(out@.len(), |j: int| out@[j]@) == filter_kind(cl.take(i as int), collision_type),
            decreases self.collisions@.len() - i,
        {
            assert(cl.take(i + 1).drop_last() =~= cl.take(i as int));
            assert(cl.take(i + 1).last() == self.collisions@[i as int]@);
            let ghost before = Seq::new(out@.len(), |j: int| out@[j]@);
            if self.collisions[i].collision_type == collision_type {
                out.push(&self.collisions[i]);
                assert(Seq::new(out@.len(), |j: int| out@[j]@) =~= before.push(
                    self.collisions@[i as int]@,
                ));
            } else {
                assert(Seq::new(out@.len(), |j: int| out@[j]@) =~= before);
            }
            i += 1;
        }
        assert(cl.take(cl.len() as int) =~= cl);
        out
    }

    /// Get a summary of collisions by type
    pub fn get_collision_summary(&self) -> (r: CollisionSummary)
        ensures
            r.counts() == summary_spec(self.collision_list()),
    {
        let ghost cl = self.collision_list();
        let mut summary = CollisionSummary { entries: Vec::new() };
        let mut i: usize = 0;
        assert(cl.take(0) =~= Seq::<CollisionView>::empty());
        assert(summary.counts() =~= summary_spec(cl.take(0)));
        while i < self.collisions.len()
            invariant
                i <= self.collisions@.len(),
                cl == self.collision_list(),
                summary.counts() == summary_spec(cl.take(i as int)),
            decreases self.collisions@.len() - i,
        {
            let ghost prefix = cl.take(i + 1);
            assert(prefix.drop_last() =~= cl.take(i as int));
            assert(prefix.last() == self.collisions@[i as int]@);
            let ghost s = summary_spec(cl.take(i as int));
            proof { lemma_summary_shape(cl.take(i as int)); }
            let k = self.collisions[i].collision_type;
            let mut j: usize = 0;
            while j < summary.entries.len() && summary.entries[j].0 != k
                invariant
                    j <= summary.entries@.len(),
                    summary.counts() == s,
                    forall|m: int| 0 <= m < j ==> s[m].0 != k,
                decreases summary.entries@.len() - j,
            {
                j += 1;
            }
            if j < summary.entries.len() {
                assert(s[j as int].0 == k);
                proof {
                    let c = choose|c: int| 0 <= c < s.len() && s[c].0 == k;
                    assert(c == j);
                }
                let ghost old_entries = summary.entries@;
                let count = summary.entries[j].1;
                assert(count as nat == s[j as int].1);
                assert(count <= i);
                summary.entries[j] = (k, count + 1);
                assert(summary.counts() =~= s.update(j as int, (k, s[j as int].1 + 1)));
            } else {
                summary.entries.push((k, 1));
                assert(summary.counts() =~= s.push((k, 1nat)));
            }
            i += 1;
        }
        assert(cl.take(cl.len() as int) =~= cl);
        summary
    }

    /// Clear all data
    pub fn clear(&mut self)
        ensures
            final(self).wf(),
            final(self).entries() == Seq::<EntryView>::empty(),
            final(self).existing() == Seq::<Seq<char>>::empty(),
            final(self).collision_list() == Seq::<CollisionView>::empty(),
    {
        self.target_paths.clear();
        self.existing_paths.clear();
        self.collisions.clear();
        assert(self.entries() =~= Seq::<EntryView>::empty());
        assert(self.existing() =~= Seq::<Seq<char>>::empty());
        assert(self.collision_list() =~= Seq::<CollisionView>::empty());
    }

    /// Generate a detailed collision report
    pub fn generate_report(&self) -> (r: String)
        ensures
            r@ == report_spec(self.collision_list()),
    {
        let ghost cl = self.collision_list();
        if self.collisions.is_empty() {
            return String::from_str("No collisions detected.");
        }
        let mut report = String::new();
        push_str(&mut report, "Collision Report (");
        push_str(&mut report, decimal_string(self.collisions.len() as u64).as_str());
        push_str(&mut report, " issues found):\n");
        let ghost head = report@;
        let mut k: usize = 0;
        while k < 50
            invariant
                k <= 50,
                report@ == head + Seq::new(k as nat, |i: int| '='),
            decreases 50 - k,
        {
            push_char(&mut report, '=');
            assert(head + Seq::new((k + 1) as nat, |i: int| '=') =~= head + Seq::new(k as nat, |i: int| '=').push('='));
            k += 1;
        }
        push_str(&mut report, "\n");
        let summary = self.get_collision_summary();
        let ghost s = summary.counts();
        let ghost before_summary = report@;
        let mut j: usize = 0;
        assert(s.take(0) =~= Seq::<(CollisionType, nat)>::empty());
        while j < summary.entries.len()
            invariant
                j <= summary.entries@.len(),
                s == summary.counts(),
                report@ == before_summary + summary_lines(s.take(j as int)),
            decreases summary.entries@.len() - j,
        {
            assert(s.take(j + 1).drop_last() =~= s.take(j as int));
            assert(s.take(j + 1).last() == s[j as int]);
            let (kind, count) = summary.entries[j];
            push_str(&mut report, "  ");
            push_str(&mut report, kind.name());
            push_str(&mut report, ": ");
            push_str(&mut report, decimal_string(count as u64).as_str());
            push_str(&mut report, " issue(s)\n");
            assert(report@ =~= before_summary + summary_lines(s.take(j + 1)));
            j += 1;
        }
        assert(s.take(s.len() as int) =~= s);
        push_str(&mut report, "\n");
        let ghost before_items = report@;
        let mut i: usize = 0;
        while i < self.collisions.len()
            invariant
                i <= self.collisions@.len(),
                cl == self.collision_list(),
                report@ == before_items + items_text(cl, i as int),
            decreases self.collisions@.len() - i,
        {
            let ghost start = report@;
            push_item(&mut report, i + 1, &self.collisions[i]);
            assert(items_text(cl, i + 1) == items_text(cl, i as int) + item_text((i + 1) as nat, cl[i as int]));
            i += 1;
        }
        assert(cl.len() > 0);
        assert(report@ =~= report_spec(cl));
        report
    }
}

/// Number of collisions other than no-op renames.
pub open spec fn serious_count(cs: Seq<CollisionView>) -> nat
    decreases cs.len(),
{
    if cs.len() == 0 {
        0
    } else {
        serious_count(cs.drop_last()) + if cs.last().kind != CollisionType::SourceEqualsTarget {
            1nat
        } else {
            0nat
        }
    }
}

/// The number of collisions that stop a run: all but no-op renames.
pub fn serious_collision_count(collisions: &Vec<Collision>) -> (r: usize)
    ensures
        r == serious_count(collision_views(collisions@)),
{
    let ghost cv = collision_views(collisions@);
    let mut n: usize = 0;
    let mut i: usize = 0;
    assert(cv.take(0) =~= Seq::<CollisionView>::empty());
    while i < collisions.len()
        invariant
            i <= collisions@.len(),
            cv == collision_views(collisions@),
            n == serious_count(cv.take(i as int)),
            n <= i,
        decreases collisions@.len() - i,
    {
        assert(cv.take(i + 1).drop_last() =~= cv.take(i as int));
        assert(cv.take(i + 1).last() == collisions@[i as int]@);
        if collisions[i].collision_type != CollisionType::SourceEqualsTarget {
            n += 1;
        }
        i += 1;
    }
    assert(cv.take(cv.len() as int) =~= cv);
    n
}

/// The descriptions of the collisions that stop a run, in order.
pub open spec fn serious_descriptions_spec(cs: Seq<CollisionView>) -> Seq<Seq<char>>
    decreases cs.len(),
{
    if cs.len() == 0 {
        Seq::empty()
    } else {
        serious_descriptions_spec(cs.drop_last()) + if cs.last().kind != CollisionType::SourceEqualsTarget {
            seq![cs.last().description]
        } else {
            Seq::empty()
        }
    }
}

/// The descriptions reported for the collisions that stop a run (no-op
/// renames are not reported).
pub fn serious_descriptions(collisions: &Vec<Collision>) -> (r: Vec<String>)
    ensures
        string_views(r@) == serious_descriptions_spec(collision_views(collisions@)),
{
    let ghost cv = collision_views(collisions@);
    let mut out: Vec<String> = Vec::new();
    let mut i: usize = 0;
    assert(cv.take(0) =~= Seq::<CollisionView>::empty());
    assert(string_views(out@) =~= Seq::<Seq<char>>::empty());
    while i < collisions.len()
        invariant
            i <= collisions@.len(),
            cv == collision_views(collisions@),
            string_views(out@) == serious_descriptions_spec(cv.take(i as int)),
        decreases collisions@.len() - i,
    {
        assert(cv.take(i + 1).drop_last() =~= cv.take(i as int));
        assert(cv.take(i + 1).last() == collisions@[i as int]@);
        let ghost before = string_views(out@);
        if collisions[i].collision_type != CollisionType::SourceEqualsTarget {
            out.push(collisions[i].description.clone());
            assert(string_views(out@) =~= before + seq![collisions@[i as int].description@]);
        } else {
            assert(before + Seq::<Seq<char>>::empty() =~= before);
        }
        i += 1;
    }
    assert(cv.take(cv.len() as int) =~= cv);
    out
}

/// Whether a run may go on after collision detection: it stops when some
/// collision other than a no-op rename was found, with the message
/// `Cannot proceed due to {n} naming collision(s)`.
pub fn collision_verdict(collisions: &Vec<Collision>) -> (r: Result<(), String>)
    ensures
        serious_count(collision_views(collisions@)) == 0 ==> r is Ok,
        serious_count(collision_views(collisions@)) > 0 ==> (r matches Err(m) && m@ == "Cannot proceed due to "@
            + decimal(serious_count(collision_views(collisions@))) + " naming collision(s)"@),
{
    let n = serious_collision_count(collisions);
    if n == 0 {
        Ok(())
    } else {
        let mut m = String::from_str("Cannot proceed due to ");
        push_str(&mut m, decimal_string(n as u64).as_str());
        push_str(&mut m, " naming collision(s)");
        Err(m)
    }
}

// ----------------------------------------------------------------------------
// Laws
// ----------------------------------------------------------------------------

/// The summary counts every kind exactly: each listed kind comes with the
/// number of collisions of that kind (at least one), and every kind that
/// occurs is listed.
pub proof fn lemma_summary_counts(cs: Seq<CollisionView>)
    ensures
        forall|i: int|
            0 <= i < summary_spec(cs).len() ==> summary_spec(cs)[i].1 == count_kind(
                cs,
                summary_spec(cs)[i].0,
            ) && summary_spec(cs)[i].1 > 0,
        forall|k: CollisionType|
            count_kind(cs, k) > 0 ==> exists|i: int|
                0 <= i < summary_spec(cs).len() && summary_spec(cs)[i].0 == k,
    decreases cs.len(),
{
    if cs.len() > 0 {
        let c0 = cs.drop_last();
        let s0 = summary_spec(c0);
        let k = cs.last().kind;
        lemma_summary_counts(c0);
        lemma_summary_shape(c0);
        let s = summary_spec(cs);
        if exists|i: int| 0 <= i < s0.len() && s0[i].0 == k {
            let c = choose|i: int| 0 <= i < s0.len() && s0[i].0 == k;
            assert(s == s0.update(c, (k, s0[c].1 + 1)));
            assert forall|i: int| 0 <= i < s.len() implies s[i].1 == count_kind(cs, s[i].0)
                && s[i].1 > 0 by {
                if i != c {
                    assert(s0[i].0 != s0[c].0);
                }
            }
            assert forall|k2: CollisionType| count_kind(cs, k2) > 0 implies exists|i: int|
                0 <= i < s.len() && s[i].0 == k2 by {
                if k2 == k {
                    assert(s[c].0 == k2);
                } else {
                    assert(count_kind(c0, k2) > 0);
                    let i = choose|i: int| 0 <= i < s0.len() && s0[i].0 == k2;
                    assert(s[i].0 == k2);
                }
            }
        } else {
            assert(s == s0.push((k, 1nat)));
            assert(count_kind(c0, k) == 0);
            assert forall|i: int| 0 <= i < s.len() implies s[i].1 == count_kind(cs, s[i].0)
                && s[i].1 > 0 by {
                if i < s0.len() {
                    assert(s0[i].0 != k);
                }
            }
            assert forall|k2: CollisionType| count_kind(cs, k2) > 0 implies exists|i: int|
                0 <= i < s.len() && s[i].0 == k2 by {
                if k2 == k {
                    assert(s[s0.len() as int].0 == k2);
                } else {
                    assert(count_kind(c0, k2) > 0);
                    let i = choose|i: int| 0 <= i < s0.len() && s0[i].0 == k2;
                    assert(s[i].0 == k2);
                }
            }
        }
    }
}

/// Planning a rename keeps targets distinct paths, and afterwards the target
/// (under its first spelling when it was already planned) is planned with
/// the new source as its latest source; no other target changes.
pub proof fn lemma_add_rename_records(es: Seq<EntryView>, s: Seq<char>, t: Seq<char>)
    requires
        entries_wf(es),
    ensures
        entries_wf(add_rename_spec(es, s, t)),
        exists|i: int|
            0 <= i < add_rename_spec(es, s, t).len() && same_path(add_rename_spec(es, s, t)[i].0, t)
                && add_rename_spec(es, s, t)[i].1.last() == s,
        forall|i: int|
            0 <= i < es.len() && !same_path(es[i].0, t) ==> add_rename_spec(es, s, t)[i] == es[i],
        add_rename_spec(es, s, t).len() == es.len() + if has_target(es, t) { 0int } else { 1int },
{
    let r = add_rename_spec(es, s, t);
    if has_target(es, t) {
        let c = choose|i: int| 0 <= i < es.len() && same_path(es[i].0, t);
        assert(same_path(r[c].0, t) && r[c].1.last() == s);
        assert forall|i: int, j: int| 0 <= i < j < r.len() implies !same_path(r[i].0, r[j].0) by {
            assert(!same_path(es[i].0, es[j].0));
        }
        assert forall|i: int| 0 <= i < es.len() && !same_path(es[i].0, t) implies r[i] == es[i] by {
            assert(i != c);
        }
    } else {
        let n = es.len() as int;
        assert(r[n].0 == t && r[n].1.last() == s);
        assert forall|i: int, j: int| 0 <= i < j < r.len() implies !same_path(r[i].0, r[j].0) by {
            if j == n {
                assert(!same_path(es[i].0, t));
            } else {
                assert(!same_path(es[i].0, es[j].0));
            }
        }
    }
}

/// Collision `c` names a planned target with exactly its planned sources.
pub open spec fn names_planned_target(es: Seq<EntryView>, c: CollisionView) -> bool {
    exists|i: int| 0 <= i < es.len() && c.target == es[i].0 && c.sources == es[i].1
}

/// Every collision of `cs` names a planned target with its sources.
pub open spec fn all_name_planned_targets(es: Seq<EntryView>, cs: Seq<CollisionView>) -> bool {
    forall|k: int| 0 <= k < cs.len() ==> names_planned_target(es, #[trigger] cs[k])
}

/// Every reported collision names one of the planned targets together with
/// exactly the sources planned for it.
pub proof fn lemma_detection_sound(
    es: Seq<EntryView>,
    existing: Seq<Seq<char>>,
    dirs: Seq<Seq<char>>,
    case_insensitive: bool,
)
    ensures
        all_name_planned_targets(es, detection_spec(es, existing, dirs, case_insensitive)),
{
    lemma_multi_sound(es);
    lemma_existing_sound(es, existing, dirs);
    lemma_case_sound(es, es.len() as int);
    let m = multi_part(es);
    let x = existing_part(es, existing, dirs);
    let c = if case_insensitive { case_part(es, es.len() as int) } else { Seq::empty() };
    let d = detection_spec(es, existing, dirs, case_insensitive);
    assert(d == m + x + c);
    assert forall|k: int| 0 <= k < d.len() implies names_planned_target(es, #[trigger] d[k]) by {
        if k < m.len() {
            assert(d[k] == m[k]);
        } else if k < m.len() + x.len() {
            assert(d[k] == x[k - m.len()]);
        } else {
            assert(d[k] == c[k - m.len() - x.len()]);
        }
    }
}

proof fn lemma_planned_prefix(es: Seq<EntryView>, c: CollisionView)
    requires
        es.len() > 0,
        names_planned_target(es.drop_last(), c),
    ensures
        names_planned_target(es, c),
{
    let e0 = es.drop_last();
    let i = choose|i: int| 0 <= i < e0.len() && c.target == e0[i].0 && c.sources == e0[i].1;
    assert(es[i] == e0[i]);
}

proof fn lemma_multi_sound(es: Seq<EntryView>)
    ensures
        all_name_planned_targets(es, multi_part(es)),
    decreases es.len(),
{
    if es.len() > 0 {
        let e0 = es.drop_last();
        lemma_multi_sound(e0);
        let m0 = multi_part(e0);
        let m = multi_part(es);
        assert forall|k: int| 0 <= k < m.len() implies names_planned_target(es, #[trigger] m[k]) by {
            if k < m0.len() {
                assert(m[k] == m0[k]);
                lemma_planned_prefix(es, m0[k]);
            } else {
                assert(m[k].target == es[es.len() - 1].0);
            }
        }
    }
}

proof fn lemma_existing_sound(es: Seq<EntryView>, existing: Seq<Seq<char>>, dirs: Seq<Seq<char>>)
    ensures
        all_name_planned_targets(es, existing_part(es, existing, dirs)),
    decreases es.len(),
{
    if es.len() > 0 {
        let e0 = es.drop_last();
        lemma_existing_sound(e0, existing, dirs);
        let m0 = existing_part(e0, existing, dirs);
        let m = existing_part(es, existing, dirs);
        assert forall|k: int| 0 <= k < m.len() implies names_planned_target(es, #[trigger] m[k]) by {
            if k < m0.len() {
                assert(m[k] == m0[k]);
                lemma_planned_prefix(es, m0[k]);
            } else {
                assert(m[k].target == es[es.len() - 1].0);
            }
        }
    }
}

proof fn lemma_case_sound(es: Seq<EntryView>, n: int)
    requires
        n <= es.len(),
    ensures
        all_name_planned_targets(es, case_part(es, n)),
    decreases n,
{
    if n > 0 {
        lemma_case_sound(es, n - 1);
        let m0 = case_part(es, n - 1);
        let m = case_part(es, n);
        assert forall|k: int| 0 <= k < m.len() implies names_planned_target(es, #[trigger] m[k]) by {
            if k < m0.len() {
                assert(m[k] == m0[k]);
            } else {
                assert(m[k].target == es[n - 1].0);
            }
        }
    }
}

/// A target planned with more than one source is reported as a merge of
/// exactly those sources.
pub proof fn lemma_merge_reported(
    es: Seq<EntryView>,
    existing: Seq<Seq<char>>,
    dirs: Seq<Seq<char>>,
    case_insensitive: bool,
    i: int,
)
    requires
        0 <= i < es.len(),
        es[i].1.len() > 1,
    ensures
        exists|k: int|
            0 <= k < detection_spec(es, existing, dirs, case_insensitive).len()
                && detection_spec(es, existing, dirs, case_insensitive)[k].kind
                == CollisionType::MultipleSourcesSameTarget && detection_spec(
                es,
                existing,
                dirs,
                case_insensitive,
            )[k].target == es[i].0 && detection_spec(es, existing, dirs, case_insensitive)[k].sources
                == es[i].1,
{
    lemma_multi_complete(es, i);
    let m = multi_part(es);
    let d = detection_spec(es, existing, dirs, case_insensitive);
    let k = choose|k: int|
        0 <= k < m.len() && m[k].kind == CollisionType::MultipleSourcesSameTarget && m[k].target
            == es[i].0 && m[k].sources == es[i].1;
    assert(d[k] == m[k]);
}

proof fn lemma_multi_complete(es: Seq<EntryView>, i: int)
    requires
        0 <= i < es.len(),
        es[i].1.len() > 1,
    ensures
        exists|k: int|
            0 <= k < multi_part(es).len() && multi_part(es)[k].kind
                == CollisionType::MultipleSourcesSameTarget && multi_part(es)[k].target == es[i].0
                && multi_part(es)[k].sources == es[i].1,
    decreases es.len(),
{
    let e0 = es.drop_last();
    let m0 = multi_part(e0);
    let m = multi_part(es);
    if i < es.len() - 1 {
        lemma_multi_complete(e0, i);
        let k = choose|k: int|
            0 <= k < m0.len() && m0[k].kind == CollisionType::MultipleSourcesSameTarget
                && m0[k].target == e0[i].0 && m0[k].sources == e0[i].1;
        assert(m[k] == m0[k]);
    } else {
        assert(m[m0.len() as int].target == es[i].0);
    }
}

/// When every target has a single source that is another path, no target
/// exists yet and case is significant, nothing is reported.
pub proof fn lemma_clean_plan_no_collisions(es: Seq<EntryView>, existing: Seq<Seq<char>>, dirs: Seq<Seq<char>>)
    requires
        forall|i: int|
            0 <= i < es.len() ==> es[i].1.len() == 1 && !same_path(es[i].1[0], es[i].0) && !contains_path(
                existing,
                es[i].0,
            ),
    ensures
        detection_spec(es, existing, dirs, false).len() == 0,
    decreases es.len(),
{
    if es.len() > 0 {
        let e0 = es.drop_last();
        assert forall|i: int| 0 <= i < e0.len() implies e0[i].1.len() == 1 && !same_path(e0[i].1[0], e0[i].0)
            && !contains_path(existing, e0[i].0) by {
            assert(e0[i] == es[i]);
        }
        lemma_clean_plan_no_collisions(e0, existing, dirs);
        assert(es.last() == es[es.len() - 1]);
    }
}

/// A target whose only source is the same path is reported as a no-op.
pub proof fn lemma_noop_reported(
    es: Seq<EntryView>,
    existing: Seq<Seq<char>>,
    dirs: Seq<Seq<char>>,
    case_insensitive: bool,
    i: int,
)
    requires
        0 <= i < es.len(),
        es[i].1.len() == 1,
        same_path(es[i].1[0], es[i].0),
    ensures
        exists|k: int|
            0 <= k < detection_spec(es, existing, dirs, case_insensitive).len()
                && detection_spec(es, existing, dirs, case_insensitive)[k].kind
                == CollisionType::SourceEqualsTarget && detection_spec(
                es,
                existing,
                dirs,
                case_insensitive,
            )[k].target == es[i].0,
{
    lemma_noop_in_existing_part(es, existing, dirs, i);
    let m = multi_part(es);
    let x = existing_part(es, existing, dirs);
    let d = detection_spec(es, existing, dirs, case_insensitive);
    let k = choose|k: int|
        0 <= k < x.len() && x[k].kind == CollisionType::SourceEqualsTarget && x[k].target == es[i].0;
    assert(d[m.len() + k] == x[k]);
}

proof fn lemma_noop_in_existing_part(es: Seq<EntryView>, existing: Seq<Seq<char>>, dirs: Seq<Seq<char>>, i: int)
    requires
        0 <= i < es.len(),
        es[i].1.len() == 1,
        same_path(es[i].1[0], es[i].0),
    ensures
        exists|k: int|
            0 <= k < existing_part(es, existing, dirs).len() && existing_part(es, existing, dirs)[k].kind
                == CollisionType::SourceEqualsTarget && existing_part(es, existing, dirs)[k].target
                == es[i].0,
    decreases es.len(),
{
    let e0 = es.drop_last();
    let x0 = existing_part(e0, existing, dirs);
    let x = existing_part(es, existing, dirs);
    if i < es.len() - 1 {
        lemma_noop_in_existing_part(e0, existing, dirs, i);
        let k = choose|k: int|
            0 <= k < x0.len() && x0[k].kind == CollisionType::SourceEqualsTarget && x0[k].target
                == e0[i].0;
        assert(x[k] == x0[k]);
    } else {
        assert(x[x0.len() as int].target == es[i].0);
    }
}

/// A planned target that already exists, and is not its own only source, is
/// reported as an overwrite: a file onto a directory, a directory onto a
/// file, or otherwise an existing target.
pub proof fn lemma_overwrite_reported(
    es: Seq<EntryView>,
    existing: Seq<Seq<char>>,
    dirs: Seq<Seq<char>>,
    case_insensitive: bool,
    i: int,
)
    requires
        0 <= i < es.len(),
        es[i].1.len() > 0,
        !(es[i].1.len() == 1 && same_path(es[i].1[0], es[i].0)),
        contains_path(existing, es[i].0),
    ensures
        exists|k: int|
            0 <= k < detection_spec(es, existing, dirs, case_insensitive).len()
                && detection_spec(es, existing, dirs, case_insensitive)[k].kind == overwrite_kind(
                contains_path(dirs, es[i].0),
                contains_path(dirs, es[i].1[0]),
            ) && detection_spec(es, existing, dirs, case_insensitive)[k].target == es[i].0
                && detection_spec(es, existing, dirs, case_insensitive)[k].sources == es[i].1,
{
    lemma_overwrite_in_existing_part(es, existing, dirs, i);
    let m = multi_part(es);
    let x = existing_part(es, existing, dirs);
    let d = detection_spec(es, existing, dirs, case_insensitive);
    let k = choose|k: int|
        0 <= k < x.len() && x[k].kind == overwrite_kind(contains_path(dirs, es[i].0), contains_path(dirs, es[i].1[0]))
            && x[k].target == es[i].0 && x[k].sources == es[i].1;
    assert(d[m.len() + k] == x[k]);
}

proof fn lemma_overwrite_in_existing_part(es: Seq<EntryView>, existing: Seq<Seq<char>>, dirs: Seq<Seq<char>>, i: int)
    requires
        0 <= i < es.len(),
        es[i].1.len() > 0,
        !(es[i].1.len() == 1 && same_path(es[i].1[0], es[i].0)),
        contains_path(existing, es[i].0),
    ensures
        exists|k: int|
            0 <= k < existing_part(es, existing, dirs).len() && existing_part(es, existing, dirs)[k].kind
                == overwrite_kind(contains_path(dirs, es[i].0), contains_path(dirs, es[i].1[0])) && existing_part(
                es,
                existing,
                dirs,
            )[k].target == es[i].0 && existing_part(es, existing, dirs)[k].sources == es[i].1,
    decreases es.len(),
{
    let e0 = es.drop_last();
    let x0 = existing_part(e0, existing, dirs);
    let x = existing_part(es, existing, dirs);
    if i < es.len() - 1 {
        lemma_overwrite_in_existing_part(e0, existing, dirs, i);
        let k = choose|k: int|
            0 <= k < x0.len() && x0[k].kind == overwrite_kind(contains_path(dirs, e0[i].0), contains_path(dirs, e0[i].1[0]))
                && x0[k].target == e0[i].0 && x0[k].sources == e0[i].1;
        assert(x[k] == x0[k]);
    } else {
        assert(x[x0.len() as int].target == es[i].0);
    }
}

/// On a case-insensitive filesystem, every planned target that differs from
/// another only in letter case is reported as a case-only difference.
pub proof fn lemma_case_clash_reported(
    es: Seq<EntryView>,
    existing: Seq<Seq<char>>,
    dirs: Seq<Seq<char>>,
    i: int,
    j: int,
)
    requires
        0 <= i < es.len(),
        0 <= j < es.len(),
        i != j,
        lowercase_spec(es[i].0) == lowercase_spec(es[j].0),
    ensures
        exists|k: int|
            0 <= k < detection_spec(es, existing, dirs, true).len() && detection_spec(es, existing, dirs, true)[k]
                == case_collision(es[i]),
{
    lemma_case_part_complete(es, es.len() as int, i);
    let m = multi_part(es);
    let x = existing_part(es, existing, dirs);
    let c = case_part(es, es.len() as int);
    let d = detection_spec(es, existing, dirs, true);
    assert(case_conflicting(es, i));
    let k = choose|k: int| 0 <= k < c.len() && c[k] == case_collision(es[i]);
    assert(d[m.len() + x.len() + k] == c[k]);
}

proof fn lemma_case_part_complete(es: Seq<EntryView>, n: int, i: int)
    requires
        0 <= i < n <= es.len(),
        case_conflicting(es, i),
    ensures
        exists|k: int| 0 <= k < case_part(es, n).len() && case_part(es, n)[k] == case_collision(es[i]),
    decreases n,
{
    let c0 = case_part(es, n - 1);
    let c = case_part(es, n);
    if i < n - 1 {
        lemma_case_part_complete(es, n - 1, i);
        let k = choose|k: int| 0 <= k < c0.len() && c0[k] == case_collision(es[i]);
        assert(c[k] == c0[k]);
    } else {
        assert(c[c0.len() as int] == case_collision(es[i]));
    }
}

/// The sum of the counts of a summary.
pub open spec fn summary_total(s: Seq<(CollisionType, nat)>) -> nat
    decreases s.len(),
{
    if s.len() == 0 {
        0
    } else {
        summary_total(s.drop_last()) + s.last().1
    }
}

proof fn lemma_summary_total_update(s: Seq<(CollisionType, nat)>, i: int, x: (CollisionType, nat))
    requires
        0 <= i < s.len(),
    ensures
        summary_total(s.update(i, x)) + s[i].1 == summary_total(s) + x.1,
    decreases s.len(),
{
    let u = s.update(i, x);
    if i == s.len() - 1 {
        assert(u.drop_last() =~= s.drop_last());
    } else {
        lemma_summary_total_update(s.drop_last(), i, x);
        assert(u.drop_last() =~= s.drop_last().update(i, x));
    }
}

proof fn lemma_filter_kind_len(cs: Seq<CollisionView>, k: CollisionType)
    ensures
        filter_kind(cs, k).len() == count_kind(cs, k),
    decreases cs.len(),
{
    if cs.len() > 0 {
        lemma_filter_kind_len(cs.drop_last(), k);
    }
}

/// The summary accounts for every collision once: its counts add up to the
/// number of collisions, and each kind's count is the number of collisions
/// that [`CollisionDetector::get_collisions_by_type`] lists for that kind
/// (kinds that occur are listed, kinds that do not are absent).
pub proof fn lemma_summary_matches_collisions(cs: Seq<CollisionView>)
    ensures
        summary_total(summary_spec(cs)) == cs.len(),
        forall|i: int|
            0 <= i < summary_spec(cs).len() ==> summary_spec(cs)[i].1 == filter_kind(
                cs,
                summary_spec(cs)[i].0,
            ).len(),
        forall|k: CollisionType|
            filter_kind(cs, k).len() > 0 <==> exists|i: int|
                0 <= i < summary_spec(cs).len() && summary_spec(cs)[i].0 == k,
    decreases cs.len(),
{
    lemma_summary_counts(cs);
    assert forall|k: CollisionType| #[trigger] filter_kind(cs, k).len() == count_kind(cs, k) by {
        lemma_filter_kind_len(cs, k);
    }
    if cs.len() > 0 {
        let c0 = cs.drop_last();
        lemma_summary_matches_collisions(c0);
        let s0 = summary_spec(c0);
        let k = cs.last().kind;
        if exists|i: int| 0 <= i < s0.len() && s0[i].0 == k {
            let i = choose|i: int| 0 <= i < s0.len() && s0[i].0 == k;
            lemma_summary_total_update(s0, i, (k, s0[i].1 + 1));
            assert(summary_spec(cs) == s0.update(i, (k, s0[i].1 + 1)));
        } else {
            let s1 = s0.push((k, 1nat));
            assert(summary_spec(cs) == s1);
            assert(s1.drop_last() =~= s0);
        }
    }
}

proof fn lemma_multi_part_targets(es: Seq<EntryView>)
    requires
        entries_wf(es),
    ensures
        forall|k: int|
            0 <= k < multi_part(es).len() ==> exists|j: int|
                0 <= j < es.len() && #[trigger] multi_part(es)[k].target == es[j].0,
        forall|k1: int, k2: int|
            0 <= k1 < k2 < multi_part(es).len() ==> multi_part(es)[k1].target != multi_part(es)[k2].target,
        forall|k: int| 0 <= k < multi_part(es).len() ==> (#[trigger] multi_part(es)[k]).kind
            == CollisionType::MultipleSourcesSameTarget,
    decreases es.len(),
{
    if es.len() > 0 {
        let e0 = es.drop_last();
        assert(entries_wf(e0)) by {
            assert forall|i: int, j: int| 0 <= i < j < e0.len() implies !same_path(e0[i].0, e0[j].0) by {
                assert(e0[i] == es[i] && e0[j] == es[j]);
            }
            assert forall|i: int| 0 <= i < e0.len() implies e0[i].1.len() > 0 by {
                assert(e0[i] == es[i]);
            }
        }
        lemma_multi_part_targets(e0);
        let m0 = multi_part(e0);
        let m = multi_part(es);
        let last = es.len() - 1;
        assert forall|k: int| 0 <= k < m.len() implies exists|j: int|
            0 <= j < es.len() && #[trigger] m[k].target == es[j].0 by {
            if k < m0.len() {
                assert(m[k] == m0[k]);
                let j = choose|j: int| 0 <= j < e0.len() && m0[k].target == e0[j].0;
                assert(e0[j] == es[j]);
            } else {
                assert(m[k].target == es[last].0);
            }
        }
        assert forall|k1: int, k2: int| 0 <= k1 < k2 < m.len() implies m[k1].target != m[k2].target by {
            assert(m[k1] == m0[k1]);
            if k2 < m0.len() {
                assert(m[k2] == m0[k2]);
            } else {
                let j = choose|j: int| 0 <= j < e0.len() && m0[k1].target == e0[j].0;
                assert(e0[j] == es[j]);
                assert(m[k2].target == es[last].0);
                assert(!same_path(es[j].0, es[last].0));
            }
        }
        assert forall|k: int| 0 <= k < m.len() implies (#[trigger] m[k]).kind
            == CollisionType::MultipleSourcesSameTarget by {
            if k < m0.len() {
                assert(m[k] == m0[k]);
            }
        }
    }
}

proof fn lemma_existing_part_kinds(es: Seq<EntryView>, existing: Seq<Seq<char>>, dirs: Seq<Seq<char>>)
    ensures
        forall|k: int|
            0 <= k < existing_part(es, existing, dirs).len() ==> (#[trigger] existing_part(es, existing, dirs)[k]).kind
                != CollisionType::MultipleSourcesSameTarget && existing_part(es, existing, dirs)[k].kind
                != CollisionType::CaseOnlyDifference,
    decreases es.len(),
{
    if es.len() > 0 {
        let e0 = es.drop_last();
        lemma_existing_part_kinds(e0, existing, dirs);
        let x0 = existing_part(e0, existing, dirs);
        let x = existing_part(es, existing, dirs);
        assert forall|k: int| 0 <= k < x.len() implies (#[trigger] x[k]).kind
            != CollisionType::MultipleSourcesSameTarget && x[k].kind != CollisionType::CaseOnlyDifference by {
            if k < x0.len() {
                assert(x[k] == x0[k]);
            }
        }
    }
}

proof fn lemma_case_part_kinds(es: Seq<EntryView>, n: int)
    ensures
        forall|k: int| 0 <= k < case_part(es, n).len() ==> (#[trigger] case_part(es, n)[k]).kind
            == CollisionType::CaseOnlyDifference,
    decreases n,
{
    if n > 0 {
        lemma_case_part_kinds(es, n - 1);
        let c0 = case_part(es, n - 1);
        let c = case_part(es, n);
        assert forall|k: int| 0 <= k < c.len() implies (#[trigger] c[k]).kind == CollisionType::CaseOnlyDifference by {
            if k < c0.len() {
                assert(c[k] == c0[k]);
            }
        }
    }
}

/// Each planned target is reported as a merge of several sources at most
/// once.
pub proof fn lemma_merge_unique(
    es: Seq<EntryView>,
    existing: Seq<Seq<char>>,
    dirs: Seq<Seq<char>>,
    case_insensitive: bool,
)
    requires
        entries_wf(es),
    ensures
        forall|k1: int, k2: int|
            0 <= k1 < k2 < detection_spec(es, existing, dirs, case_insensitive).len()
                && detection_spec(es, existing, dirs, case_insensitive)[k1].kind
                == CollisionType::MultipleSourcesSameTarget && detection_spec(
                es,
                existing,
                dirs,
                case_insensitive,
            )[k2].kind == CollisionType::MultipleSourcesSameTarget ==> detection_spec(
                es,
                existing,
                dirs,
                case_insensitive,
            )[k1].target != detection_spec(es, existing, dirs, case_insensitive)[k2].target,
{
    lemma_multi_part_targets(es);
    lemma_existing_part_kinds(es, existing, dirs);
    lemma_case_part_kinds(es, es.len() as int);
    let m = multi_part(es);
    let x = existing_part(es, existing, dirs);
    let c = if case_insensitive { case_part(es, es.len() as int) } else { Seq::<CollisionView>::empty() };
    let d = detection_spec(es, existing, dirs, case_insensitive);
    assert(d =~= m + x + c);
    assert forall|k: int| m.len() <= k < d.len() implies (#[trigger] d[k]).kind
        != CollisionType::MultipleSourcesSameTarget by {
        if k < m.len() + x.len() {
            assert(d[k] == x[k - m.len()]);
        } else {
            assert(d[k] == c[k - m.len() - x.len()]);
        }
    }
    assert forall|k1: int, k2: int|
        0 <= k1 < k2 < d.len() && d[k1].kind == CollisionType::MultipleSourcesSameTarget && d[k2].kind
            == CollisionType::MultipleSourcesSameTarget implies d[k1].target != d[k2].target by {
        assert(k2 < m.len());
        assert(d[k1] == m[k1] && d[k2] == m[k2]);
    }
}

proof fn lemma_multi_part_kinds(es: Seq<EntryView>)
    ensures
        forall|k: int| 0 <= k < multi_part(es).len() ==> (#[trigger] multi_part(es)[k]).kind
            == CollisionType::MultipleSourcesSameTarget,
    decreases es.len(),
{
    if es.len() > 0 {
        let e0 = es.drop_last();
        lemma_multi_part_kinds(e0);
        let m0 = multi_part(e0);
        let m = multi_part(es);
        assert forall|k: int| 0 <= k < m.len() implies (#[trigger] m[k]).kind
            == CollisionType::MultipleSourcesSameTarget by {
            if k < m0.len() {
                assert(m[k] == m0[k]);
            }
        }
    }
}

proof fn lemma_case_part_sound(es: Seq<EntryView>, n: int)
    requires
        n <= es.len(),
    ensures
        forall|k: int|
            0 <= k < case_part(es, n).len() ==> exists|i: int, j: int|
                0 <= i < n && 0 <= j < es.len() && i != j && #[trigger] case_part(es, n)[k] == case_collision(es[i])
                    && lowercase_spec(es[j].0) == lowercase_spec(es[i].0),
    decreases n,
{
    if n > 0 {
        lemma_case_part_sound(es, n - 1);
        let c0 = case_part(es, n - 1);
        let c = case_part(es, n);
        assert forall|k: int| 0 <= k < c.len() implies exists|i: int, j: int|
            0 <= i < n && 0 <= j < es.len() && i != j && #[trigger] c[k] == case_collision(es[i])
                && lowercase_spec(es[j].0) == lowercase_spec(es[i].0) by {
            if k < c0.len() {
                assert(c[k] == c0[k]);
                let (i, j) = choose|i: int, j: int|
                    0 <= i < n - 1 && 0 <= j < es.len() && i != j && c0[k] == case_collision(es[i])
                        && lowercase_spec(es[j].0) == lowercase_spec(es[i].0);
                assert(0 <= i < n && 0 <= j < es.len() && i != j && c[k] == case_collision(es[i])
                    && lowercase_spec(es[j].0) == lowercase_spec(es[i].0));
            } else {
                assert(case_conflicting(es, n - 1));
                let j = choose|j: int|
                    0 <= j < es.len() && j != n - 1 && lowercase_spec(#[trigger] es[j].0) == lowercase_spec(es[n - 1].0);
                assert(c[k] == case_collision(es[n - 1]));
                assert(0 <= n - 1 < n && 0 <= j < es.len() && n - 1 != j && c[k] == case_collision(es[n - 1])
                    && lowercase_spec(es[j].0) == lowercase_spec(es[n - 1].0));
            }
        }
    }
}

/// A case-only difference is reported for a planned target only when another
/// planned target has the same lowercase form of its whole path; the report
/// carries that target's planned sources.
pub proof fn lemma_case_clash_sound(
    es: Seq<EntryView>,
    existing: Seq<Seq<char>>,
    dirs: Seq<Seq<char>>,
    case_insensitive: bool,
    k: int,
)
    requires
        0 <= k < detection_spec(es, existing, dirs, case_insensitive).len(),
        detection_spec(es, existing, dirs, case_insensitive)[k].kind == CollisionType::CaseOnlyDifference,
    ensures
        case_insensitive,
        exists|i: int, j: int|
            0 <= i < es.len() && 0 <= j < es.len() && i != j && detection_spec(
                es,
                existing,
                dirs,
                case_insensitive,
            )[k].target == es[i].0 && detection_spec(es, existing, dirs, case_insensitive)[k].sources
                == es[i].1 && lowercase_spec(es[j].0) == lowercase_spec(es[i].0),
{
    lemma_multi_part_kinds(es);
    lemma_existing_part_kinds(es, existing, dirs);
    let m = multi_part(es);
    let x = existing_part(es, existing, dirs);
    let n = es.len() as int;
    let c = if case_insensitive { case_part(es, n) } else { Seq::<CollisionView>::empty() };
    let d = detection_spec(es, existing, dirs, case_insensitive);
    assert(d =~= m + x + c);
    if k < m.len() {
        assert(d[k] == m[k]);
    } else if k < m.len() + x.len() {
        assert(d[k] == x[k - m.len()]);
    } else {
        assert(d[k] == c[k - m.len() - x.len()]);
        lemma_case_part_sound(es, n);
        let q = k - m.len() - x.len();
        let (i, j) = choose|i: int, j: int|
            0 <= i < n && 0 <= j < es.len() && i != j && case_part(es, n)[q] == case_collision(es[i])
                && lowercase_spec(es[j].0) == lowercase_spec(es[i].0);
        assert(d[k] == case_collision(es[i]));
    }
}

proof fn lemma_case_part_empty(es: Seq<EntryView>, n: int)
    requires
        n <= es.len(),
        forall|i: int, j: int|
            0 <= i < es.len() && 0 <= j < es.len() && i != j ==> lowercase_spec(es[i].0) != lowercase_spec(es[j].0),
    ensures
        case_part(es, n).len() == 0,
    decreases n,
{
    if n > 0 {
        lemma_case_part_empty(es, n - 1);
        assert(!case_conflicting(es, n - 1));
    }
}

/// On a case-insensitive filesystem too, nothing is reported when every
/// target has a single source that is another path, no target exists yet,
/// and no two targets have the same lowercase form.
pub proof fn lemma_clean_plan_no_collisions_ignoring_case(
    es: Seq<EntryView>,
    existing: Seq<Seq<char>>,
    dirs: Seq<Seq<char>>,
)
    requires
        forall|i: int|
            0 <= i < es.len() ==> es[i].1.len() == 1 && !same_path(es[i].1[0], es[i].0) && !contains_path(
                existing,
                es[i].0,
            ),
        forall|i: int, j: int|
            0 <= i < es.len() && 0 <= j < es.len() && i != j ==> lowercase_spec(es[i].0) != lowercase_spec(es[j].0),
    ensures
        detection_spec(es, existing, dirs, true).len() == 0,
{
    lemma_clean_plan_no_collisions(es, existing, dirs);
    lemma_case_part_empty(es, es.len() as int);
}

} // verus!
