//! Planning a rename run: which entries to touch, what they become, and in
//! which order the renames are applied.
use vstd::prelude::*;
use crate::text::{
    chars_of, string_of, contains_seq, contains_chars, starts_with_seq, ends_with_seq,
    starts_with_chars, ends_with_chars, lowercase_chars, lowercase_spec, replace_all, replace_spec,
    replace_all_ignore_case, replace_ignore_case_spec,
    split_on, split_chars, views, chars_eq, str_eq, str_contains, push_str, decimal, decimal_string,
    lemma_split_on_single, lemma_split_on_concat,
};
use crate::path::{file_name, file_name_spec, with_file_name, with_file_name_spec, depth_below, depth_spec};
use crate::pattern::{CompiledPattern, regex_compiles, regex_finds};
use crate::binary::{BinaryDetector, SampleError};

verus! {

/// Whether a rename item is a file or a directory.
#[derive(Debug, Clone, Copy, PartialEq, Eq, Structural)]
pub enum ItemType {
    File,
    Directory,
}

/// One planned rename: `original_path` becomes `new_path`.
#[derive(Debug)]
pub struct RenameItem {
    pub original_path: String,
    pub new_path: String,
    pub item_type: ItemType,
    /// Number of path components below the root directory.
    pub depth: usize,
}

/// The content of a [`RenameItem`].
pub type ItemView = (Seq<char>, Seq<char>, ItemType, nat);

impl RenameItem {
    pub open spec fn item_view(&self) -> ItemView {
        (self.original_path@, self.new_path@, self.item_type, self.depth as nat)
    }

    /// A rename whose source and target are the same path does nothing.
    pub fn is_noop(&self) -> (r: bool)
        ensures
            r == (self.original_path@ == self.new_path@),
    {
        self.original_path == self.new_path
    }
}

/// The views of a sequence of rename items.
pub open spec fn item_views(v: Seq<RenameItem>) -> Seq<ItemView> {
    Seq::new(v.len(), |i: int| v[i].item_view())
}

/// What a run processes.
#[derive(Debug, Clone, Copy, PartialEq, Eq, Structural)]
pub enum Mode {
    /// Names and contents of files and directories.
    Full,
    /// Files only (skip directories).
    FilesOnly,
    /// Directories only (skip files).
    DirsOnly,
    /// Renames only (skip content).
    NamesOnly,
    /// Content only (skip renaming).
    ContentOnly,
}

impl Mode {
    pub open spec fn files_spec(self) -> bool {
        self is Full || self is FilesOnly || self is ContentOnly || self is NamesOnly
    }

    pub open spec fn dirs_spec(self) -> bool {
        self is Full || self is DirsOnly || self is NamesOnly
    }

    /// Whether files are processed.
    pub fn should_process_files(&self) -> (r: bool)
        ensures
            r == self.files_spec(),
    {
        matches!(self, Mode::Full | Mode::FilesOnly | Mode::ContentOnly | Mode::NamesOnly)
    }

    /// Whether directories are processed.
    pub fn should_process_dirs(&self) -> (r: bool)
        ensures
            r == self.dirs_spec(),
    {
        matches!(self, Mode::Full | Mode::DirsOnly | Mode::NamesOnly)
    }

    /// Whether file contents are rewritten.
    pub fn should_process_content(&self) -> (r: bool)
        ensures
            r == !(*self is NamesOnly),
    {
        !matches!(self, Mode::NamesOnly)
    }

    /// Whether entries are renamed.
    pub fn should_process_names(&self) -> (r: bool)
        ensures
            r == !(*self is ContentOnly),
    {
        !matches!(self, Mode::ContentOnly)
    }

    /// The mode's name as the header shows it.
    pub fn name(&self) -> (r: &'static str)
        ensures
            r@ == mode_name(*self),
    {
        match self {
            Mode::Full => "Full",
            Mode::FilesOnly => "FilesOnly",
            Mode::DirsOnly => "DirsOnly",
            Mode::NamesOnly => "NamesOnly",
            Mode::ContentOnly => "ContentOnly",
        }
    }
}

/// The name of a mode.
pub open spec fn mode_name(m: Mode) -> Seq<char> {
    match m {
        Mode::Full => "Full"@,
        Mode::FilesOnly => "FilesOnly"@,
        Mode::DirsOnly => "DirsOnly"@,
        Mode::NamesOnly => "NamesOnly"@,
        Mode::ContentOnly => "ContentOnly"@,
    }
}

/// Whether a file name matches an include/exclude pattern: after optional
/// case folding, a valid regex (when regexes are enabled) decides; else `.*`
/// matches hidden names, a pattern with exactly one `*` matches names with
/// that prefix and suffix, and any other pattern matches names containing it.
pub open spec fn pattern_matches_spec(name: Seq<char>, pattern: Seq<char>, ignore_case: bool, use_regex: bool) -> bool {
    let p = folded(pattern, ignore_case);
    let c = folded(name, ignore_case);
    let parts = split_on(p, '*');
    if use_regex && regex_compiles(p) {
        regex_finds(p, c)
    } else if p == ".*"@ {
        starts_with_seq(c, "."@)
    } else if parts.len() == 2 {
        starts_with_seq(c, parts[0]) && ends_with_seq(c, parts[1])
    } else {
        contains_seq(c, p)
    }
}

/// Some pattern of the list matches the name.
pub open spec fn any_pattern_matches(name: Seq<char>, patterns: Seq<Seq<char>>, ignore_case: bool, use_regex: bool) -> bool {
    exists|i: int| 0 <= i < patterns.len() && pattern_matches_spec(name, patterns[i], ignore_case, use_regex)
}

/// The views of a vector of strings.
pub open spec fn str_views(v: Seq<String>) -> Seq<Seq<char>> {
    Seq::new(v.len(), |i: int| v[i]@)
}

/// Some include pattern lets hidden entries through: it is `.*` or holds a `*`.
pub open spec fn includes_hidden(includes: Seq<Seq<char>>) -> bool {
    exists|i: int| 0 <= i < includes.len() && (includes[i] == ".*"@ || contains_seq(includes[i], "*"@))
}

/// Whether the walk descends into / yields an entry: the root always; hidden
/// entries only when an include pattern lets them through; and, in the
/// files-only and dirs-only modes, only files or only directories.
pub open spec fn should_process_entry_spec(
    name: Option<Seq<char>>,
    is_root: bool,
    is_file: bool,
    is_dir: bool,
    mode: Mode,
    includes: Seq<Seq<char>>,
) -> bool {
    if is_root {
        true
    } else if (name matches Some(n) && n.len() > 0 && n[0] == '.') && !includes_hidden(includes) {
        false
    } else {
        match mode {
            Mode::FilesOnly => is_file,
            Mode::DirsOnly => is_dir,
            _ => true,
        }
    }
}

/// Why no rename item could be made for a path.
#[derive(Debug, PartialEq, Eq)]
pub enum PlanError {
    /// The path has no usable file name.
    InvalidFileName,
}

/// What the search string is compared with and replaced in: the name itself,
/// or both lowercased when case is ignored.
pub open spec fn folded(s: Seq<char>, ignore_case: bool) -> Seq<char> {
    if ignore_case { lowercase_spec(s) } else { s }
}

/// The rename planned for an entry, if any: the entry's name must contain
/// the search string (after case folding), its kind must be processed by the
/// mode, and the new name replaces every occurrence of the search string
/// (compared ignoring letter case when case is ignored; the rest of the name
/// keeps its case).
pub open spec fn rename_item_spec(
    path: Seq<char>,
    is_file: bool,
    root: Seq<char>,
    mode: Mode,
    old: Seq<char>,
    new: Seq<char>,
    ignore_case: bool,
) -> Result<Option<ItemView>, PlanError> {
    match file_name_spec(path) {
        None => Err(PlanError::InvalidFileName),
        Some(name) => {
            if !contains_seq(folded(name, ignore_case), folded(old, ignore_case)) {
                Ok(None)
            } else if is_file && !mode.files_spec() {
                Ok(None)
            } else if !is_file && !mode.dirs_spec() {
                Ok(None)
            } else {
                let new_name = if ignore_case {
                    replace_ignore_case_spec(name, old, new)
                } else {
                    replace_spec(name, old, new)
                };
                Ok(
                    Some(
                        (
                            path,
                            with_file_name_spec(path, new_name),
                            if is_file { ItemType::File } else { ItemType::Directory },
                            depth_spec(path, root),
                        ),
                    ),
                )
            }
        },
    }
}

/// The scan's decision for one entry below the root.
#[derive(Debug)]
pub struct EntryPlan {
    /// The entry is a file whose content is to be searched for the old string.
    pub check_content: bool,
    /// The rename planned for the entry, if any.
    pub rename: Option<RenameItem>,
}

/// The settings of a rename run that decide what is planned.
pub struct RenameEngine {
    pub root_dir: String,
    pub old_string: String,
    pub new_string: String,
    pub mode: Mode,
    pub include_patterns: Vec<String>,
    pub exclude_patterns: Vec<String>,
    pub ignore_case: bool,
    pub use_regex: bool,
}

impl RenameEngine {
    /// An engine with these settings.
    pub fn new(
        root_dir: String,
        old_string: String,
        new_string: String,
        mode: Mode,
        include_patterns: Vec<String>,
        exclude_patterns: Vec<String>,
        ignore_case: bool,
        use_regex: bool,
    ) -> (r: Self)
        ensures
            r.root_dir@ == root_dir@,
            r.old_string@ == old_string@,
            r.new_string@ == new_string@,
            r.mode == mode,
            str_views(r.include_patterns@) == str_views(include_patterns@),
            str_views(r.exclude_patterns@) == str_views(exclude_patterns@),
            r.ignore_case == ignore_case,
            r.use_regex == use_regex,
    {
        RenameEngine {
            root_dir,
            old_string,
            new_string,
            mode,
            include_patterns,
            exclude_patterns,
            ignore_case,
            use_regex,
        }
    }

    /// Whether files are processed.
    pub fn should_process_files(&self) -> (r: bool)
        ensures
            r == self.mode.files_spec(),
    {
        self.mode.should_process_files()
    }

    /// Whether directories are processed.
    pub fn should_process_dirs(&self) -> (r: bool)
        ensures
            r == self.mode.dirs_spec(),
    {
        self.mode.should_process_dirs()
    }

    /// Whether file contents are rewritten.
    pub fn should_process_content(&self) -> (r: bool)
        ensures
            r == !(self.mode is NamesOnly),
    {
        self.mode.should_process_content()
    }

    /// Whether entries are renamed.
    pub fn should_process_names(&self) -> (r: bool)
        ensures
            r == !(self.mode is ContentOnly),
    {
        self.mode.should_process_names()
    }

    /// Whether a file name matches a pattern.
    pub fn path_matches_pattern(&self, name: &str, pattern: &str) -> (r: bool)
        ensures
            r == pattern_matches_spec(name@, pattern@, self.ignore_case, self.use_regex),
    {
        let p = if self.ignore_case { lowercase_chars(&chars_of(pattern)) } else { chars_of(pattern) };
        let c = if self.ignore_case { lowercase_chars(&chars_of(name)) } else { chars_of(name) };
        if self.use_regex {
            let ps = string_of(&p);
            if let Some(re) = CompiledPattern::compile(ps.as_str()) {
                let cs = string_of(&c);
                return re.is_match(cs.as_str());
            }
        }
        if chars_eq(&p, &chars_of(".*")) {
            return starts_with_chars(&c, &chars_of("."));
        }
        let parts = split_chars(&p, '*');
        if parts.len() == 2 {
            assert(views(parts@)[0] == parts@[0]@);
            assert(views(parts@)[1] == parts@[1]@);
            return starts_with_chars(&c, &parts[0]) && ends_with_chars(&c, &parts[1]);
        }
        contains_chars(&c, &p)
    }

    fn any_matches(&self, name: &str, patterns: &Vec<String>) -> (r: bool)
        ensures
            r == any_pattern_matches(name@, str_views(patterns@), self.ignore_case, self.use_regex),
    {
        let mut i: usize = 0;
        while i < patterns.len()
            invariant
                i <= patterns.len(),
                forall|j: int|
                    0 <= j < i ==> !pattern_matches_spec(
                        name@,
                        str_views(patterns@)[j],
                        self.ignore_case,
                        self.use_regex,
                    ),
            decreases patterns.len() - i,
        {
            if self.path_matches_pattern(name, patterns[i].as_str()) {
                assert(pattern_matches_spec(name@, str_views(patterns@)[i as int], self.ignore_case, self.use_regex));
                return true;
            }
            i += 1;
        }
        false
    }

    /// Whether an entry's file name passes the include and exclude patterns:
    /// some include pattern must match when there are any, and no exclude
    /// pattern may match.
    pub fn matches_patterns(&self, name: &str) -> (r: bool)
        ensures
            r == ((self.include_patterns@.len() == 0 || any_pattern_matches(
                name@,
                str_views(self.include_patterns@),
                self.ignore_case,
                self.use_regex,
            )) && (self.exclude_patterns@.len() == 0 || !any_pattern_matches(
                name@,
                str_views(self.exclude_patterns@),
                self.ignore_case,
                self.use_regex,
            ))),
    {
        if self.include_patterns.len() > 0 && !self.any_matches(name, &self.include_patterns) {
            return false;
        }
        if self.exclude_patterns.len() > 0 && self.any_matches(name, &self.exclude_patterns) {
            return false;
        }
        true
    }

    /// The walk filter for one entry: its file name (if any), whether it is
    /// the root, a file, a directory.
    pub fn should_process_entry(&self, name: Option<&str>, is_root: bool, is_file: bool, is_dir: bool) -> (r: bool)
        ensures
            r == should_process_entry_spec(
                match name {
                    Some(n) => Some(n@),
                    None => None,
                },
                is_root,
                is_file,
                is_dir,
                self.mode,
                str_views(self.include_patterns@),
            ),
    {
        if is_root {
            return true;
        }
        if let Some(n) = name {
            let nc = chars_of(n);
            if nc.len() > 0 && nc[0] == '.' {
                let mut allowed = false;
                let mut i: usize = 0;
                while i < self.include_patterns.len()
                    invariant
                        i <= self.include_patterns.len(),
                        allowed == exists|j: int|
                            0 <= j < i && (str_views(self.include_patterns@)[j] == ".*"@ || contains_seq(
                                str_views(self.include_patterns@)[j],
                                "*"@,
                            )),
                    decreases self.include_patterns.len() - i,
                {
                    let p = self.include_patterns[i].as_str();
                    assert(str_views(self.include_patterns@)[i as int] == p@);
                    if str_eq(p, ".*") || str_contains(p, "*") {
                        allowed = true;
                    }
                    i += 1;
                }
                if !allowed {
                    return false;
                }
            }
        }
        match self.mode {
            Mode::FilesOnly => is_file,
            Mode::DirsOnly => is_dir,
            _ => true,
        }
    }

    /// Plans the rename of one entry (`is_file`: whether it is a file).
    pub fn create_rename_item(&self, path: &str, is_file: bool) -> (r: Result<Option<RenameItem>, PlanError>)
        requires
            path@.len() < usize::MAX,
            path@.len() < 0x7fff_ffff_ffff_ffff,
        ensures
            match (
                r,
                rename_item_spec(
                    path@,
                    is_file,
                    self.root_dir@,
                    self.mode,
                    self.old_string@,
                    self.new_string@,
                    self.ignore_case,
                ),
            ) {
                (Ok(Some(item)), Ok(Some(v))) => item.item_view() == v,
                (Ok(None), Ok(None)) => true,
                (Err(e1), Err(e2)) => e1 == e2,
                _ => false,
            },
    {
        let name = match file_name(path) {
            Some(n) => n,
            None => return Err(PlanError::InvalidFileName),
        };
        let old = self.old_string.as_str();
        let name_c = if self.ignore_case { lowercase_chars(&chars_of(name.as_str())) } else { chars_of(name.as_str()) };
        let old_c = if self.ignore_case { lowercase_chars(&chars_of(old)) } else { chars_of(old) };
        if !contains_chars(&name_c, &old_c) {
            return Ok(None);
        }
        let item_type = if is_file {
            if !self.should_process_files() {
                return Ok(None);
            }
            ItemType::File
        } else {
            if !self.should_process_dirs() {
                return Ok(None);
            }
            ItemType::Directory
        };
        let new_name = if self.ignore_case {
            replace_all_ignore_case(&chars_of(name.as_str()), &chars_of(old), &chars_of(self.new_string.as_str()))
        } else {
            replace_all(&name_c, &old_c, &chars_of(self.new_string.as_str()))
        };
        let new_path = with_file_name(path, string_of(&new_name).as_str());
        let depth = depth_below(path, self.root_dir.as_str());
        Ok(
            Some(
                RenameItem {
                    original_path: string_of(&chars_of(path)),
                    new_path,
                    item_type,
                    depth,
                },
            ),
        )
    }

    /// The header shown before a run in the human format (nothing in the
    /// other formats).
    pub fn header_messages(&self, format: OutputFormat, dry_run: bool, backup: bool) -> (r: Vec<Message>)
        ensures
            message_views(r@) == header_spec(
                self.root_dir@,
                self.old_string@,
                self.new_string@,
                self.mode,
                format,
                dry_run,
                backup,
            ),
    {
        let mut out: Vec<Message> = Vec::new();
        if format == OutputFormat::Human {
            out.push(message1(MessageKind::Success, "=== REFAC TOOL ==="));
            out.push(message2(MessageKind::Info, "Root directory: ", self.root_dir.as_str()));
            out.push(message3(MessageKind::Info, "Old string: '", self.old_string.as_str(), "'"));
            out.push(message3(MessageKind::Info, "New string: '", self.new_string.as_str(), "'"));
            out.push(message2(MessageKind::Info, "Mode: ", self.mode.name()));
            if dry_run {
                out.push(message1(MessageKind::Warning, "DRY RUN MODE: No changes will be made"));
            }
            if backup {
                out.push(message1(MessageKind::Info, "Backup mode: Enabled"));
            }
        }
        assert(message_views(out@) =~= header_spec(
            self.root_dir@,
            self.old_string@,
            self.new_string@,
            self.mode,
            format,
            dry_run,
            backup,
        ));
        out
    }

    /// The string searched for in file contents: the old string, lowercased
    /// when case is ignored.
    pub fn content_search_string(&self) -> (r: String)
        ensures
            r@ == folded(self.old_string@, self.ignore_case),
    {
        if self.ignore_case {
            string_of(&lowercase_chars(&chars_of(self.old_string.as_str())))
        } else {
            string_of(&chars_of(self.old_string.as_str()))
        }
    }

    /// Whether a file's content is to be rewritten: it must be text (by the
    /// detector's verdict on its name and sampled first bytes, see
    /// [`BinaryDetector::is_text_file`]), readable as text (`content`), and
    /// contain the search string.
    pub fn file_needs_content_replacement(
        &self,
        detector: &BinaryDetector,
        file_name: &str,
        sample: Option<&[u8]>,
        retry: Option<&[u8]>,
        content: Option<&str>,
    ) -> (r: Result<bool, SampleError>)
        ensures
            match detector.is_binary_result(file_name@, sample, retry) {
                Err(e) => r == Err::<bool, SampleError>(e),
                Ok(true) => r == Ok::<bool, SampleError>(false),
                Ok(false) => r == Ok::<bool, SampleError>(
                    match content {
                        Some(c) => contains_seq(c@, folded(self.old_string@, self.ignore_case)),
                        None => false,
                    },
                ),
            },
    {
        let is_text = match detector.is_text_file(file_name, sample, retry) {
            Ok(t) => t,
            Err(e) => return Err(e),
        };
        if !is_text {
            return Ok(false);
        }
        match content {
            Some(c) => {
                let search = self.content_search_string();
                Ok(str_contains(c, search.as_str()))
            },
            None => Ok(false),
        }
    }

    /// The scan's decision for an entry below the root that the walk yielded:
    /// entries whose file name fails the include/exclude patterns are left
    /// alone; otherwise a file has its content checked when contents are
    /// rewritten and files are processed, and the entry gets a rename when
    /// names are processed and its name contains the old string.
    pub fn plan_entry(&self, path: &str, is_file: bool) -> (r: Result<EntryPlan, PlanError>)
        requires
            path@.len() < usize::MAX,
            path@.len() < 0x7fff_ffff_ffff_ffff,
        ensures
            ({
                let name = match file_name_spec(path@) {
                    Some(n) => n,
                    None => Seq::<char>::empty(),
                };
                let passes = (self.include_patterns@.len() == 0 || any_pattern_matches(
                    name,
                    str_views(self.include_patterns@),
                    self.ignore_case,
                    self.use_regex,
                )) && (self.exclude_patterns@.len() == 0 || !any_pattern_matches(
                    name,
                    str_views(self.exclude_patterns@),
                    self.ignore_case,
                    self.use_regex,
                ));
                let rename = rename_item_spec(
                    path@,
                    is_file,
                    self.root_dir@,
                    self.mode,
                    self.old_string@,
                    self.new_string@,
                    self.ignore_case,
                );
                if !passes {
                    r matches Ok(p) && !p.check_content && p.rename is None
                } else if !(self.mode is ContentOnly) && rename is Err {
                    r == Err::<EntryPlan, PlanError>(PlanError::InvalidFileName)
                } else {
                    r matches Ok(p) && p.check_content == (!(self.mode is NamesOnly) && self.mode.files_spec()
                        && is_file) && (if self.mode is ContentOnly {
                        p.rename is None
                    } else {
                        match (p.rename, rename) {
                            (Some(item), Ok(Some(v))) => item.item_view() == v,
                            (None, Ok(None)) => true,
                            _ => false,
                        }
                    })
                }
            }),
    {
        let name = match file_name(path) {
            Some(n) => n,
            None => String::new(),
        };
        if !self.matches_patterns(name.as_str()) {
            return Ok(EntryPlan { check_content: false, rename: None });
        }
        let check_content = self.should_process_content() && self.should_process_files() && is_file;
        let rename = if self.should_process_names() {
            match self.create_rename_item(path, is_file) {
                Ok(item) => item,
                Err(e) => return Err(e),
            }
        } else {
            None
        };
        Ok(EntryPlan { check_content, rename })
    }
}

// ----------------------------------------------------------------------------
// Order of the renames
// ----------------------------------------------------------------------------

/// The position key of a rename: directories first, deepest first; then
/// files, shallowest first.
pub open spec fn order_key(v: ItemView) -> int {
    match v.2 {
        ItemType::Directory => -1 - v.3,
        ItemType::File => v.3 as int,
    }
}

/// `x` inserted into `t` after every element whose key is not greater.
pub open spec fn insert_sorted(t: Seq<ItemView>, x: ItemView) -> Seq<ItemView>
    decreases t.len(),
{
    if t.len() == 0 || order_key(t.last()) <= order_key(x) {
        t.push(x)
    } else {
        insert_sorted(t.drop_last(), x).push(t.last())
    }
}

/// The stable sort of the renames by [`order_key`].
pub open spec fn sort_spec(s: Seq<ItemView>) -> Seq<ItemView>
    decreases s.len(),
{
    if s.len() == 0 {
        Seq::empty()
    } else {
        insert_sorted(sort_spec(s.drop_last()), s.last())
    }
}

/// Whether `a` goes after `b`.
fn key_greater(a: &RenameItem, b: &RenameItem) -> (r: bool)
    ensures
        r == (order_key(a.item_view()) > order_key(b.item_view())),
{
    match (a.item_type, b.item_type) {
        (ItemType::Directory, ItemType::Directory) => a.depth < b.depth,
        (ItemType::Directory, ItemType::File) => false,
        (ItemType::File, ItemType::Directory) => true,
        (ItemType::File, ItemType::File) => a.depth > b.depth,
    }
}

proof fn lemma_insert_at(t: Seq<ItemView>, x: ItemView, j: int)
    requires
        0 <= j <= t.len(),
        forall|k: int| j <= k < t.len() ==> order_key(#[trigger] t[k]) > order_key(x),
        j == 0 || order_key(t[j - 1]) <= order_key(x),
    ensures
        insert_sorted(t, x) == t.take(j).push(x) + t.skip(j),
    decreases t.len() - j,
{
    if j == t.len() {
        assert(t.take(j) =~= t);
        assert(t.skip(j) =~= Seq::<ItemView>::empty());
        if t.len() > 0 {
            assert(t.last() == t[j - 1]);
        }
    } else {
        assert(order_key(t[t.len() - 1]) > order_key(x));
        let t0 = t.drop_last();
        assert forall|k: int| j <= k < t0.len() implies order_key(#[trigger] t0[k]) > order_key(x) by {
            assert(t0[k] == t[k]);
        }
        if j > 0 {
            assert(t0[j - 1] == t[j - 1]);
        }
        lemma_insert_at(t0, x, j);
        assert(t0.take(j) =~= t.take(j));
        assert(t0.skip(j).push(t.last()) =~= t.skip(j));
        assert(insert_sorted(t, x) == insert_sorted(t0, x).push(t.last()));
        assert(t.take(j).push(x) + t.skip(j) =~= (t0.take(j).push(x) + t0.skip(j)).push(t.last()));
    }
}

/// Sorts the renames so that directories come first, deepest first, then
/// files, shallowest first; renames with equal keys keep their order.
pub fn sort_rename_items(items: Vec<RenameItem>) -> (r: Vec<RenameItem>)
    ensures
        item_views(r@) == sort_spec(item_views(items@)),
        sorted_by_key(item_views(r@)),
        item_views(r@).to_multiset() == item_views(items@).to_multiset(),
{
    let ghost input = item_views(items@);
    let mut rest = items;
    let mut out: Vec<RenameItem> = Vec::new();
    let mut i: usize = 0;
    let n = rest.len();
    assert(input.take(0) =~= Seq::<ItemView>::empty());
    assert(item_views(out@) =~= sort_spec(input.take(0)));
    assert(item_views(rest@) =~= input.skip(0));
    while rest.len() > 0
        invariant
            i + rest@.len() == n,
            n == input.len(),
            item_views(rest@) == input.skip(i as int),
            item_views(out@) == sort_spec(input.take(i as int)),
        decreases rest@.len(),
    {
        let ghost before = item_views(out@);
        let ghost old_rest = rest@;
        let x = rest.remove(0);
        assert(rest@ == old_rest.remove(0));
        assert(item_views(rest@) =~= item_views(old_rest).drop_first());
        assert(input.skip(i as int).drop_first() =~= input.skip(i + 1));
        assert(x.item_view() == input[i as int]) by {
            assert(input.skip(i as int)[0] == input[i as int]);
        }
        assert(item_views(rest@) =~= input.skip(i + 1));
        let mut j = out.len();
        while j > 0 && key_greater(&out[j - 1], &x)
            invariant
                j <= out@.len(),
                before == item_views(out@),
                forall|k: int| j <= k < out@.len() ==> order_key(#[trigger] before[k]) > order_key(x.item_view()),
            decreases j,
        {
            j -= 1;
        }
        proof {
            if j > 0 {
                assert(before[j - 1] == out@[j - 1].item_view());
            }
            lemma_insert_at(before, x.item_view(), j as int);
        }
        out.insert(j, x);
        assert(item_views(out@) =~= before.take(j as int).push(x.item_view()) + before.skip(j as int));
        assert(input.take(i + 1).drop_last() =~= input.take(i as int));
        assert(input.take(i + 1).last() == input[i as int]);
        i += 1;
    }
    assert(input.take(n as int) =~= input);
    proof {
        lemma_sort_spec_sorted_permutation(input);
    }
    out
}

/// Counts of a planned run.
#[derive(Debug)]
pub struct RenameStats {
    pub files_with_content_changes: usize,
    pub files_renamed: usize,
    pub directories_renamed: usize,
    pub errors: Vec<String>,
}

/// Number of renames of the given kind.
pub open spec fn count_type(s: Seq<ItemView>, t: ItemType) -> nat
    decreases s.len(),
{
    if s.len() == 0 {
        0
    } else {
        count_type(s.drop_last(), t) + if s.last().2 == t { 1nat } else { 0nat }
    }
}

impl RenameStats {
    /// The counts for a plan: the files whose content changes, and the file
    /// and directory renames.
    pub fn from_plan(content_files: usize, items: &Vec<RenameItem>) -> (r: Self)
        ensures
            r.files_with_content_changes == content_files,
            r.files_renamed == count_type(item_views(items@), ItemType::File),
            r.directories_renamed == count_type(item_views(items@), ItemType::Directory),
            r.errors@.len() == 0,
    {
        let ghost v = item_views(items@);
        let mut files: usize = 0;
        let mut dirs: usize = 0;
        let mut i: usize = 0;
        assert(v.take(0) =~= Seq::<ItemView>::empty());
        while i < items.len()
            invariant
                i <= items@.len(),
                v == item_views(items@),
                files == count_type(v.take(i as int), ItemType::File),
                dirs == count_type(v.take(i as int), ItemType::Directory),
                files + dirs == i,
            decreases items@.len() - i,
        {
            assert(v.take(i + 1).drop_last() =~= v.take(i as int));
            assert(v.take(i + 1).last() == items@[i as int].item_view());
            match items[i].item_type {
                ItemType::File => files += 1,
                ItemType::Directory => dirs += 1,
            }
            i += 1;
        }
        assert(v.take(items@.len() as int) =~= v);
        RenameStats {
            files_with_content_changes: content_files,
            files_renamed: files,
            directories_renamed: dirs,
            errors: Vec::new(),
        }
    }

    /// Content changes plus file and directory renames.
    pub open spec fn total_spec(&self) -> int {
        self.files_with_content_changes + self.files_renamed + self.directories_renamed
    }

    /// The total number of changes.
    pub fn total_changes(&self) -> (r: usize)
        requires
            self.total_spec() <= usize::MAX,
        ensures
            r == self.total_spec(),
    {
        self.files_with_content_changes + self.files_renamed + self.directories_renamed
    }

    /// The change summary shown before confirmation, in the plain and human
    /// formats (the JSON form is serialised elsewhere, and gives no lines).
    pub fn summary_messages(&self, format: OutputFormat) -> (r: Vec<Message>)
        requires
            self.total_spec() <= usize::MAX,
        ensures
            message_views(r@) == summary_spec(
                self.files_with_content_changes as nat,
                self.files_renamed as nat,
                self.directories_renamed as nat,
                format,
            ),
    {
        let total = self.total_changes();
        let content = decimal_string(self.files_with_content_changes as u64);
        let files = decimal_string(self.files_renamed as u64);
        let dirs = decimal_string(self.directories_renamed as u64);
        let total_s = decimal_string(total as u64);
        let mut out: Vec<Message> = Vec::new();
        match format {
            OutputFormat::Json => {},
            OutputFormat::Plain => {
                out.push(message2(MessageKind::Info, "Content changes: ", content.as_str()));
                out.push(message2(MessageKind::Info, "File renames: ", files.as_str()));
                out.push(message2(MessageKind::Info, "Directory renames: ", dirs.as_str()));
                out.push(message2(MessageKind::Info, "Total changes: ", total_s.as_str()));
            },
            OutputFormat::Human => {
                out.push(message1(MessageKind::Info, "=== CHANGE SUMMARY ==="));
                out.push(message3(MessageKind::Info, "Content modifications: ", content.as_str(), " file(s)"));
                out.push(message3(MessageKind::Info, "File renames:         ", files.as_str(), " file(s)"));
                out.push(
                    message3(MessageKind::Info, "Directory renames:    ", dirs.as_str(), " directory(ies)"),
                );
                out.push(message2(MessageKind::Info, "Total changes:        ", total_s.as_str()));
            },
        }
        assert(message_views(out@) =~= summary_spec(
            self.files_with_content_changes as nat,
            self.files_renamed as nat,
            self.directories_renamed as nat,
            format,
        ));
        out
    }

    /// The report shown when the run is over, in the plain and human formats
    /// (none in JSON).
    pub fn final_report_messages(&self, format: OutputFormat, dry_run: bool) -> (r: Vec<Message>)
        requires
            self.total_spec() <= usize::MAX,
        ensures
            message_views(r@) == final_report_spec(
                self.total_spec() as nat,
                str_views(self.errors@),
                format,
                dry_run,
            ),
    {
        let total_s = decimal_string(self.total_changes() as u64);
        let mut out: Vec<Message> = Vec::new();
        match format {
            OutputFormat::Json => {},
            OutputFormat::Plain => {
                if dry_run {
                    out.push(message1(MessageKind::Info, "Dry run complete. No changes were made."));
                } else {
                    out.push(message1(MessageKind::Info, "Operation completed successfully."));
                }
                out.push(message2(MessageKind::Info, "Total changes: ", total_s.as_str()));
            },
            OutputFormat::Human => {
                out.push(message1(MessageKind::Success, "=== OPERATION COMPLETE ==="));
                if dry_run {
                    out.push(message1(MessageKind::Info, "Dry run complete. No changes were made."));
                } else {
                    out.push(message1(MessageKind::Success, "Operation completed successfully!"));
                    out.push(message2(MessageKind::Info, "Total changes applied: ", total_s.as_str()));
                }
                if self.errors.len() > 0 {
                    let count = decimal_string(self.errors.len() as u64);
                    out.push(message2(MessageKind::Warning, count.as_str(), " error(s) occurred:"));
                    let ghost head = message_views(out@);
                    let mut i: usize = 0;
                    while i < self.errors.len()
                        invariant
                            i <= self.errors@.len(),
                            message_views(out@) == head + Seq::new(
                                i as nat,
                                |k: int| (MessageKind::Error, str_views(self.errors@)[k]),
                            ),
                        decreases self.errors@.len() - i,
                    {
                        let ghost before = message_views(out@);
                        out.push(message1(MessageKind::Error, self.errors[i].as_str()));
                        assert(str_views(self.errors@)[i as int] == self.errors@[i as int]@);
                        assert(message_views(out@) =~= before.push((MessageKind::Error, self.errors@[i as int]@)));
                        assert(message_views(out@) =~= head + Seq::new(
                            (i + 1) as nat,
                            |k: int| (MessageKind::Error, str_views(self.errors@)[k]),
                        ));
                        i += 1;
                    }
                }
            },
        }
        assert(message_views(out@) =~= final_report_spec(
            self.total_spec() as nat,
            str_views(self.errors@),
            format,
            dry_run,
        ));
        out
    }
}

/// How the tool reports.
#[derive(Debug, Clone, Copy, PartialEq, Eq, Structural)]
pub enum OutputFormat {
    Human,
    Json,
    Plain,
}

/// Whether the user is asked before changes are made: not when forced, not
/// in a dry run, and not in the JSON format.
pub fn confirmation_needed(force: bool, dry_run: bool, format: OutputFormat) -> (r: bool)
    ensures
        r == (!force && !dry_run && format != OutputFormat::Json),
{
    !force && !dry_run && format != OutputFormat::Json
}

/// How a message is shown.
#[derive(Debug, Clone, Copy, PartialEq, Eq, Structural)]
pub enum MessageKind {
    Info,
    Success,
    Warning,
    Error,
}

/// One line of output and how it is shown.
#[derive(Debug)]
pub struct Message {
    pub kind: MessageKind,
    pub text: String,
}

/// The kinds and texts of a sequence of messages.
pub open spec fn message_views(v: Seq<Message>) -> Seq<(MessageKind, Seq<char>)> {
    Seq::new(v.len(), |i: int| (v[i].kind, v[i].text@))
}

/// The message `a`.
fn message1(kind: MessageKind, a: &str) -> (r: Message)
    ensures
        r.kind == kind,
        r.text@ == a@,
{
    Message { kind, text: string_of(&chars_of(a)) }
}

/// The message `a` + `b`.
fn message2(kind: MessageKind, a: &str, b: &str) -> (r: Message)
    ensures
        r.kind == kind,
        r.text@ == a@ + b@,
{
    let mut text = string_of(&chars_of(a));
    push_str(&mut text, b);
    Message { kind, text }
}

/// The message `a` + `b` + `c`.
fn message3(kind: MessageKind, a: &str, b: &str, c: &str) -> (r: Message)
    ensures
        r.kind == kind,
        r.text@ == a@ + b@ + c@,
{
    let mut text = string_of(&chars_of(a));
    push_str(&mut text, b);
    push_str(&mut text, c);
    Message { kind, text }
}

/// The header for these settings.
pub open spec fn header_spec(
    root: Seq<char>,
    old: Seq<char>,
    new: Seq<char>,
    mode: Mode,
    format: OutputFormat,
    dry_run: bool,
    backup: bool,
) -> Seq<(MessageKind, Seq<char>)> {
    if format == OutputFormat::Human {
        seq![
            (MessageKind::Success, "=== REFAC TOOL ==="@),
            (MessageKind::Info, "Root directory: "@ + root),
            (MessageKind::Info, "Old string: '"@ + old + "'"@),
            (MessageKind::Info, "New string: '"@ + new + "'"@),
            (MessageKind::Info, "Mode: "@ + mode_name(mode)),
        ] + (if dry_run {
            seq![(MessageKind::Warning, "DRY RUN MODE: No changes will be made"@)]
        } else {
            Seq::empty()
        }) + (if backup {
            seq![(MessageKind::Info, "Backup mode: Enabled"@)]
        } else {
            Seq::empty()
        })
    } else {
        Seq::empty()
    }
}

/// The change summary for these counts.
pub open spec fn summary_spec(content: nat, files: nat, dirs: nat, format: OutputFormat) -> Seq<
    (MessageKind, Seq<char>),
> {
    let total = content + files + dirs;
    match format {
        OutputFormat::Json => Seq::empty(),
        OutputFormat::Plain => seq![
            (MessageKind::Info, "Content changes: "@ + decimal(content)),
            (MessageKind::Info, "File renames: "@ + decimal(files)),
            (MessageKind::Info, "Directory renames: "@ + decimal(dirs)),
            (MessageKind::Info, "Total changes: "@ + decimal(total)),
        ],
        OutputFormat::Human => seq![
            (MessageKind::Info, "=== CHANGE SUMMARY ==="@),
            (MessageKind::Info, "Content modifications: "@ + decimal(content) + " file(s)"@),
            (MessageKind::Info, "File renames:         "@ + decimal(files) + " file(s)"@),
            (MessageKind::Info, "Directory renames:    "@ + decimal(dirs) + " directory(ies)"@),
            (MessageKind::Info, "Total changes:        "@ + decimal(total)),
        ],
    }
}

/// The final report for this total and these errors.
pub open spec fn final_report_spec(total: nat, errors: Seq<Seq<char>>, format: OutputFormat, dry_run: bool) -> Seq<
    (MessageKind, Seq<char>),
> {
    match format {
        OutputFormat::Json => Seq::empty(),
        OutputFormat::Plain => seq![
            if dry_run {
                (MessageKind::Info, "Dry run complete. No changes were made."@)
            } else {
                (MessageKind::Info, "Operation completed successfully."@)
            },
            (MessageKind::Info, "Total changes: "@ + decimal(total)),
        ],
        OutputFormat::Human => {
            let head = seq![(MessageKind::Success, "=== OPERATION COMPLETE ==="@)];
            let outcome = if dry_run {
                seq![(MessageKind::Info, "Dry run complete. No changes were made."@)]
            } else {
                seq![
                    (MessageKind::Success, "Operation completed successfully!"@),
                    (MessageKind::Info, "Total changes applied: "@ + decimal(total)),
                ]
            };
            let errs = if errors.len() > 0 {
                seq![(MessageKind::Warning, decimal(errors.len()) + " error(s) occurred:"@)] + Seq::new(
                    errors.len(),
                    |k: int| (MessageKind::Error, errors[k]),
                )
            } else {
                Seq::empty()
            };
            head + outcome + errs
        },
    }
}

// ----------------------------------------------------------------------------
// Laws of the walk filter and the modes
// ----------------------------------------------------------------------------

/// A plain (not regex, case-sensitive) pattern with exactly one `*` matches
/// exactly the names that start with the part before the `*` and end with
/// the part after it.
pub proof fn lemma_star_pattern(name: Seq<char>, prefix: Seq<char>, suffix: Seq<char>)
    requires
        !prefix.contains('*'),
        !suffix.contains('*'),
    ensures
        pattern_matches_spec(name, prefix + "*"@ + suffix, false, false) == (starts_with_seq(name, prefix)
            && ends_with_seq(name, suffix)),
{
    reveal_strlit("*");
    reveal_strlit(".*");
    reveal_strlit(".");
    let star = seq!['*'];
    assert("*"@ =~= star);
    let p = prefix + "*"@ + suffix;
    assert(p =~= prefix + star + suffix);
    lemma_split_on_single(prefix, '*');
    lemma_split_on_single(suffix, '*');
    lemma_split_on_concat(prefix, suffix, '*');
    assert(split_on(p, '*') =~= seq![prefix, suffix]);
    assert(folded(p, false) == p);
    assert(folded(name, false) == name);
    if p == ".*"@ {
        assert(p[prefix.len() as int] == '*');
        assert(p.len() == 2);
        if prefix.len() == 0 {
            assert(p[0] == '*');
        }
        assert(prefix.len() == 1);
        assert(prefix[0] == p[0]);
        assert(".*"@[0] == '.');
        assert("."@.len() == 1 && "."@[0] == '.');
        assert(prefix =~= "."@);
        assert(suffix.len() == 0);
        assert(name.subrange(name.len() as int, name.len() as int) =~= suffix);
        assert(ends_with_seq(name, suffix));
    }
}

/// A plain (not regex, case-sensitive) pattern without `*` matches exactly
/// the names that contain it.
pub proof fn lemma_plain_pattern(name: Seq<char>, pattern: Seq<char>)
    requires
        !pattern.contains('*'),
    ensures
        pattern_matches_spec(name, pattern, false, false) == contains_seq(name, pattern),
{
    reveal_strlit(".*");
    lemma_split_on_single(pattern, '*');
    if pattern == ".*"@ {
        assert(pattern[1] == '*');
    }
}

/// Only the files-only and content-only modes leave directories alone, and
/// only the dirs-only mode leaves files alone.
pub proof fn lemma_mode_kinds(m: Mode)
    ensures
        m.dirs_spec() <==> !(m is FilesOnly || m is ContentOnly),
        m.files_spec() <==> !(m is DirsOnly),
{
}

/// The names-only mode plans exactly the renames of the full mode, for
/// files and directories alike; it only leaves contents alone.
pub proof fn lemma_names_only_renames_as_full(
    path: Seq<char>,
    is_file: bool,
    root: Seq<char>,
    old: Seq<char>,
    new: Seq<char>,
    ignore_case: bool,
)
    ensures
        rename_item_spec(path, is_file, root, Mode::NamesOnly, old, new, ignore_case) == rename_item_spec(
            path,
            is_file,
            root,
            Mode::Full,
            old,
            new,
            ignore_case,
        ),
{
}

// ----------------------------------------------------------------------------
// Laws of the rename order
// ----------------------------------------------------------------------------

/// Keys never decrease along the sequence.
pub open spec fn sorted_by_key(s: Seq<ItemView>) -> bool {
    forall|i: int, j: int| 0 <= i < j < s.len() ==> order_key(s[i]) <= order_key(s[j])
}

proof fn lemma_insert_sorted_bounded(t: Seq<ItemView>, x: ItemView, bound: int)
    requires
        forall|k: int| 0 <= k < t.len() ==> order_key(#[trigger] t[k]) <= bound,
        order_key(x) <= bound,
    ensures
        forall|k: int| 0 <= k < insert_sorted(t, x).len() ==> order_key(#[trigger] insert_sorted(t, x)[k])
            <= bound,
    decreases t.len(),
{
    if t.len() > 0 && order_key(t.last()) > order_key(x) {
        let t0 = t.drop_last();
        assert forall|k: int| 0 <= k < t0.len() implies order_key(#[trigger] t0[k]) <= bound by {
            assert(t0[k] == t[k]);
        }
        lemma_insert_sorted_bounded(t0, x, bound);
        let r0 = insert_sorted(t0, x);
        assert(insert_sorted(t, x) == r0.push(t.last()));
        assert forall|k: int| 0 <= k < insert_sorted(t, x).len() implies order_key(
            #[trigger] insert_sorted(t, x)[k],
        ) <= bound by {
            if k < r0.len() {
                assert(insert_sorted(t, x)[k] == r0[k]);
            } else {
                assert(insert_sorted(t, x)[k] == t[t.len() - 1]);
            }
        }
    } else {
        assert forall|k: int| 0 <= k < insert_sorted(t, x).len() implies order_key(
            #[trigger] insert_sorted(t, x)[k],
        ) <= bound by {
            if k < t.len() {
                assert(insert_sorted(t, x)[k] == t[k]);
            }
        }
    }
}

proof fn lemma_insert_sorted(t: Seq<ItemView>, x: ItemView)
    requires
        sorted_by_key(t),
    ensures
        sorted_by_key(insert_sorted(t, x)),
        insert_sorted(t, x).to_multiset() == t.to_multiset().insert(x),
    decreases t.len(),
{
    broadcast use vstd::seq_lib::group_seq_properties;
    if t.len() == 0 || order_key(t.last()) <= order_key(x) {
        let r = t.push(x);
        assert forall|i: int, j: int| 0 <= i < j < r.len() implies order_key(r[i]) <= order_key(r[j]) by {
            if j == t.len() {
                if t.len() > 0 {
                    assert(order_key(t[i]) <= order_key(t[t.len() - 1]));
                }
            }
        }
    } else {
        let t0 = t.drop_last();
        assert(sorted_by_key(t0)) by {
            assert forall|i: int, j: int| 0 <= i < j < t0.len() implies order_key(t0[i]) <= order_key(t0[j]) by {
                assert(t0[i] == t[i] && t0[j] == t[j]);
            }
        }
        lemma_insert_sorted(t0, x);
        let last = t.last();
        assert forall|k: int| 0 <= k < t0.len() implies order_key(#[trigger] t0[k]) <= order_key(last) by {
            assert(t0[k] == t[k]);
        }
        lemma_insert_sorted_bounded(t0, x, order_key(last));
        let r0 = insert_sorted(t0, x);
        let r = r0.push(last);
        assert(insert_sorted(t, x) == r);
        assert forall|i: int, j: int| 0 <= i < j < r.len() implies order_key(r[i]) <= order_key(r[j]) by {
            if j == r0.len() {
                assert(r[i] == r0[i]);
            } else {
                assert(r[i] == r0[i] && r[j] == r0[j]);
            }
        }
        assert(t0.push(last) =~= t);
        assert(r.to_multiset() =~= r0.to_multiset().insert(last));
        assert(t.to_multiset() =~= t0.to_multiset().insert(last));
    }
}

/// The planned order is sorted by key and holds exactly the planned renames.
pub proof fn lemma_sort_spec_sorted_permutation(s: Seq<ItemView>)
    ensures
        sorted_by_key(sort_spec(s)),
        sort_spec(s).to_multiset() == s.to_multiset(),
    decreases s.len(),
{
    broadcast use vstd::seq_lib::group_seq_properties;
    if s.len() > 0 {
        lemma_sort_spec_sorted_permutation(s.drop_last());
        lemma_insert_sorted(sort_spec(s.drop_last()), s.last());
        assert(s.drop_last().push(s.last()) =~= s);
    } else {
        assert(sort_spec(s) =~= s);
    }
}

} // verus!
