//! Version numbers from git history and the pre-commit hook file that keeps
//! them up to date.
use vstd::prelude::*;
use crate::text::{
    chars_of, string_of, push_str, decimal, decimal_string, contains_seq, contains_chars,
    lines_spec, lines_of, join_spec, join_chars, views, trim_spec, trim_chars, words_spec,
    words_of, parse_u32_spec, parse_u32, extend_chars, ends_with_seq, trim_end_spec,
    split_on, strip_cr, lemma_split_on_nonempty, matches_at, lemma_join_lacks,
    lemma_no_match_across, lemma_join_split, lemma_split_on_pieces, lemma_contains_extend,
    lemma_split_on_concat, lemma_split_on_single, trim_start_spec, lemma_concat_lacks,
    lemma_contains_trans, lemma_prefix_contained, lemma_contained_char, lemma_split_on_contained,
    lemma_lines_contained, lemma_join_lacks_char, lemma_trim_end_prefix, lemma_trim_nonempty,
    lemma_words_concat, lemma_words_single, all_digits, digits_value, whitespace_spec,
};

verus! {

/// Settings read from `.verbump.json`.
#[derive(Debug)]
pub struct VerbumpConfig {
    pub version: u32,
    pub enabled: bool,
    pub version_file: String,
}

impl Default for VerbumpConfig {
    fn default() -> (r: Self)
        ensures
            r.version == 1,
            r.enabled,
            r.version_file@ == "version.txt"@,
    {
        Self { version: 1, enabled: true, version_file: String::from_str("version.txt") }
    }
}

/// A computed version: the latest tag, the commits since it, the total of
/// changed lines, and the combined version string.
#[derive(Debug)]
pub struct VersionInfo {
    pub major_version: String,
    pub minor_version: u32,
    pub patch_version: u32,
    pub full_version: String,
}

/// The tag without one leading `v`.
pub open spec fn strip_v(tag: Seq<char>) -> Seq<char> {
    if tag.len() > 0 && tag[0] == 'v' {
        tag.drop_first()
    } else {
        tag
    }
}

/// `{major without v}.{minor}.{patch}`
pub open spec fn full_version_spec(major: Seq<char>, minor: u32, patch: u32) -> Seq<char> {
    strip_v(major) + "."@ + decimal(minor as nat) + "."@ + decimal(patch as nat)
}

impl VersionInfo {
    /// Combines the latest tag, the number of commits since it and the total
    /// number of changed lines into a version.
    pub fn calculate(major_version: String, minor_version: u32, patch_version: u32) -> (r: Self)
        ensures
            r.major_version@ == major_version@,
            r.minor_version == minor_version,
            r.patch_version == patch_version,
            r.full_version@ == full_version_spec(major_version@, minor_version, patch_version),
    {
        let tag = chars_of(major_version.as_str());
        let mut full: Vec<char> = Vec::new();
        let mut i: usize = if tag.len() > 0 && tag[0] == 'v' { 1 } else { 0 };
        let ghost start = i;
        while i < tag.len()
            invariant
                start <= i <= tag.len(),
                start == (if tag@.len() > 0 && tag@[0] == 'v' { 1int } else { 0int }),
                full@ == tag@.subrange(start as int, i as int),
            decreases tag.len() - i,
        {
            full.push(tag[i]);
            assert(tag@.subrange(start as int, i as int).push(tag@[i as int]) =~= tag@.subrange(start as int, i + 1));
            i += 1;
        }
        assert(full@ =~= strip_v(major_version@));
        let mut text = string_of(&full);
        push_str(&mut text, ".");
        push_str(&mut text, decimal_string(minor_version as u64).as_str());
        push_str(&mut text, ".");
        push_str(&mut text, decimal_string(patch_version as u64).as_str());
        assert(text@ =~= full_version_spec(major_version@, minor_version, patch_version));
        Self {
            major_version,
            minor_version,
            patch_version,
            full_version: text,
        }
    }

    /// What the version file holds: the full version and a newline.
    pub fn version_file_contents(&self) -> (r: String)
        ensures
            r@ == self.full_version@ + "\n"@,
    {
        let mut s = self.full_version.clone();
        push_str(&mut s, "\n");
        s
    }
}

/// The latest tag from the output of `git describe --tags --abbrev=0`: the
/// trimmed output when git succeeded, `v0` otherwise.
pub fn tag_version(succeeded: bool, output: &str) -> (r: String)
    ensures
        r@ == if succeeded { trim_spec(output@) } else { "v0"@ },
{
    if succeeded {
        string_of(&trim_chars(&chars_of(output)))
    } else {
        String::from_str("v0")
    }
}

/// The revision range whose commits are counted: everything reachable from
/// `HEAD` when there is no tag (`v0`), otherwise `{tag}..HEAD`.
pub fn commit_range(tag_version: &str) -> (r: Option<String>)
    ensures
        tag_version@ == "v0"@ ==> r is None,
        tag_version@ != "v0"@ ==> (r matches Some(range) && range@ == tag_version@ + "..HEAD"@),
{
    if crate::text::str_eq(tag_version, "v0") {
        None
    } else {
        let mut range = string_of(&chars_of(tag_version));
        push_str(&mut range, "..HEAD");
        Some(range)
    }
}

/// The commit count from the output of `git rev-list --count`: zero when git
/// failed, the parsed trimmed output otherwise (`None` when it is not a
/// number).
pub fn commit_count(succeeded: bool, output: &str) -> (r: Option<u32>)
    ensures
        r == if succeeded { parse_u32_spec(trim_spec(output@)) } else { Some(0u32) },
{
    if succeeded {
        parse_u32(&trim_chars(&chars_of(output)))
    } else {
        Some(0)
    }
}

/// `a + b`, saturating at `u32::MAX`.
pub open spec fn sat_add(a: u32, b: u32) -> u32 {
    if a + b > u32::MAX { u32::MAX } else { (a + b) as u32 }
}

/// The changed lines a `--numstat` line contributes: its first two words when
/// both are numbers.
pub open spec fn numstat_line(line: Seq<char>) -> Option<(u32, u32)> {
    let w = words_spec(line);
    if w.len() >= 2 && parse_u32_spec(w[0]) is Some && parse_u32_spec(w[1]) is Some {
        Some((parse_u32_spec(w[0])->0, parse_u32_spec(w[1])->0))
    } else {
        None
    }
}

/// A `--numstat` line `{added}\t{deleted}\t{path}` contributes its two counts,
/// whatever the path holds (spaces, or the `{old => new}` of a rename).
pub proof fn lemma_numstat_line_fields(added: Seq<char>, deleted: Seq<char>, path: Seq<char>)
    requires
        added.len() > 0,
        deleted.len() > 0,
        all_digits(added),
        all_digits(deleted),
        digits_value(added) <= u32::MAX,
        digits_value(deleted) <= u32::MAX,
    ensures
        numstat_line(added + "\t"@ + deleted + "\t"@ + path) == Some(
            (digits_value(added) as u32, digits_value(deleted) as u32),
        ),
{
    reveal_strlit("\t");
    let tab = seq!['\t'];
    assert("\t"@ =~= tab);
    let line = added + "\t"@ + deleted + "\t"@ + path;
    let a1 = added + tab;
    let a2 = deleted + tab;
    assert(line =~= a1 + (a2 + path));
    assert(whitespace_spec('\t')) by {
        assert(('\t' as u32) == 9);
    }
    assert forall|i: int| 0 <= i < added.len() implies !whitespace_spec(#[trigger] added[i]) by {
        assert(48 <= (added[i] as u32) <= 57);
    }
    assert forall|i: int| 0 <= i < deleted.len() implies !whitespace_spec(#[trigger] deleted[i]) by {
        assert(48 <= (deleted[i] as u32) <= 57);
    }
    lemma_words_concat(a1, a2 + path);
    lemma_words_concat(a2, path);
    assert(a1.drop_last() =~= added);
    assert(a2.drop_last() =~= deleted);
    lemma_words_single(added);
    lemma_words_single(deleted);
    assert(words_spec(a1) == words_spec(added));
    assert(words_spec(a2) == words_spec(deleted));
    let w = words_spec(line);
    assert(w =~= seq![added] + (seq![deleted] + words_spec(path)));
    assert(w[0] == added && w[1] == deleted && w.len() >= 2);
    assert(48 <= (added[0] as u32) <= 57);
    assert(48 <= (deleted[0] as u32) <= 57);
    assert(parse_u32_spec(added) == Some(digits_value(added) as u32));
    assert(parse_u32_spec(deleted) == Some(digits_value(deleted) as u32));
}

/// The saturating total of additions and deletions over the first `k` lines.
pub open spec fn numstat_total(lines: Seq<Seq<char>>, k: int) -> u32
    decreases k,
{
    if k <= 0 {
        0
    } else {
        let t = numstat_total(lines, k - 1);
        match numstat_line(lines[k - 1]) {
            Some((a, d)) => sat_add(sat_add(t, a), d),
            None => t,
        }
    }
}

/// The total number of changed lines from the output of
/// `git log --pretty=tformat: --numstat`: zero when git failed, otherwise the
/// sum over all lines whose first two words are numbers, saturating at
/// `u32::MAX`.
pub fn total_changes(succeeded: bool, output: &str) -> (r: u32)
    ensures
        r == if succeeded {
            numstat_total(lines_spec(output@), lines_spec(output@).len() as int)
        } else {
            0u32
        },
{
    if !succeeded {
        return 0;
    }
    let text = chars_of(output);
    let lines = lines_of(&text);
    let ghost ls = lines_spec(output@);
    let mut total: u32 = 0;
    let mut i: usize = 0;
    while i < lines.len()
        invariant
            i <= lines@.len(),
            views(lines@) == ls,
            total == numstat_total(ls, i as int),
        decreases lines@.len() - i,
    {
        assert(ls[i as int] == lines@[i as int]@);
        let words = words_of(&lines[i]);
        if words.len() >= 2 {
            assert(views(words@)[0] == words@[0]@);
            assert(views(words@)[1] == words@[1]@);
            let a = parse_u32(&words[0]);
            let d = parse_u32(&words[1]);
            if let (Some(a), Some(d)) = (a, d) {
                total = total.saturating_add(a).saturating_add(d);
            }
        }
        i += 1;
    }
    total
}

// ----------------------------------------------------------------------------
// The pre-commit hook
// ----------------------------------------------------------------------------

/// The line that opens the block this tool owns in a hook file.
pub open spec fn block_start() -> Seq<char> {
    "=== VERBUMP BLOCK START ==="@
}

/// The line that closes the block this tool owns in a hook file.
pub open spec fn block_end() -> Seq<char> {
    "=== VERBUMP BLOCK END ==="@
}

/// The lines outside the tool's blocks: a line containing the start marker
/// opens a block, one containing the end marker closes it, both are dropped
/// along with every line inside a block.
pub open spec fn block_filter(lines: Seq<Seq<char>>, in_block: bool) -> Seq<Seq<char>>
    decreases lines.len(),
{
    if lines.len() == 0 {
        Seq::empty()
    } else {
        let l = lines[0];
        let rest = lines.drop_first();
        if contains_seq(l, block_start()) {
            block_filter(rest, true)
        } else if contains_seq(l, block_end()) {
            block_filter(rest, false)
        } else if in_block {
            block_filter(rest, true)
        } else {
            seq![l] + block_filter(rest, false)
        }
    }
}

/// A hook file's content with the tool's blocks removed: the remaining lines
/// joined by newlines, with a final newline when the content had one and
/// something remains.
pub open spec fn remove_block_spec(content: Seq<char>) -> Seq<char> {
    let out = join_spec(block_filter(lines_spec(content), false), "\n"@);
    if ends_with_seq(content, "\n"@) && out.len() > 0 {
        out + "\n"@
    } else {
        out
    }
}

/// Removes the tool's blocks from a hook file's content.
pub fn remove_verbump_block(content: &str) -> (r: String)
    ensures
        r@ == remove_block_spec(content@),
{
    let text = chars_of(content);
    let lines = lines_of(&text);
    let ghost ls = lines_spec(content@);
    let start = chars_of("=== VERBUMP BLOCK START ===");
    let end = chars_of("=== VERBUMP BLOCK END ===");
    let mut kept: Vec<Vec<char>> = Vec::new();
    let mut in_block = false;
    let mut i: usize = 0;
    assert(ls.skip(0) =~= ls);
    assert(views(kept@) =~= Seq::<Seq<char>>::empty());
    while i < lines.len()
        invariant
            i <= lines@.len(),
            views(lines@) == ls,
            start@ == block_start(),
            end@ == block_end(),
            block_filter(ls, false) == views(kept@) + block_filter(ls.skip(i as int), in_block),
        decreases lines@.len() - i,
    {
        let ghost rest = ls.skip(i as int);
        assert(rest[0] == lines@[i as int]@);
        assert(rest.drop_first() =~= ls.skip(i + 1));
        if contains_chars(&lines[i], &start) {
            in_block = true;
        } else if contains_chars(&lines[i], &end) {
            in_block = false;
        } else if !in_block {
            let ghost before = views(kept@);
            kept.push(lines[i].clone());
            assert(views(kept@) =~= before.push(lines@[i as int]@));
            assert(before + block_filter(rest, false) =~= views(kept@) + block_filter(ls.skip(i + 1), false));
        }
        i += 1;
    }
    assert(ls.skip(lines@.len() as int) =~= Seq::<Seq<char>>::empty());
    assert(views(kept@) =~= block_filter(ls, false));
    let newline = chars_of("\n");
    let mut out = join_chars(&kept, &newline);
    if crate::text::ends_with_chars(&text, &newline) && out.len() > 0 {
        extend_chars(&mut out, &newline);
    }
    string_of(&out)
}

/// Whether a hook file's content holds the tool's block.
pub fn hook_has_block(content: &str) -> (r: bool)
    ensures
        r == contains_seq(content@, block_start()),
{
    crate::text::str_contains(content, "=== VERBUMP BLOCK START ===")
}

/// The tool's block: the marker lines around the line that runs
/// `{exe} update --force` before each commit.
pub open spec fn block_body_spec(exe: Seq<char>) -> Seq<char> {
    "# === VERBUMP BLOCK START ===\n# DO NOT EDIT THIS BLOCK MANUALLY\n# Use 'verbump uninstall' to remove this hook\n"@
        + exe + " update --force\n# === VERBUMP BLOCK END ===\n"@
}

/// A new hook file: a bash shebang line followed by the tool's block.
pub open spec fn hook_block_spec(exe: Seq<char>) -> Seq<char> {
    "#!/bin/bash\n"@ + block_body_spec(exe)
}

/// The tool's block for the given executable path.
pub fn hook_block_body(exe: &str) -> (r: String)
    ensures
        r@ == block_body_spec(exe@),
{
    let mut s = String::from_str(
        "# === VERBUMP BLOCK START ===\n# DO NOT EDIT THIS BLOCK MANUALLY\n# Use 'verbump uninstall' to remove this hook\n",
    );
    push_str(&mut s, exe);
    push_str(&mut s, " update --force\n# === VERBUMP BLOCK END ===\n");
    assert(s@ =~= block_body_spec(exe@));
    s
}

/// A new hook file for the given executable path.
pub fn hook_block(exe: &str) -> (r: String)
    ensures
        r@ == hook_block_spec(exe@),
{
    let mut s = String::from_str("#!/bin/bash\n");
    push_str(&mut s, hook_block_body(exe).as_str());
    s
}

/// The hook file after installing: a new hook file when there was none (or a
/// blank one); otherwise the old content without earlier blocks and trailing
/// whitespace, a newline, and the tool's block (the existing file keeps its
/// own first line).
pub open spec fn installed_hook_spec(existing: Option<Seq<char>>, exe: Seq<char>) -> Seq<char> {
    match existing {
        None => hook_block_spec(exe),
        Some(c) => {
            let cleaned = remove_block_spec(c);
            if trim_spec(cleaned).len() == 0 {
                hook_block_spec(exe)
            } else {
                trim_end_spec(cleaned) + "\n"@ + block_body_spec(exe)
            }
        },
    }
}

/// The new content of the pre-commit hook when installing.
pub fn installed_hook(existing: Option<&str>, exe: &str) -> (r: String)
    ensures
        r@ == installed_hook_spec(
            match existing {
                Some(c) => Some(c@),
                None => None,
            },
            exe@,
        ),
{
    match existing {
        None => hook_block(exe),
        Some(c) => {
            let cleaned = remove_verbump_block(c);
            let cleaned_chars = chars_of(cleaned.as_str());
            let trimmed = trim_chars(&cleaned_chars);
            if trimmed.len() == 0 {
                hook_block(exe)
            } else {
                let mut out = crate::text::trim_end_chars(&cleaned_chars);
                extend_chars(&mut out, &chars_of("\n"));
                extend_chars(&mut out, &chars_of(hook_block_body(exe).as_str()));
                string_of(&out)
            }
        },
    }
}

/// What uninstalling does to an existing hook file.
#[derive(Debug, PartialEq, Eq)]
pub enum UninstallAction {
    /// The hook holds no block of this tool; it stays as it is.
    NotInstalled,
    /// Nothing but a shebang (or nothing) would remain: the file is removed.
    RemoveFile,
    /// The file is rewritten with this content.
    Rewrite(String),
}

/// The decision for uninstalling from a hook file with this content.
pub fn uninstall_action(content: &str) -> (r: UninstallAction)
    ensures
        !contains_seq(content@, block_start()) ==> r is NotInstalled,
        contains_seq(content@, block_start()) ==> {
            let cleaned = remove_block_spec(content@);
            if trim_spec(cleaned).len() == 0 || trim_spec(cleaned) == "#!/bin/bash"@ {
                r is RemoveFile
            } else {
                (r matches UninstallAction::Rewrite(s) && s@ == cleaned)
            }
        },
{
    if !hook_has_block(content) {
        return UninstallAction::NotInstalled;
    }
    let cleaned = remove_verbump_block(content);
    let trimmed = trim_chars(&chars_of(cleaned.as_str()));
    let shebang = chars_of("#!/bin/bash");
    if trimmed.len() == 0 || crate::text::chars_eq(&trimmed, &shebang) {
        UninstallAction::RemoveFile
    } else {
        UninstallAction::Rewrite(cleaned)
    }
}

/// A log line: `[{timestamp}] {message}` and a newline.
pub fn log_entry(timestamp: &str, message: &str) -> (r: String)
    ensures
        r@ == "["@ + timestamp@ + "] "@ + message@ + "\n"@,
{
    let mut s = String::from_str("[");
    push_str(&mut s, timestamp);
    push_str(&mut s, "] ");
    push_str(&mut s, message);
    push_str(&mut s, "\n");
    s
}

// ----------------------------------------------------------------------------
// Laws
// ----------------------------------------------------------------------------

proof fn lemma_filter_lacks_markers(lines: Seq<Seq<char>>, in_block: bool)
    ensures
        forall|i: int|
            0 <= i < block_filter(lines, in_block).len() ==> !contains_seq(
                #[trigger] block_filter(lines, in_block)[i],
                block_start(),
            ) && !contains_seq(block_filter(lines, in_block)[i], block_end()),
    decreases lines.len(),
{
    if lines.len() > 0 {
        let rest = lines.drop_first();
        lemma_filter_lacks_markers(rest, true);
        lemma_filter_lacks_markers(rest, false);
        let f = block_filter(lines, in_block);
        let l = lines[0];
        if contains_seq(l, block_start()) {
            assert(f == block_filter(rest, true));
        } else if contains_seq(l, block_end()) {
            assert(f == block_filter(rest, false));
        } else if in_block {
            assert(f == block_filter(rest, true));
        } else {
            let g = block_filter(rest, false);
            assert(f == seq![l] + g);
            assert forall|i: int| 0 <= i < f.len() implies !contains_seq(#[trigger] f[i], block_start())
                && !contains_seq(f[i], block_end()) by {
                if i > 0 {
                    assert(f[i] == g[i - 1]);
                }
            }
        }
    }
}

proof fn lemma_markers_lack_newline()
    ensures
        !block_start().contains('\n'),
        !block_end().contains('\n'),
        block_start().len() > 0,
        block_end().len() > 0,
        "\n"@ == seq!['\n'],
{
    reveal_strlit("=== VERBUMP BLOCK START ===");
    reveal_strlit("=== VERBUMP BLOCK END ===");
    reveal_strlit("\n");
    assert("\n"@ =~= seq!['\n']);
    if block_start().contains('\n') {
        let k = choose|k: int| 0 <= k < block_start().len() && block_start()[k] == '\n';
    }
    if block_end().contains('\n') {
        let k = choose|k: int| 0 <= k < block_end().len() && block_end()[k] == '\n';
    }
}

/// After removing the tool's blocks from a hook file, neither block marker
/// occurs in it anymore.
pub proof fn lemma_removed_block_absent(content: Seq<char>)
    ensures
        !contains_seq(remove_block_spec(content), block_start()),
        !contains_seq(remove_block_spec(content), block_end()),
{
    let kept = block_filter(lines_spec(content), false);
    lemma_filter_lacks_markers(lines_spec(content), false);
    lemma_markers_lack_newline();
    let out = join_spec(kept, "\n"@);
    assert forall|i: int| 0 <= i < kept.len() implies !contains_seq(#[trigger] kept[i], block_start()) by {}
    assert forall|i: int| 0 <= i < kept.len() implies !contains_seq(#[trigger] kept[i], block_end()) by {}
    lemma_join_lacks(kept, '\n', block_start());
    lemma_join_lacks(kept, '\n', block_end());
    let empty = Seq::<char>::empty();
    assert(!contains_seq(empty, block_start())) by {
        if contains_seq(empty, block_start()) {
            let i = choose|i: int| matches_at(empty, block_start(), i);
        }
    }
    assert(!contains_seq(empty, block_end())) by {
        if contains_seq(empty, block_end()) {
            let i = choose|i: int| matches_at(empty, block_end(), i);
        }
    }
    lemma_no_match_across(out, empty, '\n', block_start());
    lemma_no_match_across(out, empty, '\n', block_end());
    assert(out + "\n"@ =~= out + seq!['\n'] + empty);
}

proof fn lemma_filter_identity(lines: Seq<Seq<char>>)
    requires
        forall|i: int|
            0 <= i < lines.len() ==> !contains_seq(#[trigger] lines[i], block_start()) && !contains_seq(
                lines[i],
                block_end(),
            ),
    ensures
        block_filter(lines, false) == lines,
    decreases lines.len(),
{
    if lines.len() > 0 {
        let rest = lines.drop_first();
        assert forall|i: int| 0 <= i < rest.len() implies !contains_seq(#[trigger] rest[i], block_start())
            && !contains_seq(rest[i], block_end()) by {
            assert(rest[i] == lines[i + 1]);
        }
        lemma_filter_identity(rest);
        assert(!contains_seq(lines[0], block_start()));
        assert(lines =~= seq![lines[0]] + rest);
    }
}

/// A hook file that holds no marker line is left exactly as it was (for
/// content without carriage returns, other than a lone newline).
pub proof fn lemma_block_free_unchanged(content: Seq<char>)
    requires
        forall|i: int|
            0 <= i < lines_spec(content).len() ==> !contains_seq(
                #[trigger] lines_spec(content)[i],
                block_start(),
            ) && !contains_seq(lines_spec(content)[i], block_end()),
        !content.contains('\r'),
        content != "\n"@,
    ensures
        remove_block_spec(content) == content,
{
    lemma_markers_lack_newline();
    let ls = lines_spec(content);
    lemma_filter_identity(ls);
    if content.len() == 0 {
        assert(ls.len() == 0);
        assert(join_spec(ls, "\n"@).len() == 0);
        assert(remove_block_spec(content) =~= content);
    } else {
        let p = split_on(content, '\n');
        lemma_split_on_nonempty(content, '\n');
        lemma_split_on_pieces(content, '\n', '\r');
        lemma_join_split(content, '\n');
        assert forall|i: int| 0 <= i < p.len() implies strip_cr(#[trigger] p[i]) == p[i] by {
            if p[i].len() > 0 && p[i].last() == '\r' {
                assert(p[i].contains('\r'));
            }
        }
        let n = p.len();
        let s0 = content.drop_last();
        lemma_split_on_nonempty(s0, '\n');
        if content.last() == '\n' {
            assert(p == split_on(s0, '\n').push(Seq::<char>::empty()));
            assert(n >= 2);
            assert(ls =~= p.drop_last());
            assert(join_spec(p, seq!['\n']) == join_spec(p.drop_last(), seq!['\n']) + seq!['\n'] + p.last());
            assert(join_spec(ls, "\n"@) =~= s0);
            assert(ends_with_seq(content, "\n"@)) by {
                assert(content.subrange(content.len() - 1, content.len() as int) =~= seq!['\n']);
            }
            assert(s0.len() > 0) by {
                if s0.len() == 0 {
                    assert(content =~= "\n"@);
                }
            }
            assert(remove_block_spec(content) =~= s0 + seq!['\n']);
            assert(content =~= s0 + seq!['\n']);
        } else {
            let q = split_on(s0, '\n');
            assert(p == q.update(q.len() - 1, q.last().push(content.last())));
            assert(p[n - 1].len() > 0);
            assert(ls =~= p);
            assert(!ends_with_seq(content, "\n"@)) by {
                if ends_with_seq(content, "\n"@) {
                    assert(content.subrange(content.len() - 1, content.len() as int)[0] == content.last());
                }
            }
        }
    }
}

/// A sequence lacking a character of `m` does not contain `m`.
proof fn lemma_lacks_char(s: Seq<char>, m: Seq<char>, c: char)
    requires
        m.contains(c),
        !s.contains(c),
    ensures
        !contains_seq(s, m),
{
    if contains_seq(s, m) {
        let i = choose|i: int| matches_at(s, m, i);
        let k = choose|k: int| 0 <= k < m.len() && m[k] == c;
        assert(s.subrange(i, i + m.len())[k] == s[i + k]);
    }
}

/// The pieces of the tool's block between newlines.
proof fn lemma_block_body_split(exe: Seq<char>)
    requires
        !exe.contains('\n'),
    ensures
        split_on(block_body_spec(exe), '\n') == block_lines(exe).push(Seq::<char>::empty()),
        forall|k: int|
            0 <= k < 5 ==> strip_cr(#[trigger] split_on(block_body_spec(exe), '\n')[k]) == split_on(
                block_body_spec(exe),
                '\n',
            )[k],
        ends_with_seq(block_body_spec(exe), "\n"@),
        block_body_spec(exe).len() > 0,
{
    let l1 = "# === VERBUMP BLOCK START ==="@;
    let l2 = "# DO NOT EDIT THIS BLOCK MANUALLY"@;
    let l3 = "# Use 'verbump uninstall' to remove this hook"@;
    let tail = " update --force"@;
    let l4 = exe + tail;
    let l5 = "# === VERBUMP BLOCK END ==="@;
    reveal_strlit("# === VERBUMP BLOCK START ===");
    reveal_strlit("# DO NOT EDIT THIS BLOCK MANUALLY");
    reveal_strlit("# Use 'verbump uninstall' to remove this hook");
    reveal_strlit(" update --force");
    reveal_strlit("# === VERBUMP BLOCK END ===");
    reveal_strlit("# === VERBUMP BLOCK START ===\n# DO NOT EDIT THIS BLOCK MANUALLY\n# Use 'verbump uninstall' to remove this hook\n");
    reveal_strlit(" update --force\n# === VERBUMP BLOCK END ===\n");
    reveal_strlit("\n");
    let nl = seq!['\n'];
    let e = Seq::<char>::empty();
    let h = block_body_spec(exe);
    assert(h =~= l1 + nl + (l2 + nl + (l3 + nl + (l4 + nl + (l5 + nl + e)))));
    assert forall|x: Seq<char>|
        x == l1 || x == l2 || x == l3 || x == l5 || x == tail implies !#[trigger] x.contains('\n') by {
        if x.contains('\n') {
            let k = choose|k: int| 0 <= k < x.len() && x[k] == '\n';
        }
    }
    lemma_concat_lacks(exe, tail, '\n');
    assert(!e.contains('\n'));
    lemma_split_on_single(l1, '\n');
    lemma_split_on_single(l2, '\n');
    lemma_split_on_single(l3, '\n');
    lemma_split_on_single(l4, '\n');
    lemma_split_on_single(l5, '\n');
    lemma_split_on_single(e, '\n');
    lemma_split_on_concat(l5, e, '\n');
    lemma_split_on_concat(l4, l5 + nl + e, '\n');
    lemma_split_on_concat(l3, l4 + nl + (l5 + nl + e), '\n');
    lemma_split_on_concat(l2, l3 + nl + (l4 + nl + (l5 + nl + e)), '\n');
    lemma_split_on_concat(l1, l2 + nl + (l3 + nl + (l4 + nl + (l5 + nl + e))), '\n');
    let p = split_on(h, '\n');
    assert(p =~= seq![l1, l2, l3, l4, l5, e]);
    assert(block_lines(exe).push(e) =~= seq![l1, l2, l3, l4, l5, e]);
    assert(l4.last() == 'e');
    assert forall|k: int| 0 <= k < 5 implies strip_cr(#[trigger] p[k]) == p[k] by {
        if k == 3 {
            assert(p[k].last() == 'e');
        }
    }
    assert(h.subrange(h.len() - 1, h.len() as int) =~= "\n"@);
}

/// The pieces of a freshly written hook file between newlines.
proof fn lemma_hook_block_split(exe: Seq<char>)
    requires
        !exe.contains('\n'),
    ensures
        split_on(hook_block_spec(exe), '\n') == hook_lines(exe).push(Seq::<char>::empty()),
        forall|k: int|
            0 <= k < 6 ==> strip_cr(#[trigger] split_on(hook_block_spec(exe), '\n')[k]) == split_on(
                hook_block_spec(exe),
                '\n',
            )[k],
        ends_with_seq(hook_block_spec(exe), "\n"@),
        hook_block_spec(exe).len() > 0,
{
    let l0 = "#!/bin/bash"@;
    reveal_strlit("#!/bin/bash");
    reveal_strlit("#!/bin/bash\n");
    let nl = seq!['\n'];
    let body = block_body_spec(exe);
    let h = hook_block_spec(exe);
    assert(h =~= l0 + nl + body);
    assert(!l0.contains('\n')) by {
        if l0.contains('\n') {
            let k = choose|k: int| 0 <= k < l0.len() && l0[k] == '\n';
        }
    }
    lemma_split_on_single(l0, '\n');
    lemma_split_on_concat(l0, body, '\n');
    lemma_block_body_split(exe);
    let p = split_on(h, '\n');
    let pb = split_on(body, '\n');
    assert(p == seq![l0] + pb);
    assert(hook_lines(exe) =~= seq![l0] + block_lines(exe));
    assert(p =~= hook_lines(exe).push(Seq::<char>::empty()));
    assert(l0.last() == 'h');
    assert forall|k: int| 0 <= k < 6 implies strip_cr(#[trigger] p[k]) == p[k] by {
        if k > 0 {
            assert(p[k] == pb[k - 1]);
        }
    }
    reveal_strlit("\n");
    assert(body.subrange(body.len() - 1, body.len() as int) == "\n"@);
    assert(h.subrange(h.len() - 1, h.len() as int) =~= body.subrange(body.len() - 1, body.len() as int));
}

/// The lines of a freshly written hook file.
proof fn lemma_hook_block_lines(exe: Seq<char>)
    requires
        !exe.contains('\n'),
    ensures
        lines_spec(hook_block_spec(exe)) == hook_lines(exe),
        ends_with_seq(hook_block_spec(exe), "\n"@),
{
    lemma_hook_block_split(exe);
    let h = hook_block_spec(exe);
    let p = split_on(h, '\n');
    assert(lines_spec(h) =~= p.take(6));
}

/// Of the lines of a freshly written hook file, filtering the tool's block
/// keeps only the shebang line; of the block's own lines it keeps none.
proof fn lemma_hook_block_filtered(exe: Seq<char>)
    ensures
        block_filter(hook_lines(exe), false) == seq!["#!/bin/bash"@],
        block_filter(block_lines(exe), false) == Seq::<Seq<char>>::empty(),
        !contains_seq("#!/bin/bash"@, block_start()),
        !contains_seq("#!/bin/bash"@, block_end()),
{
    let l0 = "#!/bin/bash"@;
    let l1 = "# === VERBUMP BLOCK START ==="@;
    let l2 = "# DO NOT EDIT THIS BLOCK MANUALLY"@;
    let l3 = "# Use 'verbump uninstall' to remove this hook"@;
    let l4 = exe + " update --force"@;
    let l5 = "# === VERBUMP BLOCK END ==="@;
    reveal_strlit("#!/bin/bash");
    reveal_strlit("# === VERBUMP BLOCK START ===");
    reveal_strlit("# DO NOT EDIT THIS BLOCK MANUALLY");
    reveal_strlit("# Use 'verbump uninstall' to remove this hook");
    reveal_strlit("# === VERBUMP BLOCK END ===");
    reveal_strlit("=== VERBUMP BLOCK START ===");
    reveal_strlit("=== VERBUMP BLOCK END ===");
    let ls = seq![l0, l1, l2, l3, l4, l5];
    // The shebang line holds neither marker: it is too short.
    assert(!contains_seq(l0, block_start())) by {
        if contains_seq(l0, block_start()) {
            let i = choose|i: int| matches_at(l0, block_start(), i);
        }
    }
    assert(!contains_seq(l0, block_end())) by {
        if contains_seq(l0, block_end()) {
            let i = choose|i: int| matches_at(l0, block_end(), i);
        }
    }
    // The start line opens the block.
    assert(l1.subrange(2, 2 + block_start().len() as int) =~= block_start());
    assert(matches_at(l1, block_start(), 2));
    // The comment lines lack a `V`, so they cannot close it.
    assert(block_end()[4] == 'V');
    assert(block_start()[18] == 'S');
    assert forall|x: Seq<char>| x == l2 || x == l3 implies !#[trigger] x.contains('V') by {
        if x.contains('V') {
            let k = choose|k: int| 0 <= k < x.len() && x[k] == 'V';
        }
    }
    assert(!l5.contains('S')) by {
        if l5.contains('S') {
            let k = choose|k: int| 0 <= k < l5.len() && l5[k] == 'S';
        }
    }
    lemma_lacks_char(l2, block_end(), 'V');
    lemma_lacks_char(l3, block_end(), 'V');
    lemma_lacks_char(l5, block_start(), 'S');
    // The end line closes it.
    assert(l5.subrange(2, 2 + block_end().len() as int) =~= block_end());
    assert(matches_at(l5, block_end(), 2));
    let e = Seq::<Seq<char>>::empty();
    let r5 = seq![l5];
    assert(r5.drop_first() =~= e);
    assert(block_filter(r5, true) == block_filter(e, false));
    assert(block_filter(r5, false) == block_filter(e, false));
    let r4 = seq![l4, l5];
    assert(r4.drop_first() =~= r5);
    assert(block_filter(r4, true) =~= e);
    let r3 = seq![l3, l4, l5];
    assert(r3.drop_first() =~= r4);
    assert(block_filter(r3, true) =~= e);
    let r2 = seq![l2, l3, l4, l5];
    assert(r2.drop_first() =~= r3);
    assert(block_filter(r2, true) =~= e);
    let r1 = seq![l1, l2, l3, l4, l5];
    assert(r1.drop_first() =~= r2);
    assert(block_filter(r1, false) =~= e);
    assert(block_lines(exe) == r1);
    assert(hook_lines(exe) =~= ls);
    assert(ls.drop_first() =~= r1);
    assert(block_filter(ls, false) =~= seq![l0]);
}

/// Installing into a repository without a hook and then removing the tool's
/// block leaves only the shebang line, which trims to the bare shebang: the
/// case in which uninstalling removes the hook file.
pub proof fn lemma_fresh_install_then_uninstall(exe: Seq<char>)
    requires
        !exe.contains('\n'),
    ensures
        remove_block_spec(installed_hook_spec(None, exe)) == "#!/bin/bash\n"@,
        trim_spec(remove_block_spec(installed_hook_spec(None, exe))) == "#!/bin/bash"@,
{
    let l0 = "#!/bin/bash"@;
    reveal_strlit("#!/bin/bash");
    reveal_strlit("#!/bin/bash\n");
    reveal_strlit("\n");
    let h = hook_block_spec(exe);
    lemma_hook_block_lines(exe);
    lemma_hook_block_filtered(exe);
    assert(join_spec(seq![l0], "\n"@) == l0);
    assert(remove_block_spec(h) =~= "#!/bin/bash\n"@);
    let t = "#!/bin/bash\n"@;
    assert(t.last() == '\n');
    assert(('\n' as u32) == 10);
    assert(t.drop_last() =~= l0);
    assert(l0.last() == 'h');
    assert(trim_end_spec(l0) == l0);
    assert(trim_end_spec(t) == l0);
    assert(l0[0] == '#');
    assert(trim_start_spec(t) == t);
}

/// The lines kept by the filter are lines of its input.
proof fn lemma_filter_members(lines: Seq<Seq<char>>, in_block: bool)
    ensures
        forall|i: int|
            0 <= i < block_filter(lines, in_block).len() ==> exists|j: int|
                0 <= j < lines.len() && #[trigger] block_filter(lines, in_block)[i] == lines[j],
    decreases lines.len(),
{
    if lines.len() > 0 {
        let rest = lines.drop_first();
        lemma_filter_members(rest, true);
        lemma_filter_members(rest, false);
        let f = block_filter(lines, in_block);
        assert forall|i: int| 0 <= i < f.len() implies exists|j: int|
            0 <= j < lines.len() && #[trigger] f[i] == lines[j] by {
            let l = lines[0];
            if !contains_seq(l, block_start()) && !contains_seq(l, block_end()) && !in_block {
                let g = block_filter(rest, false);
                assert(f == seq![l] + g);
                if i == 0 {
                    assert(f[0] == lines[0]);
                } else {
                    assert(f[i] == g[i - 1]);
                    let j = choose|j: int| 0 <= j < rest.len() && g[i - 1] == rest[j];
                    assert(rest[j] == lines[j + 1]);
                }
            } else {
                let b = if contains_seq(l, block_start()) {
                    true
                } else if contains_seq(l, block_end()) {
                    false
                } else {
                    true
                };
                let g = block_filter(rest, b);
                assert(f == g);
                let j = choose|j: int| 0 <= j < rest.len() && g[i] == rest[j];
                assert(rest[j] == lines[j + 1]);
            }
        }
    }
}

/// Lines without markers in front of others pass the filter unchanged.
proof fn lemma_filter_clean_prefix(a: Seq<Seq<char>>, b: Seq<Seq<char>>)
    requires
        forall|i: int|
            0 <= i < a.len() ==> !contains_seq(#[trigger] a[i], block_start()) && !contains_seq(a[i], block_end()),
    ensures
        block_filter(a + b, false) == a + block_filter(b, false),
    decreases a.len(),
{
    if a.len() > 0 {
        let rest = a.drop_first();
        assert forall|i: int| 0 <= i < rest.len() implies !contains_seq(#[trigger] rest[i], block_start())
            && !contains_seq(rest[i], block_end()) by {
            assert(rest[i] == a[i + 1]);
        }
        lemma_filter_clean_prefix(rest, b);
        assert((a + b).drop_first() =~= rest + b);
        assert((a + b)[0] == a[0]);
        assert(!contains_seq(a[0], block_start()) && !contains_seq(a[0], block_end()));
        assert(a + block_filter(b, false) =~= seq![a[0]] + (rest + block_filter(b, false)));
    } else {
        assert(a + b =~= b);
        assert(a + block_filter(b, false) =~= block_filter(b, false));
    }
}

/// Removing the tool's blocks never introduces a carriage return.
proof fn lemma_removed_block_lacks_cr(content: Seq<char>)
    requires
        !content.contains('\r'),
    ensures
        !remove_block_spec(content).contains('\r'),
{
    lemma_markers_lack_newline();
    let ls = lines_spec(content);
    let kept = block_filter(ls, false);
    lemma_lines_contained(content);
    lemma_filter_members(ls, false);
    assert forall|i: int| 0 <= i < kept.len() implies !(#[trigger] kept[i]).contains('\r') by {
        let j = choose|j: int| 0 <= j < ls.len() && kept[i] == ls[j];
        if kept[i].contains('\r') {
            lemma_contained_char(content, ls[j], '\r');
        }
    }
    lemma_join_lacks_char(kept, '\n', '\r');
    let out = join_spec(kept, "\n"@);
    assert(!seq!['\n'].contains('\r')) by {
        if seq!['\n'].contains('\r') {
            let k = choose|k: int| 0 <= k < 1 && seq!['\n'][k] == '\r';
        }
    }
    lemma_concat_lacks(out, seq!['\n'], '\r');
}

/// The lines of the tool's block.
spec fn block_lines(exe: Seq<char>) -> Seq<Seq<char>> {
    seq![
        "# === VERBUMP BLOCK START ==="@,
        "# DO NOT EDIT THIS BLOCK MANUALLY"@,
        "# Use 'verbump uninstall' to remove this hook"@,
        exe + " update --force"@,
        "# === VERBUMP BLOCK END ==="@,
    ]
}

/// The lines a freshly written hook file consists of.
spec fn hook_lines(exe: Seq<char>) -> Seq<Seq<char>> {
    seq!["#!/bin/bash"@] + block_lines(exe)
}

/// What is kept of a hook file, trailing whitespace trimmed, holds no marker
/// and no carriage return, nor does any of its pieces between newlines.
proof fn lemma_kept_part_clean(existing: Seq<char>)
    requires
        !existing.contains('\r'),
    ensures
        ({
            let x = trim_end_spec(remove_block_spec(existing));
            &&& !x.contains('\r')
            &&& forall|i: int|
                0 <= i < split_on(x, '\n').len() ==> !contains_seq(
                    #[trigger] split_on(x, '\n')[i],
                    block_start(),
                ) && !contains_seq(split_on(x, '\n')[i], block_end()) && !split_on(x, '\n')[i].contains(
                    '\r',
                )
        }),
{
    let cleaned = remove_block_spec(existing);
    let x = trim_end_spec(cleaned);
    lemma_removed_block_absent(existing);
    lemma_removed_block_lacks_cr(existing);
    lemma_trim_end_prefix(cleaned);
    lemma_prefix_contained(cleaned, x.len() as int);
    assert(!contains_seq(x, block_start())) by {
        if contains_seq(x, block_start()) {
            lemma_contains_trans(cleaned, x, block_start());
        }
    }
    assert(!contains_seq(x, block_end())) by {
        if contains_seq(x, block_end()) {
            lemma_contains_trans(cleaned, x, block_end());
        }
    }
    assert(!x.contains('\r')) by {
        if x.contains('\r') {
            lemma_contained_char(cleaned, x, '\r');
        }
    }
    let px = split_on(x, '\n');
    lemma_split_on_contained(x, '\n');
    lemma_split_on_pieces(x, '\n', '\r');
    assert forall|i: int| 0 <= i < px.len() implies !contains_seq(#[trigger] px[i], block_start())
        && !contains_seq(px[i], block_end()) && !px[i].contains('\r') by {
        if contains_seq(px[i], block_start()) {
            lemma_contains_trans(x, px[i], block_start());
        }
        if contains_seq(px[i], block_end()) {
            lemma_contains_trans(x, px[i], block_end());
        }
    }
}

/// The lines of `x`, a newline and the tool's block: the pieces of `x`
/// followed by the block's lines.
proof fn lemma_lines_before_block(x: Seq<char>, exe: Seq<char>)
    requires
        !exe.contains('\n'),
        !x.contains('\r'),
    ensures
        lines_spec(x + "\n"@ + block_body_spec(exe)) == split_on(x, '\n') + block_lines(exe),
        ends_with_seq(x + "\n"@ + block_body_spec(exe), "\n"@),
{
    lemma_markers_lack_newline();
    let nl = seq!['\n'];
    let h = block_body_spec(exe);
    let full = x + "\n"@ + h;
    assert(full =~= x + nl + h);
    let px = split_on(x, '\n');
    lemma_split_on_pieces(x, '\n', '\r');
    lemma_block_body_split(exe);
    lemma_split_on_concat(x, h, '\n');
    let ph = split_on(h, '\n');
    let p = split_on(full, '\n');
    assert(p == px + ph);
    let hl = block_lines(exe);
    assert(ph.take(5) =~= hl);
    assert forall|i: int| 0 <= i < px.len() implies strip_cr(#[trigger] px[i]) == px[i] by {
        if px[i].len() > 0 && px[i].last() == '\r' {
            assert(px[i][px[i].len() - 1] == '\r');
        }
    }
    assert(p[p.len() - 1] == ph[5]);
    assert forall|i: int| 0 <= i < p.len() - 1 implies strip_cr(#[trigger] p[i]) == (px + hl)[i] by {
        if i < px.len() {
            assert(p[i] == px[i]);
        } else {
            assert(p[i] == ph[i - px.len()]);
        }
    }
    assert(lines_spec(full) =~= px + hl);
    assert(full.subrange(full.len() - 1, full.len() as int) =~= h.subrange(h.len() - 1, h.len() as int));
}

/// Installing into an existing hook file and then removing the tool's block
/// gives back the hook's own content, trailing whitespace trimmed, ending in
/// a newline; when the hook had nothing of its own (after trimming), only
/// the shebang line of the new hook file remains (for hook contents without
/// carriage returns and an executable path without newlines).
pub proof fn lemma_install_then_uninstall(existing: Seq<char>, exe: Seq<char>)
    requires
        !exe.contains('\n'),
        !existing.contains('\r'),
    ensures
        remove_block_spec(installed_hook_spec(Some(existing), exe)) == if trim_spec(
            remove_block_spec(existing),
        ).len() == 0 {
            "#!/bin/bash\n"@
        } else {
            trim_end_spec(remove_block_spec(existing)) + "\n"@
        },
{
    let cleaned = remove_block_spec(existing);
    if trim_spec(cleaned).len() == 0 {
        lemma_fresh_install_then_uninstall(exe);
    } else {
        lemma_markers_lack_newline();
        let nl = seq!['\n'];
        let x = trim_end_spec(cleaned);
        lemma_trim_nonempty(cleaned);
        let full = x + "\n"@ + block_body_spec(exe);
        assert(installed_hook_spec(Some(existing), exe) == full);
        lemma_kept_part_clean(existing);
        lemma_lines_before_block(x, exe);
        let px = split_on(x, '\n');
        lemma_hook_block_filtered(exe);
        lemma_filter_clean_prefix(px, block_lines(exe));
        assert(block_filter(lines_spec(full), false) =~= px);
        lemma_join_split(x, '\n');
        assert(remove_block_spec(full) =~= x + "\n"@);
    }
}

/// Installing into an existing hook file that holds no block of the tool and
/// ends in a single newline (without trailing whitespace before it), and
/// then removing the tool's block, gives back the hook exactly as it was
/// (for hook contents without carriage returns and an executable path
/// without newlines).
pub proof fn lemma_uninstall_restores_hook(existing: Seq<char>, exe: Seq<char>)
    requires
        !exe.contains('\n'),
        !existing.contains('\r'),
        !contains_seq(existing, block_start()),
        !contains_seq(existing, block_end()),
        trim_spec(existing).len() > 0,
        existing == trim_end_spec(existing) + "\n"@,
    ensures
        remove_block_spec(installed_hook_spec(Some(existing), exe)) == existing,
{
    lemma_markers_lack_newline();
    lemma_lines_contained(existing);
    let ls = lines_spec(existing);
    assert forall|i: int| 0 <= i < ls.len() implies !contains_seq(#[trigger] ls[i], block_start())
        && !contains_seq(ls[i], block_end()) by {
        if contains_seq(ls[i], block_start()) {
            lemma_contains_trans(existing, ls[i], block_start());
        }
        if contains_seq(ls[i], block_end()) {
            lemma_contains_trans(existing, ls[i], block_end());
        }
    }
    assert(existing != "\n"@) by {
        if existing == "\n"@ {
            assert(existing.len() == 1 && existing[0] == '\n');
            assert(('\n' as u32) == 10);
            assert(existing.drop_first() =~= Seq::<char>::empty());
            assert(trim_start_spec(existing) == trim_start_spec(existing.drop_first()));
            assert(trim_start_spec(existing).len() == 0);
        }
    }
    lemma_block_free_unchanged(existing);
    lemma_install_then_uninstall(existing, exe);
}

/// Right after installing, the hook file holds the tool's block.
pub proof fn lemma_installed_hook_has_block(existing: Option<Seq<char>>, exe: Seq<char>)
    ensures
        contains_seq(installed_hook_spec(existing, exe), block_start()),
{
    let head = "# === VERBUMP BLOCK START ===\n# DO NOT EDIT THIS BLOCK MANUALLY\n# Use 'verbump uninstall' to remove this hook\n"@;
    let tail = exe + " update --force\n# === VERBUMP BLOCK END ===\n"@;
    reveal_strlit("# === VERBUMP BLOCK START ===\n# DO NOT EDIT THIS BLOCK MANUALLY\n# Use 'verbump uninstall' to remove this hook\n");
    reveal_strlit("=== VERBUMP BLOCK START ===");
    assert(head.subrange(2, 2 + block_start().len() as int) =~= block_start());
    assert(matches_at(head, block_start(), 2));
    assert(block_body_spec(exe) =~= head + tail);
    let shebang = "#!/bin/bash\n"@;
    match existing {
        None => {
            lemma_contains_extend(shebang, head, tail, block_start());
            assert(shebang + head + tail =~= installed_hook_spec(existing, exe));
        },
        Some(c) => {
            let cleaned = remove_block_spec(c);
            if trim_spec(cleaned).len() == 0 {
                lemma_contains_extend(shebang, head, tail, block_start());
                assert(shebang + head + tail =~= installed_hook_spec(existing, exe));
            } else {
                let pre = trim_end_spec(cleaned) + "\n"@;
                lemma_contains_extend(pre, head, tail, block_start());
                assert(pre + head + tail =~= installed_hook_spec(existing, exe));
            }
        },
    }
}

} // verus!
