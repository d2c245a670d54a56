//! The rules of the `.scrap` folder: naming of scrapped items, the metadata
//! kept about them, and how sizes and ages are shown.
use vstd::prelude::*;
use crate::text::{
    chars_of, string_of, push_str, decimal, decimal_string, extend_chars, push_decimal, lines_spec,
    lines_of, trim_spec, trim_chars, chars_eq, views, split_on, strip_cr, trim_start_spec, trim_end_spec,
    lemma_split_on_concat, lemma_split_on_single,
};
use crate::pattern::{CompiledPattern, regex_finds};
use crate::path::{stem_and_extension, split_stem_extension, path_join, join_path};

verus! {

// ----------------------------------------------------------------------------
// Sizes
// ----------------------------------------------------------------------------

/// `2^e`.
pub open spec fn two_pow(e: nat) -> nat
    decreases e,
{
    if e == 0 { 1 } else { 2 * two_pow((e - 1) as nat) }
}

/// `1024^k`.
pub open spec fn pow1024(k: nat) -> nat
    decreases k,
{
    if k == 0 { 1 } else { 1024 * pow1024((k - 1) as nat) }
}

/// Number of binary digits of `n` (zero for zero).
pub open spec fn bit_len(n: nat) -> nat
    decreases n,
{
    if n == 0 { 0 } else { 1 + bit_len(n / 2) }
}

/// `n / d` rounded to the nearest integer, halves to the even neighbour.
pub open spec fn round_half_even(n: nat, d: nat) -> nat
    recommends
        d > 0,
{
    let q = n / d;
    let r = n % d;
    if 2 * r > d {
        q + 1
    } else if 2 * r < d {
        q
    } else if q % 2 == 0 {
        q
    } else {
        q + 1
    }
}

/// The value of `n as f64`: `n` rounded to 53 significant bits, halves to even.
pub open spec fn as_double(n: nat) -> nat {
    let l = bit_len(n);
    if l <= 53 {
        n
    } else {
        let unit = two_pow((l - 53) as nat);
        round_half_even(n, unit) * unit
    }
}

/// Which unit a size is shown in: the largest of B, KB, MB, GB, TB that the
/// size reaches.
pub open spec fn unit_index(v: nat) -> nat {
    if v < 1024 {
        0
    } else if v < 1048576 {
        1
    } else if v < 1073741824 {
        2
    } else if v < 1099511627776 {
        3
    } else {
        4
    }
}

pub open spec fn unit_name(k: nat) -> Seq<char> {
    if k == 0 {
        "B"@
    } else if k == 1 {
        "KB"@
    } else if k == 2 {
        "MB"@
    } else if k == 3 {
        "GB"@
    } else {
        "TB"@
    }
}

/// A size as the tool shows it: whole bytes below one kilobyte, otherwise the
/// size in the largest unit it reaches with one decimal (`{:.1}`, rounding
/// halves to even), computed from the size converted to `f64`.
pub open spec fn format_size_spec(bytes: u64) -> Seq<char> {
    let v = as_double(bytes as nat);
    let k = unit_index(v);
    if k == 0 {
        decimal(v) + " B"@
    } else {
        let t = round_half_even(10 * v, pow1024(k));
        decimal(t / 10) + "."@ + decimal(t % 10) + " "@ + unit_name(k)
    }
}

proof fn lemma_bit_len_bounds(n: nat)
    requires
        n > 0,
    ensures
        two_pow((bit_len(n) - 1) as nat) <= n,
        n < two_pow(bit_len(n)),
        bit_len(n) >= 1,
    decreases n,
{
    if n >= 2 {
        lemma_bit_len_bounds(n / 2);
        assert(bit_len(n) == 1 + bit_len(n / 2));
    } else {
        assert(n == 1);
        assert(bit_len(0) == 0);
        assert(bit_len(1) == 1 + bit_len(0));
    }
}

proof fn lemma_two_pow_64()
    ensures
        two_pow(64) == 0x1_0000_0000_0000_0000,
{
    reveal_with_fuel(two_pow, 65);
}

proof fn lemma_two_pow_monotone(a: nat, b: nat)
    requires
        a <= b,
    ensures
        two_pow(a) <= two_pow(b),
        two_pow(a) >= 1,
    decreases b,
{
    if a < b {
        lemma_two_pow_monotone(a, (b - 1) as nat);
    } else if a > 0 {
        lemma_two_pow_monotone((a - 1) as nat, (a - 1) as nat);
    }
}

/// The value of `n as f64`, exactly.
fn double_value(n: u64) -> (r: u128)
    ensures
        r == as_double(n as nat),
        r <= 2 * (n as nat),
{
    let mut l: u64 = 0;
    let mut x: u64 = n;
    assert(two_pow(0) == 1);
    assert(x as nat * two_pow(0) == x as nat);
    while x > 0
        invariant
            bit_len(n as nat) == l + bit_len(x as nat),
            l <= 64,
            x as nat <= n as nat,
            x as nat * two_pow(l as nat) <= n as nat,
        decreases x,
    {
        assert(bit_len(x as nat) == 1 + bit_len((x / 2) as nat));
        assert((x / 2) as nat * two_pow((l + 1) as nat) <= x as nat * two_pow(l as nat)) by (nonlinear_arith)
            requires
                two_pow((l + 1) as nat) == 2 * two_pow(l as nat),
        ;
        proof {
            if l == 64 {
                lemma_two_pow_64();
                assert(x as nat * two_pow(64) >= two_pow(64)) by (nonlinear_arith)
                    requires x > 0;
            }
        }
        x = x / 2;
        l = l + 1;
    }
    if l <= 53 {
        return n as u128;
    }
    let e = l - 53;
    let mut unit: u128 = 1;
    let mut k: u64 = 0;
    proof {
        lemma_bit_len_bounds(n as nat);
        lemma_two_pow_monotone(0, e as nat);
        lemma_two_pow_monotone(e as nat, (l - 1) as nat);
    }
    while k < e
        invariant
            k <= e,
            e == l - 53,
            unit == two_pow(k as nat),
            unit <= two_pow(e as nat),
            two_pow(e as nat) <= two_pow((l - 1) as nat),
            two_pow((l - 1) as nat) <= n as nat,
        decreases e - k,
    {
        proof { lemma_two_pow_monotone((k + 1) as nat, e as nat); }
        unit = unit * 2;
        k = k + 1;
    }
    proof { lemma_two_pow_monotone(e as nat, (l - 1) as nat); }
    let big = n as u128;
    let q = big / unit;
    let rem = big % unit;
    let rounded = if 2 * rem > unit {
        q + 1
    } else if 2 * rem < unit {
        q
    } else if q % 2 == 0 {
        q
    } else {
        q + 1
    };
    assert(q * unit <= big) by (nonlinear_arith)
        requires
            q == big / unit,
            unit > 0,
    ;
    assert(rounded * unit <= 2 * big) by (nonlinear_arith)
        requires
            rounded <= q + 1,
            q * unit <= big,
            unit <= big,
    ;
    rounded * unit
}

/// Appends the name of unit `k`.
fn push_unit(s: &mut String, k: u64)
    ensures
        final(s)@ == old(s)@ + unit_name(k as nat),
{
    if k == 0 {
        push_str(s, "B");
    } else if k == 1 {
        push_str(s, "KB");
    } else if k == 2 {
        push_str(s, "MB");
    } else if k == 3 {
        push_str(s, "GB");
    } else {
        push_str(s, "TB");
    }
}

/// Formats a byte count for display (`512 B`, `1.5 KB`, ...).
pub fn format_size(bytes: u64) -> (r: String)
    ensures
        r@ == format_size_spec(bytes),
{
    let v = double_value(bytes);
    let k: u64 = if v < 1024 {
        0
    } else if v < 1048576 {
        1
    } else if v < 1073741824 {
        2
    } else if v < 1099511627776 {
        3
    } else {
        4
    };
    assert(k as nat == unit_index(v as nat));
    if k == 0 {
        let mut s = decimal_string(v as u64);
        push_str(&mut s, " B");
        return s;
    }
    let d: u128 = if k == 1 {
        1024
    } else if k == 2 {
        1048576
    } else if k == 3 {
        1073741824
    } else {
        1099511627776
    };
    assert(d as nat == pow1024(k as nat)) by {
        reveal_with_fuel(pow1024, 5);
    }
    let n = 10 * v;
    let q = n / d;
    let rem = n % d;
    let t = if 2 * rem > d {
        q + 1
    } else if 2 * rem < d {
        q
    } else if q % 2 == 0 {
        q
    } else {
        q + 1
    };
    assert(t as nat == round_half_even(10 * (v as nat), pow1024(k as nat)));
    assert(q <= n / 1024) by (nonlinear_arith)
        requires
            q == n / d,
            d >= 1024,
    ;
    assert(t < 0x1000_0000_0000_0000);
    let mut s = decimal_string((t / 10) as u64);
    push_str(&mut s, ".");
    push_str(&mut s, decimal_string((t % 10) as u64).as_str());
    push_str(&mut s, " ");
    push_unit(&mut s, k);
    s
}

// ----------------------------------------------------------------------------
// Ages
// ----------------------------------------------------------------------------

/// An age as the tool shows it, from the whole seconds elapsed (chrono's
/// `num_seconds`): whole days if any, else the hours of the day if any, else
/// the minutes of the hour if any, else `just now`. Negative ages show as
/// `just now`, as every count is then zero or negative.
pub open spec fn duration_text(s: int) -> Seq<char> {
    if s > 0 && s / 86400 > 0 {
        decimal((s / 86400) as nat) + " days ago"@
    } else if s > 0 && (s / 3600) % 24 > 0 {
        decimal(((s / 3600) % 24) as nat) + " hours ago"@
    } else if s > 0 && (s / 60) % 60 > 0 {
        decimal(((s / 60) % 60) as nat) + " mins ago"@
    } else {
        "just now"@
    }
}

/// Formats the age of a scrapped item from the seconds elapsed since.
pub fn format_duration(seconds: i64) -> (r: String)
    ensures
        r@ == duration_text(seconds as int),
{
    if seconds <= 0 {
        return String::from_str("just now");
    }
    let s = seconds as u64;
    let days = s / 86400;
    let hours = (s / 3600) % 24;
    let minutes = (s / 60) % 60;
    if days > 0 {
        let mut t = decimal_string(days);
        push_str(&mut t, " days ago");
        t
    } else if hours > 0 {
        let mut t = decimal_string(hours);
        push_str(&mut t, " hours ago");
        t
    } else if minutes > 0 {
        let mut t = decimal_string(minutes);
        push_str(&mut t, " mins ago");
        t
    } else {
        String::from_str("just now")
    }
}

// ----------------------------------------------------------------------------
// Names of scrapped items
// ----------------------------------------------------------------------------

/// The `counter`-th alternative name for a file: `{stem}_{counter}.{ext}`,
/// or `{stem}_{counter}` when the name has no extension.
pub open spec fn candidate_name(name: Seq<char>, counter: nat) -> Seq<char> {
    let (stem, ext) = stem_and_extension(name);
    match ext {
        Some(e) => stem + "_"@ + decimal(counter) + "."@ + e,
        None => stem + "_"@ + decimal(counter),
    }
}

/// The `counter`-th alternative name for the file name `name`.
pub fn unique_candidate(name: &str, counter: u32) -> (r: String)
    ensures
        r@ == candidate_name(name@, counter as nat),
{
    let chars = chars_of(name);
    let (stem, ext) = split_stem_extension(&chars);
    let mut out = string_of(&stem);
    push_str(&mut out, "_");
    push_str(&mut out, decimal_string(counter as u64).as_str());
    match ext {
        Some(e) => {
            push_str(&mut out, ".");
            push_str(&mut out, string_of(&e).as_str());
        },
        None => {},
    }
    out
}

/// The number of alternative names tried before giving up.
pub const MAX_UNIQUE_ATTEMPTS: u32 = 10000;

/// `taken` reported the name `n` as taken on some call.
pub open spec fn reported_taken<F: Fn(&str) -> bool>(taken: F, n: Seq<char>) -> bool {
    exists|s: &str| s@ == n && call_ensures(taken, (s,), true)
}

/// The first alternative name for `name` that `taken` reports free, trying
/// counters 1 to 10000 in order; `None` if all are taken.
pub fn find_unique_name<F: Fn(&str) -> bool>(name: &str, taken: F) -> (r: Option<String>)
    requires
        forall|s: &str| call_requires(taken, (s,)),
    ensures
        match r {
            Some(n) => exists|c: nat|
                1 <= c <= 10000 && n@ == candidate_name(name@, c) && (exists|s: &str|
                    s@ == n@ && call_ensures(taken, (s,), false)) && (forall|k: nat|
                    1 <= k < c ==> reported_taken(taken, #[trigger] candidate_name(name@, k))),
            None => forall|k: nat| 1 <= k <= 10000 ==> reported_taken(taken, #[trigger] candidate_name(name@, k)),
        },
{
    let mut counter: u32 = 1;
    while counter <= MAX_UNIQUE_ATTEMPTS
        invariant
            1 <= counter <= 10001,
            forall|s: &str| call_requires(taken, (s,)),
            forall|k: nat| 1 <= k < counter ==> reported_taken(taken, #[trigger] candidate_name(name@, k)),
        decreases 10001 - counter,
    {
        let candidate = unique_candidate(name, counter);
        let is_taken = taken(candidate.as_str());
        if !is_taken {
            return Some(candidate);
        }
        assert(reported_taken(taken, candidate_name(name@, counter as nat)));
        counter += 1;
    }
    None
}

// ----------------------------------------------------------------------------
// .gitignore
// ----------------------------------------------------------------------------

/// A `.gitignore` line that already ignores the scrap folder.
pub open spec fn ignores_scrap(line: Seq<char>) -> bool {
    trim_spec(line) == ".scrap/"@ || trim_spec(line) == ".scrap"@
}

/// What has to be appended to a `.gitignore` with these contents so that it
/// ignores the scrap folder: nothing if some line already does, otherwise
/// `.scrap/` on a line of its own (after a newline if the file does not end
/// with one).
pub open spec fn gitignore_addition_spec(contents: Seq<char>) -> Option<Seq<char>> {
    let ls = lines_spec(contents);
    if exists|i: int| 0 <= i < ls.len() && ignores_scrap(ls[i]) {
        None
    } else if contents.len() > 0 && contents.last() != '\n' {
        Some("\n"@ + ".scrap/\n"@)
    } else {
        Some(".scrap/\n"@)
    }
}

/// The text to append to a `.gitignore`, if any.
pub fn gitignore_addition(contents: &str) -> (r: Option<String>)
    ensures
        match r {
            Some(t) => gitignore_addition_spec(contents@) == Some(t@),
            None => gitignore_addition_spec(contents@) is None,
        },
{
    let text = chars_of(contents);
    let lines = lines_of(&text);
    let ghost ls = lines_spec(contents@);
    let with_slash = chars_of(".scrap/");
    let without_slash = chars_of(".scrap");
    let mut i: usize = 0;
    while i < lines.len()
        invariant
            i <= lines@.len(),
            views(lines@) == ls,
            ls == lines_spec(contents@),
            with_slash@ == ".scrap/"@,
            without_slash@ == ".scrap"@,
            forall|j: int| 0 <= j < i ==> !ignores_scrap(ls[j]),
        decreases lines@.len() - i,
    {
        assert(ls[i as int] == lines@[i as int]@);
        let t = trim_chars(&lines[i]);
        if chars_eq(&t, &with_slash) || chars_eq(&t, &without_slash) {
            assert(ignores_scrap(ls[i as int]));
            return None;
        }
        i += 1;
    }
    let mut out = String::new();
    if text.len() > 0 && text[text.len() - 1] != '\n' {
        push_str(&mut out, "\n");
    }
    push_str(&mut out, ".scrap/\n");
    assert(out@ =~= gitignore_addition_spec(contents@)->0);
    Some(out)
}

/// After appending what [`gitignore_addition`] asks for, it asks for
/// nothing more.
pub proof fn lemma_gitignore_addition_idempotent(contents: Seq<char>)
    requires
        gitignore_addition_spec(contents) is Some,
    ensures
        gitignore_addition_spec(contents + gitignore_addition_spec(contents)->0) is None,
{
    let t = gitignore_addition_spec(contents)->0;
    let full = contents + t;
    let line = ".scrap/"@;
    reveal_strlit(".scrap/");
    reveal_strlit(".scrap/\n");
    reveal_strlit("\n");
    let nl = seq!['\n'];
    let e = Seq::<char>::empty();
    assert(!line.contains('\n')) by {
        if line.contains('\n') {
            let k = choose|k: int| 0 <= k < line.len() && line[k] == '\n';
        }
    }
    lemma_split_on_single(line, '\n');
    lemma_split_on_single(e, '\n');
    lemma_split_on_concat(line, e, '\n');
    let tail = line + nl + e;
    assert(split_on(tail, '\n') =~= seq![line, e]);
    // The contents before the appended line, up to its separating newline.
    let front: Seq<Seq<char>> = if contents.len() > 0 && contents.last() != '\n' {
        assert(t =~= "\n"@ + ".scrap/\n"@);
        assert(full =~= contents + nl + tail);
        lemma_split_on_concat(contents, tail, '\n');
        split_on(contents, '\n')
    } else if contents.len() == 0 {
        assert(t == ".scrap/\n"@);
        assert(full =~= tail);
        Seq::<Seq<char>>::empty()
    } else {
        let c0 = contents.drop_last();
        assert(t == ".scrap/\n"@);
        assert(full =~= c0 + nl + tail);
        lemma_split_on_concat(c0, tail, '\n');
        split_on(c0, '\n')
    };
    let p = split_on(full, '\n');
    assert(p =~= front + seq![line, e]);
    let n = p.len();
    assert(p[n - 1] == e);
    assert(p[n - 2] == line);
    assert(line.last() == '/');
    assert(strip_cr(line) == line);
    let ls = lines_spec(full);
    assert(ls.len() == n - 1);
    assert(ls[n - 2] == line);
    assert(line[0] == '.');
    assert(('.' as u32) == 46);
    assert(('/' as u32) == 47);
    assert(trim_start_spec(line) == line);
    assert(trim_end_spec(line) == line);
    assert(ignores_scrap(ls[n - 2]));
}

/// Where an item restored from the scrap folder goes: into (or onto) the
/// destination given by the user, else back to its recorded original path,
/// else into the current directory.
pub open spec fn restore_destination_spec(
    name: Seq<char>,
    custom: Option<(Seq<char>, bool)>,
    recorded: Option<Seq<char>>,
    cwd: Seq<char>,
) -> Seq<char> {
    match custom {
        Some((dest, is_dir)) => if is_dir {
            path_join(dest, name)
        } else {
            dest
        },
        None => match recorded {
            Some(orig) => orig,
            None => path_join(cwd, name),
        },
    }
}

/// The destination of a restored item. `custom` is the destination the user
/// gave with whether it is an existing directory; `recorded` the original
/// path kept in the metadata.
pub fn restore_destination(name: &str, custom: Option<(&str, bool)>, recorded: Option<&str>, cwd: &str) -> (r: String)
    ensures
        r@ == restore_destination_spec(
            name@,
            match custom {
                Some((d, b)) => Some((d@, b)),
                None => None,
            },
            match recorded {
                Some(o) => Some(o@),
                None => None,
            },
            cwd@,
        ),
{
    match custom {
        Some((dest, is_dir)) => if is_dir {
            join_path(dest, name)
        } else {
            string_of(&chars_of(dest))
        },
        None => match recorded {
            Some(orig) => string_of(&chars_of(orig)),
            None => join_path(cwd, name),
        },
    }
}

/// Names starting with a dot (such as the metadata file) are not scrapped
/// items.
pub fn is_hidden_name(name: &str) -> (r: bool)
    ensures
        r == (name@.len() > 0 && name@[0] == '.'),
{
    let c = chars_of(name);
    c.len() > 0 && c[0] == '.'
}

/// Whether an entry of the scrap folder goes into an archive: every item,
/// and the metadata file, but no other hidden file.
pub fn is_archived_name(name: &str) -> (r: bool)
    ensures
        r == (!(name@.len() > 0 && name@[0] == '.') || name@ == ".metadata.json"@),
{
    !is_hidden_name(name) || crate::text::str_eq(name, ".metadata.json")
}

/// The default archive file name for a date (`YYYY-MM-DD`).
pub fn default_archive_name(date: &str) -> (r: String)
    ensures
        r@ == ".scrap-"@ + date@ + ".tar.gz"@,
{
    let mut s = String::from_str(".scrap-");
    push_str(&mut s, date);
    push_str(&mut s, ".tar.gz");
    s
}

// ----------------------------------------------------------------------------
// Metadata
// ----------------------------------------------------------------------------

/// A point in time: whole seconds since the Unix epoch and the nanoseconds
/// within that second.
#[derive(Debug, Clone, Copy, PartialEq, Eq, Structural)]
pub struct Timestamp {
    pub secs: i64,
    pub nanos: u32,
}

/// `a` is earlier than `b`.
pub open spec fn ts_before(a: Timestamp, b: Timestamp) -> bool {
    a.secs < b.secs || (a.secs == b.secs && a.nanos < b.nanos)
}

impl Timestamp {
    /// Whether `self` is earlier than `other`.
    pub fn before(&self, other: &Timestamp) -> (r: bool)
        ensures
            r == ts_before(*self, *other),
    {
        self.secs < other.secs || (self.secs == other.secs && self.nanos < other.nanos)
    }
}

/// The current time (chrono `Utc::now`, read as seconds and nanoseconds).
/// Nothing is stated about the value: it depends on the clock.
#[verifier::external_body]
fn current_time() -> (r: Timestamp) {
    let now = chrono::Utc::now();
    Timestamp { secs: now.timestamp(), nanos: now.timestamp_subsec_nanos() }
}

/// What is remembered about a scrapped item.
#[derive(Debug)]
pub struct ScrapEntry {
    pub original_path: String,
    pub scrapped_at: Timestamp,
    pub scrapped_name: String,
}

/// The content of a [`ScrapEntry`]: original path, time, name.
pub type EntryInfo = (Seq<char>, Timestamp, Seq<char>);

impl ScrapEntry {
    pub open spec fn info(&self) -> EntryInfo {
        (self.original_path@, self.scrapped_at, self.scrapped_name@)
    }

    /// A copy of this entry.
    pub fn duplicate(&self) -> (r: ScrapEntry)
        ensures
            r.info() == self.info(),
    {
        ScrapEntry {
            original_path: self.original_path.clone(),
            scrapped_at: self.scrapped_at,
            scrapped_name: self.scrapped_name.clone(),
        }
    }
}

/// The metadata of a scrap folder: one entry per scrapped name.
#[derive(Debug)]
pub struct ScrapMetadata {
    pub version: u32,
    /// Entries keyed by the scrapped name; each key occurs once.
    pub entries: Vec<(String, ScrapEntry)>,
}

/// The map from scrapped names to entries, as a sequence of pairs.
pub type MetadataView = Seq<(Seq<char>, EntryInfo)>;

/// The pairs after inserting `v` under key `k`: an existing entry for `k` is
/// replaced in place, otherwise the pair is appended.
pub open spec fn insert_entry(es: MetadataView, k: Seq<char>, v: EntryInfo) -> MetadataView {
    if exists|i: int| 0 <= i < es.len() && es[i].0 == k {
        let i = choose|i: int| 0 <= i < es.len() && es[i].0 == k;
        es.update(i, (k, v))
    } else {
        es.push((k, v))
    }
}

/// The pairs after removing key `k`; the others keep their order.
pub open spec fn remove_entry_spec(es: MetadataView, k: Seq<char>) -> MetadataView {
    if exists|i: int| 0 <= i < es.len() && es[i].0 == k {
        let i = choose|i: int| 0 <= i < es.len() && es[i].0 == k;
        es.remove(i)
    } else {
        es
    }
}

/// The entry stored under key `k`, if any.
pub open spec fn lookup_entry(es: MetadataView, k: Seq<char>) -> Option<EntryInfo> {
    if exists|i: int| 0 <= i < es.len() && es[i].0 == k {
        let i = choose|i: int| 0 <= i < es.len() && es[i].0 == k;
        Some(es[i].1)
    } else {
        None
    }
}

/// Keys occur at most once.
pub open spec fn keys_distinct(es: MetadataView) -> bool {
    forall|i: int, j: int| 0 <= i < j < es.len() ==> es[i].0 != es[j].0
}

impl ScrapMetadata {
    pub open spec fn view_entries(&self) -> MetadataView {
        Seq::new(self.entries@.len(), |i: int| (self.entries@[i].0@, self.entries@[i].1.info()))
    }

    pub open spec fn wf(&self) -> bool {
        keys_distinct(self.view_entries())
    }

    pub fn new() -> (r: Self)
        ensures
            r.wf(),
            r.version == 1,
            r.view_entries() == Seq::<(Seq<char>, EntryInfo)>::empty(),
    {
        let r = Self { version: 1, entries: Vec::new() };
        assert(r.view_entries() =~= Seq::<(Seq<char>, EntryInfo)>::empty());
        r
    }

    /// The index of the entry stored under `name`, if any.
    fn position(&self, name: &str) -> (r: Option<usize>)
        requires
            self.wf(),
        ensures
            match r {
                Some(i) => i < self.entries@.len() && self.view_entries()[i as int].0 == name@,
                None => !(exists|i: int|
                    0 <= i < self.view_entries().len() && self.view_entries()[i].0 == name@),
            },
    {
        let mut i: usize = 0;
        while i < self.entries.len()
            invariant
                i <= self.entries@.len(),
                forall|j: int| 0 <= j < i ==> self.view_entries()[j].0 != name@,
            decreases self.entries@.len() - i,
        {
            if crate::text::str_eq(self.entries[i].0.as_str(), name) {
                return Some(i);
            }
            i += 1;
        }
        None
    }

    /// Records that `scrapped_name` was scrapped from `original_path` at `at`
    /// (replacing any earlier entry under that name).
    pub fn add_entry_at(&mut self, scrapped_name: &str, original_path: String, at: Timestamp)
        requires
            old(self).wf(),
        ensures
            final(self).wf(),
            final(self).version == old(self).version,
            final(self).view_entries() == insert_entry(
                old(self).view_entries(),
                scrapped_name@,
                (original_path@, at, scrapped_name@),
            ),
    {
        let ghost es = self.view_entries();
        let ghost v = (original_path@, at, scrapped_name@);
        let entry = ScrapEntry {
            original_path,
            scrapped_at: at,
            scrapped_name: string_of(&chars_of(scrapped_name)),
        };
        match self.position(scrapped_name) {
            Some(i) => {
                proof {
                    let c = choose|c: int| 0 <= c < es.len() && es[c].0 == scrapped_name@;
                    assert(c == i);
                }
                let key = string_of(&chars_of(scrapped_name));
                self.entries.set(i, (key, entry));
                assert(self.view_entries() =~= es.update(i as int, (scrapped_name@, v)));
            },
            None => {
                let key = string_of(&chars_of(scrapped_name));
                self.entries.push((key, entry));
                assert(self.view_entries() =~= es.push((scrapped_name@, v)));
            },
        }
        assert forall|a: int, b: int| 0 <= a < b < self.view_entries().len() implies self.view_entries()[a].0
            != self.view_entries()[b].0 by {
            if b == es.len() {
                assert(self.view_entries()[a].0 == es[a].0);
            } else {
                assert(es[a].0 != es[b].0);
            }
        }
    }

    /// Records that `scrapped_name` was scrapped from `original_path` now.
    pub fn add_entry(&mut self, scrapped_name: &str, original_path: String)
        requires
            old(self).wf(),
        ensures
            final(self).wf(),
            final(self).version == old(self).version,
            exists|at: Timestamp|
                final(self).view_entries() == insert_entry(
                    old(self).view_entries(),
                    scrapped_name@,
                    (original_path@, at, scrapped_name@),
                ),
    {
        let at = current_time();
        self.add_entry_at(scrapped_name, original_path, at);
    }

    /// Forgets the entry under `scrapped_name`, returning it.
    pub fn remove_entry(&mut self, scrapped_name: &str) -> (r: Option<ScrapEntry>)
        requires
            old(self).wf(),
        ensures
            final(self).wf(),
            final(self).version == old(self).version,
            final(self).view_entries() == remove_entry_spec(old(self).view_entries(), scrapped_name@),
            match r {
                Some(e) => lookup_entry(old(self).view_entries(), scrapped_name@) == Some(e.info()),
                None => lookup_entry(old(self).view_entries(), scrapped_name@) is None,
            },
    {
        let ghost es = self.view_entries();
        match self.position(scrapped_name) {
            Some(i) => {
                proof {
                    let c = choose|c: int| 0 <= c < es.len() && es[c].0 == scrapped_name@;
                    assert(c == i);
                }
                let (_, entry) = self.entries.remove(i);
                assert(self.view_entries() =~= es.remove(i as int));
                assert forall|a: int, b: int| 0 <= a < b < self.view_entries().len() implies self.view_entries()[a].0
                    != self.view_entries()[b].0 by {
                    let a0 = if a < i { a } else { a + 1 };
                    let b0 = if b < i { b } else { b + 1 };
                    assert(es[a0].0 != es[b0].0);
                }
                Some(entry)
            },
            None => None,
        }
    }

    /// The entry under `scrapped_name`, if any.
    pub fn get_entry(&self, scrapped_name: &str) -> (r: Option<&ScrapEntry>)
        requires
            self.wf(),
        ensures
            match r {
                Some(e) => lookup_entry(self.view_entries(), scrapped_name@) == Some(e.info()),
                None => lookup_entry(self.view_entries(), scrapped_name@) is None,
            },
    {
        let ghost es = self.view_entries();
        match self.position(scrapped_name) {
            Some(i) => {
                proof {
                    let c = choose|c: int| 0 <= c < es.len() && es[c].0 == scrapped_name@;
                    assert(c == i);
                }
                Some(&self.entries[i].1)
            },
            None => None,
        }
    }

    /// Whether nothing is recorded.
    pub fn is_empty(&self) -> (r: bool)
        ensures
            r == (self.view_entries().len() == 0),
    {
        self.entries.len() == 0
    }

    /// The most recently scrapped entry (the last one among equally recent
    /// entries), if any.
    pub fn most_recent(&self) -> (r: Option<&ScrapEntry>)
        ensures
            r is None <==> self.view_entries().len() == 0,
            r matches Some(e) ==> exists|i: int|
                0 <= i < self.view_entries().len() && self.view_entries()[i].1 == e.info() && (forall|
                    j: int,
                |
                    0 <= j < self.view_entries().len() ==> !ts_before(
                        e.scrapped_at,
                        #[trigger] self.view_entries()[j].1.1,
                    )) && (forall|j: int|
                    i < j < self.view_entries().len() ==> ts_before(
                        #[trigger] self.view_entries()[j].1.1,
                        e.scrapped_at,
                    )),
    {
        if self.entries.len() == 0 {
            return None;
        }
        let ghost es = self.view_entries();
        let mut best: usize = 0;
        let mut i: usize = 1;
        while i < self.entries.len()
            invariant
                1 <= i <= self.entries@.len(),
                best < i,
                es == self.view_entries(),
                forall|j: int| 0 <= j < i ==> !ts_before(es[best as int].1.1, #[trigger] es[j].1.1),
                forall|j: int| best < j < i ==> ts_before(#[trigger] es[j].1.1, es[best as int].1.1),
            decreases self.entries@.len() - i,
        {
            if !self.entries[i].1.scrapped_at.before(&self.entries[best].1.scrapped_at) {
                best = i;
            }
            i += 1;
        }
        let r = &self.entries[best].1;
        assert(es[best as int].1 == r.info());
        assert(r.scrapped_at == es[best as int].1.1);
        Some(r)
    }

    /// Whether the item `name` is older than `cutoff`: by its recorded time
    /// when there is an entry, by its modification time `modified` otherwise.
    pub fn is_expired(&self, name: &str, modified: Timestamp, cutoff: Timestamp) -> (r: bool)
        requires
            self.wf(),
        ensures
            r == match lookup_entry(self.view_entries(), name@) {
                Some(e) => ts_before(e.1, cutoff),
                None => ts_before(modified, cutoff),
            },
    {
        match self.get_entry(name) {
            Some(e) => e.scrapped_at.before(&cutoff),
            None => modified.before(&cutoff),
        }
    }
}

// ----------------------------------------------------------------------------
// Laws of the metadata
// ----------------------------------------------------------------------------

/// After recording an entry under a name, looking the name up gives that
/// entry; every other name keeps its entry.
pub proof fn lemma_lookup_after_insert(es: MetadataView, k: Seq<char>, v: EntryInfo, k2: Seq<char>)
    requires
        keys_distinct(es),
    ensures
        lookup_entry(insert_entry(es, k, v), k) == Some(v),
        k2 != k ==> lookup_entry(insert_entry(es, k, v), k2) == lookup_entry(es, k2),
        keys_distinct(insert_entry(es, k, v)),
{
    let r = insert_entry(es, k, v);
    if exists|i: int| 0 <= i < es.len() && es[i].0 == k {
        let c = choose|i: int| 0 <= i < es.len() && es[i].0 == k;
        assert(r == es.update(c, (k, v)));
        assert forall|a: int, b: int| 0 <= a < b < r.len() implies r[a].0 != r[b].0 by {
            assert(es[a].0 != es[b].0);
        }
        assert(r[c].0 == k);
        let d = choose|i: int| 0 <= i < r.len() && r[i].0 == k;
        if d < c {
            assert(r[d].0 != r[c].0);
        } else if d > c {
            assert(r[c].0 != r[d].0);
        }
        if k2 != k {
            if exists|i: int| 0 <= i < es.len() && es[i].0 == k2 {
                let e = choose|i: int| 0 <= i < es.len() && es[i].0 == k2;
                assert(r[e].0 == k2);
                let f = choose|i: int| 0 <= i < r.len() && r[i].0 == k2;
                if f < e {
                    assert(r[f].0 != r[e].0);
                } else if f > e {
                    assert(r[e].0 != r[f].0);
                }
            } else {
                assert forall|i: int| 0 <= i < r.len() implies r[i].0 != k2 by {
                    if i != c {
                        assert(r[i] == es[i]);
                    }
                }
            }
        }
    } else {
        assert(r == es.push((k, v)));
        let n = es.len() as int;
        assert(r[n].0 == k);
        assert forall|a: int, b: int| 0 <= a < b < r.len() implies r[a].0 != r[b].0 by {
            if b == n {
                assert(r[a] == es[a]);
            } else {
                assert(es[a].0 != es[b].0);
            }
        }
        let d = choose|i: int| 0 <= i < r.len() && r[i].0 == k;
        if d < n {
            assert(r[d].0 != r[n].0);
        }
        if k2 != k {
            if exists|i: int| 0 <= i < es.len() && es[i].0 == k2 {
                let e = choose|i: int| 0 <= i < es.len() && es[i].0 == k2;
                assert(r[e].0 == k2);
                let f = choose|i: int| 0 <= i < r.len() && r[i].0 == k2;
                if f < e {
                    assert(r[f].0 != r[e].0);
                } else if f > e {
                    assert(r[e].0 != r[f].0);
                }
            } else {
                assert forall|i: int| 0 <= i < r.len() implies r[i].0 != k2 by {
                    if i < n {
                        assert(r[i] == es[i]);
                    }
                }
            }
        }
    }
}

/// After forgetting a name, it has no entry; every other name keeps its entry.
pub proof fn lemma_lookup_after_remove(es: MetadataView, k: Seq<char>, k2: Seq<char>)
    requires
        keys_distinct(es),
    ensures
        lookup_entry(remove_entry_spec(es, k), k) is None,
        k2 != k ==> lookup_entry(remove_entry_spec(es, k), k2) == lookup_entry(es, k2),
        keys_distinct(remove_entry_spec(es, k)),
{
    let r = remove_entry_spec(es, k);
    if exists|i: int| 0 <= i < es.len() && es[i].0 == k {
        let c = choose|i: int| 0 <= i < es.len() && es[i].0 == k;
        assert(r == es.remove(c));
        assert forall|i: int| 0 <= i < r.len() implies r[i].0 != k by {
            let i0 = if i < c { i } else { i + 1 };
            assert(r[i] == es[i0]);
            assert(es[i0].0 != es[c].0);
        }
        assert forall|a: int, b: int| 0 <= a < b < r.len() implies r[a].0 != r[b].0 by {
            let a0 = if a < c { a } else { a + 1 };
            let b0 = if b < c { b } else { b + 1 };
            assert(es[a0].0 != es[b0].0);
        }
        if k2 != k {
            if exists|i: int| 0 <= i < es.len() && es[i].0 == k2 {
                let e = choose|i: int| 0 <= i < es.len() && es[i].0 == k2;
                let e1 = if e < c { e } else { e - 1 };
                assert(e != c);
                assert(r[e1] == es[e]);
                let f = choose|i: int| 0 <= i < r.len() && r[i].0 == k2;
                if f < e1 {
                    assert(r[f].0 != r[e1].0);
                } else if f > e1 {
                    assert(r[e1].0 != r[f].0);
                }
            } else {
                assert forall|i: int| 0 <= i < r.len() implies r[i].0 != k2 by {
                    let i0 = if i < c { i } else { i + 1 };
                    assert(r[i] == es[i0]);
                }
            }
        }
    }
}

/// Scrapping then restoring by name: the entry read back is the one recorded,
/// and once forgotten the name is gone while the other entries remain.
pub proof fn lemma_add_then_remove(es: MetadataView, k: Seq<char>, v: EntryInfo, k2: Seq<char>)
    requires
        keys_distinct(es),
    ensures
        lookup_entry(insert_entry(es, k, v), k) == Some(v),
        lookup_entry(remove_entry_spec(insert_entry(es, k, v), k), k) is None,
        k2 != k ==> lookup_entry(remove_entry_spec(insert_entry(es, k, v), k), k2) == lookup_entry(es, k2),
{
    lemma_lookup_after_insert(es, k, v, k2);
    lemma_lookup_after_remove(insert_entry(es, k, v), k, k2);
}

// ----------------------------------------------------------------------------
// Listing order
// ----------------------------------------------------------------------------

/// How the listing is ordered.
#[derive(Debug, Clone, Copy, PartialEq, Eq, Structural)]
pub enum SortKey {
    /// By file name.
    Name,
    /// Most recently scrapped first.
    Date,
    /// Smallest first.
    Size,
}

/// The sort option named `s`, if it is one of `name`, `date`, `size`.
pub fn parse_sort_key(s: &str) -> (r: Option<SortKey>)
    ensures
        r == if s@ == "name"@ {
            Some(SortKey::Name)
        } else if s@ == "date"@ {
            Some(SortKey::Date)
        } else if s@ == "size"@ {
            Some(SortKey::Size)
        } else {
            None
        },
{
    if crate::text::str_eq(s, "name") {
        Some(SortKey::Name)
    } else if crate::text::str_eq(s, "date") {
        Some(SortKey::Date)
    } else if crate::text::str_eq(s, "size") {
        Some(SortKey::Size)
    } else {
        None
    }
}

/// One item of the scrap folder as listed.
#[derive(Debug)]
pub struct ListingEntry {
    pub name: String,
    /// When it was scrapped, if the metadata knows.
    pub scrapped_at: Option<Timestamp>,
    pub size: u64,
}

/// The content of a [`ListingEntry`].
pub type ListingView = (Seq<char>, Option<Timestamp>, u64);

impl ListingEntry {
    pub open spec fn listing_view(&self) -> ListingView {
        (self.name@, self.scrapped_at, self.size)
    }
}

pub open spec fn listing_views(v: Seq<ListingEntry>) -> Seq<ListingView> {
    Seq::new(v.len(), |i: int| v[i].listing_view())
}

/// `a` comes strictly before `b` in code-point lexicographic order (the byte
/// order of their UTF-8 encodings).
pub open spec fn name_lt(a: Seq<char>, b: Seq<char>) -> bool
    decreases a.len(),
{
    if b.len() == 0 {
        false
    } else if a.len() == 0 {
        true
    } else if (a[0] as u32) < (b[0] as u32) {
        true
    } else if a[0] == b[0] {
        name_lt(a.drop_first(), b.drop_first())
    } else {
        false
    }
}

/// The time used for ordering: the recorded one, or the Unix epoch.
pub open spec fn time_or_epoch(t: Option<Timestamp>) -> Timestamp {
    match t {
        Some(t) => t,
        None => Timestamp { secs: 0, nanos: 0 },
    }
}

/// `e` belongs strictly after `x` in the listing order.
pub open spec fn listed_after(e: ListingView, x: ListingView, key: SortKey) -> bool {
    match key {
        SortKey::Name => name_lt(x.0, e.0),
        SortKey::Date => ts_before(time_or_epoch(e.1), time_or_epoch(x.1)),
        SortKey::Size => x.2 < e.2,
    }
}

/// `x` inserted into `t` after every element that does not belong after it.
pub open spec fn insert_listing(t: Seq<ListingView>, x: ListingView, key: SortKey) -> Seq<ListingView>
    decreases t.len(),
{
    if t.len() == 0 || !listed_after(t.last(), x, key) {
        t.push(x)
    } else {
        insert_listing(t.drop_last(), x, key).push(t.last())
    }
}

/// The stable sort of a listing.
pub open spec fn sort_listing_spec(s: Seq<ListingView>, key: SortKey) -> Seq<ListingView>
    decreases s.len(),
{
    if s.len() == 0 {
        Seq::empty()
    } else {
        insert_listing(sort_listing_spec(s.drop_last(), key), s.last(), key)
    }
}

/// Whether `a` is lexicographically smaller than `b`.
fn name_less(a: &str, b: &str) -> (r: bool)
    ensures
        r == name_lt(a@, b@),
{
    let ac = chars_of(a);
    let bc = chars_of(b);
    let mut i: usize = 0;
    assert(ac@.skip(0) =~= ac@);
    assert(bc@.skip(0) =~= bc@);
    while i < ac.len() && i < bc.len() && ac[i] == bc[i]
        invariant
            i <= ac.len(),
            i <= bc.len(),
            name_lt(a@, b@) == name_lt(ac@.skip(i as int), bc@.skip(i as int)),
            ac@ == a@,
            bc@ == b@,
        decreases ac.len() - i,
    {
        assert(ac@.skip(i as int).drop_first() =~= ac@.skip(i + 1));
        assert(bc@.skip(i as int).drop_first() =~= bc@.skip(i + 1));
        i += 1;
    }
    if i == bc.len() {
        false
    } else if i == ac.len() {
        true
    } else {
        assert(ac@.skip(i as int)[0] == ac@[i as int]);
        assert(bc@.skip(i as int)[0] == bc@[i as int]);
        (ac[i] as u32) < (bc[i] as u32)
    }
}

fn listed_after_exec(e: &ListingEntry, x: &ListingEntry, key: SortKey) -> (r: bool)
    ensures
        r == listed_after(e.listing_view(), x.listing_view(), key),
{
    match key {
        SortKey::Name => name_less(x.name.as_str(), e.name.as_str()),
        SortKey::Date => {
            let te = match e.scrapped_at {
                Some(t) => t,
                None => Timestamp { secs: 0, nanos: 0 },
            };
            let tx = match x.scrapped_at {
                Some(t) => t,
                None => Timestamp { secs: 0, nanos: 0 },
            };
            te.before(&tx)
        },
        SortKey::Size => x.size < e.size,
    }
}

proof fn lemma_insert_listing_at(t: Seq<ListingView>, x: ListingView, key: SortKey, j: int)
    requires
        0 <= j <= t.len(),
        forall|k: int| j <= k < t.len() ==> listed_after(#[trigger] t[k], x, key),
        j == 0 || !listed_after(t[j - 1], x, key),
    ensures
        insert_listing(t, x, key) == t.take(j).push(x) + t.skip(j),
    decreases t.len() - j,
{
    if j == t.len() {
        assert(t.take(j) =~= t);
        assert(t.skip(j) =~= Seq::<ListingView>::empty());
        if t.len() > 0 {
            assert(t.last() == t[j - 1]);
        }
    } else {
        assert(listed_after(t[t.len() - 1], x, key));
        let t0 = t.drop_last();
        assert forall|k: int| j <= k < t0.len() implies listed_after(#[trigger] t0[k], x, key) by {
            assert(t0[k] == t[k]);
        }
        if j > 0 {
            assert(t0[j - 1] == t[j - 1]);
        }
        lemma_insert_listing_at(t0, x, key, j);
        assert(t0.take(j) =~= t.take(j));
        assert(t0.skip(j).push(t.last()) =~= t.skip(j));
        assert(insert_listing(t, x, key) == insert_listing(t0, x, key).push(t.last()));
        assert(t.take(j).push(x) + t.skip(j) =~= (t0.take(j).push(x) + t0.skip(j)).push(t.last()));
    }
}

/// Orders a listing stably by the given key.
pub fn sort_listing(entries: Vec<ListingEntry>, key: SortKey) -> (r: Vec<ListingEntry>)
    ensures
        listing_views(r@) == sort_listing_spec(listing_views(entries@), key),
        listing_sorted(listing_views(r@), key),
        listing_views(r@).to_multiset() == listing_views(entries@).to_multiset(),
{
    let ghost input = listing_views(entries@);
    let mut rest = entries;
    let mut out: Vec<ListingEntry> = Vec::new();
    let mut i: usize = 0;
    let n = rest.len();
    assert(input.take(0) =~= Seq::<ListingView>::empty());
    assert(listing_views(out@) =~= sort_listing_spec(input.take(0), key));
    assert(listing_views(rest@) =~= input.skip(0));
    while rest.len() > 0
        invariant
            i + rest@.len() == n,
            n == input.len(),
            listing_views(rest@) == input.skip(i as int),
            listing_views(out@) == sort_listing_spec(input.take(i as int), key),
        decreases rest@.len(),
    {
        let ghost before = listing_views(out@);
        let ghost old_rest = rest@;
        let x = rest.remove(0);
        assert(rest@ == old_rest.remove(0));
        assert(listing_views(rest@) =~= listing_views(old_rest).drop_first());
        assert(input.skip(i as int).drop_first() =~= input.skip(i + 1));
        assert(x.listing_view() == input[i as int]) by {
            assert(input.skip(i as int)[0] == input[i as int]);
        }
        let mut j = out.len();
        while j > 0 && listed_after_exec(&out[j - 1], &x, key)
            invariant
                j <= out@.len(),
                before == listing_views(out@),
                forall|k: int| j <= k < out@.len() ==> listed_after(#[trigger] before[k], x.listing_view(), key),
            decreases j,
        {
            j -= 1;
        }
        proof {
            if j > 0 {
                assert(before[j - 1] == out@[j - 1].listing_view());
            }
            lemma_insert_listing_at(before, x.listing_view(), key, j as int);
        }
        out.insert(j, x);
        assert(listing_views(out@) =~= before.take(j as int).push(input[i as int]) + before.skip(j as int));
        assert(input.take(i + 1).drop_last() =~= input.take(i as int));
        assert(input.take(i + 1).last() == input[i as int]);
        i += 1;
    }
    assert(input.take(n as int) =~= input);
    proof {
        lemma_sort_listing_sorted(input, key);
        lemma_sort_listing_permutation(input, key);
    }
    out
}

/// The listing order holds exactly the listed items.
pub proof fn lemma_sort_listing_permutation(s: Seq<ListingView>, key: SortKey)
    ensures
        sort_listing_spec(s, key).to_multiset() == s.to_multiset(),
    decreases s.len(),
{
    broadcast use vstd::seq_lib::group_seq_properties;
    if s.len() > 0 {
        lemma_sort_listing_permutation(s.drop_last(), key);
        lemma_insert_listing_multiset(sort_listing_spec(s.drop_last(), key), s.last(), key);
        assert(s.drop_last().push(s.last()) =~= s);
    } else {
        assert(sort_listing_spec(s, key) =~= s);
    }
}

proof fn lemma_insert_listing_multiset(t: Seq<ListingView>, x: ListingView, key: SortKey)
    ensures
        insert_listing(t, x, key).to_multiset() == t.to_multiset().insert(x),
    decreases t.len(),
{
    broadcast use vstd::seq_lib::group_seq_properties;
    if t.len() > 0 && listed_after(t.last(), x, key) {
        let t0 = t.drop_last();
        lemma_insert_listing_multiset(t0, x, key);
        assert(t0.push(t.last()) =~= t);
    }
}

/// No entry of the sequence belongs strictly after a later one.
pub open spec fn listing_sorted(s: Seq<ListingView>, key: SortKey) -> bool {
    forall|i: int, j: int| 0 <= i < j < s.len() ==> !listed_after(s[i], s[j], key)
}

proof fn lemma_name_lt_asym(a: Seq<char>, b: Seq<char>)
    ensures
        name_lt(a, b) ==> !name_lt(b, a),
    decreases a.len(),
{
    if a.len() > 0 && b.len() > 0 && a[0] == b[0] {
        lemma_name_lt_asym(a.drop_first(), b.drop_first());
    }
}

proof fn lemma_name_lt_trans(a: Seq<char>, b: Seq<char>, c: Seq<char>)
    requires
        name_lt(a, b),
        name_lt(b, c),
    ensures
        name_lt(a, c),
    decreases a.len(),
{
    if a.len() > 0 && a[0] == b[0] && b[0] == c[0] {
        lemma_name_lt_trans(a.drop_first(), b.drop_first(), c.drop_first());
    }
}

proof fn lemma_name_lt_total(a: Seq<char>, b: Seq<char>)
    ensures
        a == b || name_lt(a, b) || name_lt(b, a),
    decreases a.len(),
{
    if a.len() == 0 && b.len() == 0 {
        assert(a =~= b);
    } else if a.len() > 0 && b.len() > 0 && a[0] == b[0] {
        lemma_name_lt_total(a.drop_first(), b.drop_first());
        if a.drop_first() == b.drop_first() {
            assert(a =~= seq![a[0]] + a.drop_first());
            assert(b =~= seq![b[0]] + b.drop_first());
        }
    } else if a.len() > 0 && b.len() > 0 {
        vstd::utf8::char_u32_cast(a[0], a[0] as u32);
        vstd::utf8::char_u32_cast(b[0], b[0] as u32);
    }
}

/// `listed_after` is asymmetric, and not belonging after is transitive.
proof fn lemma_listed_after_order(a: ListingView, b: ListingView, c: ListingView, key: SortKey)
    ensures
        listed_after(a, b, key) ==> !listed_after(b, a, key),
        !listed_after(a, b, key) && !listed_after(b, c, key) ==> !listed_after(a, c, key),
{
    if key == SortKey::Name {
        lemma_name_lt_asym(b.0, a.0);
        lemma_name_lt_total(a.0, b.0);
        if name_lt(c.0, a.0) && name_lt(a.0, b.0) {
            lemma_name_lt_trans(c.0, a.0, b.0);
        }
    }
}

proof fn lemma_insert_listing_bounded(t: Seq<ListingView>, x: ListingView, bound: ListingView, key: SortKey)
    requires
        forall|k: int| 0 <= k < t.len() ==> !listed_after(#[trigger] t[k], bound, key),
        !listed_after(x, bound, key),
    ensures
        forall|k: int|
            0 <= k < insert_listing(t, x, key).len() ==> !listed_after(
                #[trigger] insert_listing(t, x, key)[k],
                bound,
                key,
            ),
    decreases t.len(),
{
    let r = insert_listing(t, x, key);
    if t.len() > 0 && listed_after(t.last(), x, key) {
        let t0 = t.drop_last();
        assert forall|k: int| 0 <= k < t0.len() implies !listed_after(#[trigger] t0[k], bound, key) by {
            assert(t0[k] == t[k]);
        }
        lemma_insert_listing_bounded(t0, x, bound, key);
        let r0 = insert_listing(t0, x, key);
        assert(r == r0.push(t.last()));
        assert forall|k: int| 0 <= k < r.len() implies !listed_after(#[trigger] r[k], bound, key) by {
            if k < r0.len() {
                assert(r[k] == r0[k]);
            } else {
                assert(r[k] == t[t.len() - 1]);
            }
        }
    } else {
        assert forall|k: int| 0 <= k < r.len() implies !listed_after(#[trigger] r[k], bound, key) by {
            if k < t.len() {
                assert(r[k] == t[k]);
            }
        }
    }
}

proof fn lemma_insert_listing_sorted(t: Seq<ListingView>, x: ListingView, key: SortKey)
    requires
        listing_sorted(t, key),
    ensures
        listing_sorted(insert_listing(t, x, key), key),
    decreases t.len(),
{
    if t.len() == 0 || !listed_after(t.last(), x, key) {
        let r = t.push(x);
        assert forall|i: int, j: int| 0 <= i < j < r.len() implies !listed_after(r[i], r[j], key) by {
            if j == t.len() && i < t.len() - 1 {
                lemma_listed_after_order(t[i], t[t.len() - 1], x, key);
            }
        }
    } else {
        let t0 = t.drop_last();
        let last = t.last();
        assert(listing_sorted(t0, key)) by {
            assert forall|i: int, j: int| 0 <= i < j < t0.len() implies !listed_after(t0[i], t0[j], key) by {
                assert(t0[i] == t[i] && t0[j] == t[j]);
            }
        }
        lemma_insert_listing_sorted(t0, x, key);
        assert forall|k: int| 0 <= k < t0.len() implies !listed_after(#[trigger] t0[k], last, key) by {
            assert(t0[k] == t[k]);
        }
        lemma_listed_after_order(last, x, x, key);
        lemma_insert_listing_bounded(t0, x, last, key);
        let r0 = insert_listing(t0, x, key);
        let r = r0.push(last);
        assert(insert_listing(t, x, key) == r);
        assert forall|i: int, j: int| 0 <= i < j < r.len() implies !listed_after(r[i], r[j], key) by {
            if j == r0.len() {
                assert(r[i] == r0[i]);
            } else {
                assert(r[i] == r0[i] && r[j] == r0[j]);
            }
        }
    }
}

/// The listing order: no item is listed before one it belongs after (by
/// name, most recent first, or smallest first).
pub proof fn lemma_sort_listing_sorted(s: Seq<ListingView>, key: SortKey)
    ensures
        listing_sorted(sort_listing_spec(s, key), key),
    decreases s.len(),
{
    if s.len() > 0 {
        lemma_sort_listing_sorted(s.drop_last(), key);
        lemma_insert_listing_sorted(sort_listing_spec(s.drop_last(), key), s.last(), key);
    }
}

/// The listing order in plain terms: by name, no name is followed by a
/// smaller one (in code-point lexicographic order); by date, no entry is
/// followed by a more recent one (entries without a time counting as the
/// Unix epoch); by size, sizes never decrease.
pub proof fn lemma_listing_order(s: Seq<ListingView>, key: SortKey)
    ensures
        key == SortKey::Name ==> forall|i: int, j: int|
            0 <= i < j < sort_listing_spec(s, key).len() ==> !name_lt(
                #[trigger] sort_listing_spec(s, key)[j].0,
                #[trigger] sort_listing_spec(s, key)[i].0,
            ),
        key == SortKey::Date ==> forall|i: int, j: int|
            0 <= i < j < sort_listing_spec(s, key).len() ==> !ts_before(
                time_or_epoch(#[trigger] sort_listing_spec(s, key)[i].1),
                time_or_epoch(#[trigger] sort_listing_spec(s, key)[j].1),
            ),
        key == SortKey::Size ==> forall|i: int, j: int|
            0 <= i < j < sort_listing_spec(s, key).len() ==> #[trigger] sort_listing_spec(s, key)[i].2
                <= #[trigger] sort_listing_spec(s, key)[j].2,
{
    lemma_sort_listing_sorted(s, key);
    let r = sort_listing_spec(s, key);
    assert forall|i: int, j: int| 0 <= i < j < r.len() implies !listed_after(#[trigger] r[i], #[trigger] r[j], key) by {}
}

/// Name order is lexicographic by code point: a proper prefix comes first,
/// and otherwise the first differing character decides.
pub proof fn lemma_name_lt_lexicographic(a: Seq<char>, b: Seq<char>, k: int)
    requires
        0 <= k <= a.len(),
        k <= b.len(),
        a.take(k) == b.take(k),
    ensures
        k == a.len() && k < b.len() ==> name_lt(a, b),
        k == b.len() ==> !name_lt(a, b),
        k < a.len() && k < b.len() && a[k] != b[k] ==> (name_lt(a, b) <==> (a[k] as u32) < (b[k] as u32)),
    decreases k,
{
    if k > 0 {
        assert(a[0] == a.take(k)[0] && b[0] == b.take(k)[0]);
        assert(a.drop_first().take(k - 1) =~= a.take(k).drop_first());
        assert(b.drop_first().take(k - 1) =~= b.take(k).drop_first());
        lemma_name_lt_lexicographic(a.drop_first(), b.drop_first(), k - 1);
        if k < a.len() {
            assert(a.drop_first()[k - 1] == a[k]);
        }
        if k < b.len() {
            assert(b.drop_first()[k - 1] == b[k]);
        }
    } else {
        if b.len() > 0 && a.len() > 0 && a[0] != b[0] {
            vstd::utf8::char_u32_cast(a[0], a[0] as u32);
            vstd::utf8::char_u32_cast(b[0], b[0] as u32);
        }
    }
}

// ----------------------------------------------------------------------------
// Searching
// ----------------------------------------------------------------------------

/// How a scrapped item matched a search.
#[derive(Debug, Clone, Copy, PartialEq, Eq, Structural)]
pub enum FindMatch {
    FileName,
    Content,
}

/// How an item matches a search: by its name, else by its content when that
/// is searched (`content` is the item's text when contents are searched and
/// the item is a readable text file).
pub fn classify_find(pattern: &CompiledPattern, name: &str, content: Option<&str>) -> (r: Option<FindMatch>)
    ensures
        r == if regex_finds(pattern.pattern(), name@) {
            Some(FindMatch::FileName)
        } else {
            match content {
                Some(c) => if regex_finds(pattern.pattern(), c@) {
                    Some(FindMatch::Content)
                } else {
                    None
                },
                None => None,
            }
        },
{
    if pattern.is_match(name) {
        Some(FindMatch::FileName)
    } else {
        match content {
            Some(c) => if pattern.is_match(c) {
                Some(FindMatch::Content)
            } else {
                None
            },
            None => None,
        }
    }
}

/// The label printed for a match.
pub fn find_match_label(m: FindMatch) -> (r: &'static str)
    ensures
        r@ == match m {
            FindMatch::FileName => "filename match"@,
            FindMatch::Content => "content match"@,
        },
{
    match m {
        FindMatch::FileName => "filename match",
        FindMatch::Content => "content match",
    }
}

} // verus!
