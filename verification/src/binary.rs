//! Deciding whether a file holds binary data, from its name and from a sample
//! of its first bytes.
use vstd::prelude::*;
use crate::path::{stem_and_extension, split_stem_extension};
use crate::text::{lowercase_chars, lowercase_spec, chars_eq, chars_of};

verus! {

/// What content_inspector reports about a buffer.
#[derive(Debug, Clone, Copy, PartialEq, Eq, Structural)]
pub enum ContentKind {
    Binary,
    Utf8,
    Utf8Bom,
    Utf16Le,
    Utf16Be,
    Utf32Le,
    Utf32Be,
}

/// `b` begins with `prefix`.
pub open spec fn bytes_start_with(b: Seq<u8>, prefix: Seq<u8>) -> bool {
    prefix.len() <= b.len() && b.take(prefix.len() as int) == prefix
}

/// content_inspector's verdict on a buffer: a byte order mark decides the
/// encoding (UTF-32 marks before UTF-16 ones); otherwise a zero byte among the
/// first 1024 bytes, or a `%PDF` or `\x89PNG` header, means binary; anything
/// else is UTF-8.
pub open spec fn inspect_spec(b: Seq<u8>) -> ContentKind {
    if bytes_start_with(b, seq![0xEFu8, 0xBBu8, 0xBFu8]) {
        ContentKind::Utf8Bom
    } else if bytes_start_with(b, seq![0x00u8, 0x00u8, 0xFEu8, 0xFFu8]) {
        ContentKind::Utf32Be
    } else if bytes_start_with(b, seq![0xFFu8, 0xFEu8, 0x00u8, 0x00u8]) {
        ContentKind::Utf32Le
    } else if bytes_start_with(b, seq![0xFEu8, 0xFFu8]) {
        ContentKind::Utf16Be
    } else if bytes_start_with(b, seq![0xFFu8, 0xFEu8]) {
        ContentKind::Utf16Le
    } else if exists|i: int| 0 <= i < b.len() && i < 1024 && b[i] == 0 {
        ContentKind::Binary
    } else if bytes_start_with(b, seq![0x25u8, 0x50u8, 0x44u8, 0x46u8]) || bytes_start_with(
        b,
        seq![0x89u8, 0x50u8, 0x4Eu8, 0x47u8],
    ) {
        ContentKind::Binary
    } else {
        ContentKind::Utf8
    }
}

/// content_inspector's `inspect`: classifies a buffer by its byte order mark,
/// by zero bytes among its first 1024 bytes and by two magic numbers, as its
/// source does (the contract restates that source).
#[verifier::external_body]
fn inspect(buffer: &[u8]) -> (r: ContentKind)
    ensures
        r == inspect_spec(buffer@),
{
    match content_inspector::inspect(buffer) {
        content_inspector::ContentType::BINARY => ContentKind::Binary,
        content_inspector::ContentType::UTF_8 => ContentKind::Utf8,
        content_inspector::ContentType::UTF_8_BOM => ContentKind::Utf8Bom,
        content_inspector::ContentType::UTF_16LE => ContentKind::Utf16Le,
        content_inspector::ContentType::UTF_16BE => ContentKind::Utf16Be,
        content_inspector::ContentType::UTF_32LE => ContentKind::Utf32Le,
        content_inspector::ContentType::UTF_32BE => ContentKind::Utf32Be,
    }
}

/// Printable ASCII, tab, newline or carriage return.
pub open spec fn printable_spec(b: u8) -> bool {
    (0x20 <= b && b <= 0x7E) || b == 0x09 || b == 0x0A || b == 0x0D
}

/// A byte that may start a UTF-8 sequence: ASCII or a lead byte `110xxxxx`,
/// `1110xxxx`, `11110xxx`.
pub open spec fn utf8_start_spec(b: u8) -> bool {
    b < 0x80 || (b >= 0xC0 && b < 0xF8)
}

/// Check if a byte is printable ASCII
pub fn is_printable_ascii(byte: u8) -> (r: bool)
    ensures
        r == printable_spec(byte),
{
    (0x20 <= byte && byte <= 0x7E) || byte == 0x09 || byte == 0x0A || byte == 0x0D
}

/// Check if a byte could be the start of a valid UTF-8 sequence
pub fn is_valid_utf8_start(byte: u8) -> (r: bool)
    ensures
        r == utf8_start_spec(byte),
{
    byte < 0x80 || (byte >= 0xC0 && byte < 0xF8)
}

/// Number of bytes among the first `k` that are neither printable nor a
/// possible UTF-8 start.
pub open spec fn non_printable_count(b: Seq<u8>, k: int) -> nat
    decreases k,
{
    if k <= 0 {
        0
    } else {
        non_printable_count(b, k - 1) + if !printable_spec(b[k - 1]) && !utf8_start_spec(b[k - 1]) {
            1nat
        } else {
            0nat
        }
    }
}

/// File extensions treated as binary without looking at the content.
pub open spec fn binary_extensions() -> Seq<Seq<char>> {
    seq![
        "exe"@, "dll"@, "so"@, "dylib"@, "app"@, "deb"@, "rpm"@, "msi"@, "dmg"@,
        "zip"@, "tar"@, "gz"@, "bz2"@, "xz"@, "7z"@, "rar"@, "cab"@,
        "jpg"@, "jpeg"@, "png"@, "gif"@, "bmp"@, "tiff"@, "tif"@, "webp"@, "svg"@, "ico"@, "cur"@,
        "mp4"@, "avi"@, "mkv"@, "mov"@, "wmv"@, "flv"@, "webm"@, "m4v"@, "3gp"@,
        "mp3"@, "wav"@, "flac"@, "aac"@, "ogg"@, "m4a"@, "wma"@,
        "pdf"@, "doc"@, "docx"@, "xls"@, "xlsx"@, "ppt"@, "pptx"@, "odt"@, "ods"@, "odp"@,
        "db"@, "sqlite"@, "sqlite3"@, "mdb"@, "accdb"@,
        "o"@, "obj"@, "lib"@, "a"@, "pdb"@,
        "class"@, "jar"@, "war"@, "ear"@,
        "pdb"@, "mdb"@,
        "bin"@, "dat"@, "pak"@, "wad"@, "iso"@, "img"@, "vdi"@, "vmdk"@, "qcow2"@,
    ]
}

/// Whether a file name's extension, lowercased, is a known binary one.
pub open spec fn binary_by_extension_spec(file_name: Seq<char>) -> bool {
    match stem_and_extension(file_name).1 {
        Some(ext) => binary_extensions().contains(lowercase_spec(ext)),
        None => false,
    }
}

/// Why a file counts as binary.
#[derive(Debug, PartialEq, Eq)]
pub enum BinaryReason {
    /// Its extension is a known binary one.
    Extension,
    /// content_inspector classified its first bytes as binary.
    ContentInspection,
    /// Its sample holds a zero byte.
    NullBytes,
    /// Too many of its sampled bytes are neither printable nor UTF-8 starts.
    HighNonPrintableRatio { non_printable: usize, sampled: usize },
}

/// A file's first bytes could not be read.
#[derive(Debug, PartialEq, Eq)]
pub enum SampleError {
    Unreadable,
}

/// Detects if a file is binary or text
pub struct BinaryDetector {
    /// Maximum number of bytes to read for detection
    pub max_sample_size: usize,
    /// Binary when more than `threshold_numerator / threshold_denominator` of
    /// the sampled bytes are non-printable.
    pub threshold_numerator: u64,
    pub threshold_denominator: u64,
}

impl Default for BinaryDetector {
    fn default() -> (r: Self)
        ensures
            r.max_sample_size == 8192,
            r.threshold_numerator == 3,
            r.threshold_denominator == 10,
    {
        Self { max_sample_size: 8192, threshold_numerator: 3, threshold_denominator: 10 }
    }
}

impl BinaryDetector {
    /// Ratio of non-printable bytes above which a sample is binary, as a fraction.
    pub fn new(max_sample_size: usize, threshold_numerator: u64, threshold_denominator: u64) -> (r: Self)
        ensures
            r.max_sample_size == max_sample_size,
            r.threshold_numerator == threshold_numerator,
            r.threshold_denominator == threshold_denominator,
    {
        Self { max_sample_size, threshold_numerator, threshold_denominator }
    }

    /// Whether `non_printable` out of `sampled` bytes exceeds the threshold.
    pub open spec fn ratio_exceeds(&self, non_printable: nat, sampled: nat) -> bool {
        non_printable * self.threshold_denominator > self.threshold_numerator * sampled
    }

    /// Whether `count` out of `n` sampled bytes exceeds the threshold.
    fn exceeds(&self, count: usize, n: usize) -> (r: bool)
        ensures
            r == self.ratio_exceeds(count as nat, n as nat),
    {
        let a = count as u128;
        let b = self.threshold_denominator as u128;
        let c = self.threshold_numerator as u128;
        let d = n as u128;
        assert(a * b <= 0xffff_ffff_ffff_ffff * 0xffff_ffff_ffff_ffff) by (nonlinear_arith)
            requires
                a <= 0xffff_ffff_ffff_ffff,
                b <= 0xffff_ffff_ffff_ffff,
        ;
        assert(c * d <= 0xffff_ffff_ffff_ffff * 0xffff_ffff_ffff_ffff) by (nonlinear_arith)
            requires
                c <= 0xffff_ffff_ffff_ffff,
                d <= 0xffff_ffff_ffff_ffff,
        ;
        a * b > c * d
    }

    /// Check if file is likely binary based on file extension
    pub fn is_binary_by_extension(&self, file_name: &str) -> (r: bool)
        ensures
            r == binary_by_extension_spec(file_name@),
    {
        let name = chars_of(file_name);
        let (_, ext) = split_stem_extension(&name);
        match ext {
            Some(e) => {
                let lower = lowercase_chars(&e);
                is_binary_extension(&lower)
            },
            None => false,
        }
    }

    /// Counts the sampled bytes that are neither printable nor a UTF-8 start.
    fn count_non_printable(sample: &[u8]) -> (r: usize)
        ensures
            r == non_printable_count(sample@, sample@.len() as int),
    {
        let mut count: usize = 0;
        let mut i: usize = 0;
        while i < sample.len()
            invariant
                i <= sample.len(),
                count == non_printable_count(sample@, i as int),
                count <= i,
            decreases sample.len() - i,
        {
            if !is_printable_ascii(sample[i]) && !is_valid_utf8_start(sample[i]) {
                count += 1;
            }
            i += 1;
        }
        count
    }

    /// Whether a sample holds a zero byte.
    fn has_zero(sample: &[u8]) -> (r: bool)
        ensures
            r == sample@.contains(0u8),
    {
        let mut i: usize = 0;
        while i < sample.len()
            invariant
                i <= sample.len(),
                forall|j: int| 0 <= j < i ==> sample@[j] != 0,
            decreases sample.len() - i,
        {
            if sample[i] == 0 {
                assert(sample@[i as int] == 0);
                return true;
            }
            i += 1;
        }
        false
    }

    /// The manual analysis of a sample: empty samples are text, samples with a
    /// zero byte are binary, otherwise the share of non-printable bytes decides.
    pub open spec fn analysis_spec(&self, sample: Seq<u8>) -> bool {
        if sample.len() == 0 {
            false
        } else if sample.contains(0u8) {
            true
        } else {
            self.ratio_exceeds(non_printable_count(sample, sample.len() as int), sample.len())
        }
    }

    /// Manual content analysis of a sample of a file's first bytes.
    pub fn is_binary_by_content_analysis(&self, sample: &[u8]) -> (r: bool)
        ensures
            r == self.analysis_spec(sample@),
    {
        if sample.len() == 0 {
            return false;
        }
        if Self::has_zero(sample) {
            return true;
        }
        let count = Self::count_non_printable(sample);
        self.exceeds(count, sample.len())
    }

    /// Whether content_inspector classifies a sample as binary.
    pub fn is_binary_by_inspection(&self, sample: &[u8]) -> (r: bool)
        ensures
            r == (inspect_spec(sample@) == ContentKind::Binary),
    {
        inspect(sample) == ContentKind::Binary
    }

    /// The binary verdict for a file: binary by extension; otherwise by
    /// content_inspector on `sample` (the first bytes read, `None` when they
    /// could not be read); failing that by the manual analysis of `retry` (a
    /// second read).
    pub fn is_binary(&self, file_name: &str, sample: Option<&[u8]>, retry: Option<&[u8]>) -> (r: Result<
        bool,
        SampleError,
    >)
        ensures
            binary_by_extension_spec(file_name@) ==> r == Ok::<bool, SampleError>(true),
            !binary_by_extension_spec(file_name@) ==> match sample {
                Some(s) => r == Ok::<bool, SampleError>(inspect_spec(s@) == ContentKind::Binary),
                None => match retry {
                    Some(t) => r == Ok::<bool, SampleError>(self.analysis_spec(t@)),
                    None => r == Err::<bool, SampleError>(SampleError::Unreadable),
                },
            },
    {
        if self.is_binary_by_extension(file_name) {
            return Ok(true);
        }
        match sample {
            Some(s) => Ok(self.is_binary_by_inspection(s)),
            None => match retry {
                Some(t) => Ok(self.is_binary_by_content_analysis(t)),
                None => Err(SampleError::Unreadable),
            },
        }
    }

    /// Whether the file holds text: the opposite of [`Self::is_binary`].
    pub fn is_text_file(&self, file_name: &str, sample: Option<&[u8]>, retry: Option<&[u8]>) -> (r: Result<
        bool,
        SampleError,
    >)
        ensures
            match (r, self.is_binary_result(file_name@, sample, retry)) {
                (Ok(t), Ok(b)) => t == !b,
                (Err(_), Err(_)) => true,
                _ => false,
            },
    {
        match self.is_binary(file_name, sample, retry) {
            Ok(b) => Ok(!b),
            Err(e) => Err(e),
        }
    }

    /// The result [`Self::is_binary`] gives.
    pub open spec fn is_binary_result(&self, file_name: Seq<char>, sample: Option<&[u8]>, retry: Option<
        &[u8],
    >) -> Result<bool, SampleError> {
        if binary_by_extension_spec(file_name) {
            Ok(true)
        } else {
            match sample {
                Some(s) => Ok(inspect_spec(s@) == ContentKind::Binary),
                None => match retry {
                    Some(t) => Ok(self.analysis_spec(t@)),
                    None => Err(SampleError::Unreadable),
                },
            }
        }
    }

    /// Why a file counts as binary, if it does: its extension; else the
    /// content_inspector verdict on `inspected` (the first read); only when
    /// that read failed, the analysis of `sample` (a second read, which must
    /// then succeed). A reason is given exactly for the files that
    /// [`Self::is_binary`] calls binary.
    pub fn get_binary_reason(&self, file_name: &str, inspected: Option<&[u8]>, sample: Option<&[u8]>) -> (r: Result<
        Option<BinaryReason>,
        SampleError,
    >)
        ensures
            binary_by_extension_spec(file_name@) ==> r == Ok::<Option<BinaryReason>, SampleError>(Some(BinaryReason::Extension)),
            !binary_by_extension_spec(file_name@) ==> match inspected {
                Some(s) => if inspect_spec(s@) == ContentKind::Binary {
                    r == Ok::<Option<BinaryReason>, SampleError>(Some(BinaryReason::ContentInspection))
                } else {
                    r == Ok::<Option<BinaryReason>, SampleError>(None)
                },
                None => match sample {
                    None => r == Err::<Option<BinaryReason>, SampleError>(SampleError::Unreadable),
                    Some(t) => if t@.len() == 0 {
                        r == Ok::<Option<BinaryReason>, SampleError>(None)
                    } else if t@.contains(0u8) {
                        r == Ok::<Option<BinaryReason>, SampleError>(Some(BinaryReason::NullBytes))
                    } else if self.ratio_exceeds(non_printable_count(t@, t@.len() as int), t@.len()) {
                        r == Ok::<Option<BinaryReason>, SampleError>(Some(BinaryReason::HighNonPrintableRatio {
                            non_printable: non_printable_count(t@, t@.len() as int) as usize,
                            sampled: t@.len() as usize,
                        }))
                    } else {
                        r == Ok::<Option<BinaryReason>, SampleError>(None)
                    },
                },
            },
            match (r, self.is_binary_result(file_name@, inspected, sample)) {
                (Ok(Some(_)), Ok(true)) => true,
                (Ok(None), Ok(false)) => true,
                (Err(_), Err(_)) => true,
                _ => false,
            },
    {
        if self.is_binary_by_extension(file_name) {
            return Ok(Some(BinaryReason::Extension));
        }
        if let Some(s) = inspected {
            if self.is_binary_by_inspection(s) {
                return Ok(Some(BinaryReason::ContentInspection));
            }
            return Ok(None);
        }
        let t = match sample {
            Some(t) => t,
            None => return Err(SampleError::Unreadable),
        };
        if t.len() == 0 {
            return Ok(None);
        }
        if Self::has_zero(t) {
            return Ok(Some(BinaryReason::NullBytes));
        }
        let count = Self::count_non_printable(t);
        if self.exceeds(count, t.len()) {
            Ok(Some(BinaryReason::HighNonPrintableRatio { non_printable: count, sampled: t.len() }))
        } else {
            Ok(None)
        }
    }
}

impl BinaryReason {
    /// The description of the first three reasons; the ratio is shown by the
    /// caller (as a percentage with one decimal).
    pub fn fixed_description(&self) -> (r: Option<&'static str>)
        ensures
            match self {
                BinaryReason::Extension => r matches Some(d) && d@ == "Binary file extension"@,
                BinaryReason::ContentInspection => r matches Some(d) && d@
                    == "Content inspection detected binary"@,
                BinaryReason::NullBytes => r matches Some(d) && d@ == "Contains null bytes"@,
                BinaryReason::HighNonPrintableRatio { .. } => r is None,
            },
    {
        match self {
            BinaryReason::Extension => Some("Binary file extension"),
            BinaryReason::ContentInspection => Some("Content inspection detected binary"),
            BinaryReason::NullBytes => Some("Contains null bytes"),
            BinaryReason::HighNonPrintableRatio { .. } => None,
        }
    }
}

/// Whether an (already lowercased) extension is in the binary list.
fn is_binary_extension(ext: &[char]) -> (r: bool)
    ensures
        r == binary_extensions().contains(ext@),
{
    let list: [&str; 79] = [
        "exe", "dll", "so", "dylib", "app", "deb", "rpm", "msi", "dmg",
        "zip", "tar", "gz", "bz2", "xz", "7z", "rar", "cab",
        "jpg", "jpeg", "png", "gif", "bmp", "tiff", "tif", "webp", "svg", "ico", "cur",
        "mp4", "avi", "mkv", "mov", "wmv", "flv", "webm", "m4v", "3gp",
        "mp3", "wav", "flac", "aac", "ogg", "m4a", "wma",
        "pdf", "doc", "docx", "xls", "xlsx", "ppt", "pptx", "odt", "ods", "odp",
        "db", "sqlite", "sqlite3", "mdb", "accdb",
        "o", "obj", "lib", "a", "pdb",
        "class", "jar", "war", "ear",
        "pdb", "mdb",
        "bin", "dat", "pak", "wad", "iso", "img", "vdi", "vmdk", "qcow2",
    ];
    let ghost exts = binary_extensions();
    assert(exts.len() == 79);
    assert(forall|j: int| 0 <= j < 79 ==> (#[trigger] list@[j])@ == exts[j]);
    let mut i: usize = 0;
    while i < 79
        invariant
            i <= 79,
            exts == binary_extensions(),
            exts.len() == 79,
            forall|j: int| 0 <= j < 79 ==> (#[trigger] list@[j])@ == exts[j],
            forall|j: int| 0 <= j < i ==> exts[j] != ext@,
        decreases 79 - i,
    {
        if chars_eq(&chars_of(list[i]), ext) {
            assert(exts[i as int] == ext@);
            return true;
        }
        i += 1;
    }
    false
}

// ----------------------------------------------------------------------------
// Laws
// ----------------------------------------------------------------------------

/// An empty file is text, whichever way it was sampled (unless its
/// extension is a binary one).
pub proof fn lemma_empty_file_is_text(d: BinaryDetector, file_name: Seq<char>, empty: &[u8])
    requires
        empty@.len() == 0,
        !binary_by_extension_spec(file_name),
    ensures
        d.is_binary_result(file_name, Some(empty), None) == Ok::<bool, SampleError>(false),
        d.is_binary_result(file_name, None, Some(empty)) == Ok::<bool, SampleError>(false),
{
    assert(!(exists|i: int| 0 <= i < empty@.len() && i < 1024 && empty@[i] == 0));
    assert(inspect_spec(empty@) == ContentKind::Utf8);
}

/// A sample without a byte order mark that has a zero byte among its first
/// 1024 bytes is binary.
pub proof fn lemma_zero_byte_is_binary(d: BinaryDetector, file_name: Seq<char>, sample: &[u8], i: int)
    requires
        0 <= i < sample@.len(),
        i < 1024,
        sample@[i] == 0,
        !bytes_start_with(sample@, seq![0xEFu8, 0xBBu8, 0xBFu8]),
        !bytes_start_with(sample@, seq![0x00u8, 0x00u8, 0xFEu8, 0xFFu8]),
        !bytes_start_with(sample@, seq![0xFFu8, 0xFEu8, 0x00u8, 0x00u8]),
        !bytes_start_with(sample@, seq![0xFEu8, 0xFFu8]),
        !bytes_start_with(sample@, seq![0xFFu8, 0xFEu8]),
    ensures
        d.is_binary_result(file_name, Some(sample), None) == Ok::<bool, SampleError>(true),
        d.is_binary_result(file_name, None, Some(sample)) == Ok::<bool, SampleError>(true),
{
    assert(inspect_spec(sample@) == ContentKind::Binary);
    assert(sample@.contains(0u8));
}

} // verus!
