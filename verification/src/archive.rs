//! Archives named `<name>-<version>.<extension>` and how a file name is read
//! as one.

use vstd::prelude::*;

use crate::grammar::{
    chars_of, find_chars, find_version, first_occurrence, first_occurrence_from, occurs_at,
    version_span,
};

verus! {

/// The archive formats that are recognised by their file extension.
#[derive(Debug, PartialEq, Eq, Clone, Copy, Structural)]
pub enum ArchiveFormat {
    Zip,
    TarBz2,
    TarGz,
    TarXz,
}

/// Why a file name is not read as an archive.
#[derive(Debug, PartialEq, Eq, Clone, Copy, Structural)]
pub enum ArchiveErrorCode {
    BadFileExtension,
    MissingVersion,
    MissingName,
}

/// A file name that is not read as an archive, with the reason.
#[derive(Debug, PartialEq, Eq)]
pub struct ArchiveError {
    file_name: String,
    error_code: ArchiveErrorCode,
}

/// The model of an [`ArchiveError`].
pub struct ArchiveErrorView {
    pub file_name: Seq<char>,
    pub error_code: ArchiveErrorCode,
}

/// An archive: the file name without its extension, the format that the
/// extension names, the version and the name written before it, and the
/// directory it was extracted to, if there is one.
#[derive(Debug, PartialEq, Eq)]
pub struct Archive {
    extracted_path: Option<String>,
    base_name: String,
    format: ArchiveFormat,
    version: String,
    name: String,
}

/// The model of an [`Archive`].
pub struct ArchiveView {
    pub extracted_path: Option<Seq<char>>,
    pub base_name: Seq<char>,
    pub format: ArchiveFormat,
    pub version: Seq<char>,
    pub name: Seq<char>,
}

impl View for ArchiveError {
    type V = ArchiveErrorView;

    closed spec fn view(&self) -> ArchiveErrorView {
        ArchiveErrorView { file_name: self.file_name@, error_code: self.error_code }
    }
}

impl View for Archive {
    type V = ArchiveView;

    closed spec fn view(&self) -> ArchiveView {
        ArchiveView {
            extracted_path: match self.extracted_path {
                Some(p) => Some(p@),
                None => None,
            },
            base_name: self.base_name@,
            format: self.format,
            version: self.version@,
            name: self.name@,
        }
    }
}

/// `s` ends with `suffix`.
pub open spec fn has_suffix(s: Seq<char>, suffix: Seq<char>) -> bool {
    suffix.len() <= s.len() && s.subrange(s.len() - suffix.len(), s.len() as int) == suffix
}

impl ArchiveFormat {
    /// The file extension of the format, with its leading dot.
    pub open spec fn ext_chars(self) -> Seq<char> {
        match self {
            ArchiveFormat::Zip => seq!['.', 'z', 'i', 'p'],
            ArchiveFormat::TarBz2 => seq!['.', 't', 'a', 'r', '.', 'b', 'z', '2'],
            ArchiveFormat::TarGz => seq!['.', 't', 'a', 'r', '.', 'g', 'z'],
            ArchiveFormat::TarXz => seq!['.', 't', 'a', 'r', '.', 'x', 'z'],
        }
    }

    /// How the format is shown to a person.
    pub open spec fn label(self) -> Seq<char> {
        match self {
            ArchiveFormat::Zip => seq!['z', 'i', 'p'],
            ArchiveFormat::TarBz2 => seq!['b', 'z', '2', '(', 't', 'a', 'r', ')'],
            ArchiveFormat::TarGz => seq!['g', 'z', '(', 't', 'a', 'r', ')'],
            ArchiveFormat::TarXz => seq!['x', 'z', '(', 't', 'a', 'r', ')'],
        }
    }

    /// The file extension of the format, with its leading dot.
    pub fn extension(&self) -> (s: &'static str)
        ensures
            s@ == self.ext_chars(),
    {
        match self {
            ArchiveFormat::Zip => {
                proof {
                    reveal_strlit(".zip");
                }
                ".zip"
            },
            ArchiveFormat::TarBz2 => {
                proof {
                    reveal_strlit(".tar.bz2");
                }
                ".tar.bz2"
            },
            ArchiveFormat::TarGz => {
                proof {
                    reveal_strlit(".tar.gz");
                }
                ".tar.gz"
            },
            ArchiveFormat::TarXz => {
                proof {
                    reveal_strlit(".tar.xz");
                }
                ".tar.xz"
            },
        }
    }

    /// How the format is shown to a person: `zip`, `bz2(tar)`, `gz(tar)` or
    /// `xz(tar)`.
    pub fn to_string(&self) -> (s: String)
        ensures
            s@ == self.label(),
    {
        match self {
            ArchiveFormat::Zip => {
                proof {
                    reveal_strlit("zip");
                }
                String::from_str("zip")
            },
            ArchiveFormat::TarBz2 => {
                proof {
                    reveal_strlit("bz2(tar)");
                }
                String::from_str("bz2(tar)")
            },
            ArchiveFormat::TarGz => {
                proof {
                    reveal_strlit("gz(tar)");
                }
                String::from_str("gz(tar)")
            },
            ArchiveFormat::TarXz => {
                proof {
                    reveal_strlit("xz(tar)");
                }
                String::from_str("xz(tar)")
            },
        }
    }
}

/// The archive format that the extension of `f` names.
pub open spec fn format_of(f: Seq<char>) -> Option<ArchiveFormat> {
    if has_suffix(f, ArchiveFormat::TarBz2.ext_chars()) {
        Some(ArchiveFormat::TarBz2)
    } else if has_suffix(f, ArchiveFormat::TarGz.ext_chars()) {
        Some(ArchiveFormat::TarGz)
    } else if has_suffix(f, ArchiveFormat::TarXz.ext_chars()) {
        Some(ArchiveFormat::TarXz)
    } else if has_suffix(f, ArchiveFormat::Zip.ext_chars()) {
        Some(ArchiveFormat::Zip)
    } else {
        None
    }
}

/// Where the name ends in `f`: one character before the first occurrence of
/// the version.
pub open spec fn name_cut(f: Seq<char>) -> Option<int> {
    match version_span(f) {
        Some((p, e)) => first_occurrence(f, f.subrange(p, e)),
        None => None,
    }
}

/// Cutting the name out of `f` would split a character that takes more than
/// one byte in UTF-8: the name is taken by byte offsets, and the character
/// just before the first occurrence of the version is not ASCII.
pub open spec fn name_cut_splits_char(f: Seq<char>) -> bool {
    &&& format_of(f) is Some
    &&& name_cut(f) matches Some(k)
    &&& k >= 1
    &&& f[k - 1] as u32 >= 128
}

/// What reading the file name `f` gives: the archive, with no extracted
/// path, or the reason it is not one.
pub open spec fn parse_file_name(f: Seq<char>) -> Result<ArchiveView, ArchiveErrorCode> {
    match format_of(f) {
        None => Err(ArchiveErrorCode::BadFileExtension),
        Some(format) => match version_span(f) {
            None => Err(ArchiveErrorCode::MissingVersion),
            Some((p, e)) => {
                let k = name_cut(f)->0;
                if k <= 1 {
                    Err(ArchiveErrorCode::MissingName)
                } else {
                    Ok(
                        ArchiveView {
                            extracted_path: None,
                            base_name: f.subrange(0, f.len() - format.ext_chars().len()),
                            format,
                            version: f.subrange(p, e),
                            name: f.subrange(0, k - 1),
                        },
                    )
                }
            },
        },
    }
}

/// `s` ends with `suffix`.
fn ends_with(s: &Vec<char>, suffix: &Vec<char>) -> (b: bool)
    ensures
        b == has_suffix(s@, suffix@),
{
    if suffix.len() > s.len() {
        return false;
    }
    let start = s.len() - suffix.len();
    let mut i: usize = 0;
    while i < suffix.len()
        invariant
            start == s.len() - suffix.len(),
            i <= suffix.len(),
            forall|j: int| 0 <= j < i ==> s@[start + j] == suffix@[j],
        decreases suffix.len() - i,
    {
        if s[start + i] != suffix[i] {
            assert(s@.subrange(start as int, s.len() as int)[i as int] != suffix@[i as int]);
            return false;
        }
        i = i + 1;
    }
    assert(s@.subrange(start as int, s.len() as int) =~= suffix@);
    true
}

/// The archive format that the extension of `f` names.
fn format_of_chars(f: &Vec<char>) -> (r: Option<ArchiveFormat>)
    ensures
        r == format_of(f@),
{
    let tar_bz2 = vec!['.', 't', 'a', 'r', '.', 'b', 'z', '2'];
    let tar_gz = vec!['.', 't', 'a', 'r', '.', 'g', 'z'];
    let tar_xz = vec!['.', 't', 'a', 'r', '.', 'x', 'z'];
    let zip = vec!['.', 'z', 'i', 'p'];
    assert(tar_bz2@ =~= ArchiveFormat::TarBz2.ext_chars());
    assert(tar_gz@ =~= ArchiveFormat::TarGz.ext_chars());
    assert(tar_xz@ =~= ArchiveFormat::TarXz.ext_chars());
    assert(zip@ =~= ArchiveFormat::Zip.ext_chars());
    if ends_with(f, &tar_bz2) {
        Some(ArchiveFormat::TarBz2)
    } else if ends_with(f, &tar_gz) {
        Some(ArchiveFormat::TarGz)
    } else if ends_with(f, &tar_xz) {
        Some(ArchiveFormat::TarXz)
    } else if ends_with(f, &zip) {
        Some(ArchiveFormat::Zip)
    } else {
        None
    }
}

/// The number of characters of the extension of `format`.
fn extension_len(format: ArchiveFormat) -> (n: usize)
    ensures
        n == format.ext_chars().len(),
{
    match format {
        ArchiveFormat::Zip => 4,
        ArchiveFormat::TarBz2 => 8,
        ArchiveFormat::TarGz => 7,
        ArchiveFormat::TarXz => 7,
    }
}

/// When `t` occurs at `k`, the first occurrence at or after `j <= k` exists
/// and comes no later than `k`.
pub proof fn lemma_first_occurrence_found(s: Seq<char>, t: Seq<char>, j: int, k: int)
    requires
        0 <= j <= k,
        occurs_at(s, t, k),
    ensures
        first_occurrence_from(s, t, j) matches Some(m) && j <= m <= k && occurs_at(s, t, m),
    decreases k - j,
{
    if !occurs_at(s, t, j) {
        lemma_first_occurrence_found(s, t, j + 1, k);
    }
}

impl ArchiveErrorCode {
    /// The message that explains the reason.
    pub open spec fn message(self) -> Seq<char> {
        match self {
            ArchiveErrorCode::BadFileExtension => "Ignoring file due to extension."@,
            ArchiveErrorCode::MissingVersion => "Ignoring file due to missing version."@,
            ArchiveErrorCode::MissingName => "Ignoring file due to missing name before version."@,
        }
    }

    /// The message that explains the reason.
    pub fn to_string(&self) -> (s: String)
        ensures
            s@ == self.message(),
    {
        match self {
            ArchiveErrorCode::BadFileExtension => String::from_str(
                "Ignoring file due to extension.",
            ),
            ArchiveErrorCode::MissingVersion => String::from_str(
                "Ignoring file due to missing version.",
            ),
            ArchiveErrorCode::MissingName => String::from_str(
                "Ignoring file due to missing name before version.",
            ),
        }
    }
}

impl ArchiveError {
    /// The error for `file_name`, with the reason `error_code`.
    pub fn new(file_name: &str, error_code: ArchiveErrorCode) -> (e: Self)
        ensures
            e@.file_name == file_name@,
            e@.error_code == error_code,
    {
        ArchiveError { file_name: file_name.to_owned(), error_code }
    }

    /// The file name that was refused.
    pub fn file_name(&self) -> (s: &str)
        ensures
            s@ == self@.file_name,
    {
        self.file_name.as_str()
    }

    /// Why it was refused.
    pub fn error_code(&self) -> (c: ArchiveErrorCode)
        ensures
            c == self@.error_code,
    {
        self.error_code
    }

    /// `Bad archive name: <file name>: <message>`.
    pub fn to_string(&self) -> (s: String)
        ensures
            s@ == "Bad archive name: "@ + self@.file_name + ": "@ + self@.error_code.message(),
    {
        let mut s = String::from_str("Bad archive name: ");
        s.append(self.file_name.as_str());
        s.append(": ");
        let message = self.error_code.to_string();
        s.append(message.as_str());
        s
    }
}


/// `a` and `b` hold the same text.
pub fn same_text(a: &str, b: &str) -> (r: bool)
    ensures
        r == (a@ == b@),
{
    let x = chars_of(a);
    let y = chars_of(b);
    if x.len() != y.len() {
        return false;
    }
    let mut i: usize = 0;
    while i < x.len()
        invariant
            x@ == a@,
            y@ == b@,
            x.len() == y.len(),
            i <= x.len(),
            forall|j: int| 0 <= j < i ==> x@[j] == y@[j],
        decreases x.len() - i,
    {
        if x[i] != y[i] {
            assert(x@[i as int] != y@[i as int]);
            return false;
        }
        i = i + 1;
    }
    assert(x@ =~= y@);
    true
}

impl Archive {
    /// Reads `file_name` as an archive. The extension must be `.tar.bz2`,
    /// `.tar.gz`, `.tar.xz` or `.zip`; the leftmost version in the name
    /// (`v1`, `v1.2`, `v1.2.3`, or a date `YYYY[-]MM[-]DD`, at a word
    /// boundary and followed by a dot) is the version; the name is what
    /// stands before the first occurrence of the version, less the one
    /// character that separates them, and must not be empty. No extracted
    /// path is recorded.
    pub fn from_file_name(file_name: &str) -> (r: Result<Archive, ArchiveError>)
        requires
            !name_cut_splits_char(file_name@),
        ensures
            match r {
                Ok(a) => parse_file_name(file_name@) == Ok::<ArchiveView, ArchiveErrorCode>(a@),
                Err(e) => {
                    &&& parse_file_name(file_name@) == Err::<ArchiveView, ArchiveErrorCode>(
                        e@.error_code,
                    )
                    &&& e@.file_name == file_name@
                },
            },
    {
        let f = chars_of(file_name);
        let format = match format_of_chars(&f) {
            Some(format) => format,
            None => {
                return Err(ArchiveError::new(file_name, ArchiveErrorCode::BadFileExtension));
            },
        };
        let base_len = f.len() - extension_len(format);
        let base_name = file_name.substring_char(0, base_len).to_owned();
        let (p, e) = match find_version(&f) {
            Some(span) => span,
            None => {
                return Err(ArchiveError::new(file_name, ArchiveErrorCode::MissingVersion));
            },
        };
        proof {
            crate::grammar::lemma_version_span_in_bounds(f@);
        }
        let version = file_name.substring_char(p, e);
        let v = chars_of(version);
        proof {
            assert(occurs_at(f@, v@, p as int));
            lemma_first_occurrence_found(f@, v@, 0, p as int);
        }
        let k = match find_chars(&f, &v) {
            Some(k) => k,
            None => {
                return Err(ArchiveError::new(file_name, ArchiveErrorCode::MissingName));
            },
        };
        if k <= 1 {
            return Err(ArchiveError::new(file_name, ArchiveErrorCode::MissingName));
        }
        let name = file_name.substring_char(0, k - 1).to_owned();
        Ok(
            Archive {
                extracted_path: None,
                base_name,
                format,
                version: version.to_owned(),
                name,
            },
        )
    }

    /// Reads `file_name` as an archive as [`Archive::from_file_name`] does,
    /// but gives `None` where cutting out the name would split a character.
    pub fn from_file_name_checked(file_name: &str) -> (r: Option<Result<Archive, ArchiveError>>)
        ensures
            r is None <==> name_cut_splits_char(file_name@),
            match r {
                Some(Ok(a)) => parse_file_name(file_name@) == Ok::<ArchiveView, ArchiveErrorCode>(
                    a@,
                ),
                Some(Err(e)) => {
                    &&& parse_file_name(file_name@) == Err::<ArchiveView, ArchiveErrorCode>(
                        e@.error_code,
                    )
                    &&& e@.file_name == file_name@
                },
                None => true,
            },
    {
        if splits_char_at_name_cut(file_name) {
            None
        } else {
            Some(Archive::from_file_name(file_name))
        }
    }

    /// Whether the name of the archive is `proposed`.
    pub fn has_name(&self, proposed: &str) -> (b: bool)
        ensures
            b == (self@.name == proposed@),
    {
        same_text(self.name.as_str(), proposed)
    }

    /// The name written before the version.
    pub fn name(&self) -> (s: &str)
        ensures
            s@ == self@.name,
    {
        self.name.as_str()
    }

    /// The file name without its extension.
    pub fn base_name(&self) -> (s: &str)
        ensures
            s@ == self@.base_name,
    {
        self.base_name.as_str()
    }

    /// The version.
    pub fn version(&self) -> (s: &str)
        ensures
            s@ == self@.version,
    {
        self.version.as_str()
    }

    /// The format that the extension names.
    pub fn format(&self) -> (f: ArchiveFormat)
        ensures
            f == self@.format,
    {
        self.format
    }

    /// The directory the archive was extracted to, if one is known.
    pub fn extracted_path(&self) -> (p: Option<&str>)
        ensures
            match p {
                Some(s) => self@.extracted_path == Some(s@),
                None => self@.extracted_path is None,
            },
    {
        match &self.extracted_path {
            Some(path) => Some(path.as_str()),
            None => None,
        }
    }

    /// Records whether the archive was extracted: where a directory named
    /// after its base name exists, that directory is its extracted path;
    /// otherwise it has none.
    pub fn record_extracted_dir(&mut self, base_dir_exists: bool)
        ensures
            final(self)@.extracted_path == if base_dir_exists {
                Some(old(self)@.base_name)
            } else {
                None::<Seq<char>>
            },
            final(self)@.base_name == old(self)@.base_name,
            final(self)@.format == old(self)@.format,
            final(self)@.version == old(self)@.version,
            final(self)@.name == old(self)@.name,
    {
        if base_dir_exists {
            self.extracted_path = Some(self.base_name.clone());
        } else {
            self.extracted_path = None;
        }
    }

    /// Records the directory the archive was extracted to.
    pub fn set_extracted_path(&mut self, path: Option<String>)
        ensures
            final(self)@.extracted_path == match path {
                Some(p) => Some(p@),
                None => None::<Seq<char>>,
            },
            final(self)@.base_name == old(self)@.base_name,
            final(self)@.format == old(self)@.format,
            final(self)@.version == old(self)@.version,
            final(self)@.name == old(self)@.name,
    {
        self.extracted_path = path;
    }

    /// The archive's file name: the base name followed by the extension.
    pub fn path(&self) -> (s: String)
        ensures
            s@ == self@.base_name + self@.format.ext_chars(),
    {
        let mut s = self.base_name.clone();
        s.append(self.format.extension());
        s
    }

    /// `Archive [base_name=<b>, name=<n>, version=<v>, fmt=<f>, extracted=<true|false>]`.
    pub fn to_string(&self) -> (s: String)
        ensures
            s@ == "Archive [base_name="@ + self@.base_name + ", name="@ + self@.name
                + ", version="@ + self@.version + ", fmt="@ + self@.format.label()
                + ", extracted="@ + (if self@.extracted_path is Some {
                "true"@
            } else {
                "false"@
            }) + "]"@,
    {
        let mut s = String::from_str("Archive [base_name=");
        s.append(self.base_name.as_str());
        s.append(", name=");
        s.append(self.name.as_str());
        s.append(", version=");
        s.append(self.version.as_str());
        s.append(", fmt=");
        let label = self.format.to_string();
        s.append(label.as_str());
        s.append(", extracted=");
        if self.extracted_path.is_some() {
            s.append("true");
        } else {
            s.append("false");
        }
        s.append("]");
        s
    }
}

/// Whether reading `file_name` would cut the name inside a character.
fn splits_char_at_name_cut(file_name: &str) -> (b: bool)
    ensures
        b == name_cut_splits_char(file_name@),
{
    let f = chars_of(file_name);
    if format_of_chars(&f).is_none() {
        return false;
    }
    let (p, e) = match find_version(&f) {
        Some(span) => span,
        None => {
            return false;
        },
    };
    proof {
        crate::grammar::lemma_version_span_in_bounds(f@);
    }
    let version = file_name.substring_char(p, e);
    let v = chars_of(version);
    match find_chars(&f, &v) {
        Some(k) => {
            proof {
                assert(first_occurrence(f@, v@) == Some(k as int));
                lemma_first_occurrence_found(f@, v@, 0, p as int);
            }
            k >= 1 && f[k - 1] as u32 >= 128
        },
        None => false,
    }
}


/// A file name read as an archive is its base name followed by the
/// extension of its format: `path` gives the file name back.
pub proof fn lemma_parsed_path_is_file_name(f: Seq<char>)
    requires
        parse_file_name(f) is Ok,
    ensures
        parse_file_name(f)->Ok_0.base_name + parse_file_name(f)->Ok_0.format.ext_chars() == f,
{
    let a = parse_file_name(f)->Ok_0;
    let n = a.format.ext_chars().len();
    assert(f.subrange(0, f.len() - n) + f.subrange(f.len() - n, f.len() as int) =~= f);
}

/// The name of an archive read from `f` is the part of `f` before its
/// version, less one separating character, and is not empty; the version is
/// the text of `f` at the leftmost version span.
pub proof fn lemma_parsed_name_precedes_version(f: Seq<char>)
    requires
        parse_file_name(f) is Ok,
    ensures
        ({
            let a = parse_file_name(f)->Ok_0;
            let (p, e) = version_span(f)->0;
            &&& 0 < a.name.len()
            &&& a.name.len() + 1 <= p
            &&& a.name == f.subrange(0, a.name.len() as int)
            &&& a.version == f.subrange(p, e)
            &&& a.version.len() > 0
        }),
{
    crate::grammar::lemma_version_span_in_bounds(f);
    let (p, e) = version_span(f)->0;
    lemma_first_occurrence_found(f, f.subrange(p, e), 0, p);
}


/// The format is the one whose extension ends the file name; there is none
/// only where no format's extension does.
pub proof fn lemma_format_is_the_extension(f: Seq<char>)
    ensures
        match format_of(f) {
            Some(format) => has_suffix(f, format.ext_chars()),
            None => forall|format: ArchiveFormat| !has_suffix(f, #[trigger] format.ext_chars()),
        },
{
}

/// The name of a read archive is cut one character before the first place
/// where its version occurs in the file name: the name, one character and
/// the version start the file name, and the version occurs nowhere before
/// that. Reading fails for want of a name exactly where the version first
/// occurs at the very start or one character in.
pub proof fn lemma_name_is_cut_before_first_occurrence(f: Seq<char>)
    ensures
        parse_file_name(f) matches Ok(a) ==> {
            &&& occurs_at(f, a.version, a.name.len() + 1int)
            &&& a.name == f.subrange(0, a.name.len() as int)
            &&& forall|j: int| 0 <= j < a.name.len() + 1 ==> !occurs_at(f, a.version, j)
        },
        (format_of(f) is Some && version_span(f) is Some) ==> ({
            let (p, e) = version_span(f)->0;
            let v = f.subrange(p, e);
            parse_file_name(f) == Err::<ArchiveView, ArchiveErrorCode>(
                ArchiveErrorCode::MissingName,
            ) <==> exists|k: int|
                0 <= k <= 1 && occurs_at(f, v, k) && forall|j: int| 0 <= j < k ==> !occurs_at(f, v, j)
        }),
{
    if let Some((p, e)) = version_span(f) {
        crate::grammar::lemma_version_span_in_bounds(f);
        let v = f.subrange(p, e);
        lemma_first_occurrence_found(f, v, 0, p);
        crate::grammar::lemma_first_occurrence_is_first(f, v);
        let k = first_occurrence(f, v)->0;
        if format_of(f) is Some {
            if parse_file_name(f) is Err {
                assert(occurs_at(f, v, k));
            } else {
                assert forall|k2: int|
                    0 <= k2 <= 1 && occurs_at(f, v, k2) implies exists|j: int|
                    0 <= j < k2 && occurs_at(f, v, j) by {
                    assert(k2 >= k);
                }
            }
        }
    }
}

} // verus!
