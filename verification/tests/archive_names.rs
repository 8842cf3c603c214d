use caplike::archive::{Archive, ArchiveError, ArchiveErrorCode, ArchiveFormat};
use regex::Regex;

#[test]
fn test_basic_success() {
    let arc = Archive::from_file_name("abc-123-2000-01-01.tar.gz").unwrap();
    assert_eq!(arc.name(), "abc-123");
    assert_eq!(arc.version(), "2000-01-01");
    assert_eq!(arc.format(), ArchiveFormat::TarGz);
}

#[test]
fn test_bad_extension() {
    let file_name = "abc-123-2000-01-01.7z";
    let arc_res = Archive::from_file_name(file_name);
    assert_eq!(
        arc_res,
        Err(ArchiveError::new(
            file_name,
            ArchiveErrorCode::BadFileExtension
        ))
    );
}

#[test]
fn test_missing_version() {
    let file_name = "abc-123.zip";
    let arc_res = Archive::from_file_name(file_name);
    assert_eq!(
        arc_res,
        Err(ArchiveError::new(
            file_name,
            ArchiveErrorCode::MissingVersion
        ))
    );
}

#[test]
fn test_missing_name() {
    let file_name = "2000-01-01.zip";
    let arc_res = Archive::from_file_name(file_name);
    assert_eq!(
        arc_res,
        Err(ArchiveError::new(file_name, ArchiveErrorCode::MissingName))
    );
}

fn parsed(file_name: &str) -> (String, String, String, ArchiveFormat) {
    let a = Archive::from_file_name(file_name).unwrap();
    (
        a.name().to_string(),
        a.version().to_string(),
        a.base_name().to_string(),
        a.format(),
    )
}

#[test]
fn each_extension_names_its_format() {
    assert_eq!(parsed("x-v1.zip").3, ArchiveFormat::Zip);
    assert_eq!(parsed("x-v1.tar.bz2").3, ArchiveFormat::TarBz2);
    assert_eq!(parsed("x-v1.tar.gz").3, ArchiveFormat::TarGz);
    assert_eq!(parsed("x-v1.tar.xz").3, ArchiveFormat::TarXz);
    assert_eq!(parsed("x-v1.tar.xz").2, "x-v1");
    for bad in ["x-v1.tar", "x-v1.gz", "x-v1.tar.zst", "x-v1.ZIP", "x-v1.zip.txt", ""] {
        assert_eq!(
            Archive::from_file_name(bad).unwrap_err().error_code(),
            ArchiveErrorCode::BadFileExtension
        );
    }
}

#[test]
fn dotted_versions_take_the_longest_form() {
    assert_eq!(parsed("tool-v1.zip").1, "v1");
    assert_eq!(parsed("tool-v1.2.zip").1, "v1.2");
    assert_eq!(parsed("tool-v1.2.3.zip").1, "v1.2.3");
    assert_eq!(parsed("tool-v1.2.3.4.zip").1, "v1.2.3");
    assert_eq!(parsed("tool-v10.20.tar.gz").1, "v10.20");
    assert_eq!(parsed("tool-v1.2x.zip").1, "v1");
    assert_eq!(parsed("tool-v1.2.3x.zip").1, "v1.2");
}

#[test]
fn date_versions_allow_dashes() {
    assert_eq!(parsed("tool-20240101.zip").1, "20240101");
    assert_eq!(parsed("tool-2024-01-01.zip").1, "2024-01-01");
    assert_eq!(parsed("tool-2024-0101.zip").1, "2024-0101");
    assert_eq!(parsed("tool-202401-01.zip").1, "202401-01");
    assert_eq!(parsed("tool-2024-01-01.zip").0, "tool");
}

#[test]
fn versions_start_at_a_word_boundary() {
    assert_eq!(
        Archive::from_file_name("toolv1.zip").unwrap_err().error_code(),
        ArchiveErrorCode::MissingVersion
    );
    assert_eq!(
        Archive::from_file_name("tool_2024-01-01.zip").unwrap_err().error_code(),
        ArchiveErrorCode::MissingVersion
    );
    assert_eq!(
        Archive::from_file_name("toolév1.zip").unwrap_err().error_code(),
        ArchiveErrorCode::MissingVersion
    );
    assert_eq!(parsed("tool v1.zip").0, "tool");
    assert_eq!(parsed("tool.v1.zip").0, "tool");
}

#[test]
fn the_name_is_cut_at_the_first_occurrence_of_the_version() {
    // The leftmost version is at "-v1." but "v1" occurs earlier, inside "xv1".
    assert_eq!(
        Archive::from_file_name("xv1-v1.zip").unwrap_err().error_code(),
        ArchiveErrorCode::MissingName
    );
    let (name, version, _, _) = parsed("abxv1-v1.zip");
    assert_eq!(version, "v1");
    assert_eq!(name, "ab");
    assert_eq!(parsed("é-v2.zip").0, "é");
    assert_eq!(
        Archive::from_file_name("-v2.zip").unwrap_err().error_code(),
        ArchiveErrorCode::MissingName
    );
}

#[test]
fn a_name_cut_inside_a_character_is_refused_by_the_checked_reader() {
    assert!(Archive::from_file_name_checked("tool\u{2014}v1.zip").is_none());
    assert!(Archive::from_file_name_checked("tool-v1.zip").is_some());
    assert_eq!(
        Archive::from_file_name_checked("tool.7z"),
        Some(Err(ArchiveError::new("tool.7z", ArchiveErrorCode::BadFileExtension)))
    );
}

#[test]
fn path_gives_the_file_name_back() {
    for f in ["abc-123-2000-01-01.tar.gz", "x-v1.2.zip", "é-v2.tar.bz2", "a b-v3.tar.xz"] {
        assert_eq!(Archive::from_file_name(f).unwrap().path(), f);
    }
}

#[test]
fn has_name_compares_the_whole_name() {
    let a = Archive::from_file_name("abc-123-2000-01-01.tar.gz").unwrap();
    assert!(a.has_name("abc-123"));
    assert!(!a.has_name("abc"));
    assert!(!a.has_name("abc-1234"));
}

#[test]
fn display_texts() {
    let mut a = Archive::from_file_name("abc-123-2000-01-01.tar.gz").unwrap();
    assert_eq!(
        a.to_string(),
        "Archive [base_name=abc-123-2000-01-01, name=abc-123, version=2000-01-01, fmt=gz(tar), extracted=false]"
    );
    a.set_extracted_path(Some("abc-123-2000-01-01".to_string()));
    assert_eq!(a.extracted_path(), Some("abc-123-2000-01-01"));
    assert!(a.to_string().ends_with("extracted=true]"));
    assert_eq!(ArchiveFormat::Zip.to_string(), "zip");
    assert_eq!(ArchiveFormat::TarBz2.to_string(), "bz2(tar)");
    assert_eq!(ArchiveFormat::TarXz.to_string(), "xz(tar)");
    assert_eq!(ArchiveFormat::TarGz.extension(), ".tar.gz");
    let e = ArchiveError::new("x.7z", ArchiveErrorCode::BadFileExtension);
    assert_eq!(e.to_string(), "Bad archive name: x.7z: Ignoring file due to extension.");
    assert_eq!(e.file_name(), "x.7z");
    assert_eq!(
        ArchiveErrorCode::MissingVersion.to_string(),
        "Ignoring file due to missing version."
    );
    assert_eq!(
        ArchiveErrorCode::MissingName.to_string(),
        "Ignoring file due to missing name before version."
    );
}

/// The reading of a file name written with the `regex` crate, without the
/// file-system part; `None` where it would slice inside a character.
fn read_with_regex(file_name: &str) -> Option<Result<(String, String, String), ArchiveErrorCode>> {
    let ext_re = Regex::new(r"[.](tar[.](bz2|gz|xz)|zip)$").unwrap();
    let caps = match ext_re.captures(file_name) {
        Some(c) => c,
        None => return Some(Err(ArchiveErrorCode::BadFileExtension)),
    };
    let base_name = file_name[0..caps.get(0).unwrap().start()].to_string();
    let version_re =
        Regex::new(r"\b(v[0-9]+([.][0-9]+){0,2}|[0-9]{4}[-]?[0-9]{2}[-]?[0-9]{2})[.]").unwrap();
    let version = match version_re.captures(file_name) {
        Some(c) => c.get(1).unwrap().as_str().to_string(),
        None => return Some(Err(ArchiveErrorCode::MissingVersion)),
    };
    let off = file_name.find(version.as_str()).unwrap();
    if off <= 1 {
        return Some(Err(ArchiveErrorCode::MissingName));
    }
    if !file_name.is_char_boundary(off - 1) {
        return None;
    }
    Some(Ok((file_name[0..off - 1].to_string(), version, base_name)))
}

#[test]
fn reading_agrees_with_the_regular_expressions() {
    let names = [
        "abc-123-2000-01-01.tar.gz",
        "abc-123.zip",
        "2000-01-01.zip",
        "xyz-20240101.zip",
        "thing-abc-123-20240101.zip",
        "a-v1.2.3.4.5.tar.bz2",
        "a-v1..zip",
        "a-v.zip",
        "a-v1.tar.gz",
        "av1-v1.tar.gz",
        "a-1999-12-31-v2.zip",
        "a-v2-1999-12-31.zip",
        "x-1234-56-78.zip",
        "x-1234--56-78.zip",
        "x-123456789.zip",
        "x-12345678.9.zip",
        "über-v3.zip",
        "x\u{2014}v3.zip",
        "x\u{00e9}v3.zip",
        "x_v3.zip",
        "x.v3.zip",
        "x-\u{0663}v3.zip",
        "v1.zip",
        "1v1-v1.zip",
        "ab-v12.v3.zip",
        "ab-v1.2-v1.2.zip",
        "ab-20240101.tar.xz.zip",
        "ab-v9.tar.bz2",
        "",
        ".zip",
        "-v1.zip",
        "--v1.zip",
    ];
    for f in names {
        let expected = read_with_regex(f);
        let got = Archive::from_file_name_checked(f).map(|r| match r {
            Ok(a) => Ok((
                a.name().to_string(),
                a.version().to_string(),
                a.base_name().to_string(),
            )),
            Err(e) => Err(e.error_code()),
        });
        assert_eq!(got, expected, "file name {:?}", f);
    }
}
