//! Installing an archive: checking that it unpacks into its own directory,
//! unpacking it, and pointing a link named after it at that directory.

use vstd::prelude::*;

use crate::archive::{Archive, ArchiveView};
use crate::grammar::chars_of;

verus! {

/// `s` starts with `prefix`.
pub open spec fn has_prefix(s: Seq<char>, prefix: Seq<char>) -> bool {
    prefix.len() <= s.len() && s.subrange(0, prefix.len() as int) == prefix
}

/// Whether `s` starts with `prefix`.
pub fn starts_with(s: &str, prefix: &str) -> (b: bool)
    ensures
        b == has_prefix(s@, prefix@),
{
    let x = chars_of(s);
    let p = chars_of(prefix);
    if p.len() > x.len() {
        return false;
    }
    let mut i: usize = 0;
    while i < p.len()
        invariant
            x@ == s@,
            p@ == prefix@,
            p.len() <= x.len(),
            i <= p.len(),
            forall|j: int| 0 <= j < i ==> x@[j] == p@[j],
        decreases p.len() - i,
    {
        if x[i] != p[i] {
            assert(x@.subrange(0, p@.len() as int)[i as int] != p@[i as int]);
            return false;
        }
        i = i + 1;
    }
    assert(x@.subrange(0, p@.len() as int) =~= p@);
    true
}

/// The message for an entry `name` outside the directory `expected_dir`.
pub fn prefix_mismatch_message(name: &str, expected_dir: &str) -> (m: String)
    ensures
        m@ == "prefix mismatch for '"@ + name@ + "' expecting '"@ + expected_dir@ + "'"@,
{
    let mut m = String::from_str("prefix mismatch for '");
    m.append(name);
    m.append("' expecting '");
    m.append(expected_dir);
    m.append("'");
    m
}

/// Checks one entry of an archive that must unpack into `expected_dir`:
/// its name must start with `expected_dir`, or the error says which entry
/// lies outside.
pub fn check_entry(name: &str, expected_dir: &str) -> (r: Result<(), String>)
    ensures
        r is Ok <==> has_prefix(name@, expected_dir@),
        r matches Err(m) ==> m@ == "prefix mismatch for '"@ + name@ + "' expecting '"@
            + expected_dir@ + "'"@,
{
    if starts_with(name, expected_dir) {
        Ok(())
    } else {
        Err(prefix_mismatch_message(name, expected_dir))
    }
}

/// The message for a link `link` to `target` that could not be made.
pub fn symlink_failure_message(link: &str, target: &str) -> (m: String)
    ensures
        m@ == "Failed to create symlink '"@ + link@ + "' to '"@ + target@ + "'"@,
{
    let mut m = String::from_str("Failed to create symlink '");
    m.append(link);
    m.append("' to '");
    m.append(target);
    m.append("'");
    m
}

/// A step of installing an archive.
#[derive(Debug, Clone, PartialEq, Eq)]
pub enum InstallStep {
    /// Check that every entry of the archive at `zip_path` lies under
    /// `expected_dir`.
    CheckTopLevelDir { zip_path: String, expected_dir: String },
    /// Unpack the archive at `zip_path`.
    Unzip { zip_path: String },
    /// Remove `path`, where the archive was extracted before.
    RemoveExtracted { path: String },
    /// Make `link` a symbolic link to `target`.
    Symlink { target: String, link: String },
}

/// The model of an [`InstallStep`].
pub enum InstallStepView {
    CheckTopLevelDir { zip_path: Seq<char>, expected_dir: Seq<char> },
    Unzip { zip_path: Seq<char> },
    RemoveExtracted { path: Seq<char> },
    Symlink { target: Seq<char>, link: Seq<char> },
}

impl View for InstallStep {
    type V = InstallStepView;

    open spec fn view(&self) -> InstallStepView {
        match self {
            InstallStep::CheckTopLevelDir { zip_path, expected_dir } => InstallStepView::CheckTopLevelDir {
                zip_path: zip_path@,
                expected_dir: expected_dir@,
            },
            InstallStep::Unzip { zip_path } => InstallStepView::Unzip { zip_path: zip_path@ },
            InstallStep::RemoveExtracted { path } => InstallStepView::RemoveExtracted { path: path@ },
            InstallStep::Symlink { target, link } => InstallStepView::Symlink {
                target: target@,
                link: link@,
            },
        }
    }
}

/// The steps that install the archive `a`, in order: check that it unpacks
/// into the directory of its base name; unpack it unless that directory
/// exists; remove where it was extracted before, if anywhere; link its name
/// to its base name.
pub open spec fn install_plan(a: ArchiveView, base_dir_exists: bool) -> Seq<InstallStepView> {
    let zip_path = a.base_name + a.format.ext_chars();
    seq![InstallStepView::CheckTopLevelDir { zip_path, expected_dir: a.base_name }] + (
    if base_dir_exists {
        Seq::empty()
    } else {
        seq![InstallStepView::Unzip { zip_path }]
    }) + (match a.extracted_path {
        Some(p) => seq![InstallStepView::RemoveExtracted { path: p }],
        None => Seq::empty(),
    }) + seq![InstallStepView::Symlink { target: a.base_name, link: a.name }]
}

/// The steps that install `archive`, given whether the directory of its
/// base name exists.
pub fn install_steps(archive: &Archive, base_dir_exists: bool) -> (steps: Vec<InstallStep>)
    ensures
        steps@.map_values(|s: InstallStep| s@) == install_plan(archive@, base_dir_exists),
{
    let mut steps: Vec<InstallStep> = Vec::new();
    steps.push(
        InstallStep::CheckTopLevelDir {
            zip_path: archive.path(),
            expected_dir: archive.base_name().to_owned(),
        },
    );
    if !base_dir_exists {
        steps.push(InstallStep::Unzip { zip_path: archive.path() });
    }
    match archive.extracted_path() {
        Some(path) => steps.push(InstallStep::RemoveExtracted { path: path.to_owned() }),
        None => {},
    }
    steps.push(
        InstallStep::Symlink {
            target: archive.base_name().to_owned(),
            link: archive.name().to_owned(),
        },
    );
    assert(steps@.map_values(|s: InstallStep| s@) =~= install_plan(archive@, base_dir_exists));
    steps
}

} // verus!
