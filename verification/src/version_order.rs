//! Ordering archives by version in human-friendly order (`v2` before
//! `v10`), and picking the latest archive of a name.

use vstd::prelude::*;

use core::cmp::Ordering;

use crate::archive::{Archive, ArchiveView};
use crate::catalog::{count, index_of, same_index, views};
use crate::grammar::{human_comparable, human_comparable_in};

verus! {

/// The human-friendly order of two texts that `human_sort::compare` gives.
pub uninterp spec fn human_order(a: Seq<char>, b: Seq<char>) -> Ordering;

/// The opposite of an ordering.
pub open spec fn flipped(o: Ordering) -> Ordering {
    match o {
        Ordering::Less => Ordering::Greater,
        Ordering::Equal => Ordering::Equal,
        Ordering::Greater => Ordering::Less,
    }
}

/// Calls `human_sort::compare`, which compares two texts character by
/// character and runs of digits by their value. Claimed: the result is
/// `human_order(a, b)`, a function of the two texts alone; comparing in the
/// other order gives the opposite result (the source treats both sides
/// alike, down to the final `str::cmp`); equal texts compare `Equal`.
/// The crate adds up digit runs in a `u32` and overflows (a panic in debug
/// builds) past `u32::MAX`, but only once it reaches a difference where both
/// texts hold a numeric character: `requires` asks that every number in
/// either text fit, or that the first difference be an end of text or an
/// ASCII character that is not a digit (there the crate returns at once).
/// Pairs that differ first at two digits and hold an oversized number
/// further on are left out even where the crate would stop before it.
#[verifier::external_body]
fn human_compare(a: &str, b: &str) -> (r: Ordering)
    requires
        human_comparable(a@, b@),
    ensures
        r == human_order(a@, b@),
        r == flipped(human_order(b@, a@)),
        a@ == b@ ==> r == Ordering::Equal,
{
    human_sort::compare(a, b)
}

impl Archive {
    /// Compares the versions of two archives in human-friendly order.
    pub fn cmp_by_version(&self, other: &Self) -> (r: Ordering)
        requires
            human_comparable(self@.version, other@.version),
        ensures
            r == human_order(self@.version, other@.version),
            r == flipped(human_order(other@.version, self@.version)),
    {
        human_compare(self.version(), other.version())
    }
}

/// Among the first `n` archives, the index of the latest one named
/// `prefix`: the last one whose version is not below that of the latest
/// one before it.
pub open spec fn latest_upto(archives: Seq<ArchiveView>, prefix: Seq<char>, n: int) -> Option<int>
    decreases n,
{
    if n <= 0 {
        None
    } else {
        let best = latest_upto(archives, prefix, n - 1);
        if archives[n - 1].name == prefix && (best is None || human_order(
            archives[n - 1].version,
            archives[best->0].version,
        ) != Ordering::Less) {
            Some(n - 1)
        } else {
            best
        }
    }
}

/// Every two archives named `prefix` have versions that can be compared
/// without a number overflowing.
pub open spec fn named_versions_comparable(archives: Seq<ArchiveView>, prefix: Seq<char>) -> bool {
    forall|i: int, j: int|
        0 <= i < archives.len() && 0 <= j < archives.len() && i != j && (#[trigger] archives[i]).name
            == prefix && (#[trigger] archives[j]).name == prefix ==> human_comparable(
            archives[i].version,
            archives[j].version,
        )
}

/// Whether every two archives named `prefix` have versions that can be
/// compared without a number overflowing.
pub fn named_versions_comparable_in(archives: &Vec<Archive>, prefix: &str) -> (b: bool)
    ensures
        b == named_versions_comparable(views(archives@), prefix@),
{
    let ghost vs = views(archives@);
    let mut i: usize = 0;
    while i < archives.len()
        invariant
            vs == views(archives@),
            i <= archives.len(),
            forall|k: int, j: int|
                0 <= k < i && 0 <= j < vs.len() && k != j && (#[trigger] vs[k]).name == prefix@ && (
                #[trigger] vs[j]).name == prefix@ ==> human_comparable(vs[k].version, vs[j].version),
        decreases archives.len() - i,
    {
        assert(vs[index_of(i)] == archives@[index_of(i)]@);
        if archives[i].has_name(prefix) {
            let mut j: usize = 0;
            while j < archives.len()
                invariant
                    vs == views(archives@),
                    i < archives.len(),
                    vs[index_of(i)].name == prefix@,
                    j <= archives.len(),
                    forall|k: int, l: int|
                        0 <= k < i && 0 <= l < vs.len() && k != l && (#[trigger] vs[k]).name == prefix@
                            && (#[trigger] vs[l]).name == prefix@ ==> human_comparable(
                            vs[k].version,
                            vs[l].version,
                        ),
                    forall|l: int|
                        0 <= l < j && l != index_of(i) && (#[trigger] vs[l]).name == prefix@
                            ==> human_comparable(vs[index_of(i)].version, vs[l].version),
                decreases archives.len() - j,
            {
                assert(vs[index_of(j)] == archives@[index_of(j)]@);
                if j != i && archives[j].has_name(prefix) && !human_comparable_in(
                    archives[i].version(),
                    archives[j].version(),
                ) {
                    return false;
                }
                j = j + 1;
            }
        }
        i = i + 1;
    }
    true
}

/// The index of the latest archive named `prefix`: of those, the one that
/// sorting by version puts last.
pub fn latest_archive(archives: &Vec<Archive>, prefix: &str) -> (r: Option<usize>)
    requires
        named_versions_comparable(views(archives@), prefix@),
    ensures
        same_index(latest_upto(views(archives@), prefix@, count(views(archives@))), r),
{
    let ghost vs = views(archives@);
    let mut best: Option<usize> = None;
    let mut i: usize = 0;
    while i < archives.len()
        invariant
            vs == views(archives@),
            named_versions_comparable(vs, prefix@),
            i <= archives.len(),
            same_index(latest_upto(vs, prefix@, index_of(i)), best),
            best matches Some(j) ==> j < i,
        decreases archives.len() - i,
    {
        if archives[i].has_name(prefix) {
            assert(vs[index_of(i)] == archives@[index_of(i)]@);
            match best {
                None => {
                    best = Some(i);
                },
                Some(b) => {
                    proof {
                        lemma_latest_is_named(vs, prefix@, index_of(i));
                    }
                    assert(vs[index_of(b)] == archives@[index_of(b)]@);
                    match archives[i].cmp_by_version(&archives[b]) {
                        Ordering::Less => {},
                        _ => {
                            best = Some(i);
                        },
                    }
                },
            }
        }
        i = i + 1;
    }
    best
}

/// The latest archive of a name exists exactly when an archive of that
/// name does, and it has that name.
pub proof fn lemma_latest_is_named(archives: Seq<ArchiveView>, prefix: Seq<char>, n: int)
    requires
        0 <= n <= archives.len(),
    ensures
        latest_upto(archives, prefix, n) is Some <==> exists|i: int|
            0 <= i < n && (#[trigger] archives[i]).name == prefix,
        latest_upto(archives, prefix, n) matches Some(j) ==> 0 <= j < n && archives[j].name
            == prefix,
    decreases n,
{
    if n > 0 {
        lemma_latest_is_named(archives, prefix, n - 1);
        if latest_upto(archives, prefix, n - 1) is None && archives[n - 1].name != prefix {
            assert forall|i: int| 0 <= i < n implies (#[trigger] archives[i]).name != prefix by {
                if i < n - 1 {
                }
            }
        }
    }
}

/// `order` is a total preorder on the versions of the archives named
/// `prefix`: comparing in the other order flips the result, and "not
/// greater" is transitive.
pub open spec fn orders_named_versions(archives: Seq<ArchiveView>, prefix: Seq<char>) -> bool {
    &&& forall|i: int, j: int|
        0 <= i < archives.len() && 0 <= j < archives.len() && archives[i].name == prefix
            && archives[j].name == prefix ==> #[trigger] human_order(
            archives[i].version,
            archives[j].version,
        ) == flipped(human_order(archives[j].version, archives[i].version))
    &&& forall|i: int, j: int, k: int|
        0 <= i < archives.len() && 0 <= j < archives.len() && 0 <= k < archives.len()
            && archives[i].name == prefix && archives[j].name == prefix && archives[k].name
            == prefix && #[trigger] human_order(archives[i].version, archives[j].version)
            != Ordering::Greater && #[trigger] human_order(
            archives[j].version,
            archives[k].version,
        ) != Ordering::Greater ==> human_order(archives[i].version, archives[k].version)
            != Ordering::Greater
}

/// Where the human-friendly order is a total preorder on the versions of
/// the archives named `prefix`, the latest archive is the one a stable sort
/// by version puts last: no archive of that name has a greater version, and
/// every later one has a smaller version.
pub proof fn lemma_latest_is_greatest(archives: Seq<ArchiveView>, prefix: Seq<char>, n: int)
    requires
        0 <= n <= archives.len(),
        orders_named_versions(archives, prefix),
    ensures
        latest_upto(archives, prefix, n) matches Some(j) ==> {
            &&& forall|i: int|
                0 <= i < n && (#[trigger] archives[i]).name == prefix ==> human_order(
                    archives[i].version,
                    archives[j].version,
                ) != Ordering::Greater
            &&& forall|i: int|
                j < i < n && (#[trigger] archives[i]).name == prefix ==> human_order(
                    archives[i].version,
                    archives[j].version,
                ) == Ordering::Less
        },
    decreases n,
{
    if n > 0 {
        lemma_latest_is_greatest(archives, prefix, n - 1);
        lemma_latest_is_named(archives, prefix, n - 1);
        lemma_latest_is_named(archives, prefix, n);
        let best = latest_upto(archives, prefix, n - 1);
        match latest_upto(archives, prefix, n) {
            Some(j) => {
                if j == n - 1 {
                    if let Some(b) = best {
                        // The new archive is not below the previous latest, so it is
                        // not below anything that was not above the previous latest.
                        assert forall|i: int|
                            0 <= i < n && (#[trigger] archives[i]).name == prefix implies human_order(
                            archives[i].version,
                            archives[j].version,
                        ) != Ordering::Greater by {
                            if i < n - 1 {
                                assert(human_order(archives[i].version, archives[b].version)
                                    != Ordering::Greater);
                                assert(human_order(archives[b].version, archives[j].version)
                                    == flipped(
                                    human_order(archives[j].version, archives[b].version),
                                ));
                            } else {
                                assert(human_order(archives[j].version, archives[j].version)
                                    == flipped(
                                    human_order(archives[j].version, archives[j].version),
                                ));
                            }
                        }
                    } else {
                        assert forall|i: int|
                            0 <= i < n && (#[trigger] archives[i]).name == prefix implies human_order(
                            archives[i].version,
                            archives[j].version,
                        ) != Ordering::Greater by {
                            assert(human_order(archives[j].version, archives[j].version)
                                == flipped(
                                human_order(archives[j].version, archives[j].version),
                            ));
                        }
                    }
                } else {
                    assert forall|i: int|
                        0 <= i < n && (#[trigger] archives[i]).name == prefix implies human_order(
                        archives[i].version,
                        archives[j].version,
                    ) != Ordering::Greater by {
                        if i == n - 1 {
                            assert(human_order(archives[i].version, archives[j].version)
                                == Ordering::Less);
                        }
                    }
                }
            },
            None => {},
        }
    }
}


/// The error logged by `latest` when no archive has the name `prefix`.
pub open spec fn no_latest_message(prefix: Seq<char>) -> Seq<char> {
    "Unable to determine latest archive name for: "@ + prefix
}

/// What `latest` reports: the base name of the latest archive named
/// `prefix`, or the error that there is none.
pub fn latest_report<'a>(archives: &'a Vec<Archive>, prefix: &str) -> (r: Result<&'a str, String>)
    requires
        named_versions_comparable(views(archives@), prefix@),
    ensures
        match r {
            Ok(b) => latest_upto(views(archives@), prefix@, count(views(archives@))) matches Some(j)
                && b@ == views(archives@)[j].base_name,
            Err(m) => latest_upto(views(archives@), prefix@, count(views(archives@))) is None && m@
                == no_latest_message(prefix@),
        },
{
    match latest_archive(archives, prefix) {
        Some(j) => {
            proof {
                lemma_latest_is_named(views(archives@), prefix@, count(views(archives@)));
            }
            assert(views(archives@)[index_of(j)] == archives@[index_of(j)]@);
            Ok(archives[j].base_name())
        },
        None => {
            let mut m = String::from_str("Unable to determine latest archive name for: ");
            m.append(prefix);
            Err(m)
        },
    }
}

} // verus!
