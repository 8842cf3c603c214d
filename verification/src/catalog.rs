//! Lists of archives: keeping those of one name, and cutting a list into
//! runs of archives that share a name.

use vstd::prelude::*;

use crate::archive::{Archive, ArchiveView};

verus! {

/// An index as a mathematical integer.
pub open spec fn index_of(i: usize) -> int {
    i as int
}

/// `r` is the index `o` names, or nothing where `o` names none.
pub open spec fn same_index(o: Option<int>, r: Option<usize>) -> bool {
    match r {
        Some(j) => o == Some(j as int),
        None => o is None,
    }
}

/// The length of a list of archive models, as an integer.
pub open spec fn count(s: Seq<ArchiveView>) -> int {
    s.len() as int
}

/// The models of a list of archives.
pub open spec fn views(archives: Seq<Archive>) -> Seq<ArchiveView> {
    archives.map_values(|a: Archive| a@)
}

/// The models of a list of borrowed archives.
pub open spec fn ref_views<'a>(archives: Seq<&'a Archive>) -> Seq<ArchiveView> {
    archives.map_values(|a: &'a Archive| a@)
}

/// The models of a list of groups of borrowed archives.
pub open spec fn group_views<'a>(groups: Seq<Vec<&'a Archive>>) -> Seq<Seq<ArchiveView>> {
    groups.map_values(|g: Vec<&'a Archive>| ref_views(g@))
}

/// `groups` cuts `archives` into maximal runs of one name: read in order,
/// the groups hold `archives`; no group is empty; the archives of a group
/// share their name; and two neighbouring groups have different names.
pub open spec fn groups_by_name(archives: Seq<ArchiveView>, groups: Seq<Seq<ArchiveView>>) -> bool {
    &&& groups.flatten() == archives
    &&& forall|g: int| 0 <= g < groups.len() ==> #[trigger] groups[g].len() > 0
    &&& forall|g: int, i: int|
        0 <= g < groups.len() && 0 <= i < groups[g].len() ==> #[trigger] groups[g][i].name
            == groups[g][0].name
    &&& forall|g: int|
        0 <= g < groups.len() - 1 ==> #[trigger] groups[g][0].name != groups[g + 1][0].name
}

/// Keeps the archives whose name is `prefix`; keeps all when there is none.
pub open spec fn keep_named(archives: Seq<ArchiveView>, maybe_prefix: Option<Seq<char>>) -> Seq<
    ArchiveView,
> {
    match maybe_prefix {
        Some(prefix) => archives.filter(|a: ArchiveView| a.name == prefix),
        None => archives,
    }
}

/// The archives whose name is `maybe_prefix`, in their order, or all of them
/// when no name is given.
pub fn matching_archives(archives: Vec<Archive>, maybe_prefix: Option<&str>) -> (r: Vec<Archive>)
    ensures
        views(r@) == keep_named(
            views(archives@),
            match maybe_prefix {
                Some(p) => Some(p@),
                None => None::<Seq<char>>,
            },
        ),
{
    match maybe_prefix {
        None => archives,
        Some(prefix) => {
            let ghost all = views(archives@);
            let ghost pred = |a: ArchiveView| a.name == prefix@;
            let mut kept: Vec<Archive> = Vec::new();
            for a in it: archives
                invariant
                    pred == (|a: ArchiveView| a.name == prefix@),
                    all == views(it.seq()),
                    views(kept@) == all.take(it.index() as int).filter(pred),
            {
                let ghost i = it.index() as int;
                proof {
                    reveal_with_fuel(Seq::<_>::filter, 1);
                    assert(all.take(i + 1).drop_last() =~= all.take(i));
                    assert(all[i] == a@);
                }
                if a.has_name(prefix) {
                    kept.push(a);
                    assert(views(kept@) =~= all.take(i).filter(pred).push(all[i]));
                } else {
                    assert(!pred(all[i]));
                }
            }
            assert(all.take(all.len() as int) =~= all);
            kept
        },
    }
}


/// Cuts `archives` into maximal runs of archives that share a name, in
/// order.
pub fn group_archives<'a>(archives: &'a Vec<Archive>) -> (groups: Vec<Vec<&'a Archive>>)
    ensures
        groups_by_name(views(archives@), group_views(groups@)),
{
    let ghost all = views(archives@);
    let mut accum: Vec<Vec<&'a Archive>> = Vec::new();
    let mut sub: Vec<&'a Archive> = Vec::new();
    let mut i: usize = 0;
    while i < archives.len()
        invariant
            all == views(archives@),
            i <= archives.len(),
            group_views(accum@).flatten_alt() + ref_views(sub@) == all.take(i as int),
            i > 0 <==> sub.len() > 0,
            groups_by_name(group_views(accum@).flatten(), group_views(accum@)),
            forall|j: int| 0 <= j < sub.len() ==> #[trigger] sub@[j]@.name == sub@[0]@.name,
            accum.len() > 0 ==> accum@.last()@[0]@.name != sub@[0]@.name,
            accum.len() > 0 ==> sub.len() > 0,
        decreases archives.len() - i,
    {
        let arc = &archives[i];
        let ghost before = group_views(accum@);
        if sub.len() > 0 && !crate::archive::same_text(sub[sub.len() - 1].name(), arc.name()) {
            let done = sub;
            sub = Vec::new();
            accum.push(done);
            proof {
                assert(group_views(accum@) =~= before.push(ref_views(done@)));
                lemma_flatten_groups_push(before, ref_views(done@));
                assert(group_views(accum@).flatten_alt() =~= before.flatten_alt() + ref_views(
                    done@,
                ));
            }
        }
        let ghost mid = ref_views(sub@);
        sub.push(arc);
        proof {
            assert(ref_views(sub@) =~= mid.push(arc@));
            assert(all.take(i + 1) =~= all.take(i as int).push(all[i as int]));
        }
        i = i + 1;
    }
    if sub.len() > 0 {
        let ghost before = group_views(accum@);
        let done = sub;
        accum.push(done);
        proof {
            assert(group_views(accum@) =~= before.push(ref_views(done@)));
            lemma_flatten_groups_push(before, ref_views(done@));
        }
    }
    proof {
        assert(all.take(all.len() as int) =~= all);
        group_views(accum@).lemma_flatten_and_flatten_alt_are_equivalent();
    }
    accum
}

/// Adding a group at the end keeps the grouping properties when the new
/// group is nonempty, of one name, and differs in name from the last group.
proof fn lemma_flatten_groups_push(groups: Seq<Seq<ArchiveView>>, g: Seq<ArchiveView>)
    requires
        groups_by_name(groups.flatten(), groups),
        g.len() > 0,
        forall|j: int| 0 <= j < g.len() ==> #[trigger] g[j].name == g[0].name,
        groups.len() > 0 ==> groups.last()[0].name != g[0].name,
    ensures
        groups.push(g).flatten_alt() == groups.flatten_alt() + g,
        groups_by_name(groups.push(g).flatten(), groups.push(g)),
{
    assert(groups.push(g).drop_last() =~= groups);
    let gs = groups.push(g);
    assert forall|k: int, i: int|
        0 <= k < gs.len() && 0 <= i < gs[k].len() implies #[trigger] gs[k][i].name
        == gs[k][0].name by {
        if k < groups.len() {
            assert(gs[k] == groups[k]);
        }
    }
    assert forall|k: int| 0 <= k < gs.len() - 1 implies #[trigger] gs[k][0].name != gs[k
        + 1][0].name by {
        if k + 1 < groups.len() {
            assert(gs[k + 1] == groups[k + 1]);
        }
    }
}


/// Keeping the archives of a name keeps exactly those whose name equals it
/// (not those whose name merely starts with it), all of them, in their
/// order: the kept archives are the archives at the strictly increasing
/// indices `m`, every one of them has the name, and every archive with the
/// name is at one of those indices. With no name, every archive is kept.
pub proof fn lemma_keep_named_keeps_exactly_the_name(archives: Seq<ArchiveView>, prefix: Seq<char>) -> (m: Seq<int>)
    ensures
        keep_named(archives, None) == archives,
        m.len() == keep_named(archives, Some(prefix)).len(),
        forall|j: int|
            0 <= j < m.len() ==> {
                &&& 0 <= #[trigger] m[j] < archives.len()
                &&& keep_named(archives, Some(prefix))[j] == archives[m[j]]
                &&& archives[m[j]].name == prefix
            },
        forall|j: int, k: int| 0 <= j < k < m.len() ==> #[trigger] m[j] < #[trigger] m[k],
        forall|i: int|
            0 <= i < archives.len() && (#[trigger] archives[i]).name == prefix ==> exists|j: int|
                0 <= j < m.len() && #[trigger] m[j] == i,
    decreases archives.len(),
{
    reveal_with_fuel(Seq::<_>::filter, 1);
    let pred = |a: ArchiveView| a.name == prefix;
    if archives.len() == 0 {
        Seq::empty()
    } else {
        let rest = archives.drop_last();
        let m0 = lemma_keep_named_keeps_exactly_the_name(rest, prefix);
        let kept0 = keep_named(rest, Some(prefix));
        assert(kept0 == rest.filter(pred));
        let n = archives.len() - 1;
        if archives.last().name == prefix {
            let m = m0.push(n);
            assert(keep_named(archives, Some(prefix)) == kept0.push(archives.last()));
            assert forall|i: int|
                0 <= i < archives.len() && (#[trigger] archives[i]).name == prefix implies exists|j: int|
                    0 <= j < m.len() && #[trigger] m[j] == i by {
                if i < n {
                    assert(rest[i] == archives[i]);
                    let j = choose|j: int| 0 <= j < m0.len() && #[trigger] m0[j] == i;
                    assert(m[j] == i);
                } else {
                    assert(m[m0.len() as int] == i);
                }
            }
            assert forall|j: int|
                0 <= j < m.len() implies {
                    &&& 0 <= #[trigger] m[j] < archives.len()
                    &&& keep_named(archives, Some(prefix))[j] == archives[m[j]]
                    &&& archives[m[j]].name == prefix
                } by {
                if j < m0.len() {
                    assert(rest[m0[j]] == archives[m0[j]]);
                }
            }
            m
        } else {
            assert(keep_named(archives, Some(prefix)) == kept0);
            assert forall|i: int|
                0 <= i < archives.len() && (#[trigger] archives[i]).name == prefix implies exists|j: int|
                    0 <= j < m0.len() && #[trigger] m0[j] == i by {
                assert(i < n);
                assert(rest[i] == archives[i]);
            }
            assert forall|j: int|
                0 <= j < m0.len() implies {
                    &&& 0 <= #[trigger] m0[j] < archives.len()
                    &&& keep_named(archives, Some(prefix))[j] == archives[m0[j]]
                    &&& archives[m0[j]].name == prefix
                } by {
                assert(rest[m0[j]] == archives[m0[j]]);
            }
            m0
        }
    }
}

} // verus!
