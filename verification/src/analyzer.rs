//! Cross-referencing the loaded lists: the union of all blocked
//! domains, the allow-list entries no blocklist covers, and the
//! pairwise subset relations among blocklists.
use crate::domain_set::DomainSet;
use crate::loader::NamedDomainSet;
use vstd::prelude::*;

verus! {

/// The union of the domains of all lists.
pub open spec fn union_of_sets(ls: Seq<NamedDomainSet>) -> Set<Seq<char>>
    decreases ls.len(),
{
    if ls.len() == 0 {
        Set::empty()
    } else {
        ls[0].domains@.union(union_of_sets(ls.drop_first()))
    }
}

/// Collects every domain of every list into one set.
pub fn union_of(lists: &Vec<NamedDomainSet>) -> (r: DomainSet)
    ensures
        r.inv(),
        r@ == union_of_sets(lists@),
{
    let mut out = DomainSet::new();
    let n = lists.len();
    let mut k: usize = 0;
    proof {
        assert(lists@.skip(0) =~= lists@);
        assert(union_of_sets(lists@) =~= Set::<Seq<char>>::empty().union(union_of_sets(lists@)));
    }
    while k < n
        invariant
            k <= n,
            n == lists@.len(),
            out.inv(),
            union_of_sets(lists@) == out@.union(union_of_sets(lists@.skip(k as int))),
        decreases n - k,
    {
        let ghost before = out@;
        let ghost cur = lists@.skip(k as int);
        out.add_all(&lists[k].domains);
        proof {
            assert(cur[0] == lists@[k as int]);
            assert(cur.drop_first() =~= lists@.skip(k + 1 as int));
            assert(union_of_sets(cur) == lists@[k as int].domains@.union(
                union_of_sets(lists@.skip(k + 1 as int)),
            ));
            assert(union_of_sets(lists@) =~= out@.union(union_of_sets(lists@.skip(k + 1 as int))));
        }
        k = k + 1;
    }
    proof {
        assert(union_of_sets(lists@.skip(n as int)) =~= Set::<Seq<char>>::empty());
        assert(union_of_sets(lists@) =~= out@);
    }
    out
}

/// One reported allow list: its name, and those of its domains that
/// no blocklist holds.
pub struct UnmatchedReport {
    pub name: String,
    pub domains: Vec<String>,
}

/// The views of a sequence of reports: each name with the set of its
/// unmatched domains.
pub open spec fn reports_view(rs: Seq<UnmatchedReport>) -> Seq<(Seq<char>, Set<Seq<char>>)> {
    rs.map_values(|r: UnmatchedReport| (r.name@, r.domains.deep_view().to_set()))
}

/// The reports owed: one per allow list whose difference with the
/// blocked union is non-empty, in order.
pub open spec fn unmatched_spec(allow: Seq<NamedDomainSet>, blocked: Set<Seq<char>>) -> Seq<
    (Seq<char>, Set<Seq<char>>),
>
    decreases allow.len(),
{
    if allow.len() == 0 {
        Seq::empty()
    } else {
        let d = allow[0].domains@.difference(blocked);
        (if d != Set::<Seq<char>>::empty() {
            seq![(allow[0].name@, d)]
        } else {
            Seq::empty()
        }) + unmatched_spec(allow.drop_first(), blocked)
    }
}

/// Reports, allow list by allow list, the domains absent from every
/// blocklist.
pub fn unmatched_entries(allow: &Vec<NamedDomainSet>, block_union: &DomainSet) -> (r: Vec<
    UnmatchedReport,
>)
    requires
        forall|k: int| 0 <= k < allow@.len() ==> (#[trigger] allow@[k]).inv(),
    ensures
        reports_view(r@) == unmatched_spec(allow@, block_union@),
        forall|k: int| 0 <= k < r@.len() ==> (#[trigger] r@[k]).domains.deep_view().no_duplicates()
            && r@[k].domains@.len() > 0,
{
    let mut out: Vec<UnmatchedReport> = Vec::new();
    let n = allow.len();
    let mut k: usize = 0;
    proof {
        assert(allow@.skip(0) =~= allow@);
        assert(reports_view(out@) =~= Seq::<(Seq<char>, Set<Seq<char>>)>::empty());
    }
    while k < n
        invariant
            k <= n,
            n == allow@.len(),
            forall|m: int| 0 <= m < allow@.len() ==> (#[trigger] allow@[m]).inv(),
            unmatched_spec(allow@, block_union@) == reports_view(out@) + unmatched_spec(
                allow@.skip(k as int),
                block_union@,
            ),
            forall|m: int| 0 <= m < out@.len() ==> (#[trigger] out@[m]).domains.deep_view().no_duplicates()
                && out@[m].domains@.len() > 0,
        decreases n - k,
    {
        let ghost before = out@;
        let ghost cur = allow@.skip(k as int);
        proof {
            assert(cur[0] == allow@[k as int]);
            assert(cur.drop_first() =~= allow@.skip(k + 1 as int));
        }
        let diff = allow[k].domains.difference(block_union);
        if !diff.is_empty() {
            let ghost dset = diff@;
            let name = allow[k].name.clone();
            let domains = diff.into_vec();
            out.push(UnmatchedReport { name, domains });
            proof {
                assert(out@[out@.len() - 1].domains.deep_view().to_set() == dset);
                assert(reports_view(out@) =~= reports_view(before).push(
                    (allow@[k as int].name@, dset),
                ));
                let last = out@[out@.len() - 1];
                assert(last.domains@.len() == last.domains.deep_view().len());
                assert(last.domains.deep_view().len() > 0) by {
                    if last.domains.deep_view().len() == 0 {
                        assert(last.domains.deep_view().to_set() =~= Set::<Seq<char>>::empty());
                    }
                }
            }
        }
        proof {
            assert(unmatched_spec(allow@, block_union@) =~= reports_view(out@) + unmatched_spec(
                allow@.skip(k + 1 as int),
                block_union@,
            ));
        }
        k = k + 1;
    }
    proof {
        assert(unmatched_spec(allow@.skip(n as int), block_union@) =~= Seq::<
            (Seq<char>, Set<Seq<char>>),
        >::empty());
        assert(reports_view(out@) =~= unmatched_spec(allow@, block_union@));
    }
    out
}

/// An allow list wholly covered by the blocked union yields no
/// report at all.
pub proof fn lemma_covered_allow_lists_unreported(
    allow: Seq<NamedDomainSet>,
    blocked: Set<Seq<char>>,
)
    requires
        forall|k: int| 0 <= k < allow.len() ==> (#[trigger] allow[k]).domains@.subset_of(blocked),
    ensures
        unmatched_spec(allow, blocked) == Seq::<(Seq<char>, Set<Seq<char>>)>::empty(),
    decreases allow.len(),
{
    if allow.len() > 0 {
        assert(allow[0].domains@.difference(blocked) =~= Set::<Seq<char>>::empty());
        assert forall|k: int| 0 <= k < allow.drop_first().len() implies (#[trigger] allow.drop_first()[k]).domains@.subset_of(
            blocked,
        ) by {
            assert(allow.drop_first()[k] == allow[k + 1]);
        }
        lemma_covered_allow_lists_unreported(allow.drop_first(), blocked);
        assert(unmatched_spec(allow, blocked) =~= Seq::<(Seq<char>, Set<Seq<char>>)>::empty());
    }
}

/// One reported redundancy: the named list's domains all occur in
/// the other named list.
pub struct SubsetReport {
    pub subset_name: String,
    pub superset_name: String,
}

/// The views of a sequence of subset reports.
pub open spec fn subset_reports_view(rs: Seq<SubsetReport>) -> Seq<(Seq<char>, Seq<char>)> {
    rs.map_values(|r: SubsetReport| (r.subset_name@, r.superset_name@))
}

/// The reports of list `i` against the lists from `j` on.
pub open spec fn pairs_row(ls: Seq<NamedDomainSet>, i: int, j: int) -> Seq<(Seq<char>, Seq<char>)>
    decreases ls.len() - j,
    when 0 <= j <= ls.len()
{
    if j >= ls.len() {
        Seq::empty()
    } else {
        (if i != j && ls[i].domains@.subset_of(ls[j].domains@) {
            seq![(ls[i].name@, ls[j].name@)]
        } else {
            Seq::empty()
        }) + pairs_row(ls, i, j + 1)
    }
}

/// The reports of the lists from `i` on, each against every list.
pub open spec fn pairs_from(ls: Seq<NamedDomainSet>, i: int) -> Seq<(Seq<char>, Seq<char>)>
    decreases ls.len() - i,
    when 0 <= i <= ls.len()
{
    if i >= ls.len() {
        Seq::empty()
    } else {
        pairs_row(ls, i, 0) + pairs_from(ls, i + 1)
    }
}

/// Every ordered pair of distinct positions whose first list is a
/// subset of the second, by position: lists sharing a name are still
/// compared.
pub open spec fn subset_pairs_spec(ls: Seq<NamedDomainSet>) -> Seq<(Seq<char>, Seq<char>)> {
    pairs_from(ls, 0)
}

/// Reports every blocklist that is a subset of another, pair by
/// ordered pair.
pub fn subset_pairs(lists: &Vec<NamedDomainSet>) -> (r: Vec<SubsetReport>)
    ensures
        subset_reports_view(r@) == subset_pairs_spec(lists@),
{
    let mut out: Vec<SubsetReport> = Vec::new();
    let n = lists.len();
    let mut i: usize = 0;
    proof {
        assert(subset_reports_view(out@) =~= Seq::<(Seq<char>, Seq<char>)>::empty());
    }
    while i < n
        invariant
            i <= n,
            n == lists@.len(),
            subset_pairs_spec(lists@) == subset_reports_view(out@) + pairs_from(lists@, i as int),
        decreases n - i,
    {
        let mut j: usize = 0;
        proof {
            assert(pairs_from(lists@, i as int) == pairs_row(lists@, i as int, 0) + pairs_from(
                lists@,
                i + 1 as int,
            ));
            assert(subset_pairs_spec(lists@) =~= subset_reports_view(out@) + pairs_row(
                lists@,
                i as int,
                0,
            ) + pairs_from(lists@, i + 1 as int));
        }
        while j < n
            invariant
                j <= n,
                i < n,
                n == lists@.len(),
                subset_pairs_spec(lists@) == subset_reports_view(out@) + pairs_row(
                    lists@,
                    i as int,
                    j as int,
                ) + pairs_from(lists@, i + 1 as int),
            decreases n - j,
        {
            let ghost before = out@;
            if i != j && lists[i].domains.is_subset(&lists[j].domains) {
                let subset_name = lists[i].name.clone();
                let superset_name = lists[j].name.clone();
                out.push(SubsetReport { subset_name, superset_name });
                proof {
                    assert(subset_reports_view(out@) =~= subset_reports_view(before).push(
                        (lists@[i as int].name@, lists@[j as int].name@),
                    ));
                }
            }
            proof {
                assert(subset_pairs_spec(lists@) =~= subset_reports_view(out@) + pairs_row(
                    lists@,
                    i as int,
                    j + 1 as int,
                ) + pairs_from(lists@, i + 1 as int));
            }
            j = j + 1;
        }
        proof {
            assert(pairs_row(lists@, i as int, n as int) =~= Seq::<(Seq<char>, Seq<char>)>::empty());
            assert(subset_pairs_spec(lists@) =~= subset_reports_view(out@) + pairs_from(
                lists@,
                i + 1 as int,
            ));
        }
        i = i + 1;
    }
    proof {
        assert(pairs_from(lists@, n as int) =~= Seq::<(Seq<char>, Seq<char>)>::empty());
        assert(subset_reports_view(out@) =~= subset_pairs_spec(lists@));
    }
    out
}

proof fn lemma_pairs_row_contains(ls: Seq<NamedDomainSet>, i: int, j0: int, j: int)
    requires
        0 <= i < ls.len(),
        0 <= j0 <= j < ls.len(),
        i != j,
        ls[i].domains@.subset_of(ls[j].domains@),
    ensures
        pairs_row(ls, i, j0).contains((ls[i].name@, ls[j].name@)),
    decreases j - j0,
{
    if j0 == j {
        assert(pairs_row(ls, i, j0)[0] == (ls[i].name@, ls[j].name@));
    } else {
        lemma_pairs_row_contains(ls, i, j0 + 1, j);
        let tail = pairs_row(ls, i, j0 + 1);
        let idx = choose|idx: int| 0 <= idx < tail.len() && tail[idx] == (ls[i].name@, ls[j].name@);
        let head = pairs_row(ls, i, j0);
        if i != j0 && ls[i].domains@.subset_of(ls[j0].domains@) {
            assert(head[idx + 1] == (ls[i].name@, ls[j].name@));
        } else {
            assert(head[idx] == (ls[i].name@, ls[j].name@));
        }
    }
}

proof fn lemma_pairs_from_contains(ls: Seq<NamedDomainSet>, i0: int, i: int, j: int)
    requires
        0 <= i0 <= i < ls.len(),
        0 <= j < ls.len(),
        i != j,
        ls[i].domains@.subset_of(ls[j].domains@),
    ensures
        pairs_from(ls, i0).contains((ls[i].name@, ls[j].name@)),
    decreases i - i0,
{
    if i0 == i {
        lemma_pairs_row_contains(ls, i, 0, j);
        let row = pairs_row(ls, i, 0);
        let idx = choose|idx: int| 0 <= idx < row.len() && row[idx] == (ls[i].name@, ls[j].name@);
        assert(pairs_from(ls, i0)[idx] == (ls[i].name@, ls[j].name@));
    } else {
        lemma_pairs_from_contains(ls, i0 + 1, i, j);
        let tail = pairs_from(ls, i0 + 1);
        let idx = choose|idx: int| 0 <= idx < tail.len() && tail[idx] == (ls[i].name@, ls[j].name@);
        assert(pairs_from(ls, i0)[pairs_row(ls, i0, 0).len() + idx] == (ls[i].name@, ls[j].name@));
    }
}

/// A subset relation at any two distinct positions is always
/// reported; two lists with the same contents are in particular each
/// reported a subset of the other.
pub proof fn lemma_subset_reported(ls: Seq<NamedDomainSet>, i: int, j: int)
    requires
        0 <= i < ls.len(),
        0 <= j < ls.len(),
        i != j,
        ls[i].domains@.subset_of(ls[j].domains@),
    ensures
        subset_pairs_spec(ls).contains((ls[i].name@, ls[j].name@)),
{
    lemma_pairs_from_contains(ls, 0, i, j);
}

} // verus!
