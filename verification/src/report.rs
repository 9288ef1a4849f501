//! Grouping of hash results into duplicate groups.
//!
//! Results are aggregated into one entry per distinct digest, in
//! first-occurrence order; only entries with at least two paths — true
//! duplicates — are retained for the report. Serializing the retained
//! entries and writing them to the report file is the caller's part.

use vstd::prelude::*;

use crate::names_view;
use crate::processor::HashResult;

verus! {

/// One group of the duplicate report: a digest and the paths of the files
/// whose content hashes to it.
#[derive(Debug)]
pub struct ReportEntry {
    pub hash: String,
    pub files: Vec<String>,
}

/// The digests of a list of report entries, in order.
pub open spec fn hashes_of(es: Seq<ReportEntry>) -> Seq<Seq<char>> {
    es.map_values(|e: ReportEntry| e.hash@)
}

/// The paths among the results whose digest is `d`, in result order.
pub open spec fn paths_with(rs: Seq<HashResult>, d: Seq<char>) -> Seq<Seq<char>>
    decreases rs.len(),
{
    if rs.len() == 0 {
        Seq::empty()
    } else {
        paths_with(rs.drop_last(), d) + (if rs.last().digest@ == d {
            seq![rs.last().path@]
        } else {
            Seq::empty()
        })
    }
}

/// The distinct digests among the results, in first-occurrence order.
pub open spec fn digests_dedup(rs: Seq<HashResult>) -> Seq<Seq<char>>
    decreases rs.len(),
{
    if rs.len() == 0 {
        Seq::empty()
    } else {
        let rest = digests_dedup(rs.drop_last());
        if rest.contains(rs.last().digest@) {
            rest
        } else {
            rest.push(rs.last().digest@)
        }
    }
}

/// A digest that the results never mention has no paths.
proof fn lemma_no_digest_no_paths(rs: Seq<HashResult>, d: Seq<char>)
    requires
        !digests_dedup(rs).contains(d),
    ensures
        paths_with(rs, d).len() == 0,
    decreases rs.len(),
{
    if rs.len() > 0 {
        let rest = digests_dedup(rs.drop_last());
        if rest.contains(rs.last().digest@) {
            assert(rs.last().digest@ != d);
        } else {
            assert(!rest.contains(d)) by {
                if rest.contains(d) {
                    let k = choose|k: int| 0 <= k < rest.len() && rest[k] == d;
                    assert(rest.push(rs.last().digest@)[k] == d);
                }
            }
            assert(rs.last().digest@ != d) by {
                if rs.last().digest@ == d {
                    assert(rest.push(rs.last().digest@)[rest.len() as int] == d);
                }
            }
        }
        lemma_no_digest_no_paths(rs.drop_last(), d);
    }
}

/// The distinct digests are pairwise different.
proof fn lemma_dedup_distinct(rs: Seq<HashResult>)
    ensures
        forall|i: int, j: int|
            0 <= i < j < digests_dedup(rs).len() ==> #[trigger] digests_dedup(rs)[i]
                != #[trigger] digests_dedup(rs)[j],
    decreases rs.len(),
{
    if rs.len() > 0 {
        lemma_dedup_distinct(rs.drop_last());
        let rest = digests_dedup(rs.drop_last());
        if !rest.contains(rs.last().digest@) {
            let pushed = rest.push(rs.last().digest@);
            assert forall|i: int, j: int|
                0 <= i < j < pushed.len() implies #[trigger] pushed[i] != #[trigger] pushed[j] by {
                if j == rest.len() {
                    if pushed[i] == rs.last().digest@ {
                        assert(rest[i] == rs.last().digest@);
                        assert(rest.contains(rs.last().digest@));
                    }
                } else {
                    assert(pushed[i] == rest[i] && pushed[j] == rest[j]);
                }
            }
        }
    }
}

/// Finds the entry whose digest equals `digest`, if one exists.
fn find_group(groups: &Vec<ReportEntry>, digest: &String) -> (r: Option<usize>)
    ensures
        match r {
            Some(k) => k < groups@.len() && groups@[k as int].hash@ == digest@,
            None => !hashes_of(groups@).contains(digest@),
        },
{
    let mut k: usize = 0;
    while k < groups.len()
        invariant
            k <= groups@.len(),
            forall|m: int| 0 <= m < k ==> groups@[m].hash@ != digest@,
        decreases groups@.len() - k,
    {
        if groups[k].hash == *digest {
            return Some(k);
        }
        k = k + 1;
    }
    proof {
        if hashes_of(groups@).contains(digest@) {
            let m = choose|m: int|
                0 <= m < hashes_of(groups@).len() && hashes_of(groups@)[m] == digest@;
            assert(groups@[m].hash@ == digest@);
        }
    }
    None
}

/// Groups hash results by digest: one entry per distinct digest, in
/// first-occurrence order; an entry's files are exactly the paths carrying
/// that digest, in input order.
pub fn group_by_digest(results: &Vec<HashResult>) -> (r: Vec<ReportEntry>)
    ensures
        hashes_of(r@) == digests_dedup(results@),
        forall|k: int|
            0 <= k < r@.len() ==> names_view(#[trigger] r@[k].files@) == paths_with(
                results@,
                r@[k].hash@,
            ),
{
    let mut groups: Vec<ReportEntry> = Vec::new();
    let mut i: usize = 0;
    while i < results.len()
        invariant
            i <= results@.len(),
            hashes_of(groups@) == digests_dedup(results@.subrange(0, i as int)),
            forall|k: int|
                0 <= k < groups@.len() ==> names_view(#[trigger] groups@[k].files@) == paths_with(
                    results@.subrange(0, i as int),
                    groups@[k].hash@,
                ),
        decreases results@.len() - i,
    {
        let ghost pre = results@.subrange(0, i as int);
        let ghost post = results@.subrange(0, i as int + 1);
        let ghost d = results@[i as int].digest@;
        proof {
            assert(post.drop_last() =~= pre);
            assert(post.last() == results@[i as int]);
            lemma_dedup_distinct(pre);
        }
        let found = find_group(&groups, &results[i].digest);
        match found {
            Some(k) => {
                let ghost old_groups = groups@;
                let mut e = groups.remove(k);
                e.files.push(results[i].path.clone());
                groups.insert(k, e);
                proof {
                    assert(groups@ =~= old_groups.update(k as int, e));
                    assert(hashes_of(groups@) =~= hashes_of(old_groups));
                    assert(digests_dedup(pre).contains(d)) by {
                        assert(hashes_of(old_groups)[k as int] == d);
                    }
                    assert(digests_dedup(post) == digests_dedup(pre));
                    assert forall|m: int|
                        0 <= m < groups@.len() implies names_view(#[trigger] groups@[m].files@)
                        == paths_with(post, groups@[m].hash@) by {
                        if m == k {
                            assert(names_view(groups@[m].files@) =~= names_view(
                                old_groups[m].files@,
                            ).push(results@[i as int].path@));
                            assert(paths_with(post, d) =~= paths_with(pre, d).push(
                                results@[i as int].path@,
                            ));
                        } else {
                            assert(groups@[m] == old_groups[m]);
                            assert(groups@[m].hash@ != d) by {
                                assert(hashes_of(old_groups)[m] == old_groups[m].hash@);
                                assert(hashes_of(old_groups)[k as int] == d);
                            }
                            assert(paths_with(post, groups@[m].hash@) =~= paths_with(
                                pre,
                                groups@[m].hash@,
                            ));
                        }
                    }
                }
            },
            None => {
                let mut fs: Vec<String> = Vec::new();
                fs.push(results[i].path.clone());
                let ghost old_groups = groups@;
                groups.push(ReportEntry { hash: results[i].digest.clone(), files: fs });
                proof {
                    lemma_no_digest_no_paths(pre, d);
                    assert(hashes_of(groups@) =~= hashes_of(old_groups).push(d));
                    assert(digests_dedup(post) == digests_dedup(pre).push(d));
                    assert forall|m: int|
                        0 <= m < groups@.len() implies names_view(#[trigger] groups@[m].files@)
                        == paths_with(post, groups@[m].hash@) by {
                        if m == old_groups.len() {
                            assert(names_view(groups@[m].files@) =~= Seq::<
                                Seq<char>,
                            >::empty().push(results@[i as int].path@));
                            assert(paths_with(post, d) =~= paths_with(pre, d).push(
                                results@[i as int].path@,
                            ));
                        } else {
                            assert(groups@[m] == old_groups[m]);
                            assert(groups@[m].hash@ != d) by {
                                assert(hashes_of(old_groups)[m] == old_groups[m].hash@);
                                assert(hashes_of(old_groups).contains(old_groups[m].hash@));
                            }
                            assert(paths_with(post, groups@[m].hash@) =~= paths_with(
                                pre,
                                groups@[m].hash@,
                            ));
                        }
                    }
                }
            },
        }
        i = i + 1;
    }
    proof {
        assert(results@.subrange(0, results@.len() as int) =~= results@);
    }
    groups
}

/// Of the given digests, those whose results carry at least two paths, in
/// order.
pub open spec fn keep_dup_digests(ds: Seq<Seq<char>>, rs: Seq<HashResult>) -> Seq<Seq<char>>
    decreases ds.len(),
{
    if ds.len() == 0 {
        Seq::empty()
    } else {
        (if paths_with(rs, ds.first()).len() >= 2 {
            seq![ds.first()]
        } else {
            Seq::empty()
        }) + keep_dup_digests(ds.drop_first(), rs)
    }
}

/// The digests shared by two or more files, in first-occurrence order.
pub open spec fn dup_digests(rs: Seq<HashResult>) -> Seq<Seq<char>> {
    keep_dup_digests(digests_dedup(rs), rs)
}

proof fn lemma_keep_dup_contains(ds: Seq<Seq<char>>, rs: Seq<HashResult>, d: Seq<char>)
    requires
        ds.contains(d),
        paths_with(rs, d).len() >= 2,
    ensures
        keep_dup_digests(ds, rs).contains(d),
    decreases ds.len(),
{
    if ds.first() == d {
        assert(keep_dup_digests(ds, rs)[0] == d);
    } else {
        let k = choose|k: int| 0 <= k < ds.len() && ds[k] == d;
        assert(ds.drop_first()[k - 1] == d);
        assert(ds.drop_first().contains(d));
        lemma_keep_dup_contains(ds.drop_first(), rs, d);
        let rest = keep_dup_digests(ds.drop_first(), rs);
        let m = choose|m: int| 0 <= m < rest.len() && rest[m] == d;
        if paths_with(rs, ds.first()).len() >= 2 {
            assert(keep_dup_digests(ds, rs)[m + 1] == d);
        } else {
            assert(keep_dup_digests(ds, rs)[m] == d);
        }
    }
}

/// Law: a digest that two or more files carry always appears in the
/// report's digests, whatever else the input holds.
pub proof fn lemma_duplicated_digest_reported(rs: Seq<HashResult>, d: Seq<char>)
    requires
        paths_with(rs, d).len() >= 2,
    ensures
        dup_digests(rs).contains(d),
{
    if !digests_dedup(rs).contains(d) {
        lemma_no_digest_no_paths(rs, d);
    }
    lemma_keep_dup_contains(digests_dedup(rs), rs, d);
}

proof fn lemma_keep_dup_distinct(ds: Seq<Seq<char>>, rs: Seq<HashResult>)
    requires
        forall|i: int, j: int| 0 <= i < j < ds.len() ==> ds[i] != ds[j],
    ensures
        forall|i: int, j: int|
            0 <= i < j < keep_dup_digests(ds, rs).len() ==> #[trigger] keep_dup_digests(ds, rs)[i]
                != #[trigger] keep_dup_digests(ds, rs)[j],
        forall|x: Seq<char>| keep_dup_digests(ds, rs).contains(x) ==> #[trigger] ds.contains(x),
    decreases ds.len(),
{
    if ds.len() > 0 {
        let tail = ds.drop_first();
        assert forall|i: int, j: int| 0 <= i < j < tail.len() implies tail[i] != tail[j] by {
            assert(tail[i] == ds[i + 1] && tail[j] == ds[j + 1]);
        }
        lemma_keep_dup_distinct(tail, rs);
        let kept = keep_dup_digests(ds, rs);
        let rest = keep_dup_digests(tail, rs);
        assert forall|x: Seq<char>| kept.contains(x) implies ds.contains(x) by {
            let k = choose|k: int| 0 <= k < kept.len() && kept[k] == x;
            if paths_with(rs, ds.first()).len() >= 2 && k == 0 {
                assert(ds[0] == x);
            } else {
                let off: int = if paths_with(rs, ds.first()).len() >= 2 {
                    1
                } else {
                    0
                };
                assert(rest[k - off] == x);
                assert(rest.contains(x));
                assert(tail.contains(x));
                let m = choose|m: int| 0 <= m < tail.len() && tail[m] == x;
                assert(ds[m + 1] == x);
            }
        }
        assert forall|i: int, j: int|
            0 <= i < j < kept.len() implies #[trigger] kept[i] != #[trigger] kept[j] by {
            let off: int = if paths_with(rs, ds.first()).len() >= 2 {
                1
            } else {
                0
            };
            if off == 1 && i == 0 {
                assert(kept[0] == ds.first());
                assert(rest[j - 1] == kept[j]);
                assert(rest.contains(kept[j]));
                assert(tail.contains(kept[j]));
                if kept[j] == ds.first() {
                    let m = choose|m: int| 0 <= m < tail.len() && tail[m] == ds.first();
                    assert(ds[m + 1] == ds[0]);
                }
            } else {
                assert(kept[i] == rest[i - off] && kept[j] == rest[j - off]);
            }
        }
    }
}

/// Law: every path of a group is the path of some hash result carrying the
/// group's digest — the report never invents a path, and a file that
/// yielded no hash result never appears in any group.
pub proof fn lemma_group_paths_from_results(rs: Seq<HashResult>, d: Seq<char>, p: Seq<char>)
    requires
        paths_with(rs, d).contains(p),
    ensures
        exists|k: int| 0 <= k < rs.len() && (#[trigger] rs[k]).path@ == p && rs[k].digest@ == d,
    decreases rs.len(),
{
    if rs.len() > 0 {
        let pre = paths_with(rs.drop_last(), d);
        let idx = choose|idx: int|
            0 <= idx < paths_with(rs, d).len() && paths_with(rs, d)[idx] == p;
        if idx < pre.len() {
            assert(pre[idx] == p);
            assert(pre.contains(p));
            lemma_group_paths_from_results(rs.drop_last(), d, p);
            let k = choose|k: int|
                0 <= k < rs.drop_last().len() && (#[trigger] rs.drop_last()[k]).path@ == p
                    && rs.drop_last()[k].digest@ == d;
            assert(rs[k] == rs.drop_last()[k]);
        } else {
            assert(rs.last().digest@ == d && rs.last().path@ == p);
            assert(rs[rs.len() - 1] == rs.last());
        }
    }
}

/// Law: no digest heads two entries of the report.
pub proof fn lemma_report_digests_distinct(rs: Seq<HashResult>)
    ensures
        forall|i: int, j: int|
            0 <= i < j < dup_digests(rs).len() ==> #[trigger] dup_digests(rs)[i]
                != #[trigger] dup_digests(rs)[j],
{
    lemma_dedup_distinct(rs);
    lemma_keep_dup_distinct(digests_dedup(rs), rs);
}

/// Builds the duplicate report from a batch of hash results: one entry per
/// digest shared by at least two files, in first-occurrence order, whose
/// files are exactly the paths carrying that digest, in input order. No
/// entry with fewer than two files appears; a digest occurring exactly
/// once is omitted entirely.
pub fn duplicate_groups(results: &Vec<HashResult>) -> (r: Vec<ReportEntry>)
    ensures
        hashes_of(r@) == dup_digests(results@),
        forall|k: int|
            0 <= k < r@.len() ==> names_view(#[trigger] r@[k].files@) == paths_with(
                results@,
                r@[k].hash@,
            ),
        forall|k: int| 0 <= k < r@.len() ==> (#[trigger] r@[k].files@).len() >= 2,
        results@.len() == 0 ==> r@.len() == 0,
{
    let mut rem = group_by_digest(results);
    let mut out: Vec<ReportEntry> = Vec::new();
    proof {
        assert(out@ =~= Seq::<ReportEntry>::empty());
        assert(hashes_of(out@) =~= Seq::<Seq<char>>::empty());
    }
    while rem.len() > 0
        invariant
            hashes_of(out@) + keep_dup_digests(hashes_of(rem@), results@) == dup_digests(results@),
            forall|k: int|
                0 <= k < rem@.len() ==> names_view(#[trigger] rem@[k].files@) == paths_with(
                    results@,
                    rem@[k].hash@,
                ),
            forall|k: int|
                0 <= k < out@.len() ==> names_view(#[trigger] out@[k].files@) == paths_with(
                    results@,
                    out@[k].hash@,
                ),
            forall|k: int| 0 <= k < out@.len() ==> (#[trigger] out@[k].files@).len() >= 2,
        decreases rem@.len(),
    {
        let ghost old_rem = rem@;
        let ghost old_out = out@;
        let e = rem.remove(0);
        proof {
            assert(rem@ =~= old_rem.drop_first());
            assert(hashes_of(rem@) =~= hashes_of(old_rem).drop_first());
            assert(hashes_of(old_rem).first() == e.hash@);
            assert(names_view(e.files@).len() == e.files@.len());
        }
        if e.files.len() >= 2 {
            out.push(e);
            proof {
                assert(hashes_of(out@) =~= hashes_of(old_out).push(e.hash@));
                assert(hashes_of(old_out).push(e.hash@) + keep_dup_digests(
                    hashes_of(rem@),
                    results@,
                ) =~= hashes_of(old_out) + keep_dup_digests(hashes_of(old_rem), results@));
            }
        } else {
            proof {
                assert(hashes_of(old_out) + keep_dup_digests(hashes_of(rem@), results@)
                    =~= hashes_of(old_out) + keep_dup_digests(hashes_of(old_rem), results@));
            }
        }
    }
    proof {
        assert(hashes_of(rem@) =~= Seq::<Seq<char>>::empty());
        assert(hashes_of(out@) + keep_dup_digests(hashes_of(rem@), results@) =~= hashes_of(out@));
        if results@.len() == 0 {
            assert(digests_dedup(results@) =~= Seq::<Seq<char>>::empty());
            assert(hashes_of(out@).len() == out@.len());
        }
    }
    out
}

} // verus!
