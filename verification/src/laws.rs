//! Laws of the aggregation engine, proved once and for all inputs: exact
//! dedup of equal normalized versions, per-name merging across manifests
//! and fields, and the shape of every final report.

use vstd::prelude::*;
use crate::version::spec_clean_version;
use crate::parser::{
    Record, GroupV, DeclV, rec_of, find_group, lemma_find_group, lemma_find_group_unique,
    lookup_records, spec_has_version, spec_insert, spec_process, spec_process_all, spec_keep_bad,
    spec_aggregate_manifests, spec_all_decls, unique_names, lemma_process_all_snoc,
    lemma_keep_bad_push,
};

verus! {

/// After an insertion, the inserted record's version is present.
proof fn lemma_insert_has_version(records: Seq<Record>, rec: Record)
    ensures
        spec_has_version(spec_insert(records, rec), rec.version),
{
    if spec_has_version(records, rec.version) {
    } else if records.len() > 0 && spec_insert(records, rec) == records.insert(0, rec) {
        assert(records.insert(0, rec)[0] == rec);
    } else {
        assert(records.push(rec)[records.len() as int] == rec);
    }
}

/// Declaring the same name twice with version strings that normalize to
/// the same value changes nothing the second time: one record per
/// distinct normalized version, first seen wins.
pub proof fn lemma_exact_dedup(
    groups: Seq<GroupV>,
    name: Seq<char>,
    u: Seq<char>,
    w: Seq<char>,
    p1: Seq<char>,
    p2: Seq<char>,
)
    requires
        spec_clean_version(u) == spec_clean_version(w),
    ensures
        spec_process(spec_process(groups, name, u, p1), name, w, p2) == spec_process(
            groups,
            name,
            u,
            p1,
        ),
{
    let g1 = spec_process(groups, name, u, p1);
    let rec1 = Record { name, version: spec_clean_version(u), path: p1 };
    let rec2 = Record { name, version: spec_clean_version(w), path: p2 };
    let k = find_group(groups, name);
    lemma_find_group(groups, name);
    if k == groups.len() {
        assert(g1 == groups.push(GroupV { name, records: spec_insert(Seq::empty(), rec1) }));
        assert(g1[k].name == name);
        lemma_find_group_unique(g1, name, k);
        lemma_insert_has_version(Seq::empty(), rec1);
        assert(spec_has_version(g1[k].records, rec2.version));
    } else {
        assert(g1 == groups.update(
            k,
            GroupV { name: groups[k].name, records: spec_insert(groups[k].records, rec1) },
        ));
        assert(forall|j: int| 0 <= j < g1.len() ==> (#[trigger] g1[j]).name == groups[j].name);
        lemma_find_group_unique(g1, name, k);
        lemma_insert_has_version(groups[k].records, rec1);
        assert(spec_has_version(g1[k].records, rec2.version));
    }
    assert(spec_insert(g1[k].records, rec2) == g1[k].records);
    assert(spec_process(g1, name, w, p2) == g1.update(
        k,
        GroupV { name: g1[k].name, records: g1[k].records },
    ));
    assert(GroupV { name: g1[k].name, records: g1[k].records } == g1[k]);
    assert(g1.update(k, g1[k]) =~= g1);
}

/// The declarations of `ds` that carry `name`, in order.
pub open spec fn decls_named(ds: Seq<DeclV>, name: Seq<char>) -> Seq<DeclV> {
    ds.filter(|d: DeclV| d.name == name)
}

/// Declarations folded into one name's record sequence, in order.
pub open spec fn spec_insert_all(records: Seq<Record>, ds: Seq<DeclV>) -> Seq<Record>
    decreases ds.len(),
{
    if ds.len() == 0 {
        records
    } else {
        spec_insert_all(spec_insert(records, rec_of(ds[0])), ds.drop_first())
    }
}

proof fn lemma_insert_all_snoc(records: Seq<Record>, ds: Seq<DeclV>, d: DeclV)
    ensures
        spec_insert_all(records, ds.push(d)) == spec_insert(spec_insert_all(records, ds), rec_of(d)),
    decreases ds.len(),
{
    if ds.len() == 0 {
        assert(ds.push(d)[0] == d);
        assert(ds.push(d).drop_first() =~= Seq::<DeclV>::empty());
        assert(spec_insert_all(spec_insert(records, rec_of(d)), Seq::<DeclV>::empty())
            == spec_insert(records, rec_of(d)));
        assert(spec_insert_all(records, Seq::<DeclV>::empty()) == records);
    } else {
        assert(ds.push(d)[0] == ds[0]);
        assert(ds.push(d).drop_first() =~= ds.drop_first().push(d));
        lemma_insert_all_snoc(spec_insert(records, rec_of(ds[0])), ds.drop_first(), d);
    }
}

proof fn lemma_decls_named_push(ds: Seq<DeclV>, d: DeclV, name: Seq<char>)
    ensures
        decls_named(ds.push(d), name) == if d.name == name {
            decls_named(ds, name).push(d)
        } else {
            decls_named(ds, name)
        },
{
    reveal(Seq::filter);
    assert(ds.push(d).drop_last() =~= ds);
    assert(ds.push(d).last() == d);
}

/// Processing a declaration of another name leaves a name's records
/// untouched.
proof fn lemma_process_other_name(
    groups: Seq<GroupV>,
    name2: Seq<char>,
    raw: Seq<char>,
    path: Seq<char>,
    name: Seq<char>,
)
    requires
        name2 != name,
    ensures
        lookup_records(spec_process(groups, name2, raw, path), name) == lookup_records(
            groups,
            name,
        ),
{
    let g1 = spec_process(groups, name2, raw, path);
    let k2 = find_group(groups, name2);
    let k = find_group(groups, name);
    lemma_find_group(groups, name2);
    lemma_find_group(groups, name);
    if k2 == groups.len() {
        assert(g1[g1.len() - 1].name == name2);
        if k == groups.len() {
            lemma_find_group_unique(g1, name, g1.len() as int);
        } else {
            lemma_find_group_unique(g1, name, k);
        }
    } else {
        assert(forall|j: int| 0 <= j < g1.len() ==> (#[trigger] g1[j]).name == groups[j].name);
        lemma_find_group_unique(g1, name, k);
        if k < groups.len() {
            assert(k != k2);
            assert(g1[k] == groups[k]);
        }
    }
}

/// The records a name holds before a new declaration of it is processed:
/// its current sequence, or the empty one for a new name.
pub open spec fn records_so_far(groups: Seq<GroupV>, name: Seq<char>) -> Seq<Record> {
    match lookup_records(groups, name) {
        Some(records) => records,
        None => Seq::empty(),
    }
}

/// Processing a declaration of `name` inserts its record into exactly
/// that name's sequence.
proof fn lemma_process_same_name(
    groups: Seq<GroupV>,
    name: Seq<char>,
    raw: Seq<char>,
    path: Seq<char>,
)
    ensures
        lookup_records(spec_process(groups, name, raw, path), name) == Some(
            spec_insert(
                records_so_far(groups, name),
                Record { name, version: spec_clean_version(raw), path },
            ),
        ),
{
    let g1 = spec_process(groups, name, raw, path);
    let k = find_group(groups, name);
    lemma_find_group(groups, name);
    if k == groups.len() {
        assert(g1 == groups.push(
            GroupV {
                name,
                records: spec_insert(
                    Seq::empty(),
                    Record { name, version: spec_clean_version(raw), path },
                ),
            },
        ));
        assert(g1[k].name == name);
        lemma_find_group_unique(g1, name, k);
    } else {
        assert(forall|j: int| 0 <= j < g1.len() ==> (#[trigger] g1[j]).name == groups[j].name);
        lemma_find_group_unique(g1, name, k);
    }
}

/// Cross-manifest, cross-field merge: in the aggregate every name's
/// sequence is exactly the fold, in arrival order, of all declarations of
/// that name — wherever and under whichever field they were declared —
/// and a name appears at all exactly when some declaration carries it.
pub proof fn lemma_merge_by_name(ds: Seq<DeclV>, name: Seq<char>)
    ensures
        lookup_records(spec_process_all(Seq::empty(), ds), name) == if decls_named(ds, name).len()
            == 0 {
            None::<Seq<Record>>
        } else {
            Some(spec_insert_all(Seq::empty(), decls_named(ds, name)))
        },
    decreases ds.len(),
{
    reveal(Seq::filter);
    if ds.len() == 0 {
        assert(spec_process_all(Seq::empty(), ds) == Seq::<GroupV>::empty());
        assert(find_group(Seq::<GroupV>::empty(), name) == 0);
    } else {
        let ds0 = ds.drop_last();
        let d = ds.last();
        assert(ds =~= ds0.push(d));
        lemma_merge_by_name(ds0, name);
        lemma_process_all_snoc(Seq::empty(), ds0, d);
        let prev = spec_process_all(Seq::empty(), ds0);
        assert(spec_process_all(Seq::empty(), ds) == spec_process(prev, d.name, d.raw, d.path));
        lemma_decls_named_push(ds0, d, name);
        if d.name == name {
            lemma_process_same_name(prev, name, d.raw, d.path);
            lemma_insert_all_snoc(Seq::empty(), decls_named(ds0, name), d);
            assert(rec_of(d) == (Record { name, version: spec_clean_version(d.raw), path: d.path }));
            if decls_named(ds0, name).len() == 0 {
                assert(records_so_far(prev, name) == Seq::<Record>::empty());
                assert(spec_insert_all(Seq::<Record>::empty(), Seq::<DeclV>::empty())
                    == Seq::<Record>::empty());
            }
        } else {
            lemma_process_other_name(prev, d.name, d.raw, d.path, name);
        }
    }
}

/// No two records of one name's sequence carry the same version string.
pub open spec fn distinct_versions(records: Seq<Record>) -> bool {
    forall|i: int, j: int|
        0 <= i < j < records.len() ==> (#[trigger] records[i]).version != (
        #[trigger] records[j]).version
}

/// Every group of the aggregate has pairwise-distinct versions.
pub open spec fn all_groups_distinct(groups: Seq<GroupV>) -> bool {
    forall|k: int| 0 <= k < groups.len() ==> distinct_versions((#[trigger] groups[k]).records)
}

proof fn lemma_insert_distinct(records: Seq<Record>, rec: Record)
    requires
        distinct_versions(records),
    ensures
        distinct_versions(spec_insert(records, rec)),
{
    if spec_has_version(records, rec.version) {
    } else {
        assert(forall|i: int| 0 <= i < records.len() ==> (#[trigger] records[i]).version
            != rec.version);
        let out = spec_insert(records, rec);
        if records.len() > 0 && out == records.insert(0, rec) {
            assert forall|i: int, j: int| 0 <= i < j < out.len() implies (#[trigger] out[i]).version
                != (#[trigger] out[j]).version by {
                if i == 0 {
                    assert(out[j] == records[j - 1]);
                } else {
                    assert(out[i] == records[i - 1]);
                    assert(out[j] == records[j - 1]);
                }
            }
        } else {
            assert(out == records.push(rec));
        }
    }
}

proof fn lemma_process_distinct(groups: Seq<GroupV>, name: Seq<char>, raw: Seq<char>, path: Seq<char>)
    requires
        all_groups_distinct(groups),
    ensures
        all_groups_distinct(spec_process(groups, name, raw, path)),
{
    let rec = Record { name, version: spec_clean_version(raw), path };
    let k = find_group(groups, name);
    lemma_find_group(groups, name);
    if k == groups.len() {
        lemma_insert_distinct(Seq::empty(), rec);
    } else {
        lemma_insert_distinct(groups[k].records, rec);
    }
}

proof fn lemma_process_unique(groups: Seq<GroupV>, name: Seq<char>, raw: Seq<char>, path: Seq<char>)
    requires
        unique_names(groups),
    ensures
        unique_names(spec_process(groups, name, raw, path)),
{
    let k = find_group(groups, name);
    lemma_find_group(groups, name);
}

proof fn lemma_process_all_shape(groups: Seq<GroupV>, ds: Seq<DeclV>)
    requires
        unique_names(groups),
        all_groups_distinct(groups),
    ensures
        unique_names(spec_process_all(groups, ds)),
        all_groups_distinct(spec_process_all(groups, ds)),
    decreases ds.len(),
{
    if ds.len() > 0 {
        lemma_process_unique(groups, ds[0].name, ds[0].raw, ds[0].path);
        lemma_process_distinct(groups, ds[0].name, ds[0].raw, ds[0].path);
        lemma_process_all_shape(
            spec_process(groups, ds[0].name, ds[0].raw, ds[0].path),
            ds.drop_first(),
        );
    }
}

/// Every group the selector keeps stands somewhere in the input.
proof fn lemma_keep_bad_sub(groups: Seq<GroupV>, igs: Seq<Seq<char>>)
    ensures
        forall|i: int|
            0 <= i < spec_keep_bad(groups, igs).len() ==> exists|j: int|
                0 <= j < groups.len() && groups[j] == #[trigger] spec_keep_bad(groups, igs)[i],
    decreases groups.len(),
{
    if groups.len() == 0 {
        reveal(Seq::filter);
    } else {
        let butlast = groups.drop_last();
        let last = groups.last();
        assert(groups =~= butlast.push(last));
        lemma_keep_bad_sub(butlast, igs);
        lemma_keep_bad_push(butlast, last, igs);
        let out = spec_keep_bad(groups, igs);
        let kept = spec_keep_bad(butlast, igs);
        assert forall|i: int| 0 <= i < out.len() implies exists|j: int|
            0 <= j < groups.len() && groups[j] == #[trigger] out[i] by {
            if i < kept.len() {
                assert(out[i] == kept[i]);
                let j = choose|j: int| 0 <= j < butlast.len() && butlast[j] == kept[i];
                assert(0 <= j < groups.len() && groups[j] == out[i]);
            } else {
                assert(out[i] == last);
                assert(groups[groups.len() - 1] == out[i]);
            }
        }
    }
}

proof fn lemma_keep_bad_unique(groups: Seq<GroupV>, igs: Seq<Seq<char>>)
    requires
        unique_names(groups),
    ensures
        unique_names(spec_keep_bad(groups, igs)),
    decreases groups.len(),
{
    if groups.len() == 0 {
        reveal(Seq::filter);
    } else {
        let butlast = groups.drop_last();
        let last = groups.last();
        assert(groups =~= butlast.push(last));
        assert(unique_names(butlast)) by {
            assert(forall|i: int| 0 <= i < butlast.len() ==> butlast[i] == groups[i]);
        }
        lemma_keep_bad_unique(butlast, igs);
        lemma_keep_bad_sub(butlast, igs);
        lemma_keep_bad_push(butlast, last, igs);
        let out = spec_keep_bad(groups, igs);
        let kept = spec_keep_bad(butlast, igs);
        assert forall|i: int, j: int| 0 <= i < j < out.len() implies (#[trigger] out[i]).name != (
        #[trigger] out[j]).name by {
            if j == kept.len() {
                assert(out[i] == kept[i]);
                assert(out[j] == last);
                let x = choose|x: int| 0 <= x < butlast.len() && butlast[x] == kept[i];
                assert(groups[x] == kept[i]);
                assert(groups[groups.len() - 1] == last);
            } else {
                assert(out[i] == kept[i]);
                assert(out[j] == kept[j]);
            }
        }
    }
}

proof fn lemma_keep_bad_distinct(groups: Seq<GroupV>, igs: Seq<Seq<char>>)
    requires
        all_groups_distinct(groups),
    ensures
        all_groups_distinct(spec_keep_bad(groups, igs)),
{
    lemma_keep_bad_sub(groups, igs);
    let out = spec_keep_bad(groups, igs);
    assert forall|k: int| 0 <= k < out.len() implies distinct_versions(
        (#[trigger] out[k]).records,
    ) by {
        let j = choose|j: int| 0 <= j < groups.len() && groups[j] == out[k];
        assert(distinct_versions(groups[j].records));
    }
}

/// The shape of every final report, whatever the manifests and ignore
/// list: each surviving name appears once, was not ignored, kept more
/// than one distinct version, and no version repeats inside a group.
pub proof fn lemma_report_wellformed(ms: Seq<(Seq<char>, Seq<char>)>, igs: Seq<Seq<char>>)
    ensures
        ({
            let report = spec_keep_bad(spec_aggregate_manifests(ms), igs);
            &&& unique_names(report)
            &&& all_groups_distinct(report)
            &&& forall|k: int|
                0 <= k < report.len() ==> (#[trigger] report[k]).records.len() > 1 && !igs.contains(
                    report[k].name,
                )
        }),
{
    broadcast use vstd::seq_lib::group_filter_ensures;

    lemma_process_all_shape(Seq::empty(), spec_all_decls(ms));
    let agg = spec_aggregate_manifests(ms);
    lemma_keep_bad_unique(agg, igs);
    lemma_keep_bad_distinct(agg, igs);
    let report = spec_keep_bad(agg, igs);
    assert forall|k: int| 0 <= k < report.len() implies (#[trigger] report[k]).records.len() > 1
        && !igs.contains(report[k].name) by {
        assert(report[k] == agg.filter(
            |g: GroupV| g.records.len() > 1 && !igs.contains(g.name),
        )[k]);
    }
}

} // verus!
