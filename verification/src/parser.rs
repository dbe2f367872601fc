//! The aggregation and duplicate-detection engine.
//!
//! Dependency declarations from many manifests are merged into one version
//! history per dependency name: versions are normalized, exact duplicates
//! are skipped, and a new distinct version goes to the front of a name's
//! sequence when it is strictly higher than the current head, else to the
//! back. A name ignore list and a more-than-one-version test then select
//! the genuine duplicates.

use vstd::prelude::*;
use crate::text::{
    str_to_chars, str_eq, chars_to_string, subvec, trim_chars, find_char_from, sep_index,
    spec_lines, spec_trim,
};
use crate::version::{
    spec_clean_version, spec_versions, spec_higher, clean_version, get_versions,
};

verus! {

/// One distinct normalized version of one dependency name, with the
/// manifest path where it was first declared.
#[derive(Debug, Clone)]
pub struct PackageValue {
    pub name: String,
    pub version: String,
    pub path: String,
}

/// The mathematical shadow of a `PackageValue`.
pub ghost struct Record {
    pub name: Seq<char>,
    pub version: Seq<char>,
    pub path: Seq<char>,
}

impl View for PackageValue {
    type V = Record;

    open spec fn view(&self) -> Record {
        Record { name: self.name@, version: self.version@, path: self.path@ }
    }
}

impl PartialEq for PackageValue {
    fn eq(&self, other: &Self) -> (r: bool) {
        self.name == other.name && self.version == other.version && self.path == other.path
    }
}

impl vstd::std_specs::cmp::PartialEqSpecImpl for PackageValue {
    open spec fn obeys_eq_spec() -> bool {
        true
    }

    open spec fn eq_spec(&self, other: &Self) -> bool {
        self.name@ == other.name@ && self.version@ == other.version@ && self.path@ == other.path@
    }
}

impl PackageValue {
    pub fn new(name: &str, version: &str, path: &str) -> (r: Self)
        ensures
            r@ == (Record { name: name@, version: version@, path: path@ }),
    {
        PackageValue {
            name: name.to_owned(),
            version: version.to_owned(),
            path: path.to_owned(),
        }
    }
}

/// The records of a sequence of package values.
pub open spec fn recs_of(s: Seq<PackageValue>) -> Seq<Record> {
    s.map_values(|p: PackageValue| p@)
}

/// All version records sharing one dependency name, in rank order.
#[derive(Debug)]
pub struct Group {
    pub name: String,
    pub records: Vec<PackageValue>,
}

/// The mathematical shadow of a `Group`.
pub ghost struct GroupV {
    pub name: Seq<char>,
    pub records: Seq<Record>,
}

impl View for Group {
    type V = GroupV;

    open spec fn view(&self) -> GroupV {
        GroupV { name: self.name@, records: recs_of(self.records@) }
    }
}

/// The aggregate: one group per dependency name, in first-seen name order.
#[derive(Debug)]
pub struct Aggregate {
    pub groups: Vec<Group>,
}

impl View for Aggregate {
    type V = Seq<GroupV>;

    open spec fn view(&self) -> Seq<GroupV> {
        self.groups@.map_values(|g: Group| g@)
    }
}

/// Index of the first group carrying `name`, or `groups.len()` if none.
pub open spec fn find_group(groups: Seq<GroupV>, name: Seq<char>) -> int
    decreases groups.len(),
{
    if groups.len() == 0 {
        0
    } else if groups[0].name == name {
        0
    } else {
        1 + find_group(groups.drop_first(), name)
    }
}

pub proof fn lemma_find_group(groups: Seq<GroupV>, name: Seq<char>)
    ensures
        0 <= find_group(groups, name) <= groups.len(),
        forall|j: int| 0 <= j < find_group(groups, name) ==> groups[j].name != name,
        find_group(groups, name) < groups.len() ==> groups[find_group(groups, name)].name == name,
    decreases groups.len(),
{
    if groups.len() > 0 && groups[0].name != name {
        lemma_find_group(groups.drop_first(), name);
        assert forall|j: int| 0 <= j < find_group(groups, name) implies groups[j].name != name by {
            if j > 0 {
                assert(groups.drop_first()[j - 1] == groups[j]);
            }
        }
    }
}

pub proof fn lemma_find_group_unique(groups: Seq<GroupV>, name: Seq<char>, k: int)
    requires
        0 <= k <= groups.len(),
        forall|j: int| 0 <= j < k ==> groups[j].name != name,
        k < groups.len() ==> groups[k].name == name,
    ensures
        find_group(groups, name) == k,
    decreases groups.len(),
{
    if groups.len() > 0 && groups[0].name != name {
        assert(forall|j: int| 0 <= j < k - 1 ==> groups.drop_first()[j] == groups[j + 1]);
        lemma_find_group_unique(groups.drop_first(), name, k - 1);
    }
}

/// The records under `name`, or `None` if the name has no group.
pub open spec fn lookup_records(groups: Seq<GroupV>, name: Seq<char>) -> Option<Seq<Record>> {
    let k = find_group(groups, name);
    if k == groups.len() {
        None
    } else {
        Some(groups[k].records)
    }
}

/// Some record in the sequence carries exactly this version string.
pub open spec fn spec_has_version(records: Seq<Record>, version: Seq<char>) -> bool {
    exists|i: int| 0 <= i < records.len() && records[i].version == version
}

/// The new version ranks strictly above the current head of the sequence.
pub open spec fn spec_is_new_version_higher(version: Seq<char>, records: Seq<Record>) -> bool {
    records.len() > 0 && spec_higher(spec_versions(version), spec_versions(records[0].version))
}

/// Where one new record lands in a name's sequence: skipped on an exact
/// version match, at the front when strictly higher than the head,
/// else at the back.
pub open spec fn spec_insert(records: Seq<Record>, rec: Record) -> Seq<Record> {
    if spec_has_version(records, rec.version) {
        records
    } else if spec_is_new_version_higher(rec.version, records) {
        records.insert(0, rec)
    } else {
        records.push(rec)
    }
}

/// One declaration `(name, raw version, path)` applied to the aggregate.
pub open spec fn spec_process(
    groups: Seq<GroupV>,
    name: Seq<char>,
    raw: Seq<char>,
    path: Seq<char>,
) -> Seq<GroupV> {
    let rec = Record { name, version: spec_clean_version(raw), path };
    let k = find_group(groups, name);
    if k == groups.len() {
        groups.push(GroupV { name, records: spec_insert(Seq::empty(), rec) })
    } else {
        groups.update(k, GroupV { name: groups[k].name, records: spec_insert(groups[k].records, rec) })
    }
}

/// First index whose group carries `name`, or the group count.
fn find_group_index(groups: &Vec<Group>, key: &str) -> (k: usize)
    ensures
        k <= groups@.len(),
        forall|j: int| 0 <= j < k ==> (#[trigger] groups@[j])@.name != key@,
        k < groups@.len() ==> groups@.map_values(|g: Group| g@)[k as int].name == key@,
        find_group(groups@.map_values(|g: Group| g@), key@) == k,
{
    let n = groups.len();
    let mut k: usize = 0;
    while k < n
        invariant
            k <= n,
            n == groups@.len(),
            forall|j: int| 0 <= j < k ==> (#[trigger] groups@[j])@.name != key@,
        decreases n - k,
    {
        if str_eq(groups[k].name.as_str(), key) {
            proof {
                lemma_find_group_unique(groups@.map_values(|g: Group| g@), key@, k as int);
            }
            return k;
        }
        k = k + 1;
    }
    proof {
        lemma_find_group_unique(groups@.map_values(|g: Group| g@), key@, k as int);
    }
    k
}

/// Does any record in `records` carry exactly `version`?
fn has_version(records: &Vec<PackageValue>, version: &String) -> (r: bool)
    ensures
        r == spec_has_version(recs_of(records@), version@),
{
    let n = records.len();
    let mut i: usize = 0;
    while i < n
        invariant
            i <= n,
            n == records@.len(),
            forall|j: int| 0 <= j < i ==> recs_of(records@)[j].version != version@,
        decreases n - i,
    {
        if records[i].version == *version {
            proof {
                assert(recs_of(records@)[i as int].version == version@);
            }
            return true;
        }
        i = i + 1;
    }
    false
}

/// Is the (already normalized) new version strictly higher than the head
/// of the sequence? An empty sequence ranks nothing higher.
pub fn is_new_version_higher(version: &str, entry: &Vec<PackageValue>) -> (r: bool)
    ensures
        r == spec_is_new_version_higher(version@, recs_of(entry@)),
{
    if entry.len() == 0 {
        return false;
    }
    let (major, minor, patch) = get_versions(entry[0].version.as_str());
    let (major_new, minor_new, patch_new) = get_versions(version);
    major_new > major || (major_new == major && minor_new > minor) || (major_new == major
        && minor_new == minor && patch_new > patch)
}

/// Apply one declaration to the aggregate: normalize the version, skip an
/// exact duplicate, else insert the record at the front or the back of its
/// name's sequence, creating the group if the name is new.
pub fn process_dependency(key: &str, value_str: &str, map: &mut Aggregate, path: &str)
    ensures
        final(map)@ == spec_process(old(map)@, key@, value_str@, path@),
{
    let version = clean_version(value_str);
    let ghost orig = map@;
    let ghost rec = Record { name: key@, version: spec_clean_version(value_str@), path: path@ };
    let k = find_group_index(&map.groups, key);
    if k == map.groups.len() {
        let pv = PackageValue::new(key, version.as_str(), path);
        let mut records: Vec<PackageValue> = Vec::new();
        records.push(pv);
        let grp = Group { name: key.to_owned(), records };
        map.groups.push(grp);
        proof {
            assert(recs_of(grp.records@) =~= Seq::empty().push(rec));
            assert(!spec_has_version(Seq::empty(), rec.version));
            assert(map@ =~= orig.push(grp@));
            assert(spec_insert(Seq::empty(), rec) =~= Seq::empty().push(rec));
            assert(map@ =~= spec_process(orig, key@, value_str@, path@));
        }
    } else {
        if has_version(&map.groups[k].records, &version) {
            proof {
                assert(spec_insert(orig[k as int].records, rec) == orig[k as int].records);
                assert(map@ =~= spec_process(orig, key@, value_str@, path@));
            }
            return ;
        }
        let higher = is_new_version_higher(version.as_str(), &map.groups[k].records);
        let pv = PackageValue::new(key, version.as_str(), path);
        let mut grp = map.groups.remove(k);
        if higher {
            grp.records.insert(0, pv);
            proof {
                assert(recs_of(grp.records@) =~= orig[k as int].records.insert(0, rec));
            }
        } else {
            grp.records.push(pv);
            proof {
                assert(recs_of(grp.records@) =~= orig[k as int].records.push(rec));
            }
        }
        map.groups.insert(k, grp);
        proof {
            assert(grp@.name == orig[k as int].name);
            assert(grp@.records == spec_insert(orig[k as int].records, rec));
            assert(map@ =~= orig.update(k as int, grp@));
            assert(map@ =~= spec_process(orig, key@, value_str@, path@));
        }
    }
}

/// Does the vector hold a string equal to `s`?
fn contains_string(v: &Vec<String>, s: &str) -> (r: bool)
    ensures
        r == v.deep_view().contains(s@),
{
    let n = v.len();
    let mut i: usize = 0;
    while i < n
        invariant
            i <= n,
            n == v@.len(),
            forall|j: int| 0 <= j < i ==> (#[trigger] v@[j])@ != s@,
        decreases n - i,
    {
        if str_eq(v[i].as_str(), s) {
            proof {
                assert(v.deep_view()[i as int] == s@);
            }
            return true;
        }
        i = i + 1;
    }
    proof {
        assert forall|j: int| 0 <= j < v.deep_view().len() implies #[trigger] v.deep_view()[j]
            != s@ by {
            assert(v.deep_view()[j] == v@[j]@);
        }
    }
    false
}

/// `HashMap::insert` semantics on the aggregate's view: replace the
/// records of an existing group, or append a new group at the end.
pub open spec fn spec_set_group(
    groups: Seq<GroupV>,
    name: Seq<char>,
    records: Seq<Record>,
) -> Seq<GroupV> {
    let k = find_group(groups, name);
    if k == groups.len() {
        groups.push(GroupV { name, records })
    } else {
        groups.update(k, GroupV { name: groups[k].name, records })
    }
}

/// No two groups carry the same name.
pub open spec fn unique_names(groups: Seq<GroupV>) -> bool {
    forall|i: int, j: int|
        0 <= i < j < groups.len() ==> (#[trigger] groups[i]).name != (#[trigger] groups[j]).name
}

impl Aggregate {
    /// Every name has at most one group.
    pub open spec fn wf(self) -> bool {
        unique_names(self@)
    }

    /// The empty aggregate.
    pub fn new() -> (r: Aggregate)
        ensures
            r@ == Seq::<GroupV>::empty(),
            r.wf(),
    {
        let r = Aggregate { groups: Vec::new() };
        proof {
            assert(r@ =~= Seq::<GroupV>::empty());
        }
        r
    }

    /// How many dependency names the aggregate holds.
    pub fn len(&self) -> (n: usize)
        ensures
            n == self@.len(),
    {
        self.groups.len()
    }

    /// The records under `name`, if that name has a group.
    pub fn get(&self, name: &str) -> (r: Option<&Vec<PackageValue>>)
        ensures
            match r {
                Some(v) => lookup_records(self@, name@) == Some(recs_of(v@)),
                None => lookup_records(self@, name@) is None,
            },
    {
        let k = find_group_index(&self.groups, name);
        if k < self.groups.len() {
            Some(&self.groups[k].records)
        } else {
            None
        }
    }

    /// Replace the records under `name`, or add a new group for it.
    pub fn insert(&mut self, name: &str, records: Vec<PackageValue>)
        ensures
            final(self)@ == spec_set_group(old(self)@, name@, recs_of(records@)),
    {
        let ghost orig = self@;
        let k = find_group_index(&self.groups, name);
        if k == self.groups.len() {
            let grp = Group { name: name.to_owned(), records };
            self.groups.push(grp);
            proof {
                assert(self@ =~= orig.push(grp@));
            }
        } else {
            let mut grp = self.groups.remove(k);
            grp.records = records;
            self.groups.insert(k, grp);
            proof {
                assert(self@ =~= orig.update(k as int, grp@));
            }
        }
    }

    /// The name of the group at position `i`.
    pub fn name_at(&self, i: usize) -> (r: &String)
        requires
            i < self@.len(),
        ensures
            r@ == self@[i as int].name,
    {
        &self.groups[i].name
    }

    /// The records of the group at position `i`.
    pub fn records_at(&self, i: usize) -> (r: &Vec<PackageValue>)
        requires
            i < self@.len(),
        ensures
            recs_of(r@) == self@[i as int].records,
    {
        &self.groups[i].records
    }
}

/// The surviving groups: more than one distinct version and a name that
/// is not on the ignore list.
pub open spec fn spec_keep_bad(groups: Seq<GroupV>, igs: Seq<Seq<char>>) -> Seq<GroupV> {
    groups.filter(|g: GroupV| g.records.len() > 1 && !igs.contains(g.name))
}

pub proof fn lemma_keep_bad_push(s: Seq<GroupV>, x: GroupV, igs: Seq<Seq<char>>)
    ensures
        spec_keep_bad(s.push(x), igs) == if x.records.len() > 1 && !igs.contains(x.name) {
            spec_keep_bad(s, igs).push(x)
        } else {
            spec_keep_bad(s, igs)
        },
{
    reveal(Seq::filter);
    assert(s.push(x).drop_last() =~= s);
    assert(s.push(x).last() == x);
}

/// Keep only the duplicates worth reporting: drop every group with at
/// most one distinct version, and every group whose name is ignored.
pub fn keep_bad_values(map: &mut Aggregate, ignores: Vec<String>)
    ensures
        final(map)@ == spec_keep_bad(old(map)@, ignores.deep_view()),
{
    let ghost orig = map@;
    let ghost igs = ignores.deep_view();
    let mut i: usize = 0;
    let ghost mut j: int = 0;
    while i < map.groups.len()
        invariant
            0 <= j <= orig.len(),
            igs == ignores.deep_view(),
            i == spec_keep_bad(orig.take(j), igs).len(),
            map@ == spec_keep_bad(orig.take(j), igs) + orig.skip(j),
        decreases orig.len() - j,
    {
        proof {
            assert(orig.skip(j).len() > 0);
            assert(map@[i as int] == orig.skip(j)[0]);
            assert(orig.skip(j)[0] == orig[j]);
        }
        let many = map.groups[i].records.len() > 1;
        let ign = contains_string(&ignores, map.groups[i].name.as_str());
        proof {
            assert(map@[i as int] == map.groups@[i as int]@);
            assert(map@[i as int].records.len() == map.groups@[i as int].records@.len());
            assert(orig.take(j + 1) =~= orig.take(j).push(orig[j]));
            lemma_keep_bad_push(orig.take(j), orig[j], igs);
        }
        if many && !ign {
            i = i + 1;
            proof {
                let keep = spec_keep_bad(orig.take(j), igs);
                assert(many == (orig[j].records.len() > 1));
                assert(ign == igs.contains(orig[j].name));
                assert(spec_keep_bad(orig.take(j + 1), igs) == keep.push(orig[j]));
                assert(orig.skip(j) =~= seq![orig[j]] + orig.skip(j + 1));
                assert(keep.push(orig[j]) =~= keep + seq![orig[j]]);
                assert((keep + seq![orig[j]]) + orig.skip(j + 1) =~= keep + (seq![orig[j]]
                    + orig.skip(j + 1)));
                j = j + 1;
                assert(map@ == spec_keep_bad(orig.take(j), igs) + orig.skip(j));
            }
        } else {
            let ghost prevg = map.groups@;
            let ghost prevm = map@;
            let _removed = map.groups.remove(i);
            proof {
                let keep = spec_keep_bad(orig.take(j), igs);
                assert(many == (orig[j].records.len() > 1));
                assert(ign == igs.contains(orig[j].name));
                assert(spec_keep_bad(orig.take(j + 1), igs) == keep);
                assert(map@ =~= keep + orig.skip(j + 1)) by {
                    assert(prevm == keep + orig.skip(j));
                    assert(map.groups@ == prevg.remove(i as int));
                    assert(i < prevg.len());
                    assert(prevg.len() == prevm.len());
                    assert(map.groups@.len() == prevg.len() - 1);
                    assert(prevm.len() == keep.len() + orig.skip(j).len());
                    assert(orig.skip(j).len() == orig.skip(j + 1).len() + 1);
                    assert(map@.len() == keep.len() + orig.skip(j + 1).len());
                    assert forall|x: int| 0 <= x < map@.len() implies map@[x] == (keep + orig.skip(
                        j + 1,
                    ))[x] by {
                        if x < i {
                            assert(map.groups@[x] == prevg[x]);
                            assert(prevm[x] == keep[x]);
                        } else {
                            assert(map.groups@[x] == prevg[x + 1]);
                            assert(prevm[x + 1] == orig.skip(j)[x + 1 - i]);
                            assert(orig.skip(j)[x + 1 - i] == orig[j + x + 1 - i]);
                            assert(orig.skip(j + 1)[x - i] == orig[j + 1 + x - i]);
                        }
                    }
                }
                j = j + 1;
                assert(map@ == spec_keep_bad(orig.take(j), igs) + orig.skip(j));
            }
        }
    }
    proof {
        assert(orig.skip(j).len() == 0);
        assert(j == orig.len());
        assert(orig.take(j) =~= orig);
    }
}

/// The ignore names held in an ignore file's text: one per line, each
/// trimmed of surrounding whitespace; empty text yields none.
pub open spec fn spec_parse_ignores(s: Seq<char>) -> Seq<Seq<char>> {
    spec_lines(s).map_values(|l: Seq<char>| spec_trim(l))
}

/// Split the ignore text into lines and trim each one.
pub fn parse_ignores(ignores: &str) -> (r: Vec<String>)
    ensures
        r.deep_view() == spec_parse_ignores(ignores@),
{
    let cs = str_to_chars(ignores);
    let mut out: Vec<String> = Vec::new();
    if cs.len() == 0 {
        proof {
            assert(out.deep_view() =~= spec_parse_ignores(ignores@));
        }
        return out;
    }
    let mut pos: usize = 0;
    proof {
        assert(cs@.skip(0) =~= cs@);
        assert(out.deep_view() =~= Seq::<Seq<char>>::empty());
        assert(spec_parse_ignores(ignores@) =~= out.deep_view() + spec_lines(
            cs@.skip(0),
        ).map_values(|l: Seq<char>| spec_trim(l)));
    }
    loop
        invariant_except_break
            0 <= pos < cs@.len(),
            cs@ == ignores@,
            spec_parse_ignores(ignores@) == out.deep_view() + spec_lines(
                cs@.skip(pos as int),
            ).map_values(|l: Seq<char>| spec_trim(l)),
        ensures
            out.deep_view() == spec_parse_ignores(ignores@),
        decreases cs@.len() - pos,
    {
        let i = find_char_from(&cs, pos, '\n');
        let piece = subvec(&cs, pos, i);
        let trimmed = trim_chars(&piece);
        let line = chars_to_string(&trimmed);
        let ghost pre = out.deep_view();
        out.push(line);
        proof {
            assert(out.deep_view() =~= pre.push(spec_trim(piece@)));
        }
        let ghost t = cs@.skip(pos as int);
        if i == cs.len() {
            proof {
                assert(sep_index(t, '\n') == t.len());
                assert(spec_lines(t) == seq![t]);
                assert(piece@ =~= t);
                assert(spec_lines(t).map_values(|l: Seq<char>| spec_trim(l)) =~= seq![
                    spec_trim(t),
                ]);
                assert(out.deep_view() =~= spec_parse_ignores(ignores@));
            }
            break ;
        }
        proof {
            assert(sep_index(t, '\n') == i - pos);
            assert(spec_lines(t) == seq![t.take(i - pos)] + spec_lines(t.skip(i - pos + 1)));
            assert(piece@ =~= t.take(i - pos));
            assert(t.skip(i - pos + 1) =~= cs@.skip(i + 1));
            assert(spec_lines(t).map_values(|l: Seq<char>| spec_trim(l)) =~= seq![
                spec_trim(piece@),
            ] + spec_lines(cs@.skip(i + 1)).map_values(|l: Seq<char>| spec_trim(l)));
        }
        pos = i + 1;
        if pos == cs.len() {
            proof {
                assert(cs@.skip(pos as int).len() == 0);
                assert(spec_lines(cs@.skip(pos as int)) == Seq::<Seq<char>>::empty());
                assert(spec_lines(cs@.skip(pos as int)).map_values(|l: Seq<char>| spec_trim(l))
                    =~= Seq::<Seq<char>>::empty());
                assert(out.deep_view() =~= spec_parse_ignores(ignores@));
            }
            break ;
        }
        proof {
            assert(spec_parse_ignores(ignores@) =~= out.deep_view() + spec_lines(
                cs@.skip(pos as int),
            ).map_values(|l: Seq<char>| spec_trim(l)));
        }
    }
    out
}

/// The string-valued entries of one top-level object field of a JSON
/// text, in serde_json's (deterministic) field order; `None` when the
/// text is not valid JSON. Named, not written out: the result depends on
/// the text and the field name alone.
pub uninterp spec fn json_string_entries(text: Seq<char>, field: Seq<char>) -> Option<
    Seq<(Seq<char>, Seq<char>)>,
>;

/// Relies on `serde_json::from_str` and `serde_json::Value::{get,
/// as_object, as_str}`: parsing either fails, for invalid JSON, or yields
/// the named field's string-valued entries in the fixed sorted order of
/// serde_json's `Map`; both outcomes depend on the text alone. A missing
/// field, a non-object field and non-string values yield no entries.
#[verifier::external_body]
fn read_field_entries(text: &str, field: &str) -> (r: Result<Vec<(String, String)>, ()>)
    ensures
        match r {
            Ok(v) => json_string_entries(text@, field@) == Some(v.deep_view()),
            Err(_) => json_string_entries(text@, field@) is None,
        },
{
    let value: serde_json::Value = match serde_json::from_str(text) {
        Ok(v) => v,
        Err(_) => return Err(()),
    };
    let mut out: Vec<(String, String)> = Vec::new();
    if let Some(obj) = value.get(field).and_then(|d| d.as_object()) {
        for (name, version) in obj {
            if let Some(s) = version.as_str() {
                out.push((name.clone(), s.to_string()));
            }
        }
    }
    Ok(out)
}

/// The text is valid JSON, so both dependency fields can be read.
pub open spec fn manifest_parses(text: Seq<char>) -> bool {
    json_string_entries(text, "dependencies"@) is Some && json_string_entries(
        text,
        "devDependencies"@,
    ) is Some
}

/// The declarations of one manifest text: its `dependencies` entries
/// followed by its `devDependencies` entries.
pub open spec fn spec_manifest_entries(text: Seq<char>) -> Seq<(Seq<char>, Seq<char>)> {
    (match json_string_entries(text, "dependencies"@) {
        Some(e) => e,
        None => Seq::empty(),
    }) + (match json_string_entries(text, "devDependencies"@) {
        Some(e) => e,
        None => Seq::empty(),
    })
}

/// One dependency declaration: a name, the raw declared version, and the
/// path of the manifest that declared it.
pub ghost struct DeclV {
    pub name: Seq<char>,
    pub raw: Seq<char>,
    pub path: Seq<char>,
}

/// The record a declaration becomes: its version normalized.
pub open spec fn rec_of(d: DeclV) -> Record {
    Record { name: d.name, version: spec_clean_version(d.raw), path: d.path }
}

/// The declarations of one manifest's entries, stamped with its path.
pub open spec fn decls_of(entries: Seq<(Seq<char>, Seq<char>)>, path: Seq<char>) -> Seq<DeclV> {
    entries.map_values(|e: (Seq<char>, Seq<char>)| DeclV { name: e.0, raw: e.1, path })
}

/// Declarations applied to the aggregate one after the other, in order.
pub open spec fn spec_process_all(groups: Seq<GroupV>, ds: Seq<DeclV>) -> Seq<GroupV>
    decreases ds.len(),
{
    if ds.len() == 0 {
        groups
    } else {
        spec_process_all(
            spec_process(groups, ds[0].name, ds[0].raw, ds[0].path),
            ds.drop_first(),
        )
    }
}

/// All declarations of a sequence of `(path, text)` manifests, in
/// manifest order.
pub open spec fn spec_all_decls(ms: Seq<(Seq<char>, Seq<char>)>) -> Seq<DeclV>
    decreases ms.len(),
{
    if ms.len() == 0 {
        Seq::empty()
    } else {
        decls_of(spec_manifest_entries(ms[0].1), ms[0].0) + spec_all_decls(ms.drop_first())
    }
}

/// The aggregate that a sequence of manifests builds, before filtering.
pub open spec fn spec_aggregate_manifests(ms: Seq<(Seq<char>, Seq<char>)>) -> Seq<GroupV> {
    spec_process_all(Seq::empty(), spec_all_decls(ms))
}

pub open spec fn all_manifests_parse(ms: Seq<(Seq<char>, Seq<char>)>) -> bool {
    forall|i: int| 0 <= i < ms.len() ==> manifest_parses((#[trigger] ms[i]).1)
}

/// Index of the first manifest whose text is not valid JSON.
pub open spec fn first_unparsable(ms: Seq<(Seq<char>, Seq<char>)>) -> int
    decreases ms.len(),
{
    if ms.len() == 0 {
        0
    } else if !manifest_parses(ms[0].1) {
        0
    } else {
        1 + first_unparsable(ms.drop_first())
    }
}

proof fn lemma_first_unparsable_unique(ms: Seq<(Seq<char>, Seq<char>)>, k: int)
    requires
        0 <= k < ms.len(),
        forall|i: int| 0 <= i < k ==> manifest_parses((#[trigger] ms[i]).1),
        !manifest_parses(ms[k].1),
    ensures
        first_unparsable(ms) == k,
        !all_manifests_parse(ms),
    decreases ms.len(),
{
    if manifest_parses(ms[0].1) {
        assert(forall|i: int| 0 <= i < k - 1 ==> ms.drop_first()[i] == ms[i + 1]);
        lemma_first_unparsable_unique(ms.drop_first(), k - 1);
    }
}

pub proof fn lemma_process_all_snoc(groups: Seq<GroupV>, ds: Seq<DeclV>, d: DeclV)
    ensures
        spec_process_all(groups, ds.push(d)) == spec_process(
            spec_process_all(groups, ds),
            d.name,
            d.raw,
            d.path,
        ),
    decreases ds.len(),
{
    if ds.len() == 0 {
        assert(ds.push(d)[0] == d);
        assert(ds.push(d).drop_first() =~= Seq::<DeclV>::empty());
        assert(spec_process_all(
            spec_process(groups, d.name, d.raw, d.path),
            Seq::<DeclV>::empty(),
        ) == spec_process(groups, d.name, d.raw, d.path));
        assert(spec_process_all(groups, Seq::<DeclV>::empty()) == groups);
    } else {
        assert(ds.push(d)[0] == ds[0]);
        assert(ds.push(d).drop_first() =~= ds.drop_first().push(d));
        lemma_process_all_snoc(
            spec_process(groups, ds[0].name, ds[0].raw, ds[0].path),
            ds.drop_first(),
            d,
        );
    }
}

proof fn lemma_process_all_concat(groups: Seq<GroupV>, a: Seq<DeclV>, b: Seq<DeclV>)
    ensures
        spec_process_all(groups, a + b) == spec_process_all(spec_process_all(groups, a), b),
    decreases a.len(),
{
    if a.len() == 0 {
        assert(a + b =~= b);
    } else {
        assert((a + b)[0] == a[0]);
        assert((a + b).drop_first() =~= a.drop_first() + b);
        lemma_process_all_concat(
            spec_process(groups, a[0].name, a[0].raw, a[0].path),
            a.drop_first(),
            b,
        );
    }
}

proof fn lemma_all_decls_snoc(ms: Seq<(Seq<char>, Seq<char>)>, x: (Seq<char>, Seq<char>))
    ensures
        spec_all_decls(ms.push(x)) == spec_all_decls(ms) + decls_of(
            spec_manifest_entries(x.1),
            x.0,
        ),
    decreases ms.len(),
{
    if ms.len() == 0 {
        assert(ms.push(x)[0] == x);
        assert(ms.push(x).drop_first() =~= Seq::<(Seq<char>, Seq<char>)>::empty());
        assert(spec_all_decls(Seq::<(Seq<char>, Seq<char>)>::empty()) == Seq::<DeclV>::empty());
        assert(Seq::<DeclV>::empty() + decls_of(spec_manifest_entries(x.1), x.0) =~= decls_of(
            spec_manifest_entries(x.1),
            x.0,
        ));
        assert(decls_of(spec_manifest_entries(x.1), x.0) + Seq::<DeclV>::empty() =~= decls_of(
            spec_manifest_entries(x.1),
            x.0,
        ));
    } else {
        assert(ms.push(x)[0] == ms[0]);
        assert(ms.push(x).drop_first() =~= ms.drop_first().push(x));
        lemma_all_decls_snoc(ms.drop_first(), x);
        assert((decls_of(spec_manifest_entries(ms[0].1), ms[0].0) + spec_all_decls(
            ms.drop_first(),
        )) + decls_of(spec_manifest_entries(x.1), x.0) =~= decls_of(
            spec_manifest_entries(ms[0].1),
            ms[0].0,
        ) + (spec_all_decls(ms.drop_first()) + decls_of(spec_manifest_entries(x.1), x.0)));
    }
}

/// Apply one manifest's entries to the aggregate, in entry order.
fn process_entries(agg: &mut Aggregate, entries: &Vec<(String, String)>, path: &str)
    ensures
        final(agg)@ == spec_process_all(old(agg)@, decls_of(entries.deep_view(), path@)),
{
    let ghost start = agg@;
    let ghost ds = decls_of(entries.deep_view(), path@);
    let n = entries.len();
    let mut i: usize = 0;
    proof {
        assert(ds.take(0) =~= Seq::<DeclV>::empty());
    }
    while i < n
        invariant
            i <= n,
            n == entries@.len(),
            ds == decls_of(entries.deep_view(), path@),
            agg@ == spec_process_all(start, ds.take(i as int)),
        decreases n - i,
    {
        process_dependency(entries[i].0.as_str(), entries[i].1.as_str(), agg, path);
        proof {
            assert(ds.take(i + 1) =~= ds.take(i as int).push(ds[i as int]));
            lemma_process_all_snoc(start, ds.take(i as int), ds[i as int]);
            assert(ds[i as int].name == entries@[i as int].0@);
            assert(ds[i as int].raw == entries@[i as int].1@);
        }
        i = i + 1;
    }
    proof {
        assert(ds.take(n as int) =~= ds);
    }
}

/// The error that stops a run: the manifest at `path` is not valid JSON.
#[derive(Debug)]
pub struct ManifestError {
    pub path: String,
}

/// Merge one manifest's declarations into the aggregate: both dependency
/// fields, in entry order. An unparsable text changes nothing and names
/// the manifest's path in the error.
pub fn add_manifest(map: &mut Aggregate, text: &str, path: &str) -> (r: Result<(), ManifestError>)
    ensures
        match r {
            Ok(_) => manifest_parses(text@) && final(map)@ == spec_process_all(
                old(map)@,
                decls_of(spec_manifest_entries(text@), path@),
            ),
            Err(e) => !manifest_parses(text@) && final(map)@ == old(map)@ && e.path@ == path@,
        },
{
    let deps = read_field_entries(text, "dependencies");
    let dev_deps = read_field_entries(text, "devDependencies");
    match (deps, dev_deps) {
        (Ok(d1), Ok(d2)) => {
            let ghost start = map@;
            process_entries(map, &d1, path);
            process_entries(map, &d2, path);
            proof {
                let entries = spec_manifest_entries(text@);
                assert(entries == d1.deep_view() + d2.deep_view());
                assert(decls_of(entries, path@) =~= decls_of(d1.deep_view(), path@) + decls_of(
                    d2.deep_view(),
                    path@,
                ));
                lemma_process_all_concat(
                    start,
                    decls_of(d1.deep_view(), path@),
                    decls_of(d2.deep_view(), path@),
                );
            }
            Ok(())
        },
        _ => Err(ManifestError { path: path.to_owned() }),
    }
}

/// Build the duplicate report from `(path, manifest text)` pairs, in the
/// given order, honoring the ignore file text: parse every manifest,
/// merge all declarations, drop ignored names and names with a single
/// distinct version. The first unparsable manifest aborts the run and
/// names its path.
pub fn find_duplicate_dependencies(manifests: Vec<(String, String)>, ignore_text: &str) -> (r:
    Result<Aggregate, ManifestError>)
    ensures
        ({
            let ms = manifests.deep_view();
            match r {
                Ok(agg) => all_manifests_parse(ms) && agg.wf() && agg@ == spec_keep_bad(
                    spec_aggregate_manifests(ms),
                    spec_parse_ignores(ignore_text@),
                ),
                Err(e) => !all_manifests_parse(ms) && e.path@ == ms[first_unparsable(ms)].0,
            }
        }),
{
    let ghost ms = manifests.deep_view();
    let ignores = parse_ignores(ignore_text);
    let mut agg = Aggregate::new();
    let n = manifests.len();
    let mut m: usize = 0;
    proof {
        assert(ms.take(0) =~= Seq::<(Seq<char>, Seq<char>)>::empty());
    }
    while m < n
        invariant
            m <= n,
            n == manifests@.len(),
            ms == manifests.deep_view(),
            ignores.deep_view() == spec_parse_ignores(ignore_text@),
            forall|i: int| 0 <= i < m ==> manifest_parses((#[trigger] ms[i]).1),
            agg@ == spec_process_all(Seq::empty(), spec_all_decls(ms.take(m as int))),
        decreases n - m,
    {
        proof {
            assert(ms[m as int].1 == manifests@[m as int].1@);
            assert(ms[m as int].0 == manifests@[m as int].0@);
        }
        match add_manifest(&mut agg, manifests[m].1.as_str(), manifests[m].0.as_str()) {
            Ok(_) => {
                proof {
                    let entries = spec_manifest_entries(ms[m as int].1);
                    assert(ms.take(m + 1) =~= ms.take(m as int).push(ms[m as int]));
                    lemma_all_decls_snoc(ms.take(m as int), ms[m as int]);
                    lemma_process_all_concat(
                        Seq::empty(),
                        spec_all_decls(ms.take(m as int)),
                        decls_of(entries, ms[m as int].0),
                    );
                }
            },
            Err(err) => {
                proof {
                    lemma_first_unparsable_unique(ms, m as int);
                }
                return Err(err);
            },
        }
        m = m + 1;
    }
    proof {
        assert(ms.take(n as int) =~= ms);
    }
    keep_bad_values(&mut agg, ignores);
    proof {
        crate::laws::lemma_report_wellformed(ms, spec_parse_ignores(ignore_text@));
    }
    Ok(agg)
}

} // verus!
