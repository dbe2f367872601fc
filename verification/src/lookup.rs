//! Path-level decisions for the manifest walk: which directories are
//! skipped outright (`node_modules`), and which manifest paths an ignore
//! fragment excludes before the manifest is ever read.

use vstd::prelude::*;
use crate::text::{
    str_to_chars, str_has_char, chars_eq, chars_contain, subvec, find_char_from, spec_split,
    has_char, is_substring_of,
};

verus! {

/// Is some `/`-separated segment of the path exactly `node_modules`?
pub open spec fn spec_is_node_modules(path: Seq<char>) -> bool {
    spec_split(path, '/').contains("node_modules"@)
}

/// Whether the path goes through a `node_modules` directory.
pub fn is_node_modules_path(path: &str) -> (r: bool)
    ensures
        r == spec_is_node_modules(path@),
{
    let cs = str_to_chars(path);
    let target = str_to_chars("node_modules");
    let mut pos: usize = 0;
    let mut result = false;
    proof {
        assert(cs@.skip(0) =~= cs@);
    }
    loop
        invariant_except_break
            0 <= pos <= cs@.len(),
            cs@ == path@,
            target@ == "node_modules"@,
            result == false,
            spec_is_node_modules(path@) == spec_split(cs@.skip(pos as int), '/').contains(
                "node_modules"@,
            ),
        ensures
            result == spec_is_node_modules(path@),
        decreases cs@.len() - pos,
    {
        let i = find_char_from(&cs, pos, '/');
        let seg = subvec(&cs, pos, i);
        let ghost t = cs@.skip(pos as int);
        proof {
            assert(seg@ =~= t.take(i - pos));
            if i < cs@.len() {
                assert(t.skip(i - pos + 1) =~= cs@.skip(i + 1));
                assert(spec_split(t, '/') == seq![t.take(i - pos)] + spec_split(
                    cs@.skip(i + 1),
                    '/',
                ));
            } else {
                assert(t.take(i - pos) =~= t);
                assert(spec_split(t, '/') == seq![t]);
            }
        }
        if chars_eq(&seg, &target) {
            proof {
                lemma_head_contains(spec_split(t, '/'), seg@);
            }
            result = true;
            break ;
        }
        if i == cs.len() {
            proof {
                lemma_singleton_not_contains(t, "node_modules"@);
            }
            break ;
        }
        pos = i + 1;
        proof {
            lemma_cons_contains(spec_split(t, '/'), seg@, spec_split(cs@.skip(pos as int), '/'));
        }
    }
    result
}

proof fn lemma_head_contains(s: Seq<Seq<char>>, x: Seq<char>)
    requires
        s.len() > 0,
        s[0] == x,
    ensures
        s.contains(x),
{
}

proof fn lemma_singleton_not_contains(t: Seq<char>, x: Seq<char>)
    requires
        spec_split(t, '/') == seq![t],
        t != x,
    ensures
        !spec_split(t, '/').contains(x),
{
    assert(forall|k: int| 0 <= k < seq![t].len() ==> seq![t][k] == t);
}

proof fn lemma_cons_contains(s: Seq<Seq<char>>, h: Seq<char>, rest: Seq<Seq<char>>)
    requires
        s == seq![h] + rest,
        h != "node_modules"@,
    ensures
        s.contains("node_modules"@) == rest.contains("node_modules"@),
{
    let nm = "node_modules"@;
    if rest.contains(nm) {
        let k = choose|k: int| 0 <= k < rest.len() && rest[k] == nm;
        assert(s[k + 1] == nm);
    }
    if s.contains(nm) {
        let k = choose|k: int| 0 <= k < s.len() && s[k] == nm;
        assert(k > 0);
        assert(rest[k - 1] == nm);
    }
}

/// A fragment excludes the path when it holds a separator and occurs
/// inside the path; fragments without a separator are deliberately inert.
pub open spec fn spec_path_ignored(path: Seq<char>, igs: Seq<Seq<char>>) -> bool {
    exists|i: int|
        0 <= i < igs.len() && has_char(#[trigger] igs[i], '/') && is_substring_of(igs[i], path)
}

/// Whether some ignore fragment excludes this manifest path.
pub fn is_path_ignored(path: &str, ignores: &Vec<String>) -> (r: bool)
    ensures
        r == spec_path_ignored(path@, ignores.deep_view()),
{
    let cs = str_to_chars(path);
    let n = ignores.len();
    let mut i: usize = 0;
    while i < n
        invariant
            i <= n,
            n == ignores@.len(),
            cs@ == path@,
            forall|j: int|
                0 <= j < i ==> !(has_char((#[trigger] ignores@[j])@, '/') && is_substring_of(
                    ignores@[j]@,
                    path@,
                )),
        decreases n - i,
    {
        if str_has_char(ignores[i].as_str(), '/') {
            let frag = str_to_chars(ignores[i].as_str());
            if chars_contain(&cs, &frag) {
                proof {
                    assert(has_char(ignores.deep_view()[i as int], '/') && is_substring_of(
                        ignores.deep_view()[i as int],
                        path@,
                    ));
                }
                return true;
            }
        }
        i = i + 1;
    }
    proof {
        assert forall|j: int| 0 <= j < ignores.deep_view().len() implies !(has_char(
            #[trigger] ignores.deep_view()[j],
            '/',
        ) && is_substring_of(ignores.deep_view()[j], path@)) by {
            assert(ignores.deep_view()[j] == ignores@[j]@);
        }
    }
    false
}

/// Fragments without a separator never exclude any path: on an ignore
/// list free of `/` characters the path pre-filter is a no-op.
pub proof fn lemma_no_separator_fragments_inert(path: Seq<char>, igs: Seq<Seq<char>>)
    requires
        forall|i: int| 0 <= i < igs.len() ==> !has_char(#[trigger] igs[i], '/'),
    ensures
        !spec_path_ignored(path, igs),
{
}

} // verus!
