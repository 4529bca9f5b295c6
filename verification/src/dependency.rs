//! How a declared dependency is read: `<path>` or `<path>@<requirement>`,
//! split at the last `@`, where `loader` and `host:<name>` name the host.

use vstd::prelude::*;
use vstd::string::*;

use crate::text::{join_str, has_prefix, is_last_occurrence, last_index_of, rfind_char, starts_with, str_eq, substring};

verus! {

/// The path part and the optional version requirement of a declared
/// dependency, split at its last `@`.
pub open spec fn split_dependency(dep: Seq<char>) -> (Seq<char>, Option<Seq<char>>) {
    match last_index_of(dep, '@') {
        Some(i) => (dep.subrange(0, i), Some(dep.subrange(i + 1, dep.len() as int))),
        None => (dep, None),
    }
}

/// The path part names the host: `loader`, or anything that starts with `host:`.
pub open spec fn is_host_reference(path: Seq<char>) -> bool {
    path == "loader"@ || has_prefix(path, "host:"@)
}

/// The registry key of a host reference: itself when it starts with
/// `host:`, otherwise `host:` before it.
pub open spec fn host_key(path: Seq<char>) -> Seq<char> {
    if has_prefix(path, "host:"@) {
        path
    } else {
        "host:"@ + path
    }
}

/// Splits a declared dependency at its last `@` into a path part and a
/// version requirement.
pub fn parse_dependency(dep: &str) -> (r: (String, Option<String>))
    ensures
        split_dependency(dep@) == (r.0@, r.1.deep_view()),
{
    match rfind_char(dep, '@') {
        Some(i) => {
            let n = dep.unicode_len();
            let path = substring(dep, 0, i);
            let req = substring(dep, i + 1, n);
            (path, Some(req))
        },
        None => (String::from_str(dep), None),
    }
}

/// The registry key of the host that `path` names, or `None` when `path`
/// names a library file.
pub fn host_key_of(path: &str) -> (r: Option<String>)
    ensures
        match r {
            Some(k) => is_host_reference(path@) && k@ == host_key(path@),
            None => !is_host_reference(path@),
        },
        r is Some <==> (path@ == "loader"@ || has_prefix(path@, "host:"@)),
        r matches Some(k) ==> (has_prefix(path@, "host:"@) ==> k@ == path@) && (!has_prefix(path@, "host:"@) ==> k@ == "host:"@ + path@),
{
    if starts_with(path, "host:") {
        Some(String::from_str(path))
    } else if str_eq(path, "loader") {
        Some(join_str("host:", path))
    } else {
        None
    }
}

/// Splitting loses nothing: the path part, an `@` and the requirement give
/// back the declaration, and the requirement holds no `@`; without a
/// requirement the declaration holds no `@` and is the path itself.
pub proof fn lemma_split_dependency_round_trip(dep: Seq<char>)
    ensures
        match split_dependency(dep) {
            (p, Some(q)) => p + seq!['@'] + q == dep && !q.contains('@'),
            (p, None) => p == dep && !dep.contains('@'),
        },
{
    match last_index_of(dep, '@') {
        Some(i) => {
            let k = choose|k: int| is_last_occurrence(dep, '@', k);
            assert(k == i);
            let p = dep.subrange(0, i);
            let q = dep.subrange(i + 1, dep.len() as int);
            assert(p + seq!['@'] + q =~= dep);
            assert forall|j: int| 0 <= j < q.len() implies q[j] != '@' by {
                assert(q[j] == dep[i + 1 + j]);
            }
        },
        None => {
            assert forall|j: int| 0 <= j < dep.len() implies dep[j] != '@' by {
                if dep[j] == '@' {
                    lemma_some_last_occurrence(dep, '@', j);
                }
            }
        },
    }
}

/// Where `c` occurs, it has a last occurrence.
proof fn lemma_some_last_occurrence(s: Seq<char>, c: char, j: int)
    requires
        0 <= j < s.len(),
        s[j] == c,
    ensures
        exists|i: int| is_last_occurrence(s, c, i),
    decreases s.len() - j,
{
    if is_last_occurrence(s, c, j) {
    } else {
        let m = choose|m: int| j < m < s.len() && s[m] == c;
        lemma_some_last_occurrence(s, c, m);
    }
}

/// What the host references are: exactly `loader` and the texts whose first
/// five characters are `host:`; `host:` is put before `loader`, and a
/// reference that starts with `host:` is its own key.
pub proof fn lemma_host_reference_meaning(path: Seq<char>)
    ensures
        is_host_reference(path) <==> (path == seq!['l', 'o', 'a', 'd', 'e', 'r'] || (path.len() >= 5
            && path[0] == 'h' && path[1] == 'o' && path[2] == 's' && path[3] == 't' && path[4] == ':')),
        is_host_reference(path) && path.len() >= 5 && path.subrange(0, 5) == seq!['h', 'o', 's', 't', ':'] ==> host_key(path) == path,
        path == seq!['l', 'o', 'a', 'd', 'e', 'r'] ==> host_key(path) == seq!['h', 'o', 's', 't', ':', 'l', 'o', 'a', 'd', 'e', 'r'],
{
    reveal_strlit("loader");
    reveal_strlit("host:");
    let h: Seq<char> = "host:"@;
    assert(h =~= seq!['h', 'o', 's', 't', ':']);
    assert("loader"@ =~= seq!['l', 'o', 'a', 'd', 'e', 'r']);
    if path.len() >= 5 && path[0] == 'h' && path[1] == 'o' && path[2] == 's' && path[3] == 't' && path[4] == ':' {
        assert(path.subrange(0, 5) =~= h);
    }
    if has_prefix(path, h) {
        assert(path.subrange(0, 5)[0] == path[0]);
        assert(path.subrange(0, 5)[1] == path[1]);
        assert(path.subrange(0, 5)[2] == path[2]);
        assert(path.subrange(0, 5)[3] == path[3]);
        assert(path.subrange(0, 5)[4] == path[4]);
    }
    if path == seq!['l', 'o', 'a', 'd', 'e', 'r'] {
        assert(!has_prefix(path, h)) by {
            assert(path.subrange(0, 5)[0] != h[0]);
        }
        assert(h + path =~= seq!['h', 'o', 's', 't', ':', 'l', 'o', 'a', 'd', 'e', 'r']);
    }
}

/// A host key is again a host reference, and normalizing it changes nothing.
pub proof fn lemma_host_key_idempotent(path: Seq<char>)
    requires
        is_host_reference(path),
    ensures
        is_host_reference(host_key(path)),
        host_key(host_key(path)) == host_key(path),
{
    let h: Seq<char> = "host:"@;
    if !has_prefix(path, h) {
        assert(("host:"@ + path).subrange(0, h.len() as int) =~= h);
    }
}

} // verus!
