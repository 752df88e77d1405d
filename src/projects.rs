//! Collecting the dependency map of a directory of crates from the names
//! and manifest texts of its crates.
use vstd::prelude::*;
use crate::order::names_of;
use crate::depmap::{DependencyMap, inserted};
use crate::manifest::{ParseError, dependency_names, extract_depdendency, toml_document};

verus! {

/// The character view of a list of (crate name, manifest text) pairs.
pub open spec fn projects_view(p: Seq<(String, String)>) -> Seq<(Seq<char>, Seq<char>)> {
    p.map_values(|x: (String, String)| (x.0@, x.1@))
}

/// The map collected from `projects`, one after the other: an excluded name
/// is skipped, any other is inserted with the dependency names of its
/// manifest that begin with `prefix`, a later one overwriting an earlier one.
/// None when a manifest that is read is not a TOML document.
pub open spec fn collected(
    projects: Seq<(Seq<char>, Seq<char>)>,
    excluded: Seq<Seq<char>>,
    prefix: Seq<char>,
) -> Option<Seq<(Seq<char>, Seq<Seq<char>>)>>
    decreases projects.len(),
{
    if projects.len() == 0 {
        Some(Seq::empty())
    } else {
        match collected(projects.drop_last(), excluded, prefix) {
            None => None,
            Some(e) => {
                let (name, text) = projects.last();
                if excluded.contains(name) {
                    Some(e)
                } else {
                    match toml_document(text) {
                        None => None,
                        Some(doc) => Some(inserted(e, name, dependency_names(doc, prefix))),
                    }
                }
            },
        }
    }
}

/// Whether `name` is one of `excluded`.
pub fn is_excluded(name: &String, excluded: &Vec<String>) -> (r: bool)
    ensures
        r == names_of(excluded@).contains(name@),
{
    let mut i: usize = 0;
    while i < excluded.len()
        invariant
            i <= excluded@.len(),
            forall|k: int| 0 <= k < i ==> excluded@[k]@ != name@,
        decreases excluded@.len() - i,
    {
        if excluded[i] == *name {
            assert(names_of(excluded@)[i as int] == name@);
            return true;
        }
        i = i + 1;
    }
    assert forall|k: int| 0 <= k < names_of(excluded@).len() implies names_of(excluded@)[k] != name@ by {
        assert(excluded@[k]@ != name@);
    }
    false
}

/// Builds the dependency map of a directory's crates, given each crate's name
/// and manifest text in the order the directory lists them. Crates named in
/// `excluded` are left out; the others get the dependency names of their
/// manifest that begin with `prefix`. Fails on the first manifest that is
/// not a TOML document.
pub fn tranverse_subdirs(
    projects: &Vec<(String, String)>,
    excluded: &Vec<String>,
    prefix: &str,
) -> (r: Result<DependencyMap, ParseError>)
    ensures
        match collected(projects_view(projects@), names_of(excluded@), prefix@) {
            Some(e) => r is Ok && r->Ok_0@ == e,
            None => r is Err,
        },
{
    let ghost pv = projects_view(projects@);
    let ghost ex = names_of(excluded@);
    let mut res = DependencyMap::new();
    let mut i: usize = 0;
    assert(pv.take(0) =~= Seq::<(Seq<char>, Seq<char>)>::empty());
    while i < projects.len()
        invariant
            pv == projects_view(projects@),
            ex == names_of(excluded@),
            i <= pv.len(),
            collected(pv.take(i as int), ex, prefix@) == Some(res@),
        decreases pv.len() - i,
    {
        assert(pv.take(i + 1).drop_last() =~= pv.take(i as int));
        assert(pv.take(i + 1).last() == pv[i as int]);
        let name = &projects[i].0;
        if !is_excluded(name, excluded) {
            match extract_depdendency(projects[i].1.as_str(), prefix) {
                Ok(deps) => {
                    res.insert(name.clone(), deps);
                },
                Err(e) => {
                    proof {
                        lemma_collected_fails(pv, ex, prefix@, i + 1);
                    }
                    return Err(e);
                },
            }
        }
        i = i + 1;
    }
    assert(pv.take(i as int) =~= pv);
    Ok(res)
}

/// Once a prefix of the projects fails, so does every longer prefix.
proof fn lemma_collected_fails(
    projects: Seq<(Seq<char>, Seq<char>)>,
    excluded: Seq<Seq<char>>,
    prefix: Seq<char>,
    n: int,
)
    requires
        0 <= n <= projects.len(),
        collected(projects.take(n), excluded, prefix) is None,
    ensures
        collected(projects, excluded, prefix) is None,
    decreases projects.len() - n,
{
    if n < projects.len() {
        assert(projects.take(n + 1).drop_last() =~= projects.take(n));
        lemma_collected_fails(projects, excluded, prefix, n + 1);
    } else {
        assert(projects.take(n) =~= projects);
    }
}

} // verus!
