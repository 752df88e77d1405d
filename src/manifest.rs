//! Reading the dependency names out of a crate manifest.
use vstd::prelude::*;
use core::cmp::Ordering;
use crate::order::{compare_names, names_of};

verus! {

/// The error that toml's parser reports, carried through opaque.
#[verifier::external_type_specification]
#[verifier::external_body]
pub struct ExTomlError(toml::de::Error);

/// A parsed TOML document, as its top-level entries in the table's order:
/// each key, with the keys of its value where that value is a table.
pub uninterp spec fn toml_document(text: Seq<char>) -> Option<Seq<(Seq<char>, Option<Seq<Seq<char>>>)>>;

/// The character view of a parsed document.
pub open spec fn doc_view(v: Seq<(String, Option<Vec<String>>)>) -> Seq<(Seq<char>, Option<Seq<Seq<char>>>)> {
    v.map_values(|p: (String, Option<Vec<String>>)| (p.0@, match p.1 {
        Some(k) => Some(names_of(k@)),
        None => None,
    }))
}

/// Relies on toml's `FromStr for toml::Table` (which calls `toml::from_str`):
/// the text parses to a table, or to `toml::de::Error`, and which one depends
/// on the text alone. The table's entries are handed out in its own order,
/// each value reduced to the keys it holds when it is a table.
#[verifier::external_body]
fn parse_toml(text: &str) -> (r: Result<Vec<(String, Option<Vec<String>>)>, toml::de::Error>)
    ensures
        match r {
            Ok(v) => toml_document(text@) == Some(doc_view(v@)),
            Err(_) => toml_document(text@) is None,
        },
{
    match text.parse::<toml::Table>() {
        Ok(t) => Ok(t.into_iter().map(|(k, v)| match v {
            toml::Value::Table(s) => (k, Some(s.into_iter().map(|(n, _)| n).collect())),
            _ => (k, None),
        }).collect()),
        Err(e) => Err(e),
    }
}

/// Relies on `Display for toml::de::Error`: a description of the parse failure.
#[verifier::external_body]
fn toml_error_message(e: &toml::de::Error) -> String {
    e.to_string()
}

/// A manifest that is not a TOML document.
pub struct ParseError {
    pub message: String,
}

/// The name of the manifest section that lists dependencies.
pub open spec fn dependencies_section() -> Seq<char> {
    seq!['d', 'e', 'p', 'e', 'n', 'd', 'e', 'n', 'c', 'i', 'e', 's']
}

/// The keys of the first entry named `section`, when its value is a table;
/// empty otherwise.
pub open spec fn section_keys(doc: Seq<(Seq<char>, Option<Seq<Seq<char>>>)>, section: Seq<char>) -> Seq<Seq<char>>
    decreases doc.len(),
{
    if doc.len() == 0 {
        Seq::empty()
    } else if doc[0].0 == section {
        match doc[0].1 {
            Some(k) => k,
            None => Seq::empty(),
        }
    } else {
        section_keys(doc.drop_first(), section)
    }
}

/// `name` begins with `prefix`.
pub open spec fn has_prefix(name: Seq<char>, prefix: Seq<char>) -> bool {
    prefix.len() <= name.len() && name.subrange(0, prefix.len() as int) == prefix
}

/// The dependency names of a parsed manifest that begin with `prefix`, in
/// the order of its dependencies section.
pub open spec fn dependency_names(doc: Seq<(Seq<char>, Option<Seq<Seq<char>>>)>, prefix: Seq<char>) -> Seq<Seq<char>> {
    section_keys(doc, dependencies_section()).filter(|k: Seq<char>| has_prefix(k, prefix))
}

/// Whether `name` begins with `prefix`.
pub fn starts_with(name: &str, prefix: &str) -> (r: bool)
    ensures
        r == has_prefix(name@, prefix@),
{
    let n = name.unicode_len();
    let p = prefix.unicode_len();
    if p > n {
        return false;
    }
    let mut i: usize = 0;
    while i < p
        invariant
            p == prefix@.len(),
            n == name@.len(),
            p <= n,
            i <= p,
            name@.subrange(0, i as int) == prefix@.subrange(0, i as int),
        decreases p - i,
    {
        if name.get_char(i) != prefix.get_char(i) {
            assert(name@.subrange(0, p as int)[i as int] != prefix@[i as int]);
            return false;
        }
        assert(name@.subrange(0, i + 1) =~= name@.subrange(0, i as int).push(name@[i as int]));
        assert(prefix@.subrange(0, i + 1) =~= prefix@.subrange(0, i as int).push(prefix@[i as int]));
        i = i + 1;
    }
    assert(prefix@.subrange(0, p as int) =~= prefix@);
    true
}

/// Position of the first entry named `dependencies`.
fn find_section(doc: &Vec<(String, Option<Vec<String>>)>) -> (r: Option<usize>)
    ensures
        match r {
            Some(i) => i < doc@.len() && doc_view(doc@)[i as int].0 == dependencies_section()
                && section_keys(doc_view(doc@), dependencies_section())
                    == section_keys(doc_view(doc@).skip(i as int), dependencies_section()),
            None => section_keys(doc_view(doc@), dependencies_section()) == Seq::<Seq<char>>::empty(),
        },
{
    let ghost d = doc_view(doc@);
    let ghost sec = dependencies_section();
    let name = "dependencies";
    proof {
        reveal_strlit("dependencies");
    }
    assert(name@ =~= sec);
    let mut i: usize = 0;
    assert(d.skip(0) =~= d);
    while i < doc.len()
        invariant
            d == doc_view(doc@),
            sec == dependencies_section(),
            name@ == sec,
            i <= d.len(),
            section_keys(d, sec) == section_keys(d.skip(i as int), sec),
        decreases d.len() - i,
    {
        assert(d.skip(i as int)[0] == d[i as int]);
        match compare_names(doc[i].0.as_str(), name) {
            Ordering::Equal => {
                return Some(i);
            },
            _ => {},
        }
        assert(d.skip(i as int).drop_first() =~= d.skip(i + 1));
        i = i + 1;
    }
    assert(d.skip(i as int).len() == 0);
    None
}

/// The dependency names of a parsed manifest that begin with `prefix`.
pub fn dependencies_in(doc: &Vec<(String, Option<Vec<String>>)>, prefix: &str) -> (r: Vec<String>)
    ensures
        names_of(r@) == dependency_names(doc_view(doc@), prefix@),
{
    let ghost d = doc_view(doc@);
    let ghost sec = dependencies_section();
    let found: Option<&Vec<String>> = match find_section(doc) {
        Some(i) => {
            assert(d.skip(i as int)[0] == d[i as int]);
            match &doc[i].1 {
                Some(keys) => Some(keys),
                None => None,
            }
        },
        None => None,
    };
    let mut r: Vec<String> = Vec::new();
    match found {
        Some(keys) => {
            let ghost ks = names_of(keys@);
            assert(section_keys(d, sec) == ks);
            let mut j: usize = 0;
            assert(ks.take(0) =~= Seq::<Seq<char>>::empty());
            while j < keys.len()
                invariant
                    ks == names_of(keys@),
                    j <= ks.len(),
                    names_of(r@) == ks.take(j as int).filter(|k: Seq<char>| has_prefix(k, prefix@)),
                decreases ks.len() - j,
            {
                let ghost before = r@;
                assert(ks.take(j + 1) =~= ks.take(j as int).push(ks[j as int]));
                proof {
                    ks.take(j as int).lemma_filter_push(ks[j as int], |k: Seq<char>| has_prefix(k, prefix@));
                }
                if starts_with(keys[j].as_str(), prefix) {
                    r.push(keys[j].clone());
                    assert(names_of(r@) =~= names_of(before).push(ks[j as int]));
                }
                j = j + 1;
            }
            assert(ks.take(j as int) =~= ks);
        },
        None => {
            assert(section_keys(d, sec) == Seq::<Seq<char>>::empty());
            assert(names_of(r@) =~= Seq::<Seq<char>>::empty());
        },
    }
    r
}

/// The dependency names that a manifest declares and that begin with
/// `prefix`; an error when the manifest is not a TOML document.
pub fn extract_depdendency(text: &str, prefix: &str) -> (r: Result<Vec<String>, ParseError>)
    ensures
        match toml_document(text@) {
            Some(doc) => r is Ok && names_of(r->Ok_0@) == dependency_names(doc, prefix@),
            None => r is Err,
        },
{
    match parse_toml(text) {
        Ok(doc) => Ok(dependencies_in(&doc, prefix)),
        Err(e) => Err(ParseError { message: toml_error_message(&e) }),
    }
}

} // verus!
