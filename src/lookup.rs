use vstd::prelude::*;
use crate::text::contains_str;

verus! {

/// The file names that hold a configuration, in order of preference.
pub fn config_names() -> (r: Vec<String>)
    ensures
        r.deep_view() == seq![
            seq!['c', 'o', 'm', 'm', 'a', 'n', 'd', 's', '.', 'y', 'm', 'l'],
            seq!['C', 'o', 'm', 'm', 'a', 'n', 'd', 's', '.', 'y', 'm', 'l'],
            seq!['w', 'k', '.', 'y', 'm', 'l'],
        ],
{
    proof {
        reveal_strlit("commands.yml");
        reveal_strlit("Commands.yml");
        reveal_strlit("wk.yml");
    }
    let a = String::from_str("commands.yml");
    let b = String::from_str("Commands.yml");
    let c = String::from_str("wk.yml");
    assert(a@ =~= seq!['c', 'o', 'm', 'm', 'a', 'n', 'd', 's', '.', 'y', 'm', 'l']);
    assert(b@ =~= seq!['C', 'o', 'm', 'm', 'a', 'n', 'd', 's', '.', 'y', 'm', 'l']);
    assert(c@ =~= seq!['w', 'k', '.', 'y', 'm', 'l']);
    let mut r: Vec<String> = Vec::new();
    r.push(a);
    r.push(b);
    r.push(c);
    assert(r.deep_view()[0] == a@);
    assert(r.deep_view()[1] == b@);
    assert(r.deep_view()[2] == c@);
    assert(r.deep_view() =~= seq![
        seq!['c', 'o', 'm', 'm', 'a', 'n', 'd', 's', '.', 'y', 'm', 'l'],
        seq!['C', 'o', 'm', 'm', 'a', 'n', 'd', 's', '.', 'y', 'm', 'l'],
        seq!['w', 'k', '.', 'y', 'm', 'l'],
    ]);
    r
}

/// The position of the first of `entries`, the names of a directory's files
/// in the order the directory lists them, that is one of `patterns`.
pub fn find_config(entries: &Vec<String>, patterns: &Vec<String>) -> (r: Option<usize>)
    ensures
        r is None ==> forall|i: int|
            0 <= i < entries@.len() ==> !patterns.deep_view().contains(#[trigger] entries@[i]@),
        r matches Some(i) ==> i < entries@.len() && patterns.deep_view().contains(entries@[i as int]@)
            && forall|j: int| 0 <= j < i ==> !patterns.deep_view().contains(#[trigger] entries@[j]@),
{
    let mut i: usize = 0;
    while i < entries.len()
        invariant
            i <= entries@.len(),
            forall|j: int| 0 <= j < i ==> !patterns.deep_view().contains(#[trigger] entries@[j]@),
        decreases entries@.len() - i,
    {
        if contains_str(patterns, entries[i].as_str()) {
            return Some(i);
        }
        i = i + 1;
    }
    None
}

} // verus!
