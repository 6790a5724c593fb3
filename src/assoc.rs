//! Association lists from text keys to text values, with unique keys: the
//! storage behind the dictionary and the inverse index.
use vstd::prelude::*;
use crate::text::{split_on, split_chars, chars_of, string_of};

verus! {

/// The model of an association list: (key, value) pairs in storage order.
pub type Pairs = Seq<(Seq<char>, Seq<char>)>;

pub open spec fn keys_unique(s: Pairs) -> bool {
    forall|i: int, j: int| 0 <= i < s.len() && 0 <= j < s.len() && i != j ==> s[i].0 != s[j].0
}

pub open spec fn has_key(s: Pairs, k: Seq<char>) -> bool {
    exists|i: int| 0 <= i < s.len() && s[i].0 == k
}

pub open spec fn key_pos(s: Pairs, k: Seq<char>) -> int {
    choose|i: int| 0 <= i < s.len() && s[i].0 == k
}

/// The value stored under `k`, if any.
pub open spec fn lookup(s: Pairs, k: Seq<char>) -> Option<Seq<char>> {
    if has_key(s, k) {
        Some(s[key_pos(s, k)].1)
    } else {
        None
    }
}

/// Stores `v` under `k`: in place of the old value where `k` is present, at
/// the end otherwise.
pub open spec fn upsert(s: Pairs, k: Seq<char>, v: Seq<char>) -> Pairs {
    if has_key(s, k) {
        s.update(key_pos(s, k), (k, v))
    } else {
        s.push((k, v))
    }
}

/// With unique keys, the position of a key is the one entry that holds it.
pub proof fn lemma_key_pos_unique(s: Pairs, k: Seq<char>, i: int)
    requires
        keys_unique(s),
        0 <= i < s.len(),
        s[i].0 == k,
    ensures
        has_key(s, k),
        key_pos(s, k) == i,
{
}

/// Storing keeps keys unique, makes `k` give `v`, and leaves every other key as it was.
pub proof fn lemma_upsert(s: Pairs, k: Seq<char>, v: Seq<char>)
    requires
        keys_unique(s),
    ensures
        keys_unique(upsert(s, k, v)),
        lookup(upsert(s, k, v), k) == Some(v),
        forall|k2: Seq<char>| k2 != k ==> lookup(upsert(s, k, v), k2) == lookup(s, k2),
{
    let u = upsert(s, k, v);
    if has_key(s, k) {
        let p = key_pos(s, k);
        lemma_key_pos_unique(u, k, p);
    } else {
        lemma_key_pos_unique(u, k, s.len() as int);
    }
    assert forall|k2: Seq<char>| k2 != k implies lookup(u, k2) == lookup(s, k2) by {
        if has_key(s, k2) {
            let q = key_pos(s, k2);
            lemma_key_pos_unique(u, k2, q);
        } else if has_key(u, k2) {
            let q = key_pos(u, k2);
            assert(s[q].0 == k2);
        }
    }
}

/// The position of `k` among the keys of `entries`.
pub fn find_key(entries: &Vec<(String, String)>, k: &String) -> (r: Option<usize>)
    requires
        keys_unique(entries.deep_view()),
    ensures
        match r {
            Some(i) => i < entries.len() && entries.deep_view()[i as int].0 == k@ && has_key(
                entries.deep_view(),
                k@,
            ) && key_pos(entries.deep_view(), k@) == i,
            None => !has_key(entries.deep_view(), k@),
        },
{
    let ghost s = entries.deep_view();
    let mut i: usize = 0;
    while i < entries.len()
        invariant
            i <= entries.len(),
            s == entries.deep_view(),
            keys_unique(s),
            forall|j: int| 0 <= j < i ==> s[j].0 != k@,
        decreases entries.len() - i,
    {
        if entries[i].0 == *k {
            proof {
                lemma_key_pos_unique(s, k@, i as int);
            }
            return Some(i);
        }
        i += 1;
    }
    None
}

/// Stores `v` under `k`.
pub fn upsert_entry(entries: &mut Vec<(String, String)>, k: String, v: String)
    requires
        keys_unique(old(entries).deep_view()),
    ensures
        final(entries).deep_view() == upsert(old(entries).deep_view(), k@, v@),
        keys_unique(final(entries).deep_view()),
{
    let ghost s = entries.deep_view();
    proof {
        lemma_upsert(s, k@, v@);
    }
    match find_key(entries, &k) {
        Some(i) => {
            entries.set(i, (k, v));
            assert(entries.deep_view() =~= upsert(s, k@, v@));
        },
        None => {
            entries.push((k, v));
            assert(entries.deep_view() =~= upsert(s, k@, v@));
        },
    }
}

/// The value stored under `k`, if any.
pub fn get_value<'a>(entries: &'a Vec<(String, String)>, k: &String) -> (r: Option<&'a String>)
    requires
        keys_unique(entries.deep_view()),
    ensures
        match r {
            Some(v) => lookup(entries.deep_view(), k@) == Some(v@),
            None => lookup(entries.deep_view(), k@) is None,
        },
{
    match find_key(entries, k) {
        Some(i) => Some(&entries[i].1),
        None => None,
    }
}

/// The pair that a line holds: the two fields around its one `sep`; a line
/// with any other number of fields holds none.
pub open spec fn line_pair(line: Seq<char>, sep: char) -> Option<(Seq<char>, Seq<char>)> {
    let f = split_on(line, sep);
    if f.len() == 2 {
        Some((f[0], f[1]))
    } else {
        None
    }
}

/// The association list read from `lines`, in order of first appearance of
/// each key; a key given twice keeps the value of its last line.
pub open spec fn lines_model(lines: Seq<Seq<char>>, sep: char) -> Pairs
    decreases lines.len(),
{
    if lines.len() == 0 {
        seq![]
    } else {
        let prev = lines_model(lines.drop_last(), sep);
        match line_pair(lines.last(), sep) {
            Some(e) => upsert(prev, e.0, e.1),
            None => prev,
        }
    }
}

/// Reading lines keeps keys unique.
pub proof fn lemma_lines_model_unique(lines: Seq<Seq<char>>, sep: char)
    ensures
        keys_unique(lines_model(lines, sep)),
    decreases lines.len(),
{
    if lines.len() > 0 {
        lemma_lines_model_unique(lines.drop_last(), sep);
        let prev = lines_model(lines.drop_last(), sep);
        if let Some(e) = line_pair(lines.last(), sep) {
            lemma_upsert(prev, e.0, e.1);
        }
    }
}

/// Reads the pairs of `lines`, each split on `sep`.
pub fn load_pairs(lines: &Vec<String>, sep: char) -> (r: Vec<(String, String)>)
    ensures
        keys_unique(r.deep_view()),
        r.deep_view() == lines_model(lines.deep_view(), sep),
{
    let mut entries: Vec<(String, String)> = Vec::new();
    let mut i: usize = 0;
    while i < lines.len()
        invariant
            i <= lines.len(),
            keys_unique(entries.deep_view()),
            entries.deep_view() == lines_model(lines.deep_view().take(i as int), sep),
        decreases lines.len() - i,
    {
        let ghost taken = lines.deep_view().take(i + 1);
        assert(taken.drop_last() =~= lines.deep_view().take(i as int));
        let cs = chars_of(lines[i].as_str());
        let fields = split_chars(&cs, sep);
        if fields.len() == 2 {
            let k = string_of(&fields[0]);
            let v = string_of(&fields[1]);
            assert(fields[0]@ =~= fields.deep_view()[0]);
            assert(fields[1]@ =~= fields.deep_view()[1]);
            upsert_entry(&mut entries, k, v);
        }
        i += 1;
    }
    assert(lines.deep_view().take(lines.len() as int) =~= lines.deep_view());
    entries
}

} // verus!
