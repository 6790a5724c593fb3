//! The dictionary of base words: one `<word>/<flags>` entry per line.
use vstd::prelude::*;
use crate::assoc::{Pairs, keys_unique, has_key, lookup, lines_model, get_value, load_pairs};
use crate::text::chars_of;

verus! {

/// The entries of a dictionary read from `lines` of the form
/// `<word>/<flags>`, in order of first appearance; a word given twice keeps
/// the flags of its last line.
pub open spec fn dic_model(lines: Seq<Seq<char>>) -> Pairs {
    lines_model(lines, '/')
}

/// The flags of `word` in the entries `s`; empty where `word` is absent.
pub open spec fn flags_of(s: Pairs, word: Seq<char>) -> Seq<char> {
    match lookup(s, word) {
        Some(f) => f,
        None => Seq::empty(),
    }
}

/// Base words, each with its string of single-character flags.
#[derive(Debug, Clone, PartialEq, Eq)]
pub struct Dictionary {
    entries: Vec<(String, String)>,
}

impl View for Dictionary {
    type V = Pairs;

    closed spec fn view(&self) -> Pairs {
        self.entries.deep_view()
    }
}

impl Dictionary {
    pub open spec fn wf(&self) -> bool {
        keys_unique(self@)
    }

    /// Reads a dictionary from its lines; lines that are not of the form
    /// `<word>/<flags>` are skipped.
    pub fn new(lines: &Vec<String>) -> (d: Self)
        ensures
            d.wf(),
            d@ == dic_model(lines.deep_view()),
    {
        let entries = load_pairs(lines, '/');
        Dictionary { entries }
    }

    /// The flags of `word`, in the order the dictionary gives them; empty
    /// where `word` is not a base word.
    pub fn get_rules(&self, word: &str) -> (r: Vec<char>)
        requires
            self.wf(),
        ensures
            r@ == flags_of(self@, word@),
            !has_key(self@, word@) ==> r@.len() == 0,
    {
        let key = word.to_owned();
        match get_value(&self.entries, &key) {
            Some(f) => chars_of(f.as_str()),
            None => Vec::new(),
        }
    }

    /// The number of base words.
    pub fn len(&self) -> (n: usize)
        ensures
            n == self@.len(),
    {
        self.entries.len()
    }

    /// The base word at position `i` and its flags.
    pub fn entry(&self, i: usize) -> (r: (&String, &String))
        requires
            i < self@.len(),
        ensures
            r.0@ == self@[i as int].0,
            r.1@ == self@[i as int].1,
    {
        (&self.entries[i].0, &self.entries[i].1)
    }
}

} // verus!
