//! Resolving a term: the forms its flags make of it, or else its base word
//! from the inverse index.
use vstd::prelude::*;
use crate::affix::{AffFile, AffixError, GroupModel, apply_flag};
use crate::dictionary::{Dictionary, flags_of};
use crate::full_index::FullIndex;
use crate::assoc::lookup;
use crate::text::{chars_of, string_of};

verus! {

/// The characters that `char::to_uppercase` gives for `c`.
pub uninterp spec fn upper_of(c: char) -> Seq<char>;

/// Relies on `char::to_uppercase`: the uppercase mapping of `c`, which
/// depends on `c` alone.
#[verifier::external_body]
fn upper_chars(c: char) -> (r: Vec<char>)
    ensures
        r@ == upper_of(c),
{
    c.to_uppercase().collect()
}

/// `s` with its first character in upper case and the rest unchanged.
pub open spec fn capitalized(s: Seq<char>) -> Seq<char> {
    if s.len() == 0 {
        s
    } else {
        upper_of(s[0]) + s.skip(1)
    }
}

/// `s` with its first character in upper case and the rest unchanged.
pub fn capitalize(s: &str) -> (r: String)
    ensures
        r@ == capitalized(s@),
{
    let cs = chars_of(s);
    if cs.len() == 0 {
        return string_of(&cs);
    }
    let mut out = upper_chars(cs[0]);
    let ghost head = out@;
    let mut j: usize = 1;
    while j < cs.len()
        invariant
            1 <= j <= cs.len(),
            out@ == head + cs@.subrange(1, j as int),
        decreases cs.len() - j,
    {
        out.push(cs[j]);
        assert(cs@.subrange(1, j + 1) =~= cs@.subrange(1, j as int).push(cs@[j as int]));
        j += 1;
    }
    assert(cs@.subrange(1, cs.len() as int) =~= cs@.skip(1));
    string_of(&out)
}

/// The outcome of resolving a term.
#[derive(Debug, Clone, PartialEq, Eq)]
pub enum LookupResult {
    /// The term is a base word: for each of its flags, in order, the forms
    /// that the flag's rules make of it.
    Inflections(Vec<(char, Vec<String>)>),
    /// The term has no flags: its base word from the inverse index, if any.
    BaseForm(Option<String>),
}

/// For each flag in order, the flag and the forms its rules make of `word`.
pub open spec fn inflections(groups: Seq<GroupModel>, word: Seq<char>, flags: Seq<char>) -> Result<
    Seq<(char, Seq<Seq<char>>)>,
    AffixError,
>
    decreases flags.len(),
{
    if flags.len() == 0 {
        Ok(seq![])
    } else {
        match inflections(groups, word, flags.drop_last()) {
            Ok(prev) => match apply_flag(groups, word, flags.last()) {
                Ok(forms) => Ok(prev.push((flags.last(), forms))),
                Err(e) => Err(e),
            },
            Err(e) => Err(e),
        }
    }
}

proof fn lemma_inflections_error_stays(groups: Seq<GroupModel>, word: Seq<char>, flags: Seq<char>, n: int, m: int)
    requires
        0 <= n <= m <= flags.len(),
        inflections(groups, word, flags.take(n)) is Err,
    ensures
        inflections(groups, word, flags.take(m)) == inflections(groups, word, flags.take(n)),
    decreases m - n,
{
    if m > n {
        lemma_inflections_error_stays(groups, word, flags, n, m - 1);
        assert(flags.take(m).drop_last() =~= flags.take(m - 1));
    }
}

/// The flags that a term carries: those of the term, then those of its
/// capitalized form.
pub open spec fn term_flags(entries: crate::assoc::Pairs, term: Seq<char>) -> Seq<char> {
    flags_of(entries, term) + flags_of(entries, capitalized(term))
}

/// Resolves `term` once its flags are known: with flags, the forms that each
/// makes of `term`; without, the base word that the index gives `term`.
pub fn resolve_flags(term: &str, flags: &Vec<char>, aff: &AffFile, index: &FullIndex) -> (r: Result<
    LookupResult,
    AffixError,
>)
    requires
        aff.wf(),
        index.wf(),
    ensures
        flags@.len() > 0 ==> match inflections(aff@, term@, flags@) {
            Ok(v) => r is Ok && r->Ok_0 is Inflections && r->Ok_0->Inflections_0.deep_view() == v,
            Err(e) => r == Err::<LookupResult, AffixError>(e),
        },
        flags@.len() == 0 ==> r is Ok && r->Ok_0 is BaseForm && match lookup(index@, term@) {
            Some(b) => r->Ok_0->BaseForm_0 is Some && r->Ok_0->BaseForm_0->0@ == b,
            None => r->Ok_0->BaseForm_0 is None,
        },
{
    if flags.len() == 0 {
        return Ok(LookupResult::BaseForm(index.lookup(term)));
    }
    let mut out: Vec<(char, Vec<String>)> = Vec::new();
    let mut k: usize = 0;
    assert(flags@.take(0) =~= Seq::<char>::empty());
    assert(out.deep_view() =~= Seq::<(char, Seq<Seq<char>>)>::empty());
    while k < flags.len()
        invariant
            k <= flags.len(),
            aff.wf(),
            inflections(aff@, term@, flags@.take(k as int)) == Ok::<
                Seq<(char, Seq<Seq<char>>)>,
                AffixError,
            >(out.deep_view()),
        decreases flags.len() - k,
    {
        assert(flags@.take(k + 1).drop_last() =~= flags@.take(k as int));
        match aff.apply_rule(term, flags[k]) {
            Ok(forms) => {
                let ghost before = out.deep_view();
                let ghost fv = forms.deep_view();
                out.push((flags[k], forms));
                assert(out.deep_view() =~= before.push((flags@[k as int], fv)));
            },
            Err(e) => {
                proof {
                    lemma_inflections_error_stays(aff@, term@, flags@, k + 1, flags.len() as int);
                    assert(flags@.take(flags.len() as int) =~= flags@);
                }
                return Err(e);
            },
        }
        k += 1;
    }
    assert(flags@.take(flags.len() as int) =~= flags@);
    Ok(LookupResult::Inflections(out))
}

/// Resolves `term`: its flags are those of the term and of its capitalized
/// form, in that order; with any, the forms that each makes of `term`;
/// without, the base word that the index gives `term`.
pub fn resolve(term: &str, dict: &Dictionary, aff: &AffFile, index: &FullIndex) -> (r: Result<
    LookupResult,
    AffixError,
>)
    requires
        dict.wf(),
        aff.wf(),
        index.wf(),
    ensures
        term_flags(dict@, term@).len() > 0 ==> match inflections(aff@, term@, term_flags(dict@, term@)) {
            Ok(v) => r is Ok && r->Ok_0 is Inflections && r->Ok_0->Inflections_0.deep_view() == v,
            Err(e) => r == Err::<LookupResult, AffixError>(e),
        },
        term_flags(dict@, term@).len() == 0 ==> r is Ok && r->Ok_0 is BaseForm && match lookup(index@, term@) {
            Some(b) => r->Ok_0->BaseForm_0 is Some && r->Ok_0->BaseForm_0->0@ == b,
            None => r->Ok_0->BaseForm_0 is None,
        },
{
    let mut flags = dict.get_rules(term);
    let cap = capitalize(term);
    let mut more = dict.get_rules(cap.as_str());
    flags.append(&mut more);
    resolve_flags(term, &flags, aff, index)
}

} // verus!
