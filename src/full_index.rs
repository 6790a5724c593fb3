//! The inverse index: every form that the rules make of every base word,
//! mapped back to its base word, and its one-record-per-line file form
//! `<form>,<base>`.
use vstd::prelude::*;
use crate::affix::{AffFile, AffixError, GroupModel, apply_flag};
use crate::assoc::{Pairs, keys_unique, lookup, line_pair, lines_model, load_pairs, get_value, lemma_lines_model_unique, lemma_upsert};
use crate::dictionary::Dictionary;
use crate::text::{chars_of, string_of, split_on, lemma_split_without_sep, lemma_split_append};

verus! {

/// Each form paired with `base`.
pub open spec fn tag_forms(forms: Seq<Seq<char>>, base: Seq<char>) -> Pairs {
    forms.map_values(|g: Seq<char>| (g, base))
}

/// The records of one base word: for each of its flags in order, each form
/// that the flag's rules make of it, in rule order.
pub open spec fn word_records(groups: Seq<GroupModel>, word: Seq<char>, flags: Seq<char>) -> Result<
    Pairs,
    AffixError,
>
    decreases flags.len(),
{
    if flags.len() == 0 {
        Ok(seq![])
    } else {
        match word_records(groups, word, flags.drop_last()) {
            Ok(prev) => match apply_flag(groups, word, flags.last()) {
                Ok(forms) => Ok(prev + tag_forms(forms, word)),
                Err(e) => Err(e),
            },
            Err(e) => Err(e),
        }
    }
}

/// The records of all base words of `entries`, in dictionary order.
pub open spec fn all_records(groups: Seq<GroupModel>, entries: Pairs) -> Result<Pairs, AffixError>
    decreases entries.len(),
{
    if entries.len() == 0 {
        Ok(seq![])
    } else {
        match all_records(groups, entries.drop_last()) {
            Ok(prev) => match word_records(groups, entries.last().0, entries.last().1) {
                Ok(rs) => Ok(prev + rs),
                Err(e) => Err(e),
            },
            Err(e) => Err(e),
        }
    }
}

proof fn lemma_word_error_stays(groups: Seq<GroupModel>, word: Seq<char>, flags: Seq<char>, n: int, m: int)
    requires
        0 <= n <= m <= flags.len(),
        word_records(groups, word, flags.take(n)) is Err,
    ensures
        word_records(groups, word, flags.take(m)) == word_records(groups, word, flags.take(n)),
    decreases m - n,
{
    if m > n {
        lemma_word_error_stays(groups, word, flags, n, m - 1);
        assert(flags.take(m).drop_last() =~= flags.take(m - 1));
    }
}

proof fn lemma_all_error_stays(groups: Seq<GroupModel>, entries: Pairs, n: int, m: int)
    requires
        0 <= n <= m <= entries.len(),
        all_records(groups, entries.take(n)) is Err,
    ensures
        all_records(groups, entries.take(m)) == all_records(groups, entries.take(n)),
    decreases m - n,
{
    if m > n {
        lemma_all_error_stays(groups, entries, n, m - 1);
        assert(entries.take(m).drop_last() =~= entries.take(m - 1));
    }
}

/// Appends the records of `word` to `out`.
fn push_word_records(aff: &AffFile, word: &String, flags: &Vec<char>, out: &mut Vec<(String, String)>) -> (r:
    Result<(), AffixError>)
    requires
        aff.wf(),
    ensures
        match word_records(aff@, word@, flags@) {
            Ok(rs) => r is Ok && final(out).deep_view() == old(out).deep_view() + rs,
            Err(e) => r == Err::<(), AffixError>(e),
        },
{
    let ghost start = out.deep_view();
    let mut k: usize = 0;
    assert(flags@.take(0) =~= Seq::<char>::empty());
    assert(start + Seq::<(Seq<char>, Seq<char>)>::empty() =~= start);
    while k < flags.len()
        invariant
            k <= flags.len(),
            aff.wf(),
            word_records(aff@, word@, flags@.take(k as int)) is Ok,
            out.deep_view() == start + word_records(aff@, word@, flags@.take(k as int))->Ok_0,
        decreases flags.len() - k,
    {
        let ghost tk = flags@.take(k + 1);
        assert(tk.drop_last() =~= flags@.take(k as int));
        let ghost prev = word_records(aff@, word@, flags@.take(k as int))->Ok_0;
        match aff.apply_rule(word.as_str(), flags[k]) {
            Ok(forms) => {
                let mut j: usize = 0;
                assert(forms.deep_view().take(0) =~= Seq::<Seq<char>>::empty());
                assert(tag_forms(forms.deep_view().take(0), word@) =~= Seq::<(Seq<char>, Seq<char>)>::empty());
                assert(start + prev + Seq::<(Seq<char>, Seq<char>)>::empty() =~= start + prev);
                while j < forms.len()
                    invariant
                        j <= forms.len(),
                        out.deep_view() == start + prev + tag_forms(forms.deep_view().take(j as int), word@),
                    decreases forms.len() - j,
                {
                    let ghost before = out.deep_view();
                    let g = forms[j].clone();
                    let b = word.clone();
                    out.push((g, b));
                    assert(tag_forms(forms.deep_view().take(j + 1), word@) =~= tag_forms(
                        forms.deep_view().take(j as int),
                        word@,
                    ).push((forms.deep_view()[j as int], word@)));
                    assert(out.deep_view() =~= before.push((g@, b@)));
                    j += 1;
                }
                assert(forms.deep_view().take(forms.len() as int) =~= forms.deep_view());
                assert(start + prev + tag_forms(forms.deep_view(), word@) =~= start + (prev + tag_forms(
                    forms.deep_view(),
                    word@,
                )));
            },
            Err(e) => {
                proof {
                    lemma_word_error_stays(aff@, word@, flags@, k + 1, flags.len() as int);
                    assert(flags@.take(flags.len() as int) =~= flags@);
                }
                return Err(e);
            },
        }
        k += 1;
    }
    assert(flags@.take(flags.len() as int) =~= flags@);
    Ok(())
}

/// The records of the inverse index: for every base word of `dict`, every
/// flag of it and every form that the flag's rules make of it, the pair
/// (form, base word).
pub fn generate_full_dictionary(dict: &Dictionary, aff: &AffFile) -> (r: Result<Vec<(String, String)>, AffixError>)
    requires
        aff.wf(),
    ensures
        match all_records(aff@, dict@) {
            Ok(rs) => r is Ok && r->Ok_0.deep_view() == rs,
            Err(e) => r == Err::<Vec<(String, String)>, AffixError>(e),
        },
{
    let ghost es = dict@;
    let mut out: Vec<(String, String)> = Vec::new();
    let mut i: usize = 0;
    assert(es.take(0) =~= Seq::<(Seq<char>, Seq<char>)>::empty());
    assert(out.deep_view() =~= Seq::<(Seq<char>, Seq<char>)>::empty());
    while i < dict.len()
        invariant
            i <= dict@.len(),
            es == dict@,
            aff.wf(),
            all_records(aff@, es.take(i as int)) is Ok,
            out.deep_view() == all_records(aff@, es.take(i as int))->Ok_0,
        decreases dict@.len() - i,
    {
        assert(es.take(i + 1).drop_last() =~= es.take(i as int));
        let (word, flag_text) = dict.entry(i);
        let flags = chars_of(flag_text.as_str());
        match push_word_records(aff, word, &flags, &mut out) {
            Ok(()) => {},
            Err(e) => {
                proof {
                    lemma_all_error_stays(aff@, es, i + 1, es.len() as int);
                    assert(es.take(es.len() as int) =~= es);
                }
                return Err(e);
            },
        }
        i += 1;
    }
    assert(es.take(es.len() as int) =~= es);
    Ok(out)
}

/// The line that holds a record: `<form>,<base>`.
pub open spec fn record_line(rec: (Seq<char>, Seq<char>)) -> Seq<char> {
    rec.0 + seq![','] + rec.1
}

/// The line that holds the record (`form`, `base`).
pub fn format_record(form: &String, base: &String) -> (r: String)
    ensures
        r@ == record_line((form@, base@)),
{
    let mut cs = chars_of(form.as_str());
    cs.push(',');
    let b = chars_of(base.as_str());
    let mut j: usize = 0;
    let ghost head = cs@;
    while j < b.len()
        invariant
            j <= b.len(),
            cs@ == head + b@.take(j as int),
        decreases b.len() - j,
    {
        cs.push(b[j]);
        assert(b@.take(j + 1) =~= b@.take(j as int).push(b@[j as int]));
        j += 1;
    }
    assert(b@.take(b.len() as int) =~= b@);
    string_of(&cs)
}

/// The lines of the index file that holds `recs`.
pub open spec fn record_lines(recs: Pairs) -> Seq<Seq<char>> {
    recs.map_values(|rec: (Seq<char>, Seq<char>)| record_line(rec))
}

/// No form and no base word of `recs` holds the field separator `,`.
pub open spec fn comma_free(recs: Pairs) -> bool {
    forall|r: int| 0 <= r < recs.len() ==> !(#[trigger] recs[r]).0.contains(',') && !recs[r].1.contains(',')
}

/// A record line of comma-free fields reads back as that record.
pub proof fn lemma_record_line_reads_back(p: Seq<char>, q: Seq<char>)
    requires
        !p.contains(','),
        !q.contains(','),
    ensures
        line_pair(record_line((p, q)), ',') == Some((p, q)),
{
    lemma_split_without_sep(p, ',');
    let pc = p.push(',');
    assert(pc.drop_last() =~= p);
    assert(split_on(pc, ',') =~= seq![p, Seq::<char>::empty()]);
    lemma_split_append(pc, q, ',');
    assert(record_line((p, q)) =~= pc + q);
    assert(Seq::<char>::empty() + q =~= q);
    assert(split_on(pc + q, ',') =~= seq![p, q]);
}

proof fn lemma_word_records_contain(
    groups: Seq<GroupModel>,
    word: Seq<char>,
    flags: Seq<char>,
    k: int,
    j: int,
)
    requires
        0 <= k < flags.len(),
        apply_flag(groups, word, flags[k]) is Ok,
        0 <= j < apply_flag(groups, word, flags[k])->Ok_0.len(),
        word_records(groups, word, flags) is Ok,
    ensures
        word_records(groups, word, flags)->Ok_0.contains(
            (apply_flag(groups, word, flags[k])->Ok_0[j], word),
        ),
    decreases flags.len(),
{
    let prev = word_records(groups, word, flags.drop_last())->Ok_0;
    let forms = apply_flag(groups, word, flags.last())->Ok_0;
    let all = word_records(groups, word, flags)->Ok_0;
    assert(all == prev + tag_forms(forms, word));
    if k == flags.len() - 1 {
        assert(all[prev.len() + j] == (forms[j], word));
    } else {
        assert(flags.drop_last()[k] == flags[k]);
        lemma_word_records_contain(groups, word, flags.drop_last(), k, j);
        let x = choose|x: int|
            0 <= x < prev.len() && prev[x] == (apply_flag(groups, word, flags[k])->Ok_0[j], word);
        assert(all[x] == prev[x]);
    }
}

proof fn lemma_all_records_contain(groups: Seq<GroupModel>, entries: Pairs, i: int, k: int, j: int)
    requires
        0 <= i < entries.len(),
        0 <= k < entries[i].1.len(),
        apply_flag(groups, entries[i].0, entries[i].1[k]) is Ok,
        0 <= j < apply_flag(groups, entries[i].0, entries[i].1[k])->Ok_0.len(),
        all_records(groups, entries) is Ok,
    ensures
        all_records(groups, entries)->Ok_0.contains(
            (apply_flag(groups, entries[i].0, entries[i].1[k])->Ok_0[j], entries[i].0),
        ),
    decreases entries.len(),
{
    let rec = (apply_flag(groups, entries[i].0, entries[i].1[k])->Ok_0[j], entries[i].0);
    let prev = all_records(groups, entries.drop_last())->Ok_0;
    let e = entries.last();
    let rs = word_records(groups, e.0, e.1)->Ok_0;
    let all = all_records(groups, entries)->Ok_0;
    assert(all == prev + rs);
    if i == entries.len() - 1 {
        lemma_word_records_contain(groups, e.0, e.1, k, j);
        let x = choose|x: int| 0 <= x < rs.len() && rs[x] == rec;
        assert(all[prev.len() + x] == rec);
    } else {
        assert(entries.drop_last()[i] == entries[i]);
        lemma_all_records_contain(groups, entries.drop_last(), i, k, j);
        let x = choose|x: int| 0 <= x < prev.len() && prev[x] == rec;
        assert(all[x] == rec);
    }
}

/// Looking up `g` in the index read from the lines of `recs` gives `w`, where
/// (`g`, `w`) is among `recs`, every record of form `g` has base word `w`, and
/// no field holds a `,`.
pub proof fn lemma_index_finds(recs: Pairs, g: Seq<char>, w: Seq<char>)
    requires
        recs.contains((g, w)),
        comma_free(recs),
        forall|r: int| 0 <= r < recs.len() && (#[trigger] recs[r]).0 == g ==> recs[r].1 == w,
    ensures
        lookup(lines_model(record_lines(recs), ','), g) == Some(w),
    decreases recs.len(),
{
    let lines = record_lines(recs);
    let init = recs.drop_last();
    assert(lines.drop_last() =~= record_lines(init));
    let last = recs.last();
    assert(lines.last() == record_line(last));
    lemma_record_line_reads_back(last.0, last.1);
    let prev = lines_model(record_lines(init), ',');
    lemma_lines_model_unique(record_lines(init), ',');
    lemma_upsert(prev, last.0, last.1);
    assert(lines_model(lines, ',') == crate::assoc::upsert(prev, last.0, last.1));
    if last.0 != g {
        let x = choose|x: int| 0 <= x < recs.len() && recs[x] == (g, w);
        assert(x != recs.len() - 1);
        assert(init[x] == (g, w));
        assert forall|r: int| 0 <= r < init.len() && (#[trigger] init[r]).0 == g implies init[r].1 == w by {
            assert(init[r] == recs[r]);
        }
        assert forall|r: int| 0 <= r < init.len() implies !(#[trigger] init[r]).0.contains(',')
            && !init[r].1.contains(',') by {
            assert(init[r] == recs[r]);
        }
        lemma_index_finds(init, g, w);
    } else {
        assert(recs[recs.len() - 1].0 == g);
    }
}

/// Round trip: a form `g` that the rules of flag number `k` of base word
/// number `i` make of that word is, in the inverse index read back from the
/// lines of the generated records, mapped to that base word; provided that
/// no other record has form `g` with another base word and that no form or
/// base word holds the field separator `,`.
pub proof fn lemma_round_trip(groups: Seq<GroupModel>, entries: Pairs, i: int, k: int, g: Seq<char>)
    requires
        0 <= i < entries.len(),
        0 <= k < entries[i].1.len(),
        apply_flag(groups, entries[i].0, entries[i].1[k]) is Ok,
        apply_flag(groups, entries[i].0, entries[i].1[k])->Ok_0.contains(g),
        all_records(groups, entries) is Ok,
        comma_free(all_records(groups, entries)->Ok_0),
        forall|r: int|
            0 <= r < all_records(groups, entries)->Ok_0.len() && (#[trigger] all_records(
                groups,
                entries,
            )->Ok_0[r]).0 == g ==> all_records(groups, entries)->Ok_0[r].1 == entries[i].0,
    ensures
        lookup(lines_model(record_lines(all_records(groups, entries)->Ok_0), ','), g) == Some(
            entries[i].0,
        ),
{
    let forms = apply_flag(groups, entries[i].0, entries[i].1[k])->Ok_0;
    let j = choose|j: int| 0 <= j < forms.len() && forms[j] == g;
    lemma_all_records_contain(groups, entries, i, k, j);
    lemma_index_finds(all_records(groups, entries)->Ok_0, g, entries[i].0);
}

/// The inverse index: inflected forms mapped to base words.
#[derive(Debug, Clone, PartialEq, Eq)]
pub struct FullIndex {
    entries: Vec<(String, String)>,
}

impl View for FullIndex {
    type V = Pairs;

    closed spec fn view(&self) -> Pairs {
        self.entries.deep_view()
    }
}

impl FullIndex {
    pub open spec fn wf(&self) -> bool {
        keys_unique(self@)
    }

    /// The base word of `form`, if the index has one.
    pub fn lookup(&self, form: &str) -> (r: Option<String>)
        requires
            self.wf(),
        ensures
            match lookup(self@, form@) {
                Some(b) => r is Some && r->0@ == b,
                None => r is None,
            },
    {
        let key = form.to_owned();
        match get_value(&self.entries, &key) {
            Some(b) => Some(b.clone()),
            None => None,
        }
    }
}

/// Reads the inverse index from its lines `<form>,<base>`; lines with any
/// other number of fields are skipped, and a form given twice keeps the base
/// word of its last line.
pub fn read_full_dictionary(lines: &Vec<String>) -> (r: FullIndex)
    ensures
        r.wf(),
        r@ == lines_model(lines.deep_view(), ','),
{
    FullIndex { entries: load_pairs(lines, ',') }
}

} // verus!
