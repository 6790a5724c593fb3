//! Affix rule files: rule groups keyed by flag, read from `PFX` / `SFX`
//! header and rule lines, and the application of a group's rules to a word.
use vstd::prelude::*;
use crate::text::{tokens, tokenize, chars_of, string_of, lemma_tokens_nonempty};
use crate::pattern::{regex_accepts, regex_finds, search};

verus! {

/// Whether a rule group adds prefixes or suffixes.
#[derive(Debug, Clone, Copy, PartialEq, Eq, Structural)]
pub enum AffixKind {
    Prefix,
    Suffix,
}

/// Why a rule file could not be read, or a rule not applied. Line numbers
/// count from one.
#[derive(Debug, Clone, Copy, PartialEq, Eq, Structural)]
pub enum AffixError {
    /// A rule line with no group header in effect.
    RuleOutOfOrder(usize),
    /// A rule line without its remove, add and condition fields.
    IncompleteRule(usize),
    /// A condition that is not a valid regular expression.
    InvalidCondition,
}

/// The model of a rule: its three fields as written.
pub struct RuleModel {
    pub remove: Seq<char>,
    pub add: Seq<char>,
    pub condition: Seq<char>,
}

/// The model of a rule group.
pub struct GroupModel {
    pub kind: AffixKind,
    pub flag: char,
    pub combinable: bool,
    pub rules: Seq<RuleModel>,
}

/// One rule: the text to strip, the text to add (`0` for none of either),
/// and the condition the word's end must match.
#[derive(Debug, Clone, PartialEq, Eq)]
pub struct Rule {
    pub remove: String,
    pub add: String,
    pub condition: String,
}

impl View for Rule {
    type V = RuleModel;

    open spec fn view(&self) -> RuleModel {
        RuleModel { remove: self.remove@, add: self.add@, condition: self.condition@ }
    }
}

/// The rules that share one flag, in file order.
#[derive(Debug, Clone, PartialEq, Eq)]
pub struct RuleGroup {
    pub kind: AffixKind,
    pub flag: char,
    pub can_be_combined: bool,
    pub rules: Vec<Rule>,
}

pub open spec fn rules_view(rules: Seq<Rule>) -> Seq<RuleModel> {
    rules.map_values(|r: Rule| r@)
}

impl View for RuleGroup {
    type V = GroupModel;

    open spec fn view(&self) -> GroupModel {
        GroupModel {
            kind: self.kind,
            flag: self.flag,
            combinable: self.can_be_combined,
            rules: rules_view(self.rules@),
        }
    }
}

pub open spec fn groups_view(groups: Seq<RuleGroup>) -> Seq<GroupModel> {
    groups.map_values(|g: RuleGroup| g@)
}

pub open spec fn flags_unique(gs: Seq<GroupModel>) -> bool {
    forall|i: int, j: int| 0 <= i < gs.len() && 0 <= j < gs.len() && i != j ==> gs[i].flag != gs[j].flag
}

pub open spec fn has_group(gs: Seq<GroupModel>, flag: char) -> bool {
    exists|i: int| 0 <= i < gs.len() && gs[i].flag == flag
}

pub open spec fn group_pos(gs: Seq<GroupModel>, flag: char) -> int {
    choose|i: int| 0 <= i < gs.len() && gs[i].flag == flag
}

/// The group of `flag`, if any.
pub open spec fn group_of(gs: Seq<GroupModel>, flag: char) -> Option<GroupModel> {
    if has_group(gs, flag) {
        Some(gs[group_pos(gs, flag)])
    } else {
        None
    }
}

/// The rule kind that a marker token names.
pub open spec fn kind_of(t: Seq<char>) -> Option<AffixKind> {
    if t == seq!['P', 'F', 'X'] {
        Some(AffixKind::Prefix)
    } else if t == seq!['S', 'F', 'X'] {
        Some(AffixKind::Suffix)
    } else {
        None
    }
}

/// The combinability that a `Y` / `N` token names.
pub open spec fn yes_no(t: Seq<char>) -> Option<bool> {
    if t == seq!['Y'] {
        Some(true)
    } else if t == seq!['N'] {
        Some(false)
    } else {
        None
    }
}

/// A line of at least three tokens whose first names a rule kind.
pub open spec fn is_affix_line(line: Seq<char>) -> bool {
    tokens(line).len() > 2 && kind_of(tokens(line)[0]) is Some
}

/// An affix line whose third token is neither `Y` nor `N`.
pub open spec fn is_rule_line(line: Seq<char>) -> bool {
    is_affix_line(line) && yes_no(tokens(line)[2]) is None
}

/// What the reader knows after some lines: the groups so far, and the flag
/// of the header in effect.
pub struct ParseState {
    pub groups: Seq<GroupModel>,
    pub current: Option<char>,
}

/// Reading line number `n` in state `st`.
pub open spec fn parse_step(st: ParseState, line: Seq<char>, n: nat) -> Result<ParseState, AffixError> {
    let t = tokens(line);
    if is_affix_line(line) {
        match yes_no(t[2]) {
            Some(comb) => {
                let flag = t[1][0];
                let gs = if has_group(st.groups, flag) {
                    st.groups
                } else {
                    st.groups.push(
                        GroupModel {
                            kind: kind_of(t[0])->0,
                            flag,
                            combinable: comb,
                            rules: seq![],
                        },
                    )
                };
                Ok(ParseState { groups: gs, current: Some(flag) })
            },
            None => {
                if st.current is Some && has_group(st.groups, st.current->0) {
                    if t.len() < 5 {
                        Err(AffixError::IncompleteRule(n as usize))
                    } else {
                        let p = group_pos(st.groups, st.current->0);
                        let g = st.groups[p];
                        let rule = RuleModel { remove: t[2], add: t[3], condition: t[4] };
                        Ok(
                            ParseState {
                                groups: st.groups.update(p, GroupModel { rules: g.rules.push(rule), ..g }),
                                current: st.current,
                            },
                        )
                    }
                } else {
                    Err(AffixError::RuleOutOfOrder(n as usize))
                }
            },
        }
    } else {
        Ok(ParseState { groups: st.groups, current: None })
    }
}

/// Reading `lines` in order; the first error ends the reading.
pub open spec fn aff_parse(lines: Seq<Seq<char>>) -> Result<ParseState, AffixError>
    decreases lines.len(),
{
    if lines.len() == 0 {
        Ok(ParseState { groups: seq![], current: None })
    } else {
        match aff_parse(lines.drop_last()) {
            Ok(st) => parse_step(st, lines.last(), lines.len()),
            Err(e) => Err(e),
        }
    }
}

/// Once reading fails, further lines keep the same error.
pub proof fn lemma_parse_error_stays(lines: Seq<Seq<char>>, n: int, m: int)
    requires
        0 <= n <= m <= lines.len(),
        aff_parse(lines.take(n)) is Err,
    ensures
        aff_parse(lines.take(m)) == aff_parse(lines.take(n)),
    decreases m - n,
{
    if m > n {
        lemma_parse_error_stays(lines, n, m - 1);
        assert(lines.take(m).drop_last() =~= lines.take(m - 1));
    }
}

/// A rule line read while no header is in effect (on the first line, or
/// right after a line that is not a `PFX` / `SFX` line) fails the reading:
/// with an out-of-order error for that line, unless an earlier line failed it.
pub proof fn lemma_rule_before_header(lines: Seq<Seq<char>>, k: int)
    requires
        0 <= k < lines.len(),
        is_rule_line(lines[k]),
        k == 0 || !is_affix_line(lines[k - 1]),
    ensures
        aff_parse(lines) is Err,
        aff_parse(lines.take(k)) is Ok ==> aff_parse(lines) == Err::<ParseState, AffixError>(
            AffixError::RuleOutOfOrder((k + 1) as usize),
        ),
{
    assert(lines.take(k + 1).drop_last() =~= lines.take(k));
    assert(lines.take(k + 1).last() == lines[k]);
    if k > 0 {
        assert(lines.take(k).drop_last() =~= lines.take(k - 1));
        assert(lines.take(k).last() == lines[k - 1]);
    } else {
        assert(lines.take(0) =~= Seq::<Seq<char>>::empty());
    }
    lemma_parse_error_stays(lines, k + 1, lines.len() as int);
    assert(lines.take(lines.len() as int) =~= lines);
}

fn kind_token(t: &Vec<char>) -> (r: Option<AffixKind>)
    ensures
        r == kind_of(t@),
{
    if t.len() == 3 && t[0] == 'P' && t[1] == 'F' && t[2] == 'X' {
        assert(t@ =~= seq!['P', 'F', 'X']);
        Some(AffixKind::Prefix)
    } else if t.len() == 3 && t[0] == 'S' && t[1] == 'F' && t[2] == 'X' {
        assert(t@ =~= seq!['S', 'F', 'X']);
        Some(AffixKind::Suffix)
    } else {
        assert(t@ != seq!['P', 'F', 'X'] && t@ != seq!['S', 'F', 'X']) by {
            if t@ == seq!['P', 'F', 'X'] || t@ == seq!['S', 'F', 'X'] {
                assert(t@.len() == 3);
                assert(t@[0] == seq!['P', 'F', 'X'][0] || t@[0] == seq!['S', 'F', 'X'][0]);
            }
        }
        None
    }
}

fn yes_no_token(t: &Vec<char>) -> (r: Option<bool>)
    ensures
        r == yes_no(t@),
{
    if t.len() == 1 && t[0] == 'Y' {
        assert(t@ =~= seq!['Y']);
        Some(true)
    } else if t.len() == 1 && t[0] == 'N' {
        assert(t@ =~= seq!['N']);
        Some(false)
    } else {
        assert(t@ != seq!['Y'] && t@ != seq!['N']) by {
            if t@ == seq!['Y'] || t@ == seq!['N'] {
                assert(t@.len() == 1);
                assert(t@[0] == seq!['Y'][0] || t@[0] == seq!['N'][0]);
            }
        }
        None
    }
}

fn find_group(groups: &Vec<RuleGroup>, flag: char) -> (r: Option<usize>)
    requires
        flags_unique(groups_view(groups@)),
    ensures
        match r {
            Some(p) => p < groups.len() && has_group(groups_view(groups@), flag) && group_pos(
                groups_view(groups@),
                flag,
            ) == p,
            None => !has_group(groups_view(groups@), flag),
        },
{
    let ghost gs = groups_view(groups@);
    let mut i: usize = 0;
    while i < groups.len()
        invariant
            i <= groups.len(),
            gs == groups_view(groups@),
            flags_unique(gs),
            forall|j: int| 0 <= j < i ==> gs[j].flag != flag,
        decreases groups.len() - i,
    {
        if groups[i].flag == flag {
            assert(gs[i as int].flag == flag);
            assert(has_group(gs, flag));
            return Some(i);
        }
        i += 1;
    }
    None
}

fn push_group(groups: &mut Vec<RuleGroup>, g: RuleGroup)
    requires
        flags_unique(groups_view(old(groups)@)),
        !has_group(groups_view(old(groups)@), g.flag),
    ensures
        groups_view(final(groups)@) == groups_view(old(groups)@).push(g@),
        flags_unique(groups_view(final(groups)@)),
        forall|f: char| #[trigger]
            has_group(groups_view(final(groups)@), f) <==> (has_group(groups_view(old(groups)@), f)
                || f == g.flag),
{
    let ghost gs = groups_view(groups@);
    groups.push(g);
    let ghost gv = groups_view(groups@);
    assert(gv =~= gs.push(g@));
    assert(gv[gs.len() as int].flag == g.flag);
    assert forall|f: char| #[trigger] has_group(gv, f) <==> (has_group(gs, f) || f == g.flag) by {
        if has_group(gv, f) {
            let j = choose|j: int| 0 <= j < gv.len() && gv[j].flag == f;
            if j < gs.len() {
                assert(gs[j].flag == f);
            }
        }
        if has_group(gs, f) {
            let j = choose|j: int| 0 <= j < gs.len() && gs[j].flag == f;
            assert(gv[j].flag == f);
        }
    }
}

fn add_rule(groups: &mut Vec<RuleGroup>, p: usize, rule: Rule)
    requires
        p < old(groups).len(),
        flags_unique(groups_view(old(groups)@)),
    ensures
        flags_unique(groups_view(final(groups)@)),
        forall|f: char| #[trigger]
            has_group(groups_view(final(groups)@), f) == has_group(groups_view(old(groups)@), f),
        groups_view(final(groups)@) == groups_view(old(groups)@).update(
            p as int,
            GroupModel {
                rules: groups_view(old(groups)@)[p as int].rules.push(rule@),
                ..groups_view(old(groups)@)[p as int]
            },
        ),
{
    let ghost gs = groups_view(groups@);
    let ghost old_rules = groups@[p as int].rules@;
    groups[p].rules.push(rule);
    assert(rules_view(groups@[p as int].rules@) =~= rules_view(old_rules).push(rule@));
    assert(groups_view(groups@) =~= groups_view(old(groups)@).update(
        p as int,
        GroupModel {
            rules: groups_view(old(groups)@)[p as int].rules.push(rule@),
            ..groups_view(old(groups)@)[p as int]
        },
    ));
    let ghost gv = groups_view(groups@);
    assert(forall|j: int| 0 <= j < gv.len() ==> gv[j].flag == gs[j].flag);
    assert forall|f: char| #[trigger] has_group(gv, f) == has_group(gs, f) by {
        if has_group(gv, f) {
            let j = choose|j: int| 0 <= j < gv.len() && gv[j].flag == f;
            assert(gs[j].flag == f);
        }
        if has_group(gs, f) {
            let j = choose|j: int| 0 <= j < gs.len() && gs[j].flag == f;
            assert(gv[j].flag == f);
        }
    }
}

/// Reads line number `n`, whose characters are `cs`, into the groups and the flag in effect.
fn read_line(groups: &mut Vec<RuleGroup>, current: &mut Option<char>, cs: &Vec<char>, n: usize) -> (r:
    Result<(), AffixError>)
    requires
        flags_unique(groups_view(old(groups)@)),
        *old(current) matches Some(f) ==> has_group(groups_view(old(groups)@), f),
    ensures
        flags_unique(groups_view(final(groups)@)),
        *final(current) matches Some(f) ==> has_group(groups_view(final(groups)@), f),
        match r {
            Ok(_) => parse_step(
                ParseState { groups: groups_view(old(groups)@), current: *old(current) },
                cs@,
                n as nat,
            ) == Ok::<ParseState, AffixError>(
                ParseState { groups: groups_view(final(groups)@), current: *final(current) },
            ),
            Err(e) => parse_step(
                ParseState { groups: groups_view(old(groups)@), current: *old(current) },
                cs@,
                n as nat,
            ) == Err::<ParseState, AffixError>(e),
        },
{
    let t = tokenize(cs);
    proof {
        lemma_tokens_nonempty(cs@);
    }
    let kind = if t.len() > 2 {
        kind_token(&t[0])
    } else {
        None
    };
    proof {
        if t.len() > 2 {
            assert(t@[0]@ == t.deep_view()[0]);
        }
    }
    match kind {
        Some(k) => {
            assert(t@[2]@ == t.deep_view()[2]);
            match yes_no_token(&t[2]) {
                Some(comb) => {
                    assert(t@[1]@ == t.deep_view()[1]);
                    assert(t.deep_view()[1].len() > 0);
                    let flag = t[1][0];
                    match find_group(groups, flag) {
                        Some(_) => {},
                        None => {
                            let g = RuleGroup {
                                kind: k,
                                flag,
                                can_be_combined: comb,
                                rules: Vec::new(),
                            };
                            assert(g@.rules =~= Seq::<RuleModel>::empty());
                            push_group(groups, g);
                        },
                    }
                    *current = Some(flag);
                },
                None => {
                    let p = match *current {
                        Some(f) => find_group(groups, f),
                        None => None,
                    };
                    match p {
                        None => {
                            return Err(AffixError::RuleOutOfOrder(n));
                        },
                        Some(p) => {
                            if t.len() < 5 {
                                return Err(AffixError::IncompleteRule(n));
                            }
                            let rule = Rule {
                                remove: string_of(&t[2]),
                                add: string_of(&t[3]),
                                condition: string_of(&t[4]),
                            };
                            assert(t@[3]@ == t.deep_view()[3]);
                            assert(t@[4]@ == t.deep_view()[4]);
                            add_rule(groups, p, rule);
                        },
                    }
                },
            }
        },
        None => {
            *current = None;
        },
    }
    Ok(())
}

/// The text that a rule field stands for: `0` stands for none.
pub open spec fn field_value(s: Seq<char>) -> Seq<char> {
    if s == seq!['0'] {
        Seq::empty()
    } else {
        s
    }
}

/// The regular expression that tests a rule's condition: anchored at the
/// word's end for suffixes, at its start for prefixes.
pub open spec fn anchored(kind: AffixKind, condition: Seq<char>) -> Seq<char> {
    match kind {
        AffixKind::Suffix => field_value(condition).push('$'),
        AffixKind::Prefix => seq!['^'] + field_value(condition),
    }
}

pub open spec fn ends_with(w: Seq<char>, s: Seq<char>) -> bool {
    s.len() <= w.len() && w.subrange(w.len() - s.len(), w.len() as int) == s
}

pub open spec fn starts_with(w: Seq<char>, s: Seq<char>) -> bool {
    s.len() <= w.len() && w.subrange(0, s.len() as int) == s
}

/// The form that `rule` makes of `word`: the remove text is stripped from the
/// rule's end of the word where it stands there (else the word is kept
/// whole), and the add text is put at that end.
pub open spec fn inflect(kind: AffixKind, rule: RuleModel, word: Seq<char>) -> Seq<char> {
    let rm = field_value(rule.remove);
    let ad = field_value(rule.add);
    match kind {
        AffixKind::Suffix => (if ends_with(word, rm) {
            word.subrange(0, word.len() - rm.len())
        } else {
            word
        }) + ad,
        AffixKind::Prefix => ad + (if starts_with(word, rm) {
            word.subrange(rm.len() as int, word.len() as int)
        } else {
            word
        }),
    }
}

/// The forms that `rules` make of `word`: one for each rule whose condition
/// matches, in rule order; an invalid condition fails the whole.
pub open spec fn apply_rules(kind: AffixKind, rules: Seq<RuleModel>, word: Seq<char>) -> Result<
    Seq<Seq<char>>,
    AffixError,
>
    decreases rules.len(),
{
    if rules.len() == 0 {
        Ok(seq![])
    } else {
        match apply_rules(kind, rules.drop_last(), word) {
            Ok(prev) => {
                let pat = anchored(kind, rules.last().condition);
                if !regex_accepts(pat) {
                    Err(AffixError::InvalidCondition)
                } else if regex_finds(pat, word) {
                    Ok(prev.push(inflect(kind, rules.last(), word)))
                } else {
                    Ok(prev)
                }
            },
            Err(e) => Err(e),
        }
    }
}

/// The rules whose condition matches `word`, in rule order.
pub open spec fn matching_rules(kind: AffixKind, rules: Seq<RuleModel>, word: Seq<char>) -> Seq<RuleModel> {
    rules.filter(|r: RuleModel| regex_finds(anchored(kind, r.condition), word))
}

/// Applying rules makes exactly one form for each rule whose condition
/// matches the word, in rule order, and none for any other rule.
pub proof fn lemma_one_form_per_matching_rule(kind: AffixKind, rules: Seq<RuleModel>, word: Seq<char>)
    requires
        apply_rules(kind, rules, word) is Ok,
    ensures
        apply_rules(kind, rules, word)->Ok_0 == matching_rules(kind, rules, word).map_values(
            |r: RuleModel| inflect(kind, r, word),
        ),
    decreases rules.len(),
{
    reveal(Seq::filter);
    if rules.len() > 0 {
        lemma_one_form_per_matching_rule(kind, rules.drop_last(), word);
        assert(apply_rules(kind, rules, word)->Ok_0 =~= matching_rules(kind, rules, word).map_values(
            |r: RuleModel| inflect(kind, r, word),
        ));
    } else {
        assert(apply_rules(kind, rules, word)->Ok_0 =~= matching_rules(kind, rules, word).map_values(
            |r: RuleModel| inflect(kind, r, word),
        ));
    }
}

/// What applying the rules of `flag` to `word` gives: no forms where no group
/// has that flag.
pub open spec fn apply_flag(groups: Seq<GroupModel>, word: Seq<char>, flag: char) -> Result<
    Seq<Seq<char>>,
    AffixError,
> {
    match group_of(groups, flag) {
        Some(g) => apply_rules(g.kind, g.rules, word),
        None => Ok(seq![]),
    }
}

/// Once applying fails, further rules keep the same error.
pub proof fn lemma_apply_error_stays(kind: AffixKind, rules: Seq<RuleModel>, word: Seq<char>, n: int, m: int)
    requires
        0 <= n <= m <= rules.len(),
        apply_rules(kind, rules.take(n), word) is Err,
    ensures
        apply_rules(kind, rules.take(m), word) == apply_rules(kind, rules.take(n), word),
    decreases m - n,
{
    if m > n {
        lemma_apply_error_stays(kind, rules, word, n, m - 1);
        assert(rules.take(m).drop_last() =~= rules.take(m - 1));
    }
}

/// A remove field of `0` strips nothing: the add text is put to the whole
/// word. An add field of `0` adds nothing: what is left is the word, or a
/// part of it at the rule's other end.
pub proof fn lemma_sentinels(kind: AffixKind, rule: RuleModel, word: Seq<char>)
    ensures
        rule.remove == seq!['0'] ==> inflect(kind, rule, word) == match kind {
            AffixKind::Suffix => word + field_value(rule.add),
            AffixKind::Prefix => field_value(rule.add) + word,
        },
        rule.add == seq!['0'] ==> match kind {
            AffixKind::Suffix => inflect(kind, rule, word) == word.take(
                inflect(kind, rule, word).len() as int,
            ),
            AffixKind::Prefix => inflect(kind, rule, word) == word.skip(
                word.len() - inflect(kind, rule, word).len(),
            ),
        },
{
    let e = Seq::<char>::empty();
    if rule.remove == seq!['0'] {
        assert(word.subrange(word.len() as int, word.len() as int) =~= e);
        assert(word.subrange(0, 0) =~= e);
        assert(word.subrange(0, word.len() as int) =~= word);
    }
    if rule.add == seq!['0'] {
        let r = inflect(kind, rule, word);
        assert(field_value(rule.add) =~= e);
        match kind {
            AffixKind::Suffix => {
                assert(r =~= word.take(r.len() as int));
            },
            AffixKind::Prefix => {
                assert(r =~= word.skip(word.len() - r.len()));
            },
        }
    }
}

fn field_chars(s: &String) -> (r: Vec<char>)
    ensures
        r@ == field_value(s@),
{
    let cs = chars_of(s.as_str());
    if cs.len() == 1 && cs[0] == '0' {
        assert(cs@ =~= seq!['0']);
        Vec::new()
    } else {
        assert(cs@ != seq!['0']) by {
            if cs@ == seq!['0'] {
                assert(cs@.len() == 1 && cs@[0] == seq!['0'][0]);
            }
        }
        cs
    }
}

/// Appends `src[from..to]` to `out`.
fn push_range(out: &mut Vec<char>, src: &Vec<char>, from: usize, to: usize)
    requires
        from <= to <= src.len(),
    ensures
        final(out)@ == old(out)@ + src@.subrange(from as int, to as int),
{
    let mut i: usize = from;
    while i < to
        invariant
            from <= i <= to <= src.len(),
            out@ == old(out)@ + src@.subrange(from as int, i as int),
        decreases to - i,
    {
        out.push(src[i]);
        assert(src@.subrange(from as int, i + 1) =~= src@.subrange(from as int, i as int).push(src@[i as int]));
        i += 1;
    }
}

fn has_suffix(w: &Vec<char>, s: &Vec<char>) -> (r: bool)
    ensures
        r == ends_with(w@, s@),
{
    if s.len() > w.len() {
        return false;
    }
    let off: usize = w.len() - s.len();
    let mut j: usize = 0;
    while j < s.len()
        invariant
            off + s.len() == w.len(),
            j <= s.len(),
            forall|k: int| 0 <= k < j ==> w@[off + k] == s@[k],
        decreases s.len() - j,
    {
        if w[off + j] != s[j] {
            assert(w@.subrange(off as int, w.len() as int)[j as int] != s@[j as int]);
            return false;
        }
        j += 1;
    }
    assert(w@.subrange(off as int, w.len() as int) =~= s@);
    true
}

fn has_prefix(w: &Vec<char>, s: &Vec<char>) -> (r: bool)
    ensures
        r == starts_with(w@, s@),
{
    if s.len() > w.len() {
        return false;
    }
    let mut j: usize = 0;
    while j < s.len()
        invariant
            s.len() <= w.len(),
            j <= s.len(),
            forall|k: int| 0 <= k < j ==> w@[k] == s@[k],
        decreases s.len() - j,
    {
        if w[j] != s[j] {
            assert(w@.subrange(0, s.len() as int)[j as int] != s@[j as int]);
            return false;
        }
        j += 1;
    }
    assert(w@.subrange(0, s.len() as int) =~= s@);
    true
}

/// The regular expression that tests `condition` for a rule of `kind`.
pub fn anchored_pattern(kind: AffixKind, condition: &String) -> (r: String)
    ensures
        r@ == anchored(kind, condition@),
{
    let c = field_chars(condition);
    let mut p: Vec<char> = Vec::new();
    match kind {
        AffixKind::Suffix => {
            push_range(&mut p, &c, 0, c.len());
            p.push('$');
            assert(p@ =~= anchored(kind, condition@));
        },
        AffixKind::Prefix => {
            p.push('^');
            push_range(&mut p, &c, 0, c.len());
            assert(p@ =~= anchored(kind, condition@));
        },
    }
    string_of(&p)
}

/// The form that `rule`, of a group of `kind`, makes of `word`.
pub fn rule_form(kind: AffixKind, rule: &Rule, word: &str) -> (r: String)
    ensures
        r@ == inflect(kind, rule@, word@),
{
    let w = chars_of(word);
    let rm = field_chars(&rule.remove);
    let ad = field_chars(&rule.add);
    let mut out: Vec<char> = Vec::new();
    match kind {
        AffixKind::Suffix => {
            if has_suffix(&w, &rm) {
                push_range(&mut out, &w, 0, w.len() - rm.len());
            } else {
                push_range(&mut out, &w, 0, w.len());
                assert(w@.subrange(0, w.len() as int) =~= w@);
            }
            push_range(&mut out, &ad, 0, ad.len());
            assert(ad@.subrange(0, ad.len() as int) =~= ad@);
            assert(out@ =~= inflect(kind, rule@, word@));
        },
        AffixKind::Prefix => {
            push_range(&mut out, &ad, 0, ad.len());
            assert(ad@.subrange(0, ad.len() as int) =~= ad@);
            if has_prefix(&w, &rm) {
                push_range(&mut out, &w, rm.len(), w.len());
            } else {
                push_range(&mut out, &w, 0, w.len());
                assert(w@.subrange(0, w.len() as int) =~= w@);
            }
            assert(out@ =~= inflect(kind, rule@, word@));
        },
    }
    string_of(&out)
}

/// A store of rule groups, at most one per flag.
#[derive(Debug, Clone, PartialEq, Eq)]
pub struct AffFile {
    groups: Vec<RuleGroup>,
}

impl View for AffFile {
    type V = Seq<GroupModel>;

    closed spec fn view(&self) -> Seq<GroupModel> {
        groups_view(self.groups@)
    }
}

impl AffFile {
    pub open spec fn wf(&self) -> bool {
        flags_unique(self@)
    }

    /// Reads a rule file from its lines. A header line
    /// `<PFX|SFX> <flag> <Y|N> ...` creates the group of its flag, if there
    /// is none yet, and puts that flag in effect; a rule line
    /// `<PFX|SFX> <flag> <remove> <add> <condition>` joins the group in
    /// effect; any other line ends the effect.
    pub fn new(lines: &Vec<String>) -> (r: Result<AffFile, AffixError>)
        ensures
            match r {
                Ok(a) => a.wf() && aff_parse(lines.deep_view()) is Ok && a@ == aff_parse(
                    lines.deep_view(),
                )->Ok_0.groups,
                Err(e) => aff_parse(lines.deep_view()) == Err::<ParseState, AffixError>(e),
            },
    {
        let ghost ls = lines.deep_view();
        let mut groups: Vec<RuleGroup> = Vec::new();
        let mut current: Option<char> = None;
        let mut i: usize = 0;
        assert(ls.take(0) =~= Seq::<Seq<char>>::empty());
        assert(groups_view(groups@) =~= Seq::<GroupModel>::empty());
        while i < lines.len()
            invariant
                i <= lines.len(),
                ls == lines.deep_view(),
                flags_unique(groups_view(groups@)),
                current matches Some(f) ==> has_group(groups_view(groups@), f),
                aff_parse(ls.take(i as int)) == Ok::<ParseState, AffixError>(
                    ParseState { groups: groups_view(groups@), current },
                ),
            decreases lines.len() - i,
        {
            let ghost line = ls[i as int];
            assert(ls.take(i + 1).drop_last() =~= ls.take(i as int));
            assert(ls.take(i + 1).last() == line);
            let cs = chars_of(lines[i].as_str());
            assert(cs@ == line);
            match read_line(&mut groups, &mut current, &cs, i + 1) {
                Ok(()) => {},
                Err(e) => {
                    proof {
                        lemma_parse_error_stays(ls, i + 1, ls.len() as int);
                        assert(ls.take(ls.len() as int) =~= ls);
                    }
                    return Err(e);
                },
            }
            i += 1;
        }
        assert(ls.take(lines.len() as int) =~= ls);
        Ok(AffFile { groups })
    }
    /// The forms that the rules of `rule_flag` make of `word`, in rule order;
    /// none where no group has that flag.
    pub fn apply_rule(&self, word: &str, rule_flag: char) -> (r: Result<Vec<String>, AffixError>)
        requires
            self.wf(),
        ensures
            match apply_flag(self@, word@, rule_flag) {
                Ok(forms) => r is Ok && r->Ok_0.deep_view() == forms,
                Err(e) => r == Err::<Vec<String>, AffixError>(e),
            },
    {
        let mut forms: Vec<String> = Vec::new();
        let p = match find_group(&self.groups, rule_flag) {
            Some(p) => p,
            None => {
                assert(forms.deep_view() =~= Seq::<Seq<char>>::empty());
                return Ok(forms);
            },
        };
        let group = &self.groups[p];
        let ghost rs = rules_view(group.rules@);
        assert(group_of(self@, rule_flag) == Some(group@));
        let mut i: usize = 0;
        assert(rs.take(0) =~= Seq::<RuleModel>::empty());
        assert(forms.deep_view() =~= Seq::<Seq<char>>::empty());
        while i < group.rules.len()
            invariant
                i <= group.rules.len(),
                rs == rules_view(group.rules@),
                group_of(self@, rule_flag) == Some(group@),
                apply_rules(group.kind, rs.take(i as int), word@) == Ok::<Seq<Seq<char>>, AffixError>(
                    forms.deep_view(),
                ),
            decreases group.rules.len() - i,
        {
            let rule = &group.rules[i];
            assert(rs.take(i + 1).drop_last() =~= rs.take(i as int));
            assert(rs.take(i + 1).last() == rule@);
            let pat = anchored_pattern(group.kind, &rule.condition);
            match search(pat.as_str(), word) {
                Ok(found) => {
                    if found {
                        let ghost before = forms.deep_view();
                        let f = rule_form(group.kind, rule, word);
                        forms.push(f);
                        assert(forms.deep_view() =~= before.push(f@));
                    }
                },
                Err(_) => {
                    proof {
                        assert(!regex_accepts(anchored(group.kind, rs.take(i + 1).last().condition)));
                        assert(apply_rules(group.kind, rs.take(i + 1), word@) == Err::<
                            Seq<Seq<char>>,
                            AffixError,
                        >(AffixError::InvalidCondition));
                        lemma_apply_error_stays(group.kind, rs, word@, i + 1, rs.len() as int);
                        assert(rs.take(rs.len() as int) =~= rs);
                    }
                    return Err(AffixError::InvalidCondition);
                },
            }
            i += 1;
        }
        assert(rs.take(rs.len() as int) =~= rs);
        Ok(forms)
    }
}

} // verus!
