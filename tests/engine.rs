use affix_rules::{
    AffFile, AffixError, AffixKind, Dictionary, LookupResult, Rule, anchored_pattern, capitalize,
    format_record, generate_full_dictionary, read_full_dictionary, resolve, resolve_flags, rule_form,
};

fn lines(ls: &[&str]) -> Vec<String> {
    ls.iter().map(|l| l.to_string()).collect()
}

fn strings(ls: &[&str]) -> Vec<String> {
    lines(ls)
}

#[test]
fn absent_word_has_no_flags() {
    let d = Dictionary::new(&lines(&["dom/A", "kot/AB"]));
    assert_eq!(d.get_rules("pies"), Vec::<char>::new());
    assert_eq!(d.get_rules(""), Vec::<char>::new());
    assert_eq!(d.get_rules("Dom"), Vec::<char>::new());
}

#[test]
fn flags_keep_their_order_and_duplicates() {
    let d = Dictionary::new(&lines(&["kot/BAB"]));
    assert_eq!(d.get_rules("kot"), vec!['B', 'A', 'B']);
}

#[test]
fn malformed_dictionary_lines_are_skipped() {
    let d = Dictionary::new(&lines(&["dom", "a/b/c", "", "kot/A"]));
    assert_eq!(d.len(), 1);
    assert_eq!(d.get_rules("dom"), Vec::<char>::new());
    assert_eq!(d.get_rules("a"), Vec::<char>::new());
    assert_eq!(d.get_rules("kot"), vec!['A']);
}

#[test]
fn repeated_word_keeps_last_flags() {
    let d = Dictionary::new(&lines(&["dom/A", "kot/B", "dom/CD"]));
    assert_eq!(d.len(), 2);
    assert_eq!(d.get_rules("dom"), vec!['C', 'D']);
}

#[test]
fn suffix_rule_with_empty_remove_and_any_condition() {
    let d = Dictionary::new(&lines(&["dom/A"]));
    let aff = AffFile::new(&lines(&["SFX A Y 1", "SFX A 0 y 0"])).unwrap();
    let flags = d.get_rules("dom");
    assert_eq!(flags, vec!['A']);
    assert_eq!(aff.apply_rule("dom", 'A'), Ok(strings(&["domy"])));
}

#[test]
fn sentinel_remove_appends_only() {
    let aff = AffFile::new(&lines(&["SFX S Y 1", "SFX S 0 s [^s]"])).unwrap();
    assert_eq!(aff.apply_rule("cat", 'S'), Ok(strings(&["cats"])));
    assert_eq!(aff.apply_rule("bus", 'S'), Ok(Vec::new()));
}

#[test]
fn sentinel_add_strips_only() {
    let aff = AffFile::new(&lines(&["SFX T Y 1", "SFX T a 0 a"])).unwrap();
    assert_eq!(aff.apply_rule("mama", 'T'), Ok(strings(&["mam"])));
}

#[test]
fn matching_rules_give_one_form_each_in_order() {
    let aff = AffFile::new(&lines(&[
        "SFX B Y 3",
        "SFX B a y a",
        "SFX B 0 x [^a]",
        "SFX B a ie a",
    ]))
    .unwrap();
    assert_eq!(aff.apply_rule("mama", 'B'), Ok(strings(&["mamy", "mamie"])));
    assert_eq!(aff.apply_rule("dom", 'B'), Ok(strings(&["domx"])));
}

#[test]
fn missing_remove_text_leaves_word_whole() {
    let aff = AffFile::new(&lines(&["SFX C Y 1", "SFX C x y ."])).unwrap();
    assert_eq!(aff.apply_rule("dom", 'C'), Ok(strings(&["domy"])));
}

#[test]
fn prefix_rule_works_at_the_start() {
    let aff = AffFile::new(&lines(&["PFX P Y 2", "PFX P 0 nie .", "PFX P do za do"])).unwrap();
    assert_eq!(aff.apply_rule("dobry", 'P'), Ok(strings(&["niedobry", "zabry"])));
    assert_eq!(aff.apply_rule("bry", 'P'), Ok(strings(&["niebry"])));
}

#[test]
fn unknown_flag_gives_no_forms() {
    let aff = AffFile::new(&lines(&["SFX A Y 1", "SFX A 0 y 0"])).unwrap();
    assert_eq!(aff.apply_rule("dom", 'Z'), Ok(Vec::new()));
}

#[test]
fn rule_before_header_fails() {
    assert_eq!(
        AffFile::new(&lines(&["SFX A 0 y 0", "SFX A Y 1"])),
        Err(AffixError::RuleOutOfOrder(1))
    );
    assert_eq!(
        AffFile::new(&lines(&["SFX A Y 1", "SFX A 0 y 0", "# comment", "SFX A 0 e 0"])),
        Err(AffixError::RuleOutOfOrder(4))
    );
}

#[test]
fn short_rule_line_fails() {
    assert_eq!(
        AffFile::new(&lines(&["SFX A Y 1", "SFX A 0 y"])),
        Err(AffixError::IncompleteRule(2))
    );
}

#[test]
fn invalid_condition_fails_at_use() {
    let aff = AffFile::new(&lines(&["SFX A Y 1", "SFX A 0 y (a"])).unwrap();
    assert_eq!(aff.apply_rule("dom", 'A'), Err(AffixError::InvalidCondition));
}

#[test]
fn rule_joins_the_group_in_effect() {
    let aff = AffFile::new(&lines(&["SFX A Y 1", "SFX B 0 y 0"])).unwrap();
    assert_eq!(aff.apply_rule("dom", 'A'), Ok(strings(&["domy"])));
    assert_eq!(aff.apply_rule("dom", 'B'), Ok(Vec::new()));
}

#[test]
fn later_header_keeps_first_group() {
    let aff = AffFile::new(&lines(&[
        "SFX A Y 1",
        "SFX A 0 y 0",
        "",
        "PFX A N 1",
        "PFX A 0 e 0",
    ]))
    .unwrap();
    assert_eq!(aff.apply_rule("dom", 'A'), Ok(strings(&["domy", "dome"])));
}

#[test]
fn tokens_split_on_any_whitespace() {
    let aff = AffFile::new(&lines(&["SFX\tA  Y 1", "  SFX A\t0 y   0  "])).unwrap();
    assert_eq!(aff.apply_rule("dom", 'A'), Ok(strings(&["domy"])));
}

#[test]
fn loading_twice_gives_equal_stores() {
    let dic = lines(&["dom/A", "kot/AB", "dom/B"]);
    let aff = lines(&["SFX A Y 1", "SFX A 0 y 0", "PFX B N 1", "PFX B 0 nie ."]);
    assert_eq!(Dictionary::new(&dic), Dictionary::new(&dic));
    assert_eq!(AffFile::new(&aff), AffFile::new(&aff));
}

#[test]
fn capitalize_first_character_only() {
    assert_eq!(capitalize("pies"), "Pies");
    assert_eq!(capitalize("pIES"), "PIES");
    assert_eq!(capitalize(""), "");
    assert_eq!(capitalize("ćma"), "Ćma");
    assert_eq!(capitalize("ßa"), "SSa");
}

#[test]
fn lowercase_term_finds_capitalized_entry() {
    let d = Dictionary::new(&lines(&["Pies/B"]));
    let aff = AffFile::new(&lines(&["SFX B Y 1", "SFX B 0 y ."])).unwrap();
    let index = read_full_dictionary(&Vec::new());
    assert_eq!(
        resolve("pies", &d, &aff, &index),
        Ok(LookupResult::Inflections(vec![('B', strings(&["piesy"]))]))
    );
}

#[test]
fn term_and_capitalized_flags_are_joined() {
    let d = Dictionary::new(&lines(&["kot/A", "Kot/B"]));
    let aff = AffFile::new(&lines(&["SFX A Y 1", "SFX A 0 y 0", "SFX B Y 1", "SFX B 0 a 0"])).unwrap();
    let index = read_full_dictionary(&Vec::new());
    assert_eq!(
        resolve("kot", &d, &aff, &index),
        Ok(LookupResult::Inflections(vec![
            ('A', strings(&["koty"])),
            ('B', strings(&["kota"]))
        ]))
    );
}

#[test]
fn flagless_term_falls_back_to_index() {
    let d = Dictionary::new(&lines(&["dom/A"]));
    let aff = AffFile::new(&lines(&["SFX A Y 1", "SFX A 0 y 0"])).unwrap();
    let index = read_full_dictionary(&lines(&["domy,dom", "bad line", "a,b,c"]));
    assert_eq!(
        resolve("domy", &d, &aff, &index),
        Ok(LookupResult::BaseForm(Some("dom".to_string())))
    );
    assert_eq!(resolve("xyz", &d, &aff, &index), Ok(LookupResult::BaseForm(None)));
    assert_eq!(
        resolve_flags("domy", &Vec::new(), &aff, &index),
        Ok(LookupResult::BaseForm(Some("dom".to_string())))
    );
}

#[test]
fn index_round_trip() {
    let d = Dictionary::new(&lines(&["dom/AB", "kot/A"]));
    let aff = AffFile::new(&lines(&["SFX A Y 1", "SFX A 0 y 0", "SFX B Y 1", "SFX B 0 ek ."])).unwrap();
    let records = generate_full_dictionary(&d, &aff).unwrap();
    assert_eq!(
        records,
        vec![
            ("domy".to_string(), "dom".to_string()),
            ("domek".to_string(), "dom".to_string()),
            ("koty".to_string(), "kot".to_string()),
        ]
    );
    let file: Vec<String> = records.iter().map(|(g, w)| format_record(g, w)).collect();
    assert_eq!(file, strings(&["domy,dom", "domek,dom", "koty,kot"]));
    let index = read_full_dictionary(&file);
    for g in aff.apply_rule("dom", 'A').unwrap() {
        assert_eq!(index.lookup(&g), Some("dom".to_string()));
    }
    assert_eq!(index.lookup("domek"), Some("dom".to_string()));
    assert_eq!(index.lookup("koty"), Some("kot".to_string()));
    assert_eq!(index.lookup("dom"), None);
}

#[test]
fn index_keeps_last_base_word() {
    let index = read_full_dictionary(&lines(&["lata,lato", "lata,lat"]));
    assert_eq!(index.lookup("lata"), Some("lat".to_string()));
}

#[test]
fn generation_stops_on_invalid_condition() {
    let d = Dictionary::new(&lines(&["dom/A"]));
    let aff = AffFile::new(&lines(&["SFX A Y 1", "SFX A 0 y [a"])).unwrap();
    assert_eq!(generate_full_dictionary(&d, &aff), Err(AffixError::InvalidCondition));
}

#[test]
fn anchored_patterns() {
    assert_eq!(anchored_pattern(AffixKind::Suffix, &"[^s]".to_string()), "[^s]$");
    assert_eq!(anchored_pattern(AffixKind::Prefix, &"do".to_string()), "^do");
    assert_eq!(anchored_pattern(AffixKind::Suffix, &"0".to_string()), "$");
}

#[test]
fn rule_form_exact_values() {
    let r = Rule { remove: "a".to_string(), add: "y".to_string(), condition: "a".to_string() };
    assert_eq!(rule_form(AffixKind::Suffix, &r, "mama"), "mamy");
    assert_eq!(rule_form(AffixKind::Prefix, &r, "abc"), "ybc");
    let z = Rule { remove: "0".to_string(), add: "0".to_string(), condition: ".".to_string() };
    assert_eq!(rule_form(AffixKind::Suffix, &z, "dom"), "dom");
}
