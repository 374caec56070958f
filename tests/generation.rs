use genesis_engine_lexicon::text::{contains_text_exec, replace_text, text_eq};
use genesis_engine_lexicon::{
    apply_rule, assemble_sentence, generator_from_config, DerivationProcess, DerivationalRule,
    GenerationError, Grammar, LanguageConfig, Lexeme, Lexicon, LexiconGeneration, Morphology,
    Phoneme, PhoneticInventory, RuleConstraints, SequenceRules, SyllablePattern, WordGenerator,
};
use std::collections::HashMap;
use std::collections::HashSet;

fn phoneme(g: &str, kind: &str) -> Phoneme {
    Phoneme { grapheme: g.to_string(), sound_type: kind.to_string() }
}

fn inventory(consonants: &[&str], vowels: &[&str]) -> PhoneticInventory {
    let mut all = Vec::new();
    for c in consonants {
        all.push(phoneme(c, "Consonant"));
    }
    for v in vowels {
        all.push(phoneme(v, "Vowel"));
    }
    PhoneticInventory::new(all)
}

fn strings(items: &[&str]) -> Vec<String> {
    items.iter().map(|s| s.to_string()).collect()
}

fn rule(name: &str, applies: &[&str], output: &str, process: DerivationProcess, template: &str, cannot_follow: &[&str]) -> DerivationalRule {
    DerivationalRule {
        name: name.to_string(),
        applies_to_pos: strings(applies),
        output_pos: output.to_string(),
        process,
        meaning_template: template.to_string(),
        constraints: RuleConstraints { cannot_follow_rules: strings(cannot_follow) },
    }
}

fn generator(
    patterns: &[&str],
    min: usize,
    max: usize,
    illegal: &[&str],
    max_vowel_run: usize,
    rules: Vec<DerivationalRule>,
    parts_of_speech: &[&str],
    word_order: &str,
) -> WordGenerator {
    let meanings = vec![
        ("noun".to_string(), strings(&["water", "stone"])),
        ("verb".to_string(), strings(&["to see", "to run"])),
    ];
    WordGenerator::new(
        patterns.iter().map(|p| SyllablePattern::new(p)).collect(),
        min,
        max,
        strings(illegal),
        Morphology { derivational_rules: rules },
        LexiconGeneration { parts_of_speech: strings(parts_of_speech), meanings },
        SequenceRules { max_vowel_syllables_in_a_row: max_vowel_run },
        Grammar { word_order: word_order.to_string() },
    )
}

fn index_of(lex: &Lexicon) -> HashMap<u128, usize> {
    lex.graph.iter().enumerate().map(|(i, l)| (l.id, i)).collect()
}

#[test]
fn two_syllable_roots_use_only_inventory_graphemes() {
    let inv = inventory(&["p", "t", "k", "m", "s"], &["a", "i", "u", "o"]);
    let gen = generator(&["CV", "CVC"], 2, 2, &[], 1, vec![], &["noun"], "SVO");
    let allowed: HashSet<char> = "ptkmsaiuo".chars().collect();
    for _ in 0..200 {
        let root = gen.generate_root(&inv).unwrap();
        let n = root.chars().count();
        assert!(n >= 4 && n <= 6, "{root}");
        assert!(root.chars().all(|c| allowed.contains(&c)), "{root}");
        let cs: Vec<char> = root.chars().collect();
        // consonant, vowel, then either vowel-led second syllable or a closing consonant
        assert!("ptkms".contains(cs[0]));
        assert!("aiuo".contains(cs[1]));
    }
}

#[test]
fn vowel_limit_zero_forbids_vowel_only_syllables() {
    let inv = inventory(&["t"], &["a"]);
    let gen = generator(&["V", "CV"], 1, 4, &[], 0, vec![], &["noun"], "SVO");
    for _ in 0..200 {
        let root = gen.generate_root(&inv).unwrap();
        assert!(!root.contains("aa"), "{root}");
        assert!(root.starts_with('t'), "{root}");
        assert_eq!(root.len() % 2, 0);
    }
}

#[test]
fn vowel_limit_one_allows_no_two_vowel_syllables_in_a_row() {
    let inv = inventory(&["t"], &["a"]);
    let gen = generator(&["V", "CV"], 3, 6, &[], 1, vec![], &["noun"], "SVO");
    for _ in 0..200 {
        let root = gen.generate_root(&inv).unwrap();
        // a vowel-only syllable is "a": two in a row would give "aa" not preceded by "t",
        // and every "aa" must therefore be "taa" followed by no further "a"
        assert!(!root.starts_with("aa"), "{root}");
        assert!(!root.contains("aaa"), "{root}");
    }
}

#[test]
fn only_vowel_patterns_fall_back_to_the_full_set() {
    let inv = inventory(&["t"], &["a"]);
    let gen = generator(&["V"], 3, 3, &[], 1, vec![], &["noun"], "SVO");
    assert_eq!(gen.generate_root(&inv), Ok("aaa".to_string()));
}

#[test]
fn illegal_substrings_never_appear() {
    let inv = inventory(&["p", "t"], &["a", "i"]);
    let gen = generator(&["CV"], 1, 3, &["pa", "ti"], 2, vec![], &["noun"], "SVO");
    for _ in 0..200 {
        let root = gen.generate_root(&inv).unwrap();
        assert!(!root.contains("pa") && !root.contains("ti"), "{root}");
    }
}

#[test]
fn impossible_constraints_exhaust_attempts() {
    let inv = inventory(&["t"], &["a"]);
    let gen = generator(&["CV"], 1, 2, &["a"], 2, vec![], &["noun"], "SVO");
    assert_eq!(gen.generate_root(&inv), Err(GenerationError::ExhaustedAttempts));
    assert_eq!(
        gen.build_etymological_graph(1, &inv, 1).err(),
        Some(GenerationError::ExhaustedAttempts)
    );
}

#[test]
fn too_few_distinct_forms_is_insufficient_diversity() {
    let inv = inventory(&["t"], &["a"]);
    let gen = generator(&["CV"], 1, 1, &[], 2, vec![], &["noun"], "SVO");
    assert_eq!(
        gen.build_etymological_graph(2, &inv, 1).err(),
        Some(GenerationError::InsufficientDiversity)
    );
    let lex = gen.build_etymological_graph(1, &inv, 1).unwrap();
    assert_eq!(lex.graph.len(), 1);
    assert_eq!(lex.graph[0].form, "ta");
}

#[test]
fn negation_prefix_scenario() {
    let negation = rule("Negation", &["verb"], "SameAsInput", DerivationProcess::Prefix { form: "un-".to_string() }, "not {parent_meaning}", &[]);
    let root = Lexeme {
        id: 7,
        form: "kal".to_string(),
        part_of_speech: "verb".to_string(),
        meaning: "to see".to_string(),
        parent_id: None,
        rule_applied: None,
    };
    let (form, pos, meaning) = apply_rule(&root, &negation);
    assert_eq!(form, "un-kal");
    assert_eq!(pos, "verb");
    assert_eq!(meaning, "not to see");

    let inv = inventory(&["k"], &["a"]);
    let gen = generator(&["CVC"], 1, 1, &[], 1, vec![negation], &["verb"], "SVO");
    let lex = gen.build_etymological_graph(1, &inv, 1).unwrap();
    assert_eq!(lex.graph.len(), 2);
    let child = &lex.graph[1];
    assert_eq!(child.form, "un-kak");
    assert_eq!(child.part_of_speech, "verb");
    assert!(child.meaning == "not to see" || child.meaning == "not to run");
    assert_eq!(child.meaning, format!("not {}", lex.graph[0].meaning));
    assert_eq!(child.parent_id, Some(lex.graph[0].id));
    assert_eq!(child.rule_applied.as_deref(), Some("Negation"));
}

#[test]
fn suffix_with_new_part_of_speech() {
    let agent = rule("Agent", &["verb"], "noun", DerivationProcess::Suffix { form: "er".to_string() }, "one who does {parent_meaning}, {parent_meaning}!", &[]);
    let parent = Lexeme {
        id: 1,
        form: "run".to_string(),
        part_of_speech: "verb".to_string(),
        meaning: "run".to_string(),
        parent_id: None,
        rule_applied: None,
    };
    let (form, pos, meaning) = apply_rule(&parent, &agent);
    assert_eq!(form, "runer");
    assert_eq!(pos, "noun");
    assert_eq!(meaning, "one who does run, run!");
}

#[test]
fn ovs_sentence_scenario() {
    assert_eq!(assemble_sentence("OVS", "lum", "kast", "dran"), "Dran kast lum.");
}

#[test]
fn every_word_order() {
    let cases = [
        ("SVO", "Lum kast dran."),
        ("SOV", "Lum dran kast."),
        ("VSO", "Kast lum dran."),
        ("VOS", "Kast dran lum."),
        ("OSV", "Dran lum kast."),
        ("OVS", "Dran kast lum."),
        ("XYZ", "Lum kast dran."),
    ];
    for (order, expected) in cases {
        assert_eq!(assemble_sentence(order, "lum", "kast", "dran"), expected);
    }
}

#[test]
fn sentence_from_lexicon_and_placeholders() {
    let gen = generator(&["CV"], 1, 1, &[], 1, vec![], &["noun"], "OVS");
    let empty = Lexicon::new();
    assert_eq!(gen.generate_sentence(&empty), "<noun> <verb> <noun>.");
    let mut lex = Lexicon::new();
    lex.add_lexeme(Lexeme { id: 1, form: "lum".to_string(), part_of_speech: "noun".to_string(), meaning: "sun".to_string(), parent_id: None, rule_applied: None });
    lex.add_lexeme(Lexeme { id: 2, form: "kast".to_string(), part_of_speech: "verb".to_string(), meaning: "see".to_string(), parent_id: None, rule_applied: None });
    assert_eq!(gen.generate_sentence(&lex), "Lum kast lum.");
    assert_eq!(lex.roots, vec![1, 2]);
}

#[test]
fn no_applicable_rule_leaves_only_roots() {
    let inv = inventory(&["p", "t", "k", "m", "s"], &["a", "i", "u", "o"]);
    let adj_only = rule("Intensive", &["adj"], "SameAsInput", DerivationProcess::Suffix { form: "ka".to_string() }, "very {parent_meaning}", &[]);
    let gen = generator(&["CV", "CVC"], 2, 3, &[], 1, vec![adj_only], &["noun", "verb"], "SVO");
    let lex = gen.build_etymological_graph(10, &inv, 4).unwrap();
    assert_eq!(lex.graph.len(), 10);
    assert_eq!(lex.roots.len(), 10);
    assert!(lex.graph.iter().all(|l| l.parent_id.is_none() && l.rule_applied.is_none()));
    let ids: Vec<u128> = lex.graph.iter().map(|l| l.id).collect();
    assert_eq!(lex.roots, ids);
}

#[test]
fn seeded_roots_are_distinct_and_dressed() {
    let inv = inventory(&["p", "t", "k"], &["a", "i"]);
    let gen = generator(&["CV"], 2, 2, &[], 1, vec![], &["noun", "verb"], "SVO");
    for _ in 0..3 {
        let lex = gen.build_etymological_graph(30, &inv, 0).unwrap();
        let forms: HashSet<&String> = lex.graph.iter().map(|l| &l.form).collect();
        assert_eq!(forms.len(), 30);
        for l in &lex.graph {
            assert!(l.part_of_speech == "noun" || l.part_of_speech == "verb");
            let ok = if l.part_of_speech == "noun" { ["water", "stone"] } else { ["to see", "to run"] };
            assert!(ok.contains(&l.meaning.as_str()));
        }
    }
}

#[test]
fn fallback_part_of_speech_and_meaning() {
    let inv = inventory(&["p", "t"], &["a"]);
    let gen = generator(&["CV"], 2, 2, &[], 1, vec![], &[], "SVO");
    let lex = gen.build_etymological_graph(3, &inv, 0).unwrap();
    assert!(lex.graph.iter().all(|l| l.part_of_speech == "noun"));
    let gen = generator(&["CV"], 2, 2, &[], 1, vec![], &["adj"], "SVO");
    let lex = gen.build_etymological_graph(3, &inv, 0).unwrap();
    assert!(lex.graph.iter().all(|l| l.part_of_speech == "adj" && l.meaning.is_empty()));
}

#[test]
fn lineage_is_a_shallow_forest_with_unique_forms() {
    let inv = inventory(&["p", "t", "k", "m"], &["a", "i", "u"]);
    let rules = vec![
        rule("Agent", &["verb"], "noun", DerivationProcess::Suffix { form: "or".to_string() }, "one who {parent_meaning}", &[]),
        rule("Plural", &["noun"], "SameAsInput", DerivationProcess::Suffix { form: "i".to_string() }, "many {parent_meaning}", &["Plural"]),
        rule("Negation", &["verb", "noun"], "SameAsInput", DerivationProcess::Prefix { form: "un".to_string() }, "not {parent_meaning}", &["Negation"]),
    ];
    let gen = generator(&["CV", "CVC"], 1, 2, &[], 1, rules, &["noun", "verb"], "SVO");
    let passes = 2;
    let lex = gen.build_etymological_graph(12, &inv, passes).unwrap();
    let index = index_of(&lex);
    assert_eq!(index.len(), lex.graph.len());
    let forms: HashSet<&String> = lex.graph.iter().map(|l| &l.form).collect();
    assert_eq!(forms.len(), lex.graph.len());
    assert!(lex.graph.len() > 12);
    for (i, l) in lex.graph.iter().enumerate() {
        assert_eq!(l.parent_id.is_none(), l.rule_applied.is_none());
        let mut hops = 0;
        let mut at = i;
        while let Some(p) = lex.graph[at].parent_id {
            let next = index[&p];
            assert!(next < at);
            at = next;
            hops += 1;
        }
        assert!(hops <= passes);
        assert!(lex.roots.contains(&lex.graph[at].id));
    }
}

#[test]
fn barred_rule_never_follows_itself() {
    let inv = inventory(&["p", "t", "k", "m"], &["a", "i", "u"]);
    let rules = vec![
        rule("Plural", &["noun"], "SameAsInput", DerivationProcess::Suffix { form: "i".to_string() }, "many {parent_meaning}", &["Plural"]),
        rule("Small", &["noun"], "SameAsInput", DerivationProcess::Suffix { form: "et".to_string() }, "small {parent_meaning}", &[]),
    ];
    let gen = generator(&["CV", "CVC"], 1, 2, &[], 1, rules, &["noun"], "SVO");
    let lex = gen.build_etymological_graph(8, &inv, 4).unwrap();
    let index = index_of(&lex);
    let mut derived = 0;
    for l in &lex.graph {
        if let Some(p) = l.parent_id {
            derived += 1;
            let parent = &lex.graph[index[&p]];
            if l.rule_applied.as_deref() == Some("Plural") {
                assert_ne!(parent.rule_applied.as_deref(), Some("Plural"));
            }
        }
    }
    assert!(derived > 0);
}

#[test]
fn add_lexeme_tracks_roots() {
    let mut lex = Lexicon::new();
    lex.add_lexeme(Lexeme { id: 5, form: "a".to_string(), part_of_speech: "noun".to_string(), meaning: String::new(), parent_id: None, rule_applied: None });
    lex.add_lexeme(Lexeme { id: 6, form: "b".to_string(), part_of_speech: "noun".to_string(), meaning: String::new(), parent_id: Some(5), rule_applied: Some("R".to_string()) });
    assert_eq!(lex.graph.len(), 2);
    assert_eq!(lex.roots, vec![5]);
}

#[test]
fn syllable_pattern_predicates() {
    assert!(SyllablePattern::new("VV").is_vowel_only());
    assert!(SyllablePattern::new("").is_vowel_only());
    assert!(!SyllablePattern::new("CV").is_vowel_only());
    assert!(SyllablePattern::new("CVC").starts_with("CV"));
    assert!(!SyllablePattern::new("VC").starts_with("C"));
    assert!(!SyllablePattern::new("C").starts_with("CV"));
}

#[test]
fn text_helpers() {
    assert!(contains_text_exec("kastor", "sto"));
    assert!(!contains_text_exec("kastor", "tos"));
    assert!(contains_text_exec("abc", ""));
    assert!(text_eq("noun", "noun"));
    assert!(!text_eq("noun", "nouns"));
    assert_eq!(replace_text("x{p}y{p}", "{p}", "ab"), "xabyab");
    assert_eq!(replace_text("aaa", "aa", "b"), "ba");
    assert_eq!(replace_text("plain", "{p}", "q"), "plain");
}

#[test]
fn config_sets_up_inventory_and_generator() {
    let config = LanguageConfig {
        phonemes: vec![phoneme("t", "Consonant"), phoneme("a", "Vowel"), phoneme("x", "Click")],
        syllable_rules: strings(&["CV"]),
        min_syllables: 2,
        max_syllables: 2,
        illegal_patterns: vec![],
        morphology: Morphology { derivational_rules: vec![] },
        sequence_rules: SequenceRules { max_vowel_syllables_in_a_row: 1 },
        lexicon_generation: LexiconGeneration { parts_of_speech: strings(&["noun"]), meanings: vec![] },
        grammar: Grammar { word_order: "SVO".to_string() },
    };
    let (inv, gen) = generator_from_config(config);
    assert_eq!(gen.generate_root(&inv), Ok("tata".to_string()));
    assert_eq!(gen.min_syllables, 2);
    assert_eq!(gen.rules.len(), 1);
}

#[test]
fn identifiers_are_distinct() {
    let inv = inventory(&["p", "t", "k", "m", "s"], &["a", "i", "u", "o"]);
    let gen = generator(&["CV", "CVC"], 2, 3, &[], 1, vec![], &["noun"], "SVO");
    let lex = gen.build_etymological_graph(40, &inv, 0).unwrap();
    let ids: HashSet<u128> = lex.graph.iter().map(|l| l.id).collect();
    assert_eq!(ids.len(), 40);
    assert!(ids.iter().all(|id| (id >> 76) & 0xF == 4));
}

#[test]
fn zero_roots_always_builds_an_empty_lexicon() {
    let inv = inventory(&["t"], &["a"]);
    let gen = generator(&["CV"], 1, 1, &["a"], 1, vec![], &["noun"], "SVO");
    let lex = gen.build_etymological_graph(0, &inv, 3).unwrap();
    assert!(lex.graph.is_empty());
    assert!(lex.roots.is_empty());
}

#[test]
fn single_root_without_passes_always_succeeds() {
    let inv = inventory(&["t"], &["a"]);
    let gen = generator(&["CV"], 1, 1, &[], 1, vec![], &["noun"], "SVO");
    let lex = gen.build_etymological_graph(1, &inv, 0).unwrap();
    assert_eq!(lex.graph.len(), 1);
    assert_eq!(lex.roots, vec![lex.graph[0].id]);
}

#[test]
fn no_patterns_needed_for_zero_syllables() {
    let inv = inventory(&["t"], &["a"]);
    let gen = generator(&[], 0, 0, &[], 1, vec![], &["noun"], "SVO");
    assert_eq!(gen.generate_root(&inv), Ok(String::new()));
}

#[test]
fn one_consonant_one_vowel_two_roots_is_insufficient_diversity() {
    let inv = inventory(&["p"], &["a"]);
    let gen = generator(&["CV"], 1, 1, &[], 1, vec![], &["noun"], "SVO");
    assert_eq!(
        gen.build_etymological_graph(2, &inv, 0).err(),
        Some(GenerationError::InsufficientDiversity)
    );
}
