use vstd::prelude::*;

verus! {

/// The order of subject, verb and object, written as `"SVO"`, `"OVS"`, ...
pub struct Grammar {
    pub word_order: String,
}

pub struct SequenceRules {
    pub max_vowel_syllables_in_a_row: usize,
}

/// The vocabulary roots are dressed in: parts of speech, and for each part of
/// speech its candidate meanings (the first entry for a part of speech counts).
pub struct LexiconGeneration {
    pub parts_of_speech: Vec<String>,
    pub meanings: Vec<(String, Vec<String>)>,
}

pub struct Morphology {
    pub derivational_rules: Vec<DerivationalRule>,
}

pub struct Root {
    pub form: String,
    pub part_of_speech: String,
    pub meaning: String,
}

pub struct RuleConstraints {
    pub cannot_follow_rules: Vec<String>,
}

pub enum DerivationProcess {
    Prefix { form: String },
    Suffix { form: String },
}

pub struct DerivationalRule {
    pub name: String,
    pub applies_to_pos: Vec<String>,
    /// A part of speech, or `"SameAsInput"` to keep the parent's.
    pub output_pos: String,
    pub process: DerivationProcess,
    /// The meaning of a derived word, with `{parent_meaning}` standing for the
    /// parent's meaning.
    pub meaning_template: String,
    pub constraints: RuleConstraints,
}

/// A whole language description, as a loader hands it over.
pub struct LanguageConfig {
    pub phonemes: Vec<crate::phonology::Phoneme>,
    pub syllable_rules: Vec<String>,
    pub min_syllables: usize,
    pub max_syllables: usize,
    pub illegal_patterns: Vec<String>,
    pub morphology: Morphology,
    pub sequence_rules: SequenceRules,
    pub lexicon_generation: LexiconGeneration,
    pub grammar: Grammar,
}

/// `s` is one of the texts of `list`.
pub open spec fn listed(list: Seq<String>, s: Seq<char>) -> bool {
    exists|k: int| 0 <= k < list.len() && list[k]@ == s
}

pub fn list_contains(list: &Vec<String>, s: &str) -> (r: bool)
    ensures
        r == listed(list@, s@),
{
    let mut i: usize = 0;
    while i < list.len()
        invariant
            i <= list.len(),
            forall|k: int| 0 <= k < i ==> list@[k]@ != s@,
        decreases list.len() - i,
    {
        if crate::text::text_eq(list[i].as_str(), s) {
            return true;
        }
        i += 1;
    }
    false
}

} // verus!
