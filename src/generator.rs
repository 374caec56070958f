use crate::config::{Grammar, LanguageConfig, LexiconGeneration, Morphology, SequenceRules};
use crate::error::GenerationError;
use crate::phonology::{consonant_class, graphemes_of, vowel_class, is_syllable_of, random_in, realizes, slot_fill_ok, vowel_only, PhoneticInventory, SyllablePattern};
use crate::text::{concat, contains_text, contains_text_exec, lemma_concat_push};
use vstd::prelude::*;

verus! {

/// How many candidate roots `generate_root` draws before it gives up.
pub const MAX_ROOT_ATTEMPTS: usize = 100;

pub struct WordGenerator {
    pub rules: Vec<SyllablePattern>,
    pub min_syllables: usize,
    pub max_syllables: usize,
    pub illegal_patterns: Vec<String>,
    pub morphology: Morphology,
    pub lexicon_generation: LexiconGeneration,
    pub sequence_rules: SequenceRules,
    pub grammar: Grammar,
}

pub open spec fn patterns(rules: Seq<SyllablePattern>) -> Seq<Seq<char>> {
    rules.map_values(|p: SyllablePattern| p@)
}

/// The number of vowel-only patterns at the end of `pats`.
pub open spec fn vowel_run(pats: Seq<Seq<char>>) -> nat
    decreases pats.len(),
{
    if pats.len() == 0 {
        0
    } else if vowel_only(pats.last()) {
        vowel_run(pats.drop_last()) + 1
    } else {
        0
    }
}

/// Some pattern has a symbol other than a vowel slot.
pub open spec fn has_mixed_pattern(rules: Seq<Seq<char>>) -> bool {
    exists|j: int| 0 <= j < rules.len() && !vowel_only(rules[j])
}

/// Once `max` vowel-only syllables stand in a row, the next syllable is not
/// vowel-only, unless every pattern available is.
pub open spec fn respects_vowel_limit(pats: Seq<Seq<char>>, rules: Seq<Seq<char>>, max: nat) -> bool {
    forall|k: int|
        0 <= k < pats.len() ==> (vowel_run(pats.take(k)) >= max && has_mixed_pattern(rules)
            ==> !vowel_only(#[trigger] pats[k]))
}

/// No text of `illegal` occurs in `w`.
pub open spec fn free_of(w: Seq<char>, illegal: Seq<String>) -> bool {
    forall|j: int| 0 <= j < illegal.len() ==> !contains_text(w, #[trigger] illegal[j]@)
}

/// `w` is the syllables `sylls`, realised from the patterns `pats` in turn,
/// with a syllable count in `[min, max]` and the vowel-run limit kept.
pub open spec fn is_root_shape(
    w: Seq<char>,
    pats: Seq<Seq<char>>,
    sylls: Seq<Seq<char>>,
    rules: Seq<Seq<char>>,
    consonants: Seq<Seq<char>>,
    vowels: Seq<Seq<char>>,
    min: nat,
    max: nat,
    max_vowel_run: nat,
) -> bool {
    &&& min <= pats.len() <= max
    &&& sylls.len() == pats.len()
    &&& forall|k: int| 0 <= k < pats.len() ==> rules.contains(#[trigger] pats[k])
    &&& forall|k: int|
        0 <= k < pats.len() ==> is_syllable_of(#[trigger] sylls[k], pats[k], consonants, vowels)
    &&& respects_vowel_limit(pats, rules, max_vowel_run)
    &&& w == concat(sylls)
}

/// A vowel run never passes the limit when some pattern is not vowel-only.
pub proof fn lemma_vowel_run_bounded(pats: Seq<Seq<char>>, rules: Seq<Seq<char>>, max: nat)
    requires
        respects_vowel_limit(pats, rules, max),
        has_mixed_pattern(rules),
    ensures
        forall|k: int| 0 <= k <= pats.len() ==> #[trigger] vowel_run(pats.take(k)) <= max,
    decreases pats.len(),
{
    if pats.len() > 0 {
        let front = pats.drop_last();
        assert forall|k: int| 0 <= k < front.len() && vowel_run(front.take(k)) >= max
            && has_mixed_pattern(rules) implies !vowel_only(#[trigger] front[k]) by {
            assert(front.take(k) =~= pats.take(k));
            assert(front[k] == pats[k]);
        }
        lemma_vowel_run_bounded(front, rules, max);
        assert forall|k: int| 0 <= k <= pats.len() implies #[trigger] vowel_run(pats.take(k))
            <= max by {
            if k < pats.len() {
                assert(front.take(k) =~= pats.take(k));
            } else {
                let n = pats.len() as int;
                assert(pats.take(n).drop_last() =~= front.take(n - 1));
                assert(pats.take(n).last() == pats[n - 1]);
                assert(pats.take(n - 1) =~= front.take(n - 1));
            }
        }
    }
}

impl WordGenerator {
    /// A syllable count can be drawn, and a pattern for each syllable.
    pub open spec fn wf(&self) -> bool {
        self.min_syllables <= self.max_syllables && (self.rules.len() > 0 || self.max_syllables
            == 0)
    }

    /// `w` is a root this generator may produce from `inventory`.
    pub open spec fn is_root(&self, inventory: PhoneticInventory, w: Seq<char>) -> bool {
        &&& exists|pats: Seq<Seq<char>>, sylls: Seq<Seq<char>>|
            is_root_shape(
                w,
                pats,
                sylls,
                patterns(self.rules@),
                inventory.consonants(),
                inventory.vowels(),
                self.min_syllables as nat,
                self.max_syllables as nat,
                self.sequence_rules.max_vowel_syllables_in_a_row as nat,
            )
        &&& free_of(w, self.illegal_patterns@)
    }

    pub fn new(
        rules: Vec<SyllablePattern>,
        min: usize,
        max: usize,
        illegal: Vec<String>,
        morphology: Morphology,
        lexicon_generation: LexiconGeneration,
        sequence_rules: SequenceRules,
        grammar: Grammar,
    ) -> (r: Self)
        ensures
            r.rules@ == rules@,
            r.min_syllables == min,
            r.max_syllables == max,
            r.illegal_patterns@ == illegal@,
            r.morphology == morphology,
            r.lexicon_generation == lexicon_generation,
            r.sequence_rules == sequence_rules,
            r.grammar == grammar,
    {
        WordGenerator {
            rules,
            min_syllables: min,
            max_syllables: max,
            illegal_patterns: illegal,
            morphology,
            lexicon_generation,
            sequence_rules,
            grammar,
        }
    }

    fn generate_syllable_from_pattern(
        &self,
        inventory: &PhoneticInventory,
        pattern: &SyllablePattern,
    ) -> (r: String)
        ensures
            is_syllable_of(r@, pattern@, inventory.consonants(), inventory.vowels()),
    {
        let s = pattern.as_str();
        let n = s.unicode_len();
        let mut syllable = String::new();
        let ghost mut fills: Seq<Seq<char>> = Seq::empty();
        let mut i: usize = 0;
        while i < n
            invariant
                i <= n,
                n == pattern@.len(),
                s@ == pattern@,
                realizes(pattern@.take(i as int), fills, inventory.consonants(), inventory.vowels()),
                syllable@ == concat(fills),
            decreases n - i,
        {
            let c = s.get_char(i);
            let ghost mut fill: Seq<char> = Seq::empty();
            if c == 'C' {
                if let Some(consonant) = inventory.get_random_consonant() {
                    syllable.append(consonant.grapheme.as_str());
                    proof {
                        fill = consonant.grapheme@;
                    }
                }
            } else if c == 'V' {
                if let Some(vowel) = inventory.get_random_vowel() {
                    syllable.append(vowel.grapheme.as_str());
                    proof {
                        fill = vowel.grapheme@;
                    }
                }
            }
            proof {
                assert(slot_fill_ok(c, fill, inventory.consonants(), inventory.vowels()));
                lemma_concat_push(fills, fill);
                let old_fills = fills;
                fills = fills.push(fill);
                let t = pattern@.take(i + 1);
                assert forall|k: int| 0 <= k < t.len() implies slot_fill_ok(
                    #[trigger] t[k],
                    fills[k],
                    inventory.consonants(),
                    inventory.vowels(),
                ) by {
                    if k < i {
                        assert(t[k] == pattern@.take(i as int)[k]);
                        assert(fills[k] == old_fills[k]);
                    }
                }
            }
            i += 1;
        }
        assert(pattern@.take(n as int) =~= pattern@);
        syllable
    }

    fn contains_illegal_patterns(&self, word: &str) -> (r: bool)
        ensures
            r == !free_of(word@, self.illegal_patterns@),
    {
        let mut i: usize = 0;
        while i < self.illegal_patterns.len()
            invariant
                i <= self.illegal_patterns.len(),
                forall|j: int|
                    0 <= j < i ==> !contains_text(word@, #[trigger] self.illegal_patterns@[j]@),
            decreases self.illegal_patterns.len() - i,
        {
            if contains_text_exec(word, self.illegal_patterns[i].as_str()) {
                return true;
            }
            i += 1;
        }
        false
    }

    /// The indices of the patterns that may follow a run of `consecutive`
    /// vowel-only syllables.
    fn eligible_patterns(&self, consecutive: usize) -> (r: Vec<usize>)
        requires
            self.rules.len() > 0,
        ensures
            forall|j: int| 0 <= j < r.len() ==> #[trigger] r@[j] < self.rules.len(),
            consecutive >= self.sequence_rules.max_vowel_syllables_in_a_row ==> forall|j: int|
                0 <= j < r.len() ==> !vowel_only(#[trigger] self.rules@[r@[j] as int]@),
            r.len() == 0 ==> consecutive >= self.sequence_rules.max_vowel_syllables_in_a_row
                && !has_mixed_pattern(patterns(self.rules@)),
    {
        let restrict = consecutive >= self.sequence_rules.max_vowel_syllables_in_a_row;
        let mut out: Vec<usize> = Vec::new();
        let mut i: usize = 0;
        while i < self.rules.len()
            invariant
                i <= self.rules.len(),
                self.rules.len() > 0,
                restrict == (consecutive >= self.sequence_rules.max_vowel_syllables_in_a_row),
                forall|j: int| 0 <= j < out.len() ==> #[trigger] out@[j] < i,
                restrict ==> forall|j: int|
                    0 <= j < out.len() ==> !vowel_only(#[trigger] self.rules@[out@[j] as int]@),
                out.len() == 0 ==> (i == 0 || restrict) && forall|j: int|
                    0 <= j < i ==> vowel_only(#[trigger] self.rules@[j]@),
            decreases self.rules.len() - i,
        {
            if !restrict || !self.rules[i].is_vowel_only() {
                out.push(i);
            }
            i += 1;
        }
        proof {
            if out.len() == 0 {
                assert forall|j: int| 0 <= j < self.rules.len() implies vowel_only(
                    #[trigger] patterns(self.rules@)[j],
                ) by {
                    assert(patterns(self.rules@)[j] == self.rules@[j]@);
                }
            }
        }
        out
    }

    /// Draws roots until one holds no illegal substring, at most
    /// `MAX_ROOT_ATTEMPTS` times.
    pub fn generate_root(&self, inventory: &PhoneticInventory) -> (r: Result<String, GenerationError>)
        requires
            self.wf(),
        ensures
            match r {
                Ok(w) => self.is_root(*inventory, w@),
                Err(e) => e == GenerationError::ExhaustedAttempts,
            },
            self.illegal_patterns@.len() == 0 ==> r is Ok,
    {
        let ghost rules = patterns(self.rules@);
        let ghost max_run = self.sequence_rules.max_vowel_syllables_in_a_row as nat;
        let mut attempt: usize = 0;
        while attempt < MAX_ROOT_ATTEMPTS
            invariant
                self.wf(),
                rules == patterns(self.rules@),
                max_run == self.sequence_rules.max_vowel_syllables_in_a_row as nat,
                self.illegal_patterns@.len() == 0 ==> attempt == 0,
            decreases MAX_ROOT_ATTEMPTS - attempt,
        {
            let num_syllables = random_in(self.min_syllables, self.max_syllables);
            let mut root_word = String::new();
            let mut consecutive: usize = 0;
            let ghost mut pats: Seq<Seq<char>> = Seq::empty();
            let ghost mut sylls: Seq<Seq<char>> = Seq::empty();
            let mut k: usize = 0;
            while k < num_syllables
                invariant
                    self.wf(),
                    rules == patterns(self.rules@),
                    max_run == self.sequence_rules.max_vowel_syllables_in_a_row as nat,
                    self.min_syllables <= num_syllables <= self.max_syllables,
                    k <= num_syllables,
                    num_syllables > 0 ==> self.rules.len() > 0,
                    pats.len() == k,
                    sylls.len() == k,
                    consecutive as nat == vowel_run(pats),
                    consecutive <= k,
                    root_word@ == concat(sylls),
                    forall|j: int| 0 <= j < k ==> rules.contains(#[trigger] pats[j]),
                    forall|j: int|
                        0 <= j < k ==> is_syllable_of(
                            #[trigger] sylls[j],
                            pats[j],
                            inventory.consonants(),
                            inventory.vowels(),
                        ),
                    respects_vowel_limit(pats, rules, max_run),
                decreases num_syllables - k,
            {
                let eligible = self.eligible_patterns(consecutive);
                let idx = if eligible.len() == 0 {
                    random_in(0, self.rules.len() - 1)
                } else {
                    eligible[random_in(0, eligible.len() - 1)]
                };
                let chosen_rule = &self.rules[idx];
                let syllable = self.generate_syllable_from_pattern(inventory, chosen_rule);
                root_word.append(syllable.as_str());
                let vowel_only_rule = chosen_rule.is_vowel_only();
                proof {
                    let p = chosen_rule@;
                    assert(rules[idx as int] == p);
                    let old_pats = pats;
                    lemma_concat_push(sylls, syllable@);
                    pats = pats.push(p);
                    sylls = sylls.push(syllable@);
                    assert(pats.drop_last() =~= old_pats);
                    assert forall|j: int| 0 <= j < pats.len() && vowel_run(pats.take(j))
                        >= max_run && has_mixed_pattern(rules) implies !vowel_only(
                        #[trigger] pats[j],
                    ) by {
                        assert(pats.take(j) =~= old_pats.take(j) || j == k);
                        if j < k {
                            assert(pats.take(j) =~= old_pats.take(j));
                            assert(pats[j] == old_pats[j]);
                        } else {
                            assert(pats.take(j) =~= old_pats);
                        }
                    }
                }
                if vowel_only_rule {
                    consecutive = consecutive + 1;
                } else {
                    consecutive = 0;
                }
                k += 1;
            }
            if !self.contains_illegal_patterns(root_word.as_str()) {
                assert(is_root_shape(
                    root_word@,
                    pats,
                    sylls,
                    rules,
                    inventory.consonants(),
                    inventory.vowels(),
                    self.min_syllables as nat,
                    self.max_syllables as nat,
                    max_run,
                ));
                return Ok(root_word);
            }
            attempt += 1;
        }
        Err(GenerationError::ExhaustedAttempts)
    }
}


/// In every root this generator may produce, no run of vowel-only syllables
/// is longer than the configured limit, unless every pattern is vowel-only.
pub proof fn lemma_root_vowel_runs(gen: WordGenerator, inventory: PhoneticInventory, w: Seq<char>)
    requires
        gen.is_root(inventory, w),
    ensures
        exists|pats: Seq<Seq<char>>, sylls: Seq<Seq<char>>|
            is_root_shape(
                w,
                pats,
                sylls,
                patterns(gen.rules@),
                inventory.consonants(),
                inventory.vowels(),
                gen.min_syllables as nat,
                gen.max_syllables as nat,
                gen.sequence_rules.max_vowel_syllables_in_a_row as nat,
            ) && (has_mixed_pattern(patterns(gen.rules@)) ==> forall|k: int|
                0 <= k <= pats.len() ==> #[trigger] vowel_run(pats.take(k))
                    <= gen.sequence_rules.max_vowel_syllables_in_a_row),
{
    let max = gen.sequence_rules.max_vowel_syllables_in_a_row as nat;
    let rules = patterns(gen.rules@);
    let (pats, sylls) = choose|pats: Seq<Seq<char>>, sylls: Seq<Seq<char>>|
        is_root_shape(
            w,
            pats,
            sylls,
            rules,
            inventory.consonants(),
            inventory.vowels(),
            gen.min_syllables as nat,
            gen.max_syllables as nat,
            max,
        );
    if has_mixed_pattern(rules) {
        lemma_vowel_run_bounded(pats, rules, max);
    }
}


pub open spec fn texts(v: Seq<String>) -> Seq<Seq<char>> {
    v.map_values(|s: String| s@)
}

/// The phonetic inventory and the word generator that a language description
/// sets up.
pub fn generator_from_config(config: LanguageConfig) -> (r: (PhoneticInventory, WordGenerator))
    ensures
        r.0.vowels() == graphemes_of(config.phonemes@, vowel_class()),
        r.0.consonants() == graphemes_of(config.phonemes@, consonant_class()),
        patterns(r.1.rules@) == texts(config.syllable_rules@),
        r.1.min_syllables == config.min_syllables,
        r.1.max_syllables == config.max_syllables,
        r.1.illegal_patterns@ == config.illegal_patterns@,
        r.1.morphology == config.morphology,
        r.1.lexicon_generation == config.lexicon_generation,
        r.1.sequence_rules == config.sequence_rules,
        r.1.grammar == config.grammar,
{
    let inventory = PhoneticInventory::new(config.phonemes);
    let mut rules: Vec<SyllablePattern> = Vec::new();
    let mut i: usize = 0;
    while i < config.syllable_rules.len()
        invariant
            i <= config.syllable_rules.len(),
            rules@.len() == i,
            patterns(rules@) =~= texts(config.syllable_rules@.take(i as int)),
        decreases config.syllable_rules.len() - i,
    {
        let ghost before = rules@;
        let pattern = SyllablePattern::new(config.syllable_rules[i].as_str());
        rules.push(pattern);
        proof {
            let t = texts(config.syllable_rules@.take(i + 1));
            assert forall|k: int| 0 <= k < i + 1 implies #[trigger] patterns(rules@)[k] == t[k] by {
                if k < i {
                    assert(rules@[k] == before[k]);
                    assert(patterns(before)[k] == texts(config.syllable_rules@.take(i as int))[k]);
                }
            }
            assert(patterns(rules@) =~= t);
        }
        i += 1;
    }
    assert(config.syllable_rules@.take(i as int) =~= config.syllable_rules@);
    let generator = WordGenerator::new(
        rules,
        config.min_syllables,
        config.max_syllables,
        config.illegal_patterns,
        config.morphology,
        config.lexicon_generation,
        config.sequence_rules,
        config.grammar,
    );
    (inventory, generator)
}

} // verus!
