use crate::text::{occurs_at, occurs_at_exec, text_eq};
use rand::Rng;
use vstd::prelude::*;

verus! {

/// Relies on rand's `rng().random_range(lo..=hi)`: a uniform draw from the
/// inclusive range, which panics only when the range is empty.
#[verifier::external_body]
pub(crate) fn random_in(lo: usize, hi: usize) -> (r: usize)
    requires
        lo <= hi,
    ensures
        lo <= r <= hi,
{
    rand::rng().random_range(lo..=hi)
}

/// A phoneme: its written form and its class, `"Vowel"` or `"Consonant"`.
pub struct Phoneme {
    pub grapheme: String,
    pub sound_type: String,
}

pub open spec fn vowel_class() -> Seq<char> {
    "Vowel"@
}

pub open spec fn consonant_class() -> Seq<char> {
    "Consonant"@
}

/// The graphemes of the phonemes of class `class`, in order.
pub open spec fn graphemes_of(ps: Seq<Phoneme>, class: Seq<char>) -> Seq<Seq<char>>
    decreases ps.len(),
{
    if ps.len() == 0 {
        Seq::empty()
    } else if ps.last().sound_type@ == class {
        graphemes_of(ps.drop_last(), class).push(ps.last().grapheme@)
    } else {
        graphemes_of(ps.drop_last(), class)
    }
}

pub struct PhoneticInventory {
    vowels: Vec<Phoneme>,
    consonants: Vec<Phoneme>,
}

pub open spec fn graphemes(ps: Seq<Phoneme>) -> Seq<Seq<char>> {
    ps.map_values(|p: Phoneme| p.grapheme@)
}

fn copy_phoneme(p: &Phoneme) -> (r: Phoneme)
    ensures
        r.grapheme@ == p.grapheme@,
        r.sound_type@ == p.sound_type@,
{
    Phoneme { grapheme: p.grapheme.clone(), sound_type: p.sound_type.clone() }
}

fn select_class(all: &Vec<Phoneme>, class: &str) -> (r: Vec<Phoneme>)
    ensures
        graphemes(r@) == graphemes_of(all@, class@),
{
    let mut out: Vec<Phoneme> = Vec::new();
    let mut i: usize = 0;
    while i < all.len()
        invariant
            i <= all.len(),
            graphemes(out@) =~= graphemes_of(all@.take(i as int), class@),
        decreases all.len() - i,
    {
        assert(all@.take(i + 1).drop_last() =~= all@.take(i as int));
        if text_eq(all[i].sound_type.as_str(), class) {
            let p = copy_phoneme(&all[i]);
            out.push(p);
        }
        i += 1;
    }
    assert(all@.take(all.len() as int) =~= all@);
    out
}

impl PhoneticInventory {
    /// The graphemes of the vowels, in the order given.
    pub closed spec fn vowels(&self) -> Seq<Seq<char>> {
        graphemes(self.vowels@)
    }

    /// The graphemes of the consonants, in the order given.
    pub closed spec fn consonants(&self) -> Seq<Seq<char>> {
        graphemes(self.consonants@)
    }

    pub fn new(all_phonemes: Vec<Phoneme>) -> (r: Self)
        ensures
            r.vowels() == graphemes_of(all_phonemes@, vowel_class()),
            r.consonants() == graphemes_of(all_phonemes@, consonant_class()),
    {
        let vowels = select_class(&all_phonemes, "Vowel");
        let consonants = select_class(&all_phonemes, "Consonant");
        PhoneticInventory { vowels, consonants }
    }

    pub(crate) fn get_random_consonant(&self) -> (r: Option<&Phoneme>)
        ensures
            r is None <==> self.consonants().len() == 0,
            r matches Some(p) ==> self.consonants().contains(p.grapheme@),
    {
        if self.consonants.len() == 0 {
            None
        } else {
            let k = random_in(0, self.consonants.len() - 1);
            assert(self.consonants()[k as int] == self.consonants@[k as int].grapheme@);
            Some(&self.consonants[k])
        }
    }

    pub(crate) fn get_random_vowel(&self) -> (r: Option<&Phoneme>)
        ensures
            r is None <==> self.vowels().len() == 0,
            r matches Some(p) ==> self.vowels().contains(p.grapheme@),
    {
        if self.vowels.len() == 0 {
            None
        } else {
            let k = random_in(0, self.vowels.len() - 1);
            assert(self.vowels()[k as int] == self.vowels@[k as int].grapheme@);
            Some(&self.vowels[k])
        }
    }
}

/// A syllable template: `C` stands for a consonant, `V` for a vowel, and any
/// other symbol contributes nothing.
pub struct SyllablePattern {
    pattern: String,
}

/// Every symbol of the pattern is a vowel slot.
pub open spec fn vowel_only(p: Seq<char>) -> bool {
    forall|i: int| 0 <= i < p.len() ==> p[i] == 'V'
}

impl View for SyllablePattern {
    type V = Seq<char>;

    closed spec fn view(&self) -> Seq<char> {
        self.pattern@
    }
}

impl SyllablePattern {
    pub fn new(pattern: &str) -> (r: Self)
        ensures
            r@ == pattern@,
    {
        SyllablePattern { pattern: String::from_str(pattern) }
    }

    /// The pattern's symbols as text.
    pub fn as_str(&self) -> (r: &str)
        ensures
            r@ == self@,
    {
        self.pattern.as_str()
    }

    pub fn is_vowel_only(&self) -> (r: bool)
        ensures
            r == vowel_only(self@),
    {
        let s = self.pattern.as_str();
        let n = s.unicode_len();
        let mut i: usize = 0;
        while i < n
            invariant
                i <= n,
                n == self@.len(),
                s@ == self@,
                forall|k: int| 0 <= k < i ==> self@[k] == 'V',
            decreases n - i,
        {
            if s.get_char(i) != 'V' {
                return false;
            }
            i += 1;
        }
        true
    }

    pub fn starts_with(&self, pattern_type: &str) -> (r: bool)
        ensures
            r == occurs_at(self@, pattern_type@, 0),
    {
        occurs_at_exec(self.pattern.as_str(), pattern_type, 0)
    }
}

/// `fill` is what one symbol `c` of a pattern may become: a grapheme of its
/// class, or nothing when that class is empty or `c` is no class symbol.
pub open spec fn slot_fill_ok(
    c: char,
    fill: Seq<char>,
    consonants: Seq<Seq<char>>,
    vowels: Seq<Seq<char>>,
) -> bool {
    if c == 'C' && consonants.len() > 0 {
        consonants.contains(fill)
    } else if c == 'V' && vowels.len() > 0 {
        vowels.contains(fill)
    } else {
        fill.len() == 0
    }
}

/// `fills` gives, symbol by symbol, a realisation of `pattern`.
pub open spec fn realizes(
    pattern: Seq<char>,
    fills: Seq<Seq<char>>,
    consonants: Seq<Seq<char>>,
    vowels: Seq<Seq<char>>,
) -> bool {
    fills.len() == pattern.len() && forall|k: int|
        0 <= k < pattern.len() ==> slot_fill_ok(#[trigger] pattern[k], fills[k], consonants, vowels)
}

/// `s` is one realisation of `pattern` over the given graphemes.
pub open spec fn is_syllable_of(
    s: Seq<char>,
    pattern: Seq<char>,
    consonants: Seq<Seq<char>>,
    vowels: Seq<Seq<char>>,
) -> bool {
    exists|fills: Seq<Seq<char>>|
        realizes(pattern, fills, consonants, vowels) && s == crate::text::concat(fills)
}

} // verus!
