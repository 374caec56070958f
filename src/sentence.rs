use crate::generator::WordGenerator;
use crate::lexicon::{Lexeme, Lexicon};
use crate::phonology::random_in;
use crate::text::text_eq;
use vstd::prelude::*;

verus! {

/// What `char::to_uppercase` makes of `c`: one to three characters.
pub uninterp spec fn uppercase_of(c: char) -> Seq<char>;

/// Relies on `char::to_uppercase`, collected into a `String`: the result is
/// a function of `c` alone.
#[verifier::external_body]
fn uppercase_char(c: char) -> (r: String)
    ensures
        r@ == uppercase_of(c),
{
    c.to_uppercase().collect()
}

/// The three words in the order that `order` names; any order other than
/// the six permutations of `S`, `V` and `O` counts as `SVO`.
pub open spec fn arrange(order: Seq<char>, s: Seq<char>, v: Seq<char>, o: Seq<char>) -> Seq<char> {
    let words = if order == "SOV"@ {
        seq![s, o, v]
    } else if order == "VSO"@ {
        seq![v, s, o]
    } else if order == "VOS"@ {
        seq![v, o, s]
    } else if order == "OSV"@ {
        seq![o, s, v]
    } else if order == "OVS"@ {
        seq![o, v, s]
    } else {
        seq![s, v, o]
    };
    words[0] + seq![' '] + words[1] + seq![' '] + words[2]
}

/// `text` with its first character replaced by `upper_first`, and a full stop.
pub open spec fn finish(upper_first: Seq<char>, text: Seq<char>) -> Seq<char> {
    upper_first + text.skip(1) + seq!['.']
}

/// The sentence of the three words in the order `order`.
pub open spec fn sentence_of(order: Seq<char>, s: Seq<char>, v: Seq<char>, o: Seq<char>) -> Seq<char> {
    let t = arrange(order, s, v, o);
    finish(uppercase_of(t[0]), t)
}

/// `w` fills a slot for part of speech `pos`: the form of a lexeme of that
/// part of speech, or `placeholder` when the lexicon has none.
pub open spec fn slot_ok(g: Seq<Lexeme>, pos: Seq<char>, placeholder: Seq<char>, w: Seq<char>) -> bool {
    if exists|i: int| 0 <= i < g.len() && g[i].part_of_speech@ == pos {
        exists|i: int| 0 <= i < g.len() && g[i].part_of_speech@ == pos && g[i].form@ == w
    } else {
        w == placeholder
    }
}

/// Joins the three words in the order `order` names, with single spaces.
pub fn arrange_words(order: &str, subject: &str, verb: &str, object: &str) -> (r: String)
    ensures
        r@ == arrange(order@, subject@, verb@, object@),
{
    let (a, b, c) = if text_eq(order, "SOV") {
        (subject, object, verb)
    } else if text_eq(order, "VSO") {
        (verb, subject, object)
    } else if text_eq(order, "VOS") {
        (verb, object, subject)
    } else if text_eq(order, "OSV") {
        (object, subject, verb)
    } else if text_eq(order, "OVS") {
        (object, verb, subject)
    } else {
        (subject, verb, object)
    };
    let mut out = String::from_str(a);
    out.append(" ");
    out.append(b);
    out.append(" ");
    out.append(c);
    proof {
        reveal_strlit(" ");
    }
    out
}

/// Puts `upper_first` in place of the first character of `text` and ends it
/// with a full stop.
pub fn capitalize_with(upper_first: &str, text: &str) -> (r: String)
    requires
        text@.len() > 0,
    ensures
        r@ == finish(upper_first@, text@),
{
    let n = text.unicode_len();
    let rest = text.substring_char(1, n);
    let mut out = String::from_str(upper_first);
    out.append(rest);
    out.append(".");
    proof {
        reveal_strlit(".");
        assert(rest@ =~= text@.skip(1));
    }
    out
}

/// The finished sentence of three given words.
pub fn assemble_sentence(order: &str, subject: &str, verb: &str, object: &str) -> (r: String)
    ensures
        r@ == sentence_of(order@, subject@, verb@, object@),
{
    let arranged = arrange_words(order, subject, verb, object);
    let t = arranged.as_str();
    assert(t@.len() > 0);
    let first = uppercase_char(t.get_char(0));
    capitalize_with(first.as_str(), t)
}

/// A random form of part of speech `pos` from `g`, or `placeholder`.
fn pick_form(g: &Vec<Lexeme>, pos: &str, placeholder: &str) -> (r: String)
    ensures
        slot_ok(g@, pos@, placeholder@, r@),
{
    let mut found: Vec<usize> = Vec::new();
    let mut i: usize = 0;
    while i < g.len()
        invariant
            i <= g.len(),
            forall|k: int| 0 <= k < found.len() ==> #[trigger] found@[k] < g.len() && g@[found@[k] as int].part_of_speech@ == pos@,
            found.len() == 0 ==> forall|k: int| 0 <= k < i ==> g@[k].part_of_speech@ != pos@,
        decreases g.len() - i,
    {
        if text_eq(g[i].part_of_speech.as_str(), pos) {
            found.push(i);
        }
        i += 1;
    }
    if found.len() == 0 {
        String::from_str(placeholder)
    } else {
        let k = random_in(0, found.len() - 1);
        let j = found[k];
        assert(g@[j as int].part_of_speech@ == pos@);
        g[j].form.clone()
    }
}

impl WordGenerator {
    /// A sentence of a random noun subject, verb and noun object, in the
    /// grammar's word order; a part of speech the lexicon lacks is written
    /// `<noun>` or `<verb>`.
    pub fn generate_sentence(&self, lexicon: &Lexicon) -> (r: String)
        ensures
            exists|s: Seq<char>, v: Seq<char>, o: Seq<char>|
                slot_ok(lexicon.graph@, "noun"@, "<noun>"@, s) && slot_ok(
                    lexicon.graph@,
                    "verb"@,
                    "<verb>"@,
                    v,
                ) && slot_ok(lexicon.graph@, "noun"@, "<noun>"@, o) && r@ == sentence_of(
                    self.grammar.word_order@,
                    s,
                    v,
                    o,
                ),
    {
        let subject = pick_form(&lexicon.graph, "noun", "<noun>");
        let verb = pick_form(&lexicon.graph, "verb", "<verb>");
        let object = pick_form(&lexicon.graph, "noun", "<noun>");
        let r = assemble_sentence(
            self.grammar.word_order.as_str(),
            subject.as_str(),
            verb.as_str(),
            object.as_str(),
        );
        assert(slot_ok(lexicon.graph@, "noun"@, "<noun>"@, subject@) && slot_ok(
            lexicon.graph@,
            "verb"@,
            "<verb>"@,
            verb@,
        ) && slot_ok(lexicon.graph@, "noun"@, "<noun>"@, object@) && r@ == sentence_of(
            self.grammar.word_order@,
            subject@,
            verb@,
            object@,
        ));
        r
    }
}

} // verus!
