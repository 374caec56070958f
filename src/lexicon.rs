use crate::config::{listed, list_contains, DerivationProcess, DerivationalRule, LexiconGeneration};
use crate::error::GenerationError;
use crate::generator::WordGenerator;
use crate::phonology::{random_in, PhoneticInventory};
use crate::text::{replace_all, replace_text, text_eq};
use vstd::prelude::*;

verus! {

/// Relies on uuid's `Uuid::new_v4` and `Uuid::as_u128`: a random version-4
/// identifier, as a 128-bit integer. Nothing is promised of its value.
#[verifier::external_body]
fn new_identifier() -> (r: u128) {
    uuid::Uuid::new_v4().as_u128()
}

/// How many fresh identifiers are drawn before a collision is reported.
pub const MAX_IDENTIFIER_DRAWS: usize = 8;

/// How many duplicate root forms in a row root seeding accepts before it
/// reports that the phonotactics are too poor for the requested count.
pub const MAX_DUPLICATE_ROOTS: usize = 1000;

/// A generated word with its lineage: a root has neither parent nor rule.
pub struct Lexeme {
    pub id: u128,
    pub form: String,
    pub part_of_speech: String,
    pub meaning: String,
    pub parent_id: Option<u128>,
    pub rule_applied: Option<String>,
}

/// All lexemes in order of creation, and the identifiers of the roots.
pub struct Lexicon {
    pub graph: Vec<Lexeme>,
    pub roots: Vec<u128>,
}

/// A lexeme has a parent exactly when it has a rule.
pub open spec fn marking_ok(l: Lexeme) -> bool {
    (l.parent_id is None) == (l.rule_applied is None)
}

pub open spec fn has_id(g: Seq<Lexeme>, id: u128) -> bool {
    exists|i: int| 0 <= i < g.len() && g[i].id == id
}

pub open spec fn ids_unique(g: Seq<Lexeme>) -> bool {
    forall|a: int, b: int| 0 <= a < b < g.len() ==> g[a].id != g[b].id
}

pub open spec fn forms_unique(g: Seq<Lexeme>) -> bool {
    forall|a: int, b: int| 0 <= a < b < g.len() ==> g[a].form@ != g[b].form@
}

pub open spec fn has_form(g: Seq<Lexeme>, form: Seq<char>) -> bool {
    exists|i: int| 0 <= i < g.len() && g[i].form@ == form
}

/// The parent of lexeme `i`, if it has one, stands before it.
pub open spec fn parent_precedes(g: Seq<Lexeme>, i: int) -> bool {
    match g[i].parent_id {
        None => true,
        Some(p) => exists|j: int| 0 <= j < i && g[j].id == p,
    }
}

/// The identifiers of the parentless lexemes, in order.
pub open spec fn root_ids(g: Seq<Lexeme>) -> Seq<u128>
    decreases g.len(),
{
    if g.len() == 0 {
        Seq::empty()
    } else if g.last().parent_id is None {
        root_ids(g.drop_last()).push(g.last().id)
    } else {
        root_ids(g.drop_last())
    }
}

pub open spec fn graph_wf(g: Seq<Lexeme>) -> bool {
    &&& ids_unique(g)
    &&& forall|i: int| 0 <= i < g.len() ==> marking_ok(#[trigger] g[i])
    &&& forall|i: int| 0 <= i < g.len() ==> #[trigger] parent_precedes(g, i)
}

/// `l` may join `g`: its identifier is new, and its parent, if any, is there.
pub open spec fn can_append(g: Seq<Lexeme>, l: Lexeme) -> bool {
    &&& !has_id(g, l.id)
    &&& marking_ok(l)
    &&& match l.parent_id {
        None => true,
        Some(p) => has_id(g, p),
    }
}

impl Lexicon {
    /// Identifiers are unique, every parent stands before its children, and
    /// `roots` lists the parentless lexemes in order.
    pub open spec fn wf(&self) -> bool {
        graph_wf(self.graph@) && self.roots@ == root_ids(self.graph@)
    }

    pub fn new() -> (r: Self)
        ensures
            r.graph@.len() == 0,
            r.roots@.len() == 0,
            r.wf(),
    {
        Lexicon { graph: Vec::new(), roots: Vec::new() }
    }

    /// Appends `lexeme`, and lists it among the roots when it has no parent.
    pub fn add_lexeme(&mut self, lexeme: Lexeme)
        ensures
            final(self).graph@ == old(self).graph@.push(lexeme),
            final(self).roots@ == if lexeme.parent_id is None {
                old(self).roots@.push(lexeme.id)
            } else {
                old(self).roots@
            },
            old(self).wf() && can_append(old(self).graph@, lexeme) ==> final(self).wf(),
    {
        let ghost g = self.graph@;
        let ghost lexeme_v = lexeme;
        if lexeme.parent_id.is_none() {
            self.roots.push(lexeme.id);
        }
        self.graph.push(lexeme);
        proof {
            let g2 = self.graph@;
            assert(g2.drop_last() =~= g);
            let lexeme = lexeme_v;
            if old(self).wf() && can_append(g, lexeme) {
                assert forall|a: int, b: int| 0 <= a < b < g2.len() implies g2[a].id != g2[b].id by {
                    if b == g.len() {
                        assert(g2[a] == g[a]);
                    } else {
                        assert(g2[a] == g[a] && g2[b] == g[b]);
                    }
                }
                assert forall|i: int| 0 <= i < g2.len() implies marking_ok(#[trigger] g2[i]) by {
                    if i < g.len() {
                        assert(g2[i] == g[i]);
                    }
                }
                assert forall|i: int| 0 <= i < g2.len() implies #[trigger] parent_precedes(g2, i) by {
                    if i < g.len() {
                        assert(g2[i] == g[i]);
                        assert(parent_precedes(g, i));
                        if let Some(p) = g[i].parent_id {
                            let j = choose|j: int| 0 <= j < i && g[j].id == p;
                            assert(g2[j] == g[j]);
                        }
                    } else if let Some(p) = lexeme.parent_id {
                        let j = choose|j: int| 0 <= j < g.len() && g[j].id == p;
                        assert(g2[j] == g[j]);
                    }
                }
            }
        }
    }
}

pub open spec fn same_as_input() -> Seq<char> {
    "SameAsInput"@
}

pub open spec fn meaning_placeholder() -> Seq<char> {
    "{parent_meaning}"@
}

pub open spec fn derived_form(parent_form: Seq<char>, process: DerivationProcess) -> Seq<char> {
    match process {
        DerivationProcess::Prefix { form } => form@ + parent_form,
        DerivationProcess::Suffix { form } => parent_form + form@,
    }
}

pub open spec fn derived_pos(parent_pos: Seq<char>, rule: DerivationalRule) -> Seq<char> {
    if rule.output_pos@ == same_as_input() {
        parent_pos
    } else {
        rule.output_pos@
    }
}

pub open spec fn derived_meaning(parent_meaning: Seq<char>, rule: DerivationalRule) -> Seq<char> {
    replace_all(rule.meaning_template@, meaning_placeholder(), parent_meaning)
}

/// The rule takes the parent's part of speech as input.
pub open spec fn rule_applies(rule: DerivationalRule, parent: Lexeme) -> bool {
    listed(rule.applies_to_pos@, parent.part_of_speech@)
}

/// The parent was made by a rule that `rule` may not follow.
pub open spec fn rule_blocked(rule: DerivationalRule, parent: Lexeme) -> bool {
    match parent.rule_applied {
        Some(n) => listed(rule.constraints.cannot_follow_rules@, n@),
        None => false,
    }
}

/// `child` is what `rule` makes of `parent`.
pub open spec fn derived_by(child: Lexeme, parent: Lexeme, rule: DerivationalRule) -> bool {
    &&& child.parent_id == Some(parent.id)
    &&& child.rule_applied matches Some(n) && n@ == rule.name@
    &&& child.form@ == derived_form(parent.form@, rule.process)
    &&& child.part_of_speech@ == derived_pos(parent.part_of_speech@, rule)
    &&& child.meaning@ == derived_meaning(parent.meaning@, rule)
}

/// Each derived lexeme is the work of a rule of `rules` that applies to its
/// earlier parent and is not barred by the rule that made the parent.
pub open spec fn derivations_sound(g: Seq<Lexeme>, rules: Seq<DerivationalRule>) -> bool {
    forall|i: int|
        0 <= i < g.len() && (#[trigger] g[i]).parent_id is Some ==> exists|j: int, r: int|
            0 <= j < i && 0 <= r < rules.len() && rule_applies(rules[r], g[j]) && !rule_blocked(
                rules[r],
                g[j],
            ) && derived_by(g[i], g[j], rules[r])
}

/// The form, part of speech and meaning that `rule` gives a child of `parent`.
pub fn apply_rule(parent: &Lexeme, rule: &DerivationalRule) -> (r: (String, String, String))
    ensures
        r.0@ == derived_form(parent.form@, rule.process),
        r.1@ == derived_pos(parent.part_of_speech@, *rule),
        r.2@ == derived_meaning(parent.meaning@, *rule),
{
    let new_form = match &rule.process {
        DerivationProcess::Prefix { form } => {
            let mut s = form.clone();
            s.append(parent.form.as_str());
            s
        },
        DerivationProcess::Suffix { form } => {
            let mut s = parent.form.clone();
            s.append(form.as_str());
            s
        },
    };
    let new_pos = if text_eq(rule.output_pos.as_str(), "SameAsInput") {
        parent.part_of_speech.clone()
    } else {
        rule.output_pos.clone()
    };
    proof {
        reveal_strlit("{parent_meaning}");
    }
    let new_meaning = replace_text(
        rule.meaning_template.as_str(),
        "{parent_meaning}",
        parent.meaning.as_str(),
    );
    (new_form, new_pos, new_meaning)
}

fn form_in_use(g: &Vec<Lexeme>, form: &str) -> (r: bool)
    ensures
        r == has_form(g@, form@),
{
    let mut i: usize = 0;
    while i < g.len()
        invariant
            i <= g.len(),
            forall|k: int| 0 <= k < i ==> g@[k].form@ != form@,
        decreases g.len() - i,
    {
        if text_eq(g[i].form.as_str(), form) {
            return true;
        }
        i += 1;
    }
    false
}

fn id_in_use(g: &Vec<Lexeme>, id: u128) -> (r: bool)
    ensures
        r == has_id(g@, id),
{
    let mut i: usize = 0;
    while i < g.len()
        invariant
            i <= g.len(),
            forall|k: int| 0 <= k < i ==> g@[k].id != id,
        decreases g.len() - i,
    {
        if g[i].id == id {
            return true;
        }
        i += 1;
    }
    false
}

/// An identifier that no lexeme of `g` carries.
fn fresh_id(g: &Vec<Lexeme>) -> (r: Result<u128, GenerationError>)
    ensures
        match r {
            Ok(id) => !has_id(g@, id),
            Err(e) => e == GenerationError::IdentifierCollision,
        },
        g@.len() == 0 ==> r is Ok,
{
    let mut draws: usize = 0;
    while draws < MAX_IDENTIFIER_DRAWS
        invariant
            g@.len() == 0 ==> draws == 0,
        decreases MAX_IDENTIFIER_DRAWS - draws,
    {
        let id = new_identifier();
        if !id_in_use(g, id) {
            return Ok(id);
        }
        draws += 1;
    }
    Err(GenerationError::IdentifierCollision)
}

fn copy_lexeme(l: &Lexeme) -> (r: Lexeme)
    ensures
        r == *l,
{
    let rule_applied = match &l.rule_applied {
        Some(n) => Some(n.clone()),
        None => None,
    };
    Lexeme {
        id: l.id,
        form: l.form.clone(),
        part_of_speech: l.part_of_speech.clone(),
        meaning: l.meaning.clone(),
        parent_id: l.parent_id,
        rule_applied,
    }
}

pub open spec fn fallback_part_of_speech() -> Seq<char> {
    "noun"@
}

/// The meanings listed for `pos`: those of the first entry for it, if any.
pub open spec fn candidates(entries: Seq<(String, Vec<String>)>, pos: Seq<char>) -> Seq<String>
    decreases entries.len(),
{
    if entries.len() == 0 {
        Seq::empty()
    } else if entries[0].0@ == pos {
        entries[0].1@
    } else {
        candidates(entries.drop_first(), pos)
    }
}

/// A root's part of speech is one of those configured, or the fallback when
/// none is.
pub open spec fn pos_ok(lg: LexiconGeneration, pos: Seq<char>) -> bool {
    if lg.parts_of_speech@.len() == 0 {
        pos == fallback_part_of_speech()
    } else {
        listed(lg.parts_of_speech@, pos)
    }
}

/// A root's meaning is a candidate for its part of speech, or empty when
/// there is none.
pub open spec fn meaning_ok(lg: LexiconGeneration, pos: Seq<char>, meaning: Seq<char>) -> bool {
    let c = candidates(lg.meanings@, pos);
    if c.len() == 0 {
        meaning.len() == 0
    } else {
        listed(c, meaning)
    }
}

fn pick_part_of_speech(lg: &LexiconGeneration) -> (r: String)
    ensures
        pos_ok(*lg, r@),
{
    if lg.parts_of_speech.len() == 0 {
        proof {
            reveal_strlit("noun");
        }
        String::from_str("noun")
    } else {
        let k = random_in(0, lg.parts_of_speech.len() - 1);
        lg.parts_of_speech[k].clone()
    }
}

fn candidate_meanings<'a>(entries: &'a Vec<(String, Vec<String>)>, pos: &str) -> (r: Option<
    &'a Vec<String>,
>)
    ensures
        match r {
            Some(v) => v@ == candidates(entries@, pos@),
            None => candidates(entries@, pos@).len() == 0,
        },
{
    let mut i: usize = 0;
    assert(entries@.skip(0) =~= entries@);
    while i < entries.len()
        invariant
            i <= entries.len(),
            candidates(entries@, pos@) == candidates(entries@.skip(i as int), pos@),
        decreases entries.len() - i,
    {
        assert(entries@.skip(i as int)[0] == entries@[i as int]);
        if text_eq(entries[i].0.as_str(), pos) {
            return Some(&entries[i].1);
        }
        assert(entries@.skip(i as int).drop_first() =~= entries@.skip(i + 1));
        i += 1;
    }
    None
}

fn pick_meaning(lg: &LexiconGeneration, pos: &str) -> (r: String)
    ensures
        meaning_ok(*lg, pos@, r@),
{
    match candidate_meanings(&lg.meanings, pos) {
        Some(v) => {
            if v.len() == 0 {
                String::new()
            } else {
                let k = random_in(0, v.len() - 1);
                v[k].clone()
            }
        },
        None => String::new(),
    }
}

proof fn lemma_forms_push(g: Seq<Lexeme>, l: Lexeme)
    requires
        forms_unique(g),
        !has_form(g, l.form@),
    ensures
        forms_unique(g.push(l)),
{
    let g2 = g.push(l);
    assert forall|a: int, b: int| 0 <= a < b < g2.len() implies g2[a].form@ != g2[b].form@ by {
        assert(g2[a] == g[a]);
        if b < g.len() {
            assert(g2[b] == g[b]);
        }
    }
}

proof fn lemma_sound_push(g: Seq<Lexeme>, rules: Seq<DerivationalRule>, l: Lexeme)
    requires
        derivations_sound(g, rules),
        l.parent_id is None || exists|j: int, r: int|
            0 <= j < g.len() && 0 <= r < rules.len() && rule_applies(rules[r], g[j])
                && !rule_blocked(rules[r], g[j]) && derived_by(l, g[j], rules[r]),
    ensures
        derivations_sound(g.push(l), rules),
{
    let g2 = g.push(l);
    assert forall|i: int| 0 <= i < g2.len() && (#[trigger] g2[i]).parent_id is Some implies exists|
        j: int,
        r: int,
    |
        0 <= j < i && 0 <= r < rules.len() && rule_applies(rules[r], g2[j]) && !rule_blocked(
            rules[r],
            g2[j],
        ) && derived_by(g2[i], g2[j], rules[r]) by {
        if i < g.len() {
            assert(g2[i] == g[i]);
            let (j, r) = choose|j: int, r: int|
                0 <= j < i && 0 <= r < rules.len() && rule_applies(rules[r], g[j])
                    && !rule_blocked(rules[r], g[j]) && derived_by(g[i], g[j], rules[r]);
            assert(g2[j] == g[j]);
        } else {
            let (j, r) = choose|j: int, r: int|
                0 <= j < g.len() && 0 <= r < rules.len() && rule_applies(rules[r], g[j])
                    && !rule_blocked(rules[r], g[j]) && derived_by(l, g[j], rules[r]);
            assert(g2[j] == g[j]);
        }
    }
}

impl WordGenerator {
    /// `l` is a root as seeding makes it: a root form of this generator with a
    /// part of speech and a meaning from its vocabulary.
    pub open spec fn is_seeded_root(&self, inventory: PhoneticInventory, l: Lexeme) -> bool {
        &&& l.parent_id is None
        &&& self.is_root(inventory, l.form@)
        &&& pos_ok(self.lexicon_generation, l.part_of_speech@)
        &&& meaning_ok(self.lexicon_generation, l.part_of_speech@, l.meaning@)
    }

    fn seed_roots(&self, lexicon: &mut Lexicon, root_count: usize, inventory: &PhoneticInventory) -> (r:
        Result<(), GenerationError>)
        requires
            self.wf(),
            old(lexicon).wf(),
            old(lexicon).graph@.len() == 0,
        ensures
            r is Ok ==> {
                &&& final(lexicon).wf()
                &&& final(lexicon).roots@.len() == root_count
                &&& final(lexicon).graph@.len() == root_count
                &&& forms_unique(final(lexicon).graph@)
                &&& forall|i: int|
                    0 <= i < final(lexicon).graph@.len() ==> self.is_seeded_root(
                        *inventory,
                        #[trigger] final(lexicon).graph@[i],
                    )
            },
            root_count == 0 ==> r is Ok,
            self.illegal_patterns@.len() == 0 && root_count <= 1 ==> r is Ok,
            r matches Err(e) && e == GenerationError::ExhaustedAttempts ==> self.illegal_patterns@.len() > 0,
            r matches Err(e) && e == GenerationError::InsufficientDiversity ==> root_count >= 2,
            r matches Err(e) && e == GenerationError::IdentifierCollision ==> root_count >= 2,
    {
        let mut misses: usize = 0;
        while lexicon.roots.len() < root_count
            invariant
                self.wf(),
                lexicon.wf(),
                lexicon.roots@.len() == lexicon.graph@.len(),
                lexicon.roots@.len() <= root_count,
                misses < MAX_DUPLICATE_ROOTS,
                forms_unique(lexicon.graph@),
                forall|i: int|
                    0 <= i < lexicon.graph@.len() ==> self.is_seeded_root(
                        *inventory,
                        #[trigger] lexicon.graph@[i],
                    ),
            decreases root_count - lexicon.roots@.len(), MAX_DUPLICATE_ROOTS - misses,
        {
            let form = match self.generate_root(inventory) {
                Ok(f) => f,
                Err(e) => {
                    return Err(e);
                },
            };
            if form_in_use(&lexicon.graph, form.as_str()) {
                misses += 1;
                if misses >= MAX_DUPLICATE_ROOTS {
                    return Err(GenerationError::InsufficientDiversity);
                }
            } else {
                misses = 0;
                let part_of_speech = pick_part_of_speech(&self.lexicon_generation);
                let meaning = pick_meaning(&self.lexicon_generation, part_of_speech.as_str());
                let id = match fresh_id(&lexicon.graph) {
                    Ok(id) => id,
                    Err(e) => {
                        return Err(e);
                    },
                };
                let root = Lexeme {
                    id,
                    form,
                    part_of_speech,
                    meaning,
                    parent_id: None,
                    rule_applied: None,
                };
                let ghost g = lexicon.graph@;
                let ghost rv = root;
                proof {
                    lemma_forms_push(g, rv);
                }
                lexicon.add_lexeme(root);
                proof {
                    assert forall|i: int| 0 <= i < lexicon.graph@.len() implies self.is_seeded_root(
                        *inventory,
                        #[trigger] lexicon.graph@[i],
                    ) by {
                        if i < g.len() {
                            assert(lexicon.graph@[i] == g[i]);
                        }
                    }
                }
            }
        }
        Ok(())
    }
}


/// Every rule of `rules` that applies to lexeme `j` and is not barred has
/// its form for `j` somewhere in `g`: added, or already there.
pub open spec fn fully_derived(g: Seq<Lexeme>, rules: Seq<DerivationalRule>, j: int) -> bool {
    forall|r: int|
        0 <= r < rules.len() && rule_applies(rules[r], g[j]) && !rule_blocked(rules[r], g[j])
            ==> has_form(g, #[trigger] derived_form(g[j].form@, rules[r].process))
}

proof fn lemma_fully_derived_push(g: Seq<Lexeme>, rules: Seq<DerivationalRule>, l: Lexeme)
    ensures
        forall|j: int|
            0 <= j < g.len() && fully_derived(g, rules, j) ==> #[trigger] fully_derived(
                g.push(l),
                rules,
                j,
            ),
        forall|f: Seq<char>| has_form(g, f) ==> #[trigger] has_form(g.push(l), f),
{
    let g2 = g.push(l);
    assert forall|f: Seq<char>| has_form(g, f) implies #[trigger] has_form(g2, f) by {
        let i = choose|i: int| 0 <= i < g.len() && g[i].form@ == f;
        assert(g2[i] == g[i]);
    }
    assert forall|j: int| 0 <= j < g.len() && fully_derived(g, rules, j) implies #[trigger] fully_derived(
        g2,
        rules,
        j,
    ) by {
        assert(g2[j] == g[j]);
        assert forall|r: int|
            0 <= r < rules.len() && rule_applies(rules[r], g2[j]) && !rule_blocked(rules[r], g2[j])
                implies has_form(g2, #[trigger] derived_form(g2[j].form@, rules[r].process)) by {
            assert(has_form(g, derived_form(g[j].form@, rules[r].process)));
        }
    }
}

proof fn lemma_fully_derived_grows(
    g0: Seq<Lexeme>,
    g: Seq<Lexeme>,
    rules: Seq<DerivationalRule>,
    j: int,
)
    requires
        g0.len() <= g.len(),
        forall|i: int| 0 <= i < g0.len() ==> #[trigger] g[i] == g0[i],
        0 <= j < g0.len(),
        fully_derived(g0, rules, j),
    ensures
        fully_derived(g, rules, j),
{
    assert(g[j] == g0[j]);
    assert forall|r: int|
        0 <= r < rules.len() && rule_applies(rules[r], g[j]) && !rule_blocked(rules[r], g[j])
            implies has_form(g, #[trigger] derived_form(g[j].form@, rules[r].process)) by {
        let f = derived_form(g0[j].form@, rules[r].process);
        assert(has_form(g0, f));
        let i = choose|i: int| 0 <= i < g0.len() && g0[i].form@ == f;
        assert(g[i] == g0[i]);
    }
}

/// When no rule applies to the part of speech of any root, a lexicon whose
/// derivations are sound holds roots only.
pub proof fn lemma_no_applicable_rule_only_roots(g: Seq<Lexeme>, rules: Seq<DerivationalRule>, i: int)
    requires
        derivations_sound(g, rules),
        forall|k: int, r: int|
            0 <= k < g.len() && g[k].parent_id is None && 0 <= r < rules.len() ==> !rule_applies(
                #[trigger] rules[r],
                #[trigger] g[k],
            ),
        0 <= i < g.len(),
    ensures
        g[i].parent_id is None,
    decreases i,
{
    if g[i].parent_id is Some {
        let (j, r) = choose|j: int, r: int|
            0 <= j < i && 0 <= r < rules.len() && rule_applies(rules[r], g[j]) && !rule_blocked(
                rules[r],
                g[j],
            ) && derived_by(g[i], g[j], rules[r]);
        lemma_no_applicable_rule_only_roots(g, rules, j);
        assert(!rule_applies(rules[r], g[j]));
    }
}

/// The position of the parent of lexeme `i`.
pub open spec fn parent_index(g: Seq<Lexeme>, i: int) -> int {
    choose|j: int| 0 <= j < i && Some(g[j].id) == g[i].parent_id
}

/// The number of parent links from lexeme `i` up to a root.
pub open spec fn depth(g: Seq<Lexeme>, i: int) -> nat
    decreases i,
{
    if 0 <= i < g.len() && g[i].parent_id is Some && exists|j: int|
        0 <= j < i && Some(g[j].id) == g[i].parent_id {
        1 + depth(g, parent_index(g, i))
    } else {
        0
    }
}

proof fn lemma_depth_push(g: Seq<Lexeme>, x: Lexeme, i: int)
    requires
        ids_unique(g),
        0 <= i < g.len(),
    ensures
        depth(g.push(x), i) == depth(g, i),
    decreases i,
{
    let g2 = g.push(x);
    assert(g2[i] == g[i]);
    if g[i].parent_id is Some && exists|j: int| 0 <= j < i && Some(g[j].id) == g[i].parent_id {
        let j = parent_index(g, i);
        assert(g2[j] == g[j]);
        let j2 = parent_index(g2, i);
        assert(g2[j2] == g[j2]);
        lemma_depth_push(g, x, j);
    } else if g[i].parent_id is Some && exists|j: int|
        0 <= j < i && Some(g2[j].id) == g2[i].parent_id {
        let j2 = choose|j: int| 0 <= j < i && Some(g2[j].id) == g2[i].parent_id;
        assert(g2[j2] == g[j2]);
    }
}

proof fn lemma_depth_push_all(g: Seq<Lexeme>, x: Lexeme)
    requires
        ids_unique(g),
    ensures
        forall|i: int| 0 <= i < g.len() ==> #[trigger] depth(g.push(x), i) == depth(g, i),
{
    assert forall|i: int| 0 <= i < g.len() implies #[trigger] depth(g.push(x), i) == depth(g, i) by {
        lemma_depth_push(g, x, i);
    }
}

proof fn lemma_depth_child(g: Seq<Lexeme>, x: Lexeme, j: int)
    requires
        ids_unique(g),
        ids_unique(g.push(x)),
        0 <= j < g.len(),
        x.parent_id == Some(g[j].id),
    ensures
        depth(g.push(x), g.len() as int) == depth(g, j) + 1,
{
    let g2 = g.push(x);
    let n = g.len() as int;
    assert(g2[n] == x);
    assert(g2[j] == g[j]);
    let j2 = parent_index(g2, n);
    assert(j2 == j);
    lemma_depth_push(g, x, j);
}

impl WordGenerator {
    fn derive_generation(
        &self,
        lexicon: &mut Lexicon,
        frontier: &Vec<usize>,
        Ghost(level): Ghost<nat>,
    ) -> (r: Result<Vec<usize>, GenerationError>)
        requires
            old(lexicon).wf(),
            forms_unique(old(lexicon).graph@),
            derivations_sound(old(lexicon).graph@, self.morphology.derivational_rules@),
            forall|k: int|
                0 <= k < frontier.len() ==> #[trigger] frontier@[k] < old(lexicon).graph@.len()
                    && depth(old(lexicon).graph@, frontier@[k] as int) == level,
        ensures
            match r {
                Ok(next) => {
                    let g0 = old(lexicon).graph@;
                    let g = final(lexicon).graph@;
                    &&& final(lexicon).wf()
                    &&& forms_unique(g)
                    &&& derivations_sound(g, self.morphology.derivational_rules@)
                    &&& final(lexicon).roots@ == old(lexicon).roots@
                    &&& g.len() >= g0.len()
                    &&& forall|i: int|
                        0 <= i < g0.len() ==> #[trigger] g[i] == g0[i] && depth(g, i) == depth(
                            g0,
                            i,
                        )
                    &&& forall|i: int|
                        g0.len() <= i < g.len() ==> (#[trigger] g[i]).parent_id is Some && depth(
                            g,
                            i,
                        ) == level + 1
                    &&& next@.len() == g.len() - g0.len()
                    &&& forall|k: int| 0 <= k < next@.len() ==> #[trigger] next@[k] == g0.len() + k
                    &&& forall|k: int|
                        0 <= k < frontier.len() ==> fully_derived(
                            g,
                            self.morphology.derivational_rules@,
                            #[trigger] frontier@[k] as int,
                        )
                },
                Err(e) => e == GenerationError::IdentifierCollision,
            },
            frontier@.len() == 0 ==> (r matches Ok(next) && next@.len() == 0),
    {
        let ghost rules = self.morphology.derivational_rules@;
        let ghost g0 = lexicon.graph@;
        let mut next: Vec<usize> = Vec::new();
        let mut fi: usize = 0;
        while fi < frontier.len()
            invariant
                rules == self.morphology.derivational_rules@,
                g0 == old(lexicon).graph@,
                forall|k: int|
                    0 <= k < frontier.len() ==> #[trigger] frontier@[k] < g0.len() && depth(
                        g0,
                        frontier@[k] as int,
                    ) == level,
                lexicon.wf(),
                forms_unique(lexicon.graph@),
                derivations_sound(lexicon.graph@, rules),
                lexicon.roots@ == old(lexicon).roots@,
                lexicon.graph@.len() >= g0.len(),
                forall|i: int|
                    0 <= i < g0.len() ==> #[trigger] lexicon.graph@[i] == g0[i] && depth(
                        lexicon.graph@,
                        i,
                    ) == depth(g0, i),
                forall|i: int|
                    g0.len() <= i < lexicon.graph@.len() ==> (#[trigger] lexicon.graph@[i]).parent_id is Some
                        && depth(lexicon.graph@, i) == level + 1,
                next@.len() == lexicon.graph@.len() - g0.len(),
                forall|k: int| 0 <= k < next@.len() ==> #[trigger] next@[k] == g0.len() + k,
                fi <= frontier.len(),
                fi == 0 ==> lexicon.graph@ == g0,
                forall|k: int|
                    0 <= k < fi ==> fully_derived(lexicon.graph@, rules, #[trigger] frontier@[k] as int),
            decreases frontier.len() - fi,
        {
            let fidx = frontier[fi];
            let parent = copy_lexeme(&lexicon.graph[fidx]);
            let mut ri: usize = 0;
            while ri < self.morphology.derivational_rules.len()
                invariant
                    rules == self.morphology.derivational_rules@,
                    g0 == old(lexicon).graph@,
                    fidx < g0.len(),
                    depth(g0, fidx as int) == level,
                    parent == g0[fidx as int],
                    lexicon.wf(),
                    forms_unique(lexicon.graph@),
                    derivations_sound(lexicon.graph@, rules),
                    lexicon.roots@ == old(lexicon).roots@,
                    lexicon.graph@.len() >= g0.len(),
                    forall|i: int|
                        0 <= i < g0.len() ==> #[trigger] lexicon.graph@[i] == g0[i] && depth(
                            lexicon.graph@,
                            i,
                        ) == depth(g0, i),
                    forall|i: int|
                        g0.len() <= i < lexicon.graph@.len() ==> (#[trigger] lexicon.graph@[i]).parent_id is Some
                            && depth(lexicon.graph@, i) == level + 1,
                    next@.len() == lexicon.graph@.len() - g0.len(),
                    forall|k: int| 0 <= k < next@.len() ==> #[trigger] next@[k] == g0.len() + k,
                    fi < frontier.len(),
                    fidx == frontier@[fi as int],
                    forall|k: int| 0 <= k < frontier.len() ==> #[trigger] frontier@[k] < g0.len(),
                    ri <= rules.len(),
                    forall|k: int|
                        0 <= k < fi ==> fully_derived(lexicon.graph@, rules, #[trigger] frontier@[k] as int),
                    forall|r: int|
                        0 <= r < ri && rule_applies(rules[r], parent) && !rule_blocked(rules[r], parent)
                            ==> has_form(lexicon.graph@, #[trigger] derived_form(parent.form@, rules[r].process)),
                decreases self.morphology.derivational_rules.len() - ri,
            {
                let rule = &self.morphology.derivational_rules[ri];
                if list_contains(&rule.applies_to_pos, parent.part_of_speech.as_str()) {
                    let constrained = match &parent.rule_applied {
                        Some(n) => list_contains(&rule.constraints.cannot_follow_rules, n.as_str()),
                        None => false,
                    };
                    if !constrained {
                        let (new_form, new_pos, new_meaning) = apply_rule(&parent, rule);
                        if !form_in_use(&lexicon.graph, new_form.as_str()) {
                            let id = match fresh_id(&lexicon.graph) {
                                Ok(id) => id,
                                Err(e) => {
                                    return Err(e);
                                },
                            };
                            let child = Lexeme {
                                id,
                                form: new_form,
                                part_of_speech: new_pos,
                                meaning: new_meaning,
                                parent_id: Some(parent.id),
                                rule_applied: Some(rule.name.clone()),
                            };
                            let ghost g = lexicon.graph@;
                            let ghost cv = child;
                            proof {
                                assert(g[fidx as int] == parent);
                                assert(has_id(g, parent.id));
                                assert(rule_applies(rules[ri as int], g[fidx as int]));
                                assert(!rule_blocked(rules[ri as int], g[fidx as int]));
                                assert(derived_by(cv, g[fidx as int], rules[ri as int]));
                                lemma_forms_push(g, cv);
                                lemma_sound_push(g, rules, cv);
                            }
                            let n = lexicon.graph.len();
                            lexicon.add_lexeme(child);
                            next.push(n);
                            proof {
                                let g2 = lexicon.graph@;
                                lemma_fully_derived_push(g, rules, cv);
                                assert forall|k: int| 0 <= k < fi implies fully_derived(
                                    g2,
                                    rules,
                                    #[trigger] frontier@[k] as int,
                                ) by {
                                    assert(frontier@[k] < g0.len());
                                    assert(fully_derived(g, rules, frontier@[k] as int));
                                    assert(fully_derived(g.push(cv), rules, frontier@[k] as int));
                                }
                                assert(g2[g.len() as int] == cv);
                                assert(has_form(g2, derived_form(parent.form@, rules[ri as int].process)));
                                lemma_depth_push_all(g, cv);
                                lemma_depth_child(g, cv, fidx as int);
                                assert forall|i: int| 0 <= i < g0.len() implies #[trigger] g2[i]
                                    == g0[i] && depth(g2, i) == depth(g0, i) by {
                                    assert(g2[i] == g[i]);
                                    assert(depth(g2, i) == depth(g, i));
                                }
                                assert forall|i: int| g0.len() <= i < g2.len() implies (
                                #[trigger] g2[i]).parent_id is Some && depth(g2, i) == level + 1 by {
                                    if i < g.len() {
                                        assert(g2[i] == g[i]);
                                        assert(depth(g2, i) == depth(g, i));
                                    }
                                }
                            }
                        }
                    }
                }
                ri += 1;
            }
            proof {
                assert(lexicon.graph@[fidx as int] == parent);
                assert(fully_derived(lexicon.graph@, rules, fidx as int));
            }
            fi += 1;
        }
        Ok(next)
    }
}


/// After a pass over the frontier of level `level`, every lexeme up to that
/// level is fully derived, and the new frontier holds the whole next level.
proof fn lemma_next_level(
    g0: Seq<Lexeme>,
    g: Seq<Lexeme>,
    rules: Seq<DerivationalRule>,
    frontier: Seq<usize>,
    next: Seq<usize>,
    level: nat,
)
    requires
        g.len() >= g0.len(),
        forall|i: int|
            0 <= i < g0.len() ==> #[trigger] g[i] == g0[i] && depth(g, i) == depth(g0, i),
        forall|i: int| g0.len() <= i < g.len() ==> #[trigger] depth(g, i) == level + 1,
        next.len() == g.len() - g0.len(),
        forall|k: int| 0 <= k < next.len() ==> #[trigger] next[k] == g0.len() + k,
        forall|k: int| 0 <= k < frontier.len() ==> fully_derived(g, rules, #[trigger] frontier[k] as int),
        forall|i: int| 0 <= i < g0.len() ==> #[trigger] depth(g0, i) <= level,
        forall|i: int|
            0 <= i < g0.len() && depth(g0, i) < level ==> #[trigger] fully_derived(g0, rules, i),
        forall|i: int|
            0 <= i < g0.len() && #[trigger] depth(g0, i) == level ==> exists|k: int|
                0 <= k < frontier.len() && frontier[k] == i,
    ensures
        forall|i: int| 0 <= i < g.len() && depth(g, i) <= level ==> #[trigger] fully_derived(g, rules, i),
        forall|i: int|
            0 <= i < g.len() && #[trigger] depth(g, i) == level + 1 ==> exists|k: int|
                0 <= k < next.len() && next[k] == i,
{
    assert forall|i: int| 0 <= i < g.len() && depth(g, i) <= level implies #[trigger] fully_derived(
        g,
        rules,
        i,
    ) by {
        if i >= g0.len() {
            assert(depth(g, i) == level + 1);
        } else {
            assert(g[i] == g0[i] && depth(g, i) == depth(g0, i));
            if depth(g0, i) < level {
                lemma_fully_derived_grows(g0, g, rules, i);
            } else {
                assert(depth(g0, i) <= level);
                let k = choose|k: int| 0 <= k < frontier.len() && frontier[k] == i;
                assert(fully_derived(g, rules, frontier[k] as int));
            }
        }
    }
    assert forall|i: int| 0 <= i < g.len() && #[trigger] depth(g, i) == level + 1 implies exists|
        k: int,
    | 0 <= k < next.len() && next[k] == i by {
        if i < g0.len() {
            assert(g[i] == g0[i] && depth(g, i) == depth(g0, i));
            assert(depth(g0, i) <= level);
        } else {
            assert(next[i - g0.len()] == i);
        }
    }
}

impl WordGenerator {
    /// Seeds `root_count` distinct roots, then runs up to `derivation_passes`
    /// generations of derivation, stopping at the first that derives nothing.
    pub fn build_etymological_graph(
        &self,
        root_count: usize,
        inventory: &PhoneticInventory,
        derivation_passes: usize,
    ) -> (r: Result<Lexicon, GenerationError>)
        requires
            self.wf(),
        ensures
            r matches Ok(lex) ==> {
                let g = lex.graph@;
                &&& lex.wf()
                &&& lex.roots@.len() == root_count
                &&& forms_unique(g)
                &&& derivations_sound(g, self.morphology.derivational_rules@)
                &&& forall|i: int|
                    0 <= i < g.len() && (#[trigger] g[i]).parent_id is None ==> self.is_seeded_root(
                        *inventory,
                        g[i],
                    )
                &&& forall|i: int| 0 <= i < g.len() ==> #[trigger] depth(g, i) <= derivation_passes
                &&& forall|i: int|
                    0 <= i < g.len() && depth(g, i) < derivation_passes ==> #[trigger] fully_derived(
                        g,
                        self.morphology.derivational_rules@,
                        i,
                    )
            },
            root_count == 0 ==> r is Ok,
            self.illegal_patterns@.len() == 0 && root_count <= 1 && derivation_passes == 0 ==> r is Ok,
            r matches Err(e) && e == GenerationError::ExhaustedAttempts ==> self.illegal_patterns@.len() > 0,
            r matches Err(e) && e == GenerationError::InsufficientDiversity ==> root_count >= 2,
            r matches Err(e) && e == GenerationError::IdentifierCollision ==> root_count >= 2 || (
            root_count >= 1 && derivation_passes >= 1),
    {
        let ghost rules = self.morphology.derivational_rules@;
        let mut lexicon = Lexicon::new();
        match self.seed_roots(&mut lexicon, root_count, inventory) {
            Ok(()) => {},
            Err(e) => {
                return Err(e);
            },
        }
        let ghost roots = lexicon.roots@;
        let ghost n0 = lexicon.graph@.len();
        let mut frontier: Vec<usize> = Vec::new();
        let mut k: usize = 0;
        while k < lexicon.graph.len()
            invariant
                k <= lexicon.graph@.len(),
                lexicon.graph@.len() == root_count,
                frontier@.len() == k,
                forall|j: int| 0 <= j < k ==> #[trigger] frontier@[j] == j,
            decreases lexicon.graph.len() - k,
        {
            frontier.push(k);
            k += 1;
        }
        proof {
            assert forall|i: int|
                0 <= i < lexicon.graph@.len() && #[trigger] depth(lexicon.graph@, i) == 0 implies exists|
                k: int,
            | 0 <= k < frontier.len() && frontier@[k] == i by {
                assert(frontier@[i] == i);
            }
        }
        let mut pass: usize = 0;
        let mut halted = false;
        while pass < derivation_passes && !halted
            invariant
                pass <= derivation_passes,
                lexicon.wf(),
                lexicon.roots@ == roots,
                roots.len() == root_count,
                n0 <= lexicon.graph@.len(),
                forms_unique(lexicon.graph@),
                derivations_sound(lexicon.graph@, self.morphology.derivational_rules@),
                forall|i: int|
                    0 <= i < lexicon.graph@.len() && (#[trigger] lexicon.graph@[i]).parent_id is None
                        ==> self.is_seeded_root(*inventory, lexicon.graph@[i]),
                forall|i: int|
                    0 <= i < lexicon.graph@.len() ==> #[trigger] depth(lexicon.graph@, i) <= pass,
                forall|j: int|
                    0 <= j < frontier.len() ==> #[trigger] frontier@[j] < lexicon.graph@.len()
                        && depth(lexicon.graph@, frontier@[j] as int) == pass,
                rules == self.morphology.derivational_rules@,
                root_count == 0 ==> frontier@.len() == 0,
                forall|i: int|
                    0 <= i < lexicon.graph@.len() && depth(lexicon.graph@, i) < pass
                        ==> #[trigger] fully_derived(lexicon.graph@, rules, i),
                !halted ==> forall|i: int|
                    0 <= i < lexicon.graph@.len() && #[trigger] depth(lexicon.graph@, i) == pass
                        ==> exists|k: int| 0 <= k < frontier.len() && frontier@[k] == i,
                halted ==> forall|i: int|
                    0 <= i < lexicon.graph@.len() ==> #[trigger] fully_derived(lexicon.graph@, rules, i),
            decreases derivation_passes - pass + if halted {
                0int
            } else {
                1int
            },
        {
            let ghost g0 = lexicon.graph@;
            let next = match self.derive_generation(&mut lexicon, &frontier, Ghost(pass as nat)) {
                Ok(next) => next,
                Err(e) => {
                    return Err(e);
                },
            };
            proof {
                let g = lexicon.graph@;
                assert forall|i: int|
                    0 <= i < g.len() && (#[trigger] g[i]).parent_id is None implies self.is_seeded_root(
                    *inventory,
                    g[i],
                ) by {
                    if i >= g0.len() {
                        assert(g[i].parent_id is Some);
                    } else {
                        assert(g[i] == g0[i]);
                    }
                }
                assert forall|i: int| 0 <= i < g.len() implies #[trigger] depth(g, i) <= pass + 1 by {
                    if i < g0.len() {
                        assert(g[i] == g0[i] && depth(g, i) == depth(g0, i));
                    }
                }
                assert forall|j: int| 0 <= j < next.len() implies #[trigger] next@[j] < g.len()
                    && depth(g, next@[j] as int) == pass + 1 by {
                    assert(next@[j] == g0.len() + j);
                }
                lemma_next_level(g0, g, rules, frontier@, next@, pass as nat);
            }
            if next.len() == 0 {
                halted = true;
                proof {
                    assert(lexicon.graph@ =~= g0) by {
                        assert forall|i: int| 0 <= i < g0.len() implies #[trigger] lexicon.graph@[i]
                            == g0[i] by {}
                    }
                }
            } else {
                frontier = next;
                pass += 1;
            }
        }
        Ok(lexicon)
    }
}


/// The position reached from lexeme `i` by `k` parent links.
pub open spec fn ancestor_at(g: Seq<Lexeme>, i: int, k: nat) -> int
    decreases k,
{
    if k == 0 {
        i
    } else {
        ancestor_at(g, parent_index(g, i), (k - 1) as nat)
    }
}

/// In a well-formed lexicon, following parent links from any lexeme reaches a
/// root after exactly `depth` links, and every ancestor passed on the way
/// stands strictly before the lexeme: no lexeme is its own ancestor.
pub proof fn lemma_lineage_reaches_root(g: Seq<Lexeme>, i: int)
    requires
        graph_wf(g),
        0 <= i < g.len(),
    ensures
        0 <= ancestor_at(g, i, depth(g, i)) <= i,
        g[ancestor_at(g, i, depth(g, i))].parent_id is None,
        forall|k: nat| 0 < k <= depth(g, i) ==> 0 <= #[trigger] ancestor_at(g, i, k) < i,
    decreases i,
{
    assert(marking_ok(g[i]));
    assert(parent_precedes(g, i));
    if let Some(p) = g[i].parent_id {
        let j = choose|j: int| 0 <= j < i && g[j].id == p;
        assert(Some(g[j].id) == g[i].parent_id);
        let q = parent_index(g, i);
        lemma_lineage_reaches_root(g, q);
        assert(depth(g, i) == 1 + depth(g, q));
        assert(ancestor_at(g, i, depth(g, i)) == ancestor_at(g, q, depth(g, q)));
        assert forall|k: nat| 0 < k <= depth(g, i) implies 0 <= #[trigger] ancestor_at(g, i, k) < i by {
            assert(ancestor_at(g, i, k) == ancestor_at(g, q, (k - 1) as nat));
        }
    }
}

/// Every lexeme of a lexicon built with `derivation_passes` passes reaches a
/// root within that many parent links, through ancestors that all precede it.
pub proof fn lemma_built_lineage(lex: Lexicon, derivation_passes: nat, i: int)
    requires
        lex.wf(),
        forall|k: int| 0 <= k < lex.graph@.len() ==> #[trigger] depth(lex.graph@, k) <= derivation_passes,
        0 <= i < lex.graph@.len(),
    ensures
        depth(lex.graph@, i) <= derivation_passes,
        lex.graph@[ancestor_at(lex.graph@, i, depth(lex.graph@, i))].parent_id is None,
        forall|k: nat| 0 < k <= depth(lex.graph@, i) ==> 0 <= #[trigger] ancestor_at(lex.graph@, i, k) < i,
{
    lemma_lineage_reaches_root(lex.graph@, i);
}

/// No two rules share a name.
pub open spec fn rule_names_unique(rules: Seq<DerivationalRule>) -> bool {
    forall|a: int, b: int| 0 <= a < b < rules.len() ==> rules[a].name@ != rules[b].name@
}

/// A derived lexeme's rule never lists, among the rules it may not follow, the
/// rule that made the lexeme's parent.
pub proof fn lemma_constraints_respected(g: Seq<Lexeme>, rules: Seq<DerivationalRule>, i: int, r: int)
    requires
        graph_wf(g),
        derivations_sound(g, rules),
        rule_names_unique(rules),
        0 <= i < g.len(),
        g[i].rule_applied matches Some(n) && 0 <= r < rules.len() && rules[r].name@ == n@,
    ensures
        g[i].parent_id is Some,
        0 <= parent_index(g, i) < i,
        !rule_blocked(rules[r], g[parent_index(g, i)]),
{
    assert(marking_ok(g[i]));
    let (j, r2) = choose|j: int, r2: int|
        0 <= j < i && 0 <= r2 < rules.len() && rule_applies(rules[r2], g[j]) && !rule_blocked(
            rules[r2],
            g[j],
        ) && derived_by(g[i], g[j], rules[r2]);
    assert(r2 == r);
    let q = parent_index(g, i);
    assert(Some(g[j].id) == g[i].parent_id);
    assert(q == j);
}


proof fn lemma_root_ids_all(g: Seq<Lexeme>)
    requires
        forall|i: int| 0 <= i < g.len() ==> (#[trigger] g[i]).parent_id is None,
    ensures
        root_ids(g).len() == g.len(),
    decreases g.len(),
{
    if g.len() > 0 {
        let h = g.drop_last();
        assert forall|i: int| 0 <= i < h.len() implies (#[trigger] h[i]).parent_id is None by {
            assert(h[i] == g[i]);
        }
        lemma_root_ids_all(h);
        assert(g.last().parent_id is None);
    }
}

/// When parts of speech are configured and no rule takes any of them as
/// input, a lexicon built as `build_etymological_graph` builds it holds its
/// seeded roots and nothing else.
pub proof fn lemma_no_applicable_rule_roots_only(
    generator: WordGenerator,
    inventory: PhoneticInventory,
    lex: Lexicon,
)
    requires
        generator.lexicon_generation.parts_of_speech@.len() > 0,
        forall|r: int, p: int|
            0 <= r < generator.morphology.derivational_rules@.len() && 0 <= p
                < generator.lexicon_generation.parts_of_speech@.len() ==> !listed(
                #[trigger] generator.morphology.derivational_rules@[r].applies_to_pos@,
                #[trigger] generator.lexicon_generation.parts_of_speech@[p]@,
            ),
        lex.wf(),
        derivations_sound(lex.graph@, generator.morphology.derivational_rules@),
        forall|i: int|
            0 <= i < lex.graph@.len() && (#[trigger] lex.graph@[i]).parent_id is None
                ==> generator.is_seeded_root(inventory, lex.graph@[i]),
    ensures
        forall|i: int|
            0 <= i < lex.graph@.len() ==> (#[trigger] lex.graph@[i]).parent_id is None
                && lex.graph@[i].rule_applied is None,
        lex.roots@.len() == lex.graph@.len(),
{
    let g = lex.graph@;
    let rules = generator.morphology.derivational_rules@;
    let parts = generator.lexicon_generation.parts_of_speech@;
    assert forall|k: int, r: int|
        0 <= k < g.len() && g[k].parent_id is None && 0 <= r < rules.len() implies !rule_applies(
        #[trigger] rules[r],
        #[trigger] g[k],
    ) by {
        assert(generator.is_seeded_root(inventory, g[k]));
        assert(listed(parts, g[k].part_of_speech@));
        let p = choose|p: int| 0 <= p < parts.len() && parts[p]@ == g[k].part_of_speech@;
        assert(!listed(rules[r].applies_to_pos@, parts[p]@));
    }
    assert forall|i: int| 0 <= i < g.len() implies (#[trigger] g[i]).parent_id is None
        && g[i].rule_applied is None by {
        lemma_no_applicable_rule_only_roots(g, rules, i);
        assert(marking_ok(g[i]));
    }
    lemma_root_ids_all(g);
}

} // verus!
