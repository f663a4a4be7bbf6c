//! The knowledge base: every loaded rule, and the registry of the source
//! texts they were loaded from.

use crate::parser::Line;
use crate::rules::{
    lemma_rule_texts_add, lemma_rules_named_add, lemma_rules_named_alike,
    lemma_rules_named_push, lemma_rules_not_from_absent, lemma_rules_not_from_origins,
    lemma_rules_not_from_push, lemma_some_rule_named_add, lemma_some_rule_named_alike,
    rule_texts, rules_named, rules_not_from, some_rule_named, Rule,
};
use crate::sources::{Source, SourceInfo, SourceView, Sources};
use crate::text::views;
use vstd::prelude::*;

verus! {

/// The message of the error that a load ends in when every source
/// identifier has been given out.
pub open spec fn identifiers_exhausted() -> Seq<char> {
    "no source identifier is left"@
}

/// A knowledge base as plain values.
pub struct KbState {
    /// Every rule, in the order of loading.
    pub rules: Seq<Rule>,
    /// The registered sources, by id.
    pub sources: Map<u64, SourceView>,
    /// The id of each loaded file's source.
    pub files: Map<Seq<char>, u64>,
    /// The id that the next source will get.
    pub next_id: u64,
}

/// The rules among `lines`, in their order, each attributed to the source
/// `id`.
pub open spec fn rules_of(lines: Seq<Line>, id: u64) -> Seq<Rule> {
    lines.filter(|line: Line| line is Rule).map_values(
        |line: Line| line->Rule_0.attributed_to(id),
    )
}

impl KbState {
    /// A knowledge base without rules: its registry holds only the
    /// placeholder text for unknown origins, under id 0.
    pub open spec fn empty() -> KbState {
        KbState {
            rules: Seq::empty(),
            sources: Map::<u64, SourceView>::empty().insert(
                0,
                SourceView { filename: None, src: "<Unknown>"@ },
            ),
            files: Map::empty(),
            next_id: 1,
        }
    }

    /// The invariant of a knowledge base: each file on record has its
    /// source registered under its name, and no id in use has reached
    /// `next_id`.
    pub open spec fn wf(self) -> bool {
        &&& forall|name: Seq<char>| #[trigger]
            self.files.contains_key(name) ==> self.sources.contains_key(self.files[name])
                && self.sources[self.files[name]].filename == Some(name)
        &&& forall|id: u64| #[trigger] self.sources.contains_key(id) ==> id < self.next_id
        &&& forall|i: int, id: u64|
            0 <= i < self.rules.len() && #[trigger] self.rules[i].is_from(id) ==> id
                < self.next_id
    }

    /// Whether some rule has the name `name`.
    pub open spec fn defines(self, name: Seq<char>) -> bool {
        some_rule_named(self.rules, name)
    }

    /// The variants of the rule `name`, in the order of loading.
    pub open spec fn variants(self, name: Seq<char>) -> Seq<Rule> {
        rules_named(self.rules, name)
    }

    /// The canonical text of each variant of the rule `name`.
    pub open spec fn variant_texts(self, name: Seq<char>) -> Seq<Seq<char>> {
        rule_texts(self.variants(name))
    }

    /// The knowledge base without the file `filename`: without its rules,
    /// its source and its name. Unchanged where the file is not loaded.
    pub open spec fn without_file(self, filename: Seq<char>) -> KbState {
        if self.files.contains_key(filename) {
            KbState {
                rules: rules_not_from(self.rules, self.files[filename]),
                sources: self.sources.remove(self.files[filename]),
                files: self.files.remove(filename),
                next_id: self.next_id,
            }
        } else {
            self
        }
    }

    /// The knowledge base with one more source, registered under `next_id`,
    /// and with the rules among `lines` attributed to it.
    pub open spec fn with_source(
        self,
        src: Seq<char>,
        filename: Option<Seq<char>>,
        lines: Seq<Line>,
    ) -> KbState {
        KbState {
            rules: self.rules + rules_of(lines, self.next_id),
            sources: self.sources.insert(self.next_id, SourceView { filename, src }),
            files: match filename {
                Some(name) => self.files.insert(name, self.next_id),
                None => self.files,
            },
            next_id: (self.next_id + 1) as u64,
        }
    }

    /// The knowledge base after loading `src` under `filename`: any earlier
    /// version of that file is replaced.
    pub open spec fn loaded(
        self,
        src: Seq<char>,
        filename: Option<Seq<char>>,
        lines: Seq<Line>,
    ) -> KbState {
        match filename {
            Some(name) => self.without_file(name).with_source(src, filename, lines),
            None => self.with_source(src, filename, lines),
        }
    }
}

/// The knowledge base.
pub struct KnowledgeBase {
    /// Every rule, in the order of loading.
    rules: Vec<Rule>,
    sources: Sources,
    /// The id that the next source will get.
    next_id: u64,
}

impl View for KnowledgeBase {
    type V = KbState;

    closed spec fn view(&self) -> KbState {
        KbState {
            rules: self.rules@,
            sources: self.sources.sources(),
            files: self.sources.files(),
            next_id: self.next_id,
        }
    }
}

impl KnowledgeBase {
    /// The representation invariant.
    pub closed spec fn wf(&self) -> bool {
        self.sources.wf() && self@.wf()
    }

    /// A knowledge base without rules. Its registry holds only the
    /// placeholder text for unknown origins, under id 0.
    pub fn new() -> (kb: KnowledgeBase)
        ensures
            kb.wf(),
            kb@ == KbState::empty(),
    {
        KnowledgeBase { rules: Vec::new(), sources: Sources::default(), next_id: 1 }
    }

    /// A knowledge base without rules whose first source will get the id
    /// `first_id`, or 1 where `first_id` is 0: the placeholder text has id 0.
    pub fn starting_at(first_id: u64) -> (kb: KnowledgeBase)
        ensures
            kb.wf(),
            kb@ == (KbState {
                next_id: if first_id == 0 {
                    1
                } else {
                    first_id
                },
                ..KbState::empty()
            }),
    {
        let next_id: u64 = if first_id == 0 { 1 } else { first_id };
        KnowledgeBase { rules: Vec::new(), sources: Sources::default(), next_id }
    }

    /// Every rule, in the order of loading.
    pub fn rules(&self) -> (rules: &Vec<Rule>)
        ensures
            rules@ == self@.rules,
    {
        &self.rules
    }

    /// The source registered under `src_id`, if there is one.
    pub fn get_source(&self, src_id: u64) -> (found: Option<Source>)
        ensures
            match found {
                Some(source) => self@.sources.contains_key(src_id) && source@
                    == self@.sources[src_id],
                None => !self@.sources.contains_key(src_id),
            },
    {
        self.sources.get_source(src_id)
    }

    /// Whether some rule has the name `name`.
    pub fn defines(&self, name: &str) -> (found: bool)
        ensures
            found == self@.defines(name@),
    {
        let wanted = String::from_str(name);
        let mut i: usize = 0;
        while i < self.rules.len()
            invariant
                i <= self.rules.len(),
                wanted@ == name@,
                forall|k: int| 0 <= k < i ==> self.rules@[k].name@ != name@,
            decreases self.rules.len() - i,
        {
            if self.rules[i].name == wanted {
                assert(self.rules@[i as int].name@ == name@);
                return true;
            }
            i += 1;
        }
        false
    }

    /// The canonical text of each variant of the rule `name`, in the order
    /// of loading.
    pub fn variant_texts(&self, name: &str) -> (texts: Vec<String>)
        ensures
            views(texts@) == self@.variant_texts(name@),
    {
        let wanted = String::from_str(name);
        let mut texts: Vec<String> = Vec::new();
        let mut i: usize = 0;
        proof {
            reveal(Seq::filter);
            assert(self.rules@.take(0) =~= Seq::<Rule>::empty());
            assert(views(texts@) =~= rule_texts(rules_named(self.rules@.take(0), name@)));
        }
        while i < self.rules.len()
            invariant
                i <= self.rules.len(),
                wanted@ == name@,
                views(texts@) == rule_texts(rules_named(self.rules@.take(i as int), name@)),
            decreases self.rules.len() - i,
        {
            proof {
                lemma_rules_named_push(self.rules@.take(i as int), self.rules@[i as int], name@);
                assert(self.rules@.take(i + 1) =~= self.rules@.take(i as int).push(
                    self.rules@[i as int],
                ));
            }
            if self.rules[i].name == wanted {
                let ghost before = texts@;
                texts.push(self.rules[i].text.clone());
                proof {
                    assert(views(texts@) =~= views(before).push(self.rules@[i as int].text@));
                    assert(rule_texts(
                        rules_named(self.rules@.take(i as int), name@).push(self.rules@[i as int]),
                    ) =~= rule_texts(rules_named(self.rules@.take(i as int), name@)).push(
                        self.rules@[i as int].text@,
                    ));
                }
            }
            i += 1;
        }
        proof {
            assert(self.rules@.take(self.rules.len() as int) =~= self.rules@);
        }
        texts
    }

    /// Takes the rules of the source `id` out of the knowledge base.
    fn remove_rules_from(&mut self, id: u64)
        ensures
            final(self).rules@ == rules_not_from(old(self).rules@, id),
            final(self).sources == old(self).sources,
            final(self).next_id == old(self).next_id,
    {
        let mut all: Vec<Rule> = Vec::new();
        std::mem::swap(&mut self.rules, &mut all);
        let mut kept: Vec<Rule> = Vec::new();
        proof {
            reveal(Seq::filter);
            assert(old(self).rules@.take(0) =~= Seq::<Rule>::empty());
        }
        for rule in it: all
            invariant
                it.seq() == old(self).rules@,
                kept@ == rules_not_from(old(self).rules@.take(it.index()), id),
                self.sources == old(self).sources,
                self.next_id == old(self).next_id,
        {
            proof {
                lemma_rules_not_from_push(it.seq().take(it.index()), rule, id);
                assert(it.seq().take(it.index() + 1) =~= it.seq().take(it.index()).push(rule));
            }
            let from_source = match rule.source_info {
                SourceInfo::Parser { src_id, .. } => src_id == id,
                _ => false,
            };
            if !from_source {
                kept.push(rule);
            }
        }
        proof {
            assert(old(self).rules@.take(old(self).rules@.len() as int) =~= old(self).rules@);
        }
        self.rules = kept;
    }

    /// Unloads the file `filename`: its rules leave the knowledge base and
    /// its source leaves the registry. Hands back the text that was loaded
    /// under that name, if any was.
    pub fn remove_file(&mut self, filename: &str) -> (removed: Option<String>)
        requires
            old(self).wf(),
        ensures
            final(self).wf(),
            final(self)@ == old(self)@.without_file(filename@),
            match removed {
                Some(text) => old(self)@.files.contains_key(filename@) && text@ == old(
                    self,
                )@.sources[old(self)@.files[filename@]].src,
                None => !old(self)@.files.contains_key(filename@),
            },
    {
        match self.sources.source_id(filename) {
            None => None,
            Some(id) => {
                let source = self.sources.remove_file(filename);
                self.remove_rules_from(id);
                proof {
                    lemma_rules_not_from_origins(old(self)@.rules, id, self.next_id);
                    old(self)@.lemma_without_file_wf(filename@);
                }
                match source {
                    Some(source) => Some(source.src),
                    None => None,
                }
            },
        }
    }

    /// Loads `src`: registers it as a new source, under `filename` if one is
    /// given, and adds the rules among `lines`, attributed to that source.
    /// A file loaded earlier under the same name is replaced. Fails, and
    /// changes nothing, when no source identifier is left.
    pub fn load(&mut self, src: &str, filename: Option<String>, lines: Vec<Line>) -> (result:
        Result<(), String>)
        requires
            old(self).wf(),
        ensures
            final(self).wf(),
            old(self)@.next_id < u64::MAX ==> result is Ok && final(self)@ == old(self)@.loaded(
                src@,
                filename.deep_view(),
                lines@,
            ),
            old(self)@.next_id == u64::MAX ==> final(self)@ == old(self)@ && (result matches Err(
                message,
            ) && message@ == identifiers_exhausted()),
    {
        if self.next_id == u64::MAX {
            return Err(String::from_str("no source identifier is left"));
        }
        match &filename {
            Some(name) => {
                self.remove_file(name.as_str());
            },
            None => {},
        }
        let ghost base = self@;
        let id: u64 = self.next_id;
        self.sources.add_source(Source { filename, src: String::from_str(src) }, id);
        proof {
            reveal(Seq::filter);
            assert(rules_of(lines@.take(0), id) =~= Seq::<Rule>::empty());
            assert(self.rules@ =~= base.rules + rules_of(lines@.take(0), id));
        }
        for line in it: lines
            invariant
                it.seq() == lines@,
                self.rules@ == base.rules + rules_of(lines@.take(it.index()), id),
                self.sources.wf(),
                self.sources.sources() == base.sources.insert(
                    id,
                    SourceView { filename: filename.deep_view(), src: src@ },
                ),
                self.sources.files() == match filename.deep_view() {
                    Some(name) => base.files.insert(name, id),
                    None => base.files,
                },
                self.next_id == id,
        {
            proof {
                lemma_rules_of_push(lines@.take(it.index()), line, id);
                assert(lines@.take(it.index() + 1) =~= lines@.take(it.index()).push(line));
            }
            match line {
                Line::Rule(rule) => {
                    self.rules.push(rule.attribute_to(id));
                    assert(self.rules@ =~= base.rules + rules_of(
                        lines@.take(it.index() + 1),
                        id,
                    ));
                },
                Line::Query(_) => {},
            }
        }
        self.next_id = id + 1;
        proof {
            assert(lines@.take(lines@.len() as int) =~= lines@);
            base.lemma_with_source_wf(src@, filename.deep_view(), lines@);
            assert(self@ == base.with_source(src@, filename.deep_view(), lines@));
        }
        Ok(())
    }

    /// Drops every rule and every source: the knowledge base is left as
    /// a new one.
    pub fn clear_rules(&mut self)
        ensures
            final(self).wf(),
            final(self)@ == KbState::empty(),
    {
        *self = KnowledgeBase::new();
    }
}

/// Adding one statement to the end: a rule joins the rules, a query does
/// not.
proof fn lemma_rules_of_push(lines: Seq<Line>, line: Line, id: u64)
    ensures
        rules_of(lines.push(line), id) == match line {
            Line::Rule(rule) => rules_of(lines, id).push(rule.attributed_to(id)),
            Line::Query(_) => rules_of(lines, id),
        },
{
    reveal(Seq::filter);
    let pred = |line: Line| line is Rule;
    assert(lines.push(line).drop_last() =~= lines);
    match line {
        Line::Rule(rule) => {
            assert(lines.push(line).filter(pred) == lines.filter(pred).push(line));
            assert(rules_of(lines.push(line), id) =~= rules_of(lines, id).push(
                rule.attributed_to(id),
            ));
        },
        Line::Query(_) => {},
    }
}

impl KbState {
    /// Unloading a file keeps the invariant.
    pub proof fn lemma_without_file_wf(self, filename: Seq<char>)
        requires
            self.wf(),
        ensures
            self.without_file(filename).wf(),
    {
        if self.files.contains_key(filename) {
            let id = self.files[filename];
            let after = self.without_file(filename);
            lemma_rules_not_from_origins(self.rules, id, self.next_id);
            assert forall|name: Seq<char>| #[trigger]
                after.files.contains_key(name) implies after.sources.contains_key(
                after.files[name],
            ) && after.sources[after.files[name]].filename == Some(name) by {
                assert(self.files.contains_key(name));
            }
        }
    }

    /// Adding a source keeps the invariant, as long as an id is left.
    pub proof fn lemma_with_source_wf(
        self,
        src: Seq<char>,
        filename: Option<Seq<char>>,
        lines: Seq<Line>,
    )
        requires
            self.wf(),
            self.next_id < u64::MAX,
        ensures
            self.with_source(src, filename, lines).wf(),
    {
        let after = self.with_source(src, filename, lines);
        assert forall|name: Seq<char>| #[trigger]
            after.files.contains_key(name) implies after.sources.contains_key(after.files[name])
            && after.sources[after.files[name]].filename == Some(name) by {
            if filename == Some(name) {
            } else {
                assert(self.files.contains_key(name));
            }
        }
        assert forall|id: u64| #[trigger] after.sources.contains_key(id) implies id
            < after.next_id by {
            if id != self.next_id {
                assert(self.sources.contains_key(id));
            }
        }
        assert forall|i: int, id: u64|
            0 <= i < after.rules.len() && #[trigger] after.rules[i].is_from(id) implies id
            < after.next_id by {
            if i < self.rules.len() {
                assert(self.rules[i].is_from(id));
            } else {
                lemma_rules_of_origin(lines, self.next_id, i - self.rules.len());
            }
        }
    }
}

/// Every rule among the loaded statements is attributed to the new source.
pub proof fn lemma_rules_of_origin(lines: Seq<Line>, id: u64, i: int)
    requires
        0 <= i < rules_of(lines, id).len(),
    ensures
        rules_of(lines, id)[i].is_from(id),
{
}

/// The rules among the loaded statements have the same names and texts
/// whichever source they are attributed to.
proof fn lemma_rules_of_alike(lines: Seq<Line>, first: u64, second: u64)
    ensures
        rules_of(lines, first).len() == rules_of(lines, second).len(),
        forall|i: int|
            0 <= i < rules_of(lines, first).len() ==> (#[trigger] rules_of(lines, first)[i]).name@
                == rules_of(lines, second)[i].name@ && rules_of(lines, first)[i].text@ == rules_of(
                lines,
                second,
            )[i].text@,
{
}

impl KbState {
    /// What a load adds comes off again, and nothing else, when the file is
    /// unloaded: the rules are then those that were there without the file.
    pub proof fn lemma_unload_after_load(self, src: Seq<char>, filename: Seq<char>, lines: Seq<Line>)
        requires
            self.wf(),
            self.next_id < u64::MAX,
        ensures
            self.loaded(src, Some(filename), lines).without_file(filename).rules
                == self.without_file(filename).rules,
            self.loaded(src, Some(filename), lines).without_file(filename).next_id
                == self.next_id + 1,
    {
        let base = self.without_file(filename);
        let once = self.loaded(src, Some(filename), lines);
        let id = self.next_id;
        let added = rules_of(lines, id);
        self.lemma_without_file_wf(filename);
        assert(once.files.contains_key(filename) && once.files[filename] == id);
        assert(once.rules == base.rules + added);
        Seq::filter_distributes_over_add(base.rules, added, |rule: Rule| !rule.is_from(id));
        assert forall|i: int| 0 <= i < base.rules.len() implies !(#[trigger] base.rules[i]).is_from(
            id,
        ) by {
            if base.rules[i].is_from(id) {
                assert(id < base.next_id);
            }
        }
        lemma_rules_not_from_absent(base.rules, id);
        assert forall|i: int| 0 <= i < added.len() implies !(|rule: Rule| !rule.is_from(id))(
            #[trigger] added[i],
        ) by {
            lemma_rules_of_origin(lines, id, i);
        }
        added.lemma_all_neg_filter_empty(|rule: Rule| !rule.is_from(id));
        assert(base.rules + Seq::<Rule>::empty() =~= base.rules);
    }

    /// Loading a file again, with the same statements, leaves every rule
    /// name with the same variants in the same order, as far as their
    /// names and texts go.
    pub proof fn lemma_reload_alike(
        self,
        src: Seq<char>,
        filename: Seq<char>,
        lines: Seq<Line>,
        name: Seq<char>,
    )
        requires
            self.wf(),
            self.next_id + 1 < u64::MAX,
        ensures
            self.loaded(src, Some(filename), lines).loaded(src, Some(filename), lines).defines(
                name,
            ) == self.loaded(src, Some(filename), lines).defines(name),
            self.loaded(src, Some(filename), lines).loaded(
                src,
                Some(filename),
                lines,
            ).variant_texts(name) == self.loaded(src, Some(filename), lines).variant_texts(name),
    {
        let base = self.without_file(filename);
        let once = self.loaded(src, Some(filename), lines);
        let twice = once.loaded(src, Some(filename), lines);
        let id = self.next_id;
        let new_once = rules_of(lines, id);
        let new_twice = rules_of(lines, (id + 1) as u64);
        self.lemma_unload_after_load(src, filename, lines);
        assert(once.rules == base.rules + new_once);
        assert(twice.rules == base.rules + new_twice);
        lemma_rules_of_alike(lines, id, (id + 1) as u64);
        lemma_rules_named_alike(new_once, new_twice, name);
        lemma_rules_named_add(base.rules, new_once, name);
        lemma_rules_named_add(base.rules, new_twice, name);
        lemma_rule_texts_add(rules_named(base.rules, name), rules_named(new_once, name));
        lemma_rule_texts_add(rules_named(base.rules, name), rules_named(new_twice, name));
        lemma_some_rule_named_alike(new_once, new_twice, name);
        lemma_some_rule_named_add(base.rules, new_once, name);
        lemma_some_rule_named_add(base.rules, new_twice, name);
    }
}

} // verus!
