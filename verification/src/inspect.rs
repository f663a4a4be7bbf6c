//! What can be said about each rule of a knowledge base: its signature, the
//! variables of its body, and where it was defined.

use crate::kb::{lemma_rules_of_origin, rules_of, KbState, KnowledgeBase};
use crate::parser::Line;
use crate::rules::{lemma_rules_not_from_origins, Parameter, Rule};
use crate::sources::{SourceInfo, SourceView};
use crate::text::{char_slice, join, join_strings, slice_chars, views};
use vstd::prelude::*;
use vstd::string::*;

verus! {

/// What is known about one rule.
#[derive(Debug, PartialEq, Eq)]
pub struct RuleInfo {
    /// The rule's name.
    pub symbol: String,
    /// The rule as its author wrote it, or its head put together again.
    pub signature: String,
    /// The variables of the rule's body, each once, in no particular order.
    pub free_variables: Vec<String>,
    /// The file the rule was defined in, if known, and the span it covers
    /// there.
    pub location: (Option<String>, usize, usize),
}

/// A `RuleInfo` as plain values.
pub struct RuleInfoView {
    pub symbol: Seq<char>,
    pub signature: Seq<char>,
    pub free_variables: Set<Seq<char>>,
    pub location: (Option<Seq<char>>, usize, usize),
}

impl View for RuleInfo {
    type V = RuleInfoView;

    open spec fn view(&self) -> RuleInfoView {
        RuleInfoView {
            symbol: self.symbol@,
            signature: self.signature@,
            free_variables: views(self.free_variables@).to_set(),
            location: (self.location.0.deep_view(), self.location.1, self.location.2),
        }
    }
}

impl DeepView for RuleInfo {
    type V = RuleInfoView;

    open spec fn deep_view(&self) -> RuleInfoView {
        self@
    }
}

/// The source that `rule` was parsed from, where its origin names one and
/// the registry of `kb` still has it.
pub open spec fn resolved_source(kb: KbState, rule: Rule) -> Option<SourceView> {
    match rule.source_info {
        SourceInfo::Parser { src_id, .. } => if kb.sources.contains_key(src_id) {
            Some(kb.sources[src_id])
        } else {
            None
        },
        _ => None,
    }
}

/// The canonical text of each parameter.
pub open spec fn param_texts(params: Seq<Parameter>) -> Seq<Seq<char>> {
    params.map_values(|param: Parameter| param.text@)
}

/// A rule's head put together from its parts: `name(p1, p2, ...)`.
pub open spec fn head_text(rule: Rule) -> Seq<char> {
    rule.name@ + "("@ + join(param_texts(rule.params@), ", "@) + ")"@
}

/// The signature of `rule`: the characters of its span, taken from its
/// source text, where that source can be resolved; otherwise its head put
/// together from its parts.
pub open spec fn rule_signature(kb: KbState, rule: Rule) -> Seq<char> {
    match resolved_source(kb, rule) {
        Some(source) => char_slice(source.src, rule.span().0 as int, rule.span().1 as int),
        None => head_text(rule),
    }
}

/// The location of `rule`: the file name of its source and its span, where
/// that source can be resolved; otherwise no file and an empty span at 0.
pub open spec fn rule_location(kb: KbState, rule: Rule) -> (Option<Seq<char>>, usize, usize) {
    match resolved_source(kb, rule) {
        Some(source) => (source.filename, rule.span().0, rule.span().1),
        None => (None, 0, 0),
    }
}

/// Everything reported about `rule`.
pub open spec fn rule_info(kb: KbState, rule: Rule) -> RuleInfoView {
    RuleInfoView {
        symbol: rule.name@,
        signature: rule_signature(kb, rule),
        free_variables: rule.body.variables(),
        location: rule_location(kb, rule),
    }
}

/// Everything reported about each rule of `kb`, in the order of loading.
pub open spec fn all_rule_info(kb: KbState) -> Seq<RuleInfoView> {
    kb.rules.map_values(|rule: Rule| rule_info(kb, rule))
}

/// The signature of the rule `r`.
///
/// Where the rule's source is at hand, the signature is cut out of it,
/// character for character. Otherwise it is put together from the rule's
/// name and parameters.
pub fn get_rule_signature(kb: &KnowledgeBase, r: &Rule) -> (signature: String)
    ensures
        signature@ == rule_signature(kb@, *r),
        resolved_source(kb@, *r) matches Some(source) ==> signature@ == char_slice(
            source.src,
            r.span().0 as int,
            r.span().1 as int,
        ),
        resolved_source(kb@, *r) is None ==> signature@ == r.name@ + "("@ + join(
            param_texts(r.params@),
            ", "@,
        ) + ")"@,
{
    match r.source_info {
        SourceInfo::Parser { src_id, left, right } => {
            match kb.get_source(src_id) {
                Some(source) => {
                    return slice_chars(source.src.as_str(), left, right);
                },
                None => {},
            }
        },
        _ => {},
    }
    let mut texts: Vec<String> = Vec::new();
    let mut i: usize = 0;
    while i < r.params.len()
        invariant
            i <= r.params.len(),
            views(texts@) == param_texts(r.params@.take(i as int)),
        decreases r.params.len() - i,
    {
        let ghost before = texts@;
        texts.push(r.params[i].text.clone());
        proof {
            assert(views(texts@) =~= views(before).push(r.params@[i as int].text@));
            assert(param_texts(r.params@.take(i + 1)) =~= param_texts(
                r.params@.take(i as int),
            ).push(r.params@[i as int].text@));
        }
        i += 1;
    }
    assert(r.params@.take(r.params.len() as int) =~= r.params@);
    let joined = join_strings(&texts, ", ");
    let mut signature = r.name.clone();
    signature.append("(");
    signature.append(joined.as_str());
    signature.append(")");
    signature
}

/// The location of the rule `r`: file name, start and end.
pub fn get_rule_location(kb: &KnowledgeBase, r: &Rule) -> (location: (
    Option<String>,
    usize,
    usize,
))
    ensures
        (location.0.deep_view(), location.1, location.2) == rule_location(kb@, *r),
        resolved_source(kb@, *r) matches Some(source) ==> location.0.deep_view()
            == source.filename && location.1 == r.span().0 && location.2 == r.span().1,
        resolved_source(kb@, *r) is None ==> location.0 is None && location.1 == 0 && location.2
            == 0,
{
    match r.source_info {
        SourceInfo::Parser { src_id, left, right } => {
            match kb.get_source(src_id) {
                Some(source) => {
                    return (source.filename, left, right);
                },
                None => {},
            }
        },
        _ => {},
    }
    (None, 0, 0)
}

/// What is known about each rule of `kb`: one entry for every variant of
/// every rule, in the order of loading.
pub fn get_rule_info(kb: &KnowledgeBase) -> (infos: Vec<RuleInfo>)
    ensures
        infos.deep_view() == all_rule_info(kb@),
        forall|i: int|
            0 <= i < infos.len() ==> views((#[trigger] infos@[i]).free_variables@).no_duplicates(),
{
    let rules = kb.rules();
    let mut infos: Vec<RuleInfo> = Vec::new();
    let mut i: usize = 0;
    proof {
        assert(infos.deep_view() =~= all_rule_info(kb@).take(0));
    }
    while i < rules.len()
        invariant
            i <= rules.len(),
            rules@ == kb@.rules,
            infos.len() == i,
            infos.deep_view() == all_rule_info(kb@).take(i as int),
            forall|k: int|
                0 <= k < infos.len() ==> views(
                    (#[trigger] infos@[k]).free_variables@,
                ).no_duplicates(),
        decreases rules.len() - i,
    {
        let rule = &rules[i];
        let mut free_variables: Vec<String> = Vec::new();
        proof {
            assert(views(free_variables@) =~= Seq::<Seq<char>>::empty());
            assert(views(free_variables@).to_set() =~= Set::<Seq<char>>::empty());
        }
        rule.body.collect_variables(&mut free_variables);
        proof {
            assert(views(free_variables@).to_set() =~= rule.body.variables());
        }
        let info = RuleInfo {
            symbol: rule.name.clone(),
            signature: get_rule_signature(kb, rule),
            free_variables,
            location: get_rule_location(kb, rule),
        };
        let ghost before = infos.deep_view();
        infos.push(info);
        proof {
            assert(infos@[i as int]@ == rule_info(kb@, *rule));
            assert(infos.deep_view() =~= before.push(infos@[i as int]@));
            assert(infos.deep_view() =~= all_rule_info(kb@).take(i + 1));
        }
        i += 1;
    }
    proof {
        assert(all_rule_info(kb@).take(rules.len() as int) =~= all_rule_info(kb@));
    }
    infos
}

/// A rule that was just loaded resolves to the text just loaded: its
/// location names the file, and its signature is cut from that text.
pub proof fn lemma_loaded_rule_resolves(
    kb: KbState,
    src: Seq<char>,
    filename: Seq<char>,
    lines: Seq<Line>,
    i: int,
)
    requires
        kb.wf(),
        kb.next_id < u64::MAX,
        0 <= i < rules_of(lines, kb.next_id).len(),
    ensures
        ({
            let after = kb.loaded(src, Some(filename), lines);
            let rule = rules_of(lines, kb.next_id)[i];
            &&& after.rules[kb.without_file(filename).rules.len() + i] == rule
            &&& resolved_source(after, rule) == Some(
                SourceView { filename: Some(filename), src },
            )
            &&& rule_location(after, rule) == (Some(filename), rule.span().0, rule.span().1)
            &&& rule_signature(after, rule) == char_slice(
                src,
                rule.span().0 as int,
                rule.span().1 as int,
            )
        }),
{
    lemma_rules_of_origin(lines, kb.next_id, i);
}

/// A load leaves the rules of other files with their sources: a rule that
/// stays resolves after the load to what it resolved to before.
pub proof fn lemma_kept_rule_resolves(
    kb: KbState,
    src: Seq<char>,
    filename: Seq<char>,
    lines: Seq<Line>,
    i: int,
)
    requires
        kb.wf(),
        kb.next_id < u64::MAX,
        0 <= i < kb.without_file(filename).rules.len(),
    ensures
        ({
            let after = kb.loaded(src, Some(filename), lines);
            let rule = kb.without_file(filename).rules[i];
            &&& after.rules[i] == rule
            &&& resolved_source(after, rule) == resolved_source(kb, rule)
        }),
{
    let base = kb.without_file(filename);
    let rule = base.rules[i];
    kb.lemma_without_file_wf(filename);
    if kb.files.contains_key(filename) {
        lemma_rules_not_from_origins(kb.rules, kb.files[filename], kb.next_id);
    }
    match rule.source_info {
        SourceInfo::Parser { src_id, .. } => {
            assert(rule.is_from(src_id));
            assert(base.rules[i].is_from(src_id));
        },
        _ => {},
    }
}

} // verus!
