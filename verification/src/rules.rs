//! Rules: a head of parameters, a body term, and an origin.

use crate::sources::SourceInfo;
use crate::terms::Term;
use vstd::prelude::*;

verus! {

/// One parameter of a rule, as canonical text.
#[derive(Debug, PartialEq, Eq)]
pub struct Parameter {
    pub text: String,
}

/// One variant of a rule.
#[derive(Debug, PartialEq, Eq)]
pub struct Rule {
    pub name: String,
    pub params: Vec<Parameter>,
    pub body: Term,
    /// The whole rule as canonical text.
    pub text: String,
    pub source_info: SourceInfo,
}

/// The rules of `rules` that were not parsed from the source `id`, in
/// their order.
pub open spec fn rules_not_from(rules: Seq<Rule>, id: u64) -> Seq<Rule> {
    rules.filter(|rule: Rule| !rule.is_from(id))
}

/// The rules of `rules` whose name is `name`, in their order.
pub open spec fn rules_named(rules: Seq<Rule>, name: Seq<char>) -> Seq<Rule> {
    rules.filter(|rule: Rule| rule.name@ == name)
}

/// The canonical text of each rule of `rules`.
pub open spec fn rule_texts(rules: Seq<Rule>) -> Seq<Seq<char>> {
    rules.map_values(|rule: Rule| rule.text@)
}

/// Adding one rule to the end: it stays unless it is from the source `id`.
pub proof fn lemma_rules_not_from_push(rules: Seq<Rule>, rule: Rule, id: u64)
    ensures
        rules_not_from(rules.push(rule), id) == if rule.is_from(id) {
            rules_not_from(rules, id)
        } else {
            rules_not_from(rules, id).push(rule)
        },
{
    reveal(Seq::filter);
    assert(rules.push(rule).drop_last() =~= rules);
}

/// Adding one rule to the end: it is kept if it has the name `name`.
pub proof fn lemma_rules_named_push(rules: Seq<Rule>, rule: Rule, name: Seq<char>)
    ensures
        rules_named(rules.push(rule), name) == if rule.name@ == name {
            rules_named(rules, name).push(rule)
        } else {
            rules_named(rules, name)
        },
{
    reveal(Seq::filter);
    assert(rules.push(rule).drop_last() =~= rules);
}

/// What is kept when the rules of a source leave: none of that source, and
/// no origin that the rules did not have before.
pub proof fn lemma_rules_not_from_origins(rules: Seq<Rule>, id: u64, bound: u64)
    requires
        forall|i: int, other: u64|
            0 <= i < rules.len() && #[trigger] rules[i].is_from(other) ==> other < bound,
    ensures
        forall|i: int, other: u64|
            0 <= i < rules_not_from(rules, id).len() && #[trigger] rules_not_from(
                rules,
                id,
            )[i].is_from(other) ==> other < bound && other != id,
    decreases rules.len(),
{
    reveal(Seq::filter);
    if rules.len() > 0 {
        let front = rules.drop_last();
        assert forall|i: int, other: u64|
            0 <= i < front.len() && #[trigger] front[i].is_from(other) implies other < bound by {
            assert(front[i] == rules[i]);
        }
        lemma_rules_not_from_origins(front, id, bound);
        assert(rules =~= front.push(rules.last()));
        lemma_rules_not_from_push(front, rules.last(), id);
        assert forall|i: int, other: u64|
            0 <= i < rules_not_from(rules, id).len() && #[trigger] rules_not_from(
                rules,
                id,
            )[i].is_from(other) implies other < bound && other != id by {
            if i < rules_not_from(front, id).len() {
                assert(rules_not_from(rules, id)[i] == rules_not_from(front, id)[i]);
            } else {
                assert(rules_not_from(rules, id)[i] == rules.last());
                assert(rules[rules.len() - 1].is_from(other));
            }
        }
    }
}

/// Where no rule is from the source `id`, taking that source's rules out
/// changes nothing.
pub proof fn lemma_rules_not_from_absent(rules: Seq<Rule>, id: u64)
    requires
        forall|i: int| 0 <= i < rules.len() ==> !(#[trigger] rules[i]).is_from(id),
    ensures
        rules_not_from(rules, id) == rules,
    decreases rules.len(),
{
    reveal(Seq::filter);
    if rules.len() > 0 {
        let front = rules.drop_last();
        assert forall|i: int| 0 <= i < front.len() implies !(#[trigger] front[i]).is_from(id) by {
            assert(front[i] == rules[i]);
        }
        lemma_rules_not_from_absent(front, id);
        assert(rules =~= front.push(rules.last()));
        lemma_rules_not_from_push(front, rules.last(), id);
    } else {
        assert(rules_not_from(rules, id) =~= rules);
    }
}

/// The rules of a name among two runs of rules, one after the other.
pub proof fn lemma_rules_named_add(first: Seq<Rule>, second: Seq<Rule>, name: Seq<char>)
    ensures
        rules_named(first + second, name) == rules_named(first, name) + rules_named(
            second,
            name,
        ),
{
    Seq::filter_distributes_over_add(first, second, |rule: Rule| rule.name@ == name);
}

/// Two runs of rules that agree, rule by rule, in name and text have the
/// same texts under every name.
pub proof fn lemma_rules_named_alike(first: Seq<Rule>, second: Seq<Rule>, name: Seq<char>)
    requires
        first.len() == second.len(),
        forall|i: int|
            0 <= i < first.len() ==> (#[trigger] first[i]).name@ == second[i].name@ && first[i].text@
                == second[i].text@,
    ensures
        rule_texts(rules_named(first, name)) == rule_texts(rules_named(second, name)),
    decreases first.len(),
{
    reveal(Seq::filter);
    if first.len() == 0 {
        assert(rule_texts(rules_named(first, name)) =~= rule_texts(rules_named(second, name)));
    } else {
        let a = first.drop_last();
        let b = second.drop_last();
        assert forall|i: int| 0 <= i < a.len() implies (#[trigger] a[i]).name@ == b[i].name@
            && a[i].text@ == b[i].text@ by {
            assert(a[i] == first[i]);
            assert(b[i] == second[i]);
        }
        lemma_rules_named_alike(a, b, name);
        assert(first =~= a.push(first.last()));
        assert(second =~= b.push(second.last()));
        lemma_rules_named_push(a, first.last(), name);
        lemma_rules_named_push(b, second.last(), name);
        assert(first[first.len() - 1].name@ == second[first.len() - 1].name@);
        assert(first[first.len() - 1].text@ == second[first.len() - 1].text@);
        if first.last().name@ == name {
            assert(rule_texts(rules_named(a, name).push(first.last())) =~= rule_texts(
                rules_named(a, name),
            ).push(first.last().text@));
            assert(rule_texts(rules_named(b, name).push(second.last())) =~= rule_texts(
                rules_named(b, name),
            ).push(second.last().text@));
        }
    }
}

/// Whether some rule of `rules` has the name `name`.
pub open spec fn some_rule_named(rules: Seq<Rule>, name: Seq<char>) -> bool {
    exists|i: int| 0 <= i < rules.len() && rules[i].name@ == name
}

/// A name is found among two runs of rules if it is found in either.
pub proof fn lemma_some_rule_named_add(first: Seq<Rule>, second: Seq<Rule>, name: Seq<char>)
    ensures
        some_rule_named(first + second, name) == (some_rule_named(first, name)
            || some_rule_named(second, name)),
{
    let both = first + second;
    if some_rule_named(both, name) {
        let i = choose|i: int| 0 <= i < both.len() && both[i].name@ == name;
        if i < first.len() {
            assert(first[i].name@ == name);
        } else {
            assert(second[i - first.len()].name@ == name);
        }
    }
    if some_rule_named(first, name) {
        let i = choose|i: int| 0 <= i < first.len() && first[i].name@ == name;
        assert(both[i].name@ == name);
    }
    if some_rule_named(second, name) {
        let i = choose|i: int| 0 <= i < second.len() && second[i].name@ == name;
        assert(both[i + first.len()].name@ == name);
    }
}

/// Two runs of rules that agree, rule by rule, in name hold the same names.
pub proof fn lemma_some_rule_named_alike(first: Seq<Rule>, second: Seq<Rule>, name: Seq<char>)
    requires
        first.len() == second.len(),
        forall|i: int| 0 <= i < first.len() ==> (#[trigger] first[i]).name@ == second[i].name@,
    ensures
        some_rule_named(first, name) == some_rule_named(second, name),
{
    if some_rule_named(first, name) {
        let i = choose|i: int| 0 <= i < first.len() && first[i].name@ == name;
        assert(second[i].name@ == name);
    }
    if some_rule_named(second, name) {
        let i = choose|i: int| 0 <= i < second.len() && second[i].name@ == name;
        assert(first[i].name@ == second[i].name@);
    }
}

/// The texts of two runs of rules, one after the other.
pub proof fn lemma_rule_texts_add(first: Seq<Rule>, second: Seq<Rule>)
    ensures
        rule_texts(first + second) == rule_texts(first) + rule_texts(second),
{
    assert(rule_texts(first + second) =~= rule_texts(first) + rule_texts(second));
}

impl Rule {
    /// Whether the rule was parsed from the source registered under `id`.
    pub open spec fn is_from(self, id: u64) -> bool {
        self.source_info matches SourceInfo::Parser { src_id, .. } && src_id == id
    }

    /// The span that the rule covers in its source, or `(0, 0)` where its
    /// origin records none.
    pub open spec fn span(self) -> (usize, usize) {
        match self.source_info {
            SourceInfo::Parser { left, right, .. } => (left, right),
            _ => (0, 0),
        }
    }

    /// The rule as it is after being attributed to the source `id`: its
    /// span kept, everything but the origin unchanged.
    pub open spec fn attributed_to(self, id: u64) -> Rule {
        Rule {
            source_info: SourceInfo::Parser {
                src_id: id,
                left: self.span().0,
                right: self.span().1,
            },
            ..self
        }
    }

    /// Attributes the rule to the source registered under `id`.
    pub fn attribute_to(self, id: u64) -> (rule: Rule)
        ensures
            rule == self.attributed_to(id),
    {
        let (left, right) = match self.source_info {
            SourceInfo::Parser { left, right, .. } => (left, right),
            _ => (0, 0),
        };
        let mut rule = self;
        rule.source_info = SourceInfo::Parser { src_id: id, left, right };
        rule
    }
}

} // verus!
