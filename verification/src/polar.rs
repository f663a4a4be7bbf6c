//! The analyzer: a knowledge base, and the operations that an editor calls
//! on it.

use crate::diagnostics::{
    collect_calls, find_parse_errors, find_unused_rules, lemma_unmatched_calls_same, line_calls,
    parse_diagnostics, report_unmatched, unmatched_calls, Diagnostic, DiagnosticView,
};
use crate::inspect::{all_rule_info, get_rule_info, RuleInfo};
use crate::kb::{identifiers_exhausted, KbState, KnowledgeBase};
use crate::parser::{Line, ParseResult};
use crate::text::views;
use vstd::prelude::*;
use vstd::string::*;

verus! {

/// What the policy engine said about one source text.
#[derive(Debug, PartialEq, Eq)]
pub struct EngineReport {
    /// The result of a tolerant parse of the text.
    pub parsed: ParseResult,
    /// The objection that the engine's loader raises to the text although
    /// it parses, if it raises one.
    pub rejection: Option<String>,
    /// For call number `i` of the text, in the order of `collect_calls`:
    /// whether the engine's matcher finds a rule variant for the call's
    /// arguments once the text is loaded.
    pub applicable: Vec<bool>,
}

/// The diagnostics of one load.
#[derive(Debug, PartialEq, Eq)]
pub struct ParseErrors {
    pub errors: Vec<Diagnostic>,
    pub unused_rules: Vec<Diagnostic>,
}

/// A summary of the loaded policy.
#[derive(Debug, PartialEq, Eq)]
pub struct PolicySummary {
    pub rules: Vec<RuleInfo>,
}

impl Default for ParseErrors {
    fn default() -> (bundle: Self)
        ensures
            bundle.errors@.len() == 0,
            bundle.unused_rules@.len() == 0,
    {
        ParseErrors { errors: Vec::new(), unused_rules: Vec::new() }
    }
}

impl EngineReport {
    /// The diagnostics of the parse.
    pub open spec fn errors(self) -> Seq<DiagnosticView> {
        parse_diagnostics(self.parsed)
    }

    /// The statements that the parse recovered.
    pub open spec fn lines(self) -> Seq<Line> {
        match self.parsed {
            Ok((lines, _)) => lines@,
            Err(_) => Seq::empty(),
        }
    }
}

/// Whether a load of the reported text into `kb` commits: the text parsed
/// without errors, the engine raised no objection, and a source identifier
/// is left.
pub open spec fn commits(kb: KbState, report: EngineReport) -> bool {
    report.errors().len() == 0 && report.rejection is None && kb.next_id < u64::MAX
}

/// The knowledge base after a load: with the text in place of any earlier
/// version of the file where the load commits, and untouched where it does
/// not.
pub open spec fn state_after_load(
    kb: KbState,
    src: Seq<char>,
    filename: Seq<char>,
    report: EngineReport,
) -> KbState {
    if commits(kb, report) {
        kb.loaded(src, Some(filename), report.lines())
    } else {
        kb
    }
}

/// The unmatched calls that a load reports: those of the text's
/// statements, judged against the knowledge base with the text loaded;
/// none where the load does not commit.
pub open spec fn unused_after_load(
    kb: KbState,
    src: Seq<char>,
    filename: Seq<char>,
    report: EngineReport,
) -> Seq<DiagnosticView> {
    if commits(kb, report) {
        unmatched_calls(
            state_after_load(kb, src, filename, report),
            line_calls(report.lines()),
            report.applicable@,
        )
    } else {
        Seq::empty()
    }
}

/// Idempotence: loading the same text a second time under the same file
/// name, with the same answers of the engine, reports the same unmatched
/// calls as the first time.
pub proof fn lemma_reload_reports_the_same(
    kb: KbState,
    src: Seq<char>,
    filename: Seq<char>,
    report: EngineReport,
)
    requires
        kb.wf(),
        commits(kb, report),
        commits(state_after_load(kb, src, filename, report), report),
    ensures
        unused_after_load(state_after_load(kb, src, filename, report), src, filename, report)
            == unused_after_load(kb, src, filename, report),
{
    let once = state_after_load(kb, src, filename, report);
    let twice = state_after_load(once, src, filename, report);
    assert forall|name: Seq<char>|
        twice.defines(name) == once.defines(name) && twice.variant_texts(name)
            == once.variant_texts(name) by {
        kb.lemma_reload_alike(src, filename, report.lines(), name);
    }
    lemma_unmatched_calls_same(twice, once, line_calls(report.lines()), report.applicable@);
}

/// The analyzer.
pub struct Polar {
    kb: KnowledgeBase,
}

impl View for Polar {
    type V = KbState;

    closed spec fn view(&self) -> KbState {
        self.kb@
    }
}

impl Polar {
    /// The representation invariant.
    pub closed spec fn wf(&self) -> bool {
        self.kb.wf()
    }

    /// An analyzer with an empty knowledge base.
    pub fn new() -> (polar: Polar)
        ensures
            polar.wf(),
            polar@ == KbState::empty(),
    {
        Polar { kb: KnowledgeBase::new() }
    }

    /// An analyzer over the knowledge base `kb`.
    pub fn with_kb(kb: KnowledgeBase) -> (polar: Polar)
        requires
            kb.wf(),
        ensures
            polar.wf(),
            polar@ == kb@,
    {
        Polar { kb }
    }

    /// The knowledge base.
    pub fn kb(&self) -> (kb: &KnowledgeBase)
        ensures
            kb@ == self@,
            self.wf() ==> kb.wf(),
    {
        &self.kb
    }

    /// Loads the file `filename` with the text `src`, in place of any
    /// earlier version of that file.
    ///
    /// Where the text has parse errors, they are returned and the knowledge
    /// base stays as it was. Where the engine objects to the text, or no
    /// source identifier is left, the load fails with that message and the
    /// knowledge base stays as it was. Otherwise the text is loaded, and
    /// the calls in it that no rule can answer are returned.
    pub fn load(&mut self, src: &str, filename: &str, report: EngineReport) -> (result: Result<
        ParseErrors,
        String,
    >)
        requires
            old(self).wf(),
        ensures
            final(self).wf(),
            final(self)@ == state_after_load(old(self)@, src@, filename@, report),
            result matches Ok(bundle) ==> bundle.errors.deep_view() == report.errors()
                && bundle.unused_rules.deep_view() == unused_after_load(
                old(self)@,
                src@,
                filename@,
                report,
            ),
            report.errors().len() > 0 ==> result is Ok && final(self)@ == old(self)@,
            result is Err ==> final(self)@ == old(self)@,
            report.errors().len() == 0 ==> match report.rejection {
                Some(message) => result == Err::<ParseErrors, String>(message),
                None => if old(self)@.next_id < u64::MAX {
                    result is Ok
                } else {
                    result matches Err(message) && message@ == identifiers_exhausted()
                },
            },
    {
        let EngineReport { parsed, rejection, applicable } = report;
        let errors = find_parse_errors(&parsed);
        match parsed {
            Ok((lines, _)) => {
                if errors.len() > 0 {
                    let unused_rules: Vec<Diagnostic> = Vec::new();
                    assert(unused_rules.deep_view() =~= Seq::<DiagnosticView>::empty());
                    return Ok(ParseErrors { errors, unused_rules });
                }
                match rejection {
                    Some(message) => {
                        return Err(message);
                    },
                    None => {},
                }
                let sites = collect_calls(&lines);
                match self.kb.load(src, Some(String::from_str(filename)), lines) {
                    Ok(()) => {
                        let unused_rules = report_unmatched(&self.kb, &sites, &applicable);
                        Ok(ParseErrors { errors, unused_rules })
                    },
                    Err(message) => Err(message),
                }
            },
            Err(_) => {
                let unused_rules: Vec<Diagnostic> = Vec::new();
                assert(unused_rules.deep_view() =~= Seq::<DiagnosticView>::empty());
                Ok(ParseErrors { errors, unused_rules })
            },
        }
    }

    /// Drops every rule.
    pub fn clear_rules(&mut self)
        ensures
            final(self).wf(),
            final(self)@ == KbState::empty(),
    {
        self.kb.clear_rules();
    }

    /// What is known about each loaded rule.
    pub fn get_rule_info(&self) -> (infos: Vec<RuleInfo>)
        ensures
            infos.deep_view() == all_rule_info(self@),
            forall|i: int|
                0 <= i < infos.len() ==> views(
                    (#[trigger] infos@[i]).free_variables@,
                ).no_duplicates(),
    {
        get_rule_info(&self.kb)
    }

    /// The diagnostics of a parse.
    pub fn get_parse_errors(&self, parse_result: &ParseResult) -> (errors: Vec<Diagnostic>)
        ensures
            errors.deep_view() == parse_diagnostics(*parse_result),
    {
        find_parse_errors(parse_result)
    }

    /// The calls in the parsed statements that no loaded rule can answer.
    pub fn get_unused_rules(&self, parse_result: &ParseResult, applicable: &Vec<bool>) -> (unused:
        Vec<Diagnostic>)
        ensures
            unused.deep_view() == match *parse_result {
                Ok((lines, _)) => unmatched_calls(self@, line_calls(lines@), applicable@),
                Err(_) => Seq::empty(),
            },
    {
        find_unused_rules(&self.kb, parse_result, applicable)
    }

    /// A summary of the loaded policy: what is known about each rule.
    pub fn get_summary(&self) -> (summary: PolicySummary)
        ensures
            summary.rules.deep_view() == all_rule_info(self@),
            forall|i: int|
                0 <= i < summary.rules.len() ==> views(
                    (#[trigger] summary.rules@[i]).free_variables@,
                ).no_duplicates(),
    {
        PolicySummary { rules: get_rule_info(&self.kb) }
    }
}

} // verus!
