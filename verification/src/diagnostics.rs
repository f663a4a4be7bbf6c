//! Diagnostics: the errors of a parse, and the calls that no rule answers.

use crate::kb::{KbState, KnowledgeBase};
use crate::parser::{ErrorKind, Line, ParseError, ParseResult, PolarError};
use crate::terms::{
    call_sites, forest, lemma_call_has_site, lemma_call_sites_add, lemma_forest_holds_tree,
    lemma_forest_step, lemma_site_has_call, CallSite, Term,
};
use crate::text::{join, join_strings};
use vstd::prelude::*;
use vstd::string::*;

verus! {

/// A problem found in a source text. `start` and `end` are offsets into
/// that text; both are 0 where the location is unknown.
#[derive(Debug, PartialEq, Eq)]
pub struct Diagnostic {
    pub message: String,
    pub start: usize,
    pub end: usize,
}

/// A diagnostic as plain values.
pub struct DiagnosticView {
    pub message: Seq<char>,
    pub start: usize,
    pub end: usize,
}

impl View for Diagnostic {
    type V = DiagnosticView;

    open spec fn view(&self) -> DiagnosticView {
        DiagnosticView { message: self.message@, start: self.start, end: self.end }
    }
}

impl DeepView for Diagnostic {
    type V = DiagnosticView;

    open spec fn deep_view(&self) -> DiagnosticView {
        self@
    }
}

impl Clone for Diagnostic {
    fn clone(&self) -> (copy: Self)
        ensures
            copy == *self,
    {
        Diagnostic { message: self.message.clone(), start: self.start, end: self.end }
    }
}

/// The one diagnostic for an error that stopped the parse: the error's
/// description, at the offset it points at, or at 0 where it points nowhere.
pub open spec fn terminal_diagnostic(error: PolarError) -> DiagnosticView {
    match error.kind.location() {
        Some(loc) => DiagnosticView { message: error.message@, start: loc, end: loc },
        None => DiagnosticView { message: error.message@, start: 0, end: 0 },
    }
}

/// The diagnostics of a parse: the errors it recovered from, in their
/// order, or the one error that stopped it.
pub open spec fn parse_diagnostics(parse_result: ParseResult) -> Seq<DiagnosticView> {
    match parse_result {
        Ok((_, errors)) => errors.deep_view(),
        Err(error) => seq![terminal_diagnostic(error)],
    }
}

/// The diagnostics of a parse: every error that a recovering parse stepped
/// over, or the single error that stopped it.
pub fn find_parse_errors(parse_result: &ParseResult) -> (errors: Vec<Diagnostic>)
    ensures
        errors.deep_view() == parse_diagnostics(*parse_result),
{
    match parse_result {
        Ok((_, recovered)) => {
            let mut errors: Vec<Diagnostic> = Vec::new();
            let mut i: usize = 0;
            while i < recovered.len()
                invariant
                    i <= recovered.len(),
                    errors@ == recovered@.take(i as int),
                decreases recovered.len() - i,
            {
                errors.push(recovered[i].clone());
                assert(errors@ =~= recovered@.take(i + 1));
                i += 1;
            }
            assert(errors@ =~= recovered@);
            assert(errors.deep_view() =~= recovered.deep_view());
            errors
        },
        Err(error) => {
            let message = error.message.clone();
            let found = match error.kind {
                ErrorKind::Parse(ParseError::IntegerOverflow { loc })
                | ErrorKind::Parse(ParseError::InvalidTokenCharacter { loc })
                | ErrorKind::Parse(ParseError::InvalidToken { loc })
                | ErrorKind::Parse(ParseError::UnrecognizedEOF { loc })
                | ErrorKind::Parse(ParseError::UnrecognizedToken { loc })
                | ErrorKind::Parse(ParseError::ExtraToken { loc })
                | ErrorKind::Parse(ParseError::WrongValueType { loc })
                | ErrorKind::Parse(ParseError::ReservedWord { loc }) => Diagnostic {
                    message,
                    start: loc,
                    end: loc,
                },
                _ => Diagnostic { message, start: 0, end: 0 },
            };
            let mut errors: Vec<Diagnostic> = Vec::new();
            errors.push(found);
            assert(errors.deep_view() =~= seq![terminal_diagnostic(*error)]);
            errors
        },
    }
}

/// The message for a call of a name that no rule has.
pub open spec fn no_rules_named(name: Seq<char>) -> Seq<char> {
    "There are no rules with the name \""@ + name + "\""@
}

/// The message for a call that no variant of its rule can answer: the call,
/// then every variant that exists, one to a line.
pub open spec fn no_rules_matching(call: Seq<char>, variants: Seq<Seq<char>>) -> Seq<char> {
    "There are no rules matching the format:\n  "@ + call + "\nFound:\n  "@ + join(
        variants,
        "\n  "@,
    ) + "\n"@
}

/// The root terms of `lines`, statement by statement.
pub open spec fn roots(lines: Seq<Line>) -> Seq<Term> {
    lines.map_values(|line: Line| line.root())
}

/// The call sites of `lines`: every call in every statement, statements in
/// their order, and within a statement a call before the calls nested in
/// it and siblings left to right.
pub open spec fn line_calls(lines: Seq<Line>) -> Seq<CallSite> {
    call_sites(forest(roots(lines)))
}

/// The matcher's answer for call number `i`. Where no answer was given the
/// call counts as answered, so that nothing is reported that was not
/// decided.
pub open spec fn answer(applicable: Seq<bool>, i: int) -> bool {
    !(0 <= i < applicable.len()) || applicable[i]
}

impl CallSite {
    /// Where a diagnostic for this call points: the call's span, or
    /// `(0, 0)` where it has none.
    pub open spec fn location(self) -> (usize, usize) {
        match self.span {
            Some(span) => span,
            None => (0, 0),
        }
    }
}

/// What is reported for one call: that no rule has its name; or, where the
/// name is known but the matcher found no variant for the arguments, the
/// call against the variants that exist; or nothing.
pub open spec fn site_diagnostics(kb: KbState, site: CallSite, applicable: bool) -> Seq<
    DiagnosticView,
> {
    if !kb.defines(site.name@) {
        seq![
            DiagnosticView {
                message: no_rules_named(site.name@),
                start: site.location().0,
                end: site.location().1,
            },
        ]
    } else if !applicable {
        seq![
            DiagnosticView {
                message: no_rules_matching(site.text@, kb.variant_texts(site.name@)),
                start: site.location().0,
                end: site.location().1,
            },
        ]
    } else {
        Seq::empty()
    }
}

/// What is reported for `sites`: the diagnostics of each call, in the
/// order of the calls. `applicable[i]` is the matcher's answer for
/// `sites[i]`.
pub open spec fn unmatched_calls(kb: KbState, sites: Seq<CallSite>, applicable: Seq<bool>) -> Seq<
    DiagnosticView,
> {
    Seq::new(
        sites.len(),
        |i: int| site_diagnostics(kb, sites[i], answer(applicable, i)),
    ).flatten()
}

/// The diagnostics of the first `n + 1` calls are those of the first `n`,
/// then those of the next call.
pub proof fn lemma_unmatched_calls_step(
    kb: KbState,
    sites: Seq<CallSite>,
    applicable: Seq<bool>,
    n: int,
)
    requires
        0 <= n < sites.len(),
    ensures
        unmatched_calls(kb, sites.take(n + 1), applicable) == unmatched_calls(
            kb,
            sites.take(n),
            applicable,
        ) + site_diagnostics(kb, sites[n], answer(applicable, n)),
{
    let shorter = Seq::new(
        sites.take(n).len(),
        |i: int| site_diagnostics(kb, sites.take(n)[i], answer(applicable, i)),
    );
    let longer = Seq::new(
        sites.take(n + 1).len(),
        |i: int| site_diagnostics(kb, sites.take(n + 1)[i], answer(applicable, i)),
    );
    let last = site_diagnostics(kb, sites[n], answer(applicable, n));
    assert(longer =~= shorter.push(last));
    shorter.lemma_flatten_push(last);
}

/// A call anywhere in a statement, however deep, is one of the call sites
/// of the statements.
pub proof fn lemma_nested_call_is_site(lines: Seq<Line>, k: int, path: Seq<int>)
    requires
        0 <= k < lines.len(),
        lines[k].root().subterm(path) matches Some(call) && call.is_call(),
    ensures
        line_calls(lines).contains(lines[k].root().subterm(path)->Some_0.site()),
{
    let call = lines[k].root().subterm(path)->Some_0;
    lines[k].root().lemma_subterm_is_node(path);
    assert(roots(lines)[k] == lines[k].root());
    lemma_forest_holds_tree(roots(lines), k);
    lemma_call_has_site(forest(roots(lines)), call);
}

/// Completeness: a call of a name that no rule has gets exactly one
/// diagnostic, which names it and points at the call, whatever the matcher
/// said of it.
pub proof fn lemma_unknown_name_reported(kb: KbState, site: CallSite, applicable: bool)
    requires
        !kb.defines(site.name@),
    ensures
        site_diagnostics(kb, site, applicable) == seq![
            DiagnosticView {
                message: no_rules_named(site.name@),
                start: site.location().0,
                end: site.location().1,
            },
        ],
{
}

/// Soundness: a call for which the matcher found a variant, under a name
/// that some rule has, gets no diagnostic.
pub proof fn lemma_answered_call_silent(kb: KbState, site: CallSite, applicable: bool)
    requires
        kb.defines(site.name@),
        applicable,
    ensures
        site_diagnostics(kb, site, applicable) == Seq::<DiagnosticView>::empty(),
{
}

/// The report holds the diagnostics of every call, and nothing else: what
/// is reported for call number `i` stands in the report, and each entry of
/// the report is reported for some call.
pub proof fn lemma_unmatched_calls_by_site(
    kb: KbState,
    sites: Seq<CallSite>,
    applicable: Seq<bool>,
)
    ensures
        forall|i: int, d: DiagnosticView|
            0 <= i < sites.len() && #[trigger] site_diagnostics(
                kb,
                sites[i],
                answer(applicable, i),
            ).contains(d) ==> unmatched_calls(kb, sites, applicable).contains(d),
        forall|d: DiagnosticView| #[trigger]
            unmatched_calls(kb, sites, applicable).contains(d) ==> exists|i: int|
                0 <= i < sites.len() && site_diagnostics(
                    kb,
                    sites[i],
                    answer(applicable, i),
                ).contains(d),
    decreases sites.len(),
{
    if sites.len() == 0 {
        assert(unmatched_calls(kb, sites, applicable) =~= Seq::<DiagnosticView>::empty());
    } else {
        let n = sites.len() - 1;
        let front = sites.take(n);
        lemma_unmatched_calls_by_site(kb, front, applicable);
        lemma_unmatched_calls_step(kb, sites, applicable, n);
        assert(sites.take(n + 1) =~= sites);
        let head = unmatched_calls(kb, front, applicable);
        let tail = site_diagnostics(kb, sites[n], answer(applicable, n));
        let all = unmatched_calls(kb, sites, applicable);
        assert(all == head + tail);
        assert forall|i: int, d: DiagnosticView|
            0 <= i < sites.len() && #[trigger] site_diagnostics(
                kb,
                sites[i],
                answer(applicable, i),
            ).contains(d) implies all.contains(d) by {
            if i < n {
                assert(front[i] == sites[i]);
                assert(head.contains(d));
                let at = choose|at: int| 0 <= at < head.len() && head[at] == d;
                assert(all[at] == d);
            } else {
                let at = choose|at: int| 0 <= at < tail.len() && tail[at] == d;
                assert(all[head.len() + at] == d);
            }
        }
        assert forall|d: DiagnosticView| #[trigger] all.contains(d) implies exists|i: int|
            0 <= i < sites.len() && site_diagnostics(
                kb,
                sites[i],
                answer(applicable, i),
            ).contains(d) by {
            let at = choose|at: int| 0 <= at < all.len() && all[at] == d;
            if at < head.len() {
                assert(head[at] == d);
                assert(head.contains(d));
                let i = choose|i: int|
                    0 <= i < front.len() && site_diagnostics(
                        kb,
                        front[i],
                        answer(applicable, i),
                    ).contains(d);
                assert(front[i] == sites[i]);
            } else {
                assert(tail[at - head.len()] == d);
                assert(site_diagnostics(kb, sites[n], answer(applicable, n)).contains(d));
            }
        }
    }
}

/// How many of the first `n` calls are reported: those whose name no rule
/// has, and those for which the matcher found no variant.
pub open spec fn unmatched_count(
    kb: KbState,
    sites: Seq<CallSite>,
    applicable: Seq<bool>,
    n: nat,
) -> nat
    decreases n,
{
    if n == 0 || n > sites.len() {
        0
    } else if !kb.defines(sites[n - 1].name@) || !answer(applicable, n - 1) {
        unmatched_count(kb, sites, applicable, (n - 1) as nat) + 1
    } else {
        unmatched_count(kb, sites, applicable, (n - 1) as nat)
    }
}

/// The report has exactly one entry for each call that is reported, and
/// none for any other call.
pub proof fn lemma_unmatched_calls_len(kb: KbState, sites: Seq<CallSite>, applicable: Seq<bool>)
    ensures
        unmatched_calls(kb, sites, applicable).len() == unmatched_count(
            kb,
            sites,
            applicable,
            sites.len(),
        ),
    decreases sites.len(),
{
    if sites.len() == 0 {
        assert(unmatched_calls(kb, sites, applicable) =~= Seq::<DiagnosticView>::empty());
    } else {
        let n = (sites.len() - 1) as nat;
        let front = sites.take(n as int);
        lemma_unmatched_calls_len(kb, front, applicable);
        lemma_unmatched_calls_step(kb, sites, applicable, n as int);
        assert(sites.take(n as int + 1) =~= sites);
        lemma_unmatched_count_prefix(kb, sites, applicable, n, n);
    }
}

/// Counting over a prefix of the calls gives what counting over all of
/// them gives, as far as the prefix goes.
proof fn lemma_unmatched_count_prefix(
    kb: KbState,
    sites: Seq<CallSite>,
    applicable: Seq<bool>,
    len: nat,
    n: nat,
)
    requires
        n <= len <= sites.len(),
    ensures
        unmatched_count(kb, sites.take(len as int), applicable, n) == unmatched_count(
            kb,
            sites,
            applicable,
            n,
        ),
    decreases n,
{
    if n > 0 {
        lemma_unmatched_count_prefix(kb, sites, applicable, len, (n - 1) as nat);
        assert(sites.take(len as int)[n - 1] == sites[n - 1]);
    }
}

/// Completeness, for the whole report: a call of a name that no rule has,
/// anywhere in any statement and however deep, has its diagnostic in the
/// report.
pub proof fn lemma_unknown_call_in_report(
    kb: KbState,
    lines: Seq<Line>,
    applicable: Seq<bool>,
    k: int,
    path: Seq<int>,
)
    requires
        0 <= k < lines.len(),
        lines[k].root().subterm(path) matches Some(call) && call.is_call() && !kb.defines(
            call.site().name@,
        ),
    ensures
        unmatched_calls(kb, line_calls(lines), applicable).contains(
            DiagnosticView {
                message: no_rules_named(lines[k].root().subterm(path)->Some_0.site().name@),
                start: lines[k].root().subterm(path)->Some_0.site().location().0,
                end: lines[k].root().subterm(path)->Some_0.site().location().1,
            },
        ),
{
    let site = lines[k].root().subterm(path)->Some_0.site();
    let sites = line_calls(lines);
    lemma_nested_call_is_site(lines, k, path);
    let i = choose|i: int| 0 <= i < sites.len() && sites[i] == site;
    lemma_unknown_name_reported(kb, site, answer(applicable, i));
    let found = site_diagnostics(kb, sites[i], answer(applicable, i));
    assert(found[0] == DiagnosticView {
        message: no_rules_named(site.name@),
        start: site.location().0,
        end: site.location().1,
    });
    assert(found.contains(found[0]));
    lemma_unmatched_calls_by_site(kb, sites, applicable);
}

/// Soundness, for the whole report: each entry is the one diagnostic of a
/// call whose name no rule has, or for which the matcher found no variant.
pub proof fn lemma_report_entry_is_unmatched(
    kb: KbState,
    sites: Seq<CallSite>,
    applicable: Seq<bool>,
    entry: DiagnosticView,
)
    requires
        unmatched_calls(kb, sites, applicable).contains(entry),
    ensures
        exists|i: int|
            0 <= i < sites.len() && (!kb.defines(sites[i].name@) || !answer(applicable, i))
                && site_diagnostics(kb, sites[i], answer(applicable, i)) == seq![entry],
{
    lemma_unmatched_calls_by_site(kb, sites, applicable);
    let i = choose|i: int|
        0 <= i < sites.len() && site_diagnostics(kb, sites[i], answer(applicable, i)).contains(
            entry,
        );
    let found = site_diagnostics(kb, sites[i], answer(applicable, i));
    let at = choose|at: int| 0 <= at < found.len() && found[at] == entry;
    assert(found =~= seq![entry]);
}

/// Whether every offset that the parse reports lies within the first
/// `bound` positions of the text: those of its errors, and the spans of the
/// terms of its statements.
pub open spec fn offsets_within(parse_result: ParseResult, bound: usize) -> bool {
    match parse_result {
        Ok((lines, errors)) => {
            &&& forall|i: int|
                0 <= i < errors@.len() ==> (#[trigger] errors@[i]).start <= bound && errors@[i].end
                    <= bound
            &&& forall|i: int|
                0 <= i < forest(roots(lines@)).len() ==> match (#[trigger] forest(
                    roots(lines@),
                )[i]).span {
                    Some(span) => span.0 <= bound && span.1 <= bound,
                    None => true,
                }
        },
        Err(error) => match error.kind.location() {
            Some(loc) => loc <= bound,
            None => true,
        },
    }
}

/// The diagnostics of a parse point into the parsed text: where every
/// offset of the parse lies within the text, so does every offset of its
/// diagnostics.
pub proof fn lemma_parse_diagnostics_within(parse_result: ParseResult, bound: usize)
    requires
        offsets_within(parse_result, bound),
    ensures
        forall|i: int|
            0 <= i < parse_diagnostics(parse_result).len() ==> (#[trigger] parse_diagnostics(
                parse_result,
            )[i]).start <= bound && parse_diagnostics(parse_result)[i].end <= bound,
{
    match parse_result {
        Ok((_, errors)) => {
            assert forall|i: int| 0 <= i < parse_diagnostics(parse_result).len() implies (
            #[trigger] parse_diagnostics(parse_result)[i]).start <= bound && parse_diagnostics(
                parse_result,
            )[i].end <= bound by {
                assert(parse_diagnostics(parse_result)[i] == errors@[i]@);
            }
        },
        Err(_) => {},
    }
}

/// The report points into the parsed text: where every offset of the parse
/// lies within the text, so does every offset of the report on its calls.
pub proof fn lemma_unmatched_calls_within(
    kb: KbState,
    parse_result: ParseResult,
    applicable: Seq<bool>,
    bound: usize,
    entry: DiagnosticView,
)
    requires
        offsets_within(parse_result, bound),
        parse_result matches Ok((lines, _)) && unmatched_calls(
            kb,
            line_calls(lines@),
            applicable,
        ).contains(entry),
    ensures
        entry.start <= bound,
        entry.end <= bound,
{
    let lines = parse_result->Ok_0.0@;
    let sites = line_calls(lines);
    lemma_report_entry_is_unmatched(kb, sites, applicable, entry);
    let i = choose|i: int|
        0 <= i < sites.len() && site_diagnostics(kb, sites[i], answer(applicable, i))
            == seq![entry];
    let nodes = forest(roots(lines));
    lemma_site_has_call(nodes, i);
    let k = choose|k: int| 0 <= k < nodes.len() && nodes[k].is_call() && nodes[k].site() == sites[i];
    assert(nodes[k].span == sites[i].span);
    assert(site_diagnostics(kb, sites[i], answer(applicable, i))[0] == entry);
}

/// The report reads the knowledge base only for the names that it defines
/// and the texts of their variants: two knowledge bases that agree on
/// those give the same report.
pub proof fn lemma_unmatched_calls_same(
    first: KbState,
    second: KbState,
    sites: Seq<CallSite>,
    applicable: Seq<bool>,
)
    requires
        forall|name: Seq<char>| first.defines(name) == second.defines(name),
        forall|name: Seq<char>| first.variant_texts(name) == second.variant_texts(name),
    ensures
        unmatched_calls(first, sites, applicable) == unmatched_calls(second, sites, applicable),
{
    let one = Seq::new(
        sites.len(),
        |i: int| site_diagnostics(first, sites[i], answer(applicable, i)),
    );
    let other = Seq::new(
        sites.len(),
        |i: int| site_diagnostics(second, sites[i], answer(applicable, i)),
    );
    assert(one =~= other);
}

/// The site of every call in `lines`, in the order in which a depth-first
/// walk meets them.
pub fn collect_calls(lines: &Vec<Line>) -> (sites: Vec<CallSite>)
    ensures
        sites@ == line_calls(lines@),
{
    let mut sites: Vec<CallSite> = Vec::new();
    let mut i: usize = 0;
    proof {
        reveal(Seq::filter);
        assert(forest(roots(lines@).take(0)) =~= Seq::<Term>::empty());
        assert(sites@ =~= call_sites(forest(roots(lines@).take(0))));
    }
    while i < lines.len()
        invariant
            i <= lines.len(),
            sites@ == call_sites(forest(roots(lines@).take(i as int))),
        decreases lines.len() - i,
    {
        let root = match &lines[i] {
            Line::Rule(rule) => &rule.body,
            Line::Query(term) => term,
        };
        root.collect_calls(&mut sites);
        proof {
            lemma_forest_step(roots(lines@), i as int);
            lemma_call_sites_add(forest(roots(lines@).take(i as int)), root.nodes());
        }
        i += 1;
    }
    proof {
        assert(roots(lines@).take(lines.len() as int) =~= roots(lines@));
    }
    sites
}

/// Reports each call of `sites` that no rule of `kb` can answer.
/// `applicable[i]` says whether the matcher found a variant for the
/// arguments of `sites[i]`; it is read only where the call's name is known.
pub fn report_unmatched(kb: &KnowledgeBase, sites: &Vec<CallSite>, applicable: &Vec<bool>) -> (out:
    Vec<Diagnostic>)
    ensures
        out.deep_view() == unmatched_calls(kb@, sites@, applicable@),
{
    let mut out: Vec<Diagnostic> = Vec::new();
    let mut i: usize = 0;
    proof {
        assert(unmatched_calls(kb@, sites@.take(0), applicable@) =~= Seq::<
            DiagnosticView,
        >::empty());
        assert(out.deep_view() =~= unmatched_calls(kb@, sites@.take(0), applicable@));
    }
    while i < sites.len()
        invariant
            i <= sites.len(),
            out.deep_view() == unmatched_calls(kb@, sites@.take(i as int), applicable@),
        decreases sites.len() - i,
    {
        let site = &sites[i];
        let (start, end) = match site.span {
            Some(span) => span,
            None => (0, 0),
        };
        let ghost before = out.deep_view();
        proof {
            lemma_unmatched_calls_step(kb@, sites@, applicable@, i as int);
        }
        if !kb.defines(site.name.as_str()) {
            let mut message = String::from_str("There are no rules with the name \"");
            message.append(site.name.as_str());
            message.append("\"");
            out.push(Diagnostic { message, start, end });
            assert(out.deep_view() =~= before.push(out@[out.len() - 1]@));
            assert(out.deep_view() =~= before + site_diagnostics(
                kb@,
                sites@[i as int],
                answer(applicable@, i as int),
            ));
        } else if i < applicable.len() && !applicable[i] {
            let variants = kb.variant_texts(site.name.as_str());
            let found = join_strings(&variants, "\n  ");
            let mut message = String::from_str("There are no rules matching the format:\n  ");
            message.append(site.text.as_str());
            message.append("\nFound:\n  ");
            message.append(found.as_str());
            message.append("\n");
            out.push(Diagnostic { message, start, end });
            assert(out.deep_view() =~= before.push(out@[out.len() - 1]@));
            assert(out.deep_view() =~= before + site_diagnostics(
                kb@,
                sites@[i as int],
                answer(applicable@, i as int),
            ));
        } else {
            assert(out.deep_view() =~= before + site_diagnostics(
                kb@,
                sites@[i as int],
                answer(applicable@, i as int),
            ));
        }
        i += 1;
    }
    proof {
        assert(sites@.take(sites.len() as int) =~= sites@);
    }
    out
}

/// Reports each call in the parsed statements that no rule of `kb` can
/// answer; nothing where the parse was stopped by an error.
/// `applicable[i]` is the matcher's answer for call number `i` of
/// `collect_calls`.
pub fn find_unused_rules(
    kb: &KnowledgeBase,
    parse_result: &ParseResult,
    applicable: &Vec<bool>,
) -> (unused: Vec<Diagnostic>)
    ensures
        unused.deep_view() == match *parse_result {
            Ok((lines, _)) => unmatched_calls(kb@, line_calls(lines@), applicable@),
            Err(_) => Seq::empty(),
        },
{
    match parse_result {
        Ok((lines, _)) => {
            let sites = collect_calls(lines);
            report_unmatched(kb, &sites, applicable)
        },
        Err(_) => {
            let unused: Vec<Diagnostic> = Vec::new();
            assert(unused.deep_view() =~= Seq::<DiagnosticView>::empty());
            unused
        },
    }
}

} // verus!
