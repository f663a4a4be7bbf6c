//! The term tree that the analyses walk.

use crate::text::{contains_string, views};
use vstd::prelude::*;

verus! {

/// A call `name(args...)`, with its canonical text.
#[derive(Debug, PartialEq, Eq)]
pub struct Call {
    pub name: String,
    pub args: Vec<Term>,
    /// The call as canonical text.
    pub text: String,
}

/// What a term is.
#[derive(Debug, PartialEq, Eq)]
pub enum Value {
    /// A call of a rule.
    Call(Call),
    /// A variable, by its symbol.
    Variable(String),
    /// A literal, by its canonical text.
    Literal(String),
    /// Any node built from other terms: a conjunction, a comparison, a list.
    Compound(Vec<Term>),
}

/// A node of a term tree, with the span it covers in its source text if it
/// has one.
#[derive(Debug, PartialEq, Eq)]
pub struct Term {
    pub value: Value,
    pub span: Option<(usize, usize)>,
}

/// What the analyses keep of a call term: its name, its canonical text and
/// its span.
#[derive(Debug, PartialEq, Eq)]
pub struct CallSite {
    pub name: String,
    pub text: String,
    pub span: Option<(usize, usize)>,
}

/// The nodes of each tree of `terms`, tree after tree.
pub open spec fn forest(terms: Seq<Term>) -> Seq<Term>
    decreases terms.len(),
{
    if terms.len() == 0 {
        Seq::empty()
    } else {
        forest(terms.drop_last()) + terms.last().nodes()
    }
}

/// The call sites among `nodes`, in the order of `nodes`.
pub open spec fn call_sites(nodes: Seq<Term>) -> Seq<CallSite> {
    nodes.filter(|node: Term| node.is_call()).map_values(|node: Term| node.site())
}

/// The symbols of the variables among `nodes`.
pub open spec fn variable_names(nodes: Seq<Term>) -> Set<Seq<char>> {
    Set::new(
        |name: Seq<char>| exists|i: int| 0 <= i < nodes.len() && nodes[i].is_variable(name),
    )
}

impl Term {
    /// The terms directly below this one, left to right.
    pub open spec fn children(self) -> Seq<Term> {
        match self.value {
            Value::Call(call) => call.args@,
            Value::Compound(parts) => parts@,
            _ => Seq::empty(),
        }
    }

    /// Every node of the tree, each once: a node before its children, and
    /// the children left to right.
    pub open spec fn nodes(self) -> Seq<Term>
        decreases self, self.children().len() + 1,
    {
        seq![self] + self.nodes_below(self.children().len())
    }

    /// The nodes of the trees of the first `n` children.
    pub open spec fn nodes_below(self, n: nat) -> Seq<Term>
        decreases self, n,
    {
        if n == 0 || n > self.children().len() {
            Seq::empty()
        } else {
            self.nodes_below((n - 1) as nat) + self.children()[n - 1].nodes()
        }
    }

    /// Whether this node is a call.
    pub open spec fn is_call(self) -> bool {
        self.value is Call
    }

    /// Whether this node is the variable `name`.
    pub open spec fn is_variable(self, name: Seq<char>) -> bool {
        self.value matches Value::Variable(symbol) && symbol@ == name
    }

    /// The call site of this node, where it is a call.
    pub open spec fn site(self) -> CallSite
        recommends
            self.is_call(),
    {
        CallSite {
            name: self.value->Call_0.name,
            text: self.value->Call_0.text,
            span: self.span,
        }
    }

    /// The term reached from this one by stepping, for each number of
    /// `path` in turn, to the child with that number; `None` where a step
    /// names no child.
    pub open spec fn subterm(self, path: Seq<int>) -> Option<Term>
        decreases path.len(),
    {
        if path.len() == 0 {
            Some(self)
        } else if 0 <= path[0] < self.children().len() {
            self.children()[path[0]].subterm(path.drop_first())
        } else {
            None
        }
    }

    /// The symbols of the variables that occur in this tree.
    pub open spec fn variables(self) -> Set<Seq<char>> {
        variable_names(self.nodes())
    }

    /// The nodes below the first `n` children are the forest of those
    /// children.
    proof fn lemma_nodes_below(self, n: nat)
        requires
            n <= self.children().len(),
        ensures
            self.nodes_below(n) == forest(self.children().take(n as int)),
        decreases n,
    {
        if n > 0 {
            self.lemma_nodes_below((n - 1) as nat);
            lemma_forest_step(self.children(), n - 1);
        }
    }

    /// A tree's nodes are its root, then the nodes of its children's trees.
    pub proof fn lemma_nodes(self)
        ensures
            self.nodes() == seq![self] + forest(self.children()),
    {
        self.lemma_nodes_below(self.children().len());
        assert(self.children().take(self.children().len() as int) =~= self.children());
    }

    /// Whatever can be reached from a term by stepping down is one of its
    /// nodes, however many steps it takes.
    pub proof fn lemma_subterm_is_node(self, path: Seq<int>)
        requires
            self.subterm(path) is Some,
        ensures
            self.nodes().contains(self.subterm(path)->Some_0),
        decreases path.len(),
    {
        self.lemma_nodes();
        if path.len() == 0 {
            assert(self.nodes()[0] == self);
        } else {
            let child = self.children()[path[0]];
            child.lemma_subterm_is_node(path.drop_first());
            lemma_forest_holds_tree(self.children(), path[0]);
            let found = child.subterm(path.drop_first())->Some_0;
            let at = choose|at: int|
                0 <= at < forest(self.children()).len() && forest(self.children())[at] == found;
            assert(self.nodes()[at + 1] == found);
        }
    }

    /// Appends to `out` the site of every call in this tree, a call before
    /// the calls among its arguments and siblings left to right.
    pub fn collect_calls(&self, out: &mut Vec<CallSite>)
        ensures
            final(out)@ == old(out)@ + call_sites(self.nodes()),
        decreases self, 0nat,
    {
        proof {
            self.lemma_nodes();
            lemma_call_sites_add(seq![*self], forest(self.children()));
            lemma_call_sites_one(*self);
        }
        match &self.value {
            Value::Call(call) => {
                out.push(
                    CallSite { name: call.name.clone(), text: call.text.clone(), span: self.span },
                );
                assert(out@ == old(out)@ + call_sites(seq![*self]));
                collect_calls_in(&call.args, out);
            },
            Value::Compound(parts) => {
                collect_calls_in(parts, out);
            },
            _ => {
                assert(forest(self.children()) =~= Seq::<Term>::empty());
            },
        }
        assert(out@ =~= old(out)@ + call_sites(self.nodes()));
    }

    /// Appends to `out` each variable symbol of this tree that `out` does
    /// not hold yet.
    pub fn collect_variables(&self, out: &mut Vec<String>)
        ensures
            views(final(out)@).to_set() == views(old(out)@).to_set().union(self.variables()),
            views(old(out)@).no_duplicates() ==> views(final(out)@).no_duplicates(),
            old(out)@.is_prefix_of(final(out)@),
        decreases self, 0nat,
    {
        proof {
            self.lemma_nodes();
            lemma_variable_names_add(seq![*self], forest(self.children()));
        }
        match &self.value {
            Value::Variable(symbol) => {
                assert(forest(self.children()) =~= Seq::<Term>::empty());
                assert(variable_names(seq![*self]) =~= set![symbol@]) by {
                    assert(seq![*self][0].is_variable(symbol@));
                }
                if !contains_string(out, symbol) {
                    out.push(symbol.clone());
                    assert(views(out@) =~= views(old(out)@).push(symbol@));
                    assert(views(out@).to_set() =~= views(old(out)@).to_set().insert(symbol@)) by {
                        assert forall|name: Seq<char>| views(out@).contains(name) implies views(
                            old(out)@,
                        ).to_set().insert(symbol@).contains(name) by {
                            let k = choose|k: int| 0 <= k < views(out@).len() && views(out@)[k] == name;
                            if k < old(out)@.len() {
                                assert(views(old(out)@)[k] == name);
                            }
                        }
                        assert forall|name: Seq<char>|
                            views(old(out)@).to_set().insert(symbol@).contains(
                                name,
                            ) implies views(out@).contains(name) by {
                            if name == symbol@ {
                                assert(views(out@)[old(out)@.len() as int] == name);
                            } else {
                                let k = choose|k: int|
                                    0 <= k < views(old(out)@).len() && views(old(out)@)[k] == name;
                                assert(views(out@)[k] == name);
                            }
                        }
                    }
                }
                assert(views(out@).to_set() =~= views(old(out)@).to_set().union(self.variables()));
            },
            Value::Call(call) => {
                assert(variable_names(seq![*self]) =~= Set::<Seq<char>>::empty());
                collect_variables_in(&call.args, out);
                assert(views(out@).to_set() =~= views(old(out)@).to_set().union(self.variables()));
            },
            Value::Compound(parts) => {
                assert(variable_names(seq![*self]) =~= Set::<Seq<char>>::empty());
                collect_variables_in(parts, out);
                assert(views(out@).to_set() =~= views(old(out)@).to_set().union(self.variables()));
            },
            Value::Literal(_) => {
                assert(variable_names(seq![*self]) =~= Set::<Seq<char>>::empty());
                assert(forest(self.children()) =~= Seq::<Term>::empty());
                assert(views(out@).to_set() =~= views(old(out)@).to_set().union(self.variables()));
            },
        }
    }
}

/// The forest of the first `n + 1` trees is that of the first `n`, then the
/// nodes of the next tree.
pub proof fn lemma_forest_step(terms: Seq<Term>, n: int)
    requires
        0 <= n < terms.len(),
    ensures
        forest(terms.take(n + 1)) == forest(terms.take(n)) + terms[n].nodes(),
{
    assert(terms.take(n + 1).drop_last() =~= terms.take(n));
    assert(terms.take(n + 1).last() == terms[n]);
}

/// The nodes of each tree of a forest are among the nodes of the forest.
pub proof fn lemma_forest_holds_tree(terms: Seq<Term>, k: int)
    requires
        0 <= k < terms.len(),
    ensures
        forall|node: Term| #[trigger]
            terms[k].nodes().contains(node) ==> forest(terms).contains(node),
    decreases terms.len(),
{
    let front = forest(terms.drop_last());
    let back = terms.last().nodes();
    assert forall|node: Term| #[trigger] terms[k].nodes().contains(node) implies forest(
        terms,
    ).contains(node) by {
        if k == terms.len() - 1 {
            let at = choose|at: int| 0 <= at < back.len() && back[at] == node;
            assert(forest(terms)[front.len() + at] == node);
        } else {
            lemma_forest_holds_tree(terms.drop_last(), k);
            assert(terms.drop_last()[k] == terms[k]);
            let at = choose|at: int| 0 <= at < front.len() && front[at] == node;
            assert(forest(terms)[at] == node);
        }
    }
}

/// Each call among the nodes has its site among the call sites.
pub proof fn lemma_call_has_site(nodes: Seq<Term>, call: Term)
    requires
        nodes.contains(call),
        call.is_call(),
    ensures
        call_sites(nodes).contains(call.site()),
{
    let pred = |node: Term| node.is_call();
    let at = choose|at: int| 0 <= at < nodes.len() && nodes[at] == call;
    nodes.lemma_filter_contains(pred, at);
    let kept = nodes.filter(pred);
    let k = choose|k: int| 0 <= k < kept.len() && kept[k] == call;
    assert(call_sites(nodes)[k] == call.site());
}

/// Each call site is the site of a call among the nodes.
pub proof fn lemma_site_has_call(nodes: Seq<Term>, i: int)
    requires
        0 <= i < call_sites(nodes).len(),
    ensures
        exists|k: int|
            0 <= k < nodes.len() && nodes[k].is_call() && nodes[k].site() == call_sites(nodes)[i],
    decreases nodes.len(),
{
    reveal(Seq::filter);
    if nodes.len() > 0 {
        let front = nodes.drop_last();
        assert(nodes =~= front + seq![nodes.last()]);
        lemma_call_sites_add(front, seq![nodes.last()]);
        lemma_call_sites_one(nodes.last());
        if i < call_sites(front).len() {
            lemma_site_has_call(front, i);
            let k = choose|k: int|
                0 <= k < front.len() && front[k].is_call() && front[k].site() == call_sites(
                    front,
                )[i];
            assert(nodes[k] == front[k]);
        } else {
            assert(nodes[nodes.len() - 1].site() == call_sites(nodes)[i]);
        }
    }
}

/// The call sites of two runs of nodes, one after the other.
pub proof fn lemma_call_sites_add(first: Seq<Term>, second: Seq<Term>)
    ensures
        call_sites(first + second) == call_sites(first) + call_sites(second),
{
    Seq::filter_distributes_over_add(first, second, |node: Term| node.is_call());
    assert(call_sites(first + second) =~= call_sites(first) + call_sites(second));
}

/// A single node gives its own site if it is a call, and nothing otherwise.
pub proof fn lemma_call_sites_one(node: Term)
    ensures
        call_sites(seq![node]) == if node.is_call() {
            seq![node.site()]
        } else {
            Seq::<CallSite>::empty()
        },
{
    let pred = |node: Term| node.is_call();
    reveal(Seq::filter);
    assert(seq![node].drop_last() =~= Seq::<Term>::empty());
    assert(Seq::<Term>::empty().filter(pred) =~= Seq::<Term>::empty());
    if node.is_call() {
        assert(seq![node].filter(pred) =~= seq![node]);
        assert(call_sites(seq![node]) =~= seq![node.site()]);
    } else {
        assert(seq![node].filter(pred) =~= Seq::<Term>::empty());
        assert(call_sites(seq![node]) =~= Seq::<CallSite>::empty());
    }
}

/// The variables of two runs of nodes are those of either.
pub proof fn lemma_variable_names_add(first: Seq<Term>, second: Seq<Term>)
    ensures
        variable_names(first + second) == variable_names(first).union(variable_names(second)),
{
    let both = first + second;
    assert forall|name: Seq<char>| variable_names(both).contains(name) implies variable_names(
        first,
    ).union(variable_names(second)).contains(name) by {
        let i = choose|i: int| 0 <= i < both.len() && both[i].is_variable(name);
        if i < first.len() {
            assert(first[i].is_variable(name));
        } else {
            assert(second[i - first.len()].is_variable(name));
        }
    }
    assert forall|name: Seq<char>|
        variable_names(first).union(variable_names(second)).contains(
            name,
        ) implies variable_names(both).contains(name) by {
        if variable_names(first).contains(name) {
            let i = choose|i: int| 0 <= i < first.len() && first[i].is_variable(name);
            assert(both[i].is_variable(name));
        } else {
            let i = choose|i: int| 0 <= i < second.len() && second[i].is_variable(name);
            assert(both[i + first.len()].is_variable(name));
        }
    }
    assert(variable_names(both) =~= variable_names(first).union(variable_names(second)));
}

/// Appends to `out` the site of every call in the trees of `terms`, tree
/// after tree.
pub fn collect_calls_in(terms: &Vec<Term>, out: &mut Vec<CallSite>)
    ensures
        final(out)@ == old(out)@ + call_sites(forest(terms@)),
    decreases terms, 1nat,
{
    let mut i: usize = 0;
    proof {
        assert(forest(terms@.take(0)) =~= Seq::<Term>::empty());
        assert(call_sites(Seq::<Term>::empty()) =~= Seq::<CallSite>::empty());
    }
    while i < terms.len()
        invariant
            i <= terms.len(),
            out@ == old(out)@ + call_sites(forest(terms@.take(i as int))),
        decreases terms.len() - i,
    {
        let ghost before = out@;
        terms[i].collect_calls(out);
        proof {
            lemma_forest_step(terms@, i as int);
            lemma_call_sites_add(forest(terms@.take(i as int)), terms@[i as int].nodes());
            assert(out@ =~= old(out)@ + call_sites(forest(terms@.take(i + 1))));
        }
        i += 1;
    }
    proof {
        assert(terms@.take(terms.len() as int) =~= terms@);
    }
}

/// Appends to `out` each variable symbol of the trees of `terms` that `out`
/// does not hold yet.
pub fn collect_variables_in(terms: &Vec<Term>, out: &mut Vec<String>)
    ensures
        views(final(out)@).to_set() == views(old(out)@).to_set().union(
            variable_names(forest(terms@)),
        ),
        views(old(out)@).no_duplicates() ==> views(final(out)@).no_duplicates(),
        old(out)@.is_prefix_of(final(out)@),
    decreases terms, 1nat,
{
    let mut i: usize = 0;
    proof {
        assert(forest(terms@.take(0)) =~= Seq::<Term>::empty());
        assert(variable_names(Seq::<Term>::empty()) =~= Set::<Seq<char>>::empty());
        assert(views(out@).to_set() =~= views(old(out)@).to_set().union(
            Set::<Seq<char>>::empty(),
        ));
    }
    while i < terms.len()
        invariant
            i <= terms.len(),
            views(out@).to_set() == views(old(out)@).to_set().union(
                variable_names(forest(terms@.take(i as int))),
            ),
            views(old(out)@).no_duplicates() ==> views(out@).no_duplicates(),
            old(out)@.is_prefix_of(out@),
        decreases terms.len() - i,
    {
        terms[i].collect_variables(out);
        proof {
            lemma_forest_step(terms@, i as int);
            lemma_variable_names_add(forest(terms@.take(i as int)), terms@[i as int].nodes());
            assert(views(out@).to_set() =~= views(old(out)@).to_set().union(
                variable_names(forest(terms@.take(i + 1))),
            ));
        }
        i += 1;
    }
    proof {
        assert(terms@.take(terms.len() as int) =~= terms@);
    }
}

} // verus!
