//! The style-sheet tree that the rewriter walks: rules with selectors,
//! at-rules with a name and parameter text, and property/value
//! declarations.  The ghost view types mirror the tree with character
//! sequences, so that contracts can speak about whole trees.

use vstd::prelude::*;

verus! {

/// One `property: value` declaration.
pub struct Declaration {
    pub prop: String,
    pub value: String,
}

/// A rule: a selector and the nodes between its braces.
pub struct Rule {
    pub selector: String,
    pub children: Vec<RuleOrAtRuleOrDecl>,
}

/// An at-rule: a name (without the `@`), its parameter text, and the
/// nodes between its braces.
pub struct AtRule {
    pub name: String,
    pub params: String,
    pub children: Vec<RuleOrAtRuleOrDecl>,
}

/// Any node below the root.
pub enum RuleOrAtRuleOrDecl {
    Rule(Rule),
    AtRule(AtRule),
    Declaration(Declaration),
}

/// The root of a style sheet.
pub struct Root {
    pub children: Vec<RuleOrAtRuleOrDecl>,
}

/// The mathematical image of a declaration.
pub ghost struct DeclView {
    pub prop: Seq<char>,
    pub value: Seq<char>,
}

/// The mathematical image of a rule.
pub ghost struct RuleView {
    pub selector: Seq<char>,
    pub children: Seq<NodeView>,
}

/// The mathematical image of an at-rule.
pub ghost struct AtRuleView {
    pub name: Seq<char>,
    pub params: Seq<char>,
    pub children: Seq<NodeView>,
}

/// The mathematical image of a node.
pub ghost enum NodeView {
    Rule(RuleView),
    AtRule(AtRuleView),
    Declaration(DeclView),
}

/// The mathematical image of a root.
pub ghost struct RootView {
    pub children: Seq<NodeView>,
}

/// The view of one node.
pub open spec fn node_view(n: RuleOrAtRuleOrDecl) -> NodeView
    decreases n,
{
    match n {
        RuleOrAtRuleOrDecl::Rule(r) => NodeView::Rule(
            RuleView { selector: r.selector@, children: nodes_view(r.children@) },
        ),
        RuleOrAtRuleOrDecl::AtRule(a) => NodeView::AtRule(
            AtRuleView {
                name: a.name@,
                params: a.params@,
                children: nodes_view(a.children@),
            },
        ),
        RuleOrAtRuleOrDecl::Declaration(d) => NodeView::Declaration(
            DeclView { prop: d.prop@, value: d.value@ },
        ),
    }
}

/// The views of a sequence of nodes.
pub open spec fn nodes_view(s: Seq<RuleOrAtRuleOrDecl>) -> Seq<NodeView>
    decreases s,
{
    if s.len() == 0 {
        Seq::empty()
    } else {
        nodes_view(s.drop_last()).push(node_view(s.last()))
    }
}

impl View for RuleOrAtRuleOrDecl {
    type V = NodeView;

    open spec fn view(&self) -> NodeView {
        node_view(*self)
    }
}

impl View for Root {
    type V = RootView;

    open spec fn view(&self) -> RootView {
        RootView { children: nodes_view(self.children@) }
    }
}

impl View for Rule {
    type V = RuleView;

    open spec fn view(&self) -> RuleView {
        RuleView { selector: self.selector@, children: nodes_view(self.children@) }
    }
}

impl View for AtRule {
    type V = AtRuleView;

    open spec fn view(&self) -> AtRuleView {
        AtRuleView { name: self.name@, params: self.params@, children: nodes_view(self.children@) }
    }
}

impl View for Declaration {
    type V = DeclView;

    open spec fn view(&self) -> DeclView {
        DeclView { prop: self.prop@, value: self.value@ }
    }
}

/// The length of the view matches, and each element's view stands at
/// its place.
pub proof fn lemma_nodes_view_index(s: Seq<RuleOrAtRuleOrDecl>)
    ensures
        nodes_view(s).len() == s.len(),
        forall|i: int| 0 <= i < s.len() ==> nodes_view(s)[i] == node_view(#[trigger] s[i]),
    decreases s,
{
    if s.len() > 0 {
        lemma_nodes_view_index(s.drop_last());
        assert forall|i: int| 0 <= i < s.len() implies nodes_view(s)[i] == node_view(
            #[trigger] s[i],
        ) by {
            if i < s.len() - 1 {
                assert(s.drop_last()[i] == s[i]);
                assert(nodes_view(s)[i] == nodes_view(s.drop_last())[i]);
            } else {
                assert(s.last() == s[i]);
            }
        }
    }
}

} // verus!
