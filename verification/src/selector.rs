//! The selector language: components (`*`, a tag name, a `.class`),
//! combinators (descendant, direct child), specificity, and the
//! right-to-left matching pass over a node's ancestor chain.

use vstd::prelude::*;
use crate::tree::{bytes_eq, tree_wf, ArrayNode};

verus! {

/// Mathematical model of one selector component.
pub ghost enum CompV {
    Universal,
    Tag(Seq<u8>),
    Class(Seq<u8>),
}

/// One selector component: `*`, a bare tag name, or a `.class`.
#[derive(Debug, Clone)]
pub enum Component {
    Universal,
    Tag(Vec<u8>),
    Class(Vec<u8>),
}

impl View for Component {
    type V = CompV;

    open spec fn view(&self) -> CompV {
        match self {
            Component::Universal => CompV::Universal,
            Component::Tag(t) => CompV::Tag(t@),
            Component::Class(c) => CompV::Class(c@),
        }
    }
}

/// How a component relates to the component on its right: ancestor at any
/// depth, or immediate parent.
#[derive(Debug, Clone, Copy, PartialEq, Eq, Structural)]
pub enum Combinator {
    Descendant,
    Child,
}

/// Mathematical model of one link of a selector chain.
pub ghost struct PartV {
    /// The combinator binding this component to the component on its left;
    /// ignored for the leftmost component.
    pub comb: Combinator,
    pub comp: CompV,
}

/// One link of a selector chain: the combinator that binds it to the
/// component on its left (ignored for the leftmost), and the component.
#[derive(Debug, Clone)]
pub struct SelectorPart {
    pub comb: Combinator,
    pub comp: Component,
}

impl View for SelectorPart {
    type V = PartV;

    open spec fn view(&self) -> PartV {
        PartV { comb: self.comb, comp: self.comp@ }
    }
}

/// A selector chain, leftmost component first; the rightmost component must
/// match the target node itself.
#[derive(Debug, Clone)]
pub struct Selector {
    pub parts: Vec<SelectorPart>,
}

impl View for Selector {
    type V = Seq<PartV>;

    open spec fn view(&self) -> Seq<PartV> {
        self.parts@.map_values(|p: SelectorPart| p@)
    }
}

/// The weight one component contributes to specificity: named components
/// count one, the universal component counts nothing.
pub open spec fn comp_weight(c: CompV) -> int {
    match c {
        CompV::Universal => 0,
        CompV::Tag(_) => 1,
        CompV::Class(_) => 1,
    }
}

/// Specificity of a selector chain: the number of named components.
pub open spec fn spec_specificity(parts: Seq<PartV>) -> int
    decreases parts.len(),
{
    if parts.len() == 0 {
        0
    } else {
        spec_specificity(parts.drop_last()) + comp_weight(parts.last().comp)
    }
}

/// Whether a node satisfies one component: `*` is satisfied by every node,
/// a tag component by a node with that tag name, a class component by a
/// node whose class list holds that class.
pub open spec fn comp_sat(node: ArrayNode, c: CompV) -> bool {
    match c {
        CompV::Universal => true,
        CompV::Tag(t) => node.name@ == t,
        CompV::Class(cl) => exists|k: int|
            0 <= k < node.classes@.len() && #[trigger] node.classes@[k]@ == cl,
    }
}

/// The parent index of node `i`, guarded so that a parent link is only
/// followed when it points strictly before the node (always true of a
/// well-formed tree).
pub open spec fn parent_of(tree: Seq<ArrayNode>, i: int) -> Option<int> {
    if 0 <= i < tree.len() {
        match tree[i].parent {
            Some(p) => if p < i { Some(p as int) } else { None },
            None => None,
        }
    } else {
        None
    }
}

/// Whether node `a` lies on the parent chain above node `i`.
pub open spec fn is_ancestor(tree: Seq<ArrayNode>, a: int, i: int) -> bool
    decreases i,
{
    match parent_of(tree, i) {
        None => false,
        Some(p) => p == a || is_ancestor(tree, a, p),
    }
}

/// The nearest ancestor of `i` that satisfies component `c`, scanning the
/// parent chain upward, or `None` when the chain is exhausted.
pub open spec fn nearest_anc_sat(tree: Seq<ArrayNode>, i: int, c: CompV) -> Option<int>
    decreases i,
{
    match parent_of(tree, i) {
        None => None,
        Some(p) => if comp_sat(tree[p], c) {
            Some(p)
        } else {
            nearest_anc_sat(tree, p, c)
        },
    }
}

/// Whether the selector chain `parts` matches node `i`: the rightmost
/// component must be satisfied by the node itself; each remaining component
/// is resolved right to left, a child combinator against the immediate
/// parent, a descendant combinator against the nearest ancestor satisfying
/// it, continuing upward from whichever node matched. The empty chain
/// matches nothing.
pub open spec fn sel_matches(tree: Seq<ArrayNode>, parts: Seq<PartV>, i: int) -> bool
    decreases parts.len(),
{
    if parts.len() == 0 {
        false
    } else {
        let j = parts.len() - 1;
        comp_sat(tree[i], parts[j].comp) && (j == 0 || (match parts[j].comb {
            Combinator::Child => match parent_of(tree, i) {
                None => false,
                Some(p) => sel_matches(tree, parts.take(j), p),
            },
            Combinator::Descendant => match nearest_anc_sat(tree, i, parts[j - 1].comp) {
                None => false,
                Some(a) => sel_matches(tree, parts.take(j), a),
            },
        }))
    }
}

/// Whether node `node` satisfies component `c`.
pub fn comp_sat_exec(node: &ArrayNode, c: &Component) -> (r: bool)
    ensures
        r == comp_sat(*node, c@),
{
    match c {
        Component::Universal => true,
        Component::Tag(t) => bytes_eq(&node.name, t),
        Component::Class(cl) => {
            let n = node.classes.len();
            let mut k: usize = 0;
            while k < n
                invariant
                    c@ == CompV::Class(cl@),
                    n == node.classes@.len(),
                    k <= n,
                    forall|m: int| 0 <= m < k ==> #[trigger] node.classes@[m]@ != cl@,
                decreases n - k,
            {
                if bytes_eq(&node.classes[k], cl) {
                    proof {
                        assert(node.classes@[k as int]@ == cl@);
                    }
                    return true;
                }
                k += 1;
            }
            false
        },
    }
}

/// The nearest ancestor of node `i` satisfying component `c`.
fn nearest_anc_exec(tree: &Vec<ArrayNode>, i: usize, c: &Component) -> (r: Option<usize>)
    requires
        tree_wf(tree@),
        i < tree@.len(),
    ensures
        match r {
            Some(a) => nearest_anc_sat(tree@, i as int, c@) == Some(a as int) && a < i,
            None => nearest_anc_sat(tree@, i as int, c@) is None,
        },
    decreases i,
{
    match tree[i].parent {
        None => None,
        Some(p) => {
            if p < i {
                if comp_sat_exec(&tree[p], c) {
                    Some(p)
                } else {
                    nearest_anc_exec(tree, p, c)
                }
            } else {
                None
            }
        },
    }
}

/// Whether the prefix `parts[..k]` of a selector chain matches node `i`.
fn match_upto(tree: &Vec<ArrayNode>, parts: &Vec<SelectorPart>, k: usize, i: usize) -> (r: bool)
    requires
        tree_wf(tree@),
        i < tree@.len(),
        1 <= k <= parts@.len(),
    ensures
        r == sel_matches(tree@, parts@.map_values(|p: SelectorPart| p@).take(k as int), i as int),
    decreases k,
{
    let ghost sv = parts@.map_values(|p: SelectorPart| p@);
    let j = k - 1;
    proof {
        assert(sv.take(k as int)[j as int] == sv[j as int]);
        assert(sv.take(k as int).len() == k);
    }
    if !comp_sat_exec(&tree[i], &parts[j].comp) {
        return false;
    }
    if j == 0 {
        return true;
    }
    proof {
        assert(sv.take(k as int).take(j as int) =~= sv.take(j as int));
    }
    match parts[j].comb {
        Combinator::Child => {
            match tree[i].parent {
                None => false,
                Some(p) => {
                    if p < i {
                        match_upto(tree, parts, j, p)
                    } else {
                        false
                    }
                },
            }
        },
        Combinator::Descendant => {
            proof {
                assert(sv.take(k as int)[j - 1] == sv[j - 1]);
            }
            match nearest_anc_exec(tree, i, &parts[j - 1].comp) {
                None => false,
                Some(a) => match_upto(tree, parts, j, a),
            }
        },
    }
}

impl Selector {
    /// Specificity of this selector: the number of its named components.
    /// A chain of `n` components has specificity between 0 and `n`, and a
    /// selector made only of universal components has specificity 0.
    pub fn specificity(&self) -> (r: usize)
        ensures
            r == spec_specificity(self@),
            r <= self@.len(),
    {
        let ghost sv = self@;
        let n = self.parts.len();
        let mut total: usize = 0;
        let mut m: usize = 0;
        proof {
            assert(sv.take(0).len() == 0);
        }
        while m < n
            invariant
                n == self.parts@.len(),
                sv == self.parts@.map_values(|p: SelectorPart| p@),
                m <= n,
                total <= m,
                total == spec_specificity(sv.take(m as int)),
            decreases n - m,
        {
            proof {
                assert(sv.take(m as int + 1).drop_last() =~= sv.take(m as int));
                assert(sv.take(m as int + 1).last() == sv[m as int]);
            }
            match &self.parts[m].comp {
                Component::Universal => {},
                Component::Tag(_) => {
                    total += 1;
                },
                Component::Class(_) => {
                    total += 1;
                },
            }
            m += 1;
        }
        proof {
            assert(sv.take(n as int) =~= sv);
        }
        total
    }

    /// Whether this selector matches node `i` of `tree`.
    pub fn matches(&self, tree: &Vec<ArrayNode>, i: usize) -> (r: bool)
        requires
            tree_wf(tree@),
            i < tree@.len(),
        ensures
            r == sel_matches(tree@, self@, i as int),
    {
        if self.parts.len() == 0 {
            return false;
        }
        let k = self.parts.len();
        let r = match_upto(tree, &self.parts, k, i);
        proof {
            assert(self@.take(k as int) =~= self@);
        }
        r
    }
}

/// A selector consisting solely of the universal component matches every
/// node of every tree.
pub proof fn lemma_universal_selector_matches_all(tree: Seq<ArrayNode>, i: int)
    requires
        0 <= i < tree.len(),
    ensures
        sel_matches(
            tree,
            seq![PartV { comb: Combinator::Descendant, comp: CompV::Universal }],
            i,
        ),
{
    let parts = seq![PartV { comb: Combinator::Descendant, comp: CompV::Universal }];
    assert(parts.len() == 1);
    assert(comp_sat(tree[i], parts[0].comp));
}

/// The nearest-satisfying-ancestor scan succeeds exactly when some ancestor
/// satisfies the component, and what it returns is such an ancestor.
pub proof fn lemma_nearest_anc_iff(tree: Seq<ArrayNode>, i: int, c: CompV)
    ensures
        (nearest_anc_sat(tree, i, c) is Some) <==> (exists|a: int|
            #[trigger] is_ancestor(tree, a, i) && comp_sat(tree[a], c)),
        match nearest_anc_sat(tree, i, c) {
            Some(b) => is_ancestor(tree, b, i) && comp_sat(tree[b], c),
            None => true,
        },
    decreases i,
{
    match parent_of(tree, i) {
        None => {
            assert forall|a: int| !is_ancestor(tree, a, i) by {}
        },
        Some(p) => {
            if comp_sat(tree[p], c) {
                assert(is_ancestor(tree, p, i));
            } else {
                lemma_nearest_anc_iff(tree, p, c);
                if nearest_anc_sat(tree, p, c) is Some {
                    let b = nearest_anc_sat(tree, p, c)->Some_0;
                    assert(is_ancestor(tree, b, p));
                    assert(is_ancestor(tree, b, i));
                } else {
                    assert forall|a: int| is_ancestor(tree, a, i) implies !comp_sat(
                        tree[a],
                        c,
                    ) by {
                        if a == p {
                        } else {
                            assert(is_ancestor(tree, a, p));
                        }
                    }
                }
            }
        },
    }
}

/// A two-component descendant selector `A B` matches a node exactly when
/// the node itself satisfies `B` and some ancestor, at any depth, satisfies
/// `A`.
pub proof fn lemma_descendant_selector(tree: Seq<ArrayNode>, a_comp: CompV, b_comp: CompV, i: int)
    requires
        0 <= i < tree.len(),
    ensures
        sel_matches(
            tree,
            seq![
                PartV { comb: Combinator::Descendant, comp: a_comp },
                PartV { comb: Combinator::Descendant, comp: b_comp },
            ],
            i,
        ) <==> (comp_sat(tree[i], b_comp) && exists|a: int|
            #[trigger] is_ancestor(tree, a, i) && comp_sat(tree[a], a_comp)),
{
    let parts = seq![
        PartV { comb: Combinator::Descendant, comp: a_comp },
        PartV { comb: Combinator::Descendant, comp: b_comp },
    ];
    assert(parts.len() == 2);
    lemma_nearest_anc_iff(tree, i, a_comp);
    assert(parts.take(1) =~= seq![PartV { comb: Combinator::Descendant, comp: a_comp }]);
    match nearest_anc_sat(tree, i, a_comp) {
        Some(a) => {
            assert(comp_sat(tree[a], a_comp));
            assert(sel_matches(tree, parts.take(1), a));
        },
        None => {},
    }
}

/// A two-component direct-child selector `A > B` matches a node exactly
/// when the node's immediate parent satisfies `A` and the node itself
/// satisfies `B`.
pub proof fn lemma_child_selector(tree: Seq<ArrayNode>, a_comp: CompV, b_comp: CompV, i: int)
    requires
        0 <= i < tree.len(),
    ensures
        sel_matches(
            tree,
            seq![
                PartV { comb: Combinator::Descendant, comp: a_comp },
                PartV { comb: Combinator::Child, comp: b_comp },
            ],
            i,
        ) <==> (comp_sat(tree[i], b_comp) && match parent_of(tree, i) {
            Some(p) => comp_sat(tree[p], a_comp),
            None => false,
        }),
{
    let parts = seq![
        PartV { comb: Combinator::Descendant, comp: a_comp },
        PartV { comb: Combinator::Child, comp: b_comp },
    ];
    assert(parts.len() == 2);
    assert(parts.take(1) =~= seq![PartV { comb: Combinator::Descendant, comp: a_comp }]);
    match parent_of(tree, i) {
        Some(p) => {
            assert(sel_matches(tree, parts.take(1), p) == comp_sat(tree[p], a_comp));
        },
        None => {},
    }
}

} // verus!
