//! The cascade: rules pair a selector with declarations; for each node and
//! each property name the winning value comes from the matching rule with
//! the highest specificity, ties going to the later-declared rule.

use vstd::prelude::*;
use crate::selector::{
    comp_weight, lemma_universal_selector_matches_all, sel_matches, spec_specificity, CompV,
    Combinator, PartV, Selector,
};
use crate::tree::{bytes_eq, style_lookup, tree_wf, ArrayNode, Style, StyleProp};

verus! {

/// One parsed declaration: a property name and its value in whole pixels.
#[derive(Debug, Clone)]
pub struct Declaration {
    pub name: Vec<u8>,
    pub value: u64,
}

/// Mathematical model of one declaration.
pub ghost struct DeclV {
    pub name: Seq<u8>,
    pub value: u64,
}

impl View for Declaration {
    type V = DeclV;

    open spec fn view(&self) -> DeclV {
        DeclV { name: self.name@, value: self.value }
    }
}

/// One rule of a stylesheet: a selector and its ordered declarations. Its
/// position in the stylesheet is its declaration-order index.
#[derive(Debug, Clone)]
pub struct Rule {
    pub selector: Selector,
    pub declarations: Vec<Declaration>,
}

/// Mathematical model of one rule.
pub ghost struct RuleV {
    pub parts: Seq<PartV>,
    pub decls: Seq<DeclV>,
}

impl View for Rule {
    type V = RuleV;

    open spec fn view(&self) -> RuleV {
        RuleV {
            parts: self.selector@,
            decls: self.declarations@.map_values(|d: Declaration| d@),
        }
    }
}

/// Fold the declarations of one matching rule of specificity `s` into the
/// resolution state `prev` for property `name`: each declaration of `name`
/// replaces the current winner unless the current winner's specificity is
/// strictly higher.
pub open spec fn fold_decls(
    decls: Seq<DeclV>,
    s: int,
    prev: Option<(u64, int)>,
    name: Seq<u8>,
) -> Option<(u64, int)>
    decreases decls.len(),
{
    if decls.len() == 0 {
        prev
    } else {
        let prior = fold_decls(decls.drop_last(), s, prev, name);
        let d = decls.last();
        if d.name == name && (prior is None || s >= prior->Some_0.1) {
            Some((d.value, s))
        } else {
            prior
        }
    }
}

/// The resolution state for property `name` at node `i` after the first
/// `n` rules of the stylesheet, as a pair of winning value and winning
/// specificity.
pub open spec fn resolve_upto(
    rules: Seq<RuleV>,
    tree: Seq<ArrayNode>,
    i: int,
    n: int,
    name: Seq<u8>,
) -> Option<(u64, int)>
    decreases n,
{
    if n <= 0 {
        None
    } else {
        let prev = resolve_upto(rules, tree, i, n - 1, name);
        let r = rules[n - 1];
        if sel_matches(tree, r.parts, i) {
            fold_decls(r.decls, spec_specificity(r.parts), prev, name)
        } else {
            prev
        }
    }
}

/// The value the cascade assigns to property `name` at node `i`, or `None`
/// when no matching rule declares it.
pub open spec fn resolved_value(
    rules: Seq<RuleV>,
    tree: Seq<ArrayNode>,
    i: int,
    name: Seq<u8>,
) -> Option<u64> {
    match resolve_upto(rules, tree, i, rules.len() as int, name) {
        Some(vs) => Some(vs.0),
        None => None,
    }
}

/// Resolution state carried by the cascade pass: `props` and `strengths`
/// in lockstep, read from the latest entry for a name backwards.
pub open spec fn pair_lookup(
    props: Seq<StyleProp>,
    strengths: Seq<usize>,
    name: Seq<u8>,
) -> Option<(u64, int)>
    decreases props.len(),
{
    if props.len() == 0 || strengths.len() != props.len() {
        None
    } else if props.last().name@ == name {
        Some((props.last().value, strengths.last() as int))
    } else {
        pair_lookup(props.drop_last(), strengths.drop_last(), name)
    }
}

/// Dropping the strengths from the resolution state leaves exactly the
/// style record's own lookup.
proof fn lemma_pair_strip(props: Seq<StyleProp>, strengths: Seq<usize>, name: Seq<u8>)
    requires
        props.len() == strengths.len(),
    ensures
        style_lookup(props, name) == match pair_lookup(props, strengths, name) {
            Some(vs) => Some(vs.0),
            None => None::<u64>,
        },
    decreases props.len(),
{
    if props.len() > 0 {
        lemma_pair_strip(props.drop_last(), strengths.drop_last(), name);
    }
}

/// The strength of the current winner for `name`, or `None` when no entry
/// for `name` exists yet.
fn lookup_strength(props: &Vec<StyleProp>, strengths: &Vec<usize>, name: &Vec<u8>) -> (r: Option<
    usize,
>)
    requires
        props@.len() == strengths@.len(),
    ensures
        ({
            let p = pair_lookup(props@, strengths@, name@);
            match r {
                Some(cs) => p matches Some(q) && q.1 == cs as int,
                None => p is None,
            }
        }),
{
    let mut j: usize = props.len();
    proof {
        assert(props@.take(j as int) =~= props@);
        assert(strengths@.take(j as int) =~= strengths@);
    }
    while j > 0
        invariant
            props@.len() == strengths@.len(),
            j <= props@.len(),
            pair_lookup(props@, strengths@, name@) == pair_lookup(
                props@.take(j as int),
                strengths@.take(j as int),
                name@,
            ),
        decreases j,
    {
        j -= 1;
        proof {
            assert(props@.take(j as int + 1).drop_last() =~= props@.take(j as int));
            assert(strengths@.take(j as int + 1).drop_last() =~= strengths@.take(j as int));
            assert(props@.take(j as int + 1).last() == props@[j as int]);
            assert(strengths@.take(j as int + 1).last() == strengths@[j as int]);
        }
        if bytes_eq(&props[j].name, name) {
            return Some(strengths[j]);
        }
    }
    proof {
        assert(props@.take(0).len() == 0);
    }
    None
}

/// A copy of an identifier's bytes.
pub fn copy_bytes(v: &Vec<u8>) -> (r: Vec<u8>)
    ensures
        r@ == v@,
{
    let mut r: Vec<u8> = Vec::new();
    let n = v.len();
    let mut i: usize = 0;
    while i < n
        invariant
            n == v@.len(),
            i <= n,
            r@ =~= v@.take(i as int),
        decreases n - i,
    {
        r.push(v[i]);
        i += 1;
    }
    proof {
        assert(v@.take(n as int) =~= v@);
    }
    r
}

/// The style record the cascade assigns to node `i`: for every property
/// name, its resolved value among all matching rules.
fn compute_node_style(rules: &Vec<Rule>, tree: &Vec<ArrayNode>, i: usize) -> (st: Style)
    requires
        tree_wf(tree@),
        i < tree@.len(),
    ensures
        forall|name: Seq<u8>| #[trigger] style_lookup(st.props@, name) == resolved_value(
            rules@.map_values(|r: Rule| r@),
            tree@,
            i as int,
            name,
        ),
{
    let ghost rulesv = rules@.map_values(|r: Rule| r@);
    let ghost treev = tree@;
    let mut props: Vec<StyleProp> = Vec::new();
    let mut strengths: Vec<usize> = Vec::new();
    let nrules = rules.len();
    let mut k: usize = 0;
    while k < nrules
        invariant
            tree_wf(treev),
            treev == tree@,
            i < treev.len(),
            rulesv == rules@.map_values(|r: Rule| r@),
            nrules == rules@.len(),
            k <= nrules,
            props@.len() == strengths@.len(),
            forall|name: Seq<u8>| #[trigger] pair_lookup(props@, strengths@, name)
                == resolve_upto(rulesv, treev, i as int, k as int, name),
        decreases nrules - k,
    {
        proof {
            assert(rulesv[k as int] == rules@[k as int]@);
        }
        let matched = rules[k].selector.matches(tree, i);
        if matched {
            let s: usize = rules[k].selector.specificity();
            let ghost declsv = rulesv[k as int].decls;
            let ndecls = rules[k].declarations.len();
            let mut m: usize = 0;
            proof {
                assert(declsv.take(0).len() == 0);
            }
            while m < ndecls
                invariant
                    tree_wf(treev),
                    treev == tree@,
                    i < treev.len(),
                    rulesv == rules@.map_values(|r: Rule| r@),
                    nrules == rules@.len(),
                    k < nrules,
                    rulesv[k as int] == rules@[k as int]@,
                    s as int == spec_specificity(rulesv[k as int].parts),
                    declsv == rulesv[k as int].decls,
                    ndecls == rules@[k as int].declarations@.len(),
                    ndecls == declsv.len(),
                    m <= ndecls,
                    props@.len() == strengths@.len(),
                    forall|name: Seq<u8>| #[trigger] pair_lookup(props@, strengths@, name)
                        == fold_decls(
                        declsv.take(m as int),
                        s as int,
                        resolve_upto(rulesv, treev, i as int, k as int, name),
                        name,
                    ),
                decreases ndecls - m,
            {
                proof {
                    assert(declsv[m as int] == rules@[k as int].declarations@[m as int]@);
                }
                let cur = lookup_strength(&props, &strengths, &rules[k].declarations[m].name);
                let replace = match cur {
                    None => true,
                    Some(cs) => s >= cs,
                };
                let ghost props0 = props@;
                let ghost strengths0 = strengths@;
                let ghost dname = declsv[m as int].name;
                if replace {
                    let name_copy = copy_bytes(&rules[k].declarations[m].name);
                    let value = rules[k].declarations[m].value;
                    props.push(StyleProp { name: name_copy, value });
                    strengths.push(s);
                    proof {
                        assert(props@.drop_last() =~= props0);
                        assert(strengths@.drop_last() =~= strengths0);
                    }
                }
                proof {
                    assert(declsv.take(m as int + 1).drop_last() =~= declsv.take(m as int));
                    assert(declsv.take(m as int + 1).last() == declsv[m as int]);
                    assert forall|name: Seq<u8>| #[trigger] pair_lookup(props@, strengths@, name)
                        == fold_decls(
                        declsv.take(m as int + 1),
                        s as int,
                        resolve_upto(rulesv, treev, i as int, k as int, name),
                        name,
                    ) by {
                        let prev = resolve_upto(rulesv, treev, i as int, k as int, name);
                        let prior = fold_decls(declsv.take(m as int), s as int, prev, name);
                        assert(pair_lookup(props0, strengths0, name) == prior);
                    }
                }
                m += 1;
            }
            proof {
                assert(declsv.take(ndecls as int) =~= declsv);
                assert forall|name: Seq<u8>| #[trigger] pair_lookup(props@, strengths@, name)
                    == resolve_upto(rulesv, treev, i as int, k as int + 1, name) by {
                    assert(resolve_upto(rulesv, treev, i as int, k as int + 1, name)
                        == fold_decls(
                        rulesv[k as int].decls,
                        spec_specificity(rulesv[k as int].parts),
                        resolve_upto(rulesv, treev, i as int, k as int, name),
                        name,
                    ));
                }
            }
        } else {
            proof {
                assert forall|name: Seq<u8>| #[trigger] pair_lookup(props@, strengths@, name)
                    == resolve_upto(rulesv, treev, i as int, k as int + 1, name) by {
                    assert(resolve_upto(rulesv, treev, i as int, k as int + 1, name)
                        == resolve_upto(rulesv, treev, i as int, k as int, name));
                }
            }
        }
        k += 1;
    }
    let st = Style { props };
    proof {
        assert forall|name: Seq<u8>| #[trigger] style_lookup(st.props@, name) == resolved_value(
            rulesv,
            treev,
            i as int,
            name,
        ) by {
            lemma_pair_strip(st.props@, strengths@, name);
        }
    }
    st
}

/// A parsed stylesheet: its rules in declaration order.
#[derive(Debug, Clone)]
pub struct Stylesheet {
    pub rules: Vec<Rule>,
}

impl Stylesheet {
    /// The cascade pass: rewrite every node's style record in place so
    /// that, for every property name, it holds the resolved value among
    /// all rules matching that node. Topology, names and classes are
    /// untouched.
    pub fn style(&self, tree: &mut Vec<ArrayNode>)
        requires
            tree_wf(old(tree)@),
        ensures
            final(tree)@.len() == old(tree)@.len(),
            tree_wf(final(tree)@),
            forall|j: int| 0 <= j < old(tree)@.len() ==> {
                &&& (#[trigger] final(tree)@[j]).name == old(tree)@[j].name
                &&& final(tree)@[j].classes == old(tree)@[j].classes
                &&& final(tree)@[j].parent == old(tree)@[j].parent
            },
            forall|j: int, name: Seq<u8>| 0 <= j < old(tree)@.len() ==> #[trigger] style_lookup(
                final(tree)@[j].style.props@,
                name,
            ) == resolved_value(self.rules@.map_values(|r: Rule| r@), old(tree)@, j, name),
    {
        let ghost rulesv = self.rules@.map_values(|r: Rule| r@);
        let ghost treev = tree@;
        let n = tree.len();
        let mut styles: Vec<Style> = Vec::new();
        let mut i: usize = 0;
        while i < n
            invariant
                tree_wf(treev),
                treev == tree@,
                n == treev.len(),
                i <= n,
                rulesv == self.rules@.map_values(|r: Rule| r@),
                styles@.len() == i,
                forall|j: int, name: Seq<u8>| 0 <= j < i ==> #[trigger] style_lookup(
                    styles@[j].props@,
                    name,
                ) == resolved_value(rulesv, treev, j, name),
            decreases n - i,
        {
            let st = compute_node_style(&self.rules, tree, i);
            styles.push(st);
            i += 1;
        }
        let ghost styles0 = styles@;
        let mut out: Vec<ArrayNode> = Vec::new();
        let mut idx: usize = 0;
        while idx < n
            invariant
                n == treev.len(),
                idx <= n,
                tree@ =~= treev.skip(idx as int),
                styles@ =~= styles0.skip(idx as int),
                styles0.len() == n,
                forall|j: int, name: Seq<u8>| 0 <= j < n ==> #[trigger] style_lookup(
                    styles0[j].props@,
                    name,
                ) == resolved_value(rulesv, treev, j, name),
                out@.len() == idx,
                forall|j: int| 0 <= j < idx ==> {
                    &&& (#[trigger] out@[j]).name == treev[j].name
                    &&& out@[j].classes == treev[j].classes
                    &&& out@[j].parent == treev[j].parent
                    &&& out@[j].style == styles0[j]
                },
            decreases n - idx,
        {
            let mut node = tree.remove(0);
            let st = styles.remove(0);
            node.style = st;
            out.push(node);
            proof {
                assert(tree@ =~= treev.skip(idx as int + 1));
                assert(styles@ =~= styles0.skip(idx as int + 1));
            }
            idx += 1;
        }
        proof {
            assert forall|j: int|
                0 <= j < out@.len() implies (match (#[trigger] out@[j]).parent {
                Some(p) => (p as int) < j,
                None => true,
            }) by {
                assert(out@[j].parent == treev[j].parent);
                assert(match treev[j].parent {
                    Some(p) => (p as int) < j,
                    None => true,
                });
            }
        }
        *tree = out;
    }
}

/// The value a single rule's declaration list assigns to `name`: its last
/// declaration of `name`, if any.
pub open spec fn decl_value(decls: Seq<DeclV>, name: Seq<u8>) -> Option<u64>
    decreases decls.len(),
{
    if decls.len() == 0 {
        None
    } else if decls.last().name == name {
        Some(decls.last().value)
    } else {
        decl_value(decls.drop_last(), name)
    }
}

/// Whether rule `k` both matches node `i` and declares property `name`.
pub open spec fn rule_applies(
    rules: Seq<RuleV>,
    tree: Seq<ArrayNode>,
    i: int,
    name: Seq<u8>,
    k: int,
) -> bool {
    &&& 0 <= k < rules.len()
    &&& sel_matches(tree, rules[k].parts, i)
    &&& decl_value(rules[k].decls, name) is Some
}

/// Folding one rule's declarations either installs the rule's last
/// declaration of `name` (when the rule declares it and the standing winner
/// is not strictly more specific) or leaves the standing winner.
proof fn lemma_fold_decls_eval(decls: Seq<DeclV>, s: int, prev: Option<(u64, int)>, name: Seq<u8>)
    ensures
        fold_decls(decls, s, prev, name) == (match decl_value(decls, name) {
            Some(v) => if prev is None || s >= prev->Some_0.1 {
                Some((v, s))
            } else {
                prev
            },
            None => prev,
        }),
    decreases decls.len(),
{
    if decls.len() > 0 {
        lemma_fold_decls_eval(decls.drop_last(), s, prev, name);
    }
}

/// What the cascade's resolution state means after `n` rules: it is empty
/// exactly when no rule so far applies; otherwise it holds the value of an
/// applying rule whose specificity no other applying rule exceeds, and
/// which no later applying rule of equal specificity follows.
pub proof fn lemma_cascade_characterization(
    rules: Seq<RuleV>,
    tree: Seq<ArrayNode>,
    i: int,
    name: Seq<u8>,
    n: int,
)
    requires
        0 <= n <= rules.len(),
    ensures
        (resolve_upto(rules, tree, i, n, name) is None <==> (forall|k: int|
            0 <= k < n ==> !rule_applies(rules, tree, i, name, k))),
        resolve_upto(rules, tree, i, n, name) matches Some(vs) ==> (exists|k: int|
            {
                &&& 0 <= k < n
                &&& #[trigger] rule_applies(rules, tree, i, name, k)
                &&& spec_specificity(rules[k].parts) == vs.1
                &&& decl_value(rules[k].decls, name) == Some(vs.0)
                &&& forall|k2: int|
                    0 <= k2 < n && #[trigger] rule_applies(rules, tree, i, name, k2)
                        ==> spec_specificity(rules[k2].parts) <= vs.1
                &&& forall|k2: int|
                    k < k2 < n && #[trigger] rule_applies(rules, tree, i, name, k2)
                        ==> spec_specificity(rules[k2].parts) < vs.1
            }),
    decreases n,
{
    if n > 0 {
        lemma_cascade_characterization(rules, tree, i, name, n - 1);
        let prev = resolve_upto(rules, tree, i, n - 1, name);
        let r = rules[n - 1];
        let s = spec_specificity(r.parts);
        if sel_matches(tree, r.parts, i) {
            lemma_fold_decls_eval(r.decls, s, prev, name);
            match decl_value(r.decls, name) {
                Some(v) => {
                    assert(rule_applies(rules, tree, i, name, n - 1));
                    if prev is None || s >= prev->Some_0.1 {
                        let vs = (v, s);
                        assert(resolve_upto(rules, tree, i, n, name) == Some(vs));
                        assert forall|k2: int|
                            0 <= k2 < n && #[trigger] rule_applies(rules, tree, i, name, k2)
                                implies spec_specificity(rules[k2].parts) <= s by {
                            if k2 < n - 1 {
                                assert(prev is Some);
                            }
                        }
                    } else {
                        let vs = prev->Some_0;
                        let k = choose|k: int|
                            {
                                &&& 0 <= k < n - 1
                                &&& #[trigger] rule_applies(rules, tree, i, name, k)
                                &&& spec_specificity(rules[k].parts) == vs.1
                                &&& decl_value(rules[k].decls, name) == Some(vs.0)
                                &&& forall|k2: int|
                                    0 <= k2 < n - 1 && #[trigger] rule_applies(
                                        rules,
                                        tree,
                                        i,
                                        name,
                                        k2,
                                    ) ==> spec_specificity(rules[k2].parts) <= vs.1
                                &&& forall|k2: int|
                                    k < k2 < n - 1 && #[trigger] rule_applies(
                                        rules,
                                        tree,
                                        i,
                                        name,
                                        k2,
                                    ) ==> spec_specificity(rules[k2].parts) < vs.1
                            };
                        assert(rule_applies(rules, tree, i, name, k));
                    }
                },
                None => {
                    assert(!rule_applies(rules, tree, i, name, n - 1));
                },
            }
        } else {
            assert(!rule_applies(rules, tree, i, name, n - 1));
        }
    }
}

/// Specificity outranks declaration order: when one applying rule is
/// strictly more specific than every other applying rule, its declared
/// value is the resolved value, wherever the rules stand in the sheet.
pub proof fn lemma_higher_specificity_outranks(
    rules: Seq<RuleV>,
    tree: Seq<ArrayNode>,
    i: int,
    name: Seq<u8>,
    w: int,
)
    requires
        rule_applies(rules, tree, i, name, w),
        forall|k: int|
            0 <= k < rules.len() && k != w && #[trigger] rule_applies(rules, tree, i, name, k)
                ==> spec_specificity(rules[k].parts) < spec_specificity(rules[w].parts),
    ensures
        resolved_value(rules, tree, i, name) == decl_value(rules[w].decls, name),
{
    let n = rules.len() as int;
    lemma_cascade_characterization(rules, tree, i, name, n);
    assert(resolve_upto(rules, tree, i, n, name) is Some);
    let vs = resolve_upto(rules, tree, i, n, name)->Some_0;
    let k = choose|k: int|
        {
            &&& 0 <= k < n
            &&& #[trigger] rule_applies(rules, tree, i, name, k)
            &&& spec_specificity(rules[k].parts) == vs.1
            &&& decl_value(rules[k].decls, name) == Some(vs.0)
            &&& forall|k2: int|
                0 <= k2 < n && #[trigger] rule_applies(rules, tree, i, name, k2)
                    ==> spec_specificity(rules[k2].parts) <= vs.1
            &&& forall|k2: int|
                k < k2 < n && #[trigger] rule_applies(rules, tree, i, name, k2)
                    ==> spec_specificity(rules[k2].parts) < vs.1
        };
    if k != w {
        assert(spec_specificity(rules[k].parts) < spec_specificity(rules[w].parts));
        assert(spec_specificity(rules[w].parts) <= vs.1);
    }
}

/// Among applying rules of equal, maximal specificity the later-declared
/// rule wins.
pub proof fn lemma_later_declaration_wins(
    rules: Seq<RuleV>,
    tree: Seq<ArrayNode>,
    i: int,
    name: Seq<u8>,
    w: int,
)
    requires
        rule_applies(rules, tree, i, name, w),
        forall|k: int|
            0 <= k < rules.len() && #[trigger] rule_applies(rules, tree, i, name, k)
                ==> spec_specificity(rules[k].parts) <= spec_specificity(rules[w].parts),
        forall|k: int|
            w < k < rules.len() ==> !rule_applies(rules, tree, i, name, k),
    ensures
        resolved_value(rules, tree, i, name) == decl_value(rules[w].decls, name),
{
    let n = rules.len() as int;
    lemma_cascade_characterization(rules, tree, i, name, n);
    assert(resolve_upto(rules, tree, i, n, name) is Some);
    let vs = resolve_upto(rules, tree, i, n, name)->Some_0;
    let k = choose|k: int|
        {
            &&& 0 <= k < n
            &&& #[trigger] rule_applies(rules, tree, i, name, k)
            &&& spec_specificity(rules[k].parts) == vs.1
            &&& decl_value(rules[k].decls, name) == Some(vs.0)
            &&& forall|k2: int|
                0 <= k2 < n && #[trigger] rule_applies(rules, tree, i, name, k2)
                    ==> spec_specificity(rules[k2].parts) <= vs.1
            &&& forall|k2: int|
                k < k2 < n && #[trigger] rule_applies(rules, tree, i, name, k2)
                    ==> spec_specificity(rules[k2].parts) < vs.1
        };
    if k != w {
        assert(k < w);
        assert(spec_specificity(rules[w].parts) < vs.1);
        assert(spec_specificity(rules[k].parts) <= spec_specificity(rules[w].parts));
    }
}

/// A stylesheet holding one rule whose selector is solely the universal
/// component assigns its declared value to every node of every tree, and
/// touches no other property.
pub proof fn lemma_universal_rule_styles_every_node(
    rules: Seq<RuleV>,
    tree: Seq<ArrayNode>,
    i: int,
    name: Seq<u8>,
    value: u64,
)
    requires
        rules.len() == 1,
        rules[0].parts == seq![
            PartV { comb: Combinator::Descendant, comp: CompV::Universal },
        ],
        rules[0].decls == seq![DeclV { name, value }],
        0 <= i < tree.len(),
    ensures
        resolved_value(rules, tree, i, name) == Some(value),
        forall|other: Seq<u8>| other != name ==> resolved_value(rules, tree, i, other) is None,
{
    lemma_universal_selector_matches_all(tree, i);
    let decls = rules[0].decls;
    assert(decls.last() == DeclV { name, value });
    assert(decls.drop_last().len() == 0);
    assert(spec_specificity(rules[0].parts) == comp_weight(CompV::Universal) + spec_specificity(
        rules[0].parts.drop_last(),
    ));
    assert(rules[0].parts.drop_last().len() == 0);
    assert(spec_specificity(rules[0].parts.drop_last()) == 0);
    assert(spec_specificity(rules[0].parts) == 0);
    assert(resolve_upto(rules, tree, i, 0, name) == None::<(u64, int)>);
    assert(resolve_upto(rules, tree, i, 1, name) == fold_decls(decls, 0, None, name));
    assert(fold_decls(decls.drop_last(), 0, None, name) == None::<(u64, int)>);
    assert(fold_decls(decls, 0, None, name) == Some((value, 0int)));
    assert forall|other: Seq<u8>| other != name implies resolved_value(
        rules,
        tree,
        i,
        other,
    ) is None by {
        assert(fold_decls(decls.drop_last(), 0, None, other) == None::<(u64, int)>);
        assert(fold_decls(decls, 0, None, other) == None::<(u64, int)>);
        assert(resolve_upto(rules, tree, i, 0, other) == None::<(u64, int)>);
        assert(resolve_upto(rules, tree, i, 1, other) == fold_decls(decls, 0, None, other));
    }
}

} // verus!
