//! The arena-indexed node tree the cascade runs over: nodes sit in a flat,
//! pre-order-indexed sequence and point at their parent by index, so
//! ancestors always precede descendants.

use vstd::prelude::*;
use vstd::string::StringSliceAdditionalSpecFns;

verus! {

/// One resolved property of a node's style record.
#[derive(Debug, Clone)]
pub struct StyleProp {
    pub name: Vec<u8>,
    pub value: u64,
}

/// A node's style record: the resolved property values the cascade wrote.
#[derive(Debug, Clone)]
pub struct Style {
    pub props: Vec<StyleProp>,
}

/// The value a style record holds for a property name: the latest entry
/// with that name, or `None` when the cascade left the property unset.
pub open spec fn style_lookup(props: Seq<StyleProp>, name: Seq<u8>) -> Option<u64>
    decreases props.len(),
{
    if props.len() == 0 {
        None
    } else if props.last().name@ == name {
        Some(props.last().value)
    } else {
        style_lookup(props.drop_last(), name)
    }
}

/// Byte-wise equality of two identifiers.
pub fn bytes_eq(a: &Vec<u8>, b: &Vec<u8>) -> (r: bool)
    ensures
        r == (a@ == b@),
{
    if a.len() != b.len() {
        proof {
            assert(a@.len() != b@.len());
        }
        return false;
    }
    let n = a.len();
    let mut i: usize = 0;
    while i < n
        invariant
            n == a@.len() == b@.len(),
            i <= n,
            forall|k: int| 0 <= k < i ==> a@[k] == b@[k],
        decreases n - i,
    {
        if a[i] != b[i] {
            return false;
        }
        i += 1;
    }
    proof {
        assert(a@ =~= b@);
    }
    true
}

impl Style {
    /// A fresh, empty style record: every property is unset.
    pub fn new() -> (s: Style)
        ensures
            s.props@ =~= Seq::<StyleProp>::empty(),
    {
        Style { props: Vec::new() }
    }

    /// The resolved value of property `name`, or `None` when unset.
    pub fn get(&self, name: &Vec<u8>) -> (r: Option<u64>)
        ensures
            r == style_lookup(self.props@, name@),
    {
        let mut i: usize = self.props.len();
        proof {
            assert(self.props@.take(i as int) =~= self.props@);
        }
        while i > 0
            invariant
                i <= self.props@.len(),
                style_lookup(self.props@, name@) == style_lookup(self.props@.take(i as int), name@),
            decreases i,
        {
            i -= 1;
            proof {
                assert(self.props@.take(i as int + 1).last() == self.props@[i as int]);
                assert(self.props@.take(i as int + 1).drop_last() =~= self.props@.take(i as int));
            }
            if bytes_eq(&self.props[i].name, name) {
                return Some(self.props[i].value);
            }
        }
        proof {
            assert(self.props@.take(0).len() == 0);
        }
        None
    }

    /// The resolved height, in whole pixels, or `None` when no rule set it.
    pub fn height(&self) -> (r: Option<u64>)
        ensures
            r == style_lookup(self.props@, "height".spec_bytes()),
    {
        let name = "height".as_bytes_vec();
        self.get(&name)
    }
}

/// A tree node: its tag name, its class list, the index of its parent (or
/// `None` for the root), and its mutable style record.
#[derive(Debug, Clone)]
pub struct ArrayNode {
    pub name: Vec<u8>,
    pub classes: Vec<Vec<u8>>,
    pub parent: Option<usize>,
    pub style: Style,
}

/// A node sequence is well formed when every parent index points strictly
/// before the node itself, as pre-order construction guarantees.
pub open spec fn tree_wf(tree: Seq<ArrayNode>) -> bool {
    forall|j: int|
        0 <= j < tree.len() ==> match #[trigger] tree[j].parent {
            Some(p) => (p as int) < j,
            None => true,
        }
}

impl ArrayNode {
    /// A node whose tag name and single class are both `name`, with an
    /// empty style record.
    pub fn new(name: &str, parent: Option<usize>) -> (n: ArrayNode)
        ensures
            n.name@ == name.spec_bytes(),
            n.classes@.len() == 1,
            n.classes@[0]@ == name.spec_bytes(),
            n.parent == parent,
            n.style.props@ =~= Seq::<StyleProp>::empty(),
    {
        let bytes = name.as_bytes_vec();
        let class_bytes = name.as_bytes_vec();
        let mut classes: Vec<Vec<u8>> = Vec::new();
        classes.push(class_bytes);
        ArrayNode { name: bytes, classes, parent, style: Style::new() }
    }

    /// Add a class to the node's class list.
    pub fn add_class(&mut self, class: &str)
        ensures
            final(self).classes@.len() == old(self).classes@.len() + 1,
            forall|k: int|
                0 <= k < old(self).classes@.len() ==> final(self).classes@[k]
                    == old(self).classes@[k],
            final(self).classes@.last()@ == class.spec_bytes(),
            final(self).name == old(self).name,
            final(self).parent == old(self).parent,
            final(self).style == old(self).style,
    {
        self.classes.push(class.as_bytes_vec());
    }
}

} // verus!
