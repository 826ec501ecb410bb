use vstd::prelude::*;

verus! {

/// A node of a regular-expression syntax tree: a symbol or an operator tag,
/// with zero, one (`*`) or two (`|`, concatenation) owned children.
#[derive(Debug)]
pub struct Node<T> {
    pub value: T,
    pub left: Option<Box<Node<T>>>,
    pub right: Option<Box<Node<T>>>,
}

impl<T> Node<T> {
    /// The post-order sequence of the values of the tree: left subtree,
    /// right subtree, then the node itself.
    pub open spec fn post_order_seq(&self) -> Seq<T>
        decreases self,
    {
        let l = match self.left {
            Some(b) => b.post_order_seq(),
            None => Seq::empty(),
        };
        let r = match self.right {
            Some(b) => b.post_order_seq(),
            None => Seq::empty(),
        };
        l + r + seq![self.value]
    }
}

impl<T: Copy> Node<T> {
    /// Appends the post-order traversal of the tree to `result`.
    pub fn post_order(&self, result: &mut Vec<T>)
        ensures
            final(result)@ == old(result)@ + self.post_order_seq(),
        decreases self,
    {
        let ghost start = result@;
        if let Some(ref left) = self.left {
            left.post_order(result);
        }
        if let Some(ref right) = self.right {
            right.post_order(result);
        }
        result.push(self.value);
        proof {
            assert(result@ =~= start + self.post_order_seq());
        }
    }
}

impl Node<char> {
    /// A binary node: `value` over the two subtrees `left` and `right`.
    pub fn with_lr(value: char, left: Node<char>, right: Node<char>) -> (r: Node<char>)
        ensures
            r.value == value,
            r.left == Some(Box::new(left)),
            r.right == Some(Box::new(right)),
    {
        Node { value, left: Some(Box::new(left)), right: Some(Box::new(right)) }
    }

    /// A unary node: `value` over the single subtree `left`.
    pub fn with_l(value: char, left: Node<char>) -> (r: Node<char>)
        ensures
            r.value == value,
            r.left == Some(Box::new(left)),
            r.right.is_none(),
    {
        Node { value, left: Some(Box::new(left)), right: None }
    }
}

} // verus!
