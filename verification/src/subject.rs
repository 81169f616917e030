//! Subjects arranged as a tree: the nodes that clients edit, and the values they stand for.
use vstd::prelude::*;

verus! {

/// Where a subject of the hierarchy came from.
#[derive(Clone, Copy, Debug, PartialEq, Eq, Structural)]
pub enum SubjectSource {
    /// Reported by the NATS server itself.
    Server,
    /// Entered by a user.
    User,
}

/// One subject of a hierarchy, with the subjects below it.
#[derive(Debug)]
pub struct SubjectTreeNode {
    pub id: String,
    /// The full subject, from its first token on.
    pub subject_str: String,
    pub subjects: Vec<SubjectTreeNode>,
    pub selected: bool,
    pub source: SubjectSource,
}

/// The mathematical value of a [`SubjectTreeNode`].
#[verifier::ext_equal]
pub struct SubjectTree {
    pub id: Seq<char>,
    pub subject: Seq<char>,
    pub children: Seq<SubjectTree>,
    pub selected: bool,
    pub source: SubjectSource,
}

/// The tree that a node and its descendants stand for.
pub open spec fn tree_of(node: SubjectTreeNode) -> SubjectTree
    decreases node,
{
    SubjectTree {
        id: node.id@,
        subject: node.subject_str@,
        children: Seq::new(
            node.subjects@.len(),
            |i: int|
                if 0 <= i < node.subjects@.len() {
                    tree_of(node.subjects@[i])
                } else {
                    arbitrary()
                },
        ),
        selected: node.selected,
        source: node.source,
    }
}

impl View for SubjectTreeNode {
    type V = SubjectTree;

    open spec fn view(&self) -> SubjectTree {
        tree_of(*self)
    }
}

/// The trees that a list of nodes stands for.
pub open spec fn forest(nodes: Seq<SubjectTreeNode>) -> Seq<SubjectTree> {
    nodes.map_values(|node: SubjectTreeNode| node@)
}

/// The texts that a list of strings stands for.
pub open spec fn texts(strings: Seq<String>) -> Seq<Seq<char>> {
    strings.map_values(|s: String| s@)
}

pub proof fn lemma_view_children(node: SubjectTreeNode)
    ensures
        node@.children == forest(node.subjects@),
{
    assert(node@.children =~= forest(node.subjects@));
}

/// The subjects of a tree, each node's before those below it.
pub open spec fn tree_subjects(tree: SubjectTree) -> Seq<Seq<char>>
    decreases tree, 1nat,
{
    seq![tree.subject] + forest_subjects(tree.children)
}

/// The subjects of the trees of a list, tree by tree.
pub open spec fn forest_subjects(trees: Seq<SubjectTree>) -> Seq<Seq<char>>
    decreases trees, 0nat,
{
    if trees.len() == 0 {
        Seq::empty()
    } else {
        forest_subjects(trees.drop_last()) + tree_subjects(trees.last())
    }
}

/// The tree of a node holds what the node holds, and the trees of the nodes below it in their
/// order.
pub proof fn law_tree_holds_what_the_node_holds(node: SubjectTreeNode)
    ensures
        node@.id == node.id@,
        node@.subject == node.subject_str@,
        node@.selected == node.selected,
        node@.source == node.source,
        node@.children.len() == node.subjects@.len(),
        forall|i: int|
            0 <= i < node.subjects@.len() ==> #[trigger] node@.children[i] == node.subjects@[i]@,
{
}

/// A list of nodes stands for their trees, and a list of strings for their texts, one for one.
pub proof fn law_lists_stand_for_their_items(nodes: Seq<SubjectTreeNode>, strings: Seq<String>)
    ensures
        forest(nodes).len() == nodes.len(),
        forall|i: int| 0 <= i < nodes.len() ==> #[trigger] forest(nodes)[i] == nodes[i]@,
        texts(strings).len() == strings.len(),
        forall|i: int| 0 <= i < strings.len() ==> #[trigger] texts(strings)[i] == strings[i]@,
{
}

/// The subjects of two lists of trees, one after the other, are those of the first list followed by
/// those of the second.
pub proof fn law_subjects_of_joined_lists(first: Seq<SubjectTree>, second: Seq<SubjectTree>)
    ensures
        forest_subjects(first + second) == forest_subjects(first) + forest_subjects(second),
    decreases second.len(),
{
    if second.len() == 0 {
        assert(first + second == first);
        assert(forest_subjects(second) == Seq::<Seq<char>>::empty());
    } else {
        assert((first + second).drop_last() == first + second.drop_last());
        law_subjects_of_joined_lists(first, second.drop_last());
        assert((first + second).last() == second.last());
    }
}

/// A tree lists its own subject first, selected or not, and then all that its children list; a list
/// of one tree lists what the tree lists, and an empty list nothing.
pub proof fn law_tree_lists_itself_then_its_children(tree: SubjectTree)
    ensures
        tree_subjects(tree).len() == 1 + forest_subjects(tree.children).len(),
        tree_subjects(tree)[0] == tree.subject,
        tree_subjects(tree).drop_first() == forest_subjects(tree.children),
        forest_subjects(seq![tree]) == tree_subjects(tree),
        forest_subjects(Seq::empty()).len() == 0,
{
    assert(tree_subjects(tree).drop_first() == forest_subjects(tree.children));
    let one = seq![tree];
    assert(one.drop_last() == Seq::<SubjectTree>::empty());
    assert(forest_subjects(one) == forest_subjects(one.drop_last()) + tree_subjects(tree));
    assert(forest_subjects(Seq::empty()).len() == 0);
    assert(forest_subjects(one) == tree_subjects(tree));
}

impl SubjectTreeNode {
    /// The subject of the node and those of all its descendants, each before those below it.
    pub fn flatten(&self) -> (subjects: Vec<String>)
        ensures
            texts(subjects@) == tree_subjects(self@),
        decreases self,
    {
        let mut subjects: Vec<String> = Vec::new();
        subjects.push(self.subject_str.clone());
        let mut i: usize = 0;
        assert(forest(self.subjects@).take(0) == Seq::<SubjectTree>::empty());
        while i < self.subjects.len()
            invariant
                i <= self.subjects.len(),
                texts(subjects@) == seq![self.subject_str@] + forest_subjects(
                    forest(self.subjects@).take(i as int),
                ),
            decreases self.subjects.len() - i,
        {
            let mut below = self.subjects[i].flatten();
            proof {
                let trees = forest(self.subjects@);
                assert(trees.take(i + 1).drop_last() == trees.take(i as int));
                assert(texts(subjects@ + below@) == texts(subjects@) + texts(below@));
            }
            subjects.append(&mut below);
            i = i + 1;
        }
        proof {
            lemma_view_children(*self);
            assert(forest(self.subjects@).take(i as int) == self@.children);
        }
        subjects
    }
}

} // verus!
