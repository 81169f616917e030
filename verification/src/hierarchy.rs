//! Building the subject hierarchy of a server from stored and reported subjects.
use vstd::prelude::*;
use vstd::string::*;

use crate::subject::{SubjectSource, SubjectTreeNode};
use crate::subject::{SubjectTree, forest, lemma_view_children, texts};

verus! {

/// A subscription that a server reports.
#[derive(Debug)]
pub struct Subscription {
    pub subject: String,
}

/// What a server answers when asked for its subscriptions.
#[derive(Debug)]
pub struct SubszResponse {
    pub subscriptions_list: Vec<Subscription>,
}

/// The parts of `s` that end just before one of its dots, shortest first.
pub open spec fn parts_before_dots(s: Seq<char>) -> Seq<Seq<char>>
    decreases s.len(),
{
    if s.len() == 0 {
        Seq::empty()
    } else if s.last() == '.' {
        parts_before_dots(s.drop_last()).push(s.drop_last())
    } else {
        parts_before_dots(s.drop_last())
    }
}

/// The subjects on the way from the top of the hierarchy down to `s`, `s` itself being the last.
pub open spec fn dotted_prefixes(s: Seq<char>) -> Seq<Seq<char>> {
    parts_before_dots(s).push(s)
}

/// `trees[k]` is the first tree of the list whose subject is `subject`.
pub open spec fn is_first(trees: Seq<SubjectTree>, subject: Seq<char>, k: int) -> bool {
    &&& 0 <= k < trees.len()
    &&& trees[k].subject == subject
    &&& forall|j: int| 0 <= j < k ==> (#[trigger] trees[j]).subject != subject
}

pub open spec fn holds_subject(trees: Seq<SubjectTree>, subject: Seq<char>) -> bool {
    exists|k: int| is_first(trees, subject, k)
}

pub open spec fn first_index(trees: Seq<SubjectTree>, subject: Seq<char>) -> int {
    choose|k: int| is_first(trees, subject, k)
}

/// A node as the hierarchy makes it for a subject that it does not hold yet.
pub open spec fn new_tree(
    subject: Seq<char>,
    children: Seq<SubjectTree>,
    source: SubjectSource,
) -> SubjectTree {
    SubjectTree { id: "node_"@ + subject, subject, children, selected: false, source }
}

/// `trees` after a walk down `path`: a subject that is there already is entered as it is, one
/// that is not is appended to its siblings, with the given source.
pub open spec fn insert_path(
    trees: Seq<SubjectTree>,
    path: Seq<Seq<char>>,
    source: SubjectSource,
) -> Seq<SubjectTree>
    decreases path.len(),
{
    if path.len() == 0 {
        trees
    } else if holds_subject(trees, path[0]) {
        let k = first_index(trees, path[0]);
        trees.update(
            k,
            SubjectTree {
                children: insert_path(trees[k].children, path.drop_first(), source),
                ..trees[k]
            },
        )
    } else {
        trees.push(
            new_tree(path[0], insert_path(Seq::empty(), path.drop_first(), source), source),
        )
    }
}

/// `tree` with `path` inserted among its children and all else unchanged.
pub open spec fn insert_below(
    tree: SubjectTree,
    path: Seq<Seq<char>>,
    source: SubjectSource,
) -> SubjectTree {
    SubjectTree { children: insert_path(tree.children, path, source), ..tree }
}

/// A subject on its way into a hierarchy.
pub struct Entry {
    pub subject: Seq<char>,
    pub source: SubjectSource,
}

/// The entries that stored nodes make: of each node its subject and source, and nothing of the
/// nodes below it.
pub open spec fn stored_entries(nodes: Seq<SubjectTreeNode>) -> Seq<Entry> {
    nodes.map_values(
        |node: SubjectTreeNode| Entry { subject: node.subject_str@, source: node.source },
    )
}

/// The entries that the subscriptions reported by a server make.
pub open spec fn reported_entries(subscriptions: Seq<Subscription>) -> Seq<Entry> {
    subscriptions.map_values(
        |s: Subscription| Entry { subject: s.subject@, source: SubjectSource::Server },
    )
}

/// `trees` with all entries inserted, from the first to the last.
pub open spec fn insert_all(trees: Seq<SubjectTree>, entries: Seq<Entry>) -> Seq<SubjectTree>
    decreases entries.len(),
{
    if entries.len() == 0 {
        trees
    } else {
        insert_path(
            insert_all(trees, entries.drop_last()),
            dotted_prefixes(entries.last().subject),
            entries.last().source,
        )
    }
}

/// The hierarchy of a server: stored subjects go in first, then those that the server reports.
pub open spec fn hierarchy(
    stored: Seq<SubjectTreeNode>,
    reported: Seq<Subscription>,
) -> Seq<SubjectTree> {
    insert_all(Seq::empty(), stored_entries(stored) + reported_entries(reported))
}

pub proof fn lemma_first_index(trees: Seq<SubjectTree>, subject: Seq<char>, k: int)
    requires
        is_first(trees, subject, k),
    ensures
        holds_subject(trees, subject),
        first_index(trees, subject) == k,
{
    let j = first_index(trees, subject);
    assert(is_first(trees, subject, j));
    if j < k {
        assert(trees[j].subject != subject);
    } else if k < j {
        assert(trees[k].subject != subject);
    }
}

fn dotted_prefix_strings(subject: &str) -> (prefixes: Vec<String>)
    ensures
        texts(prefixes@) == dotted_prefixes(subject@),
{
    let count: usize = subject.unicode_len();
    let mut prefixes: Vec<String> = Vec::new();
    let mut taken: usize = 0;
    for c in chars: subject.chars()
        invariant
            chars.seq() == subject@,
            taken == chars.index(),
            count == subject@.len(),
            texts(prefixes@) == parts_before_dots(subject@.take(taken as int)),
    {
        assert(subject@.take(taken + 1).drop_last() == subject@.take(taken as int));
        assert(subject@.take(taken + 1).last() == c);
        if c == '.' {
            prefixes.push(subject.substring_char(0, taken).to_owned());
        }
        taken = taken + 1;
    }
    assert(subject@.take(taken as int) == subject@);
    prefixes.push(subject.to_owned());
    prefixes
}

fn position_of(nodes: &Vec<SubjectTreeNode>, subject: &String) -> (found: Option<usize>)
    ensures
        match found {
            Some(k) => is_first(forest(nodes@), subject@, k as int),
            None => !holds_subject(forest(nodes@), subject@),
        },
{
    let mut i: usize = 0;
    while i < nodes.len()
        invariant
            i <= nodes.len(),
            forall|j: int| 0 <= j < i ==> (#[trigger] forest(nodes@)[j]).subject != subject@,
        decreases nodes.len() - i,
    {
        if nodes[i].subject_str == *subject {
            assert(forest(nodes@)[i as int].subject == subject@);
            return Some(i);
        }
        i = i + 1;
    }
    None
}

/// Walks down `path` from `root`, making the nodes that are missing.
fn add_path(root: &mut SubjectTreeNode, path: &Vec<String>, source: SubjectSource)
    ensures
        final(root)@ == insert_below(old(root)@, texts(path@), source),
{
    let ghost whole = texts(path@);
    let ghost target = insert_below(root@, whole, source);
    proof {
        assert(whole.skip(0) == whole);
    }
    let mut current: &mut SubjectTreeNode = root;
    let mut i: usize = 0;
    while i < path.len()
        invariant
            i <= path.len(),
            whole == texts(path@),
            final(current)@ == insert_below(current@, whole.skip(i as int), source)
                ==> after_borrow(*root)@ == target,
        decreases path.len() - i,
    {
        let ghost before = *current;
        let ghost rest = whole.skip(i as int);
        proof {
            assert(rest[0] == path[i as int]@);
            assert(rest.drop_first() == whole.skip(i + 1));
            lemma_view_children(before);
        }
        match position_of(&current.subjects, &path[i]) {
            Some(k) => {
                let child = &mut current.subjects[k];
                proof {
                    lemma_first_index(before@.children, rest[0], k as int);
                    assert(child@ == before@.children[k as int]);
                    assert(after_borrow(*current)@.children == before@.children.update(
                        k as int,
                        final(child)@,
                    ));
                }
                current = child;
            },
            None => {
                let k: usize = current.subjects.len();
                current.subjects.push(
                    SubjectTreeNode {
                        id: "node_".to_owned().concat(path[i].as_str()),
                        subject_str: path[i].clone(),
                        subjects: Vec::new(),
                        selected: false,
                        source,
                    },
                );
                let child = &mut current.subjects[k];
                proof {
                    assert(child@.children == Seq::<SubjectTree>::empty());
                    assert(child@ == new_tree(rest[0], Seq::empty(), source));
                    assert(after_borrow(*current)@.children == before@.children.push(
                        final(child)@,
                    ));
                }
                current = child;
            },
        }
        i = i + 1;
    }
}

/// Adds a subject below `root`, with a node for each of its dotted prefixes. Of `subject` only
/// the text and the source count.
pub fn add_subject_to_hierarchy(root: &mut SubjectTreeNode, subject: SubjectTreeNode)
    ensures
        final(root)@ == insert_below(
            old(root)@,
            dotted_prefixes(subject.subject_str@),
            subject.source,
        ),
{
    let path = dotted_prefix_strings(subject.subject_str.as_str());
    add_path(root, &path, subject.source);
}

/// Arranges the stored subjects and those that the server reports in one hierarchy.
pub fn build_subject_hierarchy(
    subsz: SubszResponse,
    existing_subjects: Vec<SubjectTreeNode>,
) -> (subjects: Vec<SubjectTreeNode>)
    ensures
        forest(subjects@) == hierarchy(existing_subjects@, subsz.subscriptions_list@),
{
    let ghost stored = stored_entries(existing_subjects@);
    let ghost reported = reported_entries(subsz.subscriptions_list@);
    let mut root = SubjectTreeNode {
        id: "root".to_owned(),
        subject_str: "".to_owned(),
        subjects: Vec::new(),
        selected: false,
        source: SubjectSource::Server,
    };
    assert(root@.children == Seq::<SubjectTree>::empty());
    for subject in nodes: existing_subjects
        invariant
            stored == stored_entries(nodes.seq()),
            root@.children == insert_all(Seq::empty(), stored.take(nodes.index())),
    {
        proof {
            assert(stored.take(nodes.index() + 1).drop_last() == stored.take(nodes.index()));
        }
        add_subject_to_hierarchy(&mut root, subject);
    }
    assert(stored.take(stored.len() as int) == stored);
    let subscriptions = &subsz.subscriptions_list;
    let mut i: usize = 0;
    while i < subscriptions.len()
        invariant
            i <= subscriptions.len(),
            reported == reported_entries(subscriptions@),
            root@.children == insert_all(Seq::empty(), stored + reported.take(i as int)),
        decreases subscriptions.len() - i,
    {
        proof {
            let entries = stored + reported.take(i + 1);
            assert(entries.drop_last() == stored + reported.take(i as int));
        }
        let path = dotted_prefix_strings(subscriptions[i].subject.as_str());
        add_path(&mut root, &path, SubjectSource::Server);
        i = i + 1;
    }
    assert(reported.take(reported.len() as int) == reported);
    proof {
        lemma_view_children(root);
    }
    root.subjects
}

} // verus!
