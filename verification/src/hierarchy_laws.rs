//! What holds of every subject hierarchy.
use vstd::prelude::*;

use crate::hierarchy::{
    Entry, Subscription, dotted_prefixes, first_index, hierarchy, holds_subject, insert_all,
    insert_below, insert_path, is_first, lemma_first_index, new_tree, parts_before_dots,
    reported_entries, stored_entries,
};
use crate::subject::{
    SubjectSource, SubjectTree, SubjectTreeNode, forest_subjects, tree_subjects,
};

verus! {

/// The tokens of a subject: what stands before, between and after its dots.
pub open spec fn tokens(s: Seq<char>) -> Seq<Seq<char>>
    decreases s.len(),
{
    if s.len() == 0 {
        seq![Seq::empty()]
    } else {
        let before = tokens(s.drop_last());
        if s.last() == '.' {
            before.push(Seq::empty())
        } else {
            before.drop_last().push(before.last().push(s.last()))
        }
    }
}

/// Tokens put together again, with a dot between each two.
pub open spec fn join_dots(parts: Seq<Seq<char>>) -> Seq<char>
    decreases parts.len(),
{
    if parts.len() == 0 {
        Seq::empty()
    } else if parts.len() == 1 {
        parts[0]
    } else {
        join_dots(parts.drop_last()).push('.') + parts.last()
    }
}

/// `s` is `p`, or goes on after `p` with a dot.
pub open spec fn leads_to(p: Seq<char>, s: Seq<char>) -> bool {
    ||| p == s
    ||| p.len() < s.len() && p == s.take(p.len() as int) && s[p.len() as int] == '.'
}

proof fn lemma_tokens(s: Seq<char>)
    ensures
        tokens(s).len() == parts_before_dots(s).len() + 1,
        join_dots(tokens(s)) == s,
        forall|i: int|
            0 <= i < parts_before_dots(s).len() ==> #[trigger] parts_before_dots(s)[i] == join_dots(
                tokens(s).take(i + 1),
            ),
    decreases s.len(),
{
    if s.len() > 0 {
        let t = s.drop_last();
        lemma_tokens(t);
        let n = parts_before_dots(t).len() as int;
        assert(tokens(t).take(n + 1) == tokens(t));
        assert(t.push(s.last()) == s);
        if s.last() == '.' {
            assert(tokens(s).drop_last() == tokens(t));
            assert(join_dots(tokens(s)) == s);
            assert forall|i: int| 0 <= i < parts_before_dots(s).len() implies (
            #[trigger] parts_before_dots(s)[i]) == join_dots(tokens(s).take(i + 1)) by {
                assert(tokens(s).take(i + 1) == tokens(t).take(i + 1));
                if i < n {
                    assert(parts_before_dots(s)[i] == parts_before_dots(t)[i]);
                }
            }
        } else {
            assert(tokens(s).drop_last() == tokens(t).drop_last());
            if tokens(t).len() > 1 {
                assert(join_dots(tokens(s)) == join_dots(tokens(t)).push(s.last()));
            }
            assert forall|i: int| 0 <= i < parts_before_dots(s).len() implies (
            #[trigger] parts_before_dots(s)[i]) == join_dots(tokens(s).take(i + 1)) by {
                assert(tokens(s).take(i + 1) == tokens(t).take(i + 1));
                assert(parts_before_dots(s)[i] == parts_before_dots(t)[i]);
            }
        }
    } else {
        assert(join_dots(tokens(s)) == s);
    }
}

/// The way down to a subject has one step for each of its tokens, and each step is the tokens up
/// to its own, joined by dots.
pub proof fn law_prefixes_are_joined_tokens(s: Seq<char>)
    ensures
        dotted_prefixes(s).len() == tokens(s).len(),
        forall|i: int|
            0 <= i < tokens(s).len() ==> #[trigger] dotted_prefixes(s)[i] == join_dots(
                tokens(s).take(i + 1),
            ),
{
    lemma_tokens(s);
    assert(tokens(s).take(tokens(s).len() as int) == tokens(s));
    assert forall|i: int| 0 <= i < tokens(s).len() implies #[trigger] dotted_prefixes(s)[i]
        == join_dots(tokens(s).take(i + 1)) by {
        if i < parts_before_dots(s).len() {
            assert(dotted_prefixes(s)[i] == parts_before_dots(s)[i]);
        }
    }
}

/// Splitting a subject into its tokens and joining them again gives the subject back, and no
/// token holds a dot.
pub proof fn law_tokens_rejoin(s: Seq<char>)
    ensures
        join_dots(tokens(s)) == s,
        forall|i: int| 0 <= i < tokens(s).len() ==> !(#[trigger] tokens(s)[i]).contains('.'),
    decreases s.len(),
{
    lemma_tokens(s);
    if s.len() > 0 {
        let t = s.drop_last();
        law_tokens_rejoin(t);
        lemma_tokens(t);
        assert forall|i: int| 0 <= i < tokens(s).len() implies !(#[trigger] tokens(s)[i]).contains(
            '.',
        ) by {
            if s.last() == '.' {
                if i < tokens(t).len() {
                    assert(tokens(s)[i] == tokens(t)[i]);
                }
            } else if i < tokens(t).len() - 1 {
                assert(tokens(s)[i] == tokens(t)[i]);
            } else {
                let token = tokens(t).last();
                assert(!tokens(t)[tokens(t).len() - 1].contains('.'));
                assert forall|j: int| 0 <= j < token.push(s.last()).len() implies token.push(
                    s.last(),
                )[j] != '.' by {
                    if j < token.len() {
                        assert(token.contains(token[j]));
                    }
                }
            }
        }
    }
}

/// The parts before the dots of `s` are ordered by length, and there is one for each dot.
proof fn lemma_parts(s: Seq<char>)
    ensures
        forall|i: int|
            0 <= i < parts_before_dots(s).len() ==> {
                let part = #[trigger] parts_before_dots(s)[i];
                part.len() < s.len() && part == s.take(part.len() as int) && s[part.len() as int]
                    == '.'
            },
        forall|i: int, j: int|
            0 <= i < j < parts_before_dots(s).len() ==> (#[trigger] parts_before_dots(s)[i]).len()
                < (#[trigger] parts_before_dots(s)[j]).len(),
        forall|x: int|
            0 <= x < s.len() && s[x] == '.' ==> #[trigger] parts_before_dots(s).contains(s.take(x)),
    decreases s.len(),
{
    if s.len() > 0 {
        let t = s.drop_last();
        lemma_parts(t);
        let parts = parts_before_dots(s);
        let earlier = parts_before_dots(t);
        assert forall|i: int| 0 <= i < earlier.len() implies {
            let part = #[trigger] earlier[i];
            part.len() < t.len() && part == s.take(part.len() as int) && s[part.len() as int] == '.'
        } by {
            let part = earlier[i];
            assert(t.take(part.len() as int) == s.take(part.len() as int));
        }
        assert forall|i: int| 0 <= i < earlier.len() implies parts[i] == #[trigger] earlier[i] by {}
        assert forall|i: int| 0 <= i < parts.len() implies {
            let part = #[trigger] parts[i];
            part.len() < s.len() && part == s.take(part.len() as int) && s[part.len() as int] == '.'
        } by {
            if i < earlier.len() {
                assert(parts[i] == earlier[i]);
            } else {
                assert(t == s.take(t.len() as int));
            }
        }
        assert forall|i: int, j: int| 0 <= i < j < parts.len() implies (#[trigger] parts[i]).len()
            < (#[trigger] parts[j]).len() by {
            assert(parts[i] == earlier[i]);
            if j < earlier.len() {
                assert(parts[j] == earlier[j]);
            }
        }
        assert forall|x: int| 0 <= x < s.len() && s[x] == '.' implies #[trigger] parts.contains(
            s.take(x),
        ) by {
            if x < t.len() {
                assert(t[x] == '.');
                assert(earlier.contains(t.take(x)));
                let i = choose|i: int| 0 <= i < earlier.len() && earlier[i] == t.take(x);
                assert(s.take(x) == t.take(x));
                assert(parts[i] == s.take(x));
            } else {
                assert(s.take(x) == t);
                assert(parts[parts.len() - 1] == s.take(x));
            }
        }
    }
}

/// A subject is on the way down to `s` exactly when `s` is that subject or continues it after a
/// dot.
pub proof fn law_prefixes_lead_to_subject(p: Seq<char>, s: Seq<char>)
    ensures
        dotted_prefixes(s).contains(p) <==> leads_to(p, s),
{
    lemma_parts(s);
    let way = dotted_prefixes(s);
    if way.contains(p) {
        let i = choose|i: int| 0 <= i < way.len() && way[i] == p;
        if i < parts_before_dots(s).len() {
            assert(way[i] == parts_before_dots(s)[i]);
        }
    }
    if leads_to(p, s) {
        if p == s {
            assert(way[way.len() - 1] == s);
        } else {
            assert(parts_before_dots(s).contains(s.take(p.len() as int)));
            let i = choose|i: int|
                0 <= i < parts_before_dots(s).len() && parts_before_dots(s)[i] == p;
            assert(way[i] == p);
        }
    }
}

/// The way down to a subject begins with the way down to each subject that it passes.
pub proof fn law_ways_share_their_beginning(s: Seq<char>, i: int)
    requires
        0 <= i < dotted_prefixes(s).len(),
    ensures
        dotted_prefixes(dotted_prefixes(s)[i]) == dotted_prefixes(s).take(i + 1),
    decreases s.len(),
{
    let way = dotted_prefixes(s);
    if i == way.len() - 1 {
        assert(way.take(i + 1) == way);
    } else {
        let t = s.drop_last();
        assert(i < dotted_prefixes(t).len() && dotted_prefixes(t)[i] == way[i]);
        law_ways_share_their_beginning(t, i);
        assert(dotted_prefixes(t).take(i + 1) == way.take(i + 1));
    }
}

/// `p` is a beginning of the path `q`.
pub open spec fn begins(p: Seq<Seq<char>>, q: Seq<Seq<char>>) -> bool {
    p.len() <= q.len() && p == q.take(p.len() as int)
}

proof fn lemma_begins_iff_leads_to(p: Seq<char>, s: Seq<char>)
    ensures
        begins(dotted_prefixes(p), dotted_prefixes(s)) <==> leads_to(p, s),
{
    let way = dotted_prefixes(s);
    law_prefixes_lead_to_subject(p, s);
    if way.contains(p) {
        let i = choose|i: int| 0 <= i < way.len() && way[i] == p;
        law_ways_share_their_beginning(s, i);
    }
    if begins(dotted_prefixes(p), way) {
        let n = dotted_prefixes(p).len() as int;
        assert(dotted_prefixes(p)[n - 1] == p);
        assert(way[n - 1] == way.take(n)[n - 1]);
    }
}

/// A tree without what stands below it.
pub open spec fn bare(tree: SubjectTree) -> SubjectTree {
    SubjectTree { children: Seq::empty(), ..tree }
}

/// The node that a walk down `path` ends at, taking at each step the first node of that subject.
pub open spec fn node_at(trees: Seq<SubjectTree>, path: Seq<Seq<char>>) -> Option<SubjectTree>
    decreases path.len(),
{
    if path.len() == 0 || !holds_subject(trees, path[0]) {
        None
    } else {
        let tree = trees[first_index(trees, path[0])];
        if path.len() == 1 {
            Some(bare(tree))
        } else {
            node_at(tree.children, path.drop_first())
        }
    }
}

/// The node of a subject, without what stands below it.
pub open spec fn lookup(trees: Seq<SubjectTree>, subject: Seq<char>) -> Option<SubjectTree> {
    node_at(trees, dotted_prefixes(subject))
}

/// Inserting a path keeps every node that is there, and adds those on the path that are not.
proof fn lemma_node_at_after_insert(
    trees: Seq<SubjectTree>,
    q: Seq<Seq<char>>,
    source: SubjectSource,
    p: Seq<Seq<char>>,
)
    requires
        p.len() > 0,
    ensures
        node_at(insert_path(trees, q, source), p) == (if node_at(trees, p) is Some {
            node_at(trees, p)
        } else if begins(p, q) {
            Some(new_tree(p.last(), Seq::empty(), source))
        } else {
            None
        }),
    decreases p.len(),
{
    let after = insert_path(trees, q, source);
    if q.len() > 0 {
        let rest = q.drop_first();
        if p[0] == q[0] {
            if p.len() > 1 {
                assert(begins(p, q) <==> begins(p.drop_first(), rest)) by {
                    if begins(p, q) {
                        assert(p.drop_first() == rest.take(p.len() - 1));
                    }
                    if begins(p.drop_first(), rest) {
                        assert forall|i: int| 0 <= i < p.len() implies p[i] == q[i] by {
                            if i > 0 {
                                assert(p[i] == p.drop_first()[i - 1]);
                                assert(rest.take(p.len() - 1)[i - 1] == q[i]);
                            }
                        }
                        assert(p == q.take(p.len() as int));
                    }
                }
            } else {
                assert(p == q.take(1));
            }
            if holds_subject(trees, q[0]) {
                let k = first_index(trees, q[0]);
                assert(is_first(trees, q[0], k));
                assert(is_first(after, q[0], k));
                lemma_first_index(after, q[0], k);
                if p.len() > 1 {
                    lemma_node_at_after_insert(trees[k].children, rest, source, p.drop_first());
                }
            } else {
                let k = trees.len() as int;
                lemma_absent(trees, q[0]);
                assert(is_first(after, q[0], k));
                lemma_first_index(after, q[0], k);
                if p.len() > 1 {
                    lemma_node_at_after_insert(Seq::empty(), rest, source, p.drop_first());
                    assert(!holds_subject(Seq::<SubjectTree>::empty(), p[1]));
                }
            }
        } else {
            if begins(p, q) {
                assert(p[0] == q.take(p.len() as int)[0]);
            }
            if holds_subject(trees, q[0]) {
                let k = first_index(trees, q[0]);
                assert(is_first(trees, q[0], k));
            }
            if holds_subject(trees, p[0]) {
                let k = first_index(trees, p[0]);
                assert(is_first(trees, p[0], k));
                assert(is_first(after, p[0], k));
                lemma_first_index(after, p[0], k);
            } else if holds_subject(after, p[0]) {
                let k = first_index(after, p[0]);
                assert(is_first(after, p[0], k));
                assert(k < trees.len() && trees[k].subject == p[0]);
                lemma_present(trees, p[0], k);
            }
        }
    }
}

/// Where no tree is the first of a subject, none has that subject.
proof fn lemma_absent(trees: Seq<SubjectTree>, subject: Seq<char>)
    requires
        !holds_subject(trees, subject),
    ensures
        forall|i: int| 0 <= i < trees.len() ==> (#[trigger] trees[i]).subject != subject,
{
    if exists|i: int| 0 <= i < trees.len() && (#[trigger] trees[i]).subject == subject {
        let i = choose|i: int| 0 <= i < trees.len() && (#[trigger] trees[i]).subject == subject;
        lemma_present(trees, subject, i);
    }
}

proof fn lemma_present(trees: Seq<SubjectTree>, subject: Seq<char>, i: int)
    requires
        0 <= i < trees.len(),
        trees[i].subject == subject,
    ensures
        holds_subject(trees, subject),
    decreases i,
{
    if exists|j: int| 0 <= j < i && (#[trigger] trees[j]).subject == subject {
        let j = choose|j: int| 0 <= j < i && (#[trigger] trees[j]).subject == subject;
        lemma_present(trees, subject, j);
    } else {
        assert(is_first(trees, subject, i));
    }
}

/// The source of the first entry whose subject is `subject` or lies below it.
pub open spec fn first_source(entries: Seq<Entry>, subject: Seq<char>) -> Option<SubjectSource>
    decreases entries.len(),
{
    if entries.len() == 0 {
        None
    } else if first_source(entries.drop_last(), subject) is Some {
        first_source(entries.drop_last(), subject)
    } else if leads_to(subject, entries.last().subject) {
        Some(entries.last().source)
    } else {
        None
    }
}

/// A hierarchy has a node for a subject exactly when some entry is that subject or lies below it.
/// The node is unselected, has the subject with `node_` before it as its id, and its source is
/// that of the first such entry.
pub proof fn law_hierarchy_holds_every_prefix(entries: Seq<Entry>, subject: Seq<char>)
    ensures
        lookup(insert_all(Seq::empty(), entries), subject) == (match first_source(
            entries,
            subject,
        ) {
            Some(source) => Some(new_tree(subject, Seq::empty(), source)),
            None => None,
        }),
    decreases entries.len(),
{
    if entries.len() == 0 {
        assert(!holds_subject(Seq::<SubjectTree>::empty(), dotted_prefixes(subject)[0]));
    } else {
        law_hierarchy_holds_every_prefix(entries.drop_last(), subject);
        lemma_node_at_after_insert(
            insert_all(Seq::empty(), entries.drop_last()),
            dotted_prefixes(entries.last().subject),
            entries.last().source,
            dotted_prefixes(subject),
        );
        lemma_begins_iff_leads_to(subject, entries.last().subject);
        assert(dotted_prefixes(subject).last() == subject);
    }
}

/// Adding a subject to any trees keeps the node of every subject that has one, and makes nodes for
/// those, and only those, that the new subject is or lies below.
pub proof fn law_added_subject_is_found(
    trees: Seq<SubjectTree>,
    added: Seq<char>,
    source: SubjectSource,
    subject: Seq<char>,
)
    ensures
        lookup(insert_path(trees, dotted_prefixes(added), source), subject) == (if lookup(
            trees,
            subject,
        ) is Some {
            lookup(trees, subject)
        } else if leads_to(subject, added) {
            Some(new_tree(subject, Seq::empty(), source))
        } else {
            None
        }),
{
    lemma_node_at_after_insert(trees, dotted_prefixes(added), source, dotted_prefixes(subject));
    lemma_begins_iff_leads_to(subject, added);
}

proof fn lemma_found_path_changes_nothing(
    trees: Seq<SubjectTree>,
    path: Seq<Seq<char>>,
    source: SubjectSource,
)
    requires
        node_at(trees, path) is Some,
    ensures
        insert_path(trees, path, source) == trees,
    decreases path.len(),
{
    let k = first_index(trees, path[0]);
    assert(is_first(trees, path[0], k));
    let rest = path.drop_first();
    if path.len() > 1 {
        lemma_found_path_changes_nothing(trees[k].children, rest, source);
    }
    assert(insert_path(trees[k].children, rest, source) == trees[k].children);
    assert(insert_path(trees, path, source) == trees);
}

/// Adding a subject that has a node already changes nothing, whatever its source.
pub proof fn law_known_subject_changes_nothing(
    trees: Seq<SubjectTree>,
    subject: Seq<char>,
    source: SubjectSource,
)
    requires
        lookup(trees, subject) is Some,
    ensures
        insert_path(trees, dotted_prefixes(subject), source) == trees,
{
    lemma_found_path_changes_nothing(trees, dotted_prefixes(subject), source);
}

/// Adding a subject a second time changes nothing.
pub proof fn law_adding_twice_is_adding_once(
    trees: Seq<SubjectTree>,
    subject: Seq<char>,
    source: SubjectSource,
    source_again: SubjectSource,
)
    ensures
        ({
            let once = insert_path(trees, dotted_prefixes(subject), source);
            insert_path(once, dotted_prefixes(subject), source_again) == once
        }),
{
    law_added_subject_is_found(trees, subject, source, subject);
    law_known_subject_changes_nothing(
        insert_path(trees, dotted_prefixes(subject), source),
        subject,
        source_again,
    );
}

/// Each tree of `old_trees` stands at its place in `new_trees`, itself unchanged and with its
/// children grown in the same way; further trees may follow.
pub open spec fn all_grown(old_trees: Seq<SubjectTree>, new_trees: Seq<SubjectTree>) -> bool
    decreases old_trees,
{
    &&& old_trees.len() <= new_trees.len()
    &&& forall|i: int|
        0 <= i < old_trees.len() ==> {
            &&& bare(#[trigger] old_trees[i]) == bare(new_trees[i])
            &&& all_grown(old_trees[i].children, new_trees[i].children)
        }
}

proof fn lemma_grown_reflexive(trees: Seq<SubjectTree>)
    ensures
        all_grown(trees, trees),
    decreases trees,
{
    assert forall|i: int| 0 <= i < trees.len() implies all_grown(
        (#[trigger] trees[i]).children,
        trees[i].children,
    ) by {
        lemma_grown_reflexive(trees[i].children);
    }
}

proof fn lemma_grown_transitive(a: Seq<SubjectTree>, b: Seq<SubjectTree>, c: Seq<SubjectTree>)
    requires
        all_grown(a, b),
        all_grown(b, c),
    ensures
        all_grown(a, c),
    decreases a,
{
    assert forall|i: int| 0 <= i < a.len() implies {
        &&& bare(#[trigger] a[i]) == bare(c[i])
        &&& all_grown(a[i].children, c[i].children)
    } by {
        assert(bare(a[i]) == bare(b[i]) && bare(b[i]) == bare(c[i]));
        lemma_grown_transitive(a[i].children, b[i].children, c[i].children);
    }
}

/// Adding a path moves, changes and removes no node: new nodes come after those that are there.
pub proof fn law_insertion_only_appends(
    trees: Seq<SubjectTree>,
    path: Seq<Seq<char>>,
    source: SubjectSource,
)
    ensures
        all_grown(trees, insert_path(trees, path, source)),
    decreases path.len(),
{
    let after = insert_path(trees, path, source);
    lemma_grown_reflexive(trees);
    if path.len() > 0 && holds_subject(trees, path[0]) {
        let k = first_index(trees, path[0]);
        assert(is_first(trees, path[0], k));
        law_insertion_only_appends(trees[k].children, path.drop_first(), source);
    }
    assert forall|i: int| 0 <= i < trees.len() implies {
        &&& bare(#[trigger] trees[i]) == bare(after[i])
        &&& all_grown(trees[i].children, after[i].children)
    } by {
        lemma_grown_reflexive(trees[i].children);
    }
}

/// Later entries only append to the hierarchy of the earlier ones. So the hierarchy of the stored
/// subjects alone is kept when those that the server reports come in.
pub proof fn law_later_entries_only_append(earlier: Seq<Entry>, later: Seq<Entry>)
    ensures
        all_grown(
            insert_all(Seq::empty(), earlier),
            insert_all(Seq::empty(), earlier + later),
        ),
    decreases later.len(),
{
    let start = insert_all(Seq::empty(), earlier);
    if later.len() == 0 {
        assert(earlier + later == earlier);
        lemma_grown_reflexive(start);
    } else {
        let entries = earlier + later;
        assert(entries.drop_last() == earlier + later.drop_last());
        law_later_entries_only_append(earlier, later.drop_last());
        let before = insert_all(Seq::empty(), entries.drop_last());
        law_insertion_only_appends(
            before,
            dotted_prefixes(entries.last().subject),
            entries.last().source,
        );
        lemma_grown_transitive(start, before, insert_all(Seq::empty(), entries));
    }
}

/// `subject` is one token more than `parent`, or one token alone where there is no parent.
pub open spec fn names_child(parent: Option<Seq<char>>, subject: Seq<char>) -> bool {
    match parent {
        None => !subject.contains('.'),
        Some(p) => {
            &&& p.len() < subject.len()
            &&& subject.take(p.len() as int) == p
            &&& subject[p.len() as int] == '.'
            &&& !subject.skip(p.len() as int + 1).contains('.')
        },
    }
}

/// The id of the node is made from its subject, it is not selected, and its subject continues
/// that of its parent by one token.
pub open spec fn well_labelled(parent: Option<Seq<char>>, tree: SubjectTree) -> bool {
    &&& tree.id == "node_"@ + tree.subject
    &&& !tree.selected
    &&& names_child(parent, tree.subject)
}

/// Siblings have different subjects, and every node, at any depth, is well labelled.
pub open spec fn well_formed(parent: Option<Seq<char>>, trees: Seq<SubjectTree>) -> bool
    decreases trees,
{
    &&& forall|i: int, j: int|
        0 <= i < j < trees.len() ==> (#[trigger] trees[i]).subject != (#[trigger] trees[j]).subject
    &&& forall|i: int|
        0 <= i < trees.len() ==> {
            &&& well_labelled(parent, #[trigger] trees[i])
            &&& well_formed(Some(trees[i].subject), trees[i].children)
        }
}

/// Each step of the path is one token more than the step before it, the first one more than
/// `parent`.
pub open spec fn descends(parent: Option<Seq<char>>, path: Seq<Seq<char>>) -> bool {
    forall|i: int|
        0 <= i < path.len() ==> names_child(
            if i == 0 {
                parent
            } else {
                Some(path[i - 1])
            },
            #[trigger] path[i],
        )
}

proof fn lemma_well_formed_after_insert(
    parent: Option<Seq<char>>,
    trees: Seq<SubjectTree>,
    path: Seq<Seq<char>>,
    source: SubjectSource,
)
    requires
        well_formed(parent, trees),
        descends(parent, path),
    ensures
        well_formed(parent, insert_path(trees, path, source)),
    decreases path.len(),
{
    let after = insert_path(trees, path, source);
    if path.len() > 0 {
        let rest = path.drop_first();
        assert(names_child(parent, path[0]));
        assert(descends(Some(path[0]), rest)) by {
            assert forall|i: int| 0 <= i < rest.len() implies names_child(
                if i == 0 {
                    Some(path[0])
                } else {
                    Some(rest[i - 1])
                },
                #[trigger] rest[i],
            ) by {
                assert(rest[i] == path[i + 1]);
            }
        }
        if holds_subject(trees, path[0]) {
            let k = first_index(trees, path[0]);
            assert(is_first(trees, path[0], k));
            lemma_well_formed_after_insert(Some(path[0]), trees[k].children, rest, source);
            assert forall|i: int| 0 <= i < after.len() implies {
                &&& well_labelled(parent, #[trigger] after[i])
                &&& well_formed(Some(after[i].subject), after[i].children)
            } by {
                assert(well_labelled(parent, trees[i]));
            }
            assert forall|i: int, j: int| 0 <= i < j < after.len() implies (
            #[trigger] after[i]).subject != (#[trigger] after[j]).subject by {
                assert(trees[i].subject != trees[j].subject);
            }
        } else {
            lemma_absent(trees, path[0]);
            lemma_well_formed_after_insert(Some(path[0]), Seq::empty(), rest, source);
            assert forall|i: int| 0 <= i < after.len() implies {
                &&& well_labelled(parent, #[trigger] after[i])
                &&& well_formed(Some(after[i].subject), after[i].children)
            } by {
                if i < trees.len() {
                    assert(well_labelled(parent, trees[i]));
                }
            }
            assert forall|i: int, j: int| 0 <= i < j < after.len() implies (
            #[trigger] after[i]).subject != (#[trigger] after[j]).subject by {
                assert(after[i] == trees[i]);
                if j < trees.len() {
                    assert(trees[i].subject != trees[j].subject);
                }
            }
        }
    }
}

/// The way down to a subject takes one token at a time.
pub proof fn law_way_takes_one_token_at_a_time(s: Seq<char>)
    ensures
        descends(None, dotted_prefixes(s)),
{
    lemma_parts(s);
    let way = dotted_prefixes(s);
    let parts = parts_before_dots(s);
    assert forall|i: int| 0 <= i < way.len() implies names_child(
        if i == 0 {
            None
        } else {
            Some(way[i - 1])
        },
        #[trigger] way[i],
    ) by {
        let here = way[i];
        assert(here == s.take(here.len() as int)) by {
            if i < parts.len() {
                assert(here == parts[i]);
            } else {
                assert(s.take(s.len() as int) == s);
            }
        }
        let start: int = if i == 0 {
            0
        } else {
            parts[i - 1].len() as int + 1
        };
        if i > 0 {
            let p = parts[i - 1];
            assert(way[i - 1] == p);
            assert(p.len() < here.len()) by {
                if i < parts.len() {
                    assert(parts[i - 1].len() < parts[i].len());
                }
            }
            assert(here.take(p.len() as int) == p);
        }
        assert forall|x: int| start <= x < here.len() implies here[x] != '.' by {
            if here[x] == '.' {
                assert(s[x] == '.');
                assert(parts.contains(s.take(x)));
                let k = choose|k: int| 0 <= k < parts.len() && parts[k] == s.take(x);
                assert(parts[k].len() == x);
                if i < parts.len() {
                    if k > i {
                        assert(parts[i].len() < parts[k].len());
                    }
                }
                if i > 0 && k < i - 1 {
                    assert(parts[k].len() < parts[i - 1].len());
                }
            }
        }
        if i > 0 {
            let tail = here.skip(start);
            assert forall|x: int| 0 <= x < tail.len() implies tail[x] != '.' by {
                assert(tail[x] == here[x + start]);
            }
        }
    }
}

/// Adding a subject to a well-formed hierarchy leaves it well formed.
pub proof fn law_addition_keeps_hierarchy_well_formed(
    trees: Seq<SubjectTree>,
    subject: Seq<char>,
    source: SubjectSource,
)
    requires
        well_formed(None, trees),
    ensures
        well_formed(None, insert_path(trees, dotted_prefixes(subject), source)),
{
    law_way_takes_one_token_at_a_time(subject);
    lemma_well_formed_after_insert(None, trees, dotted_prefixes(subject), source);
}

/// Every hierarchy is well formed, whatever was stored and reported.
pub proof fn law_hierarchy_is_well_formed(entries: Seq<Entry>)
    ensures
        well_formed(None, insert_all(Seq::empty(), entries)),
    decreases entries.len(),
{
    if entries.len() > 0 {
        law_hierarchy_is_well_formed(entries.drop_last());
        law_addition_keeps_hierarchy_well_formed(
            insert_all(Seq::empty(), entries.drop_last()),
            entries.last().subject,
            entries.last().source,
        );
    }
}

proof fn lemma_leads_to_transitive(a: Seq<char>, b: Seq<char>, c: Seq<char>)
    requires
        leads_to(a, b),
        leads_to(b, c),
    ensures
        leads_to(a, c),
{
    if a != b && b != c {
        assert(a == c.take(a.len() as int)) by {
            assert(b.take(a.len() as int) == c.take(a.len() as int));
        }
        assert(c[a.len() as int] == b[a.len() as int]);
    }
}

/// Nothing lies below two different children of one parent.
proof fn lemma_siblings_apart(
    parent: Option<Seq<char>>,
    a: Seq<char>,
    b: Seq<char>,
    x: Seq<char>,
)
    requires
        names_child(parent, a),
        names_child(parent, b),
        leads_to(a, x),
        leads_to(b, x),
    ensures
        a == b,
{
    if a.len() == b.len() {
        assert(a == x.take(a.len() as int));
        assert(b == x.take(b.len() as int));
    } else {
        let (short, long) = if a.len() < b.len() {
            (a, b)
        } else {
            (b, a)
        };
        let n = short.len() as int;
        assert(long == x.take(long.len() as int));
        assert(x[n] == '.');
        assert(long[n] == '.');
        match parent {
            None => {
                assert(long.contains(long[n]));
            },
            Some(p) => {
                let tail = long.skip(p.len() as int + 1);
                assert(tail[n - p.len() - 1] == long[n]);
                assert(tail.contains(tail[n - p.len() - 1]));
            },
        }
    }
}

proof fn lemma_child_leads(p: Seq<char>, child: Seq<char>)
    requires
        names_child(Some(p), child),
    ensures
        leads_to(p, child),
{
}

proof fn lemma_listed_in_some_tree(trees: Seq<SubjectTree>, x: Seq<char>)
    ensures
        forest_subjects(trees).contains(x) <==> exists|i: int|
            0 <= i < trees.len() && tree_subjects(#[trigger] trees[i]).contains(x),
    decreases trees.len(),
{
    if trees.len() > 0 {
        let before = trees.drop_last();
        lemma_listed_in_some_tree(before, x);
        let early = forest_subjects(before);
        let late = tree_subjects(trees.last());
        assert(forest_subjects(trees) == early + late);
        if forest_subjects(trees).contains(x) {
            let n = choose|n: int| 0 <= n < (early + late).len() && (early + late)[n] == x;
            if n < early.len() {
                assert(early[n] == x);
                let i = choose|i: int|
                    0 <= i < before.len() && tree_subjects(#[trigger] before[i]).contains(x);
                assert(trees[i] == before[i]);
            } else {
                assert(late[n - early.len()] == x);
                assert(trees[trees.len() - 1] == trees.last());
            }
        }
        if exists|i: int|
            0 <= i < trees.len() && tree_subjects(#[trigger] trees[i]).contains(x) {
            let i = choose|i: int|
                0 <= i < trees.len() && tree_subjects(#[trigger] trees[i]).contains(x);
            if i < before.len() {
                assert(before[i] == trees[i]);
                let n = choose|n: int| 0 <= n < early.len() && early[n] == x;
                assert((early + late)[n] == x);
            } else {
                let n = choose|n: int| 0 <= n < late.len() && late[n] == x;
                assert((early + late)[early.len() + n] == x);
            }
        }
    } else {
        assert(forest_subjects(trees).len() == 0);
    }
}

proof fn lemma_tree_lists(tree: SubjectTree, x: Seq<char>)
    ensures
        tree_subjects(tree).contains(x) <==> x == tree.subject || forest_subjects(
            tree.children,
        ).contains(x),
{
    let below = forest_subjects(tree.children);
    let all = tree_subjects(tree);
    assert(all == seq![tree.subject] + below);
    assert(all[0] == tree.subject);
    if all.contains(x) {
        let n = choose|n: int| 0 <= n < all.len() && all[n] == x;
        if n > 0 {
            assert(below[n - 1] == x);
        }
    }
    if below.contains(x) {
        let n = choose|n: int| 0 <= n < below.len() && below[n] == x;
        assert(all[n + 1] == x);
    }
}

/// Everything that a tree lists is its own subject or lies below it.
proof fn lemma_tree_leads_to_listed(
    parent: Option<Seq<char>>,
    trees: Seq<SubjectTree>,
    i: int,
    x: Seq<char>,
)
    requires
        well_formed(parent, trees),
        0 <= i < trees.len(),
        tree_subjects(trees[i]).contains(x),
    ensures
        leads_to(trees[i].subject, x),
    decreases trees,
{
    let tree = trees[i];
    lemma_tree_lists(tree, x);
    if x != tree.subject {
        lemma_listed_in_some_tree(tree.children, x);
        let j = choose|j: int|
            0 <= j < tree.children.len() && tree_subjects(#[trigger] tree.children[j]).contains(x);
        lemma_tree_leads_to_listed(Some(tree.subject), tree.children, j, x);
        assert(well_formed(Some(tree.subject), tree.children));
        assert(well_labelled(Some(tree.subject), tree.children[j]));
        lemma_child_leads(tree.subject, tree.children[j].subject);
        lemma_leads_to_transitive(tree.subject, tree.children[j].subject, x);
    }
}

/// What the children of a node list is longer than the subject of the node.
proof fn lemma_listed_below_is_longer(
    subject: Seq<char>,
    children: Seq<SubjectTree>,
    x: Seq<char>,
)
    requires
        well_formed(Some(subject), children),
        forest_subjects(children).contains(x),
    ensures
        subject.len() < x.len(),
{
    lemma_listed_in_some_tree(children, x);
    let j = choose|j: int|
        0 <= j < children.len() && tree_subjects(#[trigger] children[j]).contains(x);
    lemma_tree_leads_to_listed(Some(subject), children, j, x);
    assert(well_labelled(Some(subject), children[j]));
}

/// Well-formed trees list no subject twice.
pub proof fn law_well_formed_trees_list_each_subject_once(
    parent: Option<Seq<char>>,
    trees: Seq<SubjectTree>,
)
    requires
        well_formed(parent, trees),
    ensures
        forest_subjects(trees).no_duplicates(),
    decreases trees,
{
    if trees.len() > 0 {
        let before = trees.drop_last();
        let last = trees.last();
        let n = trees.len() - 1;
        assert(trees[n] == last);
        assert(well_formed(parent, before)) by {
            assert forall|i: int, j: int| 0 <= i < j < before.len() implies (
            #[trigger] before[i]).subject != (#[trigger] before[j]).subject by {
                assert(trees[i].subject != trees[j].subject);
            }
            assert forall|i: int| 0 <= i < before.len() implies {
                &&& well_labelled(parent, #[trigger] before[i])
                &&& well_formed(Some(before[i].subject), before[i].children)
            } by {
                assert(well_labelled(parent, trees[i]));
            }
        }
        law_well_formed_trees_list_each_subject_once(parent, before);
        law_well_formed_trees_list_each_subject_once(Some(last.subject), last.children);
        let early = forest_subjects(before);
        let below = forest_subjects(last.children);
        let late = tree_subjects(last);
        assert(late == seq![last.subject] + below);
        assert forall|i: int, j: int| 0 <= i < late.len() && 0 <= j < late.len() && i
            != j implies late[i] != late[j] by {
            if i == 0 {
                assert(below.contains(below[j - 1]));
                lemma_listed_below_is_longer(last.subject, last.children, late[j]);
            } else if j == 0 {
                assert(below.contains(below[i - 1]));
                lemma_listed_below_is_longer(last.subject, last.children, late[i]);
            } else {
                assert(late[i] == below[i - 1] && late[j] == below[j - 1]);
            }
        }
        assert forall|i: int, j: int| 0 <= i < early.len() && 0 <= j < late.len() implies early[i]
            != late[j] by {
            if early[i] == late[j] {
                let x = early[i];
                assert(early.contains(x));
                assert(late.contains(late[j]));
                lemma_listed_in_some_tree(before, x);
                let k = choose|k: int|
                    0 <= k < before.len() && tree_subjects(#[trigger] before[k]).contains(x);
                assert(trees[k] == before[k]);
                lemma_tree_leads_to_listed(parent, trees, k, x);
                lemma_tree_leads_to_listed(parent, trees, n, x);
                assert(well_labelled(parent, trees[k]));
                assert(well_labelled(parent, trees[n]));
                lemma_siblings_apart(parent, trees[k].subject, trees[n].subject, x);
            }
        }
        assert(forest_subjects(trees) == early + late);
    }
}

proof fn lemma_path_leads(parent: Option<Seq<char>>, path: Seq<Seq<char>>)
    requires
        descends(parent, path),
        path.len() > 0,
    ensures
        leads_to(path[0], path.last()),
        path.len() > 1 ==> path[0].len() < path.last().len(),
        path.len() > 1 ==> descends(Some(path[0]), path.drop_first()),
    decreases path.len(),
{
    if path.len() > 1 {
        let rest = path.drop_first();
        assert forall|i: int| 0 <= i < rest.len() implies names_child(
            if i == 0 {
                Some(path[0])
            } else {
                Some(rest[i - 1])
            },
            #[trigger] rest[i],
        ) by {
            assert(rest[i] == path[i + 1]);
        }
        lemma_path_leads(Some(path[0]), rest);
        assert(names_child(Some(path[0]), path[1]));
        lemma_child_leads(path[0], path[1]);
        lemma_leads_to_transitive(path[0], path[1], path.last());
    }
}

proof fn lemma_listed_is_found(
    parent: Option<Seq<char>>,
    trees: Seq<SubjectTree>,
    path: Seq<Seq<char>>,
)
    requires
        well_formed(parent, trees),
        descends(parent, path),
        path.len() > 0,
        forest_subjects(trees).contains(path.last()),
    ensures
        node_at(trees, path) is Some,
    decreases path.len(),
{
    let x = path.last();
    lemma_listed_in_some_tree(trees, x);
    let i = choose|i: int| 0 <= i < trees.len() && tree_subjects(#[trigger] trees[i]).contains(x);
    lemma_tree_leads_to_listed(parent, trees, i, x);
    assert(well_labelled(parent, trees[i]));
    lemma_path_leads(parent, path);
    assert(names_child(parent, path[0]));
    lemma_siblings_apart(parent, trees[i].subject, path[0], x);
    assert(is_first(trees, path[0], i));
    lemma_first_index(trees, path[0], i);
    if path.len() > 1 {
        lemma_tree_lists(trees[i], x);
        lemma_listed_is_found(Some(path[0]), trees[i].children, path.drop_first());
    }
}

proof fn lemma_found_is_listed(trees: Seq<SubjectTree>, path: Seq<Seq<char>>)
    requires
        node_at(trees, path) is Some,
    ensures
        forest_subjects(trees).contains(path.last()),
    decreases path.len(),
{
    let k = first_index(trees, path[0]);
    assert(is_first(trees, path[0], k));
    if path.len() > 1 {
        lemma_found_is_listed(trees[k].children, path.drop_first());
    }
    lemma_tree_lists(trees[k], path.last());
    lemma_listed_in_some_tree(trees, path.last());
}

/// In a well-formed hierarchy, walking down its prefixes finds a subject exactly when the
/// hierarchy lists it.
pub proof fn law_lookup_finds_what_is_listed(trees: Seq<SubjectTree>, subject: Seq<char>)
    requires
        well_formed(None, trees),
    ensures
        lookup(trees, subject) is Some <==> forest_subjects(trees).contains(subject),
{
    let way = dotted_prefixes(subject);
    law_way_takes_one_token_at_a_time(subject);
    assert(way.last() == subject);
    if lookup(trees, subject) is Some {
        lemma_found_is_listed(trees, way);
    }
    if forest_subjects(trees).contains(subject) {
        lemma_listed_is_found(None, trees, way);
    }
}

proof fn lemma_first_source_exists(entries: Seq<Entry>, subject: Seq<char>)
    ensures
        first_source(entries, subject) is Some <==> exists|i: int|
            0 <= i < entries.len() && leads_to(subject, (#[trigger] entries[i]).subject),
    decreases entries.len(),
{
    if entries.len() > 0 {
        let before = entries.drop_last();
        lemma_first_source_exists(before, subject);
        if first_source(before, subject) is Some {
            let i = choose|i: int|
                0 <= i < before.len() && leads_to(subject, (#[trigger] before[i]).subject);
            assert(entries[i] == before[i]);
        } else if leads_to(subject, entries.last().subject) {
            assert(entries[entries.len() - 1] == entries.last());
        }
        if exists|i: int|
            0 <= i < entries.len() && leads_to(subject, (#[trigger] entries[i]).subject) {
            let i = choose|i: int|
                0 <= i < entries.len() && leads_to(subject, (#[trigger] entries[i]).subject);
            if i < before.len() {
                assert(before[i] == entries[i]);
            }
        }
    }
}

/// A hierarchy lists the subjects that were put in and those that they lie below, each once, and
/// no others.
pub proof fn law_hierarchy_lists_each_subject_once(entries: Seq<Entry>)
    ensures
        forest_subjects(insert_all(Seq::empty(), entries)).no_duplicates(),
        forall|subject: Seq<char>| #[trigger]
            forest_subjects(insert_all(Seq::empty(), entries)).contains(subject) <==> exists|i: int|
                0 <= i < entries.len() && leads_to(subject, (#[trigger] entries[i]).subject),
{
    let trees = insert_all(Seq::empty(), entries);
    law_hierarchy_is_well_formed(entries);
    law_well_formed_trees_list_each_subject_once(None, trees);
    assert forall|subject: Seq<char>| #[trigger]
        forest_subjects(trees).contains(subject) <==> exists|i: int|
            0 <= i < entries.len() && leads_to(subject, (#[trigger] entries[i]).subject) by {
        law_lookup_finds_what_is_listed(trees, subject);
        law_hierarchy_holds_every_prefix(entries, subject);
        lemma_first_source_exists(entries, subject);
    }
}

proof fn lemma_first_source_of_joined(
    earlier: Seq<Entry>,
    later: Seq<Entry>,
    subject: Seq<char>,
)
    ensures
        first_source(earlier + later, subject) == (if first_source(earlier, subject) is Some {
            first_source(earlier, subject)
        } else {
            first_source(later, subject)
        }),
    decreases later.len(),
{
    if later.len() == 0 {
        assert(earlier + later == earlier);
    } else {
        assert((earlier + later).drop_last() == earlier + later.drop_last());
        lemma_first_source_of_joined(earlier, later.drop_last(), subject);
    }
}

proof fn lemma_reported_source(reported: Seq<Subscription>, subject: Seq<char>)
    ensures
        first_source(reported_entries(reported), subject) == (if exists|i: int|
            0 <= i < reported.len() && leads_to(subject, (#[trigger] reported[i]).subject@) {
            Some(SubjectSource::Server)
        } else {
            None
        }),
    decreases reported.len(),
{
    let entries = reported_entries(reported);
    if reported.len() > 0 {
        let before = reported.drop_last();
        assert(entries.drop_last() == reported_entries(before));
        lemma_reported_source(before, subject);
        if exists|i: int|
            0 <= i < before.len() && leads_to(subject, (#[trigger] before[i]).subject@) {
            let i = choose|i: int|
                0 <= i < before.len() && leads_to(subject, (#[trigger] before[i]).subject@);
            assert(reported[i] == before[i]);
        } else if leads_to(subject, entries.last().subject) {
            assert(reported[reported.len() - 1].subject@ == entries.last().subject);
        } else if exists|i: int|
            0 <= i < reported.len() && leads_to(subject, (#[trigger] reported[i]).subject@) {
            let i = choose|i: int|
                0 <= i < reported.len() && leads_to(subject, (#[trigger] reported[i]).subject@);
            assert(before[i] == reported[i]);
        }
    }
}

/// What is stored comes before what the server reports: a subject at or above a stored one has the
/// source of the first such stored one, whether or not the server reports it too. Any other subject
/// at or above a reported one has the server as its source. No further subject has a node.
pub proof fn law_stored_subjects_keep_their_source(
    stored: Seq<SubjectTreeNode>,
    reported: Seq<Subscription>,
    subject: Seq<char>,
)
    ensures
        lookup(hierarchy(stored, reported), subject) == (match first_source(
            stored_entries(stored),
            subject,
        ) {
            Some(source) => Some(new_tree(subject, Seq::empty(), source)),
            None => if exists|i: int|
                0 <= i < reported.len() && leads_to(subject, (#[trigger] reported[i]).subject@) {
                Some(new_tree(subject, Seq::empty(), SubjectSource::Server))
            } else {
                None
            },
        }),
{
    let earlier = stored_entries(stored);
    let later = reported_entries(reported);
    law_hierarchy_holds_every_prefix(earlier + later, subject);
    lemma_first_source_of_joined(earlier, later, subject);
    lemma_reported_source(reported, subject);
}

/// Inserting an empty path changes nothing.
pub proof fn law_empty_path_changes_nothing(trees: Seq<SubjectTree>, source: SubjectSource)
    ensures
        insert_path(trees, Seq::empty(), source) == trees,
{
}

/// Inserting a path whose first subject some tree has enters the first such tree: nothing but its
/// children changes, and they are those of the same insertion one step further down.
pub proof fn law_insertion_enters_first_match(
    trees: Seq<SubjectTree>,
    path: Seq<Seq<char>>,
    source: SubjectSource,
    k: int,
)
    requires
        path.len() > 0,
        0 <= k < trees.len(),
        trees[k].subject == path[0],
        forall|i: int| 0 <= i < k ==> (#[trigger] trees[i]).subject != path[0],
    ensures
        ({
            let after = insert_path(trees, path, source);
            &&& after.len() == trees.len()
            &&& forall|i: int| 0 <= i < trees.len() && i != k ==> #[trigger] after[i] == trees[i]
            &&& after[k].id == trees[k].id
            &&& after[k].subject == trees[k].subject
            &&& after[k].selected == trees[k].selected
            &&& after[k].source == trees[k].source
            &&& after[k].children == insert_path(trees[k].children, path.drop_first(), source)
        }),
{
    assert(is_first(trees, path[0], k));
    lemma_first_index(trees, path[0], k);
}

/// Inserting a path whose first subject no tree has keeps all trees and puts one new tree last:
/// with that subject, an id made from it, not selected, with the given source, and with the rest of
/// the path below it.
pub proof fn law_insertion_appends_what_is_absent(
    trees: Seq<SubjectTree>,
    path: Seq<Seq<char>>,
    source: SubjectSource,
)
    requires
        path.len() > 0,
        forall|i: int| 0 <= i < trees.len() ==> (#[trigger] trees[i]).subject != path[0],
    ensures
        ({
            let after = insert_path(trees, path, source);
            &&& after.len() == trees.len() + 1
            &&& after.drop_last() == trees
            &&& after.last().id == seq!['n', 'o', 'd', 'e', '_'] + path[0]
            &&& after.last().subject == path[0]
            &&& !after.last().selected
            &&& after.last().source == source
            &&& after.last().children == insert_path(Seq::empty(), path.drop_first(), source)
        }),
{
    reveal_strlit("node_");
    assert("node_"@ == seq!['n', 'o', 'd', 'e', '_']);
    if holds_subject(trees, path[0]) {
        let k = first_index(trees, path[0]);
        assert(is_first(trees, path[0], k));
        assert(trees[k].subject != path[0]);
    }
    assert(insert_path(trees, path, source).drop_last() == trees);
}

/// Adding a subject below a node changes nothing of the node but its children, which are those of
/// the insertion among them.
pub proof fn law_addition_keeps_the_node_itself(
    tree: SubjectTree,
    path: Seq<Seq<char>>,
    source: SubjectSource,
)
    ensures
        insert_below(tree, path, source).id == tree.id,
        insert_below(tree, path, source).subject == tree.subject,
        insert_below(tree, path, source).selected == tree.selected,
        insert_below(tree, path, source).source == tree.source,
        insert_below(tree, path, source).children == insert_path(tree.children, path, source),
{
}

/// As long as nothing has been reported, the hierarchy of one stored subject more is the hierarchy
/// without it, with that subject added under its own source. It is of no account how many subjects
/// are stored or what else their nodes hold.
pub proof fn law_every_stored_subject_is_added(
    stored: Seq<SubjectTreeNode>,
    node: SubjectTreeNode,
)
    ensures
        hierarchy(Seq::empty(), Seq::empty()) == Seq::<SubjectTree>::empty(),
        hierarchy(stored.push(node), Seq::empty()) == insert_path(
            hierarchy(stored, Seq::empty()),
            dotted_prefixes(node.subject_str@),
            node.source,
        ),
{
    let none = Seq::<Subscription>::empty();
    let before = stored_entries(stored) + reported_entries(none);
    let after = stored_entries(stored.push(node)) + reported_entries(none);
    assert(after.drop_last() == before);
    assert(after.last() == (Entry { subject: node.subject_str@, source: node.source }));
    assert(stored_entries(Seq::empty()) + reported_entries(none) == Seq::<Entry>::empty());
}

/// The hierarchy of one reported subscription more is the hierarchy without it, with its subject
/// added under the server as its source.
pub proof fn law_every_reported_subject_is_added(
    stored: Seq<SubjectTreeNode>,
    reported: Seq<Subscription>,
    subscription: Subscription,
)
    ensures
        hierarchy(stored, reported.push(subscription)) == insert_path(
            hierarchy(stored, reported),
            dotted_prefixes(subscription.subject@),
            SubjectSource::Server,
        ),
{
    let before = stored_entries(stored) + reported_entries(reported);
    let after = stored_entries(stored) + reported_entries(reported.push(subscription));
    assert(after.drop_last() == before);
    assert(after.last() == (Entry {
        subject: subscription.subject@,
        source: SubjectSource::Server,
    }));
}

/// A way through trees from one at the top to one below, from each tree to one of its children.
pub open spec fn is_chain(trees: Seq<SubjectTree>, chain: Seq<SubjectTree>) -> bool {
    &&& chain.len() > 0
    &&& trees.contains(chain[0])
    &&& forall|k: int, l: int|
        0 <= k && l == k + 1 && l < chain.len() ==> (#[trigger] chain[k]).children.contains(
            #[trigger] chain[l],
        )
}

/// `node` is one of the trees or stands somewhere below one.
pub open spec fn has_node(trees: Seq<SubjectTree>, node: SubjectTree) -> bool {
    exists|chain: Seq<SubjectTree>| #[trigger] is_chain(trees, chain) && chain.last() == node
}

proof fn lemma_has_top_node(trees: Seq<SubjectTree>, i: int)
    requires
        0 <= i < trees.len(),
    ensures
        has_node(trees, trees[i]),
{
    let chain = seq![trees[i]];
    assert(is_chain(trees, chain));
    assert(chain.last() == trees[i]);
}

proof fn lemma_has_node_below(trees: Seq<SubjectTree>, i: int, node: SubjectTree)
    requires
        0 <= i < trees.len(),
        has_node(trees[i].children, node),
    ensures
        has_node(trees, node),
{
    let rest = choose|chain: Seq<SubjectTree>| #[trigger]
        is_chain(trees[i].children, chain) && chain.last() == node;
    let chain = seq![trees[i]] + rest;
    assert forall|k: int, l: int| 0 <= k && l == k + 1 && l < chain.len() implies (
    #[trigger] chain[k]).children.contains(#[trigger] chain[l]) by {
        if k == 0 {
            assert(chain[1] == rest[0]);
        } else {
            assert(chain[l] == rest[l - 1]);
            assert(chain[k] == rest[k - 1]);
        }
    }
    assert(trees.contains(chain[0]));
    assert(is_chain(trees, chain));
    assert(chain.last() == node);
}

/// A node of some trees is one of them, or a node of the children of one of them.
proof fn lemma_where_node_is(trees: Seq<SubjectTree>, node: SubjectTree) -> (i: int)
    requires
        has_node(trees, node),
    ensures
        0 <= i < trees.len(),
        node == trees[i] || has_node(trees[i].children, node),
{
    let chain = choose|chain: Seq<SubjectTree>| #[trigger]
        is_chain(trees, chain) && chain.last() == node;
    let i = choose|i: int| 0 <= i < trees.len() && trees[i] == chain[0];
    if chain.len() > 1 {
        let rest = chain.drop_first();
        assert(chain[0].children.contains(chain[1]));
        assert forall|k: int, l: int| 0 <= k && l == k + 1 && l < rest.len() implies (
        #[trigger] rest[k]).children.contains(#[trigger] rest[l]) by {
            assert(rest[k] == chain[k + 1]);
            assert(rest[l] == chain[l + 1]);
        }
        assert(is_chain(trees[i].children, rest));
        assert(rest.last() == node);
    }
    i
}

proof fn lemma_node_is_listed(trees: Seq<SubjectTree>, node: SubjectTree)
    requires
        has_node(trees, node),
    ensures
        forest_subjects(trees).contains(node.subject),
    decreases trees,
{
    let i = lemma_where_node_is(trees, node);
    if node != trees[i] {
        lemma_node_is_listed(trees[i].children, node);
    }
    lemma_tree_lists(trees[i], node.subject);
    lemma_listed_in_some_tree(trees, node.subject);
}

proof fn lemma_listed_has_node(trees: Seq<SubjectTree>, subject: Seq<char>)
    requires
        forest_subjects(trees).contains(subject),
    ensures
        exists|node: SubjectTree| #[trigger] has_node(trees, node) && node.subject == subject,
    decreases trees,
{
    lemma_listed_in_some_tree(trees, subject);
    let i = choose|i: int|
        0 <= i < trees.len() && tree_subjects(#[trigger] trees[i]).contains(subject);
    lemma_tree_lists(trees[i], subject);
    if subject == trees[i].subject {
        lemma_has_top_node(trees, i);
    } else {
        lemma_listed_has_node(trees[i].children, subject);
        let node = choose|node: SubjectTree| #[trigger]
            has_node(trees[i].children, node) && node.subject == subject;
        lemma_has_node_below(trees, i, node);
    }
}

/// Trees list the subjects of all their nodes, at every depth, and no other subjects.
pub proof fn law_trees_list_the_subjects_of_their_nodes(
    trees: Seq<SubjectTree>,
    subject: Seq<char>,
)
    ensures
        forest_subjects(trees).contains(subject) <==> exists|node: SubjectTree| #[trigger]
            has_node(trees, node) && node.subject == subject,
{
    if forest_subjects(trees).contains(subject) {
        lemma_listed_has_node(trees, subject);
    }
    if exists|node: SubjectTree| #[trigger] has_node(trees, node) && node.subject == subject {
        let node = choose|node: SubjectTree| #[trigger]
            has_node(trees, node) && node.subject == subject;
        lemma_node_is_listed(trees, node);
    }
}

proof fn lemma_node_is_found(
    parent: Option<Seq<char>>,
    trees: Seq<SubjectTree>,
    path: Seq<Seq<char>>,
    node: SubjectTree,
)
    requires
        well_formed(parent, trees),
        descends(parent, path),
        path.len() > 0,
        path.last() == node.subject,
        has_node(trees, node),
    ensures
        node_at(trees, path) == Some(bare(node)),
    decreases path.len(),
{
    let x = path.last();
    let i = lemma_where_node_is(trees, node);
    if node != trees[i] {
        lemma_node_is_listed(trees[i].children, node);
    }
    lemma_tree_lists(trees[i], x);
    lemma_tree_leads_to_listed(parent, trees, i, x);
    assert(well_labelled(parent, trees[i]));
    assert(well_formed(Some(trees[i].subject), trees[i].children));
    lemma_path_leads(parent, path);
    assert(names_child(parent, path[0]));
    lemma_siblings_apart(parent, trees[i].subject, path[0], x);
    assert(is_first(trees, path[0], i));
    lemma_first_index(trees, path[0], i);
    if path.len() > 1 {
        lemma_node_is_found(Some(path[0]), trees[i].children, path.drop_first(), node);
    } else if node != trees[i] {
        lemma_listed_below_is_longer(trees[i].subject, trees[i].children, x);
    }
}

proof fn lemma_well_formed_below(
    parent: Option<Seq<char>>,
    trees: Seq<SubjectTree>,
    node: SubjectTree,
)
    requires
        well_formed(parent, trees),
        has_node(trees, node),
    ensures
        node.id == "node_"@ + node.subject,
        !node.selected,
        well_formed(Some(node.subject), node.children),
    decreases trees,
{
    let i = lemma_where_node_is(trees, node);
    assert(well_labelled(parent, trees[i]));
    if node != trees[i] {
        lemma_well_formed_below(Some(trees[i].subject), trees[i].children, node);
    }
}

/// The hierarchy has a node for a subject exactly when some stored subject or some reported one,
/// wherever it stands in its list, is that subject or continues it after a dot.
pub proof fn law_subject_has_node_iff_stored_or_reported(
    stored: Seq<SubjectTreeNode>,
    reported: Seq<Subscription>,
    subject: Seq<char>,
)
    ensures
        (exists|node: SubjectTree| #[trigger]
            has_node(hierarchy(stored, reported), node) && node.subject == subject) <==> {
            ||| exists|i: int|
                0 <= i < stored.len() && leads_to(subject, (#[trigger] stored[i]).subject_str@)
            ||| exists|j: int|
                0 <= j < reported.len() && leads_to(subject, (#[trigger] reported[j]).subject@)
        },
{
    let entries = stored_entries(stored) + reported_entries(reported);
    let trees = hierarchy(stored, reported);
    law_hierarchy_lists_each_subject_once(entries);
    law_trees_list_the_subjects_of_their_nodes(trees, subject);
    let listed = forest_subjects(trees).contains(subject);
    if listed {
        let k = choose|k: int|
            0 <= k < entries.len() && leads_to(subject, (#[trigger] entries[k]).subject);
        if k < stored.len() {
            assert(entries[k].subject == stored[k].subject_str@);
        } else {
            assert(entries[k].subject == reported[k - stored.len()].subject@);
        }
    }
    if exists|i: int|
        0 <= i < stored.len() && leads_to(subject, (#[trigger] stored[i]).subject_str@) {
        let i = choose|i: int|
            0 <= i < stored.len() && leads_to(subject, (#[trigger] stored[i]).subject_str@);
        assert(entries[i].subject == stored[i].subject_str@);
        assert(listed);
    }
    if exists|j: int|
        0 <= j < reported.len() && leads_to(subject, (#[trigger] reported[j]).subject@) {
        let j = choose|j: int|
            0 <= j < reported.len() && leads_to(subject, (#[trigger] reported[j]).subject@);
        assert(entries[stored.len() + j].subject == reported[j].subject@);
        assert(listed);
    }
}

/// Every stored subject has a node, and so has each subject it passes on the way down: all that
/// ends before one of its dots.
pub proof fn law_every_stored_subject_has_its_nodes(
    stored: Seq<SubjectTreeNode>,
    reported: Seq<Subscription>,
    i: int,
)
    requires
        0 <= i < stored.len(),
    ensures
        exists|node: SubjectTree| #[trigger]
            has_node(hierarchy(stored, reported), node) && node.subject == stored[i].subject_str@,
        forall|end: int|
            0 <= end < stored[i].subject_str@.len() && stored[i].subject_str@[end] == '.'
                ==> exists|node: SubjectTree| #[trigger]
                has_node(hierarchy(stored, reported), node) && node.subject
                    == #[trigger] stored[i].subject_str@.take(end),
{
    let text = stored[i].subject_str@;
    law_subject_has_node_iff_stored_or_reported(stored, reported, text);
    assert(leads_to(text, stored[i].subject_str@));
    assert forall|end: int| 0 <= end < text.len() && text[end] == '.' implies exists|
        node: SubjectTree,
    | #[trigger]
        has_node(hierarchy(stored, reported), node) && node.subject == #[trigger] text.take(
            end,
        ) by {
        law_subject_has_node_iff_stored_or_reported(stored, reported, text.take(end));
        assert(leads_to(text.take(end), stored[i].subject_str@));
    }
}

/// Every reported subject has a node, and so has each subject it passes on the way down: all that
/// ends before one of its dots.
pub proof fn law_every_reported_subject_has_its_nodes(
    stored: Seq<SubjectTreeNode>,
    reported: Seq<Subscription>,
    j: int,
)
    requires
        0 <= j < reported.len(),
    ensures
        exists|node: SubjectTree| #[trigger]
            has_node(hierarchy(stored, reported), node) && node.subject == reported[j].subject@,
        forall|end: int|
            0 <= end < reported[j].subject@.len() && reported[j].subject@[end] == '.'
                ==> exists|node: SubjectTree| #[trigger]
                has_node(hierarchy(stored, reported), node) && node.subject
                    == #[trigger] reported[j].subject@.take(end),
{
    let text = reported[j].subject@;
    law_subject_has_node_iff_stored_or_reported(stored, reported, text);
    assert(leads_to(text, reported[j].subject@));
    assert forall|end: int| 0 <= end < text.len() && text[end] == '.' implies exists|
        node: SubjectTree,
    | #[trigger]
        has_node(hierarchy(stored, reported), node) && node.subject == #[trigger] text.take(
            end,
        ) by {
        law_subject_has_node_iff_stored_or_reported(stored, reported, text.take(end));
        assert(leads_to(text.take(end), reported[j].subject@));
    }
}

proof fn lemma_stored_source(stored: Seq<SubjectTreeNode>, subject: Seq<char>)
    ensures
        match first_source(stored_entries(stored), subject) {
            Some(source) => exists|i: int|
                {
                    &&& 0 <= i < stored.len()
                    &&& leads_to(subject, (#[trigger] stored[i]).subject_str@)
                    &&& forall|k: int|
                        0 <= k < i ==> !leads_to(subject, (#[trigger] stored[k]).subject_str@)
                    &&& source == stored[i].source
                },
            None => forall|i: int|
                0 <= i < stored.len() ==> !leads_to(subject, (#[trigger] stored[i]).subject_str@),
        },
    decreases stored.len(),
{
    let entries = stored_entries(stored);
    if stored.len() > 0 {
        let before = stored.drop_last();
        assert(entries.drop_last() == stored_entries(before));
        lemma_stored_source(before, subject);
        let n = stored.len() - 1;
        assert(entries.last().subject == stored[n].subject_str@);
        assert(entries.last().source == stored[n].source);
        assert forall|k: int| 0 <= k < n implies #[trigger] stored[k] == before[k] by {}
        match first_source(stored_entries(before), subject) {
            Some(source) => {
                let i = choose|i: int|
                    {
                        &&& 0 <= i < before.len()
                        &&& leads_to(subject, (#[trigger] before[i]).subject_str@)
                        &&& forall|k: int|
                            0 <= k < i ==> !leads_to(subject, (#[trigger] before[k]).subject_str@)
                        &&& source == before[i].source
                    };
                assert(stored[i] == before[i]);
                assert forall|k: int| 0 <= k < i implies !leads_to(
                    subject,
                    (#[trigger] stored[k]).subject_str@,
                ) by {
                    assert(stored[k] == before[k]);
                    assert(!leads_to(subject, before[k].subject_str@));
                }
            },
            None => {
                assert forall|k: int| 0 <= k < n implies !leads_to(
                    subject,
                    (#[trigger] stored[k]).subject_str@,
                ) by {
                    assert(stored[k] == before[k]);
                    assert(!leads_to(subject, before[k].subject_str@));
                }
                if leads_to(subject, stored[n].subject_str@) {
                    assert(leads_to(subject, stored[n].subject_str@));
                }
            },
        }
    }
}

/// What every node of a hierarchy holds: an id made from its subject, no selection, and as its
/// source that of the first stored subject that is its own or lies below it; where there is none,
/// the server.
pub proof fn law_node_has_source_of_first_stored_subject(
    stored: Seq<SubjectTreeNode>,
    reported: Seq<Subscription>,
    node: SubjectTree,
)
    requires
        has_node(hierarchy(stored, reported), node),
    ensures
        node.id == seq!['n', 'o', 'd', 'e', '_'] + node.subject,
        !node.selected,
        forall|i: int|
            {
                &&& 0 <= i < stored.len()
                &&& leads_to(node.subject, (#[trigger] stored[i]).subject_str@)
                &&& forall|k: int|
                    0 <= k < i ==> !leads_to(node.subject, (#[trigger] stored[k]).subject_str@)
            } ==> node.source == stored[i].source,
        (forall|i: int|
            0 <= i < stored.len() ==> !leads_to(node.subject, (#[trigger] stored[i]).subject_str@))
            ==> node.source == SubjectSource::Server,
{
    reveal_strlit("node_");
    assert("node_"@ == seq!['n', 'o', 'd', 'e', '_']);
    let trees = hierarchy(stored, reported);
    let subject = node.subject;
    law_hierarchy_is_well_formed(stored_entries(stored) + reported_entries(reported));
    lemma_well_formed_below(None, trees, node);
    law_way_takes_one_token_at_a_time(subject);
    assert(dotted_prefixes(subject).last() == subject);
    lemma_node_is_found(None, trees, dotted_prefixes(subject), node);
    law_stored_subjects_keep_their_source(stored, reported, subject);
    lemma_stored_source(stored, subject);
    assert forall|i: int|
        {
            &&& 0 <= i < stored.len()
            &&& leads_to(subject, (#[trigger] stored[i]).subject_str@)
            &&& forall|k: int|
                0 <= k < i ==> !leads_to(subject, (#[trigger] stored[k]).subject_str@)
        } implies node.source == stored[i].source by {
        let source = first_source(stored_entries(stored), subject)->0;
        let j = choose|j: int|
            {
                &&& 0 <= j < stored.len()
                &&& leads_to(subject, (#[trigger] stored[j]).subject_str@)
                &&& forall|k: int|
                    0 <= k < j ==> !leads_to(subject, (#[trigger] stored[k]).subject_str@)
                &&& source == stored[j].source
            };
        if i < j {
            assert(!leads_to(subject, stored[i].subject_str@));
        } else if j < i {
            assert(!leads_to(subject, stored[j].subject_str@));
        }
    }
}

/// No two siblings of a hierarchy have the same subject, and each child of a node continues the
/// subject of the node by a dot and one token; at the top stand the subjects of one token.
pub proof fn law_nodes_stand_where_their_subjects_say(
    stored: Seq<SubjectTreeNode>,
    reported: Seq<Subscription>,
    node: SubjectTree,
    i: int,
    j: int,
)
    ensures
        ({
            let top = hierarchy(stored, reported);
            &&& 0 <= i < top.len() ==> !top[i].subject.contains('.')
            &&& 0 <= i < j < top.len() ==> top[i].subject != top[j].subject
        }),
        has_node(hierarchy(stored, reported), node) ==> {
            let below = node.children;
            let n = node.subject.len() as int;
            &&& 0 <= i < below.len() ==> {
                &&& below[i].subject.len() > n
                &&& below[i].subject.take(n) == node.subject
                &&& below[i].subject[n] == '.'
                &&& !below[i].subject.skip(n + 1).contains('.')
            }
            &&& 0 <= i < j < below.len() ==> below[i].subject != below[j].subject
        },
{
    let top = hierarchy(stored, reported);
    law_hierarchy_is_well_formed(stored_entries(stored) + reported_entries(reported));
    if 0 <= i < top.len() {
        assert(well_labelled(None, top[i]));
    }
    if has_node(top, node) {
        lemma_well_formed_below(None, top, node);
        if 0 <= i < node.children.len() {
            assert(well_labelled(Some(node.subject), node.children[i]));
        }
    }
}

/// `a` is told of before `b`: some text that is `a` or lies below it comes before all texts that
/// are `b` or lie below it.
pub open spec fn told_before(texts: Seq<Seq<char>>, a: Seq<char>, b: Seq<char>) -> bool {
    exists|p: int|
        {
            &&& 0 <= p < texts.len()
            &&& leads_to(a, #[trigger] texts[p])
            &&& forall|q: int| 0 <= q < texts.len() && leads_to(b, #[trigger] texts[q]) ==> p < q
        }
}

/// Siblings, at every depth, stand in the order in which they are first told of.
spec fn in_order(texts: Seq<Seq<char>>, trees: Seq<SubjectTree>) -> bool
    decreases trees,
{
    &&& forall|i: int, j: int|
        0 <= i < j < trees.len() ==> told_before(
            texts,
            (#[trigger] trees[i]).subject,
            (#[trigger] trees[j]).subject,
        )
    &&& forall|i: int| 0 <= i < trees.len() ==> in_order(texts, (#[trigger] trees[i]).children)
}

spec fn told(texts: Seq<Seq<char>>, subject: Seq<char>) -> bool {
    exists|p: int| 0 <= p < texts.len() && leads_to(subject, #[trigger] texts[p])
}

proof fn lemma_told_before_push(
    texts: Seq<Seq<char>>,
    text: Seq<char>,
    a: Seq<char>,
    b: Seq<char>,
)
    requires
        told_before(texts, a, b) || (told(texts, a) && !told(texts, b)),
    ensures
        told_before(texts.push(text), a, b),
{
    let p = if told_before(texts, a, b) {
        choose|p: int|
            {
                &&& 0 <= p < texts.len()
                &&& leads_to(a, #[trigger] texts[p])
                &&& forall|q: int|
                    0 <= q < texts.len() && leads_to(b, #[trigger] texts[q]) ==> p < q
            }
    } else {
        choose|p: int| 0 <= p < texts.len() && leads_to(a, #[trigger] texts[p])
    };
    let more = texts.push(text);
    assert(more[p] == texts[p]);
    assert forall|q: int| 0 <= q < more.len() && leads_to(b, #[trigger] more[q]) implies p < q by {
        if q < texts.len() {
            assert(more[q] == texts[q]);
        }
    }
}

proof fn lemma_in_order_push(texts: Seq<Seq<char>>, text: Seq<char>, trees: Seq<SubjectTree>)
    requires
        in_order(texts, trees),
    ensures
        in_order(texts.push(text), trees),
    decreases trees,
{
    assert forall|i: int, j: int| 0 <= i < j < trees.len() implies told_before(
        texts.push(text),
        (#[trigger] trees[i]).subject,
        (#[trigger] trees[j]).subject,
    ) by {
        lemma_told_before_push(texts, text, trees[i].subject, trees[j].subject);
    }
    assert forall|i: int| 0 <= i < trees.len() implies in_order(
        texts.push(text),
        (#[trigger] trees[i]).children,
    ) by {
        lemma_in_order_push(texts, text, trees[i].children);
    }
}

proof fn lemma_in_order_after_insert(
    texts: Seq<Seq<char>>,
    text: Seq<char>,
    trees: Seq<SubjectTree>,
    path: Seq<Seq<char>>,
    source: SubjectSource,
)
    requires
        in_order(texts, trees),
        forall|x: Seq<char>| #[trigger] forest_subjects(trees).contains(x) ==> told(texts, x),
        forall|k: int|
            0 <= k < path.len() && told(texts, #[trigger] path[k]) ==> node_at(
                trees,
                path.take(k + 1),
            ) is Some,
    ensures
        in_order(texts.push(text), insert_path(trees, path, source)),
    decreases path.len(),
{
    let more = texts.push(text);
    let after = insert_path(trees, path, source);
    lemma_in_order_push(texts, text, trees);
    if path.len() > 0 {
        let rest = path.drop_first();
        if holds_subject(trees, path[0]) {
            let m = first_index(trees, path[0]);
            assert(is_first(trees, path[0], m));
            let below = trees[m].children;
            assert forall|x: Seq<char>| #[trigger] forest_subjects(below).contains(x) implies told(
                texts,
                x,
            ) by {
                lemma_tree_lists(trees[m], x);
                lemma_listed_in_some_tree(trees, x);
                assert(forest_subjects(trees).contains(x));
            }
            assert forall|k: int| 0 <= k < rest.len() && told(
                texts,
                #[trigger] rest[k],
            ) implies node_at(below, rest.take(k + 1)) is Some by {
                assert(rest[k] == path[k + 1]);
                assert(node_at(trees, path.take(k + 2)) is Some);
                assert(path.take(k + 2)[0] == path[0]);
                assert(path.take(k + 2).drop_first() == rest.take(k + 1));
            }
            lemma_in_order_after_insert(texts, text, below, rest, source);
            assert forall|i: int, j: int| 0 <= i < j < after.len() implies told_before(
                more,
                (#[trigger] after[i]).subject,
                (#[trigger] after[j]).subject,
            ) by {
                assert(after[i].subject == trees[i].subject);
                assert(after[j].subject == trees[j].subject);
            }
            assert forall|i: int| 0 <= i < after.len() implies in_order(
                more,
                (#[trigger] after[i]).children,
            ) by {
                if i != m {
                    assert(after[i] == trees[i]);
                }
            }
        } else {
            assert(!told(texts, path[0])) by {
                if told(texts, path[0]) {
                    assert(node_at(trees, path.take(1)) is Some);
                    assert(path.take(1)[0] == path[0]);
                }
            }
            let none = Seq::<SubjectTree>::empty();
            assert forall|x: Seq<char>| #[trigger] forest_subjects(none).contains(x) implies told(
                texts,
                x,
            ) by {
                assert(forest_subjects(none).len() == 0);
            }
            assert forall|k: int| 0 <= k < rest.len() && told(
                texts,
                #[trigger] rest[k],
            ) implies node_at(none, rest.take(k + 1)) is Some by {
                assert(rest[k] == path[k + 1]);
                assert(node_at(trees, path.take(k + 2)) is Some);
                assert(path.take(k + 2)[0] == path[0]);
            }
            lemma_in_order_after_insert(texts, text, none, rest, source);
            assert forall|i: int, j: int| 0 <= i < j < after.len() implies told_before(
                more,
                (#[trigger] after[i]).subject,
                (#[trigger] after[j]).subject,
            ) by {
                assert(after[i] == trees[i]);
                if j < trees.len() {
                    assert(after[j] == trees[j]);
                } else {
                    lemma_tree_lists(trees[i], trees[i].subject);
                    lemma_listed_in_some_tree(trees, trees[i].subject);
                    assert(forest_subjects(trees).contains(trees[i].subject));
                    lemma_told_before_push(texts, text, trees[i].subject, path[0]);
                }
            }
            assert forall|i: int| 0 <= i < after.len() implies in_order(
                more,
                (#[trigger] after[i]).children,
            ) by {
                if i < trees.len() {
                    assert(after[i] == trees[i]);
                }
            }
        }
    }
}

spec fn entry_texts(entries: Seq<Entry>) -> Seq<Seq<char>> {
    entries.map_values(|entry: Entry| entry.subject)
}

proof fn lemma_told_by_entries(entries: Seq<Entry>, subject: Seq<char>)
    ensures
        told(entry_texts(entries), subject) <==> first_source(entries, subject) is Some,
{
    let texts = entry_texts(entries);
    lemma_first_source_exists(entries, subject);
    if told(texts, subject) {
        let p = choose|p: int| 0 <= p < texts.len() && leads_to(subject, #[trigger] texts[p]);
        assert(leads_to(subject, entries[p].subject));
    }
    if first_source(entries, subject) is Some {
        let p = choose|p: int|
            0 <= p < entries.len() && leads_to(subject, (#[trigger] entries[p]).subject);
        assert(texts[p] == entries[p].subject);
    }
}

proof fn lemma_hierarchy_in_order(entries: Seq<Entry>)
    ensures
        in_order(entry_texts(entries), insert_all(Seq::empty(), entries)),
    decreases entries.len(),
{
    if entries.len() > 0 {
        let before = entries.drop_last();
        let trees = insert_all(Seq::empty(), before);
        let texts = entry_texts(before);
        let last = entries.last();
        let path = dotted_prefixes(last.subject);
        lemma_hierarchy_in_order(before);
        law_hierarchy_lists_each_subject_once(before);
        assert forall|x: Seq<char>| #[trigger] forest_subjects(trees).contains(x) implies told(
            texts,
            x,
        ) by {
            lemma_first_source_exists(before, x);
            lemma_told_by_entries(before, x);
        }
        assert forall|k: int| 0 <= k < path.len() && told(
            texts,
            #[trigger] path[k],
        ) implies node_at(trees, path.take(k + 1)) is Some by {
            lemma_told_by_entries(before, path[k]);
            law_hierarchy_holds_every_prefix(before, path[k]);
            law_ways_share_their_beginning(last.subject, k);
        }
        lemma_in_order_after_insert(texts, last.subject, trees, path, last.source);
        assert(entry_texts(entries) == texts.push(last.subject));
    }
}

proof fn lemma_in_order_below(
    texts: Seq<Seq<char>>,
    trees: Seq<SubjectTree>,
    node: SubjectTree,
)
    requires
        in_order(texts, trees),
        has_node(trees, node),
    ensures
        in_order(texts, node.children),
    decreases trees,
{
    let i = lemma_where_node_is(trees, node);
    assert(in_order(texts, trees[i].children));
    if node != trees[i] {
        lemma_in_order_below(texts, trees[i].children, node);
    }
}

/// The texts of the stored subjects, followed by those of the reported ones.
pub open spec fn all_texts(
    stored: Seq<SubjectTreeNode>,
    reported: Seq<Subscription>,
) -> Seq<Seq<char>> {
    Seq::new(
        stored.len() + reported.len(),
        |p: int|
            if p < stored.len() {
                stored[p].subject_str@
            } else {
                reported[p - stored.len()].subject@
            },
    )
}

/// Siblings stand in the order in which they are first told of, the stored subjects being told of
/// before the reported ones: at the top of the hierarchy, and below each of its nodes.
pub proof fn law_siblings_stand_in_order_of_first_mention(
    stored: Seq<SubjectTreeNode>,
    reported: Seq<Subscription>,
    node: SubjectTree,
    i: int,
    j: int,
)
    ensures
        0 <= i < j < hierarchy(stored, reported).len() ==> told_before(
            all_texts(stored, reported),
            hierarchy(stored, reported)[i].subject,
            hierarchy(stored, reported)[j].subject,
        ),
        has_node(hierarchy(stored, reported), node) && 0 <= i < j < node.children.len()
            ==> told_before(
            all_texts(stored, reported),
            node.children[i].subject,
            node.children[j].subject,
        ),
{
    let entries = stored_entries(stored) + reported_entries(reported);
    lemma_hierarchy_in_order(entries);
    assert(entry_texts(entries) == all_texts(stored, reported));
    if has_node(hierarchy(stored, reported), node) {
        lemma_in_order_below(entry_texts(entries), hierarchy(stored, reported), node);
    }
}

} // verus!
