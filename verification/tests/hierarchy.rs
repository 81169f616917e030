use nats_webui::hierarchy::{
    add_subject_to_hierarchy, build_subject_hierarchy, Subscription, SubszResponse,
};
use nats_webui::subject::{SubjectSource, SubjectTreeNode};

fn reported(subjects: &[&str]) -> SubszResponse {
    SubszResponse {
        subscriptions_list: subjects
            .iter()
            .map(|s| Subscription { subject: s.to_string() })
            .collect(),
    }
}

fn stored(subject: &str, source: SubjectSource) -> SubjectTreeNode {
    SubjectTreeNode {
        id: format!("stored {}", subject),
        subject_str: subject.to_string(),
        subjects: vec![],
        selected: true,
        source,
    }
}

fn listed(nodes: &[SubjectTreeNode]) -> Vec<String> {
    nodes.iter().flat_map(|node| node.flatten()).collect()
}

#[test]
fn reported_subject_gets_one_node_per_prefix() {
    let tree = build_subject_hierarchy(reported(&["a.b.c"]), vec![]);
    assert_eq!(tree.len(), 1);
    let a = &tree[0];
    assert_eq!(a.id, "node_a");
    assert_eq!(a.subject_str, "a");
    assert!(!a.selected);
    assert_eq!(a.source, SubjectSource::Server);
    let ab = &a.subjects[0];
    assert_eq!(ab.id, "node_a.b");
    assert_eq!(ab.subject_str, "a.b");
    let abc = &ab.subjects[0];
    assert_eq!(abc.id, "node_a.b.c");
    assert_eq!(abc.subject_str, "a.b.c");
    assert!(abc.subjects.is_empty());
    assert_eq!(a.flatten(), vec!["a", "a.b", "a.b.c"]);
}

#[test]
fn nothing_in_gives_nothing_out() {
    assert!(build_subject_hierarchy(reported(&[]), vec![]).is_empty());
}

#[test]
fn subjects_share_their_common_prefixes() {
    let tree = build_subject_hierarchy(reported(&["x.1", "y", "x.2", "x.1"]), vec![]);
    assert_eq!(listed(&tree), vec!["x", "x.1", "x.2", "y"]);
    assert_eq!(tree.len(), 2);
    assert_eq!(tree[0].subjects.len(), 2);
}

#[test]
fn stored_subjects_come_first_and_keep_their_source() {
    let tree = build_subject_hierarchy(
        reported(&["orders.new", "orders.old"]),
        vec![stored("orders.new", SubjectSource::User), stored("z", SubjectSource::Server)],
    );
    assert_eq!(listed(&tree), vec!["orders", "orders.new", "orders.old", "z"]);
    assert_eq!(tree[0].source, SubjectSource::User);
    assert_eq!(tree[0].subjects[0].source, SubjectSource::User);
    assert_eq!(tree[0].subjects[1].source, SubjectSource::Server);
    assert_eq!(tree[1].source, SubjectSource::Server);
}

#[test]
fn first_stored_subject_decides_the_source() {
    let tree = build_subject_hierarchy(
        reported(&[]),
        vec![stored("a.b", SubjectSource::Server), stored("a.c", SubjectSource::User)],
    );
    assert_eq!(tree[0].source, SubjectSource::Server);
    assert_eq!(tree[0].subjects[0].source, SubjectSource::Server);
    assert_eq!(tree[0].subjects[1].source, SubjectSource::User);
}

#[test]
fn only_text_and_source_of_a_stored_node_count() {
    let mut node = stored("a", SubjectSource::User);
    node.subjects.push(stored("a.b", SubjectSource::User));
    let tree = build_subject_hierarchy(reported(&[]), vec![node]);
    assert_eq!(listed(&tree), vec!["a"]);
    assert_eq!(tree[0].id, "node_a");
    assert!(!tree[0].selected);
}

#[test]
fn empty_tokens_are_tokens() {
    let tree = build_subject_hierarchy(reported(&["", ".a", "b..c", "d."]), vec![]);
    assert_eq!(listed(&tree), vec!["", ".a", "b", "b.", "b..c", "d", "d."]);
    assert_eq!(tree[0].id, "node_");
}

#[test]
fn subjects_are_split_by_character_not_by_byte() {
    let tree = build_subject_hierarchy(reported(&["grün.☃.ö"]), vec![]);
    assert_eq!(listed(&tree), vec!["grün", "grün.☃", "grün.☃.ö"]);
    assert_eq!(tree[0].subjects[0].id, "node_grün.☃");
}

#[test]
fn adding_enters_nodes_that_are_there() {
    let mut root = stored("anything", SubjectSource::User);
    let mut a = stored("a", SubjectSource::User);
    a.subjects.push(stored("a.x", SubjectSource::User));
    root.subjects.push(a);
    add_subject_to_hierarchy(&mut root, stored("a.b", SubjectSource::Server));
    assert_eq!(root.subject_str, "anything");
    assert_eq!(root.id, "stored anything");
    assert!(root.selected);
    assert_eq!(root.subjects.len(), 1);
    let a = &root.subjects[0];
    assert_eq!(a.id, "stored a");
    assert!(a.selected);
    assert_eq!(a.source, SubjectSource::User);
    assert_eq!(listed(&a.subjects), vec!["a.x", "a.b"]);
    assert_eq!(a.subjects[1].id, "node_a.b");
    assert_eq!(a.subjects[1].source, SubjectSource::Server);
}

#[test]
fn of_equal_siblings_the_first_is_entered() {
    let mut root = stored("", SubjectSource::User);
    root.subjects.push(stored("a", SubjectSource::User));
    root.subjects.push(stored("a", SubjectSource::User));
    add_subject_to_hierarchy(&mut root, stored("a.b", SubjectSource::Server));
    assert_eq!(listed(&root.subjects), vec!["a", "a.b", "a"]);
}

#[test]
fn adding_twice_is_adding_once() {
    let mut root = stored("", SubjectSource::Server);
    add_subject_to_hierarchy(&mut root, stored("a.b.c", SubjectSource::User));
    add_subject_to_hierarchy(&mut root, stored("a.b.c", SubjectSource::Server));
    add_subject_to_hierarchy(&mut root, stored("a.b", SubjectSource::Server));
    assert_eq!(listed(&root.subjects), vec!["a", "a.b", "a.b.c"]);
    assert_eq!(root.subjects[0].subjects[0].source, SubjectSource::User);
}

#[test]
fn each_subject_is_listed_once() {
    let tree = build_subject_hierarchy(
        reported(&["a.b", "a", "b.a", "a.b.c", "ab", "a.bc"]),
        vec![stored("a.b", SubjectSource::User)],
    );
    let all = listed(&tree);
    assert_eq!(all, vec!["a", "a.b", "a.b.c", "a.bc", "b", "b.a", "ab"]);
    let mut sorted = all.clone();
    sorted.sort();
    sorted.dedup();
    assert_eq!(sorted.len(), all.len());
}
