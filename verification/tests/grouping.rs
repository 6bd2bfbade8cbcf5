use rawsort::group::{group, insert_duplicate, partition, resolve, Assignment, CollisionGroup};

fn pair(source: &str, destination: &str) -> Assignment {
    Assignment { source: source.to_string(), destination: destination.to_string() }
}

fn collision(candidate: &str, members: &[&str]) -> CollisionGroup {
    CollisionGroup {
        candidate: candidate.to_string(),
        members: members.iter().map(|m| m.to_string()).collect(),
    }
}

fn shape(groups: &Vec<CollisionGroup>) -> Vec<(String, Vec<String>)> {
    groups.iter().map(|g| (g.candidate.clone(), g.members.clone())).collect()
}

fn resolved(group: &CollisionGroup) -> Vec<(String, String)> {
    resolve(group).into_iter().map(|a| (a.source, a.destination)).collect()
}

fn owned(pairs: &[(&str, &str)]) -> Vec<(String, String)> {
    pairs.iter().map(|(a, b)| (a.to_string(), b.to_string())).collect()
}

#[test]
fn no_pairs_no_groups() {
    assert!(group(&Vec::new()).is_empty());
}

#[test]
fn files_are_grouped_by_candidate() {
    let pairs = vec![
        pair("/in/1.cr3", "/out/A.cr3"),
        pair("/in/2.cr3", "/out/B.cr3"),
        pair("/in/3.cr3", "/out/A.cr3"),
        pair("/in/4.cr3", "/out/C.cr3"),
        pair("/in/5.cr3", "/out/A.cr3"),
        pair("/in/6.cr3", "/out/B.cr3"),
    ];
    let groups = group(&pairs);
    assert_eq!(
        shape(&groups),
        vec![
            ("/out/A.cr3".to_string(), vec!["/in/1.cr3".to_string(), "/in/3.cr3".to_string(), "/in/5.cr3".to_string()]),
            ("/out/B.cr3".to_string(), vec!["/in/2.cr3".to_string(), "/in/6.cr3".to_string()]),
            ("/out/C.cr3".to_string(), vec!["/in/4.cr3".to_string()]),
        ]
    );
}

#[test]
fn a_late_third_member_joins_its_group() {
    let pairs = vec![
        pair("/in/1.cr3", "/out/A.cr3"),
        pair("/in/2.cr3", "/out/A.cr3"),
        pair("/in/3.cr3", "/out/B.cr3"),
        pair("/in/4.cr3", "/out/A.cr3"),
    ];
    let groups = group(&pairs);
    assert_eq!(groups.len(), 2);
    assert_eq!(groups[0].members, vec!["/in/1.cr3", "/in/2.cr3", "/in/4.cr3"]);
    assert_eq!(groups[1].members, vec!["/in/3.cr3"]);
}

#[test]
fn every_file_is_in_exactly_one_group() {
    let mut pairs = Vec::new();
    for i in 0..60 {
        pairs.push(pair(&format!("/in/{}.cr3", i), &format!("/out/{}.cr3", i % 7)));
    }
    let groups = group(&pairs);
    assert_eq!(groups.len(), 7);
    let total: usize = groups.iter().map(|g| g.members.len()).sum();
    assert_eq!(total, pairs.len());
    for p in &pairs {
        let holding: Vec<&CollisionGroup> =
            groups.iter().filter(|g| g.members.contains(&p.source)).collect();
        assert_eq!(holding.len(), 1);
        assert_eq!(holding[0].candidate, p.destination);
    }
    for i in 0..groups.len() {
        assert!(!groups[i].members.is_empty());
        for j in (i + 1)..groups.len() {
            assert_ne!(groups[i].candidate, groups[j].candidate);
        }
    }
}

#[test]
fn grouping_twice_gives_the_same_groups() {
    let pairs = vec![
        pair("/in/b.cr3", "/out/X.cr3"),
        pair("/in/a.cr3", "/out/X.cr3"),
        pair("/in/c.cr3", "/out/Y.cr3"),
    ];
    assert_eq!(shape(&group(&pairs)), shape(&group(&pairs)));
}

#[test]
fn insertion_opens_a_group_or_joins_one() {
    let mut groups: Vec<CollisionGroup> = Vec::new();
    insert_duplicate(&mut groups, "/out/A.cr3".to_string(), "/in/1.cr3".to_string());
    assert_eq!(shape(&groups), vec![("/out/A.cr3".to_string(), vec!["/in/1.cr3".to_string()])]);
    insert_duplicate(&mut groups, "/out/B.cr3".to_string(), "/in/2.cr3".to_string());
    insert_duplicate(&mut groups, "/out/A.cr3".to_string(), "/in/3.cr3".to_string());
    assert_eq!(
        shape(&groups),
        vec![
            ("/out/A.cr3".to_string(), vec!["/in/1.cr3".to_string(), "/in/3.cr3".to_string()]),
            ("/out/B.cr3".to_string(), vec!["/in/2.cr3".to_string()]),
        ]
    );
}

#[test]
fn singleton_keeps_its_candidate() {
    let only = collision("/out/JD-2020-01-01T10:00:00.cr3", &["/in/1.cr3"]);
    assert_eq!(
        resolved(&only),
        owned(&[("/in/1.cr3", "/out/JD-2020-01-01T10:00:00.cr3")])
    );
}

#[test]
fn singleton_needs_no_extension() {
    let only = collision("/out/README", &["/in/1.cr3"]);
    assert_eq!(resolved(&only), owned(&[("/in/1.cr3", "/out/README")]));
}

#[test]
fn two_members_get_the_first_two_suffixes() {
    let two = collision("/out/JD-2020-01-01T10:00:00.cr3", &["/in/1.cr3", "/in/2.cr3"]);
    assert_eq!(
        resolved(&two),
        owned(&[
            ("/in/1.cr3", "/out/JD-2020-01-01T10:00:00-001.cr3"),
            ("/in/2.cr3", "/out/JD-2020-01-01T10:00:00-002.cr3"),
        ])
    );
}

#[test]
fn suffixes_count_from_one_without_gaps() {
    let members: Vec<String> = (0..12).map(|i| format!("/in/{}.cr3", i)).collect();
    let names: Vec<&str> = members.iter().map(|m| m.as_str()).collect();
    let many = collision("/out/X.cr3", &names);
    let assignments = resolve(&many);
    assert_eq!(assignments.len(), 12);
    for (i, assignment) in assignments.iter().enumerate() {
        assert_eq!(assignment.source, members[i]);
        assert_eq!(assignment.destination, format!("/out/X-{:03}.cr3", i + 1));
    }
}

#[test]
fn destinations_within_a_group_are_distinct() {
    let members: Vec<String> = (0..1100).map(|i| format!("/in/{}.cr3", i)).collect();
    let names: Vec<&str> = members.iter().map(|m| m.as_str()).collect();
    let many = collision("/out/X.cr3", &names);
    let assignments = resolve(&many);
    let distinct: std::collections::HashSet<&String> =
        assignments.iter().map(|a| &a.destination).collect();
    assert_eq!(distinct.len(), 1100);
    assert_eq!(assignments[998].destination, "/out/X-999.cr3");
    assert_eq!(assignments[999].destination, "/out/X-1000.cr3");
}

#[test]
fn assignments_compare_by_source_and_destination() {
    let only = collision("/out/X.cr3", &["/in/1.cr3"]);
    assert_eq!(resolve(&only), vec![pair("/in/1.cr3", "/out/X.cr3")]);
    assert_ne!(resolve(&only), vec![pair("/in/1.cr3", "/out/X-001.cr3")]);
    assert_eq!(only.clone(), only);
}

#[test]
fn an_empty_group_resolves_to_nothing() {
    assert!(resolve(&collision("/out/X.cr3", &[])).is_empty());
}

#[test]
fn insertion_grows_one_group_by_one_and_leaves_the_others() {
    let mut groups = vec![
        collision("/out/A.cr3", &["/in/1.cr3", "/in/2.cr3"]),
        collision("/out/B.cr3", &["/in/3.cr3"]),
    ];
    insert_duplicate(&mut groups, "/out/B.cr3".to_string(), "/in/4.cr3".to_string());
    assert_eq!(
        groups,
        vec![
            collision("/out/A.cr3", &["/in/1.cr3", "/in/2.cr3"]),
            collision("/out/B.cr3", &["/in/3.cr3", "/in/4.cr3"]),
        ]
    );
    insert_duplicate(&mut groups, "/out/C.cr3".to_string(), "/in/5.cr3".to_string());
    assert_eq!(groups.len(), 3);
    assert_eq!(groups[0], collision("/out/A.cr3", &["/in/1.cr3", "/in/2.cr3"]));
    assert_eq!(groups[1], collision("/out/B.cr3", &["/in/3.cr3", "/in/4.cr3"]));
    assert_eq!(groups[2], collision("/out/C.cr3", &["/in/5.cr3"]));
}

#[test]
fn a_file_may_be_in_the_groups_of_two_candidates() {
    let mut groups = vec![collision("/out/A.cr3", &["/in/1.cr3"])];
    insert_duplicate(&mut groups, "/out/B.cr3".to_string(), "/in/1.cr3".to_string());
    assert_eq!(
        groups,
        vec![collision("/out/A.cr3", &["/in/1.cr3"]), collision("/out/B.cr3", &["/in/1.cr3"])]
    );
}

#[test]
fn groups_hold_no_candidate_and_no_file_twice() {
    let mut pairs = Vec::new();
    for i in 0..50 {
        pairs.push(pair(&format!("/in/{}.cr3", i), &format!("/out/{}.cr3", i % 6)));
    }
    let groups = group(&pairs);
    let candidates: std::collections::HashSet<&String> =
        groups.iter().map(|g| &g.candidate).collect();
    assert_eq!(candidates.len(), groups.len());
    for g in &groups {
        assert!(!g.members.is_empty());
        let members: std::collections::HashSet<&String> = g.members.iter().collect();
        assert_eq!(members.len(), g.members.len());
    }
}

#[test]
fn partition_sends_every_group_to_one_side() {
    let groups = vec![
        collision("/out/A.cr3", &["/in/1.cr3", "/in/2.cr3"]),
        collision("/out/B.cr3", &["/in/3.cr3"]),
        collision("/out/C.cr3", &["/in/4.cr3", "/in/5.cr3", "/in/6.cr3"]),
        collision("/out/D.cr3", &["/in/7.cr3"]),
    ];
    let (uniques, duplicates) = partition(&groups);
    assert_eq!(
        uniques,
        vec![pair("/in/3.cr3", "/out/B.cr3"), pair("/in/7.cr3", "/out/D.cr3")]
    );
    assert_eq!(
        duplicates,
        vec![
            collision("/out/A.cr3", &["/in/1.cr3", "/in/2.cr3"]),
            collision("/out/C.cr3", &["/in/4.cr3", "/in/5.cr3", "/in/6.cr3"]),
        ]
    );
}

#[test]
fn partition_of_uniques_only_and_of_nothing() {
    let (uniques, duplicates) = partition(&vec![collision("/out/A.cr3", &["/in/1.cr3"])]);
    assert_eq!(uniques, vec![pair("/in/1.cr3", "/out/A.cr3")]);
    assert!(duplicates.is_empty());
    let (uniques, duplicates) = partition(&Vec::new());
    assert!(uniques.is_empty());
    assert!(duplicates.is_empty());
}

#[test]
fn partition_keeps_a_group_without_members_on_the_second_side() {
    let (uniques, duplicates) = partition(&vec![collision("/out/A.cr3", &[])]);
    assert!(uniques.is_empty());
    assert_eq!(duplicates, vec![collision("/out/A.cr3", &[])]);
}
