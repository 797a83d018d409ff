use secret_santa::engine::{assign, assign_with_draws, AssignError};
use secret_santa::graph::{build_graph, get_linked_edges, get_map_val, Config, Edge};

fn config(names: &[&str], partners: &[(&str, &str)]) -> Config {
    Config {
        names: names.iter().map(|s| s.to_string()).collect(),
        partner_map: partners
            .iter()
            .map(|(a, b)| (a.to_string(), b.to_string()))
            .collect(),
    }
}

fn pairs(out: &[(String, String)]) -> Vec<(&str, &str)> {
    out.iter().map(|(a, b)| (a.as_str(), b.as_str())).collect()
}

fn check_valid(names: &[&str], partners: &[(&str, &str)], out: &[(String, String)]) {
    assert_eq!(out.len(), names.len());
    // givers are the names, in list order
    for (i, (giver, _)) in out.iter().enumerate() {
        assert_eq!(giver, names[i]);
    }
    // every receiver is a name, no receiver repeats, and all names receive
    for (_, receiver) in out {
        assert!(names.contains(&receiver.as_str()));
    }
    for name in names {
        assert_eq!(
            out.iter().filter(|(_, r)| r == name).count(),
            1,
            "{} must receive exactly once",
            name
        );
    }
    // no self-gift
    for (giver, receiver) in out {
        assert_ne!(giver, receiver);
    }
    // no partner-gift in the declared direction
    for (giver, receiver) in out {
        for (a, b) in partners {
            if a == giver {
                assert_ne!(receiver, b, "{} must not give to partner {}", giver, b);
            }
        }
    }
}

#[test]
fn minimal_two_participants() {
    let c = config(&["A", "B"], &[]);
    let out = assign_with_draws(&c, &vec![0, 0]).unwrap();
    assert_eq!(pairs(&out), vec![("A", "B"), ("B", "A")]);
}

#[test]
fn minimal_two_participants_any_draws() {
    let c = config(&["A", "B"], &[]);
    for d in [vec![], vec![7, 3], vec![41, 12, 9]] {
        let out = assign_with_draws(&c, &d).unwrap();
        assert_eq!(pairs(&out), vec![("A", "B"), ("B", "A")]);
    }
}

#[test]
fn minimal_two_participants_random() {
    let c = config(&["A", "B"], &[]);
    let out = assign(&c).unwrap();
    assert_eq!(pairs(&out), vec![("A", "B"), ("B", "A")]);
}

#[test]
fn deterministic_under_fixed_draws() {
    let c = config(&["A", "B", "C", "D", "E"], &[("A", "B")]);
    let draws = vec![3, 1, 4, 1, 5];
    let first = assign_with_draws(&c, &draws);
    let second = assign_with_draws(&c, &draws);
    assert_eq!(first, second);
}

#[test]
fn forced_swap_three_participants() {
    // Draws force A->B then B->A, leaving C with only itself: the resolver
    // must repair this into a full three-cycle.
    let c = config(&["A", "B", "C"], &[]);
    let out = assign_with_draws(&c, &vec![0, 0, 0]).unwrap();
    assert_eq!(pairs(&out), vec![("A", "C"), ("B", "A"), ("C", "B")]);
    check_valid(&["A", "B", "C"], &[], &out);

    let out = assign_with_draws(&c, &vec![0, 0, 1]).unwrap();
    assert_eq!(pairs(&out), vec![("A", "B"), ("B", "C"), ("C", "A")]);
    check_valid(&["A", "B", "C"], &[], &out);
}

#[test]
fn partner_driven_swap() {
    // D excludes A. Draws force A->B, B->C, C->A, so D deadlocks; the
    // resolver swaps with whoever D's partner A was assigned to give to.
    let names = ["A", "B", "C", "D"];
    let partners = [("D", "A")];
    let c = config(&names, &partners);
    let out = assign_with_draws(&c, &vec![0, 1, 0]).unwrap();
    assert_eq!(
        pairs(&out),
        vec![("A", "B"), ("B", "D"), ("C", "A"), ("D", "C")]
    );
    check_valid(&names, &partners, &out);
}

#[test]
fn unresolvable_when_partner_unassigned() {
    // C excludes D. Draws force A->B and B->A, so C deadlocks while its
    // partner D has no assignment to inherit: the run is abandoned.
    let c = config(&["A", "B", "C", "D"], &[("C", "D")]);
    assert_eq!(
        assign_with_draws(&c, &vec![0, 0, 0, 0]),
        Err(AssignError::Unresolvable)
    );
}

#[test]
fn unresolvable_symmetric_pair_of_two() {
    // With only a mutually excluded couple no valid assignment exists.
    let c = config(&["A", "B"], &[("A", "B"), ("B", "A")]);
    assert_eq!(
        assign_with_draws(&c, &vec![0, 0]),
        Err(AssignError::Unresolvable)
    );
}

#[test]
fn too_few_participants() {
    let c = config(&["A"], &[]);
    assert_eq!(
        assign_with_draws(&c, &vec![0]),
        Err(AssignError::TooFewParticipants)
    );
    let c = config(&[], &[]);
    assert_eq!(assign(&c), Err(AssignError::TooFewParticipants));
}

#[test]
fn duplicate_name_rejected() {
    let c = config(&["A", "B", "A"], &[]);
    assert_eq!(
        assign_with_draws(&c, &vec![0, 0, 0]),
        Err(AssignError::DuplicateName)
    );
}

#[test]
fn unknown_partner_rejected() {
    let c = config(&["A", "B"], &[("A", "Z")]);
    assert_eq!(
        assign_with_draws(&c, &vec![0, 0]),
        Err(AssignError::UnknownPartner)
    );
}

#[test]
fn empty_partner_entry_means_no_exclusion() {
    let c = config(&["A", "B"], &[("A", "")]);
    let out = assign_with_draws(&c, &vec![0, 0]).unwrap();
    assert_eq!(pairs(&out), vec![("A", "B"), ("B", "A")]);
}

#[test]
fn exclusion_is_directional_in_graph() {
    // A excludes B; B does not exclude A back. Only the declared
    // direction is unlinked.
    let c = config(&["A", "B"], &[("A", "B")]);
    let g = build_graph(&c);
    assert_eq!(g[0][1], Edge::Unlinked);
    assert_eq!(g[1][0], Edge::Linked);
    assert_eq!(g[0][0], Edge::Unlinked);
    assert_eq!(g[1][1], Edge::Unlinked);
}

#[test]
fn asymmetric_exclusion_full_run() {
    // A excludes B, nothing else declared: A never gives to B, but B may
    // still give to A.
    let names = ["A", "B", "C"];
    let partners = [("A", "B")];
    let c = config(&names, &partners);
    let out = assign_with_draws(&c, &vec![0, 0, 0]).unwrap();
    assert_eq!(pairs(&out), vec![("A", "C"), ("B", "A"), ("C", "B")]);
    check_valid(&names, &partners, &out);
}

#[test]
fn graph_empty_input() {
    let c = config(&[], &[]);
    let g = build_graph(&c);
    assert!(g.is_empty());
}

#[test]
fn linked_edges_listed_in_order() {
    let row = vec![Edge::Linked, Edge::Unlinked, Edge::Linked, Edge::Unlinked];
    assert_eq!(get_linked_edges(&row), vec![0, 2]);
    assert_eq!(get_linked_edges(&vec![]), Vec::<usize>::new());
    assert_eq!(
        get_linked_edges(&vec![Edge::Unlinked, Edge::Unlinked]),
        Vec::<usize>::new()
    );
}

#[test]
fn map_lookup_first_match_or_empty() {
    let map = vec![
        ("a".to_string(), "b".to_string()),
        ("c".to_string(), "d".to_string()),
        ("a".to_string(), "e".to_string()),
    ];
    assert_eq!(get_map_val(&map, &"a".to_string()), "b");
    assert_eq!(get_map_val(&map, &"c".to_string()), "d");
    assert_eq!(get_map_val(&map, &"x".to_string()), "");
}

#[test]
fn random_runs_satisfy_all_constraints() {
    // With no exclusions a run always ends in a full valid assignment.
    let names = ["Ann", "Ben", "Cleo", "Dan", "Eve", "Fay"];
    let c = config(&names, &[]);
    for _ in 0..25 {
        let out = assign(&c).unwrap();
        check_valid(&names, &[], &out);
    }
}

#[test]
fn random_runs_with_couple() {
    // A mutually excluded couple among four: a run either succeeds with
    // every constraint met or is reported unresolvable, never anything else.
    let names = ["Ann", "Ben", "Cleo", "Dan"];
    let partners = [("Ann", "Ben"), ("Ben", "Ann")];
    let c = config(&names, &partners);
    for _ in 0..25 {
        match assign(&c) {
            Ok(out) => check_valid(&names, &partners, &out),
            Err(e) => assert_eq!(e, AssignError::Unresolvable),
        }
    }
}
