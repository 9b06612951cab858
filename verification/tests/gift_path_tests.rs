use gift_circle::gift_path::{
    first_and_last_groups_are_different, get_duplicate_names, get_gift_path,
    has_no_consecutive_group_numbers, has_possible_hamiltonian_path, is_gift_path_valid,
    PathPerson,
};

#[test]
fn test_get_gift_path() {
    let person1 = PathPerson::new("Father".to_string(), "father@example.com".to_string(), 1);
    let person2 = PathPerson::new("Mother".to_string(), "mother@example.com".to_string(), 1);
    let person3 = PathPerson::new("Son".to_string(), "son@example.com".to_string(), 2);
    let person4 = PathPerson::new(
        "Daughter".to_string(),
        "daughter@example.com".to_string(),
        2,
    );

    let participants = vec![person1, person2, person3, person4];

    let mypath = get_gift_path(participants).unwrap();
    assert_eq!(mypath.len(), 4);
}

#[test]
fn test_gift_path_satisfies_all_invariants() {
    let participants = vec![
        PathPerson::new("Father".to_string(), "father@example.com".to_string(), 1),
        PathPerson::new("Mother".to_string(), "mother@example.com".to_string(), 1),
        PathPerson::new("Son".to_string(), "son@example.com".to_string(), 2),
        PathPerson::new(
            "Daughter".to_string(),
            "daughter@example.com".to_string(),
            2,
        ),
    ];
    let mypath = get_gift_path(participants).unwrap();
    assert_eq!(mypath.len(), 4);
    assert!(is_gift_path_valid(&mypath));

    let mut names: Vec<String> = mypath.iter().map(|p| p.name.clone()).collect();
    names.sort();
    assert_eq!(
        names,
        vec![
            "Daughter".to_string(),
            "Father".to_string(),
            "Mother".to_string(),
            "Son".to_string()
        ]
    );

    for i in 0..mypath.len() {
        let next = (i + 1) % mypath.len();
        assert_ne!(mypath[i].group_number, mypath[next].group_number);
        assert_eq!(
            mypath[i].assigned_person_name.as_ref().unwrap(),
            &mypath[next].name
        );
    }
}

#[test]
fn test_path_feasibility_check() {
    let feasible_set = vec![
        PathPerson::new("Father".to_string(), "f@example.com".to_string(), 1),
        PathPerson::new("Mother".to_string(), "m@example.com".to_string(), 1),
        PathPerson::new("Son".to_string(), "s@example.com".to_string(), 2),
        PathPerson::new("Daughter".to_string(), "d@example.com".to_string(), 3),
    ];
    assert!(has_possible_hamiltonian_path(&feasible_set));

    let infeasible_set = vec![
        PathPerson::new("Father".to_string(), "f@example.com".to_string(), 1),
        PathPerson::new("Mother".to_string(), "m@example.com".to_string(), 1),
        PathPerson::new("Son".to_string(), "s@example.com".to_string(), 1),
        PathPerson::new("Daughter".to_string(), "d@example.com".to_string(), 2),
    ];
    assert!(!has_possible_hamiltonian_path(&infeasible_set));
}

#[test]
fn test_path_validation_checks() {
    let alternating = vec![
        PathPerson::new("Father".to_string(), "f@example.com".to_string(), 1),
        PathPerson::new("Mother".to_string(), "m@example.com".to_string(), 2),
        PathPerson::new("Son".to_string(), "s@example.com".to_string(), 1),
        PathPerson::new("Daughter".to_string(), "d@example.com".to_string(), 3),
    ];
    assert!(first_and_last_groups_are_different(&alternating));
    assert!(has_no_consecutive_group_numbers(&alternating));
    assert!(is_gift_path_valid(&alternating));

    let repeating = vec![
        PathPerson::new("Father".to_string(), "f@example.com".to_string(), 1),
        PathPerson::new("Mother".to_string(), "m@example.com".to_string(), 1),
        PathPerson::new("Son".to_string(), "s@example.com".to_string(), 2),
    ];
    assert!(!has_no_consecutive_group_numbers(&repeating));
    assert!(!is_gift_path_valid(&repeating));
}

#[test]
fn test_path_duplicate_names() {
    let with_duplicate = vec![
        PathPerson::new("Mother".to_string(), "m@example.com".to_string(), 1),
        PathPerson::new("Mother".to_string(), "m2@example.com".to_string(), 2),
    ];
    let dups = get_duplicate_names(&with_duplicate);
    assert_eq!(dups, vec!["Mother".to_string()]);

    let without_duplicate = vec![
        PathPerson::new("Mother".to_string(), "m@example.com".to_string(), 1),
        PathPerson::new("Father".to_string(), "f@example.com".to_string(), 2),
    ];
    assert_eq!(get_duplicate_names(&without_duplicate).len(), 0);
}
