use gift_circle::gift_circle::{get_gift_circle, move_person, GiftCircleError};
use gift_circle::person::Person;

#[test]
fn test_move_person() {
    let person1 = Person::new("Father", 1);
    let person_to_move = person1.clone();
    let mut move_from = vec![person1];
    let mut move_to: Vec<Person> = vec![];
    move_person(&mut move_from, &mut move_to, &person_to_move);
    assert_eq!(move_from.len(), 0);
    assert_eq!(move_to.len(), 1);
}

#[test]
fn test_move_person_removes_only_first_match() {
    let person = Person::new("Father", 1);
    let mut move_from = vec![person.clone(), person.clone()];
    let mut move_to: Vec<Person> = vec![];
    move_person(&mut move_from, &mut move_to, &person);
    assert_eq!(move_from.len(), 1);
    assert_eq!(move_to.len(), 1);
    assert_eq!(move_from[0].name, "Father");
}

#[test]
fn test_get_gift_circle_using_groups() {
    let people = vec![
        Person::new("Father", 1),
        Person::new("Mother", 1),
        Person::new("Son", 2),
        Person::new("Daughter", 2),
    ];
    if let Ok(gift_circle) = get_gift_circle(people, true) {
        assert_eq!(gift_circle.len(), 4);
    }
}

#[test]
fn test_get_gift_circle_not_using_groups() {
    let people = vec![
        Person::new_no_group("Father"),
        Person::new_no_group("Mother"),
        Person::new_no_group("Son"),
        Person::new_no_group("Daughter"),
    ];
    if let Ok(gift_circle) = get_gift_circle(people, false) {
        assert_eq!(gift_circle.len(), 4);
    }
}

#[test]
#[should_panic]
fn test_get_gift_circle_errors_with_too_few_entries() {
    let people = vec![
        Person::new("Father", 1),
        Person::new("Mother", 1),
        Person::new("Son", 2),
    ];
    get_gift_circle(people, true).unwrap();
}

#[test]
#[should_panic]
fn test_get_gift_circle_errors_with_duplicate_names() {
    let people = vec![
        Person::new("Father", 1),
        Person::new("Mother", 1),
        Person::new("Son", 2),
        Person::new("Father", 3),
    ];
    get_gift_circle(people, true).unwrap();
}

#[test]
fn test_two_participants_rejected_in_either_mode() {
    let people = vec![Person::new("Father", 1), Person::new("Mother", 2)];
    assert!(matches!(
        get_gift_circle(people, true),
        Err(GiftCircleError::InsufficientParticipants)
    ));
    let people = vec![Person::new_no_group("Father"), Person::new_no_group("Mother")];
    assert!(matches!(
        get_gift_circle(people, false),
        Err(GiftCircleError::InsufficientParticipants)
    ));
}

#[test]
fn test_duplicate_names_are_listed() {
    let people = vec![
        Person::new("Mother", 1),
        Person::new("Mother", 2),
        Person::new("Son", 3),
    ];
    match get_gift_circle(people, true) {
        Err(GiftCircleError::DuplicateNames(names)) => {
            assert_eq!(names, vec!["Mother".to_string()]);
        }
        other => panic!("expected duplicate-name rejection, got {:?}", other),
    }
}

#[test]
fn test_missing_group_rejected() {
    let people = vec![
        Person::new("Father", 1),
        Person::new("Mother", 2),
        Person::new_no_group("Son"),
    ];
    assert!(matches!(
        get_gift_circle(people, true),
        Err(GiftCircleError::IncompleteGroupAssignment)
    ));
}

#[test]
fn test_infeasible_group_distribution_rejected() {
    let people = vec![
        Person::new("Father", 1),
        Person::new("Mother", 1),
        Person::new("Son", 1),
        Person::new("Daughter", 2),
    ];
    assert!(matches!(
        get_gift_circle(people, true),
        Err(GiftCircleError::InfeasibleGroupDistribution)
    ));
}

#[test]
fn test_grouped_circle_satisfies_all_invariants() {
    let people = vec![
        Person::new("Father", 1),
        Person::new("Mother", 1),
        Person::new("Son", 2),
        Person::new("Daughter", 2),
    ];
    let circle = get_gift_circle(people, true).unwrap();
    assert_eq!(circle.len(), 4);

    let mut names: Vec<String> = circle.iter().map(|p| p.name.clone()).collect();
    names.sort();
    assert_eq!(
        names,
        vec![
            "Daughter".to_string(),
            "Father".to_string(),
            "Mother".to_string(),
            "Son".to_string()
        ]
    );

    for i in 0..circle.len() {
        let next = (i + 1) % circle.len();
        assert_ne!(circle[i].group_number, circle[next].group_number);
        assert_eq!(
            circle[i].assigned_person_name.as_ref().unwrap(),
            &circle[next].name
        );
    }
}

#[test]
fn test_ungrouped_circle_is_one_cycle_over_everyone() {
    let people = vec![
        Person::new_no_group("Father"),
        Person::new_no_group("Mother"),
        Person::new_no_group("Son"),
        Person::new_no_group("Daughter"),
    ];
    let circle = get_gift_circle(people, false).unwrap();
    assert_eq!(circle.len(), 4);

    let mut names: Vec<String> = circle.iter().map(|p| p.name.clone()).collect();
    names.sort();
    assert_eq!(
        names,
        vec![
            "Daughter".to_string(),
            "Father".to_string(),
            "Mother".to_string(),
            "Son".to_string()
        ]
    );

    let mut visited = vec![false; circle.len()];
    let mut idx = 0;
    for _ in 0..circle.len() {
        assert!(!visited[idx]);
        visited[idx] = true;
        let target = circle[idx].assigned_person_name.clone().unwrap();
        idx = circle.iter().position(|p| p.name == target).unwrap();
    }
    assert_eq!(idx, 0);
    assert!(visited.iter().all(|&v| v));
}
