use gift_circle::group::Group;
use gift_circle::people::PeopleCycle;
use gift_circle::person::Person;

#[test]
fn test_assign_gift_recipients() {
    let mut people = vec![
        Person::new("Father", 1),
        Person::new("Mother", 2),
        Person::new("Son", 1),
        Person::new("Daughter", 3),
    ];
    people.assign_gift_recipients();
    let last_persons_assigned_name = people
        .last()
        .unwrap()
        .to_owned()
        .assigned_person_name
        .unwrap();

    let first_persons_name = people[0].name.clone();
    assert!(last_persons_assigned_name == first_persons_name);
}

#[test]
fn test_largest_group() {
    let people = vec![
        Person::new("Father", 1),
        Person::new("Mother", 1),
        Person::new("Son", 2),
    ];
    assert_eq!(people.largest_group(), Group::new(1, 2u16));
}

#[test]
fn test_largest_non_prev_group() {
    let people = vec![
        Person::new("Father", 1),
        Person::new("Mother", 1),
        Person::new("Son", 2),
        Person::new("Daughter", 2),
    ];
    assert_eq!(people.largest_non_prev_group(2), Group::new(1, 2u16));
}

#[test]
fn test_has_possible_hamiltonian_path_true() {
    let people = vec![
        Person::new("Father", 1),
        Person::new("Mother", 1),
        Person::new("Son", 2),
        Person::new("Daughter", 3),
    ];
    assert!(people.has_possible_hamiltonian_path());
}

#[test]
fn test_has_possible_hamiltonian_path_false() {
    let people = vec![
        Person::new("Father", 1),
        Person::new("Mother", 1),
        Person::new("Son", 1),
        Person::new("Daughter", 2),
    ];
    assert!(!people.has_possible_hamiltonian_path());
}

#[test]
fn test_has_empty_group_false() {
    let people = vec![
        Person::new("Father", 1),
        Person::new("Mother", 1),
        Person::new("Son", 1),
        Person::new("Daughter", 2),
    ];
    assert!(!people.has_empty_group());
}

#[test]
fn test_has_empty_group_true() {
    let people = vec![
        Person::new("Father", 1),
        Person::new("Mother", 1),
        Person::new("Son", 1),
        Person::new_no_group("Daughter"),
    ];
    assert!(people.has_empty_group());
}

#[test]
fn test_get_duplicate_names_one() {
    let people = vec![Person::new("Mother", 1), Person::new("Mother", 1)];
    assert_eq!(people.get_duplicated_names().len(), 1);
}

#[test]
fn test_get_duplicate_names_none() {
    let people = vec![Person::new("Mother", 1), Person::new("Father", 1)];
    assert_eq!(people.get_duplicated_names().len(), 0);
}

#[test]
fn test_first_and_last_groups_are_different_true() {
    let people = vec![
        Person::new("Father", 1),
        Person::new("Mother", 2),
        Person::new("Son", 1),
        Person::new("Daughter", 3),
    ];
    assert!(people.first_and_last_groups_are_different());
}

#[test]
fn test_first_and_last_groups_are_different_false() {
    let people = vec![
        Person::new("Father", 1),
        Person::new("Mother", 2),
        Person::new("Son", 1),
    ];
    assert!(!people.first_and_last_groups_are_different());
}

#[test]
fn test_has_no_consecutive_group_numbers_true() {
    let people = vec![
        Person::new("Father", 1),
        Person::new("Mother", 2),
        Person::new("Son", 1),
        Person::new("Daughter", 3),
    ];
    assert!(people.has_no_consecutive_group_numbers());
}

#[test]
fn test_has_no_consecutive_group_numbers_false() {
    let people = vec![
        Person::new("Father", 1),
        Person::new("Mother", 2),
        Person::new("Son", 2),
        Person::new("Daughter", 3),
    ];
    assert!(!people.has_no_consecutive_group_numbers());
}

#[test]
fn test_is_valid_gift_circle() {
    let people = vec![
        Person::new("Father", 1),
        Person::new("Mother", 2),
        Person::new("Son", 1),
        Person::new("Daughter", 3),
    ];
    assert!(people.is_valid_gift_circle());
}

#[test]
fn test_validation_applied_twice_agrees() {
    let people = vec![
        Person::new("Father", 1),
        Person::new("Mother", 2),
        Person::new("Son", 1),
        Person::new("Daughter", 3),
    ];
    let first_verdict = people.is_valid_gift_circle();
    let second_verdict = people.is_valid_gift_circle();
    assert_eq!(first_verdict, second_verdict);

    let invalid = vec![Person::new("Father", 1), Person::new("Mother", 1)];
    let first_verdict = invalid.is_valid_gift_circle();
    let second_verdict = invalid.is_valid_gift_circle();
    assert_eq!(first_verdict, second_verdict);
    assert!(!first_verdict);
}

#[test]
fn test_duplicate_detection_reports_the_name() {
    let people = vec![Person::new("Mother", 1), Person::new("Mother", 1)];
    let dups = people.get_duplicated_names();
    assert_eq!(dups, vec!["Mother".to_string()]);
}

#[test]
fn test_person_constructors() {
    let p = Person::new("Father", 1);
    assert_eq!(p.name, "Father");
    assert_eq!(p.group_number, Some(1));
    assert!(p.email_address.is_none());
    assert!(p.assigned_person_name.is_none());

    let q = Person::new_no_group("Mother");
    assert_eq!(q.name, "Mother");
    assert_eq!(q.group_number, None);
    assert!(q.email_address.is_none());
    assert!(q.assigned_person_name.is_none());
}

#[test]
fn test_group_new() {
    let g = Group::new(3, 2);
    assert_eq!(g.number, 3);
    assert_eq!(g.size, 2);
}
