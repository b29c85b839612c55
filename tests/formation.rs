use guccicci::domain::{Attendee, Person, Team, Teams, TeamsCreationSetting, TeamsCreationSettingError};
use guccicci::run;
use guccicci::strategy::ShuffleStrategies;

fn person(name: &str) -> Person {
    Person { name: name.to_string() }
}

fn attendee(name: &str, leader: Option<bool>) -> Attendee {
    Attendee { person: person(name), leader }
}

fn names(people: &[Person]) -> Vec<String> {
    people.iter().map(|p| p.name.clone()).collect()
}

fn five_attendees(flat: Option<bool>, num_of_teams: u8) -> TeamsCreationSetting {
    TeamsCreationSetting {
        attendees: vec![
            attendee("A", Some(true)),
            attendee("B", Some(true)),
            attendee("C", None),
            attendee("D", Some(false)),
            attendee("E", Some(true)),
        ],
        num_of_teams,
        flat,
    }
}

fn everyone_sorted(teams: &Teams) -> Vec<String> {
    let mut all = Vec::new();
    for team in teams.borrow_vec() {
        all.push(team.leader.name.clone());
        all.extend(names(&team.member));
    }
    all.sort();
    all
}

fn shape(teams: &Teams) -> Vec<(String, Vec<String>)> {
    teams.borrow_vec().iter().map(|t| (t.leader.name.clone(), names(&t.member))).collect()
}

#[test]
fn without_shuffle_leaders_come_from_the_end_and_pool_is_dealt_in_turn() {
    let teams = Teams::create(five_attendees(Some(false), 2), &ShuffleStrategies::NoShuffle).unwrap();

    assert_eq!(
        shape(&teams),
        vec![
            ("E".to_string(), vec!["D".to_string(), "A".to_string()]),
            ("B".to_string(), vec!["C".to_string()]),
        ]
    );
}

#[test]
fn without_shuffle_flat_everyone_may_lead() {
    let teams = Teams::create(five_attendees(Some(true), 3), &ShuffleStrategies::NoShuffle).unwrap();

    assert_eq!(
        shape(&teams),
        vec![
            ("E".to_string(), vec!["B".to_string()]),
            ("D".to_string(), vec!["A".to_string()]),
            ("C".to_string(), vec![]),
        ]
    );
}

#[test]
fn without_shuffle_forming_twice_gives_the_same_teams() {
    let first = Teams::create(five_attendees(None, 2), &ShuffleStrategies::NoShuffle).unwrap();
    let second = Teams::create(five_attendees(None, 2), &ShuffleStrategies::NoShuffle).unwrap();

    assert_eq!(shape(&first), shape(&second));
}

#[test]
fn random_example_two_teams_from_three_leaders() {
    let teams = Teams::create(five_attendees(Some(false), 2), &ShuffleStrategies::RandomShuffle).unwrap();
    let vec = teams.borrow_vec();

    assert_eq!(vec.len(), 2);
    for team in vec {
        assert!(["A", "B", "E"].contains(&team.leader.name.as_str()));
    }
    assert_eq!(vec[0].member.len() + 1, 3);
    assert_eq!(vec[1].member.len() + 1, 2);
    assert_eq!(everyone_sorted(&teams), vec!["A", "B", "C", "D", "E"]);
}

#[test]
fn random_runs_differ_in_member_order() {
    let attendees: Vec<Attendee> = (0..20).map(|i| attendee(&format!("P{}", i), Some(i < 2))).collect();
    let mut shapes = Vec::new();
    for _ in 0..10 {
        let setting = TeamsCreationSetting { attendees: attendees.iter().map(|a| attendee(&a.person.name, a.leader)).collect(), num_of_teams: 2, flat: None };
        let teams = Teams::create(setting, &ShuffleStrategies::RandomShuffle).unwrap();
        shapes.push(shape(&teams));
    }
    assert!(shapes.iter().any(|s| *s != shapes[0]));
}

#[test]
fn zero_teams_is_refused_whatever_the_attendees() {
    let empty = TeamsCreationSetting { attendees: vec![], num_of_teams: 0, flat: None };
    assert_eq!(empty.validate(), Err(TeamsCreationSettingError::NumOfTeamsZero));
    assert_eq!(Teams::create(five_attendees(Some(true), 0), &ShuffleStrategies::NoShuffle).err(), Some(TeamsCreationSettingError::NumOfTeamsZero));
    assert_eq!(run(five_attendees(None, 0)).err(), Some(TeamsCreationSettingError::NumOfTeamsZero));
}

#[test]
fn no_leaders_among_four_for_two_teams() {
    let setting = TeamsCreationSetting {
        attendees: vec![attendee("A", None), attendee("B", Some(false)), attendee("C", None), attendee("D", None)],
        num_of_teams: 2,
        flat: Some(false),
    };
    assert_eq!(setting.validate(), Err(TeamsCreationSettingError::LeadersLack(0, 2)));
    assert_eq!(Teams::create(setting, &ShuffleStrategies::RandomShuffle).err(), Some(TeamsCreationSettingError::LeadersLack(0, 2)));
}

#[test]
fn flat_makes_everyone_a_candidate() {
    let setting = TeamsCreationSetting {
        attendees: vec![attendee("A", None), attendee("B", None), attendee("C", None), attendee("D", None)],
        num_of_teams: 4,
        flat: Some(true),
    };
    assert_eq!(setting.validate(), Ok(()));
    let teams = run(setting).unwrap();
    assert_eq!(teams.borrow_vec().len(), 4);
    assert!(teams.borrow_vec().iter().all(|t| t.member.is_empty()));
}

#[test]
fn exactly_as_many_candidates_as_teams() {
    let teams = run(five_attendees(None, 3)).unwrap();
    let mut leaders: Vec<String> = teams.borrow_vec().iter().map(|t| t.leader.name.clone()).collect();
    leaders.sort();
    assert_eq!(leaders, vec!["A", "B", "E"]);
    assert_eq!(everyone_sorted(&teams), vec!["A", "B", "C", "D", "E"]);
}

#[test]
fn candidate_pools_keep_attendance_order() {
    let setting = five_attendees(None, 2);
    let leaders: Vec<String> = setting.leader_candidates().iter().map(|p| p.name.clone()).collect();
    let others: Vec<String> = setting.normal_attendees().iter().map(|p| p.name.clone()).collect();
    assert_eq!(leaders, vec!["A", "B", "E"]);
    assert_eq!(others, vec!["C", "D"]);
}

#[test]
fn head_count_and_each_once_on_a_larger_group() {
    let attendees: Vec<Attendee> = (0..23).map(|i| attendee(&format!("P{:02}", i), Some(i % 3 == 0))).collect();
    let mut expected: Vec<String> = attendees.iter().map(|a| a.person.name.clone()).collect();
    expected.sort();
    let teams = run(TeamsCreationSetting { attendees, num_of_teams: 5, flat: None }).unwrap();
    let vec = teams.borrow_vec();
    assert_eq!(vec.len(), 5);
    let members: usize = vec.iter().map(|t| t.member.len()).sum();
    assert_eq!(members + 5, 23);
    assert_eq!(everyone_sorted(&teams), expected);
    let counts: Vec<usize> = vec.iter().map(|t| t.member.len()).collect();
    assert_eq!(counts, vec![4, 4, 4, 3, 3]);
}

#[test]
fn dealing_in_turn_stops_when_the_pool_is_empty() {
    let teams = vec![Team::new(person("L1")), Team::new(person("L2"))];
    let pool = vec![person("1"), person("2"), person("3"), person("4"), person("5")];
    let dealt = Teams::deal(teams, pool);
    assert_eq!(
        shape(&dealt),
        vec![
            ("L1".to_string(), vec!["5".to_string(), "3".to_string(), "1".to_string()]),
            ("L2".to_string(), vec!["4".to_string(), "2".to_string()]),
        ]
    );
}

#[test]
fn dealing_an_even_pool_leaves_equal_teams() {
    let teams = vec![Team::new(person("L1")), Team::new(person("L2")), Team::new(person("L3"))];
    let pool: Vec<Person> = (0..6).map(|i| person(&i.to_string())).collect();
    let dealt = Teams::deal(teams, pool);
    let counts: Vec<usize> = dealt.borrow_vec().iter().map(|t| t.member.len()).collect();
    assert_eq!(counts, vec![2, 2, 2]);
}

#[test]
fn dealing_an_empty_pool_changes_nothing() {
    let teams = vec![Team::new(person("L1"))];
    let dealt = Teams::deal(teams, Vec::new());
    assert_eq!(shape(&dealt), vec![("L1".to_string(), vec![])]);
}

#[test]
fn leaders_are_taken_from_the_end() {
    let (teams, rest) = Team::create_by_leader_candidates(vec![person("A"), person("B"), person("C")], 2);
    let leaders: Vec<String> = teams.iter().map(|t| t.leader.name.clone()).collect();
    assert_eq!(leaders, vec!["C", "B"]);
    assert_eq!(names(&rest), vec!["A"]);
}
