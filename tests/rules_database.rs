use osmose::decision::Decision;
use osmose::identifier::Identifier;
use osmose::rules_database::RulesDatabase;

fn record(source: &str, destinations: &[&str]) -> (String, Vec<String>) {
    (source.to_string(), destinations.iter().map(|d| d.to_string()).collect())
}

fn test_config() -> Vec<(String, Vec<String>)> {
    vec![
        record("process1", &["process2", "process3"]),
        record("process2", &["process1"]),
    ]
}

#[test]
fn test_create_db() {
    let _ = RulesDatabase::new(test_config());
}

#[test]
fn test_allowed() {
    let id1 = Identifier::from_given("process1", 111);
    let id2 = Identifier::from_given("process2", 222);
    let id3 = Identifier::from_given("process3", 333);
    let db = RulesDatabase::new(test_config());
    assert_eq!(db.is_call_allowed(&id1, &id2), Decision::ALLOW);
    assert_eq!(db.is_call_allowed(&id1, &id3), Decision::ALLOW);
    assert_eq!(db.is_call_allowed(&id2, &id1), Decision::ALLOW);
}

#[test]
fn test_not_allowed() {
    let id1 = Identifier::from_given("process1", 111);
    let id2 = Identifier::from_given("process2", 222);
    let id3 = Identifier::from_given("process3", 333);
    let id4 = Identifier::from_given("process4", 444);
    let db = RulesDatabase::new(test_config());
    assert_eq!(db.is_call_allowed(&id1, &id4), Decision::DISALLOWED_DESTINATION);
    assert_eq!(db.is_call_allowed(&id2, &id3), Decision::DISALLOWED_DESTINATION);
    assert_eq!(db.is_call_allowed(&id3, &id1), Decision::SOURCE_UNKNOWN);
    assert_eq!(db.is_call_allowed(&id4, &id1), Decision::SOURCE_UNKNOWN);
    assert_eq!(db.is_call_allowed(&id4, &id3), Decision::SOURCE_UNKNOWN);
}

#[test]
fn ids_do_not_take_part_in_evaluation() {
    let db = RulesDatabase::new(test_config());
    let a = Identifier::from_given("process1", 1);
    let b = Identifier::from_given("process2", 99999);
    assert_eq!(db.is_call_allowed(&a, &b), Decision::ALLOW);
}

#[test]
fn later_record_replaces_earlier_one() {
    let db = RulesDatabase::new(vec![
        record("a", &["b", "c"]),
        record("x", &["y"]),
        record("a", &["d"]),
    ]);
    let a = Identifier::from_given("a", 1);
    assert_eq!(db.is_call_allowed(&a, &Identifier::from_given("d", 2)), Decision::ALLOW);
    assert_eq!(
        db.is_call_allowed(&a, &Identifier::from_given("b", 2)),
        Decision::DISALLOWED_DESTINATION
    );
    assert_eq!(
        db.is_call_allowed(&Identifier::from_given("x", 1), &Identifier::from_given("y", 2)),
        Decision::ALLOW
    );
}

#[test]
fn empty_destination_set_denies_everything() {
    let db = RulesDatabase::new(vec![record("lonely", &[])]);
    let s = Identifier::from_given("lonely", 1);
    assert_eq!(
        db.is_call_allowed(&s, &Identifier::from_given("lonely", 1)),
        Decision::DISALLOWED_DESTINATION
    );
    assert_eq!(
        db.is_call_allowed(&s, &Identifier::from_given("", 1)),
        Decision::DISALLOWED_DESTINATION
    );
}

#[test]
fn empty_store_knows_no_source() {
    let db = RulesDatabase::new(Vec::new());
    assert_eq!(
        db.is_call_allowed(&Identifier::from_given("", 0), &Identifier::from_given("", 0)),
        Decision::SOURCE_UNKNOWN
    );
}

#[test]
fn repeated_requests_get_the_same_decision() {
    let db = RulesDatabase::new(test_config());
    let a = Identifier::from_given("process1", 111);
    let b = Identifier::from_given("process4", 444);
    let first = db.is_call_allowed(&a, &b);
    for _ in 0..5 {
        assert_eq!(db.is_call_allowed(&a, &b), first);
    }
}

#[test]
fn identifier_equality_is_by_name_and_id() {
    assert!(Identifier::from_given("p", 1) == Identifier::from_given("p", 1));
    assert!(Identifier::from_given("p", 1) != Identifier::from_given("p", 2));
    assert!(Identifier::from_given("p", 1) != Identifier::from_given("q", 1));
    let me = Identifier::new(4242);
    assert_eq!(me.get_name(), "");
    assert_eq!(me.get_id(), 4242);
    let c = Identifier::from_given("proc", 7).duplicate();
    assert_eq!(c.get_name(), "proc");
    assert_eq!(c.get_id(), 7);
}
