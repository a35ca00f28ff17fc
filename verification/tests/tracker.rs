use habits::codec::{from_json, to_json};
use habits::commands::Command;
use habits::numerals::{i64_to_string, parse_i64, u64_to_string};
use habits::storage::{DbError, Habit, HabitPointer, Storage};
use habits::utils::is_in_range;

fn habit(name: &str, completions: Vec<i64>) -> Habit {
    Habit { name: String::from(name), completions }
}

fn names(st: &Storage) -> Vec<String> {
    st.get_habits().iter().map(|h| h.name.clone()).collect()
}

#[test]
fn new_habit_appears_once_at_the_end() {
    let mut st = Storage::new();
    assert!(st.add_habit(habit("read", vec![])).is_ok());
    assert!(st.add_habit(habit("run", vec![])).is_ok());
    let ns = names(&st);
    assert_eq!(ns, vec![String::from("read"), String::from("run")]);
    assert_eq!(ns.iter().filter(|n| n.as_str() == "run").count(), 1);
}

#[test]
fn duplicate_name_is_rejected_and_count_stays_one() {
    let mut st = Storage::new();
    assert!(st.add_habit(habit("read", vec![])).is_ok());
    let r = st.add_habit(habit("read", vec![7]));
    match r {
        Err(DbError::HabitAlreadyExist(n)) => assert_eq!(n, "read"),
        _ => panic!("expected HabitAlreadyExist"),
    }
    let ns = names(&st);
    assert_eq!(ns.iter().filter(|n| n.as_str() == "read").count(), 1);
    assert_eq!(st.get_habits().len(), 1);
}

#[test]
fn delete_absent_name_fails_and_changes_nothing() {
    let mut st = Storage::new();
    assert!(st.add_habit(habit("read", vec![])).is_ok());
    let r = st.delete_habit(HabitPointer::Name(String::from("swim")));
    match r {
        Err(DbError::IncorrectHabitName(n)) => assert_eq!(n, "swim"),
        _ => panic!("expected IncorrectHabitName"),
    }
    assert_eq!(names(&st), vec![String::from("read")]);
}

#[test]
fn delete_index_out_of_bounds_fails_and_changes_nothing() {
    let mut st = Storage::new();
    assert!(st.add_habit(habit("read", vec![])).is_ok());
    assert!(st.add_habit(habit("run", vec![])).is_ok());
    for idx in [-1i64, 2, 100] {
        let r = st.delete_habit(HabitPointer::Number(idx));
        match r {
            Err(DbError::IndexOutOfBounds(m)) => assert_eq!(m, idx.to_string()),
            _ => panic!("expected IndexOutOfBounds"),
        }
    }
    assert_eq!(st.get_habits().len(), 2);
}

#[test]
fn delete_by_valid_index_shifts_later_entries_down() {
    let mut st = Storage::new();
    for n in ["a", "b", "c"] {
        assert!(st.add_habit(habit(n, vec![])).is_ok());
    }
    let r = st.delete_habit(HabitPointer::Number(1));
    assert_eq!(r.ok(), Some(1));
    assert_eq!(names(&st), vec![String::from("a"), String::from("c")]);
}

#[test]
fn delete_by_name_removes_every_match() {
    // duplicates can only enter through a hand-written document
    let doc = "{\"habits\":[{\"name\":\"x\",\"completions\":[]},{\"name\":\"y\",\"completions\":[1]},{\"name\":\"x\",\"completions\":[2]}]}";
    let mut st = from_json(doc).expect("document should load");
    let r = st.delete_habit(HabitPointer::Name(String::from("x")));
    assert_eq!(r.ok(), Some(2));
    assert_eq!(names(&st), vec![String::from("y")]);
}

#[test]
fn round_trip_preserves_entries_and_order() {
    let mut st = Storage::new();
    assert!(st.add_habit(habit("rea\"d\\me", vec![3, -5, 0])).is_ok());
    assert!(st.add_habit(habit("run", vec![])).is_ok());
    assert!(st.add_habit(habit("swim", vec![i64::MAX, i64::MIN])).is_ok());
    let doc = to_json(&st);
    let reloaded = from_json(doc.as_str()).expect("own document should load");
    let a = st.get_habits();
    let b = reloaded.get_habits();
    assert_eq!(a.len(), b.len());
    for (x, y) in a.iter().zip(b.iter()) {
        assert_eq!(x.name, y.name);
        assert_eq!(x.completions, y.completions);
    }
}

#[test]
fn round_trip_of_empty_storage() {
    let st = Storage::new();
    let doc = to_json(&st);
    assert_eq!(doc, "{\"habits\":[]}");
    let reloaded = from_json(doc.as_str()).expect("empty document should load");
    assert_eq!(reloaded.get_habits().len(), 0);
}

#[test]
fn malformed_document_is_rejected() {
    for doc in ["", "{}", "{\"habits\":", "{\"habits\":[{\"name\":\"a\"}]}", "{\"habits\":[]} "] {
        match from_json(doc) {
            Err(DbError::Json(_)) => {}
            _ => panic!("expected Json error for {:?}", doc),
        }
    }
}

#[test]
fn parser_arity_errors_report_expected_and_got() {
    match Command::parse("new a") {
        Err(m) => assert_eq!(m, "Expected 2 arguments, got 1"),
        _ => panic!("expected arity error"),
    }
    match Command::parse("complete") {
        Err(m) => assert_eq!(m, "Expected 1 argument, got 0"),
        _ => panic!("expected arity error"),
    }
    match Command::parse("new a b c") {
        Err(m) => assert_eq!(m, "Expected 2 arguments, got 3"),
        _ => panic!("expected arity error"),
    }
}

#[test]
fn pointer_tokens_parse_as_number_or_name() {
    match Command::parse("complete 3") {
        Ok(Command::Complete(HabitPointer::Number(3))) => {}
        _ => panic!("expected numeric pointer"),
    }
    match Command::parse("complete abc") {
        Ok(Command::Complete(HabitPointer::Name(n))) => assert_eq!(n, "abc"),
        _ => panic!("expected name pointer"),
    }
    match Command::parse("delete -1") {
        Ok(Command::Delete(HabitPointer::Number(-1))) => {}
        _ => panic!("expected numeric pointer"),
    }
    // a value outside the i64 range is a name, as str::parse would fail
    match Command::parse("analytics 9223372036854775808") {
        Ok(Command::Analytics(HabitPointer::Name(n))) => {
            assert_eq!(n, "9223372036854775808")
        }
        _ => panic!("expected name pointer"),
    }
}

#[test]
fn list_and_quit_ignore_trailing_tokens() {
    assert!(matches!(Command::parse("list"), Ok(Command::List)));
    assert!(matches!(Command::parse("list a b c"), Ok(Command::List)));
    assert!(matches!(Command::parse("quit"), Ok(Command::Quit)));
    assert!(matches!(Command::parse("quit now please"), Ok(Command::Quit)));
}

#[test]
fn empty_and_unknown_input_are_rejected() {
    for line in ["", "   \t  "] {
        match Command::parse(line) {
            Err(m) => assert_eq!(m, "Void input"),
            _ => panic!("expected Void input for {:?}", line),
        }
    }
    match Command::parse("dance") {
        Err(m) => assert_eq!(m, "Unexpected command"),
        _ => panic!("expected Unexpected command"),
    }
}

#[test]
fn new_command_keeps_both_arguments() {
    match Command::parse("  new   water daily ") {
        Ok(Command::New(args)) => {
            assert_eq!(args, vec![String::from("water"), String::from("daily")])
        }
        _ => panic!("expected new command"),
    }
}

#[test]
fn numeral_parsing_matches_std() {
    for t in [
        "0", "7", "-1", "+42", "007", "9223372036854775807", "-9223372036854775808",
        "9223372036854775808", "-9223372036854775809", "", "-", "+", "1x", "--2",
        " 3",
    ] {
        assert_eq!(parse_i64(t), t.parse::<i64>().ok(), "token {:?}", t);
    }
}

#[test]
fn numeral_printing_is_decimal() {
    assert_eq!(u64_to_string(0), "0");
    assert_eq!(u64_to_string(90210), "90210");
    assert_eq!(i64_to_string(-804), "-804");
    assert_eq!(i64_to_string(i64::MIN), i64::MIN.to_string());
    assert_eq!(i64_to_string(i64::MAX), i64::MAX.to_string());
}

#[test]
fn complete_appends_a_timestamp_through_either_pointer() {
    let mut st = Storage::new();
    assert!(st.add_habit(habit("read", vec![10])).is_ok());
    assert!(st.add_habit(habit("run", vec![])).is_ok());
    assert!(st.complete_habit(HabitPointer::Name(String::from("read")), 20).is_ok());
    assert!(st.complete_habit(HabitPointer::Number(1), 30).is_ok());
    assert_eq!(st.get_habits()[0].completions, vec![10, 20]);
    assert_eq!(st.get_habits()[1].completions, vec![30]);
    match st.complete_habit(HabitPointer::Name(String::from("swim")), 40) {
        Err(DbError::IncorrectHabitName(n)) => assert_eq!(n, "swim"),
        _ => panic!("expected IncorrectHabitName"),
    }
}

#[test]
fn lookup_resolves_to_first_match_or_position() {
    let mut st = Storage::new();
    assert!(st.add_habit(habit("a", vec![])).is_ok());
    assert!(st.add_habit(habit("b", vec![])).is_ok());
    assert_eq!(st.get_mut_habit(HabitPointer::Name(String::from("b"))).ok(), Some(1));
    assert_eq!(st.get_mut_habit(HabitPointer::Number(0)).ok(), Some(0));
    match st.get_mut_habit(HabitPointer::Number(-3)) {
        Err(DbError::IndexOutOfBounds(m)) => assert_eq!(m, "-3"),
        _ => panic!("expected IndexOutOfBounds"),
    }
}

#[test]
fn range_membership_is_inclusive() {
    assert!(is_in_range(5, 5, 9));
    assert!(is_in_range(9, 5, 9));
    assert!(is_in_range(7, 5, 9));
    assert!(!is_in_range(4, 5, 9));
    assert!(!is_in_range(10, 5, 9));
    assert!(is_in_range(-7, -10, 0));
}
