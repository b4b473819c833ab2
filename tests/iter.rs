use batch_rename::iter::{
    format_op, select_iteration_mode, Conflict, DataTracker, Forward, Iteration, MultimodeConflict,
    Operation, Reverse, Schedule,
};

#[test]
fn forward() {
    let from = &["a.txt", "b.txt"];
    let to = &["1.txt", "2.txt"];

    let iterator = Forward::new(from, to);
    assert_eq!(2, iterator.count());
}

#[test]
fn reverse() {
    let from = &["a.txt", "b.txt"];
    let to = &["1.txt", "2.txt"];

    let iterator = Reverse::new(from, to);
    assert_eq!(2, iterator.count());
}

#[test]
fn must_reverse_rename() {
    let from = &["00", "01", "02"];
    let to = &["01", "02", "03"];
    let mut tracker = DataTracker::new(from);
    assert!(tracker.check_iteration(Forward::new(from, to)).is_err());
    assert!(tracker.check_iteration(Reverse::new(from, to)).is_ok());
}

#[test]
fn must_forward_rename() {
    let from = &["01", "02", "03"];
    let to = &["00", "01", "02"];
    let mut tracker = DataTracker::new(from);
    assert!(tracker.check_iteration(Forward::new(from, to)).is_ok());
    assert!(tracker.check_iteration(Reverse::new(from, to)).is_err());
}

fn collect(mut it: impl Iteration<'static>) -> Vec<(String, String)> {
    let mut out = Vec::new();
    while let Some(op) = it.next_operation() {
        out.push((op.from.to_string(), op.to.to_string()));
    }
    out
}

#[test]
fn forward_hands_out_index_order() {
    let from: &'static [&'static str] = &["a", "b", "c"];
    let to: &'static [&'static str] = &["x", "y", "z"];
    let ops = collect(Forward::new(from, to));
    let expected: Vec<(String, String)> =
        vec![("a".into(), "x".into()), ("b".into(), "y".into()), ("c".into(), "z".into())];
    assert_eq!(ops, expected);
}

#[test]
fn reverse_hands_out_reverse_index_order() {
    let from: &'static [&'static str] = &["a", "b", "c"];
    let to: &'static [&'static str] = &["x", "y", "z"];
    let ops = collect(Reverse::new(from, to));
    let expected: Vec<(String, String)> =
        vec![("c".into(), "z".into()), ("b".into(), "y".into()), ("a".into(), "x".into())];
    assert_eq!(ops, expected);
}

#[test]
fn reset_starts_over() {
    let from: &'static [&'static str] = &["a", "b"];
    let to: &'static [&'static str] = &["x", "y"];
    let mut it = Forward::new(from, to);
    assert!(it.next_operation().is_some());
    assert!(it.next_operation().is_some());
    assert!(it.next_operation().is_none());
    it.reset();
    assert_eq!(it.count(), 2);

    let mut back = Reverse::new(from, to);
    assert_eq!(back.next_operation().map(|op| op.from), Some("b"));
    back.reset();
    assert_eq!(back.count(), 2);
}

#[test]
fn empty_batch_is_safe_both_ways() {
    let from: &[&str] = &[];
    let to: &[&str] = &[];
    let mut tracker = DataTracker::new(from);
    assert!(tracker.check_iteration(Forward::new(from, to)).is_ok());
    assert!(tracker.check_iteration(Reverse::new(from, to)).is_ok());
    assert!(matches!(select_iteration_mode(from, to), Ok(Schedule::Forward(_))));
}

#[test]
fn shift_up_conflict_names_first_clash() {
    let from = &["00", "01", "02"];
    let to = &["01", "02", "03"];
    let mut tracker = DataTracker::new(from);
    let conflict = tracker.check_iteration(Forward::new(from, to)).unwrap_err();
    assert_eq!(conflict.from, "00");
    assert_eq!(conflict.to, "01");
}

#[test]
fn shift_up_selects_reverse_order() {
    let from: &'static [&'static str] = &["00", "01", "02"];
    let to: &'static [&'static str] = &["01", "02", "03"];
    match select_iteration_mode(from, to) {
        Ok(Schedule::Reverse(it)) => {
            let ops = collect(it);
            assert_eq!(ops[0], ("02".to_string(), "03".to_string()));
            assert_eq!(ops[2], ("00".to_string(), "01".to_string()));
        }
        _ => panic!("expected the reverse order"),
    }
}

#[test]
fn shift_down_selects_forward_order() {
    let from: &'static [&'static str] = &["01", "02", "03"];
    let to: &'static [&'static str] = &["00", "01", "02"];
    let mut tracker = DataTracker::new(from);
    let conflict = tracker.check_iteration(Reverse::new(from, to)).unwrap_err();
    assert_eq!(conflict.from, "03");
    assert_eq!(conflict.to, "02");
    match select_iteration_mode(from, to) {
        Ok(Schedule::Forward(it)) => {
            let ops = collect(it);
            assert_eq!(ops[0], ("01".to_string(), "00".to_string()));
        }
        _ => panic!("expected the forward order"),
    }
}

#[test]
fn swap_is_unresolvable() {
    let from = &["a", "b"];
    let to = &["b", "a"];
    let mut tracker = DataTracker::new(from);
    assert!(tracker.check_iteration(Forward::new(from, to)).is_err());
    assert!(tracker.check_iteration(Reverse::new(from, to)).is_err());
    match select_iteration_mode(from, to) {
        Err(e) => {
            assert_eq!((e.forward.from.as_str(), e.forward.to.as_str()), ("a", "b"));
            assert_eq!((e.reverse.from.as_str(), e.reverse.to.as_str()), ("b", "a"));
        }
        Ok(_) => panic!("a swap has no safe order"),
    }
}

#[test]
fn disjoint_names_are_safe_forward() {
    let from = &["a.txt", "b.txt"];
    let to = &["1.txt", "2.txt"];
    assert!(matches!(select_iteration_mode(from, to), Ok(Schedule::Forward(_))));
}

#[test]
fn renaming_onto_itself_is_safe() {
    let from = &["a", "b"];
    let to = &["a", "b"];
    assert!(matches!(select_iteration_mode(from, to), Ok(Schedule::Forward(_))));
}

#[test]
fn repeated_source_is_tracked_once() {
    let from = &["a", "a", "b"];
    let to = &["c", "b", "d"];
    let mut tracker = DataTracker::new(from);
    let conflict = tracker.check_iteration(Forward::new(from, to)).unwrap_err();
    assert_eq!((conflict.from.as_str(), conflict.to.as_str()), ("a", "b"));
    assert!(tracker.check_iteration(Reverse::new(from, to)).is_ok());
    tracker.reset();
    assert!(tracker.check_iteration(Reverse::new(from, to)).is_ok());
}

#[test]
fn into_conflict_copies_paths() {
    let op = Operation { from: "x/a.jpg", to: "x/b.jpg" };
    let c = op.into_conflict();
    assert_eq!(c.from, "x/a.jpg");
    assert_eq!(c.to, "x/b.jpg");
}

#[test]
fn conflict_reports() {
    let forward = Conflict { from: "a".to_string(), to: "b".to_string() };
    let reverse = Conflict { from: "b".to_string(), to: "a".to_string() };
    assert_eq!(forward.to_string(), "move conflict\n  a\n  b\n");
    let both = MultimodeConflict::new(forward, reverse);
    assert_eq!(both.forward.from, "a");
    assert_eq!(both.reverse.from, "b");
    assert_eq!(
        both.to_string(),
        "move conflict\n  a\n  b\n\nmove conflict\n  b\n  a\n\ntoo many conflicts\n"
    );
}

#[test]
fn short_trace_line_stays_on_one_line() {
    let op = Operation { from: "a.txt", to: "b.txt" };
    assert_eq!(format_op(&op), "a.txt -> b.txt\n");
}

#[test]
fn long_trace_line_is_split() {
    let from = "d/".repeat(20) + "source.jpg";
    let to = "d/".repeat(20) + "target.jpg";
    let op = Operation { from: &from, to: &to };
    assert_eq!(format_op(&op), format!("{}\n -> {}\n", from, to));
}

#[test]
fn trace_line_of_exactly_eighty_bytes_stays_whole() {
    let from = "a".repeat(38);
    let to = "b".repeat(38);
    let op = Operation { from: &from, to: &to };
    assert_eq!(format_op(&op), format!("{} -> {}\n", from, to));
    let longer = "b".repeat(39);
    let op = Operation { from: &from, to: &longer };
    assert_eq!(format_op(&op), format!("{}\n -> {}\n", from, longer));
}
