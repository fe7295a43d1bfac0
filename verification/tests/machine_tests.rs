use kernel::sources::{enrollment, source_kind, source_prefix, Comparison, Enrollment, SourceKind};
use kernel::step::{run_as_ndet, Machine, Next, Task};

type M = Machine<&'static str, u8, u16, Vec<u32>>;

#[test]
fn machine_runs_tasks_last_in_first_out() {
    let mut m: M = Machine::new("root", false);
    match m.next() {
        Next::Run { task: Task::Eval(e), poll } => {
            assert_eq!(e, "root");
            assert!(!poll);
        }
        _ => panic!("expected the root task"),
    }
    m.push_task(Task::Apply(1));
    m.push_task(Task::Transition(2));
    assert!(matches!(m.next(), Next::Run { task: Task::Transition(2), .. }));
    assert!(matches!(m.next(), Next::Run { task: Task::Apply(1), .. }));
    assert!(matches!(m.next(), Next::Done));
    assert_eq!(m.steps, 0);
}

#[test]
fn machine_polls_every_1024th_task_when_cancellable() {
    let mut m: M = Machine::new("root", true);
    let mut polls = Vec::new();
    for k in 1..=3000u32 {
        m.push_task(Task::Apply(0));
        if let Next::Run { poll, .. } = m.next() {
            if poll {
                polls.push(k);
            }
        }
    }
    assert_eq!(polls, vec![1024, 2048]);
}

#[test]
fn machine_result_is_the_last_value() {
    let mut m: M = Machine::new("root", false);
    assert_eq!(Machine::<&str, u8, u16, Vec<u32>>::new("x", false).finish(), None);
    m.push_val(vec![1]);
    m.push_val(vec![2, 3]);
    assert_eq!(m.finish(), Some(vec![2, 3]));
}

#[test]
fn run_as_ndet_streams_results_in_order() {
    let s = run_as_ndet(Ok::<Vec<u32>, String>(vec![3, 1, 2])).unwrap();
    assert_eq!(s.into_results(), vec![3, 1, 2]);
    assert!(run_as_ndet::<u32>(Err("boom".to_string())).is_err());
}

#[test]
fn sources_are_recognised_by_head() {
    assert_eq!(source_kind(&[2, 195, b'B', b'T', b'M', 193, b'x']), Some(SourceKind::Btm));
    assert_eq!(source_kind(&[3, 194, b'=', b'=', 193, b'a', 193, b'b']), Some(SourceKind::Cmp(Comparison::Equal)));
    assert_eq!(source_kind(&[3, 194, b'!', b'=', 193, b'a', 193, b'b']), Some(SourceKind::Cmp(Comparison::NotEqual)));
    assert_eq!(source_kind(&[3, 194, b'<', b'=', 193, b'a', 193, b'b']), None);
    assert_eq!(source_kind(&[2, 195, b'A', b'C', b'T', 193, b'x']), None);
    assert_eq!(source_kind(&[0]), None);
}

#[test]
fn source_prefixes_are_their_heads() {
    assert_eq!(source_prefix(SourceKind::Btm), vec![2, 195, b'B', b'T', b'M']);
    assert_eq!(source_prefix(SourceKind::Cmp(Comparison::Equal)), vec![3, 194, b'=', b'=']);
    assert_eq!(source_prefix(SourceKind::Cmp(Comparison::NotEqual)), vec![3, 194, b'!', b'=']);
}

#[test]
fn comparison_enrolls_at_complete_paths_only() {
    assert_eq!(enrollment(Comparison::Equal, 0), Some(Enrollment::Same));
    assert_eq!(enrollment(Comparison::NotEqual, 0), Some(Enrollment::AllBut));
    assert_eq!(enrollment(Comparison::Equal, 2), None);
}

#[test]
fn a_raised_flag_at_a_poll_ends_the_run_with_no_results() {
    let mut m: M = Machine::new("root", true);
    m.push_val(vec![7]);
    m.push_task(Task::Apply(1));
    assert!(!m.cancel_if_raised(false, true));
    assert!(!m.cancel_if_raised(true, false));
    assert_eq!(m.work.len(), 2);
    assert_eq!(m.vals.len(), 1);
    assert!(m.cancel_if_raised(true, true));
    assert!(m.work.is_empty());
    assert!(matches!(m.next(), Next::Done));
    assert_eq!(m.finish(), None);
}
