use deptree::{Deptree, DeptreeError, TargetIndex, TargetState};

fn sorted(mut v: Vec<TargetIndex>) -> Vec<TargetIndex> {
    v.sort_by_key(|h| h.0);
    v
}

#[test]
fn two_target() {
    let mut deptree = Deptree::<()>::new();
    let a = deptree.add_target("a");
    let b = deptree.add_target("b");
    deptree.depend(b, a);

    assert!(!deptree.done());
    assert_eq!(deptree.name(a), "a");
    assert_eq!(deptree.name(b), "b");

    let ready = deptree.ready();
    assert_eq!(ready.len(), 1);
    assert_eq!(deptree.name(ready[0]), "a");
    assert!(!deptree.done());

    deptree.start(a).unwrap();
    assert!(!deptree.done());

    let ready = deptree.ready();
    assert_eq!(ready.len(), 0);
    assert!(!deptree.done());

    deptree.finish(a).unwrap();
    assert!(!deptree.done());

    let ready = deptree.ready();
    assert_eq!(ready.len(), 1);
    assert_eq!(deptree.name(ready[0]), "b");
    assert!(!deptree.done());

    deptree.start(b).unwrap();
    assert!(!deptree.done());

    let ready = deptree.ready();
    assert_eq!(ready.len(), 0);
    assert!(!deptree.done());

    deptree.finish(b).unwrap();
    assert!(deptree.done());

    let ready = deptree.ready();
    assert_eq!(ready.len(), 0);
}

#[test]
fn two_target_fail() {
    let mut deptree = Deptree::<()>::new();
    let a = deptree.add_target("a");
    let b = deptree.add_target("b");
    deptree.depend(b, a);
    assert!(!deptree.done());

    assert_eq!(deptree.name(a), "a");
    assert_eq!(deptree.name(b), "b");

    let ready = deptree.ready();
    assert_eq!(ready.len(), 1);
    assert_eq!(deptree.name(ready[0]), "a");
    assert!(!deptree.done());

    deptree.start(a).unwrap();
    assert!(!deptree.done());

    let ready = deptree.ready();
    assert_eq!(ready.len(), 0);
    assert!(!deptree.done());

    deptree.fail(a).unwrap();
    assert!(deptree.done());

    let ready = deptree.ready();
    assert_eq!(ready.len(), 0);
}

#[test]
fn dup_simplify() {
    let mut deptree = Deptree::<()>::new();

    let a = deptree.add_target("a");
    let b = deptree.add_target("b");
    let c = deptree.add_target("c");

    deptree.depend(b, a);
    deptree.depend(c, b);
    deptree.depend(c, a);

    let a_dep_by = deptree.depended_by(a);
    assert_eq!(a_dep_by.len(), 2);
    assert!(!a_dep_by.iter().find(|&i| *i == b).is_none());
    assert!(!a_dep_by.iter().find(|&i| *i == c).is_none());

    deptree.simplify();

    let a_dep_by = deptree.depended_by(a);
    assert_eq!(a_dep_by.len(), 1);
    assert_eq!(a_dep_by[0], b);

    let b_dep_by = deptree.depended_by(b);
    assert_eq!(b_dep_by.len(), 1);
    assert_eq!(b_dep_by[0], c);

    let c_dep_by = deptree.depended_by(c);
    assert_eq!(c_dep_by.len(), 0);
}

#[test]
fn dup_simplify_run() {
    let mut deptree = Deptree::<()>::new();

    let a = deptree.add_target("a");
    let b = deptree.add_target("b");
    let c = deptree.add_target("c");

    deptree.depend(b, a);
    deptree.depend(c, b);
    deptree.depend(c, a);

    assert!(!deptree.done());
    assert_eq!(deptree.name(a), "a");
    assert_eq!(deptree.name(b), "b");
    assert_eq!(deptree.name(c), "c");

    let ready = deptree.ready();
    assert_eq!(ready.len(), 1);
    assert_eq!(deptree.name(ready[0]), "a");
    assert!(!deptree.done());

    deptree.start(a).unwrap();
    assert!(!deptree.done());

    let ready = deptree.ready();
    assert_eq!(ready.len(), 0);
    assert!(!deptree.done());

    deptree.finish(a).unwrap();
    assert!(!deptree.done());

    let ready = deptree.ready();
    assert_eq!(ready.len(), 1);
    assert_eq!(deptree.name(ready[0]), "b");
    assert!(!deptree.done());

    deptree.start(b).unwrap();
    assert!(!deptree.done());

    let ready = deptree.ready();
    assert_eq!(ready.len(), 0);
    assert!(!deptree.done());

    deptree.finish(b).unwrap();
    assert!(!deptree.done());

    let ready = deptree.ready();
    assert_eq!(ready.len(), 1);
    assert_eq!(deptree.name(ready[0]), "c");
    assert!(!deptree.done());

    deptree.start(c).unwrap();
    assert!(!deptree.done());

    let ready = deptree.ready();
    assert_eq!(ready.len(), 0);
    assert!(!deptree.done());

    deptree.finish(c).unwrap();
    assert!(deptree.done());

    let ready = deptree.ready();
    assert_eq!(ready.len(), 0);
}

#[test]
fn ready_only_unstarted() {
    let mut t = Deptree::<()>::new();
    let a = t.add_target("a");
    let b = t.add_target("b");
    let c = t.add_target("c");
    t.depend(c, a);
    assert_eq!(sorted(t.ready()), vec![a, b]);
    t.start(a).unwrap();
    assert_eq!(t.ready(), vec![b]);
    t.start(b).unwrap();
    t.fail(b).unwrap();
    assert!(t.ready().is_empty());
    t.finish(a).unwrap();
    assert_eq!(t.ready(), vec![c]);
    for h in t.ready() {
        assert_eq!(t.state(h), TargetState::Unstarted);
    }
}

#[test]
fn start_twice_already_started() {
    let mut t = Deptree::<()>::new();
    let a = t.add_target("a");
    assert_eq!(t.start(a), Ok(()));
    assert_eq!(t.start(a), Err(DeptreeError::AlreadyStarted("a".to_string())));
    assert_eq!(t.state(a), TargetState::Started);
}

#[test]
fn finish_before_start_not_yet_started() {
    let mut t = Deptree::<()>::new();
    let a = t.add_target("a");
    assert_eq!(t.finish(a), Err(DeptreeError::NotYetStarted("a".to_string())));
    assert_eq!(t.state(a), TargetState::Unstarted);
    assert_eq!(t.ready(), vec![a]);
}

#[test]
fn fail_after_finish_and_fail_twice() {
    let mut t = Deptree::<()>::new();
    let a = t.add_target("a");
    let b = t.add_target("b");
    t.start(a).unwrap();
    t.finish(a).unwrap();
    assert_eq!(t.fail(a), Err(DeptreeError::FinishFailed("a".to_string())));
    t.start(b).unwrap();
    assert_eq!(t.fail(b), Ok(()));
    assert_eq!(t.fail(b), Err(DeptreeError::AlreadyFailed("b".to_string())));
    assert_eq!(t.state(a), TargetState::Finished);
    assert_eq!(t.state(b), TargetState::Failed);
}

#[test]
fn every_refusal() {
    let mut t = Deptree::<()>::new();
    let a = t.add_target("a");
    let b = t.add_target("b");
    assert_eq!(t.fail(a), Err(DeptreeError::UnstartedFailed("a".to_string())));
    t.start(a).unwrap();
    t.finish(a).unwrap();
    assert_eq!(t.start(a), Err(DeptreeError::StartedFinished("a".to_string())));
    assert_eq!(t.finish(a), Err(DeptreeError::AlreadyFinished("a".to_string())));
    t.start(b).unwrap();
    t.fail(b).unwrap();
    assert_eq!(t.start(b), Err(DeptreeError::StartedFailed("b".to_string())));
    assert_eq!(t.finish(b), Err(DeptreeError::FinishFailed("b".to_string())));
}

#[test]
fn linear_chain() {
    let mut t = Deptree::<()>::new();
    let a = t.add_target("a");
    let b = t.add_target("b");
    t.depend(b, a);
    assert_eq!(t.ready(), vec![a]);
    t.start(a).unwrap();
    assert_eq!(t.ready(), vec![]);
    t.finish(a).unwrap();
    assert_eq!(t.ready(), vec![b]);
    t.start(b).unwrap();
    t.finish(b).unwrap();
    assert!(t.done());
}

#[test]
fn stuck_on_failure() {
    let mut t = Deptree::<()>::new();
    let a = t.add_target("a");
    let b = t.add_target("b");
    t.depend(b, a);
    t.start(a).unwrap();
    t.fail(a).unwrap();
    assert!(t.done());
    assert_eq!(t.state(b), TargetState::Unstarted);
    assert!(t.ready().is_empty());
}

#[test]
fn diamond_reduction() {
    let mut t = Deptree::<()>::new();
    let a = t.add_target("a");
    let b = t.add_target("b");
    let c = t.add_target("c");
    t.depend(b, a);
    t.depend(c, b);
    t.depend(c, a);
    assert_eq!(sorted(t.depends_on(c)), vec![a, b]);
    assert_eq!(sorted(t.depended_by(a)), vec![b, c]);
    t.simplify();
    assert_eq!(t.depends_on(c), vec![b]);
    assert_eq!(t.depended_by(a), vec![b]);
    assert_eq!(t.depends_on(b), vec![a]);
    assert_eq!(t.depends_on(a), vec![]);
}

#[test]
fn diamond_reduction_on_finish() {
    let mut t = Deptree::<()>::new();
    let a = t.add_target("a");
    let b = t.add_target("b");
    let c = t.add_target("c");
    t.depend(b, a);
    t.depend(c, b);
    t.depend(c, a);
    t.start(a).unwrap();
    t.finish(a).unwrap();
    assert_eq!(t.depends_on(c), vec![b]);
    assert_eq!(t.depended_by(a), vec![b]);
}

#[test]
fn ordered_run_with_reduction() {
    let mut t = Deptree::<()>::new();
    let a = t.add_target("a");
    let b = t.add_target("b");
    let c = t.add_target("c");
    t.depend(b, a);
    t.depend(c, b);
    t.depend(c, a);
    let mut seen = Vec::new();
    for h in [a, b, c] {
        seen.push(t.ready());
        t.start(h).unwrap();
        seen.push(t.ready());
        t.finish(h).unwrap();
    }
    assert_eq!(seen, vec![vec![a], vec![], vec![b], vec![], vec![c], vec![]]);
    assert!(t.done());
}

#[test]
fn simplify_twice_keeps_edges() {
    let mut t = Deptree::<()>::new();
    let a = t.add_target("a");
    let b = t.add_target("b");
    let c = t.add_target("c");
    let d = t.add_target("d");
    t.depend(b, a);
    t.depend(c, b);
    t.depend(d, c);
    t.depend(d, a);
    t.depend(c, a);
    t.simplify();
    let first: Vec<_> = [a, b, c, d].iter().map(|&h| (sorted(t.depends_on(h)), sorted(t.depended_by(h)))).collect();
    t.simplify();
    let second: Vec<_> = [a, b, c, d].iter().map(|&h| (sorted(t.depends_on(h)), sorted(t.depended_by(h)))).collect();
    assert_eq!(first, second);
    assert_eq!(t.depended_by(a), vec![b]);
    assert_eq!(t.depends_on(d), vec![c]);
}

#[test]
fn long_path_reduction() {
    // a <- b <- c <- d, plus d <- a and d <- b: only the chain remains.
    let mut t = Deptree::<()>::new();
    let a = t.add_target("a");
    let b = t.add_target("b");
    let c = t.add_target("c");
    let d = t.add_target("d");
    t.depend(b, a);
    t.depend(c, b);
    t.depend(d, c);
    t.depend(d, a);
    t.depend(d, b);
    t.simplify();
    assert_eq!(t.depended_by(a), vec![b]);
    assert_eq!(t.depended_by(b), vec![c]);
    assert_eq!(t.depends_on(d), vec![c]);
}

#[test]
fn independent_dependencies_wait_for_all() {
    let mut t = Deptree::<()>::new();
    let a = t.add_target("a");
    let b = t.add_target("b");
    let c = t.add_target("c");
    t.depend(c, a);
    t.depend(c, b);
    t.start(a).unwrap();
    t.finish(a).unwrap();
    assert_eq!(t.ready(), vec![b]);
    t.start(b).unwrap();
    t.finish(b).unwrap();
    assert_eq!(t.ready(), vec![c]);
}

#[test]
fn attribs_and_names() {
    let mut t = Deptree::<u32>::new();
    let a = t.add_target_attribs("build", Some(7));
    let b = t.add_target("test");
    assert_eq!(*t.attribs(a), Some(7));
    assert_eq!(*t.attribs(b), None);
    assert_eq!(t.name(b), "test");
    assert_eq!(a, TargetIndex(0));
    assert_eq!(b, TargetIndex(1));
}

#[test]
fn empty_tree_is_done() {
    let t = Deptree::<()>::new();
    assert!(t.done());
    assert!(t.ready().is_empty());
}

#[test]
fn early_started_dependent_rejoins_roots() {
    let mut t = Deptree::<()>::new();
    let a = t.add_target("a");
    let b = t.add_target("b");
    t.depend(b, a);
    t.start(b).unwrap();
    t.start(a).unwrap();
    t.finish(a).unwrap();
    assert!(t.ready().is_empty());
    assert!(!t.done());
    t.finish(b).unwrap();
    assert!(t.done());
}

#[test]
fn refusal_messages() {
    let cases = vec![
        (DeptreeError::AlreadyStarted("x".to_string()), "Target x already started, tried to start"),
        (DeptreeError::StartedFailed("x".to_string()), "Target x failed, tried to start"),
        (DeptreeError::StartedFinished("x".to_string()), "Target x finished, tried to start"),
        (DeptreeError::NotYetStarted("x".to_string()), "Target x not yet started, tried to finish"),
        (DeptreeError::AlreadyFinished("x".to_string()), "Target x already finished, tried to finish"),
        (DeptreeError::FinishFailed("x".to_string()), "Target x already failed, tried to finish"),
        (DeptreeError::AlreadyFailed("x".to_string()), "Target x already failed, tried to fail"),
        (DeptreeError::UnstartedFailed("x".to_string()), "Target x not yet started, tried to fail"),
    ];
    for (e, m) in cases {
        assert_eq!(e.message(), m);
    }
}
