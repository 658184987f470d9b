use bevy_platform::collections::HashMap;
use bweb::link::{click_navigates, intercepts_link};
use bweb::{runner_action, MicrotaskTrigger, Pathname, PluginsPhase, RouteParams, RunnerAction};

#[test]
fn pathname_update_keeps_previous() {
    let mut p = Pathname::new("/a".to_string());
    assert_eq!(p.pathname(), "/a");
    p.update("/b".to_string());
    assert_eq!(p.pathname(), "/b");
    assert_eq!(
        format!("{p:?}"),
        "Pathname { previous_path: Some(\"/a\"), pathname: \"/b\" }"
    );
    p.update("/c".to_string());
    assert_eq!(p.pathname(), "/c");
    assert_eq!(
        format!("{p:?}"),
        "Pathname { previous_path: Some(\"/b\"), pathname: \"/c\" }"
    );
}

#[test]
fn route_params_get_extend_clear() {
    let mut params = RouteParams::default();
    assert_eq!(params.get("a"), None);
    params.extend(HashMap::from_iter([
        ("a".to_string(), "1".to_string()),
        ("b".to_string(), "2".to_string()),
    ]));
    params.extend(HashMap::from_iter([("a".to_string(), "3".to_string())]));
    assert_eq!(params.get("a"), Some("3"));
    assert_eq!(params.get("b"), Some("2"));
    params.clear();
    assert_eq!(params.get("b"), None);
}

#[test]
fn link_interception() {
    assert!(intercepts_link(false, false, None));
    assert!(intercepts_link(false, false, Some("_self")));
    assert!(!intercepts_link(true, false, None));
    assert!(!intercepts_link(false, true, None));
    assert!(!intercepts_link(false, false, Some("_blank")));
    assert!(click_navigates(false, false));
    assert!(!click_navigates(true, false));
    assert!(!click_navigates(false, true));
}

#[test]
fn microtask_is_queued_once() {
    let mut t = MicrotaskTrigger::new();
    assert!(t.trigger());
    assert!(!t.trigger());
    assert!(!t.trigger());
    t.microtask_ran();
    assert!(t.trigger());
}

#[test]
fn runner_actions() {
    assert_eq!(runner_action(PluginsPhase::Adding), RunnerAction::Notify);
    assert_eq!(runner_action(PluginsPhase::Ready), RunnerAction::FinishAndNotify);
    assert_eq!(runner_action(PluginsPhase::Finished), RunnerAction::CleanupAndNotify);
    assert_eq!(runner_action(PluginsPhase::Cleaned), RunnerAction::Update);
}

#[test]
fn a_batch_of_triggers_queues_once() {
    let mut t = MicrotaskTrigger::new();
    let answers: Vec<bool> = (0..5).map(|_| t.trigger()).collect();
    assert_eq!(answers, vec![true, false, false, false, false]);
    t.microtask_ran();
    let again: Vec<bool> = (0..3).map(|_| t.trigger()).collect();
    assert_eq!(again, vec![true, false, false]);
}
