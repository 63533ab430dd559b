use gate_keeper::error::ErrorKind;
use gate_keeper::execution::plan_report;
use gate_keeper::store::{
    execution_summary_of, file_times, folder_listing, is_plan_file, missing_folder,
    parse_for_display, plan_id_exists, plan_id_of, stored_plan, ExecutionSummary, QueueStatus,
    SavePlanInput, StoredPlan, TestPlanBrowserEntryKind, TestPlanStore,
};
use gate_keeper::substitution::Variables;

fn plan(id: &str, updated: i64) -> StoredPlan {
    stored_plan(id.to_string(), "GET https://example.com".to_string(), &Variables::new(), 1, updated)
}

fn summary(id: &str, started: i64) -> ExecutionSummary {
    ExecutionSummary {
        id: id.to_string(),
        plan_id: "a.http".to_string(),
        plan_path: "a.http".to_string(),
        plan_name: "a".to_string(),
        started_at_ms: started,
        finished_at_ms: started + 1,
        duration_ms: 1,
        total: 1,
        passed: 1,
        failed: 0,
        report_path: format!("reports/{id}.json"),
        log_path: format!("reports/{id}.log"),
    }
}

fn save(name: &str, directory: Option<&str>) -> SavePlanInput {
    SavePlanInput {
        name: name.to_string(),
        content: "GET https://example.com".to_string(),
        directory: directory.map(|d| d.to_string()),
        variables: Variables::new(),
    }
}

#[test]
fn stored_plans_are_named_after_their_path() {
    let p = plan("team/smoke-tests.http", 5);
    assert_eq!(p.name, "smoke tests");
    assert_eq!(p.path, "team/smoke-tests.http");
    assert_eq!(p.parsed.requests.len(), 1);
}

#[test]
fn unreadable_plans_are_shown_with_their_error() {
    let shown = parse_for_display("broken", "just text", &Variables::new());
    assert_eq!(shown.name, "broken");
    assert_eq!(shown.requests.len(), 0);
    assert_eq!(shown.warnings, vec!["test plan does not contain any executable requests".to_string()]);
}

#[test]
fn plans_are_listed_most_recently_updated_first() {
    let store = TestPlanStore::new(vec![plan("a.http", 1), plan("b.http", 3), plan("c.http", 3), plan("d.http", 2)], vec![]);
    let ids: Vec<String> = store.list_plans().into_iter().map(|s| s.id).collect();
    assert_eq!(ids, vec!["b.http", "c.http", "d.http", "a.http"]);
}

#[test]
fn plans_are_found_by_id_and_path() {
    let mut store = TestPlanStore::new(vec![plan("a.http", 1)], vec![]);
    assert_eq!(store.get_plan("a.http").unwrap().id, "a.http");
    assert_eq!(store.get_plan_by_path(" /a.http/ ").unwrap().id, "a.http");
    assert_eq!(store.get_plan("b.http").unwrap_err().message(), "test plan b.http does not exist");
    assert_eq!(store.get_plan_by_path("../a.http").unwrap_err().message(), "path traversal is not allowed");
    assert_eq!(store.get_plan_by_path("a.txt").unwrap_err().message(), "test plan path must end with .http");
    let updated = store.update_plan("a.http", save("ignored", None), 9).unwrap();
    assert_eq!(updated.created_at_ms, 1);
    assert_eq!(updated.updated_at_ms, 9);
    let removed = store.delete_plan("a.http").unwrap();
    assert_eq!(removed.id, "a.http");
    assert_eq!(store.delete_plan("a.http").unwrap_err().kind(), ErrorKind::NotFound);
}

#[test]
fn new_plans_get_a_free_path() {
    let mut store = TestPlanStore::new(vec![plan("smoke.http", 1), plan("exec-7.http", 1)], vec![]);
    let existing = vec!["smoke-1.http".to_string()];
    let id = store.new_plan_id(&save("Smoke", None), &existing).unwrap();
    assert_eq!(id, "smoke-2.http");
    let id = store.new_plan_id(&save("Other Plan!", Some("team")), &existing).unwrap();
    assert_eq!(id, "team/other-plan.http");
    assert!(store.new_plan_id(&save("x", Some("../up")), &existing).is_err());
    let saved = store.add_saved_plan("team/other-plan.http".to_string(), save("Other", None), 42);
    assert_eq!(saved.name, "other plan");
    assert_eq!(saved.created_at_ms, 42);
    assert!(plan_id_exists(&vec![plan("a.http", 1)], "a.http", None));
    assert!(!plan_id_exists(&vec![plan("a.http", 1)], "a.http", Some("a.http")));
}

#[test]
fn the_queue_tracks_a_run_from_queued_to_finished() {
    let mut store = TestPlanStore::new(vec![plan("a.http", 1)], vec![summary("exec-5-3", 1)]);
    let item = store.enqueue_execution("a.http", 100).unwrap();
    assert_eq!(item.id, "exec-100-4");
    assert_eq!(item.status, QueueStatus::Queued);
    assert_eq!(item.plan_name, "a");
    assert_eq!(store.enqueue_execution("missing.http", 1).unwrap_err().kind(), ErrorKind::NotFound);
    let second = store.enqueue_execution("a.http", 200).unwrap();
    let queued: Vec<String> = store.list_queue().into_iter().map(|q| q.id).collect();
    assert_eq!(queued, vec![second.id.clone(), item.id.clone()]);
    let running = store.mark_queue_running(&item.id, 150).unwrap();
    assert_eq!(running.status, QueueStatus::Running);
    assert_eq!(running.started_at_ms, Some(150));
    let done = store.complete_queue_item(&item.id, &summary(&item.id, 150), 160).unwrap();
    assert_eq!(done.status, QueueStatus::Passed);
    assert_eq!(done.total, Some(1));
    let failed = store.fail_queue_item(&second.id, "boom".to_string(), 210).unwrap();
    assert_eq!(failed.status, QueueStatus::Error);
    assert_eq!(failed.error.as_deref(), Some("boom"));
    assert!(store.list_queue().is_empty());
    assert_eq!(store.mark_queue_running("nope", 1).unwrap_err().message(), "queued execution nope does not exist");
    assert_eq!(QueueStatus::from_failures(0), QueueStatus::Passed);
    assert_eq!(QueueStatus::from_failures(2), QueueStatus::Failed);
}

#[test]
fn executions_are_listed_newest_first_and_can_be_deleted() {
    let mut store = TestPlanStore::new(vec![], vec![summary("e1", 1), summary("e2", 5)]);
    let ids: Vec<String> = store.list_executions().into_iter().map(|s| s.id).collect();
    assert_eq!(ids, vec!["e2", "e1"]);
    assert_eq!(store.get_execution("e1").unwrap().started_at_ms, 1);
    assert!(store.delete_execution("e1").is_ok());
    assert_eq!(store.get_execution("e1").unwrap_err().message(), "execution e1 does not exist");
    assert_eq!(store.delete_execution("e1").unwrap_err().kind(), ErrorKind::NotFound);
    let report = plan_report("e3".to_string(), "a.http", "a", String::new(), 7, 8, 1, vec![]);
    store.record_execution(execution_summary_of(&report, "r.json".to_string(), "r.log".to_string()));
    assert_eq!(store.delete_all_executions(), 2);
    assert!(store.list_executions().is_empty());
}

#[test]
fn folders_list_directories_first_then_names() {
    let store = TestPlanStore::new(vec![plan("team/smoke.http", 9)], vec![]);
    let mut entries = Vec::new();
    for (name, is_dir, is_file) in [
        ("b.http", false, true),
        ("Zeta", true, false),
        (".hidden", true, false),
        ("smoke.http", false, true),
        ("alpha", true, false),
        ("notes.txt", false, true),
        ("A.http", false, true),
    ] {
        if let Some(e) = store.browser_entry("team", name, is_dir, is_file, Some(3)) {
            entries.push(e);
        }
    }
    let listing = folder_listing("team".to_string(), entries);
    assert_eq!(listing.name, "team");
    assert_eq!(listing.parent.as_deref(), Some(""));
    let names: Vec<String> = listing.entries.iter().map(|e| e.name.clone()).collect();
    assert_eq!(names, vec!["alpha", "Zeta", "A.http", "b.http", "smoke"]);
    assert_eq!(listing.entries[0].kind, TestPlanBrowserEntryKind::Directory);
    assert_eq!(listing.entries[4].path, "team/smoke.http");
    assert_eq!(listing.entries[4].updated_at_ms, Some(9));
    assert_eq!(listing.entries[4].request_count, Some(1));
    assert_eq!(listing.entries[2].updated_at_ms, None);
    let root = folder_listing(String::new(), Vec::new());
    assert_eq!(root.name, "plans");
    assert!(root.parent.is_none());
    assert_eq!(missing_folder("x").message(), "test plan directory x does not exist");
}

#[test]
fn plan_files_are_recognized_by_extension() {
    assert!(is_plan_file("a.http"));
    assert!(!is_plan_file(".http"));
    assert!(!is_plan_file("a.https"));
    assert_eq!(plan_id_of("team\\a.http"), "team/a.http");
    assert_eq!(file_times(Some(5), None, 9), (5, 5));
    assert_eq!(file_times(None, Some(2), 9), (2, 9));
}

#[test]
fn a_saved_plan_is_read_back_by_its_id() {
    let mut store = TestPlanStore::new(vec![plan("a.http", 1)], vec![]);
    let id = store.new_plan_id(&save("Fresh", None), &vec![]).unwrap();
    assert_eq!(id, "fresh.http");
    store.add_saved_plan(id.clone(), save("Fresh", None), 7);
    let found = store.get_plan(&id).unwrap();
    assert_eq!(found.id, "fresh.http");
    assert_eq!(found.updated_at_ms, 7);
    store.delete_plan(&id).unwrap();
    assert_eq!(store.get_plan(&id).unwrap_err().kind(), ErrorKind::NotFound);
}

#[test]
fn ids_made_in_the_same_millisecond_differ() {
    let mut store = TestPlanStore::new(vec![plan("a.http", 1)], vec![]);
    let first = store.enqueue_execution("a.http", 5).unwrap();
    let second = store.enqueue_execution("a.http", 5).unwrap();
    assert_ne!(first.id, second.id);
    assert_eq!(first.id, "exec-5-1");
    assert_eq!(second.id, "exec-5-2");
    assert_eq!(store.queue_item(&second.id).unwrap().queued_at_ms, 5);
    assert_eq!(store.next_id("cert", -3), "cert--3-3");
}

#[test]
fn a_queued_run_ends_with_its_summary_or_its_error() {
    let mut store = TestPlanStore::new(vec![plan("a.http", 1)], vec![]);
    let item = store.enqueue_execution("a.http", 10).unwrap();
    assert_eq!(store.queued_plan(&item.id).unwrap().id, "a.http");
    assert_eq!(store.queued_plan("nope").unwrap_err().message(), "queued execution nope does not exist");
    let mut failing = summary(&item.id, 10);
    failing.failed = 1;
    failing.passed = 0;
    let done = store.finish_queued_run(&item.id, Ok(failing), 20).unwrap();
    assert_eq!(done.status, QueueStatus::Failed);
    assert_eq!(done.failed, Some(1));
    assert_eq!(done.finished_at_ms, Some(20));
    let other = store.enqueue_execution("a.http", 30).unwrap();
    assert_ne!(other.id, item.id);
    let err = gate_keeper::error::AppError::Internal("disk full".to_string());
    let broken = store.finish_queued_run(&other.id, Err(err), 40).unwrap();
    assert_eq!(broken.status, QueueStatus::Error);
    assert_eq!(broken.error.as_deref(), Some("disk full"));
    assert!(store.finish_queued_run("nope", Ok(summary("x", 1)), 1).is_err());
    assert!(store.delete_plan("a.http").is_ok());
    assert_eq!(store.queued_plan(&other.id).unwrap_err().message(), "test plan a.http does not exist");
    let third = store.enqueue_execution("a.http", 50);
    assert!(third.is_err());
}

#[test]
fn hidden_entries_are_recognised() {
    assert!(gate_keeper::store::is_hidden_entry(".git"));
    assert!(!gate_keeper::store::is_hidden_entry("a.http"));
    assert!(!gate_keeper::store::is_hidden_entry(""));
}
