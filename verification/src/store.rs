//! The records of the test plan service: saved plans, the execution queue, and the
//! summaries of past runs, with the rules that keep them.
use vstd::prelude::*;

use crate::certificates::{
    id_suffix, lemma_fresh_suffix, lemma_suffixes_below_push, next_count, spec_id_suffix,
    suffixes_below, views, wrapping_next,
};
use crate::error::{AppError, AppResult, ErrorKind};
use crate::execution::ExecutionReport;
use crate::plan::{TestPlan, TestPlanInput};
use crate::plan_parser::{parse, spec_parse, BlockDraws, PlanView};
use crate::plan_paths::{
    clean_plan_path, plan_display_name, spec_clean_plan_path, spec_join_relative_path,
    spec_plan_display_name, spec_slugify_plan_name,
};
use crate::sorting::{is_newest_first, newest_first, sort_newest_first, Timestamped};
use crate::substitution::Variables;
use crate::text::{
    append, ascii_lower, chars_of, dec_int, dec_nat, push_dec_i64, push_dec_u64, same_chars,
    string_of, to_ascii_lower,
};

verus! {

// ---------------------------------------------------------------------------
// Records

/// A saved plan: its id (its path under the plans directory), its display name,
/// its text, and the plan read from it.
#[derive(Debug)]
pub struct StoredPlan {
    pub id: String,
    pub name: String,
    pub path: String,
    pub content: String,
    pub parsed: TestPlan,
    pub created_at_ms: i64,
    pub updated_at_ms: i64,
}

/// What the list of saved plans shows of a plan.
#[derive(Debug)]
pub struct StoredPlanSummary {
    pub id: String,
    pub name: String,
    pub path: String,
    pub request_count: usize,
    pub warning_count: usize,
    pub created_at_ms: i64,
    pub updated_at_ms: i64,
}

/// What is kept of a finished run.
#[derive(Debug)]
pub struct ExecutionSummary {
    pub id: String,
    pub plan_id: String,
    pub plan_path: String,
    pub plan_name: String,
    pub started_at_ms: i64,
    pub finished_at_ms: i64,
    pub duration_ms: u128,
    pub total: usize,
    pub passed: usize,
    pub failed: usize,
    pub report_path: String,
    pub log_path: String,
}

/// A finished run with its report and log.
#[derive(Debug)]
pub struct StoredExecution {
    pub summary: ExecutionSummary,
    pub report: ExecutionReport,
    pub log: String,
}

/// Where a queued run stands.
#[derive(Debug, Clone, Copy, PartialEq, Eq, Structural)]
pub enum QueueStatus {
    Queued,
    Running,
    Passed,
    Failed,
    Error,
}

impl QueueStatus {
    /// The status of a finished run with `failed` failed requests.
    pub fn from_failures(failed: usize) -> (r: Self)
        ensures
            r == (if failed == 0 {
                QueueStatus::Passed
            } else {
                QueueStatus::Failed
            }),
    {
        if failed == 0 {
            QueueStatus::Passed
        } else {
            QueueStatus::Failed
        }
    }
}

/// A run in the execution queue.
#[derive(Debug)]
pub struct ExecutionQueueItem {
    pub id: String,
    pub plan_id: String,
    pub plan_path: String,
    pub plan_name: String,
    pub status: QueueStatus,
    pub queued_at_ms: i64,
    pub started_at_ms: Option<i64>,
    pub finished_at_ms: Option<i64>,
    pub total: Option<usize>,
    pub passed: Option<usize>,
    pub failed: Option<usize>,
    pub error: Option<String>,
    pub report_path: Option<String>,
    pub log_path: Option<String>,
}

/// What a plan is saved from.
#[derive(Debug)]
pub struct SavePlanInput {
    pub name: String,
    pub content: String,
    pub directory: Option<String>,
    pub variables: Variables,
}

/// A folder of plans.
#[derive(Debug)]
pub struct FolderInput {
    pub path: String,
}

/// A folder of plans and its new name.
#[derive(Debug)]
pub struct RenameFolderInput {
    pub path: String,
    pub name: String,
}

impl Timestamped for StoredPlanSummary {
    open spec fn stamp(&self) -> int {
        self.updated_at_ms as int
    }

    fn timestamp(&self) -> (t: i64) {
        self.updated_at_ms
    }
}

impl Timestamped for ExecutionSummary {
    open spec fn stamp(&self) -> int {
        self.started_at_ms as int
    }

    fn timestamp(&self) -> (t: i64) {
        self.started_at_ms
    }
}

impl Timestamped for ExecutionQueueItem {
    open spec fn stamp(&self) -> int {
        self.queued_at_ms as int
    }

    fn timestamp(&self) -> (t: i64) {
        self.queued_at_ms
    }
}

/// A copy of an optional string.
fn copy_opt(o: &Option<String>) -> (r: Option<String>)
    ensures
        r == *o,
{
    match o {
        Some(s) => Some(s.clone()),
        None => None,
    }
}

impl ExecutionSummary {
    /// A copy of the summary.
    pub fn duplicate(&self) -> (r: Self)
        ensures
            r == *self,
    {
        ExecutionSummary {
            id: self.id.clone(),
            plan_id: self.plan_id.clone(),
            plan_path: self.plan_path.clone(),
            plan_name: self.plan_name.clone(),
            started_at_ms: self.started_at_ms,
            finished_at_ms: self.finished_at_ms,
            duration_ms: self.duration_ms,
            total: self.total,
            passed: self.passed,
            failed: self.failed,
            report_path: self.report_path.clone(),
            log_path: self.log_path.clone(),
        }
    }
}

impl ExecutionQueueItem {
    /// A copy of the queue item.
    pub fn duplicate(&self) -> (r: Self)
        ensures
            r == *self,
    {
        ExecutionQueueItem {
            id: self.id.clone(),
            plan_id: self.plan_id.clone(),
            plan_path: self.plan_path.clone(),
            plan_name: self.plan_name.clone(),
            status: self.status,
            queued_at_ms: self.queued_at_ms,
            started_at_ms: self.started_at_ms,
            finished_at_ms: self.finished_at_ms,
            total: self.total,
            passed: self.passed,
            failed: self.failed,
            error: copy_opt(&self.error),
            report_path: copy_opt(&self.report_path),
            log_path: copy_opt(&self.log_path),
        }
    }
}

/// The summary of a saved plan.
pub open spec fn summary_of(plan: StoredPlan) -> StoredPlanSummary {
    StoredPlanSummary {
        id: plan.id,
        name: plan.name,
        path: plan.path,
        request_count: plan.parsed.requests.len(),
        warning_count: plan.parsed.warnings.len(),
        created_at_ms: plan.created_at_ms,
        updated_at_ms: plan.updated_at_ms,
    }
}

/// The summary of a saved plan.
pub fn plan_summary(plan: &StoredPlan) -> (r: StoredPlanSummary)
    ensures
        r == summary_of(*plan),
{
    StoredPlanSummary {
        id: plan.id.clone(),
        name: plan.name.clone(),
        path: plan.path.clone(),
        request_count: plan.parsed.requests.len(),
        warning_count: plan.parsed.warnings.len(),
        created_at_ms: plan.created_at_ms,
        updated_at_ms: plan.updated_at_ms,
    }
}

/// The plan shown for a saved text named `name`: the plan read from it, or, when it
/// cannot be read, an empty plan whose only warning is the reason.
pub open spec fn display_plan(
    name: Seq<char>,
    content: Seq<char>,
    vars: Map<Seq<char>, Seq<char>>,
    ds: Seq<BlockDraws>,
) -> PlanView {
    match spec_parse(Some(name), content, vars, ds) {
        Ok(p) => p,
        Err(e) => PlanView { name, variables: vars, requests: Seq::empty(), warnings: seq![e.1] },
    }
}

/// The plan shown for a saved text named `name`.
pub fn parse_for_display(name: &str, content: &str, variables: &Variables) -> (r: TestPlan)
    ensures
        exists|ds: Seq<BlockDraws>| r@ == #[trigger] display_plan(name@, content@, variables@, ds),
{
    let input = TestPlanInput {
        name: Some(string_of(&chars_of(name))),
        content: string_of(&chars_of(content)),
        variables: variables.duplicate(),
    };
    let result = parse(input);
    let ghost ds = choose|ds: Seq<BlockDraws>|
        match #[trigger] spec_parse(Some(name@), content@, variables@, ds) {
            Ok(p) => result matches Ok(x) && x@ == p,
            Err(e) => result matches Err(x) && x@ == e,
        };
    match result {
        Ok(plan) => {
            assert(plan@ == display_plan(name@, content@, variables@, ds));
            plan
        },
        Err(err) => {
            let mut warnings: Vec<String> = Vec::new();
            warnings.push(err.message());
            let plan = TestPlan {
                name: string_of(&chars_of(name)),
                variables: variables.duplicate(),
                requests: Vec::new(),
                warnings,
            };
            assert(views(plan.warnings@) =~= seq![err@.1]);
            assert(crate::plan::requests_view(plan.requests@) =~= Seq::empty());
            assert(plan@ == display_plan(name@, content@, variables@, ds));
            plan
        },
    }
}

/// A saved plan with the id `id` and text `content`, named after its path, with
/// the plan read from it.
pub fn stored_plan(id: String, content: String, variables: &Variables, created_at_ms: i64, updated_at_ms: i64) -> (r: StoredPlan)
    ensures
        r.id == id,
        r.path == id,
        r.name@ == spec_plan_display_name(id@),
        r.content == content,
        exists|ds: Seq<BlockDraws>|
            r.parsed@ == #[trigger] display_plan(r.name@, content@, variables@, ds),
        r.created_at_ms == created_at_ms,
        r.updated_at_ms == updated_at_ms,
{
    let name = plan_display_name(id.as_str());
    let parsed = parse_for_display(name.as_str(), content.as_str(), variables);
    StoredPlan {
        id: id.clone(),
        name,
        path: id,
        content,
        parsed,
        created_at_ms,
        updated_at_ms,
    }
}

/// Whether a plan other than `excluding` has the id `id`.
pub fn plan_id_exists(plans: &Vec<StoredPlan>, id: &str, excluding: Option<&str>) -> (r: bool)
    ensures
        r == exists|k: int|
            0 <= k < plans@.len() && (#[trigger] plans@[k]).id@ == id@ && match excluding {
                Some(x) => plans@[k].id@ != x@,
                None => true,
            },
{
    let target = chars_of(id);
    let mut i: usize = 0;
    while i < plans.len()
        invariant
            i <= plans.len(),
            target@ == id@,
            forall|k: int|
                0 <= k < i ==> !((#[trigger] plans@[k]).id@ == id@ && match excluding {
                    Some(x) => plans@[k].id@ != x@,
                    None => true,
                }),
        decreases plans.len() - i,
    {
        let pid = chars_of(plans[i].id.as_str());
        if same_chars(&pid, &target) {
            let other = match excluding {
                Some(x) => !same_chars(&pid, &chars_of(x)),
                None => true,
            };
            if other {
                return true;
            }
        }
        i = i + 1;
    }
    false
}

/// The summary of a run from its report and where its report and log were written.
pub fn execution_summary_of(report: &ExecutionReport, report_path: String, log_path: String) -> (r:
    ExecutionSummary)
    ensures
        r.id == report.id,
        r.plan_id == report.plan_id,
        r.plan_path == report.plan_path,
        r.plan_name == report.plan_name,
        r.started_at_ms == report.started_at_ms,
        r.finished_at_ms == report.finished_at_ms,
        r.duration_ms == report.duration_ms,
        r.total == report.total,
        r.passed == report.passed,
        r.failed == report.failed,
        r.report_path == report_path,
        r.log_path == log_path,
{
    ExecutionSummary {
        id: report.id.clone(),
        plan_id: report.plan_id.clone(),
        plan_path: report.plan_path.clone(),
        plan_name: report.plan_name.clone(),
        started_at_ms: report.started_at_ms,
        finished_at_ms: report.finished_at_ms,
        duration_ms: report.duration_ms,
        total: report.total,
        passed: report.passed,
        failed: report.failed,
        report_path,
        log_path,
    }
}

// ---------------------------------------------------------------------------
// The store

/// The largest id suffix among `ids` (0 where there is none).
pub open spec fn max_suffix(ids: Seq<Seq<char>>) -> u64
    decreases ids.len(),
{
    if ids.len() == 0 {
        0
    } else {
        let rest = max_suffix(ids.drop_last());
        match spec_id_suffix(ids.last()) {
            Some(k) => if k > rest {
                k
            } else {
                rest
            },
            None => rest,
        }
    }
}

/// The ids of a list of plans.
pub open spec fn plan_ids(plans: Seq<StoredPlan>) -> Seq<Seq<char>> {
    plans.map_values(|p: StoredPlan| p.id@)
}

/// The ids of a list of run summaries.
pub open spec fn execution_ids(executions: Seq<ExecutionSummary>) -> Seq<Seq<char>> {
    executions.map_values(|e: ExecutionSummary| e.id@)
}

/// The ids of a list of queue items.
pub open spec fn queue_ids(queue: Seq<ExecutionQueueItem>) -> Seq<Seq<char>> {
    queue.map_values(|q: ExecutionQueueItem| q.id@)
}

/// The position of the first id equal to `id`, if any.
pub open spec fn first_index(ids: Seq<Seq<char>>, id: Seq<char>) -> Option<int>
    decreases ids.len(),
{
    if ids.len() == 0 {
        None
    } else {
        match first_index(ids.drop_last(), id) {
            Some(k) => Some(k),
            None => if ids.last() == id {
                Some(ids.len() - 1)
            } else {
                None
            },
        }
    }
}

proof fn lemma_first_index(ids: Seq<Seq<char>>, id: Seq<char>)
    ensures
        first_index(ids, id) matches Some(k) ==> 0 <= k < ids.len() && ids[k] == id && forall|j: int|
            0 <= j < k ==> ids[j] != id,
        first_index(ids, id) is None ==> forall|j: int| 0 <= j < ids.len() ==> ids[j] != id,
    decreases ids.len(),
{
    if ids.len() > 0 {
        lemma_first_index(ids.drop_last(), id);
        assert forall|j: int| 0 <= j < ids.len() - 1 implies ids[j] == ids.drop_last()[j] by {}
    }
}

/// Finds the first of `ids` (given by `get`) equal to `id`.
proof fn lemma_first_index_exact(ids: Seq<Seq<char>>, id: Seq<char>, k: int)
    requires
        0 <= k <= ids.len(),
        forall|j: int| 0 <= j < k ==> ids[j] != id,
        k == ids.len() || ids[k] == id,
    ensures
        first_index(ids, id) == if k < ids.len() {
            Some(k)
        } else {
            None::<int>
        },
    decreases ids.len(),
{
    if ids.len() > 0 {
        if k < ids.len() {
            if k < ids.len() - 1 {
                assert forall|j: int| 0 <= j < k implies ids.drop_last()[j] != id by {
                    assert(ids.drop_last()[j] == ids[j]);
                }
                assert(ids.drop_last()[k] == ids[k]);
                lemma_first_index_exact(ids.drop_last(), id, k);
            } else {
                assert forall|j: int| 0 <= j < ids.drop_last().len() implies ids.drop_last()[j]
                    != id by {
                    assert(ids.drop_last()[j] == ids[j]);
                }
                lemma_first_index_exact(ids.drop_last(), id, ids.len() - 1);
            }
        } else {
            assert forall|j: int| 0 <= j < ids.drop_last().len() implies ids.drop_last()[j]
                != id by {
                assert(ids.drop_last()[j] == ids[j]);
            }
            lemma_first_index_exact(ids.drop_last(), id, ids.len() - 1);
        }
    }
}

/// The error for a plan that does not exist.
pub open spec fn missing_plan(id: Seq<char>) -> (ErrorKind, Seq<char>) {
    (ErrorKind::NotFound, "test plan "@ + id + " does not exist"@)
}

/// The error for a queue item that does not exist.
pub open spec fn missing_queue_item(id: Seq<char>) -> (ErrorKind, Seq<char>) {
    (ErrorKind::NotFound, "queued execution "@ + id + " does not exist"@)
}

/// The error for a run that does not exist.
pub open spec fn missing_execution(id: Seq<char>) -> (ErrorKind, Seq<char>) {
    (ErrorKind::NotFound, "execution "@ + id + " does not exist"@)
}

fn not_found(prefix: &str, id: &str, suffix: &str) -> (e: AppError)
    ensures
        e@ == (ErrorKind::NotFound, prefix@ + id@ + suffix@),
{
    let mut m = chars_of(prefix);
    append(&mut m, &chars_of(id));
    append(&mut m, &chars_of(suffix));
    AppError::NotFound(string_of(&m))
}

/// The id of a record made at `now_ms` with the counter at `n`.
pub open spec fn record_id(prefix: Seq<char>, now_ms: i64, n: u64) -> Seq<char> {
    prefix + seq!['-'] + dec_int(now_ms as int) + seq!['-'] + dec_nat(n as nat)
}

/// The items of `q` that are queued or running.
pub open spec fn active_items(q: Seq<ExecutionQueueItem>) -> Seq<ExecutionQueueItem>
    decreases q.len(),
{
    if q.len() == 0 {
        Seq::empty()
    } else {
        active_items(q.drop_last()) + if q.last().status == QueueStatus::Queued || q.last().status
            == QueueStatus::Running {
            seq![q.last()]
        } else {
            Seq::empty()
        }
    }
}

proof fn lemma_update_keeps_queue_ids(q: Seq<ExecutionQueueItem>, k: int, item: ExecutionQueueItem)
    requires
        0 <= k < q.len(),
        item.id == q[k].id,
    ensures
        queue_ids(q.update(k, item)) == queue_ids(q),
{
    assert(queue_ids(q.update(k, item)) =~= queue_ids(q));
}

proof fn lemma_remove_keeps_suffixes_below(q: Seq<ExecutionQueueItem>, k: int, n: u64)
    requires
        0 <= k < q.len(),
    ensures
        suffixes_below(queue_ids(q), n) ==> suffixes_below(queue_ids(q.remove(k)), n),
{
    let ids = queue_ids(q);
    let now = queue_ids(q.remove(k));
    if suffixes_below(ids, n) {
        assert forall|j: int| 0 <= j < now.len() implies match #[trigger] spec_id_suffix(now[j]) {
            Some(s) => s < n,
            None => true,
        } by {
            if j < k {
                assert(now[j] == ids[j]);
            } else {
                assert(now[j] == ids[j + 1]);
            }
        }
    }
}

/// The records kept in memory: saved plans, finished runs, the execution queue, and
/// the counter that numbers new ids.
pub struct TestPlanStore {
    plans: Vec<StoredPlan>,
    executions: Vec<ExecutionSummary>,
    queue: Vec<ExecutionQueueItem>,
    counter: u64,
}

impl TestPlanStore {
    /// The saved plans, in the order they were loaded or added.
    pub closed spec fn plans(&self) -> Seq<StoredPlan> {
        self.plans@
    }

    /// The summaries of finished runs, in the order they finished.
    pub closed spec fn executions(&self) -> Seq<ExecutionSummary> {
        self.executions@
    }

    /// The execution queue, in the order runs were queued.
    pub closed spec fn queue(&self) -> Seq<ExecutionQueueItem> {
        self.queue@
    }

    /// The number the next id gets.
    pub closed spec fn counter(&self) -> u64 {
        self.counter
    }

    /// A store holding `plans` and `executions`, with an empty queue, numbering new
    /// ids after the largest id suffix among them.
    pub fn new(plans: Vec<StoredPlan>, executions: Vec<ExecutionSummary>) -> (s: Self)
        ensures
            s.plans() == plans@,
            s.executions() == executions@,
            s.queue().len() == 0,
            suffixes_below(queue_ids(s.queue()), s.counter()),
            s.counter() == wrapping_next(
                max_suffix(plan_ids(plans@) + execution_ids(executions@)),
            ),
    {
        let ghost ids = plan_ids(plans@) + execution_ids(executions@);
        let mut max: u64 = 0;
        let mut i: usize = 0;
        assert(ids.take(0) =~= Seq::<Seq<char>>::empty());
        while i < plans.len()
            invariant
                i <= plans.len(),
                ids == plan_ids(plans@) + execution_ids(executions@),
                max == max_suffix(ids.take(i as int)),
            decreases plans.len() - i,
        {
            assert(ids.take(i + 1).drop_last() =~= ids.take(i as int));
            assert(ids[i as int] == plans@[i as int].id@);
            match id_suffix(plans[i].id.as_str()) {
                Some(k) => {
                    if k > max {
                        max = k;
                    }
                },
                None => {},
            }
            i = i + 1;
        }
        let mut j: usize = 0;
        while j < executions.len()
            invariant
                j <= executions.len(),
                ids == plan_ids(plans@) + execution_ids(executions@),
                max == max_suffix(ids.take(plans@.len() + j)),
            decreases executions.len() - j,
        {
            assert(ids.take(plans@.len() + j + 1).drop_last() =~= ids.take(plans@.len() + j));
            assert(ids[plans@.len() + j] == executions@[j as int].id@);
            match id_suffix(executions[j].id.as_str()) {
                Some(k) => {
                    if k > max {
                        max = k;
                    }
                },
                None => {},
            }
            j = j + 1;
        }
        assert(ids.take(ids.len() as int) =~= ids);
        let s = TestPlanStore { plans, executions, queue: Vec::new(), counter: next_count(max) };
        assert(queue_ids(s.queue@) =~= Seq::<Seq<char>>::empty());
        s
    }

    /// The number of saved plans.
    pub fn plan_count(&self) -> (n: usize)
        ensures
            n == self.plans().len(),
    {
        self.plans.len()
    }

    /// A new id `prefix-now_ms-n`, with `n` the counter, which advances.
    pub fn next_id(&mut self, prefix: &str, now_ms: i64) -> (r: String)
        ensures
            r@ == record_id(prefix@, now_ms, old(self).counter()),
            final(self).counter() == wrapping_next(old(self).counter()),
            final(self).plans() == old(self).plans(),
            final(self).executions() == old(self).executions(),
            final(self).queue() == old(self).queue(),
    {
        let n = self.counter;
        self.counter = next_count(n);
        let mut id = chars_of(prefix);
        id.push('-');
        push_dec_i64(&mut id, now_ms);
        id.push('-');
        push_dec_u64(&mut id, n);
        assert(id@ =~= record_id(prefix@, now_ms, n));
        string_of(&id)
    }

    fn plan_index(&self, id: &str) -> (r: Option<usize>)
        ensures
            r matches Some(k) ==> k < self.plans().len() && self.plans()[k as int].id@ == id@,
            match first_index(plan_ids(self.plans()), id@) {
                Some(k) => r matches Some(i) && i as int == k,
                None => r is None,
            },
    {
        let target = chars_of(id);
        let ghost ids = plan_ids(self.plans@);
        let mut i: usize = 0;
        while i < self.plans.len()
            invariant
                i <= self.plans.len(),
                target@ == id@,
                ids == plan_ids(self.plans@),
                forall|j: int| 0 <= j < i ==> ids[j] != id@,
            decreases self.plans.len() - i,
        {
            assert(ids[i as int] == self.plans@[i as int].id@);
            if same_chars(&chars_of(self.plans[i].id.as_str()), &target) {
                proof {
                    lemma_first_index_exact(ids, id@, i as int);
                }
                return Some(i);
            }
            i = i + 1;
        }
        proof {
            lemma_first_index_exact(ids, id@, ids.len() as int);
        }
        None
    }

    /// The saved plan with the id `id`.
    pub fn get_plan(&self, id: &str) -> (r: AppResult<&StoredPlan>)
        ensures
            match first_index(plan_ids(self.plans()), id@) {
                Some(k) => r matches Ok(p) && *p == self.plans()[k],
                None => r matches Err(e) && e@ == missing_plan(id@),
            },
    {
        match self.plan_index(id) {
            Some(k) => Ok(&self.plans[k]),
            None => Err(not_found("test plan ", id, " does not exist")),
        }
    }

    /// The saved plan at the path `path`, which is cleaned first.
    pub fn get_plan_by_path(&self, path: &str) -> (r: AppResult<&StoredPlan>)
        ensures
            match spec_clean_plan_path(path@) {
                Err(e) => r matches Err(x) && x@ == e,
                Ok(id) => match first_index(plan_ids(self.plans()), id) {
                    Some(k) => r matches Ok(p) && *p == self.plans()[k],
                    None => r matches Err(e) && e@ == missing_plan(id),
                },
            },
    {
        let id = clean_plan_path(path)?;
        self.get_plan(id.as_str())
    }

    /// The summaries of the saved plans, most recently updated first.
    pub fn list_plans(&self) -> (r: Vec<StoredPlanSummary>)
        ensures
            r@ == newest_first(self.plans().map_values(|p: StoredPlan| summary_of(p))),
            is_newest_first(r@),
            r@.to_multiset() == self.plans().map_values(|p: StoredPlan| summary_of(p)).to_multiset(),
    {
        let ghost all = self.plans@.map_values(|p: StoredPlan| summary_of(p));
        let mut out: Vec<StoredPlanSummary> = Vec::new();
        let mut i: usize = 0;
        while i < self.plans.len()
            invariant
                i <= self.plans.len(),
                all == self.plans@.map_values(|p: StoredPlan| summary_of(p)),
                out@ == all.take(i as int),
            decreases self.plans.len() - i,
        {
            out.push(plan_summary(&self.plans[i]));
            assert(all.take(i + 1) =~= all.take(i as int).push(all[i as int]));
            i = i + 1;
        }
        assert(all.take(self.plans.len() as int) =~= all);
        sort_newest_first(out)
    }

    /// Adds a saved plan.
    pub fn add_plan(&mut self, plan: StoredPlan)
        ensures
            final(self).plans() == old(self).plans().push(plan),
            final(self).executions() == old(self).executions(),
            final(self).queue() == old(self).queue(),
            final(self).counter() == old(self).counter(),
    {
        self.plans.push(plan);
    }

    /// Replaces the saved plans (after the plans directory changed).
    pub fn replace_plans(&mut self, plans: Vec<StoredPlan>)
        ensures
            final(self).plans() == plans@,
            final(self).executions() == old(self).executions(),
            final(self).queue() == old(self).queue(),
            final(self).counter() == old(self).counter(),
    {
        self.plans = plans;
    }

    /// Saves new text for the plan with the id `id` (cleaned first): its name and
    /// parsed plan are made again, its creation time kept, its update time `now_ms`.
    pub fn update_plan(&mut self, id: &str, input: SavePlanInput, now_ms: i64) -> (r: AppResult<
        &StoredPlan,
    >)
        ensures
            match spec_clean_plan_path(id@) {
                Err(e) => r matches Err(x) && x@ == e && final(self).plans() == old(self).plans(),
                Ok(pid) => match first_index(plan_ids(old(self).plans()), pid) {
                    None => r matches Err(x) && x@ == missing_plan(pid) && final(self).plans()
                        == old(self).plans(),
                    Some(k) => r matches Ok(p) && {
                        &&& final(self).plans().len() == old(self).plans().len()
                        &&& forall|j: int|
                            0 <= j < old(self).plans().len() && j != k ==> final(self).plans()[j]
                                == old(self).plans()[j]
                        &&& *p == final(self).plans()[k]
                        &&& p.id == old(self).plans()[k].id
                        &&& p.path == old(self).plans()[k].id
                        &&& p.name@ == spec_plan_display_name(p.id@)
                        &&& p.content == input.content
                        &&& exists|ds: Seq<BlockDraws>|
                            p.parsed@ == #[trigger] display_plan(
                                p.name@,
                                input.content@,
                                input.variables@,
                                ds,
                            )
                        &&& p.created_at_ms == old(self).plans()[k].created_at_ms
                        &&& p.updated_at_ms == now_ms
                    },
                },
            },
            final(self).executions() == old(self).executions(),
            final(self).queue() == old(self).queue(),
            final(self).counter() == old(self).counter(),
    {
        let pid = clean_plan_path(id)?;
        let k = match self.plan_index(pid.as_str()) {
            Some(k) => k,
            None => return Err(not_found("test plan ", pid.as_str(), " does not exist")),
        };
        let current_id = self.plans[k].id.clone();
        let created = self.plans[k].created_at_ms;
        let SavePlanInput { name: _, content, directory: _, variables } = input;
        let plan = stored_plan(current_id, content, &variables, created, now_ms);
        self.plans.set(k, plan);
        Ok(&self.plans[k])
    }

    /// Removes the plan with the id `id` (cleaned first) and gives it back.
    pub fn delete_plan(&mut self, id: &str) -> (r: AppResult<StoredPlan>)
        ensures
            match spec_clean_plan_path(id@) {
                Err(e) => r matches Err(x) && x@ == e && final(self).plans() == old(self).plans(),
                Ok(pid) => match first_index(plan_ids(old(self).plans()), pid) {
                    None => r matches Err(x) && x@ == missing_plan(pid) && final(self).plans()
                        == old(self).plans(),
                    Some(k) => r matches Ok(p) && p == old(self).plans()[k] && final(self).plans()
                        == old(self).plans().remove(k),
                },
            },
            final(self).executions() == old(self).executions(),
            final(self).queue() == old(self).queue(),
            final(self).counter() == old(self).counter(),
    {
        let pid = clean_plan_path(id)?;
        match self.plan_index(pid.as_str()) {
            Some(k) => Ok(self.plans.remove(k)),
            None => Err(not_found("test plan ", pid.as_str(), " does not exist")),
        }
    }

    fn queue_index(&self, id: &str) -> (r: Option<usize>)
        ensures
            r matches Some(k) ==> k < self.queue().len() && self.queue()[k as int].id@ == id@,
            match first_index(queue_ids(self.queue()), id@) {
                Some(k) => r matches Some(i) && i as int == k,
                None => r is None,
            },
    {
        let target = chars_of(id);
        let ghost ids = queue_ids(self.queue@);
        let mut i: usize = 0;
        while i < self.queue.len()
            invariant
                i <= self.queue.len(),
                target@ == id@,
                ids == queue_ids(self.queue@),
                forall|j: int| 0 <= j < i ==> ids[j] != id@,
            decreases self.queue.len() - i,
        {
            assert(ids[i as int] == self.queue@[i as int].id@);
            if same_chars(&chars_of(self.queue[i].id.as_str()), &target) {
                proof {
                    lemma_first_index_exact(ids, id@, i as int);
                }
                return Some(i);
            }
            i = i + 1;
        }
        proof {
            lemma_first_index_exact(ids, id@, ids.len() as int);
        }
        None
    }

    fn execution_index(&self, id: &str) -> (r: Option<usize>)
        ensures
            r matches Some(k) ==> k < self.executions().len() && self.executions()[k as int].id@
                == id@,
            match first_index(execution_ids(self.executions()), id@) {
                Some(k) => r matches Some(i) && i as int == k,
                None => r is None,
            },
    {
        let target = chars_of(id);
        let ghost ids = execution_ids(self.executions@);
        let mut i: usize = 0;
        while i < self.executions.len()
            invariant
                i <= self.executions.len(),
                target@ == id@,
                ids == execution_ids(self.executions@),
                forall|j: int| 0 <= j < i ==> ids[j] != id@,
            decreases self.executions.len() - i,
        {
            assert(ids[i as int] == self.executions@[i as int].id@);
            if same_chars(&chars_of(self.executions[i].id.as_str()), &target) {
                proof {
                    lemma_first_index_exact(ids, id@, i as int);
                }
                return Some(i);
            }
            i = i + 1;
        }
        proof {
            lemma_first_index_exact(ids, id@, ids.len() as int);
        }
        None
    }

    /// A copy of the queue item `id`.
    pub fn queue_item(&self, id: &str) -> (r: AppResult<ExecutionQueueItem>)
        ensures
            match first_index(queue_ids(self.queue()), id@) {
                Some(k) => r matches Ok(item) && item == self.queue()[k],
                None => r matches Err(e) && e@ == missing_queue_item(id@),
            },
    {
        match self.queue_index(id) {
            Some(k) => Ok(self.queue[k].duplicate()),
            None => Err(not_found("queued execution ", id, " does not exist")),
        }
    }

    /// Queues a run of the plan `plan_id` at `now_ms`, under a new `exec-` id.
    pub fn enqueue_execution(&mut self, plan_id: &str, now_ms: i64) -> (r: AppResult<
        ExecutionQueueItem,
    >)
        ensures
            match first_index(plan_ids(old(self).plans()), plan_id@) {
                None => r matches Err(e) && e@ == missing_plan(plan_id@) && final(self).queue()
                    == old(self).queue() && final(self).counter() == old(self).counter(),
                Some(k) => r matches Ok(item) && {
                    let plan = old(self).plans()[k];
                    &&& item.id@ == record_id("exec"@, now_ms, old(self).counter())
                    &&& item.plan_id == plan.id
                    &&& item.plan_path == plan.path
                    &&& item.plan_name == plan.name
                    &&& item.status == QueueStatus::Queued
                    &&& item.queued_at_ms == now_ms
                    &&& item.started_at_ms is None
                    &&& item.finished_at_ms is None
                    &&& item.total is None
                    &&& item.passed is None
                    &&& item.failed is None
                    &&& item.error is None
                    &&& item.report_path is None
                    &&& item.log_path is None
                    &&& final(self).queue() == old(self).queue().push(item)
                    &&& final(self).counter() == wrapping_next(old(self).counter())
                    &&& suffixes_below(queue_ids(old(self).queue()), old(self).counter())
                        ==> !queue_ids(old(self).queue()).contains(item.id@)
                    &&& suffixes_below(queue_ids(old(self).queue()), old(self).counter()) && old(
                        self,
                    ).counter() < u64::MAX ==> suffixes_below(
                        queue_ids(final(self).queue()),
                        final(self).counter(),
                    )
                },
            },
            final(self).plans() == old(self).plans(),
            final(self).executions() == old(self).executions(),
    {
        let k = match self.plan_index(plan_id) {
            Some(k) => k,
            None => return Err(not_found("test plan ", plan_id, " does not exist")),
        };
        let id = self.next_id("exec", now_ms);
        proof {
            reveal_strlit("exec");
        }
        let plan = &self.plans[k];
        let item = ExecutionQueueItem {
            id,
            plan_id: plan.id.clone(),
            plan_path: plan.path.clone(),
            plan_name: plan.name.clone(),
            status: QueueStatus::Queued,
            queued_at_ms: now_ms,
            started_at_ms: None,
            finished_at_ms: None,
            total: None,
            passed: None,
            failed: None,
            error: None,
            report_path: None,
            log_path: None,
        };
        let saved = item.duplicate();
        let ghost before = self.queue@;
        self.queue.push(item);
        proof {
            let n = old(self).counter;
            let x = "exec"@ + seq!['-'] + dec_int(now_ms as int);
            assert(saved.id@ =~= x + seq!['-'] + dec_nat(n as nat));
            assert(queue_ids(self.queue@) =~= queue_ids(before).push(saved.id@));
            if suffixes_below(queue_ids(before), n) {
                lemma_fresh_suffix(queue_ids(before), x, n);
                if n < u64::MAX {
                    lemma_suffixes_below_push(queue_ids(before), x, n);
                }
            }
        }
        Ok(saved)
    }

    /// The queued and running items, most recently queued first.
    pub fn list_queue(&self) -> (r: Vec<ExecutionQueueItem>)
        ensures
            r@ == newest_first(active_items(self.queue())),
            is_newest_first(r@),
            r@.to_multiset() == active_items(self.queue()).to_multiset(),
    {
        let mut out: Vec<ExecutionQueueItem> = Vec::new();
        let mut i: usize = 0;
        while i < self.queue.len()
            invariant
                i <= self.queue.len(),
                out@ == active_items(self.queue@.take(i as int)),
            decreases self.queue.len() - i,
        {
            assert(self.queue@.take(i + 1).drop_last() =~= self.queue@.take(i as int));
            let item = &self.queue[i];
            if item.status == QueueStatus::Queued || item.status == QueueStatus::Running {
                out.push(item.duplicate());
            }
            i = i + 1;
        }
        assert(self.queue@.take(self.queue.len() as int) =~= self.queue@);
        sort_newest_first(out)
    }

    /// Marks the queue item `id` running since `now_ms`, clearing its error.
    pub fn mark_queue_running(&mut self, id: &str, now_ms: i64) -> (r: AppResult<
        ExecutionQueueItem,
    >)
        ensures
            match first_index(queue_ids(old(self).queue()), id@) {
                None => r matches Err(e) && e@ == missing_queue_item(id@) && final(self).queue()
                    == old(self).queue(),
                Some(k) => r matches Ok(item) && {
                    &&& item == final(self).queue()[k]
                    &&& final(self).queue() == old(self).queue().update(k, item)
                    &&& item.status == QueueStatus::Running
                    &&& item.started_at_ms == Some(now_ms)
                    &&& item.error is None
                    &&& item.id == old(self).queue()[k].id
                    &&& item.plan_id == old(self).queue()[k].plan_id
                    &&& item.plan_path == old(self).queue()[k].plan_path
                    &&& item.plan_name == old(self).queue()[k].plan_name
                    &&& item.queued_at_ms == old(self).queue()[k].queued_at_ms
                    &&& item.finished_at_ms == old(self).queue()[k].finished_at_ms
                    &&& item.total == old(self).queue()[k].total
                    &&& item.passed == old(self).queue()[k].passed
                    &&& item.failed == old(self).queue()[k].failed
                    &&& item.report_path == old(self).queue()[k].report_path
                    &&& item.log_path == old(self).queue()[k].log_path
                },
            },
            final(self).plans() == old(self).plans(),
            final(self).executions() == old(self).executions(),
            final(self).counter() == old(self).counter(),
            suffixes_below(queue_ids(old(self).queue()), old(self).counter()) ==> suffixes_below(
                queue_ids(final(self).queue()),
                final(self).counter(),
            ),
    {
        let k = match self.queue_index(id) {
            Some(k) => k,
            None => return Err(not_found("queued execution ", id, " does not exist")),
        };
        let mut item = self.queue[k].duplicate();
        item.status = QueueStatus::Running;
        item.started_at_ms = Some(now_ms);
        item.error = None;
        let saved = item.duplicate();
        let ghost before = self.queue@;
        self.queue.set(k, item);
        proof {
            lemma_update_keeps_queue_ids(before, k as int, saved);
        }
        Ok(saved)
    }

    /// Marks the queue item `id` finished at `now_ms` with the totals of its run:
    /// passed when no request failed, failed otherwise.
    pub fn complete_queue_item(&mut self, id: &str, summary: &ExecutionSummary, now_ms: i64) -> (r:
        AppResult<ExecutionQueueItem>)
        ensures
            match first_index(queue_ids(old(self).queue()), id@) {
                None => r matches Err(e) && e@ == missing_queue_item(id@) && final(self).queue()
                    == old(self).queue(),
                Some(k) => r matches Ok(item) && {
                    &&& item == final(self).queue()[k]
                    &&& final(self).queue() == old(self).queue().update(k, item)
                    &&& item.status == (if summary.failed == 0 {
                        QueueStatus::Passed
                    } else {
                        QueueStatus::Failed
                    })
                    &&& item.finished_at_ms == Some(now_ms)
                    &&& item.total == Some(summary.total)
                    &&& item.passed == Some(summary.passed)
                    &&& item.failed == Some(summary.failed)
                    &&& item.report_path == Some(summary.report_path)
                    &&& item.log_path == Some(summary.log_path)
                    &&& item.id == old(self).queue()[k].id
                    &&& item.plan_id == old(self).queue()[k].plan_id
                    &&& item.plan_path == old(self).queue()[k].plan_path
                    &&& item.plan_name == old(self).queue()[k].plan_name
                    &&& item.queued_at_ms == old(self).queue()[k].queued_at_ms
                    &&& item.started_at_ms == old(self).queue()[k].started_at_ms
                    &&& item.error == old(self).queue()[k].error
                },
            },
            final(self).plans() == old(self).plans(),
            final(self).executions() == old(self).executions(),
            final(self).counter() == old(self).counter(),
            suffixes_below(queue_ids(old(self).queue()), old(self).counter()) ==> suffixes_below(
                queue_ids(final(self).queue()),
                final(self).counter(),
            ),
    {
        let k = match self.queue_index(id) {
            Some(k) => k,
            None => return Err(not_found("queued execution ", id, " does not exist")),
        };
        let mut item = self.queue[k].duplicate();
        item.status = QueueStatus::from_failures(summary.failed);
        item.finished_at_ms = Some(now_ms);
        item.total = Some(summary.total);
        item.passed = Some(summary.passed);
        item.failed = Some(summary.failed);
        item.report_path = Some(summary.report_path.clone());
        item.log_path = Some(summary.log_path.clone());
        let saved = item.duplicate();
        let ghost before = self.queue@;
        self.queue.set(k, item);
        proof {
            lemma_update_keeps_queue_ids(before, k as int, saved);
        }
        Ok(saved)
    }

    /// Marks the queue item `id` failed at `now_ms` with the error `message`.
    pub fn fail_queue_item(&mut self, id: &str, message: String, now_ms: i64) -> (r: AppResult<
        ExecutionQueueItem,
    >)
        ensures
            match first_index(queue_ids(old(self).queue()), id@) {
                None => r matches Err(e) && e@ == missing_queue_item(id@) && final(self).queue()
                    == old(self).queue(),
                Some(k) => r matches Ok(item) && {
                    &&& item == final(self).queue()[k]
                    &&& final(self).queue() == old(self).queue().update(k, item)
                    &&& item.status == QueueStatus::Error
                    &&& item.finished_at_ms == Some(now_ms)
                    &&& item.error == Some(message)
                    &&& item.id == old(self).queue()[k].id
                    &&& item.plan_id == old(self).queue()[k].plan_id
                    &&& item.plan_path == old(self).queue()[k].plan_path
                    &&& item.plan_name == old(self).queue()[k].plan_name
                    &&& item.queued_at_ms == old(self).queue()[k].queued_at_ms
                    &&& item.started_at_ms == old(self).queue()[k].started_at_ms
                    &&& item.total == old(self).queue()[k].total
                    &&& item.passed == old(self).queue()[k].passed
                    &&& item.failed == old(self).queue()[k].failed
                    &&& item.report_path == old(self).queue()[k].report_path
                    &&& item.log_path == old(self).queue()[k].log_path
                },
            },
            final(self).plans() == old(self).plans(),
            final(self).executions() == old(self).executions(),
            final(self).counter() == old(self).counter(),
            suffixes_below(queue_ids(old(self).queue()), old(self).counter()) ==> suffixes_below(
                queue_ids(final(self).queue()),
                final(self).counter(),
            ),
    {
        let k = match self.queue_index(id) {
            Some(k) => k,
            None => return Err(not_found("queued execution ", id, " does not exist")),
        };
        let mut item = self.queue[k].duplicate();
        item.status = QueueStatus::Error;
        item.finished_at_ms = Some(now_ms);
        item.error = Some(message);
        let saved = item.duplicate();
        let ghost before = self.queue@;
        self.queue.set(k, item);
        proof {
            lemma_update_keeps_queue_ids(before, k as int, saved);
        }
        Ok(saved)
    }

    /// The saved plan that the queue item `id` runs. Fails when there is no such item,
    /// or when its plan is gone.
    pub fn queued_plan(&self, id: &str) -> (r: AppResult<&StoredPlan>)
        ensures
            match first_index(queue_ids(self.queue()), id@) {
                None => r matches Err(e) && e@ == missing_queue_item(id@),
                Some(k) => match first_index(plan_ids(self.plans()), self.queue()[k].plan_id@) {
                    None => r matches Err(e) && e@ == missing_plan(self.queue()[k].plan_id@),
                    Some(p) => r matches Ok(plan) && *plan == self.plans()[p],
                },
            },
    {
        let item = match self.queue_item(id) {
            Ok(item) => item,
            Err(e) => return Err(e),
        };
        self.get_plan(item.plan_id.as_str())
    }

    /// Records at `now_ms` how the run of the queue item `id` ended: with the summary
    /// of the run (passed when no request failed, failed otherwise), or with the
    /// error that stopped it.
    pub fn finish_queued_run(&mut self, id: &str, outcome: AppResult<ExecutionSummary>, now_ms: i64) -> (r:
        AppResult<ExecutionQueueItem>)
        ensures
            match first_index(queue_ids(old(self).queue()), id@) {
                None => r matches Err(e) && e@ == missing_queue_item(id@) && final(self).queue()
                    == old(self).queue(),
                Some(k) => r matches Ok(item) && {
                    &&& item == final(self).queue()[k]
                    &&& final(self).queue() == old(self).queue().update(k, item)
                    &&& item.finished_at_ms == Some(now_ms)
                    &&& item.id == old(self).queue()[k].id
                    &&& item.plan_id == old(self).queue()[k].plan_id
                    &&& item.plan_path == old(self).queue()[k].plan_path
                    &&& item.plan_name == old(self).queue()[k].plan_name
                    &&& item.queued_at_ms == old(self).queue()[k].queued_at_ms
                    &&& item.started_at_ms == old(self).queue()[k].started_at_ms
                    &&& match outcome {
                        Ok(summary) => {
                            &&& item.status == (if summary.failed == 0 {
                                QueueStatus::Passed
                            } else {
                                QueueStatus::Failed
                            })
                            &&& item.total == Some(summary.total)
                            &&& item.passed == Some(summary.passed)
                            &&& item.failed == Some(summary.failed)
                            &&& item.report_path == Some(summary.report_path)
                            &&& item.log_path == Some(summary.log_path)
                            &&& item.error == old(self).queue()[k].error
                        },
                        Err(e) => {
                            &&& item.status == QueueStatus::Error
                            &&& item.error matches Some(m) && m@ == e@.1
                            &&& item.total == old(self).queue()[k].total
                            &&& item.passed == old(self).queue()[k].passed
                            &&& item.failed == old(self).queue()[k].failed
                            &&& item.report_path == old(self).queue()[k].report_path
                            &&& item.log_path == old(self).queue()[k].log_path
                        },
                    }
                },
            },
            final(self).plans() == old(self).plans(),
            final(self).executions() == old(self).executions(),
            final(self).counter() == old(self).counter(),
            suffixes_below(queue_ids(old(self).queue()), old(self).counter()) ==> suffixes_below(
                queue_ids(final(self).queue()),
                final(self).counter(),
            ),
    {
        match outcome {
            Ok(summary) => self.complete_queue_item(id, &summary, now_ms),
            Err(e) => self.fail_queue_item(id, e.message(), now_ms),
        }
    }

    /// Records the summary of a finished run.
    pub fn record_execution(&mut self, summary: ExecutionSummary)
        ensures
            final(self).executions() == old(self).executions().push(summary),
            final(self).plans() == old(self).plans(),
            final(self).queue() == old(self).queue(),
            final(self).counter() == old(self).counter(),
    {
        self.executions.push(summary);
    }

    /// The summaries of finished runs, most recently started first.
    pub fn list_executions(&self) -> (r: Vec<ExecutionSummary>)
        ensures
            r@ == newest_first(self.executions()),
            is_newest_first(r@),
            r@.to_multiset() == self.executions().to_multiset(),
    {
        let mut out: Vec<ExecutionSummary> = Vec::new();
        let mut i: usize = 0;
        while i < self.executions.len()
            invariant
                i <= self.executions.len(),
                out@ == self.executions@.take(i as int),
            decreases self.executions.len() - i,
        {
            out.push(self.executions[i].duplicate());
            assert(self.executions@.take(i + 1) =~= self.executions@.take(i as int).push(
                self.executions@[i as int],
            ));
            i = i + 1;
        }
        assert(self.executions@.take(self.executions.len() as int) =~= self.executions@);
        sort_newest_first(out)
    }

    /// The summary of the run `id`.
    pub fn get_execution(&self, id: &str) -> (r: AppResult<ExecutionSummary>)
        ensures
            match first_index(execution_ids(self.executions()), id@) {
                Some(k) => r matches Ok(s) && s == self.executions()[k],
                None => r matches Err(e) && e@ == missing_execution(id@),
            },
    {
        match self.execution_index(id) {
            Some(k) => Ok(self.executions[k].duplicate()),
            None => Err(not_found("execution ", id, " does not exist")),
        }
    }

    /// Forgets the run `id`, and its queue item if there is one.
    pub fn delete_execution(&mut self, id: &str) -> (r: AppResult<()>)
        ensures
            match first_index(execution_ids(old(self).executions()), id@) {
                None => r matches Err(e) && e@ == missing_execution(id@) && final(self).executions()
                    == old(self).executions() && final(self).queue() == old(self).queue(),
                Some(k) => r is Ok && final(self).executions() == old(self).executions().remove(k)
                    && final(self).queue() == match first_index(
                    queue_ids(old(self).queue()),
                    id@,
                ) {
                    Some(q) => old(self).queue().remove(q),
                    None => old(self).queue(),
                },
            },
            final(self).plans() == old(self).plans(),
            final(self).counter() == old(self).counter(),
            suffixes_below(queue_ids(old(self).queue()), old(self).counter()) ==> suffixes_below(
                queue_ids(final(self).queue()),
                final(self).counter(),
            ),
    {
        let k = match self.execution_index(id) {
            Some(k) => k,
            None => return Err(not_found("execution ", id, " does not exist")),
        };
        self.executions.remove(k);
        match self.queue_index(id) {
            Some(q) => {
                let ghost before = self.queue@;
                self.queue.remove(q);
                proof {
                    lemma_remove_keeps_suffixes_below(before, q as int, self.counter);
                }
            },
            None => {},
        }
        Ok(())
    }

    /// Forgets every run and empties the queue; gives the number of runs forgotten.
    pub fn delete_all_executions(&mut self) -> (r: usize)
        ensures
            r == old(self).executions().len(),
            final(self).executions().len() == 0,
            final(self).queue().len() == 0,
            final(self).plans() == old(self).plans(),
            final(self).counter() == old(self).counter(),
            suffixes_below(queue_ids(old(self).queue()), old(self).counter()) ==> suffixes_below(
                queue_ids(final(self).queue()),
                final(self).counter(),
            ),
    {
        let deleted = self.executions.len();
        self.executions.clear();
        self.queue.clear();
        assert(queue_ids(self.queue@) =~= Seq::<Seq<char>>::empty());
        deleted
    }
}

// ---------------------------------------------------------------------------
// Naming new plan files

/// The path of a new plan file named after `name` in `directory`.
pub open spec fn plan_file_base(directory: Seq<char>, name: Seq<char>) -> Seq<char> {
    spec_join_relative_path(directory, spec_slugify_plan_name(name) + ".http"@)
}

/// The path of a new plan file named after `name` in `directory`, numbered `n`.
pub open spec fn plan_file_candidate(directory: Seq<char>, name: Seq<char>, n: u64) -> Seq<char> {
    spec_join_relative_path(
        directory,
        spec_slugify_plan_name(name) + seq!['-'] + dec_nat(n as nat) + ".http"@,
    )
}

/// Whether a plan or an existing file already has the path `id`.
pub open spec fn id_taken(plans: Seq<StoredPlan>, existing: Seq<Seq<char>>, id: Seq<char>) -> bool {
    plan_ids(plans).contains(id) || existing.contains(id)
}

/// The counter `c` advanced `i` times, wrapping around.
pub open spec fn counter_after(c: u64, i: nat) -> u64 {
    if c + i < 0x1_0000_0000_0000_0000 {
        (c + i) as u64
    } else {
        (c + i - 0x1_0000_0000_0000_0000) as u64
    }
}

proof fn lemma_middle_equal(p: Seq<char>, m1: Seq<char>, m2: Seq<char>, q: Seq<char>)
    requires
        p + m1 + q == p + m2 + q,
    ensures
        m1 == m2,
{
    let s1 = p + m1 + q;
    let s2 = p + m2 + q;
    assert(s1.len() == s2.len());
    assert(m1 =~= s1.subrange(p.len() as int, (p.len() + m1.len()) as int));
    assert(m2 =~= s2.subrange(p.len() as int, (p.len() + m2.len()) as int));
}

proof fn lemma_candidates_differ(directory: Seq<char>, name: Seq<char>, a: u64, b: u64)
    requires
        a != b,
    ensures
        plan_file_candidate(directory, name, a) != plan_file_candidate(directory, name, b),
{
    let slug = spec_slugify_plan_name(name);
    crate::text::lemma_dec_nat_injective(a as nat, b as nat);
    let pre = if directory.len() == 0 {
        slug + seq!['-']
    } else {
        directory + seq!['/'] + slug + seq!['-']
    };
    assert(plan_file_candidate(directory, name, a) =~= pre + dec_nat(a as nat) + ".http"@);
    assert(plan_file_candidate(directory, name, b) =~= pre + dec_nat(b as nat) + ".http"@);
    if plan_file_candidate(directory, name, a) == plan_file_candidate(directory, name, b) {
        lemma_middle_equal(pre, dec_nat(a as nat), dec_nat(b as nat), ".http"@);
    }
}

/// Among more distinct paths than there are taken ones, one is free.
proof fn lemma_some_free(cands: Seq<Seq<char>>, taken: Seq<Seq<char>>)
    requires
        cands.no_duplicates(),
        cands.len() > taken.len(),
    ensures
        exists|i: int| 0 <= i < cands.len() && !taken.contains(#[trigger] cands[i]),
{
    if forall|i: int| 0 <= i < cands.len() ==> taken.contains(#[trigger] cands[i]) {
        assert(cands.to_set().subset_of(taken.to_set())) by {
            assert forall|x: Seq<char>| cands.to_set().contains(x) implies taken.to_set().contains(
                x,
            ) by {
                let i = choose|i: int| 0 <= i < cands.len() && cands[i] == x;
                assert(taken.contains(cands[i]));
            }
        }
        cands.unique_seq_to_set();
        taken.lemma_cardinality_of_set();
        vstd::set_lib::lemma_len_subset(cands.to_set(), taken.to_set());
    }
}

impl TestPlanStore {
    fn id_in_use(&self, existing: &Vec<String>, id: &Vec<char>) -> (r: bool)
        ensures
            r == id_taken(self.plans(), views(existing@), id@),
    {
        let ghost pids = plan_ids(self.plans@);
        let mut i: usize = 0;
        while i < self.plans.len()
            invariant
                i <= self.plans.len(),
                pids == plan_ids(self.plans@),
                forall|j: int| 0 <= j < i ==> pids[j] != id@,
            decreases self.plans.len() - i,
        {
            assert(pids[i as int] == self.plans@[i as int].id@);
            if same_chars(&chars_of(self.plans[i].id.as_str()), id) {
                assert(pids.contains(id@));
                return true;
            }
            i = i + 1;
        }
        let ghost ev = views(existing@);
        let mut j: usize = 0;
        while j < existing.len()
            invariant
                j <= existing.len(),
                ev == views(existing@),
                pids == plan_ids(self.plans@),
                !pids.contains(id@),
                forall|k: int| 0 <= k < j ==> ev[k] != id@,
            decreases existing.len() - j,
        {
            assert(ev[j as int] == existing@[j as int]@);
            if same_chars(&chars_of(existing[j].as_str()), id) {
                assert(ev.contains(id@));
                return true;
            }
            j = j + 1;
        }
        false
    }

    /// A free path for a new plan named `name` in `directory`: `<slug>.http`, else
    /// `<slug>-<n>.http` with `n` the counter, which advances until the path is free.
    /// A path is taken when a plan has it or it is in `existing` (the plan files
    /// already in the directory).
    pub fn unique_plan_id(&mut self, directory: &str, name: &str, existing: &Vec<String>) -> (r:
        String)
        requires
            old(self).plans().len() + existing@.len() < usize::MAX,
        ensures
            !id_taken(old(self).plans(), views(existing@), r@),
            !id_taken(old(self).plans(), views(existing@), plan_file_base(directory@, name@))
                ==> r@ == plan_file_base(directory@, name@) && final(self).counter() == old(
                self,
            ).counter(),
            id_taken(old(self).plans(), views(existing@), plan_file_base(directory@, name@))
                ==> exists|i: nat|
                {
                    &&& r@ == plan_file_candidate(
                        directory@,
                        name@,
                        counter_after(old(self).counter(), i),
                    )
                    &&& final(self).counter() == counter_after(old(self).counter(), i + 1)
                    &&& forall|j: nat|
                        j < i ==> id_taken(
                            old(self).plans(),
                            views(existing@),
                            #[trigger] plan_file_candidate(
                                directory@,
                                name@,
                                counter_after(old(self).counter(), j),
                            ),
                        )
                },
            final(self).plans() == old(self).plans(),
            final(self).executions() == old(self).executions(),
            final(self).queue() == old(self).queue(),
    {
        let slug = crate::plan_paths::slugify_plan_name(name);
        let mut base_name = chars_of(slug.as_str());
        append(&mut base_name, &chars_of(".http"));
        let base = crate::plan_paths::join_relative_path(directory, string_of(&base_name).as_str());
        let base_chars = chars_of(base.as_str());
        if !self.id_in_use(existing, &base_chars) {
            return base;
        }
        let ghost c0 = self.counter;
        let ghost taken = plan_ids(self.plans@) + views(existing@);
        let bound: usize = self.plans.len() + existing.len() + 1;
        let mut i: usize = 0;
        let ghost mut cands: Seq<Seq<char>> = Seq::empty();
        loop
            invariant
                i <= bound,
                bound == old(self).plans().len() + existing@.len() + 1,
                taken == plan_ids(old(self).plans()) + views(existing@),
                self.plans() == old(self).plans(),
                self.executions() == old(self).executions(),
                self.queue() == old(self).queue(),
                c0 == old(self).counter(),
                self.counter() == counter_after(c0, i as nat),
                cands.len() == i,
                forall|j: int| 0 <= j < i ==> #[trigger] cands[j] == plan_file_candidate(
                    directory@,
                    name@,
                    counter_after(c0, j as nat),
                ),
                forall|j: nat|
                    j < i ==> id_taken(
                        old(self).plans(),
                        views(existing@),
                        #[trigger] plan_file_candidate(directory@, name@, counter_after(c0, j)),
                    ),
                id_taken(old(self).plans(), views(existing@), plan_file_base(directory@, name@)),
                slug@ == spec_slugify_plan_name(name@),
            decreases bound - i,
        {
            if i == bound {
                proof {
                    assert forall|a: int, b: int|
                        0 <= a < cands.len() && 0 <= b < cands.len() && a != b implies cands[a]
                        != cands[b] by {
                        assert(counter_after(c0, a as nat) != counter_after(c0, b as nat));
                        lemma_candidates_differ(
                            directory@,
                            name@,
                            counter_after(c0, a as nat),
                            counter_after(c0, b as nat),
                        );
                    }
                    lemma_some_free(cands, taken);
                    let k = choose|k: int| 0 <= k < cands.len() && !taken.contains(#[trigger] cands[k]);
                    let x = cands[k];
                    assert(id_taken(
                        old(self).plans(),
                        views(existing@),
                        plan_file_candidate(directory@, name@, counter_after(c0, k as nat)),
                    ));
                    let pids = plan_ids(old(self).plans());
                    let ev = views(existing@);
                    if pids.contains(x) {
                        let idx = choose|idx: int| 0 <= idx < pids.len() && pids[idx] == x;
                        assert(taken[idx] == x);
                    } else {
                        let idx = choose|idx: int| 0 <= idx < ev.len() && ev[idx] == x;
                        assert(taken[pids.len() + idx] == x);
                    }
                    assert(false);
                }
                return base;
            }
            let n = self.counter;
            self.counter = next_count(n);
            let mut cand_name = chars_of(slug.as_str());
            cand_name.push('-');
            push_dec_u64(&mut cand_name, n);
            append(&mut cand_name, &chars_of(".http"));
            let cand = crate::plan_paths::join_relative_path(
                directory,
                string_of(&cand_name).as_str(),
            );
            let cand_chars = chars_of(cand.as_str());
            assert(cand@ == plan_file_candidate(directory@, name@, n));
            proof {
                cands = cands.push(cand@);
            }
            if !self.id_in_use(existing, &cand_chars) {
                return cand;
            }
            i = i + 1;
        }
    }
}

// ---------------------------------------------------------------------------
// Browsing the plans directory

/// What a listed entry of the plans directory is.
#[derive(Debug, Clone, Copy, PartialEq, Eq, Structural)]
pub enum TestPlanBrowserEntryKind {
    Directory,
    File,
}

/// An entry of a folder listing.
#[derive(Debug)]
pub struct TestPlanBrowserEntry {
    pub name: String,
    pub path: String,
    pub kind: TestPlanBrowserEntryKind,
    pub updated_at_ms: Option<i64>,
    pub request_count: Option<usize>,
    pub warning_count: Option<usize>,
}

/// A folder listing of the plans directory.
#[derive(Debug)]
pub struct TestPlanBrowser {
    pub path: String,
    pub name: String,
    pub parent: Option<String>,
    pub entries: Vec<TestPlanBrowserEntry>,
}

/// The position of the first plan whose path is `path`.
pub open spec fn first_with_path(plans: Seq<StoredPlan>, path: Seq<char>) -> Option<int> {
    first_index(plans.map_values(|p: StoredPlan| p.path@), path)
}

/// The listing entry for the directory entry `name` of the folder `path`: hidden
/// names are skipped; folders are listed; `.http` files are listed with the name,
/// update time and counts of the plan saved at that path, if any.
pub open spec fn spec_browser_entry(
    plans: Seq<StoredPlan>,
    path: Seq<char>,
    name: Seq<char>,
    is_dir: bool,
    is_file: bool,
    updated_at_ms: Option<i64>,
) -> Option<(Seq<char>, Seq<char>, TestPlanBrowserEntryKind, Option<i64>, Option<usize>, Option<usize>)> {
    let entry_path = spec_join_relative_path(path, name);
    if name.len() > 0 && name[0] == '.' {
        None
    } else if is_dir {
        Some((name, entry_path, TestPlanBrowserEntryKind::Directory, updated_at_ms, None, None))
    } else if is_file && ".http"@.is_suffix_of(name) {
        match first_with_path(plans, entry_path) {
            Some(k) => Some(
                (
                    plans[k].name@,
                    entry_path,
                    TestPlanBrowserEntryKind::File,
                    Some(plans[k].updated_at_ms),
                    Some(plans[k].parsed.requests.len()),
                    Some(plans[k].parsed.warnings.len()),
                ),
            ),
            None => Some((name, entry_path, TestPlanBrowserEntryKind::File, None, None, None)),
        }
    } else {
        None
    }
}

/// The contents of a listing entry.
pub open spec fn entry_view(e: TestPlanBrowserEntry) -> (
    Seq<char>,
    Seq<char>,
    TestPlanBrowserEntryKind,
    Option<i64>,
    Option<usize>,
    Option<usize>,
) {
    (e.name@, e.path@, e.kind, e.updated_at_ms, e.request_count, e.warning_count)
}

/// Whether `a` comes before `b` in the character order.
pub open spec fn text_le(a: Seq<char>, b: Seq<char>) -> bool
    decreases a.len(),
{
    if a.len() == 0 {
        true
    } else if b.len() == 0 {
        false
    } else if a[0] != b[0] {
        a[0] < b[0]
    } else {
        text_le(a.drop_first(), b.drop_first())
    }
}

/// The rank of an entry kind: folders first.
pub open spec fn kind_rank(k: TestPlanBrowserEntryKind) -> int {
    match k {
        TestPlanBrowserEntryKind::Directory => 0,
        TestPlanBrowserEntryKind::File => 1,
    }
}

/// Whether the entry `a` may come before `b`: folders first, then by name without
/// regard to ASCII case.
pub open spec fn entry_le(a: TestPlanBrowserEntry, b: TestPlanBrowserEntry) -> bool {
    kind_rank(a.kind) < kind_rank(b.kind) || (kind_rank(a.kind) == kind_rank(b.kind) && text_le(
        ascii_lower(a.name@),
        ascii_lower(b.name@),
    ))
}

/// The number of leading entries of `s` that may come before `x`.
pub open spec fn entries_before(s: Seq<TestPlanBrowserEntry>, x: TestPlanBrowserEntry) -> nat
    decreases s.len(),
{
    if s.len() > 0 && entry_le(s[0], x) {
        1 + entries_before(s.drop_first(), x)
    } else {
        0
    }
}

/// `s` in listing order, equal entries kept in their order.
pub open spec fn listing_order(s: Seq<TestPlanBrowserEntry>) -> Seq<TestPlanBrowserEntry>
    decreases s.len(),
{
    if s.len() == 0 {
        Seq::empty()
    } else {
        let sorted = listing_order(s.drop_last());
        sorted.insert(entries_before(sorted, s.last()) as int, s.last())
    }
}

proof fn lemma_entries_before(s: Seq<TestPlanBrowserEntry>, x: TestPlanBrowserEntry, p: int)
    requires
        0 <= p <= s.len(),
        forall|i: int| 0 <= i < p ==> entry_le(#[trigger] s[i], x),
        p == s.len() || !entry_le(s[p], x),
    ensures
        entries_before(s, x) == p,
    decreases p,
{
    if p > 0 {
        assert forall|i: int| 0 <= i < p - 1 implies entry_le(#[trigger] s.drop_first()[i], x) by {
            assert(s.drop_first()[i] == s[i + 1]);
        }
        if p < s.len() {
            assert(s.drop_first()[p - 1] == s[p]);
        }
        lemma_entries_before(s.drop_first(), x, p - 1);
    }
}

/// Whether `s` is in listing order: each entry may come before every later one.
pub open spec fn in_listing_order(s: Seq<TestPlanBrowserEntry>) -> bool {
    forall|i: int, j: int| 0 <= i < j < s.len() ==> entry_le(#[trigger] s[i], #[trigger] s[j])
}

proof fn lemma_text_le_total(a: Seq<char>, b: Seq<char>)
    ensures
        text_le(a, b) || text_le(b, a),
    decreases a.len(),
{
    if a.len() > 0 && b.len() > 0 && a[0] == b[0] {
        lemma_text_le_total(a.drop_first(), b.drop_first());
    }
}

proof fn lemma_text_le_transitive(a: Seq<char>, b: Seq<char>, c: Seq<char>)
    requires
        text_le(a, b),
        text_le(b, c),
    ensures
        text_le(a, c),
    decreases a.len(),
{
    if a.len() > 0 && b.len() > 0 && c.len() > 0 && a[0] == b[0] && b[0] == c[0] {
        lemma_text_le_transitive(a.drop_first(), b.drop_first(), c.drop_first());
    }
}

proof fn lemma_entry_le_order(a: TestPlanBrowserEntry, b: TestPlanBrowserEntry, c: TestPlanBrowserEntry)
    ensures
        entry_le(a, b) || entry_le(b, a),
        entry_le(a, b) && entry_le(b, c) ==> entry_le(a, c),
{
    lemma_text_le_total(ascii_lower(a.name@), ascii_lower(b.name@));
    if entry_le(a, b) && entry_le(b, c) && kind_rank(a.kind) == kind_rank(c.kind) {
        lemma_text_le_transitive(ascii_lower(a.name@), ascii_lower(b.name@), ascii_lower(c.name@));
    }
}

proof fn lemma_entries_before_shape(s: Seq<TestPlanBrowserEntry>, x: TestPlanBrowserEntry)
    ensures
        entries_before(s, x) <= s.len(),
        forall|i: int| 0 <= i < entries_before(s, x) ==> entry_le(#[trigger] s[i], x),
        entries_before(s, x) < s.len() ==> !entry_le(s[entries_before(s, x) as int], x),
    decreases s.len(),
{
    if s.len() > 0 && entry_le(s[0], x) {
        lemma_entries_before_shape(s.drop_first(), x);
        assert forall|i: int| 0 <= i < entries_before(s, x) implies entry_le(#[trigger] s[i], x) by {
            if i > 0 {
                assert(s[i] == s.drop_first()[i - 1]);
            }
        }
        if entries_before(s, x) < s.len() {
            assert(s[entries_before(s, x) as int] == s.drop_first()[entries_before(s, x) - 1]);
        }
    }
}

/// `listing_order(s)` is in listing order and holds the entries of `s`.
pub proof fn lemma_listing_order(s: Seq<TestPlanBrowserEntry>)
    ensures
        in_listing_order(listing_order(s)),
        listing_order(s).to_multiset() == s.to_multiset(),
        listing_order(s).len() == s.len(),
    decreases s.len(),
{
    if s.len() == 0 {
        assert(listing_order(s) =~= s);
    } else {
        let sorted = listing_order(s.drop_last());
        let x = s.last();
        lemma_listing_order(s.drop_last());
        lemma_entries_before_shape(sorted, x);
        let p = entries_before(sorted, x) as int;
        let r = sorted.insert(p, x);
        assert forall|i: int, j: int| 0 <= i < j < r.len() implies entry_le(
            #[trigger] r[i],
            #[trigger] r[j],
        ) by {
            if j < p {
                assert(r[i] == sorted[i] && r[j] == sorted[j]);
            } else if j == p {
                assert(r[j] == x);
                assert(r[i] == sorted[i]);
            } else if i < p {
                assert(r[i] == sorted[i]);
                assert(r[j] == sorted[j - 1]);
            } else if i == p {
                assert(r[i] == x);
                assert(r[j] == sorted[j - 1]);
                lemma_entry_le_order(sorted[p], x, x);
                if j - 1 > p {
                    assert(entry_le(sorted[p], sorted[j - 1]));
                }
                lemma_entry_le_order(x, sorted[p], sorted[j - 1]);
            } else {
                assert(r[i] == sorted[i - 1]);
                assert(r[j] == sorted[j - 1]);
            }
        }
        vstd::seq_lib::to_multiset_insert(sorted, p, x);
        assert(s =~= s.drop_last().push(x));
        vstd::seq_lib::to_multiset_build(s.drop_last(), x);
    }
}

/// Whether `a` comes before `b` in the character order.
fn text_le_exec(a: &Vec<char>, b: &Vec<char>) -> (r: bool)
    ensures
        r == text_le(a@, b@),
{
    let mut i: usize = 0;
    assert(a@.skip(0) =~= a@);
    assert(b@.skip(0) =~= b@);
    while i < a.len() && i < b.len() && a[i] == b[i]
        invariant
            i <= a.len(),
            i <= b.len(),
            text_le(a@, b@) == text_le(a@.skip(i as int), b@.skip(i as int)),
        decreases a.len() - i,
    {
        assert(a@.skip(i as int).drop_first() =~= a@.skip(i + 1));
        assert(b@.skip(i as int).drop_first() =~= b@.skip(i + 1));
        i = i + 1;
    }
    if i == a.len() {
        return true;
    }
    if i == b.len() {
        return false;
    }
    assert(a@.skip(i as int)[0] == a@[i as int]);
    assert(b@.skip(i as int)[0] == b@[i as int]);
    a[i] < b[i]
}

fn entry_le_exec(a: &TestPlanBrowserEntry, b: &TestPlanBrowserEntry) -> (r: bool)
    ensures
        r == entry_le(*a, *b),
{
    let ra: u8 = match a.kind {
        TestPlanBrowserEntryKind::Directory => 0,
        TestPlanBrowserEntryKind::File => 1,
    };
    let rb: u8 = match b.kind {
        TestPlanBrowserEntryKind::Directory => 0,
        TestPlanBrowserEntryKind::File => 1,
    };
    if ra != rb {
        return ra < rb;
    }
    let la = to_ascii_lower(&chars_of(a.name.as_str()));
    let lb = to_ascii_lower(&chars_of(b.name.as_str()));
    text_le_exec(&la, &lb)
}

/// Orders listing entries: folders first, then by name without regard to ASCII
/// case; equal entries keep their order.
pub fn sort_entries(v: Vec<TestPlanBrowserEntry>) -> (r: Vec<TestPlanBrowserEntry>)
    ensures
        r@ == listing_order(v@),
        in_listing_order(r@),
        r@.to_multiset() == v@.to_multiset(),
{
    proof {
        lemma_listing_order(v@);
    }
    let ghost orig = v@;
    assert(orig.len() == v.len());
    let mut input = v;
    let mut out: Vec<TestPlanBrowserEntry> = Vec::new();
    let mut k: usize = 0;
    assert(orig.take(0) =~= Seq::<TestPlanBrowserEntry>::empty());
    assert(orig.skip(0) =~= orig);
    while input.len() > 0
        invariant
            k + input.len() == orig.len(),
            orig.len() <= usize::MAX,
            input@ == orig.skip(k as int),
            out@ == listing_order(orig.take(k as int)),
        decreases input.len(),
    {
        let x = input.remove(0);
        assert(x == orig[k as int]);
        let mut p: usize = 0;
        while p < out.len() && entry_le_exec(&out[p], &x)
            invariant
                p <= out.len(),
                forall|i: int| 0 <= i < p ==> entry_le(#[trigger] out@[i], x),
            decreases out.len() - p,
        {
            p = p + 1;
        }
        proof {
            lemma_entries_before(out@, x, p as int);
        }
        out.insert(p, x);
        assert(orig.take(k + 1).drop_last() =~= orig.take(k as int));
        assert(orig.take(k + 1).last() == x);
        assert(input@ =~= orig.skip(k + 1));
        k = k + 1;
    }
    assert(orig.take(k as int) =~= orig);
    out
}

/// The name shown for the folder `path`: its last segment, or `plans` for the root.
pub open spec fn folder_name(path: Seq<char>) -> Seq<char> {
    if path.len() == 0 {
        "plans"@
    } else {
        match crate::plan_paths::last_index_of(path, '/') {
            Some(k) => path.skip(k + 1),
            None => path,
        }
    }
}

/// The listing of the folder `path` with `entries`, put in listing order.
pub fn folder_listing(path: String, entries: Vec<TestPlanBrowserEntry>) -> (r: TestPlanBrowser)
    ensures
        r.path == path,
        r.name@ == folder_name(path@),
        match crate::plan_paths::spec_parent_directory(path@) {
            Some(p) => r.parent matches Some(x) && x@ == p,
            None => r.parent is None,
        },
        r.entries@ == listing_order(entries@),
        in_listing_order(r.entries@),
        r.entries@.to_multiset() == entries@.to_multiset(),
{
    let p = chars_of(path.as_str());
    let name = if p.len() == 0 {
        proof {
            reveal_strlit("plans");
        }
        string_of(&chars_of("plans"))
    } else {
        match crate::plan_paths::find_last(&p, '/') {
            Some(k) => string_of(&crate::text::slice_of(&p, k + 1, p.len())),
            None => string_of(&p),
        }
    };
    assert(p@ == path@);
    let parent = crate::plan_paths::parent_directory(path.as_str());
    TestPlanBrowser { path, name, parent, entries: sort_entries(entries) }
}

/// The error for a folder of the plans directory that does not exist.
pub fn missing_folder(path: &str) -> (e: AppError)
    ensures
        e@ == (ErrorKind::NotFound, "test plan directory "@ + path@ + " does not exist"@),
{
    not_found("test plan directory ", path, " does not exist")
}

impl TestPlanStore {
    /// The listing entry for the directory entry `name` of the folder `path`.
    pub fn browser_entry(
        &self,
        path: &str,
        name: &str,
        is_dir: bool,
        is_file: bool,
        updated_at_ms: Option<i64>,
    ) -> (r: Option<TestPlanBrowserEntry>)
        ensures
            match spec_browser_entry(self.plans(), path@, name@, is_dir, is_file, updated_at_ms) {
                Some(e) => r matches Some(x) && entry_view(x) == e,
                None => r is None,
            },
    {
        let n = chars_of(name);
        if n.len() > 0 && n[0] == '.' {
            return None;
        }
        let entry_path = crate::plan_paths::join_relative_path(path, name);
        if is_dir {
            return Some(
                TestPlanBrowserEntry {
                    name: string_of(&n),
                    path: entry_path,
                    kind: TestPlanBrowserEntryKind::Directory,
                    updated_at_ms,
                    request_count: None,
                    warning_count: None,
                },
            );
        }
        proof {
            reveal_strlit(".http");
        }
        if !(is_file && crate::text::ends_with(&n, &chars_of(".http"))) {
            return None;
        }
        let target = chars_of(entry_path.as_str());
        let ghost paths = self.plans@.map_values(|p: StoredPlan| p.path@);
        let mut i: usize = 0;
        while i < self.plans.len()
            invariant
                i <= self.plans.len(),
                target@ == entry_path@,
                entry_path@ == spec_join_relative_path(path@, name@),
                !(name@.len() > 0 && name@[0] == '.'),
                !is_dir,
                is_file && ".http"@.is_suffix_of(name@),
                paths == self.plans@.map_values(|p: StoredPlan| p.path@),
                forall|j: int| 0 <= j < i ==> paths[j] != entry_path@,
            decreases self.plans.len() - i,
        {
            assert(paths[i as int] == self.plans@[i as int].path@);
            if same_chars(&chars_of(self.plans[i].path.as_str()), &target) {
                proof {
                    lemma_first_index_exact(paths, entry_path@, i as int);
                }
                let plan = &self.plans[i];
                return Some(
                    TestPlanBrowserEntry {
                        name: plan.name.clone(),
                        path: entry_path,
                        kind: TestPlanBrowserEntryKind::File,
                        updated_at_ms: Some(plan.updated_at_ms),
                        request_count: Some(plan.parsed.requests.len()),
                        warning_count: Some(plan.parsed.warnings.len()),
                    },
                );
            }
            i = i + 1;
        }
        proof {
            lemma_first_index_exact(paths, entry_path@, paths.len() as int);
        }
        Some(
            TestPlanBrowserEntry {
                name: string_of(&n),
                path: entry_path,
                kind: TestPlanBrowserEntryKind::File,
                updated_at_ms: None,
                request_count: None,
                warning_count: None,
            },
        )
    }
}

// ---------------------------------------------------------------------------
// Saving and loading plans

impl TestPlanStore {
    /// The id of a plan to be saved from `input`: a free path in its folder (cleaned
    /// first; the root when it has none).
    pub fn new_plan_id(&mut self, input: &SavePlanInput, existing: &Vec<String>) -> (r: AppResult<
        String,
    >)
        requires
            old(self).plans().len() + existing@.len() < usize::MAX,
        ensures
            match crate::plan_paths::spec_clean_relative_path(
                match input.directory {
                    Some(d) => d@,
                    None => Seq::empty(),
                },
                false,
            ) {
                Err(e) => r matches Err(x) && x@ == e && final(self).counter() == old(
                    self,
                ).counter(),
                Ok(d) => r matches Ok(id) && {
                    &&& !id_taken(old(self).plans(), views(existing@), id@)
                    &&& !id_taken(old(self).plans(), views(existing@), plan_file_base(d, input.name@))
                        ==> id@ == plan_file_base(d, input.name@)
                },
            },
            final(self).plans() == old(self).plans(),
            final(self).executions() == old(self).executions(),
            final(self).queue() == old(self).queue(),
    {
        let dir = match &input.directory {
            Some(d) => crate::plan_paths::clean_directory_path(d.as_str()),
            None => {
                let empty = String::new();
                assert(empty@ =~= Seq::<char>::empty());
                crate::plan_paths::clean_directory_path(empty.as_str())
            },
        };
        let dir = dir?;
        Ok(self.unique_plan_id(dir.as_str(), input.name.as_str(), existing))
    }

    /// Adds the plan saved from `input` at `id` at `now_ms`, and gives it back.
    pub fn add_saved_plan(&mut self, id: String, input: SavePlanInput, now_ms: i64) -> (r:
        &StoredPlan)
        ensures
            final(self).plans() == old(self).plans().push(*r),
            r.id == id,
            r.path == id,
            r.name@ == spec_plan_display_name(id@),
            r.content == input.content,
            exists|ds: Seq<BlockDraws>|
                r.parsed@ == #[trigger] display_plan(r.name@, input.content@, input.variables@, ds),
            r.created_at_ms == now_ms,
            r.updated_at_ms == now_ms,
            final(self).executions() == old(self).executions(),
            final(self).queue() == old(self).queue(),
            final(self).counter() == old(self).counter(),
    {
        let SavePlanInput { name: _, content, directory: _, variables } = input;
        let plan = stored_plan(id, content, &variables, now_ms, now_ms);
        self.plans.push(plan);
        let k = self.plans.len() - 1;
        &self.plans[k]
    }
}

/// Whether a file name has the extension `http` (a name starting with its only dot
/// has none).
pub open spec fn spec_is_plan_file(name: Seq<char>) -> bool {
    match crate::plan_paths::last_index_of(name, '.') {
        Some(k) => k > 0 && name.skip(k + 1) == "http"@,
        None => false,
    }
}

/// Whether a directory entry named `name` is hidden (its name starts with `.`);
/// hidden entries are neither listed nor loaded.
pub fn is_hidden_entry(name: &str) -> (r: bool)
    ensures
        r == (name@.len() > 0 && name@[0] == '.'),
{
    let n = chars_of(name);
    n.len() > 0 && n[0] == '.'
}

/// Whether the file name `name` is that of a plan file.
pub fn is_plan_file(name: &str) -> (r: bool)
    ensures
        r == spec_is_plan_file(name@),
{
    let n = chars_of(name);
    match crate::plan_paths::find_last(&n, '.') {
        Some(k) => {
            if k == 0 {
                return false;
            }
            let ext = crate::text::slice_of(&n, k + 1, n.len());
            assert(ext@ =~= name@.skip(k + 1));
            same_chars(&ext, &chars_of("http"))
        },
        None => false,
    }
}

/// The id of a plan file at the relative path `path`: with `/` for `\`.
pub open spec fn spec_plan_id_of(path: Seq<char>) -> Seq<char> {
    path.map_values(|c: char| if c == '\\' { '/' } else { c })
}

/// The id of a plan file at the relative path `path`.
pub fn plan_id_of(path: &str) -> (r: String)
    ensures
        r@ == spec_plan_id_of(path@),
{
    let p = chars_of(path);
    let mut out: Vec<char> = Vec::new();
    let mut i: usize = 0;
    while i < p.len()
        invariant
            i <= p.len(),
            out@ =~= spec_plan_id_of(p@.take(i as int)),
        decreases p.len() - i,
    {
        out.push(
            if p[i] == '\\' {
                '/'
            } else {
                p[i]
            },
        );
        i = i + 1;
    }
    assert(p@.take(p.len() as int) =~= p@);
    string_of(&out)
}

/// The creation and update times of a loaded plan file: the file's modification
/// time (else now) and its creation time (else the update time).
pub fn file_times(modified_ms: Option<i64>, created_ms: Option<i64>, now_ms: i64) -> (r: (i64, i64))
    ensures
        r.1 == match modified_ms {
            Some(m) => m,
            None => now_ms,
        },
        r.0 == match created_ms {
            Some(c) => c,
            None => r.1,
        },
{
    let updated = match modified_ms {
        Some(m) => m,
        None => now_ms,
    };
    let created = match created_ms {
        Some(c) => c,
        None => updated,
    };
    (created, updated)
}

// ---------------------------------------------------------------------------
// Folders and queries

/// The query of a folder listing.
#[derive(Debug)]
pub struct BrowserQuery {
    pub path: Option<String>,
}

/// The query naming a plan by its path.
#[derive(Debug)]
pub struct PlanPathQuery {
    pub path: String,
}

/// The folder a create request names: cleaned, and not the root.
pub fn folder_to_create(path: &str) -> (r: AppResult<String>)
    ensures
        match crate::plan_paths::spec_clean_relative_path(path@, false) {
            Err(e) => r matches Err(x) && x@ == e,
            Ok(c) => if c.len() == 0 {
                r matches Err(x) && x@ == (ErrorKind::BadRequest, "folder path cannot be empty"@)
            } else {
                r matches Ok(x) && x@ == c
            },
        },
{
    let c = crate::plan_paths::clean_directory_path(path)?;
    if chars_of(c.as_str()).len() == 0 {
        return Err(crate::error::bad_request_msg("folder path cannot be empty"));
    }
    Ok(c)
}

/// The folder a delete request names: cleaned, and not the root.
pub fn folder_to_delete(path: &str) -> (r: AppResult<String>)
    ensures
        match crate::plan_paths::spec_clean_relative_path(path@, false) {
            Err(e) => r matches Err(x) && x@ == e,
            Ok(c) => if c.len() == 0 {
                r matches Err(x) && x@ == (ErrorKind::BadRequest, "root folder cannot be deleted"@)
            } else {
                r matches Ok(x) && x@ == c
            },
        },
{
    let c = crate::plan_paths::clean_directory_path(path)?;
    if chars_of(c.as_str()).len() == 0 {
        return Err(crate::error::bad_request_msg("root folder cannot be deleted"));
    }
    Ok(c)
}

/// The folder a rename request names and the path it moves to: the folder cleaned
/// (not the root), the new name a clean segment, under the same parent.
pub fn folder_rename(input: &RenameFolderInput) -> (r: AppResult<(String, String)>)
    ensures
        match crate::plan_paths::spec_clean_relative_path(input.path@, false) {
            Err(e) => r matches Err(x) && x@ == e,
            Ok(c) => if c.len() == 0 {
                r matches Err(x) && x@ == (ErrorKind::BadRequest, "root folder cannot be renamed"@)
            } else {
                match crate::plan_paths::spec_clean_path_segment(input.name@) {
                    Err(e) => r matches Err(x) && x@ == e,
                    Ok(n) => r matches Ok((from, to)) && from@ == c && to@
                        == spec_join_relative_path(
                        match crate::plan_paths::spec_parent_directory(c) {
                            Some(p) => p,
                            None => Seq::empty(),
                        },
                        n,
                    ),
                }
            },
        },
{
    let c = crate::plan_paths::clean_directory_path(input.path.as_str())?;
    if chars_of(c.as_str()).len() == 0 {
        return Err(crate::error::bad_request_msg("root folder cannot be renamed"));
    }
    let name = crate::plan_paths::clean_path_segment(input.name.as_str())?;
    let parent = match crate::plan_paths::parent_directory(c.as_str()) {
        Some(p) => p,
        None => String::new(),
    };
    let next = crate::plan_paths::join_relative_path(parent.as_str(), name.as_str());
    Ok((c, next))
}

/// The error for a folder that already exists.
pub fn folder_exists_error(path: &str) -> (e: AppError)
    ensures
        e@ == (ErrorKind::BadRequest, "folder "@ + path@ + " already exists"@),
{
    let mut m = chars_of("folder ");
    append(&mut m, &chars_of(path));
    append(&mut m, &chars_of(" already exists"));
    AppError::BadRequest(string_of(&m))
}

/// The error for a folder that is not empty.
pub fn folder_not_empty_error(path: &str) -> (e: AppError)
    ensures
        e@ == (ErrorKind::BadRequest, "folder "@ + path@ + " is not empty"@),
{
    let mut m = chars_of("folder ");
    append(&mut m, &chars_of(path));
    append(&mut m, &chars_of(" is not empty"));
    AppError::BadRequest(string_of(&m))
}

/// The failure the error demo answers with for `kind`: `bad-request`, `not-found`,
/// else an internal error.
pub fn demo_error(kind: &str) -> (e: AppError)
    ensures
        kind@ == "bad-request"@ ==> e@ == (
            ErrorKind::BadRequest,
            "the request payload failed validation (demo)"@,
        ),
        kind@ == "not-found"@ ==> e@ == (
            ErrorKind::NotFound,
            "the demo resource does not exist (demo)"@,
        ),
        kind@ != "bad-request"@ && kind@ != "not-found"@ ==> e@ == (
            ErrorKind::Internal,
            "something exploded deep inside the server (demo)"@,
        ),
{
    proof {
        reveal_strlit("bad-request");
        reveal_strlit("not-found");
        assert("bad-request"@.len() != "not-found"@.len());
    }
    let k = chars_of(kind);
    if same_chars(&k, &chars_of("bad-request")) {
        AppError::BadRequest(string_of(&chars_of("the request payload failed validation (demo)")))
    } else if same_chars(&k, &chars_of("not-found")) {
        AppError::NotFound(string_of(&chars_of("the demo resource does not exist (demo)")))
    } else {
        AppError::Internal(string_of(&chars_of("something exploded deep inside the server (demo)")))
    }
}

} // verus!
