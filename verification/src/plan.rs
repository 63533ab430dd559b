//! The parts of a test plan: its requests, their headers, scripts and status
//! assertions, and what a plan is read from.
use vstd::prelude::*;

use crate::certificates::views;
use crate::plan_parser::{PlanView, RequestView, ScriptView};
use crate::substitution::Variables;

verus! {

/// A script of a request: JavaScript source written in the plan, or the path of a
/// script file relative to the plans directory.
#[derive(Debug, Clone)]
pub enum TestPlanScript {
    Inline { source: String },
    File { path: String },
}

/// A request header.
#[derive(Debug, Clone)]
pub struct HttpHeader {
    pub name: String,
    pub value: String,
}

/// What an assertion checks.
#[derive(Debug, Clone, Copy, PartialEq, Eq, Structural)]
pub enum AssertionKind {
    StatusEquals { expected: u16 },
}

/// A named check on a response.
#[derive(Debug, Clone)]
pub struct HttpAssertion {
    pub name: String,
    pub kind: AssertionKind,
}

/// A request of a plan. The `raw_*` fields keep the text as written, with its
/// placeholders, for resolution when the request runs.
#[derive(Debug, Clone)]
pub struct TestPlanRequest {
    pub id: usize,
    pub name: String,
    pub method: String,
    pub url: String,
    pub headers: Vec<HttpHeader>,
    pub body: Option<String>,
    pub pre_request_scripts: Vec<TestPlanScript>,
    pub response_handler_scripts: Vec<TestPlanScript>,
    pub assertions: Vec<HttpAssertion>,
    pub raw_url: String,
    pub raw_headers: Vec<HttpHeader>,
    pub raw_body: Option<String>,
}

/// A parsed test plan.
#[derive(Debug)]
pub struct TestPlan {
    pub name: String,
    pub variables: Variables,
    pub requests: Vec<TestPlanRequest>,
    pub warnings: Vec<String>,
}

/// What a plan is read from: an optional name, the `.http` text, and variables
/// that override those of the file.
#[derive(Debug)]
pub struct TestPlanInput {
    pub name: Option<String>,
    pub content: String,
    pub variables: Variables,
}

/// The contents of a script.
pub open spec fn script_view(s: TestPlanScript) -> ScriptView {
    match s {
        TestPlanScript::Inline { source } => ScriptView::Inline(source@),
        TestPlanScript::File { path } => ScriptView::File(path@),
    }
}

/// The contents of a list of scripts.
pub open spec fn scripts_view(v: Seq<TestPlanScript>) -> Seq<ScriptView> {
    v.map_values(|s: TestPlanScript| script_view(s))
}

/// A header as a name and a value.
pub open spec fn header_pair(h: HttpHeader) -> (Seq<char>, Seq<char>) {
    (h.name@, h.value@)
}

/// A list of headers as names and values.
pub open spec fn headers_view(v: Seq<HttpHeader>) -> Seq<(Seq<char>, Seq<char>)> {
    v.map_values(|h: HttpHeader| header_pair(h))
}

/// An assertion as its name and the status it expects.
pub open spec fn assertion_pair(a: HttpAssertion) -> (Seq<char>, u16) {
    match a.kind {
        AssertionKind::StatusEquals { expected } => (a.name@, expected),
    }
}

/// A list of assertions as names and expected statuses.
pub open spec fn assertions_view(v: Seq<HttpAssertion>) -> Seq<(Seq<char>, u16)> {
    v.map_values(|a: HttpAssertion| assertion_pair(a))
}

/// The view of an optional string.
pub open spec fn opt_string(o: Option<String>) -> Option<Seq<char>> {
    match o {
        Some(s) => Some(s@),
        None => None,
    }
}

impl View for TestPlanRequest {
    type V = RequestView;

    open spec fn view(&self) -> RequestView {
        RequestView {
            id: self.id,
            name: self.name@,
            method: self.method@,
            url: self.url@,
            headers: headers_view(self.headers@),
            body: opt_string(self.body),
            pre_request_scripts: scripts_view(self.pre_request_scripts@),
            response_handler_scripts: scripts_view(self.response_handler_scripts@),
            assertions: assertions_view(self.assertions@),
            raw_url: self.raw_url@,
            raw_headers: headers_view(self.raw_headers@),
            raw_body: opt_string(self.raw_body),
        }
    }
}

/// The contents of a list of requests.
pub open spec fn requests_view(v: Seq<TestPlanRequest>) -> Seq<RequestView> {
    v.map_values(|r: TestPlanRequest| r@)
}

/// The contents of an optional request.
pub open spec fn opt_request_view(o: Option<TestPlanRequest>) -> Option<RequestView> {
    match o {
        Some(r) => Some(r@),
        None => None,
    }
}

impl View for TestPlan {
    type V = PlanView;

    open spec fn view(&self) -> PlanView {
        PlanView {
            name: self.name@,
            variables: self.variables@,
            requests: requests_view(self.requests@),
            warnings: views(self.warnings@),
        }
    }
}

} // verus!
