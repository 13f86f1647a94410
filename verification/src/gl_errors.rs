//! Reporting of the error codes that the graphics driver holds pending.
//!
//! The driver keeps a queue of error codes and hands one out at each poll,
//! or the no-error status once the queue is empty. Polling belongs to the
//! caller, on the thread that owns the graphics context; what to do with
//! each code that a poll hands back is decided here.

use vstd::prelude::*;
use vstd::string::StringExecFns;
use crate::decimal::{decimal, push_decimal};

verus! {

/// `gl::NO_ERROR`, the status that a poll returns when no error is pending:
/// zero in the OpenGL registry that the bindings are generated from.
#[verifier::external_body]
fn no_error() -> (code: u32)
    ensures
        code == 0,
{
    gl::NO_ERROR
}

/// `gl::INVALID_ENUM`: `0x0500` in the OpenGL registry.
#[verifier::external_body]
fn invalid_enum() -> (code: u32)
    ensures
        code == 0x0500,
{
    gl::INVALID_ENUM
}

/// `gl::INVALID_VALUE`: `0x0501` in the OpenGL registry.
#[verifier::external_body]
fn invalid_value() -> (code: u32)
    ensures
        code == 0x0501,
{
    gl::INVALID_VALUE
}

/// `gl::INVALID_OPERATION`: `0x0502` in the OpenGL registry.
#[verifier::external_body]
fn invalid_operation() -> (code: u32)
    ensures
        code == 0x0502,
{
    gl::INVALID_OPERATION
}

/// `gl::STACK_OVERFLOW`: `0x0503` in the OpenGL registry.
#[verifier::external_body]
fn stack_overflow() -> (code: u32)
    ensures
        code == 0x0503,
{
    gl::STACK_OVERFLOW
}

/// `gl::STACK_UNDERFLOW`: `0x0504` in the OpenGL registry.
#[verifier::external_body]
fn stack_underflow() -> (code: u32)
    ensures
        code == 0x0504,
{
    gl::STACK_UNDERFLOW
}

/// `gl::OUT_OF_MEMORY`: `0x0505` in the OpenGL registry.
#[verifier::external_body]
fn out_of_memory() -> (code: u32)
    ensures
        code == 0x0505,
{
    gl::OUT_OF_MEMORY
}

/// `gl::INVALID_FRAMEBUFFER_OPERATION`: `0x0506` in the OpenGL registry.
#[verifier::external_body]
fn invalid_framebuffer_operation() -> (code: u32)
    ensures
        code == 0x0506,
{
    gl::INVALID_FRAMEBUFFER_OPERATION
}

/// Whether `code` is the status of an empty queue.
pub open spec fn is_no_error(code: u32) -> bool {
    code == 0
}

/// The name that a report gives to an error code.
pub open spec fn error_name_text(code: u32) -> Seq<char> {
    if code == 0x0500 {
        "INVALID_ENUM"@
    } else if code == 0x0501 {
        "INVALID_VALUE"@
    } else if code == 0x0502 {
        "INVALID_OPERATION"@
    } else if code == 0x0503 {
        "STACK_OVERFLOW"@
    } else if code == 0x0504 {
        "STACK_UNDERFLOW"@
    } else if code == 0x0505 {
        "OUT_OF_MEMORY"@
    } else if code == 0x0506 {
        "INVALID_FRAMEBUFFER_OPERATION"@
    } else {
        "unknown GL error code"@
    }
}

/// The report of one error code, met by a check asked for at `line` of
/// `file`.
pub open spec fn report_text(code: u32, file: Seq<char>, line: u32) -> Seq<char> {
    error_name_text(code) + " | "@ + file + " ("@ + decimal(line as nat) + ")"@
}

/// `count` codes are reported of a run of polls that returned `codes`: all
/// that came before the first no-error status.
pub open spec fn reported(codes: Seq<u32>, count: nat) -> bool {
    &&& count <= codes.len()
    &&& forall|i: int| 0 <= i < count ==> !is_no_error(#[trigger] codes[i])
    &&& count < codes.len() ==> is_no_error(codes[count as int])
}

/// The name that a report gives to `code`.
pub fn error_name(code: u32) -> (name: &'static str)
    ensures
        name@ == error_name_text(code),
{
    if code == invalid_enum() {
        "INVALID_ENUM"
    } else if code == invalid_value() {
        "INVALID_VALUE"
    } else if code == invalid_operation() {
        "INVALID_OPERATION"
    } else if code == stack_overflow() {
        "STACK_OVERFLOW"
    } else if code == stack_underflow() {
        "STACK_UNDERFLOW"
    } else if code == out_of_memory() {
        "OUT_OF_MEMORY"
    } else if code == invalid_framebuffer_operation() {
        "INVALID_FRAMEBUFFER_OPERATION"
    } else {
        "unknown GL error code"
    }
}

/// The report of `code`, met by a check asked for at `line` of `file`.
pub fn error_report(code: u32, file: &str, line: u32) -> (report: String)
    ensures
        report@ == report_text(code, file@, line),
{
    let mut report = String::new();
    report.append(error_name(code));
    report.append(" | ");
    report.append(file);
    report.append(" (");
    push_decimal(&mut report, line as u128);
    report.append(")");
    assert(report@ =~= report_text(code, file@, line));
    report
}

/// What follows from one poll of the driver that returned `code`: `None`
/// when the queue is drained and the check is over, otherwise the report to
/// log at error severity before the next poll.
pub fn gl_check_step(code: u32, file: &str, line: u32) -> (report: Option<String>)
    ensures
        report is None <==> is_no_error(code),
        report is Some ==> report->0@ == report_text(code, file@, line),
{
    if code == no_error() {
        None
    } else {
        Some(error_report(code, file, line))
    }
}

/// Runs a check over the codes that a run of polls returned, the queue being
/// empty after the last of them. Returns the reports to log, one for each
/// code before the first no-error status and in their order, and the status
/// that ended the check.
pub fn gl_check_error(codes: &Vec<u32>, file: &str, line: u32) -> (r: (Vec<String>, u32))
    ensures
        is_no_error(r.1),
        reported(codes@, r.0@.len()),
        forall|i: int|
            0 <= i < r.0@.len() ==> (#[trigger] r.0@[i])@ == report_text(codes@[i], file@, line),
{
    let status: u32 = no_error();
    let mut reports: Vec<String> = Vec::new();
    let mut k: usize = 0;
    while k < codes.len() && codes[k] != status
        invariant
            k <= codes.len(),
            status == 0,
            reports@.len() == k,
            forall|i: int| 0 <= i < k ==> !is_no_error(#[trigger] codes@[i]),
            forall|i: int|
                0 <= i < k ==> (#[trigger] reports@[i])@ == report_text(codes@[i], file@, line),
        decreases codes.len() - k,
    {
        reports.push(error_report(codes[k], file, line));
        k = k + 1;
    }
    (reports, status)
}

} // verus!
