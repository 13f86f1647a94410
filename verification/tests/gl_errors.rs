use render_diag::{error_name, error_report, gl_check_error, gl_check_step};

#[test]
fn queue_of_two_errors_gives_two_reports_in_order() {
    let codes = vec![gl::INVALID_VALUE, gl::STACK_OVERFLOW, gl::NO_ERROR];
    let (reports, status) = gl_check_error(&codes, "src/render.rs", 42);
    assert_eq!(
        reports,
        vec![
            String::from("INVALID_VALUE | src/render.rs (42)"),
            String::from("STACK_OVERFLOW | src/render.rs (42)"),
        ]
    );
    assert_eq!(status, gl::NO_ERROR);
}

#[test]
fn empty_queue_gives_no_report() {
    let (reports, status) = gl_check_error(&vec![gl::NO_ERROR], "src/render.rs", 7);
    assert!(reports.is_empty());
    assert_eq!(status, gl::NO_ERROR);
    let (reports, status) = gl_check_error(&Vec::new(), "src/render.rs", 7);
    assert!(reports.is_empty());
    assert_eq!(status, gl::NO_ERROR);
}

#[test]
fn codes_after_the_first_no_error_are_left_alone() {
    let codes = vec![gl::OUT_OF_MEMORY, gl::NO_ERROR, gl::INVALID_ENUM];
    let (reports, status) = gl_check_error(&codes, "a.rs", 1);
    assert_eq!(reports, vec![String::from("OUT_OF_MEMORY | a.rs (1)")]);
    assert_eq!(status, 0);
}

#[test]
fn queue_without_a_no_error_is_reported_whole() {
    let codes = vec![gl::INVALID_ENUM, gl::INVALID_ENUM, 0x9999];
    let (reports, status) = gl_check_error(&codes, "a.rs", 1);
    assert_eq!(reports.len(), 3);
    assert_eq!(reports[2], "unknown GL error code | a.rs (1)");
    assert_eq!(status, gl::NO_ERROR);
}

#[test]
fn every_error_code_has_its_name() {
    assert_eq!(error_name(gl::INVALID_ENUM), "INVALID_ENUM");
    assert_eq!(error_name(gl::INVALID_VALUE), "INVALID_VALUE");
    assert_eq!(error_name(gl::INVALID_OPERATION), "INVALID_OPERATION");
    assert_eq!(error_name(gl::STACK_OVERFLOW), "STACK_OVERFLOW");
    assert_eq!(error_name(gl::STACK_UNDERFLOW), "STACK_UNDERFLOW");
    assert_eq!(error_name(gl::OUT_OF_MEMORY), "OUT_OF_MEMORY");
    assert_eq!(error_name(gl::INVALID_FRAMEBUFFER_OPERATION), "INVALID_FRAMEBUFFER_OPERATION");
}

#[test]
fn error_codes_have_their_registry_values() {
    assert_eq!(error_name(0x0500), "INVALID_ENUM");
    assert_eq!(error_name(0x0501), "INVALID_VALUE");
    assert_eq!(error_name(0x0502), "INVALID_OPERATION");
    assert_eq!(error_name(0x0503), "STACK_OVERFLOW");
    assert_eq!(error_name(0x0504), "STACK_UNDERFLOW");
    assert_eq!(error_name(0x0505), "OUT_OF_MEMORY");
    assert_eq!(error_name(0x0506), "INVALID_FRAMEBUFFER_OPERATION");
}

#[test]
fn other_codes_are_unknown() {
    assert_eq!(error_name(0x0507), "unknown GL error code");
    assert_eq!(error_name(0x04ff), "unknown GL error code");
    assert_eq!(error_name(1), "unknown GL error code");
    assert_eq!(error_name(u32::MAX), "unknown GL error code");
    assert_eq!(error_name(gl::NO_ERROR), "unknown GL error code");
}

#[test]
fn report_names_the_error_and_the_call_site() {
    assert_eq!(error_report(gl::INVALID_OPERATION, "src/mesh.rs", 0), "INVALID_OPERATION | src/mesh.rs (0)");
    assert_eq!(
        error_report(0xdead, "", u32::MAX),
        "unknown GL error code |  (4294967295)"
    );
}

#[test]
fn step_ends_the_check_on_no_error() {
    assert_eq!(gl_check_step(gl::NO_ERROR, "a.rs", 3), None);
}

#[test]
fn step_reports_an_error() {
    assert_eq!(
        gl_check_step(gl::STACK_UNDERFLOW, "a.rs", 3),
        Some(String::from("STACK_UNDERFLOW | a.rs (3)"))
    );
    assert_eq!(
        gl_check_step(77, "a.rs", 3),
        Some(String::from("unknown GL error code | a.rs (3)"))
    );
}
