//! Diagnostic helpers for a render loop: elapsed-time formatting, a frame
//! timer that summarises batches of frames, and reporting of the graphics
//! driver's pending error codes.

pub mod binary64;
pub mod decimal;
pub mod duration;
pub mod gl_errors;
pub mod timer;

pub use duration::{format_duration, reading, Reading, Span, Unit};
pub use gl_errors::{error_name, error_report, gl_check_error, gl_check_step};
pub use timer::{elapsed, elapsed_line, print_elapsed, statistics, summary_line, FrameTimer};
