//! Timing of a render loop: the time gone by since a start instant, and a
//! frame timer that gathers the frames of a window and summarises them.

use vstd::prelude::*;
use vstd::string::StringExecFns;
use vstd::arithmetic::div_mod::{lemma_fundamental_div_mod, lemma_fundamental_div_mod_converse};
use std::time::{Duration, Instant};
use crate::decimal::{left_justified, left_justify};
use crate::duration::{Span, SPAN_END, duration_text, format_duration};

verus! {

/// `std::time::Instant`, a reading of the monotonic clock. It is carried
/// from `Instant::now` to `Instant::elapsed` and never looked into.
#[verifier::external_type_specification]
#[verifier::external_body]
pub struct ExInstant(Instant);

/// `std::time::Instant::now`: a reading of the monotonic clock. Nothing is
/// claimed of the instant it returns.
pub assume_specification[ std::time::Instant::now ]() -> Instant
;

/// `std::time::Instant::elapsed`: the time gone by since the instant was
/// read. How long that is depends on the clock, so nothing is claimed of it.
pub assume_specification[ std::time::Instant::elapsed ](instant: &Instant) -> Duration
;

/// `std::time::Duration::as_secs`: the whole seconds of a duration. Nothing
/// is claimed of their number.
pub assume_specification[ std::time::Duration::as_secs ](duration: &Duration) -> u64
;

/// `std::time::Duration::subsec_nanos`: the part of a duration beyond its
/// whole seconds, in nanoseconds, which its documentation says is below one
/// second.
pub assume_specification[ std::time::Duration::subsec_nanos ](duration: &Duration) -> (nanos: u32)
    ensures
        nanos < 1_000_000_000,
;

/// The time gone by since `start`. The clock decides how long that is; it
/// is a span of less than `2^64` seconds, whatever the clock says.
fn span_since(start: &Instant) -> (d: Span)
    ensures
        d@ < SPAN_END,
{
    let gone = start.elapsed();
    let secs: u64 = gone.as_secs();
    let nanos: u32 = gone.subsec_nanos();
    let made = Span::new(secs, nanos);
    assert(nanos / 1_000_000_000 == 0);
    made.unwrap()
}

/// The width of the message column of an elapsed-time line.
pub const MESSAGE_WIDTH: usize = 25;

/// The width of the label column of a summary line.
pub const LABEL_WIDTH: usize = 15;

/// The line that reports a span of `d` nanoseconds under `message`.
pub open spec fn elapsed_text(message: Seq<char>, d: nat) -> Seq<char> {
    left_justified(message, MESSAGE_WIDTH as nat) + duration_text(d)
}

/// The views of a batch of spans.
pub open spec fn spans(batch: Seq<Span>) -> Seq<nat> {
    batch.map_values(|d: Span| d@)
}

/// The sum of a batch.
pub open spec fn total(batch: Seq<nat>) -> nat
    decreases batch.len(),
{
    if batch.len() == 0 {
        0
    } else {
        total(batch.drop_last()) + batch.last()
    }
}

/// The arithmetic mean of a batch, rounded down to a whole nanosecond.
pub open spec fn mean(batch: Seq<nat>) -> nat
    recommends
        batch.len() > 0,
{
    total(batch) / batch.len()
}

/// The smallest member of a batch.
pub open spec fn least(batch: Seq<nat>) -> nat
    recommends
        batch.len() > 0,
    decreases batch.len(),
{
    if batch.len() <= 1 {
        batch[0]
    } else if batch.last() < least(batch.drop_last()) {
        batch.last()
    } else {
        least(batch.drop_last())
    }
}

/// The largest member of a batch.
pub open spec fn greatest(batch: Seq<nat>) -> nat
    recommends
        batch.len() > 0,
    decreases batch.len(),
{
    if batch.len() <= 1 {
        batch[0]
    } else if batch.last() > greatest(batch.drop_last()) {
        batch.last()
    } else {
        greatest(batch.drop_last())
    }
}

/// The line that summarises a batch under `label`: the mean, and the
/// smallest and largest member.
pub open spec fn summary_text(label: Seq<char>, batch: Seq<nat>) -> Seq<char>
    recommends
        batch.len() > 0,
{
    left_justified(label, LABEL_WIDTH as nat) + duration_text(mean(batch)) + seq![
        ' ',
        '(',
        'm',
        'i',
        'n',
        ':',
        ' ',
    ] + duration_text(least(batch)) + seq![',', ' ', 'm', 'a', 'x', ':', ' '] + duration_text(
        greatest(batch),
    ) + seq![')']
}

/// A batch whose members all lie between `low` and `high` has a sum between
/// as many times `low` and `high`.
proof fn lemma_total_bounds(batch: Seq<nat>, low: nat, high: nat)
    requires
        forall|i: int| 0 <= i < batch.len() ==> low <= #[trigger] batch[i] <= high,
    ensures
        batch.len() * low <= total(batch) <= batch.len() * high,
    decreases batch.len(),
{
    if batch.len() > 0 {
        let rest = batch.drop_last();
        assert forall|i: int| 0 <= i < rest.len() implies low <= #[trigger] rest[i] <= high by {
            assert(rest[i] == batch[i]);
        }
        lemma_total_bounds(rest, low, high);
        let n: int = rest.len() as int;
        let last: int = batch.last() as int;
        assert(low <= last <= high);
        assert((n + 1) * low <= total(rest) + last <= (n + 1) * high) by (nonlinear_arith)
            requires
                n * low <= total(rest) <= n * high,
                low <= last <= high,
        ;
        assert(batch.len() == n + 1);
        assert(total(batch) == total(rest) + last);
    } else {
        assert(total(batch) == 0);
        assert(0 * low == 0 && 0 * high == 0) by (nonlinear_arith);
    }
}

/// The smallest and the largest member of a batch are members of it and
/// bound every member, and the mean lies between them.
pub proof fn lemma_statistics_bounds(batch: Seq<nat>)
    requires
        batch.len() > 0,
    ensures
        batch.contains(least(batch)),
        batch.contains(greatest(batch)),
        forall|i: int|
            0 <= i < batch.len() ==> least(batch) <= #[trigger] batch[i] <= greatest(batch),
        least(batch) <= mean(batch) <= greatest(batch),
    decreases batch.len(),
{
    if batch.len() == 1 {
        assert(batch[0] == least(batch));
        assert(batch[0] == greatest(batch));
    } else {
        let rest = batch.drop_last();
        lemma_statistics_bounds(rest);
        let a = choose|j: int| 0 <= j < rest.len() && rest[j] == least(rest);
        let b = choose|j: int| 0 <= j < rest.len() && rest[j] == greatest(rest);
        assert(batch[a] == least(rest));
        assert(batch[b] == greatest(rest));
        assert(batch[batch.len() - 1] == batch.last());
        assert forall|i: int| 0 <= i < batch.len() implies least(batch) <= #[trigger] batch[i]
            <= greatest(batch) by {
            if i < rest.len() {
                assert(rest[i] == batch[i]);
            }
        }
    }
    let n: int = batch.len() as int;
    let low: int = least(batch) as int;
    let high: int = greatest(batch) as int;
    let sum: int = total(batch) as int;
    lemma_total_bounds(batch, least(batch), greatest(batch));
    lemma_fundamental_div_mod(sum, n);
    assert(low <= sum / n <= high) by (nonlinear_arith)
        requires
            n > 0,
            n * low <= sum <= n * high,
            sum == n * (sum / n) + sum % n,
            0 <= sum % n < n,
    ;
}

/// The line that reports the span `d` under `message`.
pub fn elapsed_line(message: &str, d: Span) -> (line: String)
    ensures
        line@ == elapsed_text(message@, d@),
{
    let mut line = left_justify(message, MESSAGE_WIDTH);
    let text = format_duration(d);
    line.append(text.as_str());
    line
}

/// The text of the time gone by since `start_time`. The clock decides which
/// span that is; the text is that of some span.
pub fn elapsed(start_time: &Instant) -> (text: String)
    ensures
        exists|d: nat| d < SPAN_END && text@ == duration_text(d),
{
    let d = span_since(start_time);
    let text = format_duration(d);
    assert(d@ < SPAN_END && text@ == duration_text(d@));
    text
}

/// The line that reports the time gone by since `start_time` under
/// `message`, for the caller to log.
pub fn print_elapsed(message: &str, start_time: &Instant) -> (line: String)
    ensures
        exists|d: nat| d < SPAN_END && line@ == elapsed_text(message@, d),
{
    let d = span_since(start_time);
    let line = elapsed_line(message, d);
    assert(d@ < SPAN_END && line@ == elapsed_text(message@, d@));
    line
}

/// The mean, the smallest and the largest span of a batch; `None` for a
/// batch without a frame.
pub fn statistics(batch: &Vec<Span>) -> (r: Option<(Span, Span, Span)>)
    ensures
        r is Some <==> batch.len() > 0,
        r matches Some(s) ==> s.0@ == mean(spans(batch@)) && s.1@ == least(spans(batch@)) && s.2@
            == greatest(spans(batch@)),
{
    if batch.len() == 0 {
        return None;
    }
    let ghost views = spans(batch@);
    let first: Span = batch[0];
    let mut low: Span = first;
    let mut high: Span = first;
    let mut secs: u128 = first.as_secs() as u128;
    let mut nanos: u128 = first.subsec_nanos() as u128;
    let mut k: usize = 1;
    proof {
        reveal_with_fuel(total, 2);
        assert(views.take(1).drop_last() =~= Seq::<nat>::empty());
        assert(views.take(1).last() == first@);
    }
    while k < batch.len()
        invariant
            1 <= k <= batch.len(),
            views == spans(batch@),
            secs * 1_000_000_000 + nanos == total(views.take(k as int)),
            secs <= k * 0xffff_ffff_ffff_ffff,
            nanos <= k * 999_999_999,
            low@ == least(views.take(k as int)),
            high@ == greatest(views.take(k as int)),
        decreases batch.len() - k,
    {
        let d: Span = batch[k];
        proof {
            assert(views.take(k + 1).drop_last() =~= views.take(k as int));
            assert(views.take(k + 1).last() == d@);
        }
        secs = secs + d.as_secs() as u128;
        nanos = nanos + d.subsec_nanos() as u128;
        if d.as_nanos() < low.as_nanos() {
            low = d;
        }
        if d.as_nanos() > high.as_nanos() {
            high = d;
        }
        k = k + 1;
    }
    assert(views.take(k as int) =~= views);
    let n: u128 = batch.len() as u128;
    let whole: u128 = secs / n;
    let left: u128 = secs % n;
    proof {
        lemma_fundamental_div_mod(secs as int, n as int);
        assert(whole <= 0xffff_ffff_ffff_ffff) by (nonlinear_arith)
            requires
                secs == n * whole + left,
                0 <= left,
                secs <= n * 0xffff_ffff_ffff_ffff,
                n > 0,
        ;
    }
    let rest: u128 = left * 1_000_000_000 + nanos;
    let part: u128 = rest / n;
    let average: u128 = whole * 1_000_000_000 + part;
    proof {
        let sum: int = total(views) as int;
        let over: int = (rest % n) as int;
        lemma_fundamental_div_mod(rest as int, n as int);
        assert(sum == average * n + over) by (nonlinear_arith)
            requires
                sum == secs * 1_000_000_000 + nanos,
                secs == n * whole + left,
                rest == left * 1_000_000_000 + nanos,
                rest == n * part + over,
                average == whole * 1_000_000_000 + part,
        ;
        lemma_fundamental_div_mod_converse(sum, n as int, average as int, over);
        assert(average < SPAN_END) by (nonlinear_arith)
            requires
                sum == average * n + over,
                over >= 0,
                n > 0,
                sum <= n * 18_446_744_073_709_551_615_999_999_999,
                SPAN_END == 18_446_744_073_709_551_616_000_000_000,
        ;
    }
    let made = Span::from_nanos(average);
    Some((made.unwrap(), low, high))
}

/// The line that summarises a batch under `label`; `None` for a batch
/// without a frame.
pub fn summary_line(label: &str, batch: &Vec<Span>) -> (text: Option<String>)
    ensures
        text is Some <==> batch.len() > 0,
        text is Some ==> text->0@ == summary_text(label@, spans(batch@)),
{
    let r = match statistics(batch) {
        Some(r) => r,
        None => {
            return None;
        },
    };
    let mut line = left_justify(label, LABEL_WIDTH);
    let average = format_duration(r.0);
    let low = format_duration(r.1);
    let high = format_duration(r.2);
    proof {
        reveal_strlit(" (min: ");
        reveal_strlit(", max: ");
        reveal_strlit(")");
        assert(" (min: "@ =~= seq![' ', '(', 'm', 'i', 'n', ':', ' ']);
        assert(", max: "@ =~= seq![',', ' ', 'm', 'a', 'x', ':', ' ']);
        assert(")"@ =~= seq![')']);
    }
    line.append(average.as_str());
    line.append(" (min: ");
    line.append(low.as_str());
    line.append(", max: ");
    line.append(high.as_str());
    line.append(")");
    Some(line)
}

/// A timer for one timed activity of a frame loop. It gathers the spans of
/// the frames of a window and, when the window is full, summarises them in
/// one line and starts over.
pub struct FrameTimer {
    message: String,
    averaging_window: usize,
    current_frame_start: Instant,
    frame_times: Vec<Span>,
}

impl FrameTimer {
    /// The label that starts each summary line.
    pub closed spec fn label(&self) -> Seq<char> {
        self.message@
    }

    /// The count of frames that make a batch.
    pub closed spec fn window(&self) -> nat {
        self.averaging_window as nat
    }

    /// The spans gathered since the last summary, in nanoseconds.
    pub closed spec fn batch(&self) -> Seq<nat> {
        spans(self.frame_times@)
    }

    /// The instant at which the current frame began.
    pub closed spec fn frame_start(&self) -> Instant {
        self.current_frame_start
    }

    /// The batch is short of a full window.
    pub open spec fn wf(&self) -> bool {
        self.batch().len() < self.window()
    }

    /// How `after` and `line` follow from `self` when a frame of `d`
    /// nanoseconds ends: the frame joins the batch, and a batch that this
    /// fills is summarised in `line` and emptied. The start of the frame
    /// stays where it was.
    pub open spec fn frame_recorded(
        &self,
        d: nat,
        after: &FrameTimer,
        line: Option<String>,
    ) -> bool {
        let filled = self.batch().push(d);
        &&& after.label() == self.label()
        &&& after.window() == self.window()
        &&& after.frame_start() == self.frame_start()
        &&& line is Some <==> filled.len() == self.window()
        &&& line is Some ==> line->0@ == summary_text(self.label(), filled) && after.batch()
            == Seq::<nat>::empty()
        &&& line is None ==> after.batch() == filled
    }

    /// A timer whose first frame began at `now` and that summarises every
    /// `averaging_window` frames under `message`; `None` for a window of no
    /// frames.
    pub fn new_at(message: &str, averaging_window: usize, now: Instant) -> (timer: Option<
        FrameTimer,
    >)
        ensures
            timer is Some <==> averaging_window >= 1,
            timer is Some ==> timer->0.label() == message@ && timer->0.window()
                == averaging_window && timer->0.batch() == Seq::<nat>::empty()
                && timer->0.frame_start() == now && timer->0.wf(),
    {
        if averaging_window == 0 {
            None
        } else {
            let timer = FrameTimer {
                message: message.to_owned(),
                averaging_window,
                current_frame_start: now,
                frame_times: Vec::new(),
            };
            assert(timer.batch() =~= Seq::<nat>::empty());
            Some(timer)
        }
    }

    /// A timer that summarises every `averaging_window` frames under
    /// `message`; `None` for a window of no frames. Its first frame begins
    /// at the instant that the clock gives: the rest is `new_at`.
    pub fn new(message: &str, averaging_window: usize) -> (timer: Option<FrameTimer>)
        ensures
            timer is Some <==> averaging_window >= 1,
            timer is Some ==> timer->0.label() == message@ && timer->0.window()
                == averaging_window && timer->0.batch() == Seq::<nat>::empty() && timer->0.wf(),
    {
        FrameTimer::new_at(message, averaging_window, Instant::now())
    }

    /// The spans gathered since the last summary.
    pub fn frame_times(&self) -> (batch: &Vec<Span>)
        ensures
            spans(batch@) == self.batch(),
    {
        &self.frame_times
    }

    /// Marks `now` as the start of a frame.
    pub fn start_at(&mut self, now: Instant)
        ensures
            final(self).frame_start() == now,
            final(self).label() == old(self).label(),
            final(self).window() == old(self).window(),
            final(self).batch() == old(self).batch(),
    {
        self.current_frame_start = now;
    }

    /// Marks the start of a frame at the instant that the clock gives: the
    /// rest is `start_at`.
    pub fn start(&mut self)
        ensures
            final(self).label() == old(self).label(),
            final(self).window() == old(self).window(),
            final(self).batch() == old(self).batch(),
    {
        self.start_at(Instant::now());
    }

    /// Ends a frame that took `d`: see `frame_recorded`.
    pub fn record(&mut self, d: Span) -> (line: Option<String>)
        ensures
            old(self).frame_recorded(d@, final(self), line),
            old(self).wf() ==> final(self).wf(),
    {
        self.frame_times.push(d);
        assert(self.batch() =~= old(self).batch().push(d@));
        if self.frame_times.len() == self.averaging_window {
            let line = summary_line(self.message.as_str(), &self.frame_times);
            self.frame_times.clear();
            assert(self.batch() =~= Seq::<nat>::empty());
            line
        } else {
            None
        }
    }

    /// Ends the frame begun at the last `start`, whose start stays where it
    /// was. The clock decides how long the frame took; the rest is `record`.
    pub fn end(&mut self) -> (line: Option<String>)
        ensures
            exists|d: nat| d < SPAN_END && old(self).frame_recorded(d, final(self), line),
            old(self).wf() ==> final(self).wf(),
    {
        let d = span_since(&self.current_frame_start);
        let line = self.record(d);
        assert(d@ < SPAN_END && old(self).frame_recorded(d@, self, line));
        line
    }

    /// Summarises the batch gathered so far, if it holds a frame, and
    /// empties it. Nothing else of the timer changes.
    pub fn print_and_reset(&mut self) -> (line: Option<String>)
        ensures
            final(self).label() == old(self).label(),
            final(self).window() == old(self).window(),
            final(self).frame_start() == old(self).frame_start(),
            final(self).batch() == Seq::<nat>::empty(),
            line is Some <==> old(self).batch().len() > 0,
            line is Some ==> line->0@ == summary_text(old(self).label(), old(self).batch()),
            old(self).window() >= 1 ==> final(self).wf(),
    {
        let line = summary_line(self.message.as_str(), &self.frame_times);
        self.frame_times.clear();
        assert(self.batch() =~= Seq::<nat>::empty());
        line
    }
}

} // verus!
