//! Cron schedules: normalizing expressions and deciding which schedules are
//! due on a scheduler tick.
use vstd::prelude::*;
use crate::models::Schedule;
use crate::cronspec::{
    CronPlan, LATEST_START_MS, cron_accepts, cron_first_fire_after, cron_parse, cron_error_text,
    rfc3339_millis, rfc3339_ms,
};
use crate::text::{
    words, joined, split_words, join_texts, text_to_string, push_text, plain_word,
    lemma_words_plain, lemma_words_of_joined, lemma_joined_prepend,
};

verus! {

/// Why a cron expression was refused; `detail` is the cron crate's message.
#[derive(Debug)]
pub struct CronError {
    pub expression: String,
    pub detail: String,
}

impl CronError {
    pub fn message(&self) -> (r: String)
        ensures
            r@ == "invalid cron expression '"@ + self.expression@ + "': "@ + self.detail@,
    {
        let mut r = text_to_string("invalid cron expression '");
        push_text(&mut r, self.expression.as_str());
        push_text(&mut r, "': ");
        push_text(&mut r, self.detail.as_str());
        r
    }
}

/// The normal form of a cron expression: its fields separated by single
/// spaces, with a seconds field "0" put in front of a classic 5-field
/// expression.
pub open spec fn normal_cron(expr: Seq<char>) -> Seq<char> {
    let fields = words(expr);
    if fields.len() == 5 {
        "0 "@ + joined(fields, " "@)
    } else {
        joined(fields, " "@)
    }
}

/// Accepts classic 5-field cron by prepending a seconds field, then validates
/// the expression. Returns the normalized 6/7-field form.
pub fn normalize_cron(expr: &str) -> (r: Result<String, CronError>)
    ensures
        r is Ok == cron_accepts(normal_cron(expr@)),
        r matches Ok(s) ==> s@ == normal_cron(expr@),
        r matches Err(e) ==> e.expression@ == expr@,
{
    let fields = split_words(expr);
    let joined_fields = join_texts(&fields, " ");
    let normalized = if fields.len() == 5 {
        let mut n = text_to_string("0 ");
        push_text(&mut n, joined_fields.as_str());
        n
    } else {
        joined_fields
    };
    assert(normalized@ == normal_cron(expr@));
    match cron_parse(normalized.as_str()) {
        Ok(_) => Ok(normalized),
        Err(e) => Err(CronError { expression: text_to_string(expr), detail: cron_error_text(&e) }),
    }
}

/// Normalizing a normal form changes nothing: `normalize_cron` gives back
/// what it returned, and the cron crate's verdict on it stays the same.
pub proof fn lemma_normal_cron_idempotent(expr: Seq<char>)
    ensures
        normal_cron(normal_cron(expr)) == normal_cron(expr),
        cron_accepts(normal_cron(normal_cron(expr))) == cron_accepts(normal_cron(expr)),
{
    reveal_strlit("0 ");
    reveal_strlit("0");
    reveal_strlit(" ");
    let ws = words(expr);
    lemma_words_plain(expr);
    if ws.len() == 5 {
        let zero = "0"@;
        let all = seq![zero] + ws;
        assert(plain_word(zero)) by {
            assert(zero =~= seq!['0']);
        }
        assert forall|k: int| 0 <= k < all.len() implies plain_word(#[trigger] all[k]) by {
            if k > 0 {
                assert(all[k] == ws[k - 1]);
            }
        }
        lemma_joined_prepend(zero, ws, " "@);
        assert("0 "@ =~= zero + " "@);
        assert(normal_cron(expr) == joined(all, " "@));
        lemma_words_of_joined(all);
    } else {
        lemma_words_of_joined(ws);
    }
}

/// Whether a schedule is due at a tick: it is enabled, its expression is
/// valid, and it fires after the previous tick (`last_check_ms`) and no later
/// than now. Fires missed while nobody looked collapse into one.
pub open spec fn schedule_due(s: Schedule, last_check_ms: i64, now_ms: i64) -> bool {
    let normal = normal_cron(s.cron@);
    &&& s.enabled
    &&& cron_accepts(normal)
    &&& cron_first_fire_after(normal, last_check_ms) matches Some(t) && t <= now_ms
}

/// Decides whether a schedule is due at a tick. The window may not open past
/// `LATEST_START_MS`, where the cron crate's search panics.
pub fn is_due(schedule: &Schedule, last_check_ms: i64, now_ms: i64) -> (r: bool)
    requires
        last_check_ms <= LATEST_START_MS,
    ensures
        r == schedule_due(*schedule, last_check_ms, now_ms),
{
    if !schedule.enabled {
        return false;
    }
    match normalize_cron(schedule.cron.as_str()) {
        Err(_) => false,
        Ok(normal) => match CronPlan::parse(normal.as_str()) {
            Err(_) => false,
            Ok(plan) => match plan.first_fire_after(last_check_ms) {
                Some(t) => t <= now_ms,
                None => false,
            },
        },
    }
}

/// The instant a schedule has accounted for: when it last triggered a run,
/// else when it was created; `None` when that timestamp does not parse.
pub open spec fn schedule_mark(s: Schedule) -> Option<i64> {
    match s.last_run_at {
        Some(t) => rfc3339_millis(t@),
        None => rfc3339_millis(s.created_at@),
    }
}

/// Where a tick's window opens, given the schedule's mark. Every tick but the
/// first opens where the previous tick looked (`last_check_ms`). The first
/// tick after the scheduler starts opens at the mark when that is earlier, so
/// the fires missed while the server was down collapse into one run.
pub open spec fn window_open(mark: Option<i64>, first_tick: bool, last_check_ms: i64) -> i64 {
    match mark {
        Some(m) if first_tick && m < last_check_ms => m,
        _ => last_check_ms,
    }
}

pub open spec fn window_start(s: Schedule, first_tick: bool, last_check_ms: i64) -> i64 {
    window_open(schedule_mark(s), first_tick, last_check_ms)
}

/// Opens a tick's window from the schedule's mark.
pub fn window_opening(mark: Option<i64>, first_tick: bool, last_check_ms: i64) -> (r: i64)
    ensures
        r == window_open(mark, first_tick, last_check_ms),
        r <= last_check_ms,
{
    if first_tick {
        if let Some(m) = mark {
            if m < last_check_ms {
                return m;
            }
        }
    }
    last_check_ms
}

/// Opens a tick's window for a schedule, reading its mark from the stored
/// RFC 3339 timestamps.
pub fn catch_up_start(schedule: &Schedule, first_tick: bool, last_check_ms: i64) -> (r: i64)
    ensures
        r == window_start(*schedule, first_tick, last_check_ms),
        r <= last_check_ms,
{
    let mark = match &schedule.last_run_at {
        Some(t) => rfc3339_ms(t.as_str()),
        None => rfc3339_ms(schedule.created_at.as_str()),
    };
    window_opening(mark, first_tick, last_check_ms)
}

/// Missed fires collapse into one run: on the first tick, a schedule that
/// fired at least once after its mark and no later than now is due, however
/// many fires were missed; on later ticks the window is the previous tick's.
pub proof fn lemma_missed_fires_collapse(s: Schedule, last_check_ms: i64, now_ms: i64)
    requires
        s.enabled,
        cron_accepts(normal_cron(s.cron@)),
        schedule_mark(s) matches Some(m) && (m < last_check_ms
            && (cron_first_fire_after(normal_cron(s.cron@), m) matches Some(t) && t <= now_ms)),
    ensures
        schedule_due(s, window_start(s, true, last_check_ms), now_ms),
        window_start(s, false, last_check_ms) == last_check_ms,
        window_start(s, true, last_check_ms) <= last_check_ms,
{
}

/// A schedule that triggered a run records when.
pub fn record_run(schedule: &mut Schedule, now: String)
    ensures
        final(schedule).last_run_at == Some(now),
        final(schedule).id == old(schedule).id,
        final(schedule).workflow_id == old(schedule).workflow_id,
        final(schedule).cron == old(schedule).cron,
        final(schedule).input == old(schedule).input,
        final(schedule).enabled == old(schedule).enabled,
        final(schedule).created_at == old(schedule).created_at,
{
    schedule.last_run_at = Some(now);
}

} // verus!
