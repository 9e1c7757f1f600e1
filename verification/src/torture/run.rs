//! One run of the schedule, step by step: what to do next, what to write into
//! the log, and what the run adds up to. The harness performs the steps.

use super::failover::FaultOutcome;
use super::schedule::{
    delay_of, draw_delay, draw_strike, drawn, event_line, event_text, heal_message,
    state_after_delay, state_after_strike, strike_message, strike_text, RunConfig, Strike,
};
use super::summary::{counted, FaultCounts, RunSummary};
use crate::checker::Report;
use crate::harness::rng::SplitMix64;
use crate::order::texts;
use crate::text::{decimal, push_decimal};
use vstd::prelude::*;
use vstd::string::*;

verus! {

/// A run of the schedule.
pub struct Run {
    rng: SplitMix64,
    log: Vec<String>,
    counts: FaultCounts,
    outcomes: Vec<FaultOutcome>,
    incidents: u32,
    cut_short: bool,
}

/// What a run has come to.
pub struct RunState {
    /// The state of the generator.
    pub rng: u64,
    /// The lines of the log.
    pub log: Seq<Seq<char>>,
    pub counts: FaultCounts,
    pub outcomes: Seq<FaultOutcome>,
    /// Times that the cluster did not re-form.
    pub incidents: u32,
    /// Whether no more faults are injected.
    pub cut_short: bool,
}

impl View for Run {
    type V = RunState;

    closed spec fn view(&self) -> RunState {
        RunState {
            rng: self.rng@,
            log: texts(self.log@),
            counts: self.counts,
            outcomes: self.outcomes@,
            incidents: self.incidents,
            cut_short: self.cut_short,
        }
    }
}

/// A state with one line more in its log.
pub open spec fn logged(s: RunState, now_ms: u64, message: Seq<char>) -> RunState {
    RunState { log: s.log.push(event_text(centis(now_ms), message)), ..s }
}

/// Milliseconds in hundredths of a second, rounded.
pub open spec fn centis(now_ms: u64) -> u64 {
    (now_ms / 10 + if now_ms % 10 >= 5 {
        1int
    } else {
        0
    }) as u64
}

/// Whether the time of a run is up.
pub open spec fn time_is_up(cfg: RunConfig, now_ms: u64) -> bool {
    now_ms >= cfg.duration_secs * 1000
}

/// What the end of the drain says of ids that nobody read.
pub open spec fn unread_text(missing: u64) -> Seq<char> {
    "drain timed out with "@ + decimal(missing as nat)
        + " acked ids unread — checker will report them"@
}

/// How the drain goes on.
#[derive(Clone, Copy, Debug, PartialEq, Eq, Structural)]
pub enum Drain {
    /// Every acked id was read.
    Done,
    /// Some were not, and the time is up.
    TimedOut,
    /// Some were not yet.
    Waiting,
}

/// Milliseconds to the nearest hundredth of a second.
pub fn hundredths(now_ms: u64) -> (r: u64)
    ensures
        r == centis(now_ms),
{
    now_ms / 10 + if now_ms % 10 >= 5 {
        1
    } else {
        0
    }
}

impl Run {
    pub fn new(cfg: &RunConfig) -> (r: Run)
        ensures
            r@ == (RunState {
                rng: cfg.seed,
                log: Seq::empty(),
                counts: FaultCounts { isolate: 0, kill: 0, pause: 0 },
                outcomes: Seq::empty(),
                incidents: 0,
                cut_short: false,
            }),
    {
        let r: Run = Run {
            rng: SplitMix64::new(cfg.seed),
            log: Vec::new(),
            counts: FaultCounts::new(),
            outcomes: Vec::new(),
            incidents: 0,
            cut_short: false,
        };
        assert(texts(r.log@) =~= Seq::empty());
        assert(r.outcomes@ =~= Seq::empty());
        r
    }

    /// Writes a line into the log, and returns it.
    pub fn log_event(&mut self, now_ms: u64, message: &str) -> (line: String)
        ensures
            line@ == event_text(centis(now_ms), message@),
            final(self)@ == logged(old(self)@, now_ms, message@),
    {
        let line: String = event_line(hundredths(now_ms), message);
        let ghost before = texts(self.log@);
        self.log.push(line.clone());
        assert(texts(self.log@) =~= before.push(line@));
        line
    }

    /// How long to wait for the next fault; nothing where no more faults come:
    /// the time is up, there are none to inject, or the run was cut short.
    pub fn next_gap(&mut self, cfg: &RunConfig, now_ms: u64) -> (r: Option<u64>)
        ensures
            ({
                let s = old(self)@;
                let t = state_after_delay(cfg.min_gap_ms, cfg.max_gap_ms, s.rng);
                if time_is_up(*cfg, now_ms) || cfg.faults@.len() == 0 || s.cut_short {
                    r is None && final(self)@ == s
                } else {
                    &&& r == Some(delay_of(cfg.min_gap_ms, cfg.max_gap_ms, t))
                    &&& final(self)@ == (RunState { rng: t, ..s })
                }
            }),
    {
        if now_ms / 1000 >= cfg.duration_secs || cfg.faults.len() == 0 || self.cut_short {
            return None;
        }
        Some(draw_delay(&mut self.rng, cfg.min_gap_ms, cfg.max_gap_ms))
    }

    /// Draws the next fault, counts it and logs it; nothing where the time is
    /// up. `names` are the brokers, `leaders` the leaders that are known.
    pub fn strike(
        &mut self,
        cfg: &RunConfig,
        names: &Vec<String>,
        leaders: &Vec<i32>,
        now_ms: u64,
    ) -> (r: Option<Strike>)
        requires
            names@.len() > 0,
            cfg.faults@.len() > 0,
            old(self)@.counts.isolate < u32::MAX,
            old(self)@.counts.kill < u32::MAX,
            old(self)@.counts.pause < u32::MAX,
        ensures
            time_is_up(*cfg, now_ms) ==> r is None && final(self)@ == old(self)@,
            !time_is_up(*cfg, now_ms) ==> r is Some && ({
                let s = old(self)@;
                let hit = r->0;
                let t = RunState {
                    rng: state_after_strike(*cfg, s.rng),
                    counts: counted(s.counts, hit.fault),
                    ..s
                };
                &&& hit.victim < names@.len()
                &&& drawn(*cfg, names@.len() as usize, s.rng, hit)
                &&& final(self)@ == logged(
                    t,
                    now_ms,
                    strike_text(hit, names@[hit.victim as int]@, leaders@),
                )
            }),
    {
        if now_ms / 1000 >= cfg.duration_secs {
            return None;
        }
        let hit: Strike = draw_strike(&mut self.rng, cfg, names.len());
        self.counts.count(hit.fault);
        let text: String = strike_message(hit, names[hit.victim].as_str(), leaders);
        let _line: String = self.log_event(now_ms, text.as_str());
        Some(hit)
    }

    /// Logs that a broker was healed.
    pub fn healed(&mut self, hit: Strike, now_ms: u64)
        ensures
            final(self)@ == logged(
                old(self)@,
                now_ms,
                "HEAL "@ + hit.fault.label() + " broker "@ + decimal(hit.victim as nat)
                    + "; waiting for full health"@,
            ),
    {
        let text: String = heal_message(hit);
        let _line: String = self.log_event(now_ms, text.as_str());
    }

    /// Takes how the cluster came back after a heal: the milliseconds that it
    /// took, or why it did not. A cluster that did not re-form is an incident,
    /// and cuts the run short: no more faults are injected, and the checker
    /// judges what clients saw.
    pub fn health(&mut self, result: Result<u64, String>, now_ms: u64)
        requires
            old(self)@.incidents < u32::MAX,
        ensures
            final(self)@ == (match result {
                Ok(ms) => logged(
                    old(self)@,
                    now_ms,
                    "HEALTHY after "@ + decimal(ms as nat) + " ms"@,
                ),
                Err(e) => logged(
                    (RunState {
                        incidents: (old(self)@.incidents + 1) as u32,
                        cut_short: true,
                        ..old(self)@
                    }),
                    now_ms,
                    "HEALTH TIMEOUT after heal ("@ + e@
                        + "); stopping fault injection, run is CUT SHORT"@,
                ),
            }),
    {
        match result {
            Ok(ms) => {
                let mut text: String = "HEALTHY after ".to_owned();
                push_decimal(&mut text, ms);
                text.append(" ms");
                let _line: String = self.log_event(now_ms, text.as_str());
            },
            Err(e) => {
                self.incidents = self.incidents + 1;
                self.cut_short = true;
                let mut text: String = "HEALTH TIMEOUT after heal (".to_owned();
                text.append(e.as_str());
                text.append("); stopping fault injection, run is CUT SHORT");
                let _line: String = self.log_event(now_ms, text.as_str());
            },
        }
    }

    /// Keeps what a fault did to a partition.
    pub fn record(&mut self, outcome: FaultOutcome)
        ensures
            final(self)@ == (RunState {
                outcomes: old(self)@.outcomes.push(outcome),
                ..old(self)@
            }),
    {
        self.outcomes.push(outcome);
    }

    /// Takes how the cluster stood when the schedule was done.
    pub fn ended(&mut self, result: Result<(), String>, now_ms: u64)
        requires
            old(self)@.incidents < u32::MAX,
        ensures
            final(self)@ == (match result {
                Ok(_) => old(self)@,
                Err(e) => logged(
                    (RunState { incidents: (old(self)@.incidents + 1) as u32, ..old(self)@ }),
                    now_ms,
                    "HEALTH TIMEOUT at end of schedule ("@ + e@ + "); draining anyway"@,
                ),
            }),
    {
        match result {
            Ok(_) => {},
            Err(e) => {
                self.incidents = self.incidents + 1;
                let mut text: String = "HEALTH TIMEOUT at end of schedule (".to_owned();
                text.append(e.as_str());
                text.append("); draining anyway");
                let _line: String = self.log_event(now_ms, text.as_str());
            },
        }
    }

    /// Whether readers have to go on: `missing` acked ids were not read yet.
    pub fn drain(&mut self, missing: u64, overdue: bool, now_ms: u64) -> (r: Drain)
        ensures
            r == (if missing == 0 {
                Drain::Done
            } else if overdue {
                Drain::TimedOut
            } else {
                Drain::Waiting
            }),
            final(self)@ == (if r == Drain::TimedOut {
                logged(old(self)@, now_ms, unread_text(missing))
            } else {
                old(self)@
            }),
    {
        if missing == 0 {
            return Drain::Done;
        }
        if !overdue {
            return Drain::Waiting;
        }
        let mut text: String = "drain timed out with ".to_owned();
        push_decimal(&mut text, missing);
        text.append(" acked ids unread — checker will report them");
        let _line: String = self.log_event(now_ms, text.as_str());
        Drain::TimedOut
    }

    /// The log, a line for each event.
    pub fn log_text(&self) -> (r: String)
        ensures
            r@ == log_lines(self@.log),
    {
        let mut r: String = String::new();
        let ghost ls = texts(self.log@);
        let mut i: usize = 0;
        assert(r@ =~= log_lines(ls.take(0)));
        while i < self.log.len()
            invariant
                i <= self.log@.len(),
                ls == texts(self.log@),
                r@ == log_lines(ls.take(i as int)),
            decreases self.log@.len() - i,
        {
            proof {
                assert(ls.take(i + 1).drop_last() =~= ls.take(i as int));
                assert(ls.take(i + 1).last() == self.log@[i as int]@);
            }
            r.append(self.log[i].as_str());
            r.append("\n");
            i += 1;
        }
        assert(ls.take(i as int) =~= ls);
        r
    }

    /// The outcomes so far.
    pub fn outcomes(&self) -> (r: &Vec<FaultOutcome>)
        ensures
            r@ == self@.outcomes,
    {
        &self.outcomes
    }

    /// What the run adds up to.
    pub fn summary(
        self,
        report: Report,
        readers_per_partition: usize,
        acked_total: u64,
        zero_ack_seconds: u32,
        load_seconds: u32,
    ) -> (r: RunSummary)
        ensures
            r.report == report,
            r.readers_per_partition == readers_per_partition,
            r.health_incidents == self@.incidents,
            r.fault_counts == self@.counts,
            r.outcomes@ == self@.outcomes,
            r.acked_total == acked_total,
            r.zero_ack_seconds == zero_ack_seconds,
            r.load_seconds == load_seconds,
    {
        RunSummary {
            report,
            readers_per_partition,
            health_incidents: self.incidents,
            fault_counts: self.counts,
            outcomes: self.outcomes,
            acked_total,
            zero_ack_seconds,
            load_seconds,
        }
    }
}

/// Lines, each with its end.
pub open spec fn log_lines(ls: Seq<Seq<char>>) -> Seq<char>
    decreases ls.len(),
{
    if ls.len() == 0 {
        Seq::empty()
    } else {
        log_lines(ls.drop_last()) + ls.last() + "\n"@
    }
}

} // verus!
