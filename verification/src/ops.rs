//! Keeping the relay in operation: notices about what was dropped, and whether the
//! connection to Telegram is alive.

use vstd::prelude::*;

use crate::text;

verus! {

/// How far apart two notices about dropped messages are at least, in nanoseconds.
pub const DROP_NOTICE_GAP: u64 = 60_000_000_000;

/// After how long a silence the connection is probed, in nanoseconds.
pub const LIVENESS_PROBE: u64 = 120_000_000_000;

/// How many probes in a row may not fail.
pub const MAX_PROBE_FAILURES: u32 = 3;

/// When the last notice about a dropped message went out.
#[derive(Debug, Clone, Copy, PartialEq, Eq, Structural)]
pub struct DropNotices {
    pub last: Option<u64>,
}

/// A notice may go out at `now`: it is the first, or the last one is old enough.
pub open spec fn may_notify(n: DropNotices, now: u64) -> bool {
    match n.last {
        Some(t) => now - t >= DROP_NOTICE_GAP,
        None => true,
    }
}

impl DropNotices {
    pub fn new() -> (r: Self)
        ensures
            r.last is None,
    {
        DropNotices { last: None }
    }

    /// Whether a notice goes out at `now`, which is then noted.
    pub fn allow(&mut self, now: u64) -> (r: bool)
        ensures
            r == may_notify(*old(self), now),
            final(self).last == (if r {
                Some(now)
            } else {
                old(self).last
            }),
    {
        let due: bool = match self.last {
            Some(t) => now >= t && now - t >= DROP_NOTICE_GAP,
            None => true,
        };
        if due {
            self.last = Some(now);
        }
        due
    }
}

/// What is noted after several points in time at which a notice was wanted.
pub open spec fn after_wanted(n: DropNotices, times: Seq<u64>) -> DropNotices
    decreases times.len(),
{
    if times.len() == 0 {
        n
    } else {
        let before = after_wanted(n, times.drop_last());
        if may_notify(before, times.last()) {
            DropNotices { last: Some(times.last()) }
        } else {
            before
        }
    }
}

/// However often notices are wanted, at most one goes out in each minute: none is let
/// through within the gap after one that was.
pub proof fn lemma_notices_apart(n: DropNotices, at: u64, later: Seq<u64>)
    requires
        may_notify(n, at),
        forall|i: int| 0 <= i < later.len() ==> (#[trigger] later[i]) - at < DROP_NOTICE_GAP,
    ensures
        after_wanted(DropNotices { last: Some(at) }, later) == (DropNotices { last: Some(at) }),
        forall|i: int|
            0 <= i < later.len() ==> !may_notify(
                after_wanted(DropNotices { last: Some(at) }, later.take(i)),
                #[trigger] later[i],
            ),
    decreases later.len(),
{
    if later.len() > 0 {
        let init = later.drop_last();
        assert forall|i: int| 0 <= i < init.len() implies (#[trigger] init[i]) - at
            < DROP_NOTICE_GAP by {
            assert(init[i] == later[i]);
        }
        lemma_notices_apart(n, at, init);
        let n1 = DropNotices { last: Some(at) };
        assert forall|i: int| 0 <= i < later.len() implies !may_notify(
            after_wanted(n1, later.take(i)),
            #[trigger] later[i],
        ) by {
            if i < init.len() {
                assert(init[i] == later[i]);
                assert(init.take(i) =~= later.take(i));
            } else {
                assert(later.take(i) =~= init);
            }
        }
    }
}

/// An error of Telegram means that the session is no longer valid.
pub open spec fn means_logged_out(code: i32, name: Seq<char>) -> bool {
    ||| code == 401
    ||| text::contains_text(name, "AUTH_KEY_UNREGISTERED"@)
    ||| text::contains_text(name, "SESSION_REVOKED"@)
    ||| text::contains_text(name, "USER_DEACTIVATED"@)
    ||| text::contains_text(name, "AUTH_KEY_DUPLICATED"@)
}

/// Whether an error of Telegram means that the session is no longer valid, so that only a
/// new login helps.
pub fn is_auth_error(code: i32, name: &str) -> (r: bool)
    ensures
        r == means_logged_out(code, name@),
{
    code == 401 || text::contains(name, "AUTH_KEY_UNREGISTERED") || text::contains(
        name,
        "SESSION_REVOKED",
    ) || text::contains(name, "USER_DEACTIVATED") || text::contains(name, "AUTH_KEY_DUPLICATED")
}

/// What a probe of the connection gave.
pub enum Probe {
    Alive,
    /// An error that Telegram answered with: its code and its name.
    Refused(i32, String),
    /// No answer.
    Failed,
}

pub enum ProbeView {
    Alive,
    Refused(i32, Seq<char>),
    Failed,
}

impl DeepView for Probe {
    type V = ProbeView;

    open spec fn deep_view(&self) -> ProbeView {
        match self {
            Probe::Alive => ProbeView::Alive,
            Probe::Refused(code, name) => ProbeView::Refused(*code, name@),
            Probe::Failed => ProbeView::Failed,
        }
    }
}

/// What follows from a probe.
#[derive(Debug, Clone, Copy, PartialEq, Eq, Structural)]
pub enum Verdict {
    GoOn,
    /// The session is no longer valid.
    Deauthorized,
    /// The connection is lost, after so many probes.
    Lost(u32),
}

/// Failed probes so far, and what follows from one more.
pub open spec fn after_probe(failures: u32, p: ProbeView) -> (u32, Verdict) {
    match p {
        ProbeView::Alive => (0, Verdict::GoOn),
        ProbeView::Refused(code, name) if means_logged_out(code, name) => (
            failures,
            Verdict::Deauthorized,
        ),
        _ => {
            let n = (failures + 1) as u32;
            (
                n,
                if n >= MAX_PROBE_FAILURES {
                    Verdict::Lost(n)
                } else {
                    Verdict::GoOn
                },
            )
        },
    }
}

/// Whether the connection is alive.
#[derive(Debug, Clone, Copy, PartialEq, Eq, Structural)]
pub struct Liveness {
    /// Probes that failed since something was last heard.
    pub failures: u32,
}

impl Liveness {
    pub fn new() -> (r: Self)
        ensures
            r.failures == 0,
    {
        Liveness { failures: 0 }
    }

    /// Whether to probe after so long a silence, in nanoseconds.
    pub fn should_probe(silence: u64) -> (r: bool)
        ensures
            r == (silence >= LIVENESS_PROBE),
    {
        silence >= LIVENESS_PROBE
    }

    /// Something was heard.
    pub fn heard(&mut self)
        ensures
            final(self).failures == 0,
    {
        self.failures = 0;
    }

    /// Note what a probe gave, and say what follows.
    pub fn probed(&mut self, p: &Probe) -> (r: Verdict)
        requires
            old(self).failures < u32::MAX,
        ensures
            (final(self).failures, r) == after_probe(old(self).failures, p.deep_view()),
            r is GoOn ==> final(self).failures < MAX_PROBE_FAILURES,
    {
        let fatal: bool = match p {
            Probe::Alive => {
                self.failures = 0;
                return Verdict::GoOn;
            },
            Probe::Refused(code, name) => is_auth_error(*code, name.as_str()),
            Probe::Failed => false,
        };
        if fatal {
            return Verdict::Deauthorized;
        }
        self.failures = self.failures + 1;
        if self.failures >= MAX_PROBE_FAILURES {
            Verdict::Lost(self.failures)
        } else {
            Verdict::GoOn
        }
    }
}

/// A probe that is answered with the end of the session.
pub open spec fn ends_session(p: ProbeView) -> bool {
    match p {
        ProbeView::Refused(code, name) => means_logged_out(code, name),
        _ => false,
    }
}

/// How many probes at the end failed in a row.
pub open spec fn failed_in_a_row(probes: Seq<ProbeView>) -> nat
    decreases probes.len(),
{
    if probes.len() == 0 || probes.last() is Alive {
        0
    } else {
        failed_in_a_row(probes.drop_last()) + 1
    }
}

/// The failures that are noted after several probes, as long as the relay goes on.
pub open spec fn after_probes(probes: Seq<ProbeView>) -> Option<u32>
    decreases probes.len(),
{
    if probes.len() == 0 {
        Some(0)
    } else {
        match after_probes(probes.drop_last()) {
            Some(n) => {
                let (m, verdict) = after_probe(n, probes.last());
                if verdict is GoOn {
                    Some(m)
                } else {
                    None
                }
            },
            None => None,
        }
    }
}

/// After these probes the relay has reason to end: the last ones all failed, or the last
/// one says that the session ended.
pub open spec fn has_reason_to_end(probes: Seq<ProbeView>) -> bool {
    probes.len() > 0 && (failed_in_a_row(probes) >= MAX_PROBE_FAILURES || ends_session(
        probes.last(),
    ))
}

/// A blip is outlived and an outage is not: the relay goes on for exactly as long as there
/// was no reason to end, and notes the failures since the last sign of life.
pub proof fn lemma_outage_ends_the_relay(probes: Seq<ProbeView>)
    ensures
        after_probes(probes) is None <==> exists|i: int|
            0 <= i <= probes.len() && has_reason_to_end(#[trigger] probes.take(i)),
        after_probes(probes) matches Some(n) ==> n == failed_in_a_row(probes) && n
            < MAX_PROBE_FAILURES,
    decreases probes.len(),
{
    if probes.len() == 0 {
        assert(probes.take(0) =~= probes);
    } else {
        let init = probes.drop_last();
        lemma_outage_ends_the_relay(init);
        let n = probes.len() as int;
        assert(probes.take(n) =~= probes);
        if after_probes(init) is None {
            let i = choose|i: int|
                0 <= i <= init.len() && has_reason_to_end(#[trigger] init.take(i));
            assert(init.take(i) =~= probes.take(i));
        }
        if exists|i: int| 0 <= i <= n && has_reason_to_end(#[trigger] probes.take(i)) {
            let i = choose|i: int| 0 <= i <= n && has_reason_to_end(#[trigger] probes.take(i));
            if i < n {
                assert(init.take(i) =~= probes.take(i));
            }
        }
    }
}

/// A notice goes out exactly if it is the first, or at least a minute has passed since the last
/// one.
pub proof fn lemma_notice_goes_out(t: u64, now: u64)
    ensures
        may_notify(DropNotices { last: None }, now),
        may_notify(DropNotices { last: Some(t) }, now) <==> now >= t + 60_000_000_000,
{
}

/// A sign of life makes up for all failures before it. The end of the session is noticed at
/// once. Every other probe that is not answered counts, and the third in a row means that the
/// connection is lost.
pub proof fn lemma_probe(failures: u32, p: ProbeView)
    requires
        failures < u32::MAX,
    ensures
        p is Alive ==> after_probe(failures, p) == (0u32, Verdict::GoOn),
        p matches ProbeView::Refused(code, name) ==> code == 401 ==> after_probe(failures, p).1
            is Deauthorized,
        p matches ProbeView::Refused(code, name) ==> text::contains_text(name, "SESSION_REVOKED"@)
            ==> after_probe(failures, p).1 is Deauthorized,
        p matches ProbeView::Refused(code, name) ==> text::contains_text(
            name,
            "AUTH_KEY_UNREGISTERED"@,
        ) ==> after_probe(failures, p).1 is Deauthorized,
        p matches ProbeView::Refused(code, name) ==> text::contains_text(name, "USER_DEACTIVATED"@)
            ==> after_probe(failures, p).1 is Deauthorized,
        p matches ProbeView::Refused(code, name) ==> text::contains_text(
            name,
            "AUTH_KEY_DUPLICATED"@,
        ) ==> after_probe(failures, p).1 is Deauthorized,
        p is Failed && failures < 2 ==> after_probe(failures, p) == (
            (failures + 1) as u32,
            Verdict::GoOn,
        ),
        p is Failed && failures >= 2 ==> after_probe(failures, p) == (
            (failures + 1) as u32,
            Verdict::Lost((failures + 1) as u32),
        ),
        p matches ProbeView::Refused(code, name) ==> code != 401 && !text::contains_text(
            name,
            "SESSION_REVOKED"@,
        ) && !text::contains_text(name, "AUTH_KEY_UNREGISTERED"@) && !text::contains_text(
            name,
            "USER_DEACTIVATED"@,
        ) && !text::contains_text(name, "AUTH_KEY_DUPLICATED"@) ==> after_probe(failures, p)
            == after_probe(failures, ProbeView::Failed),
{
}

} // verus!
