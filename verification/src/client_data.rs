use vstd::prelude::*;

use crate::models::RegionPingInfo;

verus! {

/// Heartbeat samples are strictly ordered by the instant they were
/// observed.
pub open spec fn history_ordered(s: Seq<(u64, u64)>) -> bool {
    forall|i: int, j: int| 0 <= i < j < s.len() ==> s[i].0 < s[j].0
}

/// How many samples at the front of the window fell before the cutoff.
pub open spec fn stale_prefix(s: Seq<(u64, u64)>, cutoff: u64) -> int
    decreases s.len(),
{
    if s.len() == 0 || s[0].0 >= cutoff {
        0
    } else {
        1 + stale_prefix(s.drop_first(), cutoff)
    }
}

/// Sum of the round trips in the window.
pub open spec fn sum_rtts(s: Seq<(u64, u64)>) -> int
    decreases s.len(),
{
    if s.len() == 0 {
        0
    } else {
        sum_rtts(s.drop_last()) + s.last().1
    }
}

/// The cutoff of the trailing thirty-second window at `now_ms`.
pub open spec fn window_cutoff(now_ms: u64) -> u64 {
    if now_ms >= 30000 {
        (now_ms - 30000) as u64
    } else {
        0
    }
}

/// The stale prefix is exactly the samples before the cutoff.
proof fn lemma_stale_prefix(s: Seq<(u64, u64)>, cutoff: u64)
    ensures
        0 <= stale_prefix(s, cutoff) <= s.len(),
        forall|j: int| 0 <= j < stale_prefix(s, cutoff) ==> s[j].0 < cutoff,
        stale_prefix(s, cutoff) < s.len() ==> s[stale_prefix(s, cutoff)].0 >= cutoff,
    decreases s.len(),
{
    if s.len() > 0 && s[0].0 < cutoff {
        lemma_stale_prefix(s.drop_first(), cutoff);
        assert forall|j: int| 0 <= j < stale_prefix(s, cutoff) implies s[j].0 < cutoff by {
            if j > 0 {
                assert(s.drop_first()[j - 1] == s[j]);
            }
        }
        if stale_prefix(s, cutoff) < s.len() {
            assert(s.drop_first()[stale_prefix(s, cutoff) - 1] == s[stale_prefix(s, cutoff)]);
        }
    }
}

/// What the coordinator keeps per participant: the trailing heartbeat
/// window, the smoothed round trip over it, the latest region-ping report,
/// and whether one is still awaited.
#[derive(Debug)]
pub struct ClientData {
    pub ping_history: Vec<(u64, u64)>,
    pub smoothed_ping: Option<u64>,
    pub photon_pings: Option<Vec<RegionPingInfo>>,
    pub waiting_for_photon_pings: bool,
}

impl ClientData {
    pub open spec fn wf(&self) -> bool {
        history_ordered(self.ping_history@)
    }

    pub fn new() -> (r: ClientData)
        ensures
            r.wf(),
            r.ping_history@ == Seq::<(u64, u64)>::empty(),
            r.smoothed_ping is None,
            r.photon_pings is None,
            !r.waiting_for_photon_pings,
    {
        ClientData {
            ping_history: Vec::new(),
            smoothed_ping: None,
            photon_pings: None,
            waiting_for_photon_pings: false,
        }
    }

    /// Trims the window to the trailing thirty seconds before `now_ms` and
    /// recomputes the smoothed round trip as the mean of what remains, or
    /// leaves it undefined over an empty window.
    #[verifier::rlimit(100)]
    pub fn update_smoothed_ping(&mut self, now_ms: u64)
        requires
            old(self).wf(),
        ensures
            final(self).wf(),
            final(self).photon_pings == old(self).photon_pings,
            final(self).waiting_for_photon_pings == old(self).waiting_for_photon_pings,
            ({
                let cutoff = window_cutoff(now_ms);
                let kept = old(self).ping_history@.skip(
                    stale_prefix(old(self).ping_history@, cutoff),
                );
                &&& final(self).ping_history@ == kept
                &&& forall|j: int|
                    0 <= j < stale_prefix(old(self).ping_history@, cutoff) ==> old(
                        self,
                    ).ping_history@[j].0 < cutoff
                &&& forall|j: int| 0 <= j < kept.len() ==> (#[trigger] kept[j]).0 >= cutoff
                &&& final(self).smoothed_ping == (if kept.len() == 0 {
                    Option::<u64>::None
                } else {
                    Option::<u64>::Some((sum_rtts(kept) / kept.len() as int) as u64)
                })
            }),
    {
        let cutoff = if now_ms >= 30000 {
            now_ms - 30000
        } else {
            0
        };
        let ghost hist0 = self.ping_history@;
        proof {
            lemma_stale_prefix(hist0, cutoff);
            assert(hist0.skip(0) =~= hist0);
        }

        let ghost d: int = 0;
        while self.ping_history.len() > 0 && self.ping_history[0].0 < cutoff
            invariant
                0 <= d <= hist0.len(),
                self.ping_history@ == hist0.skip(d),
                forall|j: int| 0 <= j < d ==> hist0[j].0 < cutoff,
                history_ordered(hist0),
                self.smoothed_ping == old(self).smoothed_ping,
                self.photon_pings == old(self).photon_pings,
                self.waiting_for_photon_pings == old(self).waiting_for_photon_pings,
            decreases self.ping_history@.len(),
        {
            self.ping_history.remove(0);
            proof {
                assert(hist0.skip(d).remove(0) =~= hist0.skip(d + 1));
                assert(hist0.skip(d)[0] == hist0[d]);
            }
            proof {
                d = d + 1;
            }
        }
        proof {
            lemma_stale_prefix(hist0, cutoff);
            assert(stale_prefix(hist0, cutoff) == d) by {
                if d < hist0.len() {
                    assert(hist0.skip(d)[0] == hist0[d]);
                }
                if stale_prefix(hist0, cutoff) < d {
                    assert(hist0[stale_prefix(hist0, cutoff)].0 >= cutoff);
                }
            }
            assert forall|j: int|
                0 <= j < self.ping_history@.len() implies (#[trigger] self.ping_history@[j]).0
                >= cutoff by {
                assert(self.ping_history@[j] == hist0[d + j]);
                if d < hist0.len() && j > 0 {
                    assert(hist0[d].0 < hist0[d + j].0);
                }
            }
            assert(history_ordered(self.ping_history@)) by {
                assert forall|a: int, b: int|
                    0 <= a < b < self.ping_history@.len() implies self.ping_history@[a].0
                    < self.ping_history@[b].0 by {
                    assert(self.ping_history@[a] == hist0[d + a]);
                    assert(self.ping_history@[b] == hist0[d + b]);
                }
            }
        }

        let n = self.ping_history.len();
        if n == 0 {
            self.smoothed_ping = None;
            return ;
        }

        let ghost kept = self.ping_history@;
        let mut sum: u128 = 0;
        let mut i: usize = 0;
        proof {
            assert(kept.take(0) =~= Seq::<(u64, u64)>::empty());
        }
        while i < n
            invariant
                i <= n,
                n == self.ping_history@.len(),
                kept == self.ping_history@,
                sum == sum_rtts(kept.take(i as int)),
                sum <= i * 0xFFFF_FFFF_FFFF_FFFFu128,
                self.photon_pings == old(self).photon_pings,
                self.waiting_for_photon_pings == old(self).waiting_for_photon_pings,
            decreases n - i,
        {
            proof {
                assert(kept.take(i + 1).drop_last() =~= kept.take(i as int));
                assert(kept.take(i + 1).last() == kept[i as int]);
            }
            let sample = self.ping_history[i];
            sum = sum + (sample.1 as u128);
            i = i + 1;
        }
        proof {
            assert(kept.take(n as int) =~= kept);
        }
        let avg = sum / (n as u128);
        proof {
            vstd::arithmetic::div_mod::lemma_div_is_ordered(
                sum as int,
                n * 0xFFFF_FFFF_FFFF_FFFF,
                n as int,
            );
            vstd::arithmetic::div_mod::lemma_div_by_multiple(0xFFFF_FFFF_FFFF_FFFF, n as int);
        }
        self.smoothed_ping = Some(avg as u64);
    }

    /// Appends one heartbeat sample and refreshes the smoothed round trip,
    /// the sample's own instant being the present.
    pub fn add_ping(&mut self, timestamp: u64, latency: u64)
        requires
            old(self).wf(),
            old(self).ping_history@.len() > 0 ==> old(self).ping_history@.last().0 < timestamp,
        ensures
            final(self).wf(),
            final(self).photon_pings == old(self).photon_pings,
            final(self).waiting_for_photon_pings == old(self).waiting_for_photon_pings,
            ({
                let appended = old(self).ping_history@.push((timestamp, latency));
                let cutoff = window_cutoff(timestamp);
                let kept = appended.skip(stale_prefix(appended, cutoff));
                &&& final(self).ping_history@ == kept
                &&& forall|j: int| 0 <= j < kept.len() ==> (#[trigger] kept[j]).0 >= cutoff
                &&& final(self).smoothed_ping == (if kept.len() == 0 {
                    Option::<u64>::None
                } else {
                    Option::<u64>::Some((sum_rtts(kept) / kept.len() as int) as u64)
                })
            }),
    {
        self.ping_history.push((timestamp, latency));
        proof {
            let appended = old(self).ping_history@.push((timestamp, latency));
            assert(history_ordered(appended)) by {
                assert forall|a: int, b: int|
                    0 <= a < b < appended.len() implies appended[a].0 < appended[b].0 by {
                    if b < appended.len() - 1 {
                        assert(appended[a] == old(self).ping_history@[a]);
                        assert(appended[b] == old(self).ping_history@[b]);
                    } else {
                        assert(appended[a] == old(self).ping_history@[a]);
                        assert(old(self).ping_history@.last() == old(
                            self,
                        ).ping_history@[appended.len() - 2]);
                        if a < appended.len() - 2 {
                            assert(old(self).ping_history@[a].0 < old(
                                self,
                            ).ping_history@[appended.len() - 2].0);
                        }
                    }
                }
            }
        }
        self.update_smoothed_ping(timestamp);
    }
}

/// The round trip a pong implies: the present less the echoed send
/// instant, clamped to zero for a clock that stepped back and to the
/// largest storable value for one that leapt forward.
pub fn pong_rtt(sent_ms: u128, now_ms: u128) -> (r: u64)
    ensures
        r as int == (if now_ms <= sent_ms {
            0int
        } else if now_ms - sent_ms > u64::MAX {
            u64::MAX as int
        } else {
            now_ms - sent_ms
        }),
{
    if now_ms <= sent_ms {
        0
    } else {
        let d = now_ms - sent_ms;
        if d > u64::MAX as u128 {
            u64::MAX
        } else {
            d as u64
        }
    }
}

} // verus!
