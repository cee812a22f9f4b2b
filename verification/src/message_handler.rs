use vstd::prelude::*;

use crate::client_data::ClientData;
use crate::messages::{build_play_message, play_message};
use crate::models::RegionPingInfo;
use crate::text::str_eq;

verus! {

/// The largest smoothed coordinator round trip any participant reports; a
/// participant without one counts as zero.
pub open spec fn max_server_rtt(s: Seq<ClientData>) -> int
    decreases s.len(),
{
    if s.len() == 0 {
        0
    } else {
        let rest = max_server_rtt(s.drop_last());
        let cur = match s.last().smoothed_ping {
            Some(v) => v as int,
            None => 0,
        };
        if cur > rest {
            cur
        } else {
            rest
        }
    }
}

/// The largest latency among the reports for one region.
pub open spec fn max_matching_latency(s: Seq<RegionPingInfo>, region: Seq<char>) -> int
    decreases s.len(),
{
    if s.len() == 0 {
        0
    } else {
        let rest = max_matching_latency(s.drop_last(), region);
        let cur = if s.last().region@ == region {
            s.last().latency as int
        } else {
            0
        };
        if cur > rest {
            cur
        } else {
            rest
        }
    }
}

/// The largest latency any participant reports for one region; a
/// participant without a report counts as zero.
pub open spec fn max_region_rtt(s: Seq<ClientData>, region: Seq<char>) -> int
    decreases s.len(),
{
    if s.len() == 0 {
        0
    } else {
        let rest = max_region_rtt(s.drop_last(), region);
        let cur = match s.last().photon_pings {
            Some(pings) => max_matching_latency(pings@, region),
            None => 0,
        };
        if cur > rest {
            cur
        } else {
            rest
        }
    }
}

/// The latency budget `H` of a broadcast: the slowest coordinator leg plus
/// the slowest relay leg for the target region, each taken over every
/// participant.
pub fn get_highest_rtt(clients: &Vec<ClientData>, target_region: &str) -> (r: u128)
    ensures
        r == max_server_rtt(clients@) + max_region_rtt(clients@, target_region@),
        r <= 2 * 0xFFFF_FFFF_FFFF_FFFFu128,
{
    let n = clients.len();
    let mut highest_server_ping: u64 = 0;
    let mut highest_photon_ping: u64 = 0;
    let mut i: usize = 0;
    proof {
        assert(clients@.take(0) =~= Seq::<ClientData>::empty());
    }
    while i < n
        invariant
            i <= n,
            n == clients@.len(),
            highest_server_ping == max_server_rtt(clients@.take(i as int)),
            highest_photon_ping == max_region_rtt(clients@.take(i as int), target_region@),
        decreases n - i,
    {
        proof {
            assert(clients@.take(i + 1).drop_last() =~= clients@.take(i as int));
            assert(clients@.take(i + 1).last() == clients@[i as int]);
        }
        let client = &clients[i];
        match client.smoothed_ping {
            Some(rtt) => {
                if rtt > highest_server_ping {
                    highest_server_ping = rtt;
                }
            },
            None => {},
        }

        match &client.photon_pings {
            Some(pings) => {
                let m = pings.len();
                let mut best: u64 = 0;
                let mut j: usize = 0;
                proof {
                    assert(pings@.take(0) =~= Seq::<RegionPingInfo>::empty());
                }
                while j < m
                    invariant
                        j <= m,
                        m == pings@.len(),
                        best == max_matching_latency(pings@.take(j as int), target_region@),
                    decreases m - j,
                {
                    proof {
                        assert(pings@.take(j + 1).drop_last() =~= pings@.take(j as int));
                        assert(pings@.take(j + 1).last() == pings@[j as int]);
                    }
                    let info = &pings[j];
                    if str_eq(info.region.as_str(), target_region) {
                        if info.latency > best {
                            best = info.latency;
                        }
                    }
                    j = j + 1;
                }
                proof {
                    assert(pings@.take(m as int) =~= pings@);
                }
                if best > highest_photon_ping {
                    highest_photon_ping = best;
                }
            },
            None => {},
        }
        i = i + 1;
    }
    proof {
        assert(clients@.take(n as int) =~= clients@);
    }
    (highest_server_ping as u128) + (highest_photon_ping as u128)
}

/// The instant at which everyone is told to render: the present plus the
/// latency budget and half of it again as headroom.
pub fn compute_play_timestamp(now_ms: u128, highest_rtt: u128) -> (r: u128)
    requires
        now_ms + 3 * highest_rtt <= u128::MAX,
    ensures
        r == now_ms + (highest_rtt * 3) / 2,
{
    now_ms + (highest_rtt * 3) / 2
}

/// Marks a participant as owing a region-ping report, clearing the stale
/// one.
pub fn mark_awaiting_pings(client: &mut ClientData)
    ensures
        final(client).ping_history == old(client).ping_history,
        final(client).smoothed_ping == old(client).smoothed_ping,
        final(client).photon_pings is None,
        final(client).waiting_for_photon_pings,
{
    client.waiting_for_photon_pings = true;
    client.photon_pings = None;
}

/// Stores a participant's region-ping report and clears the waiting flag.
pub fn store_photon_pings(client: &mut ClientData, regions: Vec<RegionPingInfo>)
    ensures
        final(client).ping_history == old(client).ping_history,
        final(client).smoothed_ping == old(client).smoothed_ping,
        final(client).photon_pings matches Some(r) && r@ == regions@,
        !final(client).waiting_for_photon_pings,
{
    client.photon_pings = Some(regions);
    client.waiting_for_photon_pings = false;
}

/// Whether every participant has answered the latest region-ping request.
pub fn all_responded(clients: &Vec<ClientData>) -> (r: bool)
    ensures
        r == forall|i: int|
            0 <= i < clients@.len() ==> !(#[trigger] clients@[i]).waiting_for_photon_pings,
{
    let n = clients.len();
    let mut i: usize = 0;
    while i < n
        invariant
            i <= n,
            n == clients@.len(),
            forall|j: int|
                0 <= j < i ==> !(#[trigger] clients@[j]).waiting_for_photon_pings,
        decreases n - i,
    {
        if clients[i].waiting_for_photon_pings {
            return false;
        }
        i = i + 1;
    }
    true
}

/// The whole broadcast computation: the latency budget over the gathered
/// participants, the future render instant `now + 3H/2`, and the play
/// order's text carrying both.
pub fn compute_play_broadcast(
    clients: &Vec<ClientData>,
    target_region: &str,
    message: &str,
    now_ms: u128,
) -> (r: (u128, u128, String))
    requires
        now_ms + 6 * 0xFFFF_FFFF_FFFF_FFFFu128 <= u128::MAX,
    ensures
        ({
            let highest = max_server_rtt(clients@) + max_region_rtt(clients@, target_region@);
            &&& r.0 == highest
            &&& r.1 == now_ms + (highest * 3) / 2
            &&& r.2@ == play_message((now_ms + (highest * 3) / 2) as nat, message@, highest as nat)
        }),
{
    let highest_rtt = get_highest_rtt(clients, target_region);
    let future_timestamp = compute_play_timestamp(now_ms, highest_rtt);
    let text = build_play_message(future_timestamp, message, highest_rtt);
    (highest_rtt, future_timestamp, text)
}

} // verus!
