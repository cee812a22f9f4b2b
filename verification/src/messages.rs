use vstd::arithmetic::power::{lemma_pow_increases, pow};
use vstd::prelude::*;

use crate::text::{
    all_dec_digits, all_digits, dec_digits, dec_value, find_char_from, has_prefix, index_of,
    is_dec_digit, is_prefix, last_index_of, lemma_index_of, lemma_last_index_of,
    lemma_leading_run, leading_run, parse_dec_u128, strip_leading, u128_to_dec,
};

verus! {

/// A playback order received from the coordinator: the wall-clock
/// millisecond at which to render and what to render.
#[derive(Debug, PartialEq)]
pub struct PlayCommand {
    pub target_timestamp: u128,
    pub payload: String,
}

/// The text of a play order: `PLAY:` with the target instant, the payload,
/// and the advertised round trip, colon-separated.
pub open spec fn play_message(ts: nat, payload: Seq<char>, rtt: nat) -> Seq<char> {
    "PLAY:"@ + dec_digits(ts) + ":"@ + payload + ":"@ + dec_digits(rtt)
}

/// What a node makes of a play order: the target instant from the second
/// field, and the payload from what follows, with a trailing all-digit
/// field dropped as the advertised round trip and a doubled separator in
/// front of the payload tolerated.
pub open spec fn play_fields(s: Seq<char>) -> Option<(nat, Seq<char>)> {
    if !is_prefix("PLAY:"@, s) {
        None
    } else {
        let rest = s.skip(5);
        let c1 = index_of(rest, ':', 0);
        if c1 == rest.len() {
            None
        } else {
            let ts_txt = rest.take(c1);
            if !(ts_txt.len() > 0 && all_dec_digits(ts_txt) && dec_value(ts_txt)
                <= u128::MAX) {
                None
            } else {
                let tail = rest.skip(c1 + 1);
                let lc = last_index_of(tail, ':');
                let trimmed = if lc >= 0 && tail.skip(lc + 1).len() > 0 && all_dec_digits(
                    tail.skip(lc + 1),
                ) {
                    tail.take(lc)
                } else {
                    tail
                };
                Some((dec_value(ts_txt), strip_leading(trimmed, ':')))
            }
        }
    }
}

/// Builds the text of a play order.
pub fn build_play_message(target_timestamp: u128, payload: &str, advertised_rtt: u128) -> (r:
    String)
    ensures
        r@ == play_message(target_timestamp as nat, payload@, advertised_rtt as nat),
{
    let mut s = String::from_str("PLAY:");
    let ts = u128_to_dec(target_timestamp);
    s.append(ts.as_str());
    s.append(":");
    s.append(payload);
    s.append(":");
    let rtt = u128_to_dec(advertised_rtt);
    s.append(rtt.as_str());
    proof {
        assert(s@ =~= play_message(target_timestamp as nat, payload@, advertised_rtt as nat));
    }
    s
}

/// Reads a play order back from its text.
pub fn parse_play_message(text: &str) -> (r: Option<PlayCommand>)
    ensures
        match play_fields(text@) {
            Some(p) => r matches Some(cmd) && cmd.target_timestamp as nat == p.0
                && cmd.payload@ == p.1,
            None => r is None,
        },
{
    proof {
        reveal_strlit("PLAY:");
    }
    if !has_prefix(text, "PLAY:") {
        return None;
    }
    let n = text.unicode_len();
    let ghost rest = text@.skip(5);

    let c1_abs = match find_char_from(text, 5, ':') {
        Some(i) => i,
        None => {
            proof {
                lemma_index_of(rest, ':', 0);
                assert forall|j: int| 0 <= j < rest.len() implies rest[j] != ':' by {
                    assert(rest[j] == text@[j + 5]);
                }
            }
            return None;
        },
    };
    let ghost c1 = c1_abs - 5;
    proof {
        lemma_index_of(rest, ':', 0);
        assert(rest[c1] == ':');
        assert forall|j: int| 0 <= j < c1 implies rest[j] != ':' by {
            assert(rest[j] == text@[j + 5]);
        }
        assert(index_of(rest, ':', 0) == c1);
    }

    let ts_str = text.substring_char(5, c1_abs);
    proof {
        assert(ts_str@ =~= rest.take(c1));
    }
    let ts = match parse_dec_u128(ts_str) {
        Some(v) => v,
        None => {
            return None;
        },
    };

    let tail = text.substring_char(c1_abs + 1, n);
    proof {
        assert(tail@ =~= rest.skip(c1 + 1));
    }

    let tail_len = tail.unicode_len();
    let mut last_colon: Option<usize> = None;
    let mut i: usize = 0;
    while i < tail_len
        invariant
            i <= tail_len,
            tail_len == tail@.len(),
            match last_colon {
                Some(k) => k < i && tail@[k as int] == ':' && forall|j: int|
                    k < j < i ==> tail@[j] != ':',
                None => forall|j: int| 0 <= j < i ==> tail@[j] != ':',
            },
        decreases tail_len - i,
    {
        if tail.get_char(i) == ':' {
            last_colon = Some(i);
        }
        i = i + 1;
    }
    proof {
        lemma_last_index_of(tail@, ':');
    }

    let trimmed = match last_colon {
        Some(k) => {
            proof {
                assert(last_index_of(tail@, ':') == k);
            }
            let suffix = tail.substring_char(k + 1, tail_len);
            proof {
                assert(suffix@ =~= tail@.skip(k as int + 1));
            }
            if suffix.unicode_len() > 0 && all_digits(suffix) {
                tail.substring_char(0, k)
            } else {
                tail.substring_char(0, tail_len)
            }
        },
        None => {
            proof {
                assert(last_index_of(tail@, ':') == -1);
            }
            tail.substring_char(0, tail_len)
        },
    };
    let ghost trimmed_spec = ({
        let lc = last_index_of(tail@, ':');
        if lc >= 0 && tail@.skip(lc + 1).len() > 0 && all_dec_digits(tail@.skip(lc + 1)) {
            tail@.take(lc)
        } else {
            tail@
        }
    });
    proof {
        assert(trimmed@ =~= trimmed_spec);
    }

    let trimmed_len = trimmed.unicode_len();
    let mut start: usize = 0;
    while start < trimmed_len && trimmed.get_char(start) == ':'
        invariant
            start <= trimmed_len,
            trimmed_len == trimmed@.len(),
            forall|j: int| 0 <= j < start ==> trimmed@[j] == ':',
        decreases trimmed_len - start,
    {
        start = start + 1;
    }
    proof {
        lemma_leading_run(trimmed@, ':');
        assert(leading_run(trimmed@, ':') == start);
    }
    let payload = trimmed.substring_char(start, trimmed_len);
    proof {
        assert(payload@ =~= strip_leading(trimmed@, ':'));
    }

    Some(PlayCommand { target_timestamp: ts, payload: String::from_str(payload) })
}

/// A play order is understood exactly as it was issued: for any payload
/// free of the separator, the node's parse of the coordinator's text gives
/// back the target instant and the payload.
pub proof fn lemma_play_message_round_trip(ts: u128, payload: Seq<char>, rtt: u128)
    requires
        forall|i: int| 0 <= i < payload.len() ==> payload[i] != ':',
    ensures
        play_fields(play_message(ts as nat, payload, rtt as nat)) == Some(
            (ts as nat, payload),
        ),
{
    reveal_strlit("PLAY:");
    reveal_strlit(":");
    let msg = play_message(ts as nat, payload, rtt as nat);
    let dts = dec_digits(ts as nat);
    let drtt = dec_digits(rtt as nat);
    crate::text::lemma_dec_round_trip(ts as nat);
    crate::text::lemma_dec_round_trip(rtt as nat);
    assert(":"@[0] == ':');

    assert forall|i: int| 0 <= i < dts.len() implies dts[i] != ':' by {
        assert(is_dec_digit(dts[i]));
        assert((':' as u32) == 58);
    }
    assert forall|i: int| 0 <= i < drtt.len() implies drtt[i] != ':' by {
        assert(is_dec_digit(drtt[i]));
        assert((':' as u32) == 58);
    }

    assert(is_prefix("PLAY:"@, msg)) by {
        assert(msg.take(5) =~= "PLAY:"@);
    }
    let rest = msg.skip(5);
    assert(rest =~= dts + ":"@ + payload + ":"@ + drtt);

    let dlen = dts.len() as int;
    assert(rest[dlen] == ':');
    lemma_index_of(rest, ':', 0);
    let c1 = index_of(rest, ':', 0);
    assert(c1 == dlen) by {
        if c1 < dlen {
            assert(rest[c1] == dts[c1]);
        }
    }
    assert(rest.take(c1) =~= dts);

    let tail = rest.skip(c1 + 1);
    assert(tail =~= payload + ":"@ + drtt);
    let plen = payload.len() as int;
    assert(tail[plen] == ':');
    lemma_last_index_of(tail, ':');
    let lc = last_index_of(tail, ':');
    assert(lc == plen) by {
        if lc > plen {
            assert(tail[lc] == drtt[lc - plen - 1]);
        }
    }
    assert(tail.skip(lc + 1) =~= drtt);
    assert(drtt.len() > 0);
    assert(tail.take(lc) =~= payload);

    lemma_leading_run(payload, ':');
    assert(leading_run(payload, ':') == 0) by {
        if leading_run(payload, ':') > 0 {
            assert(payload[0] == ':');
        }
    }
    assert(strip_leading(payload, ':') =~= payload);
}

/// How long a node waits before rendering: until the target instant, or
/// not at all when it has passed.
pub fn play_delay(target_timestamp: u128, now_ms: u128) -> (r: u128)
    ensures
        r == if target_timestamp > now_ms {
            target_timestamp - now_ms
        } else {
            0
        },
{
    if target_timestamp > now_ms {
        target_timestamp - now_ms
    } else {
        0
    }
}

/// What a coordinator makes of a broadcast order: the target region from
/// an optional leading field, the default region `us` where it is missing
/// or empty, and the payload from the rest.
pub open spec fn send_play_fields(s: Seq<char>) -> Option<(Seq<char>, Seq<char>)> {
    if !is_prefix("SEND_PLAY:"@, s) {
        None
    } else {
        let rest = s.skip(10);
        let c = index_of(rest, ':', 0);
        if c == rest.len() {
            Some(("us"@, rest))
        } else {
            let region = rest.take(c);
            Some(((if region.len() == 0 { "us"@ } else { region }), rest.skip(c + 1)))
        }
    }
}

/// Reads a broadcast order from its text.
pub fn parse_send_play(text: &str) -> (r: Option<(String, String)>)
    ensures
        match send_play_fields(text@) {
            Some(p) => r matches Some(q) && q.0@ == p.0 && q.1@ == p.1,
            None => r is None,
        },
{
    proof {
        reveal_strlit("SEND_PLAY:");
        reveal_strlit("us");
    }
    if !has_prefix(text, "SEND_PLAY:") {
        return None;
    }
    let n = text.unicode_len();
    let ghost rest = text@.skip(10);
    match find_char_from(text, 10, ':') {
        None => {
            proof {
                lemma_index_of(rest, ':', 0);
                assert forall|j: int| 0 <= j < rest.len() implies rest[j] != ':' by {
                    assert(rest[j] == text@[j + 10]);
                }
            }
            let payload = text.substring_char(10, n);
            proof {
                assert(payload@ =~= rest);
            }
            Some((String::from_str("us"), String::from_str(payload)))
        },
        Some(c_abs) => {
            let ghost c = c_abs - 10;
            proof {
                lemma_index_of(rest, ':', 0);
                assert(rest[c] == ':');
                assert forall|j: int| 0 <= j < c implies rest[j] != ':' by {
                    assert(rest[j] == text@[j + 10]);
                }
                assert(index_of(rest, ':', 0) == c);
            }
            let region = text.substring_char(10, c_abs);
            let payload = text.substring_char(c_abs + 1, n);
            proof {
                assert(region@ =~= rest.take(c));
                assert(payload@ =~= rest.skip(c + 1));
            }
            let region_out = if region.unicode_len() == 0 {
                String::from_str("us")
            } else {
                String::from_str(region)
            };
            Some((region_out, String::from_str(payload)))
        },
    }
}

/// What follows the `REQUEST_PING:` prefix: the wanted region, possibly
/// empty for all of them.
pub open spec fn request_ping_field(s: Seq<char>) -> Option<Seq<char>> {
    if !is_prefix("REQUEST_PING:"@, s) {
        None
    } else {
        Some(s.skip(13))
    }
}

/// Builds a region-ping request.
pub fn build_request_ping(region: &str) -> (r: String)
    ensures
        r@ == "REQUEST_PING:"@ + region@,
{
    let mut s = String::from_str("REQUEST_PING:");
    s.append(region);
    s
}

/// Reads a region-ping request from its text.
pub fn parse_request_ping(text: &str) -> (r: Option<String>)
    ensures
        match request_ping_field(text@) {
            Some(p) => r matches Some(region) && region@ == p,
            None => r is None,
        },
{
    proof {
        reveal_strlit("REQUEST_PING:");
    }
    if !has_prefix(text, "REQUEST_PING:") {
        return None;
    }
    let n = text.unicode_len();
    let region = text.substring_char(13, n);
    proof {
        assert(region@ =~= text@.skip(13));
    }
    Some(String::from_str(region))
}

/// What follows the `PHOTON_PINGS:` prefix: the report body.
pub open spec fn photon_pings_body(s: Seq<char>) -> Option<Seq<char>> {
    if !is_prefix("PHOTON_PINGS:"@, s) {
        None
    } else {
        Some(s.skip(13))
    }
}

/// Frames a region-ping report body.
pub fn build_photon_pings(body: &str) -> (r: String)
    ensures
        r@ == "PHOTON_PINGS:"@ + body@,
{
    let mut s = String::from_str("PHOTON_PINGS:");
    s.append(body);
    s
}

/// Reads a region-ping report body from its text.
pub fn parse_photon_pings(text: &str) -> (r: Option<String>)
    ensures
        match photon_pings_body(text@) {
            Some(p) => r matches Some(body) && body@ == p,
            None => r is None,
        },
{
    proof {
        reveal_strlit("PHOTON_PINGS:");
    }
    if !has_prefix(text, "PHOTON_PINGS:") {
        return None;
    }
    let n = text.unicode_len();
    let body = text.substring_char(13, n);
    proof {
        assert(body@ =~= text@.skip(13));
    }
    Some(String::from_str(body))
}

/// The echo a coordinator sends back for text it does not understand.
pub fn build_echo(text: &str) -> (r: String)
    ensures
        r@ == "Echo: "@ + text@,
{
    let mut s = String::from_str("Echo: ");
    s.append(text);
    s
}

// ---------------------------------------------------------------------------
// Heartbeat payloads
// ---------------------------------------------------------------------------
/// The `n` big-endian bytes of `v`: most significant first.
pub open spec fn be_bytes(v: nat, n: nat) -> Seq<u8>
    decreases n,
{
    if n == 0 {
        seq![]
    } else {
        be_bytes(v / 256, (n - 1) as nat) + seq![(v % 256) as u8]
    }
}

/// The value big-endian bytes carry.
pub open spec fn be_value(s: Seq<u8>) -> nat
    decreases s.len(),
{
    if s.len() == 0 {
        0
    } else {
        (be_value(s.drop_last()) * 256 + s.last()) as nat
    }
}

/// Sixteen big-endian bytes hold exactly the 128-bit values.
pub proof fn lemma_pow256_16()
    ensures
        pow(256, 16) == 0x1_0000_0000_0000_0000_0000_0000_0000_0000,
{
    reveal(pow);
    assert(pow(256, 0) == 1);
    assert(pow(256, 1) == 256 * pow(256, 0));
    assert(pow(256, 2) == 256 * pow(256, 1));
    assert(pow(256, 3) == 256 * pow(256, 2));
    assert(pow(256, 4) == 256 * pow(256, 3));
    assert(pow(256, 5) == 256 * pow(256, 4));
    assert(pow(256, 6) == 256 * pow(256, 5));
    assert(pow(256, 7) == 256 * pow(256, 6));
    assert(pow(256, 8) == 256 * pow(256, 7));
    assert(pow(256, 9) == 256 * pow(256, 8));
    assert(pow(256, 10) == 256 * pow(256, 9));
    assert(pow(256, 11) == 256 * pow(256, 10));
    assert(pow(256, 12) == 256 * pow(256, 11));
    assert(pow(256, 13) == 256 * pow(256, 12));
    assert(pow(256, 14) == 256 * pow(256, 13));
    assert(pow(256, 15) == 256 * pow(256, 14));
    assert(pow(256, 16) == 256 * pow(256, 15));
}

/// The sixteen big-endian bytes of one value, appended to a byte vector.
fn push_be_u128(out: &mut Vec<u8>, v: u128)
    ensures
        final(out)@ == old(out)@ + be_bytes(v as nat, 16),
{
    let mut scratch: Vec<u8> = vec![0u8; 16];
    let mut v_cur = v;
    let mut k: usize = 0;
    while k < 16
        invariant
            k <= 16,
            scratch@.len() == 16,
            be_bytes(v as nat, 16) == be_bytes(v_cur as nat, (16 - k) as nat)
                + scratch@.skip(16 - k as int),
        decreases 16 - k,
    {
        let idx = 15 - k;
        scratch[idx] = (v_cur % 256) as u8;
        proof {
            assert(be_bytes(v_cur as nat, (16 - k) as nat) == be_bytes(
                (v_cur / 256) as nat,
                (16 - k - 1) as nat,
            ) + seq![(v_cur % 256) as u8]);
            assert(scratch@.skip(16 - (k + 1) as int) =~= seq![(v_cur % 256) as u8]
                + scratch@.skip(16 - k as int));
        }
        v_cur = v_cur / 256;
        k = k + 1;
    }
    proof {
        assert(be_bytes(v_cur as nat, 0) =~= Seq::<u8>::empty());
        assert(scratch@.skip(0) =~= scratch@);
        assert(scratch@ =~= be_bytes(v as nat, 16));
    }
    let mut i: usize = 0;
    while i < 16
        invariant
            i <= 16,
            scratch@.len() == 16,
            scratch@ == be_bytes(v as nat, 16),
            out@ == old(out)@ + scratch@.take(i as int),
        decreases 16 - i,
    {
        out.push(scratch[i]);
        proof {
            assert(old(out)@ + scratch@.take(i + 1) =~= (old(out)@ + scratch@.take(
                i as int,
            )).push(scratch@[i as int]));
        }
        i = i + 1;
    }
    proof {
        assert(scratch@.take(16) =~= scratch@);
    }
}

/// The 32-byte heartbeat payload: the coordinator's clock and its smoothed
/// round-trip estimate, both big-endian.
pub fn build_heartbeat_payload(now_ms: u128, smoothed_rtt: u128) -> (r: Vec<u8>)
    ensures
        r@ == be_bytes(now_ms as nat, 16) + be_bytes(smoothed_rtt as nat, 16),
{
    let mut out: Vec<u8> = Vec::new();
    push_be_u128(&mut out, now_ms);
    push_be_u128(&mut out, smoothed_rtt);
    proof {
        assert(out@ =~= be_bytes(now_ms as nat, 16) + be_bytes(smoothed_rtt as nat, 16));
    }
    out
}

/// One big-endian value from sixteen bytes of the payload.
fn read_be_u128(payload: &Vec<u8>, start: usize) -> (r: u128)
    requires
        start + 16 <= payload@.len(),
    ensures
        r as nat == be_value(payload@.subrange(start as int, start as int + 16)),
{
    let ghost whole = payload@.subrange(start as int, start as int + 16);
    let total = payload.len();
    let mut acc: u128 = 0;
    let mut i: usize = 0;
    proof {
        reveal(pow);
        assert(whole.take(0) =~= Seq::<u8>::empty());
        assert(pow(256, 0) == 1);
    }
    while i < 16
        invariant
            i <= 16,
            start + 16 <= total,
            total == payload@.len(),
            whole == payload@.subrange(start as int, start as int + 16),
            acc as nat == be_value(whole.take(i as int)),
            (acc as nat) < pow(256, i as nat),
        decreases 16 - i,
    {
        let b = payload[start + i];
        proof {
            reveal(pow);
            lemma_pow256_16();
            lemma_pow_increases(256, (i + 1) as nat, 16);
            assert(pow(256, (i + 1) as nat) == 256 * pow(256, i as nat));
            assert(whole.take(i + 1).drop_last() =~= whole.take(i as int));
            assert(whole.take(i + 1).last() == whole[i as int]);
            assert(whole[i as int] == payload@[start + i]);
        }
        acc = acc * 256 + (b as u128);
        i = i + 1;
    }
    proof {
        assert(whole.take(16) =~= whole);
    }
    acc
}

/// The two clocks a 32-byte heartbeat payload carries; any other length is
/// not a heartbeat.
pub fn parse_heartbeat_payload(payload: &Vec<u8>) -> (r: Option<(u128, u128)>)
    ensures
        if payload@.len() == 32 {
            r matches Some(p) && p.0 as nat == be_value(payload@.take(16)) && p.1 as nat
                == be_value(payload@.skip(16))
        } else {
            r is None
        },
{
    if payload.len() != 32 {
        return None;
    }
    let first = read_be_u128(payload, 0);
    let second = read_be_u128(payload, 16);
    proof {
        assert(payload@.subrange(0, 16) =~= payload@.take(16));
        assert(payload@.subrange(16, 32) =~= payload@.skip(16));
    }
    Some((first, second))
}

/// A heartbeat payload reads back as the two clocks it was built from:
/// what `build_heartbeat_payload` writes, `parse_heartbeat_payload`
/// returns unchanged.
pub proof fn lemma_heartbeat_round_trip(now_ms: u128, smoothed_rtt: u128)
    ensures
        ({
            let payload = be_bytes(now_ms as nat, 16) + be_bytes(smoothed_rtt as nat, 16);
            &&& payload.len() == 32
            &&& be_value(payload.take(16)) == now_ms
            &&& be_value(payload.skip(16)) == smoothed_rtt
        }),
{
    lemma_pow256_16();
    lemma_be_round_trip(now_ms as nat, 16);
    lemma_be_round_trip(smoothed_rtt as nat, 16);
    let payload = be_bytes(now_ms as nat, 16) + be_bytes(smoothed_rtt as nat, 16);
    assert(payload.take(16) =~= be_bytes(now_ms as nat, 16));
    assert(payload.skip(16) =~= be_bytes(smoothed_rtt as nat, 16));
}

/// Big-endian bytes read back as the value they were written from.
pub proof fn lemma_be_round_trip(v: nat, n: nat)
    requires
        v < pow(256, n),
    ensures
        be_bytes(v, n).len() == n,
        be_value(be_bytes(v, n)) == v,
    decreases n,
{
    reveal(pow);
    if n == 0 {
        assert(pow(256, 0) == 1);
    } else {
        assert(pow(256, n) == 256 * pow(256, (n - 1) as nat));
        lemma_be_round_trip(v / 256, (n - 1) as nat);
        let s = be_bytes(v, n);
        assert(s.drop_last() =~= be_bytes(v / 256, (n - 1) as nat));
        assert(s.last() == (v % 256) as u8);
    }
}

} // verus!
