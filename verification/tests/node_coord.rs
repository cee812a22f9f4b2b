use playsync::client_data::{pong_rtt, ClientData};
use playsync::message_handler::{
    all_responded, compute_play_broadcast, compute_play_timestamp, get_highest_rtt,
    mark_awaiting_pings, store_photon_pings,
};
use playsync::messages::{
    build_echo, build_heartbeat_payload, build_photon_pings, build_play_message,
    build_request_ping, parse_heartbeat_payload, parse_photon_pings, parse_play_message,
    parse_request_ping, parse_send_play, play_delay,
};
use playsync::models::RegionPingInfo;
use playsync::ping_cache::PingCache;
use playsync::pinger::{aggregate_samples, fresh_probe_request, probe_reply_matches, probe_request};
use playsync::text::{parse_dec_u128, u128_to_dec};

fn info(region: &str, latency: u64, last_updated: u64) -> RegionPingInfo {
    RegionPingInfo { region: region.to_string(), latency, last_updated }
}

#[test]
fn test_region_ping_data_to_info() {
    let data = playsync::region_ping_data::RegionPingData {
        region: playsync::photon_region::PhotonRegion {
            short_name: "us".to_string(),
            address: "wss://a".to_string(),
        },
        rtt: 42,
        last_updated: 1_000_000,
    };
    assert_eq!(data.to_info(), info("us", 42, 1_000_000));
}

#[test]
fn test_ping_cache_refresh() {
    let mut cache = PingCache::new();
    cache.insert("us", 42, 1_000_000);
    cache.insert("eu", 88, 1_000_000);

    let mut all = cache.snapshot(None);
    all.sort_by(|a, b| a.region.cmp(&b.region));
    assert_eq!(all, vec![info("eu", 88, 1_000_000), info("us", 42, 1_000_000)]);

    let one = cache.snapshot(Some("us"));
    assert_eq!(one, vec![info("us", 42, 1_000_000)]);

    let everything = cache.snapshot(Some(""));
    assert_eq!(everything.len(), 2);

    let missing = cache.snapshot(Some("asia"));
    assert_eq!(missing, vec![]);
}

#[test]
fn test_ping_cache_overwrites() {
    let mut cache = PingCache::new();
    cache.insert("us", 42, 1_000_000);
    cache.insert("us", 55, 1_030_000);
    let all = cache.snapshot(None);
    assert_eq!(all, vec![info("us", 55, 1_030_000)]);
}

#[test]
fn test_smoothed_rtt() {
    let mut client = ClientData::new();

    client.add_ping(100_000, 200);
    assert_eq!(client.smoothed_ping, Some(200));

    client.add_ping(110_000, 100);
    assert_eq!(client.smoothed_ping, Some(150));

    client.add_ping(140_000, 30);
    assert_eq!(client.smoothed_ping, Some(65));
    assert_eq!(client.ping_history, vec![(110_000, 100), (140_000, 30)]);
}

#[test]
fn test_pong_rtt() {
    assert_eq!(pong_rtt(99_800, 100_000), 200);
    assert_eq!(pong_rtt(100_000, 99_000), 0);
}

#[test]
fn test_broadcast_timestamp() {
    let mut a = ClientData::new();
    a.smoothed_ping = Some(40);
    store_photon_pings(&mut a, vec![info("us", 80, 1_000_000)]);

    let mut b = ClientData::new();
    b.smoothed_ping = Some(60);
    store_photon_pings(&mut b, vec![info("us", 50, 1_000_000)]);

    let clients = vec![a, b];
    assert_eq!(get_highest_rtt(&clients, "us"), 140);
    assert_eq!(compute_play_timestamp(1_000_000, 140), 1_000_210);

    let (rtt, ts, text) = compute_play_broadcast(&clients, "us", "demo", 1_000_000);
    assert_eq!(rtt, 140);
    assert_eq!(ts, 1_000_210);
    assert_eq!(text, "PLAY:1000210:demo:140");
}

#[test]
fn test_broadcast_ignores_other_regions() {
    let mut a = ClientData::new();
    store_photon_pings(&mut a, vec![info("eu", 500, 1_000_000)]);
    let clients = vec![a];
    assert_eq!(get_highest_rtt(&clients, "us"), 0);
}

#[test]
fn test_awaiting_flags() {
    let mut a = ClientData::new();
    let mut b = ClientData::new();
    mark_awaiting_pings(&mut a);
    mark_awaiting_pings(&mut b);
    assert!(a.waiting_for_photon_pings);
    assert!(a.photon_pings.is_none());
    assert!(!all_responded(&vec![a, b]));

    let mut c = ClientData::new();
    mark_awaiting_pings(&mut c);
    store_photon_pings(&mut c, vec![info("us", 10, 5)]);
    assert!(!c.waiting_for_photon_pings);
    assert!(all_responded(&vec![c]));
}

#[test]
fn test_play_scheduling() {
    let command = parse_play_message("PLAY:1000500::demo:140").unwrap();
    assert_eq!(command.target_timestamp, 1_000_500);
    assert_eq!(command.payload, "demo");
    assert_eq!(play_delay(command.target_timestamp, 1_000_200), 300);
    assert_eq!(play_delay(command.target_timestamp, 1_000_600), 0);
}

#[test]
fn test_play_message_round_trip() {
    let text = build_play_message(1_000_210, "demo", 140);
    assert_eq!(text, "PLAY:1000210:demo:140");
    let command = parse_play_message(&text).unwrap();
    assert_eq!(command.target_timestamp, 1_000_210);
    assert_eq!(command.payload, "demo");
}

#[test]
fn test_play_message_without_rtt() {
    let command = parse_play_message("PLAY:123:hello world").unwrap();
    assert_eq!(command.target_timestamp, 123);
    assert_eq!(command.payload, "hello world");
}

#[test]
fn test_play_message_invalid() {
    assert_eq!(parse_play_message("PLAY:abc:demo"), None);
    assert_eq!(parse_play_message("PLAY:123"), None);
    assert_eq!(parse_play_message("NOPE:123:demo"), None);
}

#[test]
fn test_send_play_fields() {
    let (region, payload) = parse_send_play("SEND_PLAY:eu:hello").unwrap();
    assert_eq!(region, "eu");
    assert_eq!(payload, "hello");

    let (region, payload) = parse_send_play("SEND_PLAY:hello").unwrap();
    assert_eq!(region, "us");
    assert_eq!(payload, "hello");

    let (region, payload) = parse_send_play("SEND_PLAY::hello").unwrap();
    assert_eq!(region, "us");
    assert_eq!(payload, "hello");

    assert_eq!(parse_send_play("PLAY:1:2"), None);
}

#[test]
fn test_request_ping_messages() {
    assert_eq!(build_request_ping("us"), "REQUEST_PING:us");
    assert_eq!(parse_request_ping("REQUEST_PING:eu").unwrap(), "eu");
    assert_eq!(parse_request_ping("REQUEST_PING:").unwrap(), "");
    assert_eq!(parse_request_ping("PING:eu"), None);
}

#[test]
fn test_photon_pings_framing() {
    let framed = build_photon_pings("{\"regions\":[]}");
    assert_eq!(framed, "PHOTON_PINGS:{\"regions\":[]}");
    assert_eq!(parse_photon_pings(&framed).unwrap(), "{\"regions\":[]}");
    assert_eq!(parse_photon_pings("OTHER:x"), None);
}

#[test]
fn test_echo() {
    assert_eq!(build_echo("hi"), "Echo: hi");
}

#[test]
fn test_heartbeat_payload_round_trip() {
    let payload = build_heartbeat_payload(1_234_567_890_123, 42);
    assert_eq!(payload.len(), 32);
    let (now, rtt) = parse_heartbeat_payload(&payload).unwrap();
    assert_eq!(now, 1_234_567_890_123);
    assert_eq!(rtt, 42);

    assert_eq!(parse_heartbeat_payload(&vec![0u8; 31]), None);
}

#[test]
fn test_probe_mismatch_tolerance() {
    // Four probes; the second and third report a mismatched id and are
    // discarded, so the mean covers the first and last samples alone.
    let request = probe_request(7);
    assert_eq!(request.len(), 13);
    assert_eq!(&request[0..12], &[0x7d; 12]);
    assert_eq!(request[12], 7);

    let good = request.clone();
    let mut bad = request.clone();
    bad[12] = 8;

    let samples: Vec<Option<u64>> = vec![
        if probe_reply_matches(7, &good) { Some(40) } else { None },
        if probe_reply_matches(7, &bad) { Some(999) } else { None },
        if probe_reply_matches(7, &bad) { Some(999) } else { None },
        if probe_reply_matches(7, &good) { Some(60) } else { None },
    ];
    assert_eq!(samples, vec![Some(40), None, None, Some(60)]);
    assert_eq!(aggregate_samples(&samples), 50);

    assert_eq!(aggregate_samples(&vec![]), 0);
    assert_eq!(aggregate_samples(&vec![None, None]), 0);
}

#[test]
fn test_probe_ids_in_range() {
    for _ in 0..100 {
        let (request, id) = fresh_probe_request();
        assert!(id < 255);
        assert_eq!(request.len(), 13);
        assert_eq!(request[12], id);
        assert!(probe_reply_matches(id, &request));
    }
}

#[test]
fn test_decimal_round_trip() {
    for v in [0u128, 7, 10, 999, 1_000_500, u128::MAX] {
        let text = u128_to_dec(v);
        assert_eq!(parse_dec_u128(&text), Some(v));
    }
    assert_eq!(u128_to_dec(1_000_210), "1000210");
    assert_eq!(parse_dec_u128(""), None);
    assert_eq!(parse_dec_u128("12a"), None);
    assert_eq!(parse_dec_u128("340282366920938463463374607431768211456"), None);
}
