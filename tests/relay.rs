use relay::config::{apply_config_text, parse_int, read_config_from_args, ServerConfig};
use relay::frame::{check_size, decode_header, encode_frame, encode_header, DecodeStep, FrameDecoder, FrameError};
use relay::rate::RateLimiter;
use relay::registry::Registry;
use relay::session::{continue_after_read, listener_step, AcceptOutcome, ListenerAction, ReadOutcome, Session, SessionAction};

fn frame_of(payload: &[u8]) -> Vec<u8> {
    encode_frame(payload).expect("payload fits a frame")
}

#[test]
fn decode_header_reads_little_endian() {
    assert_eq!(decode_header(&[14, 0, 0, 0]), 14);
    assert_eq!(decode_header(&[0x00, 0x02, 0, 0]), 512);
    assert_eq!(decode_header(&[0x78, 0x56, 0x34, 0x12]), 0x12345678);
    assert_eq!(decode_header(&[0xff, 0xff, 0xff, 0xff]), -1);
    assert_eq!(decode_header(&[0, 0, 0, 0x80]), i32::MIN);
}

#[test]
fn encode_header_writes_little_endian() {
    assert_eq!(encode_header(14), vec![14, 0, 0, 0]);
    assert_eq!(encode_header(0x12345678), vec![0x78, 0x56, 0x34, 0x12]);
}

#[test]
fn check_size_bounds() {
    assert_eq!(check_size(4), Ok(0));
    assert_eq!(check_size(14), Ok(10));
    assert_eq!(check_size(512), Ok(508));
    assert_eq!(check_size(513), Err(FrameError::TooLarge(513)));
    assert_eq!(check_size(3), Err(FrameError::TooSmall(3)));
    assert_eq!(check_size(-1), Err(FrameError::TooSmall(-1)));
}

#[test]
fn encode_frame_prefixes_total_size() {
    let payload: Vec<u8> = (1..=10).collect();
    let f = frame_of(&payload);
    assert_eq!(f.len(), 14);
    assert_eq!(&f[0..4], &[14, 0, 0, 0]);
    assert_eq!(&f[4..], &payload[..]);
    assert_eq!(frame_of(&[]), vec![4, 0, 0, 0]);
    assert_eq!(frame_of(&[0u8; 508]).len(), 512);
    assert_eq!(encode_frame(&[0u8; 509]), None);
}

#[test]
fn decoder_waits_for_partial_frames() {
    let f = frame_of(&[7, 8, 9]);
    let mut d = FrameDecoder::new();
    d.push(&f[0..2]);
    assert_eq!(d.next_frame(), DecodeStep::NeedMore);
    d.push(&f[2..5]);
    assert_eq!(d.next_frame(), DecodeStep::NeedMore);
    assert_eq!(d.buffered(), 5);
    d.push(&f[5..]);
    assert_eq!(d.next_frame(), DecodeStep::Frame(f.clone()));
    assert_eq!(d.buffered(), 0);
    assert_eq!(d.next_frame(), DecodeStep::NeedMore);
}

#[test]
fn decoder_splits_back_to_back_frames() {
    let a = frame_of(&[1]);
    let b = frame_of(&[2, 3]);
    let mut d = FrameDecoder::new();
    let mut both = a.clone();
    both.extend_from_slice(&b);
    d.push(&both);
    assert_eq!(d.next_frame(), DecodeStep::Frame(a));
    assert_eq!(d.next_frame(), DecodeStep::Frame(b));
    assert_eq!(d.next_frame(), DecodeStep::NeedMore);
}

#[test]
fn decoder_reports_sizes_out_of_bounds() {
    let mut d = FrameDecoder::new();
    d.push(&encode_header(513));
    assert_eq!(d.next_frame(), DecodeStep::Violation(FrameError::TooLarge(513)));
    let mut d = FrameDecoder::new();
    d.push(&encode_header(3));
    assert_eq!(d.next_frame(), DecodeStep::Violation(FrameError::TooSmall(3)));
}

#[test]
fn rate_limiter_drops_beyond_threshold() {
    let mut r = RateLimiter::new(60);
    let admitted = (0..61).filter(|_| r.try_admit(1000, 1)).count();
    assert_eq!(admitted, 60);
    assert_eq!(r.window_weight(), 60);
}

#[test]
fn rate_limiter_window_slides() {
    let mut r = RateLimiter::new(2);
    assert!(r.try_admit(0, 1));
    assert!(r.try_admit(500, 1));
    assert!(!r.try_admit(1000, 1));
    // the entry at 0 is older than one second at 1001
    assert!(r.try_admit(1001, 1));
    assert!(!r.try_admit(1400, 1));
    assert!(r.try_admit(1501, 1));
}

#[test]
fn rate_limiter_byte_weights() {
    let mut r = RateLimiter::new(100);
    assert!(r.try_admit(0, 90));
    // under the threshold before this one: admitted, and the sum may pass it
    assert!(r.try_admit(1, 50));
    assert_eq!(r.window_weight(), 140);
    assert!(!r.try_admit(2, 1));
    assert_eq!(r.window_weight(), 140);
}

#[test]
fn rate_limiter_zero_threshold_refuses_all() {
    let mut r = RateLimiter::new(0);
    assert!(!r.try_admit(0, 1));
    assert_eq!(r.threshold(), 0);
}

#[test]
fn register_gives_distinct_ids_in_range() {
    let mut reg: Registry<u8> = Registry::new();
    let mut ids = Vec::new();
    for k in 0..10u8 {
        let id = reg.register(k).expect("room left");
        assert!((10000..16384).contains(&id));
        assert!(!ids.contains(&id));
        ids.push(id);
    }
    assert_eq!(reg.len(), 10);
    for (k, id) in ids.iter().enumerate() {
        assert_eq!(reg.get(*id), Some(&(k as u8)));
    }
}

#[test]
fn register_draws_at_random() {
    let mut reg: Registry<()> = Registry::new();
    let ids: Vec<u32> = (0..5).map(|_| reg.register(()).unwrap()).collect();
    // always drawing the lowest identifier would end in a scan from the bottom
    assert_ne!(ids, vec![10000, 10001, 10002, 10003, 10004]);
}

#[test]
fn join_takes_first_fresh_draw() {
    let mut reg: Registry<&str> = Registry::new();
    assert_eq!(reg.join(&[12345], "a"), Some(12345));
    // out of range, zero and taken draws are skipped
    assert_eq!(reg.join(&[5, 0, 12345, 16384, 10001], "b"), Some(10001));
    // no usable draw: the lowest free identifier
    assert_eq!(reg.join(&[12345], "c"), Some(10000));
    assert_eq!(reg.join(&[], "d"), Some(10002));
    assert_eq!(reg.choose_id(&[10000, 10001, 10003]), Some(10003));
    assert_eq!(reg.get(10001), Some(&"b"));
}

#[test]
fn join_fails_when_every_id_is_live() {
    let mut reg: Registry<u32> = Registry::new();
    for id in 10000..16384u32 {
        assert_eq!(reg.join(&[id], id), Some(id));
    }
    assert_eq!(reg.choose_id(&[12000]), None);
    assert_eq!(reg.join(&[12000], 0), None);
    assert_eq!(reg.len(), 6384);
}

#[test]
fn removed_id_can_be_reused() {
    let mut reg: Registry<&str> = Registry::new();
    assert_eq!(reg.join(&[11111], "old"), Some(11111));
    assert_eq!(reg.join(&[11111], "x"), Some(10000));
    reg.remove(11111);
    assert!(!reg.contains(11111));
    assert!(!reg.recipients(10000, true).contains(&11111));
    reg.remove(11111);
    assert_eq!(reg.len(), 1);
    assert_eq!(reg.join(&[11111], "new"), Some(11111));
    assert_eq!(reg.get(11111), Some(&"new"));
}

#[test]
fn recipients_follow_mirror() {
    let mut reg: Registry<()> = Registry::new();
    let a = reg.join(&[10010], ()).unwrap();
    let b = reg.join(&[10020], ()).unwrap();
    let c = reg.join(&[10030], ()).unwrap();
    let mut others = reg.recipients(a, false);
    others.sort();
    assert_eq!(others, vec![b, c]);
    let mut all = reg.recipients(a, true);
    all.sort();
    assert_eq!(all, vec![a, b, c]);
    let mut ids = reg.ids();
    ids.sort();
    assert_eq!(ids, vec![a, b, c]);
}

#[test]
fn has_room_enforces_capacity() {
    let mut reg: Registry<()> = Registry::new();
    assert!(reg.has_room(2));
    reg.register(()).unwrap();
    reg.register(()).unwrap();
    assert!(!reg.has_room(2));
    assert!(reg.has_room(3));
    assert!(!reg.has_room(0));
    assert!(!reg.has_room(-5));
}

#[test]
fn listener_refuses_when_full_and_stops_on_shutdown() {
    assert_eq!(listener_step(true, AcceptOutcome::Connection, true), ListenerAction::Spawn);
    assert_eq!(listener_step(true, AcceptOutcome::Connection, false), ListenerAction::Refuse);
    assert_eq!(listener_step(true, AcceptOutcome::WouldBlock, true), ListenerAction::Sleep);
    assert_eq!(listener_step(true, AcceptOutcome::Failed, true), ListenerAction::Stop);
    assert_eq!(listener_step(false, AcceptOutcome::Connection, true), ListenerAction::Stop);
    assert_eq!(listener_step(false, AcceptOutcome::WouldBlock, true), ListenerAction::Stop);
}

#[test]
fn session_read_decisions() {
    assert!(continue_after_read(true, ReadOutcome::Data));
    assert!(continue_after_read(true, ReadOutcome::TimedOut));
    assert!(!continue_after_read(true, ReadOutcome::Closed));
    assert!(!continue_after_read(true, ReadOutcome::Failed));
    assert!(!continue_after_read(false, ReadOutcome::Data));
    assert!(!continue_after_read(false, ReadOutcome::TimedOut));
}

#[test]
fn session_closes_on_oversized_frame() {
    let mut s = Session::new(10000, 60);
    s.receive(&encode_header(600));
    assert_eq!(s.next_action(0), SessionAction::Disconnect);
    let mut s = Session::new(10000, 60);
    s.receive(&encode_header(2));
    assert_eq!(s.next_action(0), SessionAction::Disconnect);
}

#[test]
fn three_clients_relay_and_rate_limit() {
    let config = ServerConfig { mirror: false, max_rate: 60, ..ServerConfig::standard() };
    let mut reg: Registry<&str> = Registry::new();
    let a = reg.join(&[10001], "A").unwrap();
    let b = reg.join(&[10002], "B").unwrap();
    let c = reg.join(&[10003], "C").unwrap();
    let mut session = Session::new(a, config.max_rate);
    assert_eq!(session.id(), a);

    let frame = frame_of(&[1, 2, 3, 4, 5, 6]);
    assert_eq!(frame.len(), 10);
    session.receive(&frame);
    match session.next_action(5000) {
        SessionAction::Forward(f) => assert_eq!(f, frame),
        other => panic!("expected a forward, got {:?}", other),
    }
    let mut to = reg.recipients(a, config.mirror);
    to.sort();
    assert_eq!(to, vec![b, c]);

    let mut delivered = 1;
    let mut dropped = 0;
    for k in 0..61u64 {
        session.receive(&frame);
        match session.next_action(6000 + k) {
            SessionAction::Forward(f) => {
                assert_eq!(f, frame);
                delivered += 1;
            }
            SessionAction::Drop => dropped += 1,
            other => panic!("unexpected {:?}", other),
        }
    }
    assert_eq!(delivered - 1, 60);
    assert_eq!(dropped, 1);
    assert_eq!(session.next_action(6100), SessionAction::Wait);
}

#[test]
fn mirror_includes_sender() {
    let mut reg: Registry<()> = Registry::new();
    let a = reg.join(&[10001], ()).unwrap();
    let b = reg.join(&[10002], ()).unwrap();
    let mut to = reg.recipients(a, ServerConfig::standard().mirror);
    to.sort();
    assert_eq!(to, vec![a, b]);
}

#[test]
fn standard_config_values() {
    let c = ServerConfig::standard();
    assert_eq!(c.port, 45565);
    assert!(c.mirror);
    assert_eq!(c.max_players, 10);
    assert_eq!(c.max_rate, 60);
    assert!(!c.debug_print);
}

#[test]
fn parse_int_like_std() {
    for s in ["0", "42", "+7", "-13", "2147483647", "-2147483648", "2147483648", "-2147483649", "", "-", "+", "1a", " 1", "99999999999999"] {
        assert_eq!(parse_int(s), s.parse::<i32>().ok(), "input {:?}", s);
    }
}

#[test]
fn args_set_each_field() {
    let mut c = ServerConfig::standard();
    let args: Vec<String> = ["--no-mirror", "--debug", "4000", "--max-players=3", "--max-rate=90=5", "--other", "--max-rate=x"]
        .iter()
        .map(|s| s.to_string())
        .collect();
    read_config_from_args(&mut c, &args);
    assert_eq!(c, ServerConfig { port: 4000, mirror: false, max_players: 3, max_rate: 90, debug_print: true });
}

#[test]
fn config_text_lines() {
    let mut c = ServerConfig::standard();
    apply_config_text(&mut c, "port = 5000\nmirror=false\r\n  max_players =  4 \nmax_rate=8000\ndebug_print = true\nbogus = 1\nport = x\n");
    assert_eq!(c, ServerConfig { port: 5000, mirror: false, max_players: 4, max_rate: 8000, debug_print: true });
    let mut c = ServerConfig::standard();
    apply_config_text(&mut c, "port=1\nport=2\nmirror = maybe\nmax_rate = -5\nmax_players=99999999999");
    assert_eq!(c, ServerConfig { port: 2, ..ServerConfig::standard() });
    let mut c = ServerConfig::standard();
    apply_config_text(&mut c, "");
    assert_eq!(c, ServerConfig::standard());
}
