use mcproxy::config::{f, LogLevel, LoggerOptions};
use mcproxy::handshake::{encode_frame, encode_handshake, Handshake, NextState, ProtocolError};
use mcproxy::proxy::{handshake_output, read_handshake_from, rewrite_for_backend, HandshakeRead};

fn client_handshake() -> Handshake {
    Handshake {
        protocol_version: 758,
        server_address: "play.example.com".to_string(),
        server_port: 25565,
        next_state: NextState::Login,
    }
}

#[test]
fn rewrite_keeps_all_but_address() {
    let out = rewrite_for_backend(client_handshake(), "backend.internal".to_string()).unwrap();
    assert_eq!(
        out,
        Handshake {
            protocol_version: 758,
            server_address: "backend.internal".to_string(),
            server_port: 25565,
            next_state: NextState::Login,
        }
    );
}

#[test]
fn rewrite_rejects_long_target() {
    let r = rewrite_for_backend(client_handshake(), "h".repeat(256));
    assert_eq!(r.err(), Some(ProtocolError::AddressTooLong));
    assert!(rewrite_for_backend(client_handshake(), "h".repeat(255)).is_ok());
}

#[test]
fn forwarded_bytes_scenario() {
    let mut inbound = encode_frame(&encode_handshake(&client_handshake()));
    match read_handshake_from(&inbound) {
        HandshakeRead::Read { handshake, overflow } => {
            assert_eq!(handshake, client_handshake());
            assert!(overflow.is_empty());
        }
        _ => panic!("expected the handshake"),
    }
    inbound.truncate(3);
    assert!(matches!(read_handshake_from(&inbound), HandshakeRead::NeedMore));
}

#[test]
fn overflow_follows_rewritten_frame() {
    let extra = vec![0x10, 0x00, 0xfe, 0x42, 0x07];
    let mut inbound = encode_frame(&encode_handshake(&client_handshake()));
    inbound.extend(&extra);
    let (h, overflow) = match read_handshake_from(&inbound) {
        HandshakeRead::Read { handshake, overflow } => (handshake, overflow),
        _ => panic!("expected the handshake"),
    };
    assert_eq!(overflow, extra);
    let rewritten = rewrite_for_backend(h, "backend.internal".to_string()).unwrap();
    let out = handshake_output(&rewritten, &overflow);
    let frame = encode_frame(&encode_handshake(&rewritten));
    assert_eq!(&out[..frame.len()], &frame[..]);
    assert_eq!(&out[frame.len()..], &extra[..]);
    match read_handshake_from(&out) {
        HandshakeRead::Read { handshake, overflow } => {
            assert_eq!(handshake.server_address, "backend.internal");
            assert_eq!(handshake.protocol_version, 758);
            assert_eq!(handshake.server_port, 25565);
            assert_eq!(handshake.next_state, NextState::Login);
            assert_eq!(overflow, extra);
        }
        _ => panic!("expected the handshake"),
    }
}

#[test]
fn bad_first_frame_fails() {
    let payload = vec![0x05, 0x00];
    let inbound = encode_frame(&payload);
    assert!(matches!(read_handshake_from(&inbound), HandshakeRead::Failed(ProtocolError::UnknownPacket)));
    let bad = vec![0xff, 0xff, 0xff, 0xff, 0xff];
    assert!(matches!(read_handshake_from(&bad), HandshakeRead::Failed(ProtocolError::BadVarInt)));
}

#[test]
fn logger_defaults() {
    let o = LoggerOptions::default();
    assert_eq!(o.log_level, LogLevel::Info);
    assert_eq!(o.log_file.as_deref(), Some("./output.log"));
    assert!(!f());
}
