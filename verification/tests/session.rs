use std::io::Write as _;
use animstudio::base32::{base32_decode, base32_encode};
use animstudio::text::hex;
use animstudio::net::{dec_repair_frame, enc_repair_frame, repair_entries, repair_tiles, SUB_REPAIR};
use animstudio::raster::TILE_LEN;
use animstudio::net::{
    admit_guest, auth_mac, code_at, code_text, frame_header, frame_len, parse_u32, read_beacon,
    totp_at, verify_totp, verify_totp_at, Admission, MAX_FRAME,
};

fn now_unix() -> u64 {
    std::time::SystemTime::now()
        .duration_since(std::time::UNIX_EPOCH)
        .map(|d| d.as_secs())
        .unwrap_or(0)
}

#[test]
fn base32_roundtrips() {
    for data in [b"hello".to_vec(), vec![0u8; 7], (0u8..=255).collect()] {
        assert_eq!(base32_decode(&base32_encode(&data)).unwrap(), data);
    }
}

#[test]
fn totp_matches_rfc6238_vectors() {
    // RFC 6238 SHA-1 vectors, truncated to 6 digits.
    let secret = b"12345678901234567890";
    assert_eq!(totp_at(secret, 59), 287082 % 1_000_000);
    assert_eq!(totp_at(secret, 1111111109), 81804);
    assert_eq!(totp_at(secret, 1234567890), 5924);
}

#[test]
fn burned_codes_refuse_replay() {
    let secret = b"12345678901234567890";
    let code = format!("{:06}", totp_at(secret, now_unix()));
    let mut burned = Vec::new();
    assert!(verify_totp(secret, &code, &mut burned));
    assert!(!verify_totp(secret, &code, &mut burned), "replay must refuse");
}

#[test]
fn base32_encodes_rfc4648_vectors_without_padding() {
    assert_eq!(base32_encode(b""), "");
    assert_eq!(base32_encode(b"f"), "MY");
    assert_eq!(base32_encode(b"fo"), "MZXQ");
    assert_eq!(base32_encode(b"foo"), "MZXW6");
    assert_eq!(base32_encode(b"foob"), "MZXW6YQ");
    assert_eq!(base32_encode(b"fooba"), "MZXW6YTB");
    assert_eq!(base32_encode(b"foobar"), "MZXW6YTBOI");
}

#[test]
fn base32_decoding_skips_separators_and_ignores_case() {
    assert_eq!(base32_decode("mzxw-6ytb oi").unwrap(), b"foobar".to_vec());
    assert_eq!(base32_decode("").unwrap(), Vec::<u8>::new());
    // A leftover of fewer than 8 bits is dropped.
    assert_eq!(base32_decode("M").unwrap(), Vec::<u8>::new());
}

#[test]
fn base32_refuses_characters_outside_the_alphabet() {
    assert!(base32_decode("MZXW1").is_none());
    assert!(base32_decode("MZ=").is_none());
    assert!(base32_decode("é").is_none());
}

#[test]
fn codes_show_six_digits() {
    assert_eq!(code_text(5924), "005924");
    assert_eq!(code_text(0), "000000");
    assert_eq!(code_text(999999), "999999");
}

#[test]
fn code_at_reads_the_window() {
    // "12345678901234567890" in base32.
    let secret = base32_encode(b"12345678901234567890");
    assert_eq!(code_at(&secret, 59), Some(("287082".to_string(), 1)));
    assert_eq!(code_at(&secret, 1234567890), Some(("005924".to_string(), 30)));
    assert_eq!(code_at("", 59), None);
    assert_eq!(code_at("!!", 59), None);
}

#[test]
fn verification_accepts_the_neighbouring_windows_once() {
    let secret = b"12345678901234567890";
    let now = 1_000_000u64;
    let before = format!("{:06}", totp_at(secret, now - 30));
    let after = format!("{:06}", totp_at(secret, now + 30));
    let mut burned = Vec::new();
    assert!(verify_totp_at(secret, &before, now, &mut burned));
    assert!(verify_totp_at(secret, &format!("  {after} "), now, &mut burned));
    assert!(!verify_totp_at(secret, &after, now, &mut burned));
    assert_eq!(burned.len(), 2);
    // Far-off windows and garbage never verify.
    let far = format!("{:06}", totp_at(secret, now + 3000));
    let mut fresh = Vec::new();
    if far != before && far != after && far != format!("{:06}", totp_at(secret, now)) {
        assert!(!verify_totp_at(secret, &far, now, &mut fresh));
    }
    assert!(!verify_totp_at(secret, "abc", now, &mut fresh));
    assert!(fresh.is_empty());
}

#[test]
fn old_burns_age_out() {
    let secret = b"12345678901234567890";
    let now = 1_000_000u64;
    let code = format!("{:06}", totp_at(secret, now));
    let mut burned = vec![(now / 30 - 20, 1u32), (now / 30 - 5, 2u32)];
    assert!(verify_totp_at(secret, &code, now, &mut burned));
    assert_eq!(burned, vec![(now / 30 - 5, 2u32), (now / 30, totp_at(secret, now))]);
}

#[test]
fn parse_u32_follows_std() {
    let p = |s: &str| parse_u32(&s.chars().collect());
    assert_eq!(p("42"), Some(42));
    assert_eq!(p("+42"), Some(42));
    assert_eq!(p("4294967295"), Some(u32::MAX));
    assert_eq!(p("4294967296"), None);
    assert_eq!(p(""), None);
    assert_eq!(p("+"), None);
    assert_eq!(p("-1"), None);
    assert_eq!(p("1 2"), None);
}

#[test]
fn hex_is_lowercase_pairs() {
    assert_eq!(hex(&[0x00, 0x0f, 0xa0, 0xff]), "000fa0ff");
    assert_eq!(hex(&[]), "");
}

#[test]
fn auth_mac_is_hmac_sha1_over_nonce_then_code() {
    // RFC 2202 test case 1: key 0x0b x 20, data "Hi There".
    let key = base32_encode(&[0x0bu8; 20]);
    assert_eq!(auth_mac(&key, "Hi ", "There"), "b617318655057264e28bc0b6fb378c8ef146be00");
    assert_eq!(auth_mac(&key, "Hi There", ""), "b617318655057264e28bc0b6fb378c8ef146be00");
    // The MAC changes with the key.
    let other = base32_encode(&[0x0cu8; 20]);
    assert_ne!(auth_mac(&other, "Hi ", "There"), auth_mac(&key, "Hi ", "There"));
}

#[test]
fn the_door_checks_key_then_name() {
    let key = base32_encode(b"room key bytes");
    let mac = auth_mac(&key, "nonce", "123456");
    let names = vec!["ami".to_string()];
    assert_eq!(
        admit_guest(false, &key, "nonce", "123456", &mac, "kai", "host", &names),
        Admission::Admit
    );
    assert_eq!(
        admit_guest(false, &key, "nonce", "123456", "bad", "kai", "host", &names),
        Admission::Refuse("the room key was refused".to_string())
    );
    // An open room skips the key.
    assert_eq!(admit_guest(true, &key, "nonce", "123456", "bad", "kai", "host", &names), Admission::Admit);
    for taken in ["ami", "host", "  "] {
        assert_eq!(
            admit_guest(false, &key, "nonce", "123456", &mac, taken, "host", &names),
            Admission::Refuse(format!(
                "the artist name '{taken}' is already in this room — change yours in Settings › Session"
            ))
        );
    }
}

#[test]
fn frame_headers_roundtrip() {
    let h = frame_header(2, 300);
    assert_eq!(h, vec![0, 0, 1, 44, 2]);
    assert_eq!(frame_len(&h[..4]), Some(300));
    assert_eq!(frame_len(&MAX_FRAME.to_be_bytes()), Some(MAX_FRAME));
    assert_eq!(frame_len(&(MAX_FRAME + 1).to_be_bytes()), None);
}

#[test]
fn beacons_fill_their_defaults() {
    let now = std::time::Instant::now();
    let b = read_beacon(Some(1), None, None, None, None, "10.0.0.2".to_string(), now).unwrap();
    assert_eq!(b.name, "room");
    assert_eq!(b.addr, "10.0.0.2:41100");
    assert_eq!(b.version, "?");
    assert!(!b.open);
    let b = read_beacon(
        Some(1),
        Some("cut 12".to_string()),
        Some(65536 + 7),
        Some("0.2.5".to_string()),
        Some(true),
        "10.0.0.3".to_string(),
        now,
    )
    .unwrap();
    assert_eq!((b.name.as_str(), b.addr.as_str(), b.version.as_str(), b.open), ("cut 12", "10.0.0.3:7", "0.2.5", true));
    assert!(read_beacon(Some(2), None, None, None, None, "x".to_string(), now).is_none());
    assert!(read_beacon(None, None, None, None, None, "x".to_string(), now).is_none());
}

use animstudio::net::{ShipBuffer, SHIP_CAP};

#[test]
fn the_ship_buffer_keeps_the_oldest_lines() {
    let mut b = ShipBuffer::new();
    b.push("ignored".to_string());
    assert!(b.drain().is_empty());
    b.arm(true);
    for i in 0..SHIP_CAP + 5 {
        b.push(format!("line {i}"));
    }
    let lines = b.drain();
    assert_eq!(lines.len(), SHIP_CAP + 1);
    assert_eq!(lines[0], "line 0");
    assert_eq!(lines[SHIP_CAP - 1], format!("line {}", SHIP_CAP - 1));
    assert_eq!(lines[SHIP_CAP], "… ship buffer full — later lines dropped this window");
    assert!(b.drain().is_empty());
    b.push("again".to_string());
    assert_eq!(b.drain(), vec!["again".to_string()]);
    b.arm(false);
    b.push("off".to_string());
    assert!(b.drain().is_empty());
}

use animstudio::net::{batch_json, dec_res, enc_res, SUB_RES};

#[test]
fn resource_frames_roundtrip() {
    let rgba: Vec<u8> = (0..16u8 * 4).collect();
    let frame = enc_res(42, 4, 4, &rgba);
    assert_eq!(frame[0], SUB_RES);
    assert_eq!(&frame[1..9], &42u64.to_le_bytes());
    assert_eq!(&frame[9..13], &4u32.to_le_bytes());
    assert_eq!(dec_res(&frame[1..]), Some((42, 4, 4, rgba.clone())));
    // A size that disagrees with the pixels, a short header, garbage.
    let wrong = enc_res(42, 5, 4, &rgba);
    assert_eq!(dec_res(&wrong[1..]), None);
    assert_eq!(dec_res(&frame[1..10]), None);
    let mut broken = frame[1..17].to_vec();
    broken.extend([0xff, 0xff, 0xff]);
    assert_eq!(dec_res(&broken), None);
}

#[test]
fn command_batches_inflate_or_pass_through() {
    let json = br#"{"seq":1}"#.to_vec();
    let mut enc = flate2::write::DeflateEncoder::new(Vec::new(), flate2::Compression::fast());
    enc.write_all(&json).unwrap();
    let z = enc.finish().unwrap();
    assert_eq!(batch_json(&z), json);
    // Older peers send raw JSON, which does not inflate.
    assert_eq!(batch_json(&json), json);
}

use animstudio::net::{generate_key, room_nonce};

#[test]
fn fresh_keys_and_nonces_have_their_shapes() {
    let k = generate_key();
    assert_eq!(k.len(), 32);
    assert_eq!(base32_decode(&k).unwrap().len(), 20);
    assert_ne!(generate_key(), k);
    let n = room_nonce();
    assert_eq!(n.len(), 32);
    assert!(n.chars().all(|c| c.is_ascii_hexdigit() && !c.is_ascii_uppercase()));
}

#[test]
fn repair_wire_roundtrips() {
    // Texels bit-exact, empty markers survive, garbage refuses.
    let full: Vec<u16> = (0..TILE_LEN as u32).map(|i| (i * 31 % 65521) as u16).collect();
    let tiles = vec![(2, -3, full.clone()), (4, 5, Vec::new()), (0, 0, full.clone())];
    let entries = repair_entries(&tiles);
    assert_eq!(entries, vec![(2, -3, true), (4, 5, false), (0, 0, true)]);
    let header = br#"{"drawing":7,"layer_name":"line","entries":[[2,-3,true],[4,5,false],[0,0,true]]}"#;
    let frame = enc_repair_frame(header, &tiles);
    assert_eq!(frame[0], SUB_REPAIR);
    let (h, texels) = dec_repair_frame(&frame[1..]).expect("repair must roundtrip");
    let v: serde_json::Value = serde_json::from_slice(&h).unwrap();
    assert_eq!(v["drawing"], 7);
    assert_eq!(v["layer_name"], "line");
    let t = repair_tiles(&entries, &texels).expect("repair must roundtrip");
    assert_eq!(t.len(), 3);
    assert_eq!(t[0], (2, -3, full.clone()));
    assert_eq!(t[1], (4, 5, Vec::new()));
    assert_eq!(t[2], (0, 0, full));
    assert!(dec_repair_frame(&[1, 2, 3]).is_none(), "garbage refuses");
}

#[test]
fn a_repair_header_running_past_the_end_refuses() {
    // Declares a 10-byte header but carries 2.
    assert!(dec_repair_frame(&[10, 0, 0, 0, b'{', b'}']).is_none());
    // A zero-length header over a body that does not inflate.
    assert!(dec_repair_frame(&[0, 0, 0, 0, 0xff, 0xff]).is_none());
}

#[test]
fn repair_texels_must_fill_whole_tiles() {
    let entries = vec![(0, 0, true), (1, 0, false)];
    assert!(repair_tiles(&entries, &[0u8; 10]).is_none());
    assert!(repair_tiles(&entries, &vec![0u8; 32768 * 2]).is_none());
    let t = repair_tiles(&entries, &vec![1u8; 32768]).unwrap();
    assert_eq!(t[0].2.len(), 16384);
    assert!(t[0].2.iter().all(|&x| x == 0x0101));
    assert!(t[1].2.is_empty());
    assert!(repair_tiles(&vec![(3, 3, false)], &[]).unwrap()[0].2.is_empty());
}

#[test]
fn the_join_name_overwrites_the_claimed_author() {
    let claim = animstudio::net::StrokeBegin {
        author: "liar".to_string(),
        stroke_id: 5,
        drawing: 1,
        layer_name: "genga".to_string(),
        mode: 0,
        opacity_bits: 1.0f32.to_bits(),
        tip: None,
        grain: Some((9, 4, 4, 0.5f32.to_bits(), 2.0f32.to_bits())),
    };
    let b = animstudio::net::stamp_author(claim, &"guest-a".to_string());
    assert_eq!(b.author, "guest-a");
    assert_eq!(b.stroke_id, 5);
    assert_eq!(b.drawing, 1);
    assert_eq!(b.layer_name, "genga");
    assert_eq!(b.mode, 0);
    assert_eq!(f32::from_bits(b.opacity_bits), 1.0);
    assert_eq!(b.tip, None);
    assert_eq!(b.grain, Some((9, 4, 4, 0.5f32.to_bits(), 2.0f32.to_bits())));
}

use animstudio::net::{relay_for, Relay, SUB_BEGIN, SUB_DABS, SUB_END, SUB_HASHES};

#[test]
fn the_host_relays_by_stroke_kind() {
    assert_eq!(relay_for(SUB_BEGIN), Relay::Restamped);
    assert_eq!(relay_for(SUB_DABS), Relay::AsSent);
    assert_eq!(relay_for(SUB_RES), Relay::AsSent);
    assert_eq!(relay_for(SUB_END), Relay::HostOnly);
    assert_eq!(relay_for(SUB_HASHES), Relay::HostOnly);
    assert_eq!(relay_for(SUB_REPAIR), Relay::HostOnly);
}
