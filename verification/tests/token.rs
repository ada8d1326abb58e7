use btdht::address::IpAddress;
use btdht::token::{
    generate_token, InvalidTokenLength, Token, TokenStore, REFRESH_INTERVAL, TOKEN_LEN,
};

const MINUTE: u128 = 60_000_000_000;

#[test]
fn token_constants() {
    assert_eq!(TOKEN_LEN, 4);
    assert_eq!(REFRESH_INTERVAL, 5 * MINUTE);
}

#[test]
fn token_is_the_head_of_the_sha1_digest() {
    // SHA-1 of 7f 00 00 01 00 00 00 00 begins with 6e 12 e5 25
    assert_eq!(generate_token(IpAddress::v4(127, 0, 0, 1), 0), Token { value: 0x6e12_e525 });
    assert_eq!(generate_token(IpAddress::v4(127, 0, 0, 1), 1), Token { value: 0xc889_72da });
    assert_eq!(
        generate_token(IpAddress::v4(10, 0, 0, 2), 0x0102_0304),
        Token { value: 0x5624_0d2e }
    );
    assert_eq!(generate_token(IpAddress::V6(1), 7), Token { value: 0xb200_9607 });
}

#[test]
fn token_is_made_of_the_first_four_bytes_of_a_digest() {
    let mut digest = [0u8; 20];
    for (i, byte) in digest.iter_mut().enumerate() {
        *byte = 0xa0 + i as u8;
    }
    assert_eq!(Token::from_digest(digest), Token { value: 0xa0a1_a2a3 });
    assert_eq!(Token::from_digest([0; 20]), Token { value: 0 });
}

#[test]
fn token_bytes_round_trip() {
    let token = Token { value: 0x6e12_e525 };
    assert_eq!(token.to_bytes(), vec![0x6e, 0x12, 0xe5, 0x25]);
    assert_eq!(Token::new(&token.to_bytes()), Ok(token));
}

#[test]
fn token_of_wrong_length_is_refused() {
    assert_eq!(Token::new(&[]), Err(InvalidTokenLength { len: 0 }));
    assert_eq!(Token::new(&[1, 2, 3]), Err(InvalidTokenLength { len: 3 }));
    assert_eq!(Token::new(&[0; 20]), Err(InvalidTokenLength { len: 20 }));
}

#[test]
fn checkin_accepts_what_checkout_gave() {
    let mut store = TokenStore::new();
    let ip = IpAddress::v4(192, 168, 1, 7);
    let token = store.checkout(ip);
    assert!(store.checkin(ip, token));
}

#[test]
fn checkin_refuses_the_token_of_another_address() {
    let mut store = TokenStore::with_secrets(11, 22, 0);
    let token = store.checkout_at(IpAddress::v4(192, 168, 1, 7), 1, 33);
    assert!(!store.checkin_at(IpAddress::v4(192, 168, 1, 8), token, 2, 44));
    assert!(store.checkin_at(IpAddress::v4(192, 168, 1, 7), token, 2, 44));
}

#[test]
fn checkout_uses_the_current_secret() {
    let mut store = TokenStore::with_secrets(1, 0, 0);
    let token = store.checkout_at(IpAddress::v4(127, 0, 0, 1), 10, 99);
    assert_eq!(token, Token { value: 0xc889_72da });
}

#[test]
fn token_survives_one_rotation_but_not_two() {
    let ip = IpAddress::v4(127, 0, 0, 1);
    let mut store = TokenStore::with_secrets(1, 0, 0);
    let token = store.checkout_at(ip, 0, 5);
    // not due yet
    assert!(store.checkin_at(ip, token, REFRESH_INTERVAL - 1, 5));
    // first rotation: 1 becomes the previous secret
    assert!(store.checkin_at(ip, token, REFRESH_INTERVAL, 5));
    // no rotation is due so soon after the last
    assert!(store.checkin_at(ip, token, REFRESH_INTERVAL + 1, 6));
    // second rotation: 1 is forgotten
    assert!(!store.checkin_at(ip, token, 2 * REFRESH_INTERVAL, 6));
}

#[test]
fn rotation_installs_the_fresh_secret() {
    let ip = IpAddress::v4(127, 0, 0, 1);
    let mut store = TokenStore::with_secrets(50, 60, 0);
    let token = store.checkout_at(ip, REFRESH_INTERVAL, 0);
    assert_eq!(token, Token { value: 0x6e12_e525 });
    // a call from before the last rotation rotates nothing
    let again = store.checkout_at(ip, 0, 1);
    assert_eq!(again, token);
}

#[test]
fn previous_secret_is_accepted() {
    let ip = IpAddress::v4(127, 0, 0, 1);
    let mut store = TokenStore::with_secrets(9, 0, 0);
    assert!(store.checkin_at(ip, Token { value: 0x6e12_e525 }, 1, 0));
    assert!(!store.checkin_at(ip, Token { value: 0x6e12_e526 }, 1, 0));
}

#[test]
fn draw_secret_keeps_the_current_secret_until_the_rotation_is_due() {
    let store = TokenStore::with_secrets(7, 3, 100);
    assert_eq!(store.draw_secret(0), 7);
    assert_eq!(store.draw_secret(100), 7);
    assert_eq!(store.draw_secret(100 + REFRESH_INTERVAL - 1), 7);
    let store = TokenStore::with_secrets(u32::MAX, 0, 0);
    assert_eq!(store.draw_secret(REFRESH_INTERVAL - 1), u32::MAX);
}
