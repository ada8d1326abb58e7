use crate::address::IpAddress;
use crate::clock::{Clock, Timestamp};
use crate::id::{be32, byte_of_u32, byte_of_u64, pack32, unpack32, unpack64};
use crypto::digest::Digest;
use vstd::prelude::*;

verus! {

/// Number of bytes of a token.
pub const TOKEN_LEN: usize = 4;

/// How long a secret is the current one: 5 minutes, in nanoseconds.
pub const REFRESH_INTERVAL: u128 = 300_000_000_000;

/// The SHA-1 digest of a sequence of bytes: twenty bytes.
pub uninterp spec fn sha1_digest(data: Seq<u8>) -> Seq<u8>;

/// Computes a SHA-1 digest with `crypto::sha1::Sha1`: `Sha1::new`, one call
/// of `Digest::input` with all of `data`, and `Digest::result` into a buffer
/// of twenty bytes. The result is named, not described. `input` gives up on
/// a message whose length in bits does not fit in 64 bits, which `requires`
/// leaves out.
#[verifier::external_body]
fn sha1(data: &Vec<u8>) -> (digest: [u8; 20])
    requires
        data@.len() < 0x2000_0000_0000_0000,
    ensures
        digest@ == sha1_digest(data@),
{
    let mut hasher = crypto::sha1::Sha1::new();
    hasher.input(data.as_slice());
    let mut digest = [0u8; 20];
    hasher.result(&mut digest);
    digest
}

/// Draws a number from the thread's random number generator with
/// `rand::random`. Nothing is promised of the number.
#[verifier::external_body]
fn random_secret() -> u32 {
    rand::random::<u32>()
}

/// A capability that lets the holder of an IP address announce itself.
#[derive(Clone, Copy, Debug, PartialEq, Eq, Hash, Structural)]
pub struct Token {
    pub value: u32,
}

/// A token of the wrong length was offered.
#[derive(Clone, Copy, Debug, PartialEq, Eq, Structural)]
pub struct InvalidTokenLength {
    pub len: usize,
}

/// The sixteen bytes of a 128-bit number, most significant first.
pub open spec fn bytes_of_u128(x: u128) -> Seq<u8> {
    Seq::new(
        16,
        |i: int|
            if i < 8 {
                byte_of_u64((x / 0x1_0000_0000_0000_0000) as u64, i)
            } else {
                byte_of_u64((x % 0x1_0000_0000_0000_0000) as u64, i - 8)
            },
    )
}

/// The four bytes of a 32-bit number, most significant first.
pub open spec fn bytes_of_u32(x: u32) -> Seq<u8> {
    Seq::new(4, |i: int| byte_of_u32(x, i))
}

/// The bytes of an IP address, the first byte of the address first.
pub open spec fn bytes_of_ip(ip: IpAddress) -> Seq<u8> {
    match ip {
        IpAddress::V4(x) => bytes_of_u32(x),
        IpAddress::V6(x) => bytes_of_u128(x),
    }
}

/// What is hashed to make a token: the address, then the secret.
pub open spec fn token_input(ip: IpAddress, secret: u32) -> Seq<u8> {
    bytes_of_ip(ip) + bytes_of_u32(secret)
}

/// The token for an address under a secret: the first four bytes of the
/// SHA-1 digest of the address followed by the secret.
pub open spec fn spec_token(ip: IpAddress, secret: u32) -> Token {
    let digest = sha1_digest(token_input(ip, secret));
    Token { value: be32(digest[0], digest[1], digest[2], digest[3]) as u32 }
}

fn push_u32(bytes: &mut Vec<u8>, x: u32)
    ensures
        final(bytes)@ == old(bytes)@ + bytes_of_u32(x),
{
    bytes.push(unpack32(x, 0));
    bytes.push(unpack32(x, 1));
    bytes.push(unpack32(x, 2));
    bytes.push(unpack32(x, 3));
    proof {
        assert(bytes@ =~= old(bytes)@ + bytes_of_u32(x));
    }
}

fn push_u128(bytes: &mut Vec<u8>, x: u128)
    ensures
        final(bytes)@ == old(bytes)@ + bytes_of_u128(x),
{
    let high = (x / 0x1_0000_0000_0000_0000) as u64;
    let low = (x % 0x1_0000_0000_0000_0000) as u64;
    let mut i: usize = 0;
    while i < 16
        invariant
            i <= 16,
            high == (x / 0x1_0000_0000_0000_0000) as u64,
            low == (x % 0x1_0000_0000_0000_0000) as u64,
            bytes@ == old(bytes)@ + bytes_of_u128(x).take(i as int),
        decreases 16 - i,
    {
        let byte = if i < 8 {
            unpack64(high, i)
        } else {
            unpack64(low, i - 8)
        };
        bytes.push(byte);
        proof {
            assert(bytes_of_u128(x).take(i + 1) =~= bytes_of_u128(x).take(i as int).push(byte));
            assert(bytes@ =~= old(bytes)@ + bytes_of_u128(x).take(i + 1));
        }
        i += 1;
    }
    proof {
        assert(bytes_of_u128(x).take(16) =~= bytes_of_u128(x));
    }
}

/// The token for an address under a secret.
pub fn generate_token(ip: IpAddress, secret: u32) -> (token: Token)
    ensures
        token == spec_token(ip, secret),
{
    let mut input: Vec<u8> = Vec::new();
    match ip {
        IpAddress::V4(x) => push_u32(&mut input, x),
        IpAddress::V6(x) => push_u128(&mut input, x),
    }
    push_u32(&mut input, secret);
    proof {
        assert(input@ =~= token_input(ip, secret));
    }
    let digest = sha1(&input);
    Token::from_digest(digest)
}

impl Token {
    /// The token that is made of a digest: its first four bytes.
    pub fn from_digest(digest: [u8; 20]) -> (token: Token)
        ensures
            token.value == be32(digest@[0], digest@[1], digest@[2], digest@[3]),
    {
        Token { value: pack32(digest[0], digest[1], digest[2], digest[3]) }
    }

    /// The token that four bytes denote, or the length that was offered in place of four.
    pub open spec fn spec_new(bytes: Seq<u8>) -> Result<Token, InvalidTokenLength> {
        if bytes.len() == TOKEN_LEN {
            Ok(Token { value: be32(bytes[0], bytes[1], bytes[2], bytes[3]) as u32 })
        } else {
            Err(InvalidTokenLength { len: bytes.len() as usize })
        }
    }

    /// Reads a token from the bytes of a message.
    pub fn new(bytes: &[u8]) -> (token: Result<Token, InvalidTokenLength>)
        ensures
            token == Token::spec_new(bytes@),
    {
        if bytes.len() != TOKEN_LEN {
            return Err(InvalidTokenLength { len: bytes.len() });
        }
        Ok(Token { value: pack32(bytes[0], bytes[1], bytes[2], bytes[3]) })
    }

    /// The four bytes of the token, to put into a message.
    pub fn to_bytes(&self) -> (bytes: Vec<u8>)
        ensures
            bytes@ == bytes_of_u32(self.value),
            Token::spec_new(bytes@) == Ok::<Token, InvalidTokenLength>(*self),
    {
        let mut bytes: Vec<u8> = Vec::new();
        push_u32(&mut bytes, self.value);
        proof {
            assert(bytes@ =~= bytes_of_u32(self.value));
            crate::id::lemma_bytes_be32(self.value);
        }
        bytes
    }
}

/// The secrets of a token store and the time of their last rotation.
pub struct TokenStoreView {
    pub curr_secret: u32,
    pub last_secret: u32,
    pub last_refresh: Timestamp,
}

impl TokenStoreView {
    /// Whether the secrets are due for rotation at `now`.
    pub open spec fn refresh_due(self, now: Timestamp) -> bool {
        now >= self.last_refresh && now - self.last_refresh >= REFRESH_INTERVAL
    }

    /// The secrets after a call at `now`: where the rotation is due, the
    /// current secret becomes the previous one and `fresh` the current one.
    pub open spec fn refresh(self, now: Timestamp, fresh: u32) -> TokenStoreView {
        if self.refresh_due(now) {
            TokenStoreView { curr_secret: fresh, last_secret: self.curr_secret, last_refresh: now }
        } else {
            self
        }
    }

    /// The store after a token is asked for, and the token: the one for the
    /// address under the secret that is then current.
    pub open spec fn checkout(self, ip: IpAddress, now: Timestamp, fresh: u32) -> (
        TokenStoreView,
        Token,
    ) {
        let after = self.refresh(now, fresh);
        (after, spec_token(ip, after.curr_secret))
    }

    /// The store after a token is offered, and whether it is accepted: it
    /// is if it is the token for the address under the current or the
    /// previous secret.
    pub open spec fn checkin(self, ip: IpAddress, token: Token, now: Timestamp, fresh: u32) -> (
        TokenStoreView,
        bool,
    ) {
        let after = self.refresh(now, fresh);
        (
            after,
            token == spec_token(ip, after.curr_secret) || token == spec_token(
                ip,
                after.last_secret,
            ),
        )
    }
}

/// Issues tokens that are bound to an IP address and validates them later.
pub struct TokenStore {
    curr_secret: u32,
    last_secret: u32,
    last_refresh: Timestamp,
    clock: Clock,
}

impl View for TokenStore {
    type V = TokenStoreView;

    closed spec fn view(&self) -> TokenStoreView {
        TokenStoreView {
            curr_secret: self.curr_secret,
            last_secret: self.last_secret,
            last_refresh: self.last_refresh,
        }
    }
}

impl TokenStore {
    /// A store with two random secrets, which counts the time from now.
    pub fn new() -> TokenStore {
        let clock = Clock::new();
        let last_refresh = clock.now();
        TokenStore {
            curr_secret: random_secret(),
            last_secret: random_secret(),
            last_refresh,
            clock,
        }
    }

    /// A store with the given secrets, last rotated at `last_refresh`.
    pub fn with_secrets(curr_secret: u32, last_secret: u32, last_refresh: Timestamp) -> (store:
        TokenStore)
        ensures
            store@ == (TokenStoreView { curr_secret, last_secret, last_refresh }),
    {
        TokenStore { curr_secret, last_secret, last_refresh, clock: Clock::new() }
    }

    /// The current time on the store's own clock, which `checkout` and `checkin` go by.
    pub fn now(&self) -> Timestamp {
        self.clock.now()
    }

    /// A token for `addr`, at the current time.
    pub fn checkout(&mut self, addr: IpAddress) -> (token: Token)
        ensures
            exists|now: Timestamp, fresh: u32|
                (final(self)@, token) == #[trigger] old(self)@.checkout(addr, now, fresh),
    {
        let now = self.clock.now();
        let fresh = self.draw_secret(now);
        self.checkout_at(addr, now, fresh)
    }

    /// Whether `token` is valid for `addr`, at the current time.
    pub fn checkin(&mut self, addr: IpAddress, token: Token) -> (valid: bool)
        ensures
            exists|now: Timestamp, fresh: u32|
                (final(self)@, valid) == #[trigger] old(self)@.checkin(addr, token, now, fresh),
    {
        let now = self.clock.now();
        let fresh = self.draw_secret(now);
        self.checkin_at(addr, token, now, fresh)
    }

    /// A token for `addr` at `now`; `fresh` becomes the current secret if
    /// the rotation is due.
    pub fn checkout_at(&mut self, addr: IpAddress, now: Timestamp, fresh: u32) -> (token: Token)
        ensures
            (final(self)@, token) == old(self)@.checkout(addr, now, fresh),
    {
        self.refresh_check(now, fresh);
        generate_token(addr, self.curr_secret)
    }

    /// Whether `token` is valid for `addr` at `now`; `fresh` becomes the
    /// current secret if the rotation is due.
    pub fn checkin_at(&mut self, addr: IpAddress, token: Token, now: Timestamp, fresh: u32) -> (valid:
        bool)
        ensures
            (final(self)@, valid) == old(self)@.checkin(addr, token, now, fresh),
    {
        self.refresh_check(now, fresh);
        let current = generate_token(addr, self.curr_secret);
        let previous = generate_token(addr, self.last_secret);
        token == current || token == previous
    }

    /// A secret for a call at `now`: the current secret while the rotation
    /// is not due, and a random number once it is, for which chance decides
    /// and nothing is promised.
    pub fn draw_secret(&self, now: Timestamp) -> (fresh: u32)
        ensures
            !self@.refresh_due(now) ==> fresh == self@.curr_secret,
    {
        if now >= self.last_refresh && now - self.last_refresh >= REFRESH_INTERVAL {
            random_secret()
        } else {
            self.curr_secret
        }
    }

    /// Rotates the secrets if the rotation is due at `now`.
    fn refresh_check(&mut self, now: Timestamp, fresh: u32)
        ensures
            final(self)@ == old(self)@.refresh(now, fresh),
    {
        if now >= self.last_refresh && now - self.last_refresh >= REFRESH_INTERVAL {
            self.last_secret = self.curr_secret;
            self.curr_secret = fresh;
            self.last_refresh = now;
        }
    }
}

/// A token that was handed out for an address is accepted for that address
/// at the next call, whenever that call is made and whether or not the
/// secrets are rotated at it.
pub proof fn lemma_token_round_trip(
    store: TokenStoreView,
    ip: IpAddress,
    out_time: Timestamp,
    out_fresh: u32,
    in_time: Timestamp,
    in_fresh: u32,
)
    ensures
        store.checkout(ip, out_time, out_fresh).0.checkin(
            ip,
            store.checkout(ip, out_time, out_fresh).1,
            in_time,
            in_fresh,
        ).1,
{
}

} // verus!
