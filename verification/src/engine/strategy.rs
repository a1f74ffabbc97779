use vstd::prelude::*;

use fake::Fake;
use hmac::Mac;
use rand::seq::SliceRandom;
use rand::Rng;

use crate::text::{copy_range, DASH, DIGIT_ZERO, DOT, LPAREN, QUOTE, RPAREN, SPACE};

verus! {

#[verifier::external_type_specification]
#[verifier::external_body]
pub struct ExStdRng(rand::rngs::StdRng);

/// How the values of one column are rewritten.
#[derive(Debug, Clone)]
pub enum StrategyConfig {
    /// Keyed pseudonym: hex of HMAC-SHA256 under the secret.
    Hmac,
    /// Laplace noise for numbers.  The two parameters are `f64` bit patterns.
    DpLaplace { epsilon: u64, sensitivity: u64 },
    FakerName,
    FakerEmail,
    FakeCreditCard,
    FakerPhoneBr,
    FakerIp,
    RandomUuid,
    Cpf,
    Cnpj,
    Nullify,
    Fixed { value: Vec<u8> },
    RandomChoice { options: Vec<Vec<u8>> },
    RandomString { length: usize },
}

// ---------------------------------------------------------------------------
// Text shapes
// ---------------------------------------------------------------------------

pub open spec fn is_digit(b: u8) -> bool {
    DIGIT_ZERO <= b && b <= 57
}

pub open spec fn is_lower_hex(b: u8) -> bool {
    is_digit(b) || (97 <= b && b <= 102)
}

/// An ASCII letter or an apostrophe: the bytes of the English names that
/// `fake` draws from.
pub open spec fn is_name_byte(b: u8) -> bool {
    (65 <= b <= 90) || (97 <= b <= 122) || b == QUOTE
}

/// `x` is a first name, one space at place `k`, and a last name, both
/// non-empty and made of name bytes.
pub open spec fn name_split_at(x: Seq<u8>, k: int) -> bool {
    &&& 0 < k < x.len() - 1
    &&& x[k] == SPACE
    &&& forall|i: int| 0 <= i < x.len() && i != k ==> is_name_byte(#[trigger] x[i])
}

/// The shape of a generated full name: `First Last`.
pub open spec fn full_name_shape(x: Seq<u8>) -> bool {
    exists|k: int| #[trigger] name_split_at(x, k)
}

pub open spec fn is_alphanumeric(b: u8) -> bool {
    is_digit(b) || (65 <= b && b <= 90) || (97 <= b && b <= 122)
}

/// The last `width` decimal digits of `n`, zero-padded: for
/// `n < 10^width` this is what `{:0width$}` prints.
pub open spec fn pad_decimal(n: nat, width: nat) -> Seq<u8>
    decreases width,
{
    if width == 0 {
        Seq::empty()
    } else {
        pad_decimal(n / 10, (width - 1) as nat).push((DIGIT_ZERO + n % 10) as u8)
    }
}

/// `n` in decimal, without leading zeros.
pub open spec fn decimal(n: nat) -> Seq<u8>
    decreases n,
{
    if n < 10 {
        seq![(DIGIT_ZERO + n) as u8]
    } else {
        decimal(n / 10).push((DIGIT_ZERO + n % 10) as u8)
    }
}

/// `aaaa-bbbb-cccc-dddd`
pub open spec fn credit_card_text(a: nat, b: nat, c: nat, d: nat) -> Seq<u8> {
    pad_decimal(a, 4).push(DASH) + pad_decimal(b, 4).push(DASH) + pad_decimal(c, 4).push(DASH)
        + pad_decimal(d, 4)
}

/// `(aa) 9bbbb-cccc`
pub open spec fn phone_br_text(a: nat, b: nat, c: nat) -> Seq<u8> {
    seq![LPAREN] + pad_decimal(a, 2) + seq![RPAREN, SPACE, 57u8] + pad_decimal(b, 4).push(DASH)
        + pad_decimal(c, 4)
}

/// `a.b.c.d` with each part a byte in decimal.
pub open spec fn ipv4_text(a: u8, b: u8, c: u8, d: u8) -> Seq<u8> {
    decimal(a as nat).push(DOT) + decimal(b as nat).push(DOT) + decimal(c as nat).push(DOT)
        + decimal(d as nat)
}

/// `@example.`
pub open spec fn example_domain() -> Seq<u8> {
    seq![64u8, 101, 120, 97, 109, 112, 108, 101, 46]
}

/// An address at `example.com`, `example.net` or `example.org`.
pub open spec fn safe_email_shape(s: Seq<u8>) -> bool {
    exists|user: Seq<u8>|
        s == user + example_domain() + seq![99u8, 111, 109] || s == user + example_domain()
            + seq![110u8, 101, 116] || s == user + example_domain() + seq![111u8, 114, 103]
}

/// A version-4 UUID in hyphenated lower-case form.
pub open spec fn uuid_v4_shape(s: Seq<u8>) -> bool {
    &&& s.len() == 36
    &&& forall|i: int|
        0 <= i < 36 ==> if i == 8 || i == 13 || i == 18 || i == 23 {
            s[i] == DASH
        } else {
            is_lower_hex(#[trigger] s[i])
        }
    &&& s[14] == 52u8
    &&& (s[19] == 56u8 || s[19] == 57u8 || s[19] == 97u8 || s[19] == 98u8)
}

/// The value of a decimal digit byte.
pub open spec fn digit_value(b: u8) -> int {
    b - DIGIT_ZERO
}

/// Sum of the first `n` digits of `s`, the `i`-th weighted by `top - i`.
pub open spec fn cpf_weighted(s: Seq<u8>, n: nat, top: int) -> int
    decreases n,
{
    if n == 0 {
        0
    } else {
        cpf_weighted(s, (n - 1) as nat, top) + digit_value(s[n - 1]) * (top - (n - 1))
    }
}

pub open spec fn cpf_check(sum: int) -> int {
    if (sum * 10) % 11 == 10 {
        0
    } else {
        (sum * 10) % 11
    }
}

/// Eleven digits whose last two are the CPF check digits of the others.
pub open spec fn valid_cpf_digits(s: Seq<u8>) -> bool {
    &&& s.len() == 11
    &&& forall|i: int| 0 <= i < 11 ==> is_digit(#[trigger] s[i])
    &&& digit_value(s[9]) == cpf_check(cpf_weighted(s, 9, 10))
    &&& digit_value(s[10]) == cpf_check(cpf_weighted(s, 10, 11))
}

/// Sum of the digits of `s` weighted by `w`, over the length of `w`.
pub open spec fn cnpj_weighted(s: Seq<u8>, w: Seq<int>) -> int
    decreases w.len(),
{
    if w.len() == 0 {
        0
    } else {
        cnpj_weighted(s, w.drop_last()) + digit_value(s[w.len() - 1]) * w.last()
    }
}

pub open spec fn cnpj_check(sum: int) -> int {
    if sum % 11 < 2 {
        0
    } else {
        11 - sum % 11
    }
}

/// Fourteen digits of a head office (`0001` in places 8 to 11) whose last
/// two are the CNPJ check digits of the others.
pub open spec fn valid_cnpj_digits(s: Seq<u8>) -> bool {
    &&& s.len() == 14
    &&& forall|i: int| 0 <= i < 14 ==> is_digit(#[trigger] s[i])
    &&& s[8] == DIGIT_ZERO && s[9] == DIGIT_ZERO && s[10] == DIGIT_ZERO && s[11] == 49u8
    &&& digit_value(s[12]) == cnpj_check(
        cnpj_weighted(s, seq![5int, 4, 3, 2, 9, 8, 7, 6, 5, 4, 3, 2]),
    )
    &&& digit_value(s[13]) == cnpj_check(
        cnpj_weighted(s, seq![6int, 5, 4, 3, 2, 9, 8, 7, 6, 5, 4, 3, 2]),
    )
}

/// A lower-case hex digit for `n < 16`.
pub open spec fn hex_digit(n: u8) -> u8 {
    if n < 10 {
        (DIGIT_ZERO + n) as u8
    } else {
        (87 + n) as u8
    }
}

/// Lower-case hex of `bytes`, two digits per byte.
pub open spec fn lower_hex(bytes: Seq<u8>) -> Seq<u8>
    decreases bytes.len(),
{
    if bytes.len() == 0 {
        Seq::empty()
    } else {
        lower_hex(bytes.drop_last()).push(hex_digit(bytes.last() / 16)).push(
            hex_digit(bytes.last() % 16),
        )
    }
}

// ---------------------------------------------------------------------------
// Calls into outside crates
// ---------------------------------------------------------------------------

/// The HMAC-SHA256 tag of `msg` under `key`.
pub uninterp spec fn hmac_sha256_tag(key: Seq<u8>, msg: Seq<u8>) -> Seq<u8>;

/// `hmac::Hmac<sha2::Sha256>`: keyed with `Mac::new_from_slice`, fed with
/// `Mac::update` and closed with `Mac::finalize`.  The contract claims the
/// tag is the HMAC-SHA256 of `msg` under `key` (named, not defined here)
/// and is 32 bytes long.  `new_from_slice` accepts keys of any length for
/// HMAC, so the `expect` never fires.
#[verifier::external_body]
fn hmac_sha256(key: &[u8], msg: &[u8]) -> (tag: Vec<u8>)
    ensures
        tag@ == hmac_sha256_tag(key@, msg@),
        tag@.len() == 32,
{
    let mut mac = <hmac::Hmac<sha2::Sha256> as Mac>::new_from_slice(key).expect(
        "HMAC accepts keys of any length",
    );
    mac.update(msg);
    mac.finalize().into_bytes().to_vec()
}

/// `hex::encode`: lower-case hex, two digits per byte.
#[verifier::external_body]
fn hex_encode(bytes: &[u8]) -> (text: Vec<u8>)
    ensures
        text@ == lower_hex(bytes@),
{
    hex::encode(bytes).into_bytes()
}

/// `rand::Rng::gen_range` over `low..=high`: a number in that range.
#[verifier::external_body]
fn random_in_range(rng: &mut rand::rngs::StdRng, low: u32, high: u32) -> (n: u32)
    requires
        low <= high,
    ensures
        low <= n <= high,
{
    rng.gen_range(low..=high)
}

/// `rand::Rng::sample_iter` with `rand::distributions::Alphanumeric`,
/// taking `length` samples: that many bytes from `[A-Za-z0-9]`.
#[verifier::external_body]
fn random_alphanumeric(rng: &mut rand::rngs::StdRng, length: usize) -> (s: Vec<u8>)
    ensures
        s@.len() == length,
        forall|i: int| 0 <= i < length ==> is_alphanumeric(#[trigger] s@[i]),
{
    rng.sample_iter(&rand::distributions::Alphanumeric).take(length).collect()
}

/// `rand::seq::SliceRandom::choose`: one of the options, or `None` when
/// there are none.  Which one is left to chance.
#[verifier::external_body]
fn choose_option(options: &[Vec<u8>], rng: &mut rand::rngs::StdRng) -> (r: Option<Vec<u8>>)
    ensures
        r is None <==> options@.len() == 0,
        r matches Some(x) ==> exists|i: int| 0 <= i < options@.len() && options@[i]@ == x@,
{
    options.choose(rng).cloned()
}

/// `fake::faker::name::en::Name`: a random English full name, made from
/// the template `{FirstName} {LastName}` with a first and a last name
/// drawn from the crate's lists, which hold non-empty ASCII words of
/// letters and apostrophes.
#[verifier::external_body]
fn fake_name() -> (name: Vec<u8>)
    ensures
        full_name_shape(name@),
{
    fake::faker::name::en::Name().fake::<String>().into_bytes()
}

/// `fake::faker::internet::en::SafeEmail`: a random first name, `@example.`
/// and one of `com`, `net`, `org`.
#[verifier::external_body]
fn fake_safe_email() -> (email: Vec<u8>)
    ensures
        safe_email_shape(email@),
{
    fake::faker::internet::en::SafeEmail().fake::<String>().into_bytes()
}

/// `fake::faker::internet::en::IPv4`: four random bytes in dotted decimal.
#[verifier::external_body]
fn fake_ipv4() -> (ip: Vec<u8>)
    ensures
        exists|a: u8, b: u8, c: u8, d: u8| ip@ == ipv4_text(a, b, c, d),
{
    fake::faker::internet::en::IPv4().fake::<String>().into_bytes()
}

/// `uuid::Uuid::new_v4` printed with `to_string`: a random version-4 UUID
/// in hyphenated lower-case hex.
#[verifier::external_body]
fn uuid_v4_text() -> (text: Vec<u8>)
    ensures
        uuid_v4_shape(text@),
{
    uuid::Uuid::new_v4().to_string().into_bytes()
}

/// `cpf_cnpj::cpf::generate`: nine random digits and their two check digits.
#[verifier::external_body]
fn cpf_generate() -> (cpf: Vec<u8>)
    ensures
        valid_cpf_digits(cpf@),
{
    cpf_cnpj::cpf::generate().into_bytes()
}

/// `cpf_cnpj::cnpj::generate`: eight random digits, `0001` and the two
/// check digits.
#[verifier::external_body]
fn cnpj_generate() -> (cnpj: Vec<u8>)
    ensures
        valid_cnpj_digits(cnpj@),
{
    cpf_cnpj::cnpj::generate().into_bytes()
}

// ---------------------------------------------------------------------------
// Generated values
// ---------------------------------------------------------------------------

/// Appends the last `width` decimal digits of `n`, zero-padded.
fn push_padded(out: &mut Vec<u8>, n: u32, width: usize)
    ensures
        final(out)@ == old(out)@ + pad_decimal(n as nat, width as nat),
    decreases width,
{
    if width > 0 {
        push_padded(out, n / 10, width - 1);
        let ghost mid = out@;
        out.push(DIGIT_ZERO + (n % 10) as u8);
        assert(out@ =~= old(out)@ + pad_decimal((n / 10) as nat, (width - 1) as nat).push(
            (DIGIT_ZERO + n % 10) as u8,
        ));
    }
}

/// The card number `aaaa-bbbb-cccc-dddd`: the last four decimal digits of
/// each number, zero-padded.
pub fn format_credit_card(a: u32, b: u32, c: u32, d: u32) -> (card: Vec<u8>)
    ensures
        card@ == credit_card_text(a as nat, b as nat, c as nat, d as nat),
{
    let mut card: Vec<u8> = Vec::with_capacity(19);
    push_padded(&mut card, a, 4);
    card.push(DASH);
    push_padded(&mut card, b, 4);
    card.push(DASH);
    push_padded(&mut card, c, 4);
    card.push(DASH);
    push_padded(&mut card, d, 4);
    assert(card@ =~= credit_card_text(a as nat, b as nat, c as nat, d as nat));
    card
}

/// A random card number `aaaa-bbbb-cccc-dddd`, each group zero-padded.
pub fn generate_fake_credit_card(rng: &mut rand::rngs::StdRng) -> (card: Vec<u8>)
    ensures
        exists|a: nat, b: nat, c: nat, d: nat|
            a <= 9999 && b <= 9999 && c <= 9999 && d <= 9999 && card@ == credit_card_text(
                a,
                b,
                c,
                d,
            ),
{
    let a = random_in_range(rng, 0, 9999);
    let b = random_in_range(rng, 0, 9999);
    let c = random_in_range(rng, 0, 9999);
    let d = random_in_range(rng, 0, 9999);
    format_credit_card(a, b, c, d)
}

/// The Brazilian mobile number `(aa) 9bbbb-cccc`: the last two decimal
/// digits of `a` and the last four of `b` and `c`, zero-padded.
pub fn format_phone_br(a: u32, b: u32, c: u32) -> (phone: Vec<u8>)
    ensures
        phone@ == phone_br_text(a as nat, b as nat, c as nat),
{
    let mut phone: Vec<u8> = Vec::with_capacity(15);
    phone.push(LPAREN);
    push_padded(&mut phone, a, 2);
    phone.push(RPAREN);
    phone.push(SPACE);
    phone.push(57);
    push_padded(&mut phone, b, 4);
    phone.push(DASH);
    push_padded(&mut phone, c, 4);
    assert(phone@ =~= phone_br_text(a as nat, b as nat, c as nat));
    phone
}

/// A random Brazilian mobile number `(aa) 9bbbb-cccc`, area code 11 to 99.
pub fn generate_fake_phone_br(rng: &mut rand::rngs::StdRng) -> (phone: Vec<u8>)
    ensures
        exists|a: nat, b: nat, c: nat|
            11 <= a <= 99 && b <= 9999 && c <= 9999 && phone@ == phone_br_text(a, b, c),
{
    let a = random_in_range(rng, 11, 99);
    let b = random_in_range(rng, 0, 9999);
    let c = random_in_range(rng, 0, 9999);
    format_phone_br(a, b, c)
}

/// Pseudonym of `val`: lower-case hex of its HMAC-SHA256 under `secret`.
pub fn hmac_hash(val: &[u8], secret: &[u8]) -> (digest: Vec<u8>)
    ensures
        digest@ == lower_hex(hmac_sha256_tag(secret@, val@)),
        digest@.len() == 64,
        forall|i: int| 0 <= i < 64 ==> is_lower_hex(#[trigger] digest@[i]),
{
    let tag = hmac_sha256(secret, val);
    proof {
        lemma_lower_hex(tag@);
    }
    hex_encode(tag.as_slice())
}

// ---------------------------------------------------------------------------
// Applying a strategy
// ---------------------------------------------------------------------------

pub open spec fn opt_view(o: Option<&[u8]>) -> Option<Seq<u8>> {
    match o {
        Some(v) => Some(v@),
        None => None,
    }
}

/// The text that the noise mechanism is given: the value, or `0` when there is none.
pub open spec fn dp_input(original: Option<Seq<u8>>) -> Seq<u8> {
    match original {
        Some(v) => v,
        None => seq![DIGIT_ZERO],
    }
}

/// `noise` may give `out` for the number text `input` with parameters `e` and `s`.
pub open spec fn noise_gives<N: Fn(&[u8], u64, u64) -> Vec<u8>>(
    noise: N,
    input: Seq<u8>,
    e: u64,
    s: u64,
    out: Seq<u8>,
) -> bool {
    exists|a: &[u8], x: Vec<u8>| a@ == input && #[trigger] noise.ensures((a, e, s), x) && x@ == out
}

impl StrategyConfig {
    /// What applying this strategy may give: `allows`, and for `DpLaplace`
    /// what the noise mechanism gives for the value (or `0`).
    pub open spec fn gives<N: Fn(&[u8], u64, u64) -> Vec<u8>>(
        &self,
        noise: N,
        original: Option<Seq<u8>>,
        secret: Seq<u8>,
        r: Option<Seq<u8>>,
    ) -> bool {
        &&& self.allows(original, secret, r)
        &&& (self matches StrategyConfig::DpLaplace { epsilon, sensitivity } ==> r matches Some(x)
            && noise_gives(noise, dp_input(original), *epsilon, *sensitivity, x))
    }

    /// What applying this strategy to `original` may give, with `secret` as
    /// the pseudonym key.  Exact for the deterministic strategies; for the
    /// random ones, the shape that every outcome has.
    pub open spec fn allows(
        &self,
        original: Option<Seq<u8>>,
        secret: Seq<u8>,
        r: Option<Seq<u8>>,
    ) -> bool {
        match self {
            StrategyConfig::Hmac => r == Some(
                lower_hex(
                    hmac_sha256_tag(
                        secret,
                        match original {
                            Some(v) => v,
                            None => Seq::empty(),
                        },
                    ),
                ),
            ),
            StrategyConfig::DpLaplace { .. } => r is Some,
            StrategyConfig::FakerName => r matches Some(x) && full_name_shape(x),
            StrategyConfig::FakerEmail => r matches Some(x) && safe_email_shape(x),
            StrategyConfig::FakeCreditCard => r matches Some(x) && exists|a: nat, b: nat, c: nat, d: nat|
                a <= 9999 && b <= 9999 && c <= 9999 && d <= 9999 && x == credit_card_text(
                    a,
                    b,
                    c,
                    d,
                ),
            StrategyConfig::FakerPhoneBr => r matches Some(x) && exists|a: nat, b: nat, c: nat|
                11 <= a <= 99 && b <= 9999 && c <= 9999 && x == phone_br_text(a, b, c),
            StrategyConfig::FakerIp => r matches Some(x) && exists|a: u8, b: u8, c: u8, d: u8|
                x == ipv4_text(a, b, c, d),
            StrategyConfig::RandomUuid => r matches Some(x) && uuid_v4_shape(x),
            StrategyConfig::Cpf => r matches Some(x) && valid_cpf_digits(x),
            StrategyConfig::Cnpj => r matches Some(x) && valid_cnpj_digits(x),
            StrategyConfig::Nullify => r is None,
            StrategyConfig::Fixed { value } => r == Some(value@),
            StrategyConfig::RandomChoice { options } => r matches Some(x) && if options@.len()
                == 0 {
                x == Seq::<u8>::empty()
            } else {
                exists|i: int| 0 <= i < options@.len() && options@[i]@ == x
            },
            StrategyConfig::RandomString { length } => r matches Some(x) && x.len() == *length
                && forall|i: int| 0 <= i < x.len() ==> is_alphanumeric(#[trigger] x[i]),
        }
    }

    /// Whether applying this strategy draws from the caller's random
    /// number generator.
    pub open spec fn uses_rng(&self) -> bool {
        ||| self is FakeCreditCard
        ||| self is FakerPhoneBr
        ||| self is RandomChoice
        ||| self is RandomString
    }

    /// Rewrites one value.  `None` means the column is to be emptied.
    /// `noise` perturbs a number given as text, with the `epsilon` and
    /// `sensitivity` bit patterns of a `DpLaplace` strategy.
    pub fn apply<N: Fn(&[u8], u64, u64) -> Vec<u8>>(
        &self,
        original_value: Option<&[u8]>,
        rng: &mut rand::rngs::StdRng,
        secret: &[u8],
        noise: &N,
    ) -> (r: Option<Vec<u8>>)
        requires
            forall|v: &[u8], e: u64, s: u64| #[trigger] noise.requires((v, e, s)),
        ensures
            self.gives(*noise, opt_view(original_value), secret@, r.deep_view()),
            !self.uses_rng() ==> *final(rng) == *old(rng),
    {
        let r = match self {
            StrategyConfig::FakerName => Some(fake_name()),
            StrategyConfig::FakerEmail => Some(fake_safe_email()),
            StrategyConfig::FakerIp => Some(fake_ipv4()),
            StrategyConfig::RandomUuid => Some(uuid_v4_text()),
            StrategyConfig::FakeCreditCard => Some(generate_fake_credit_card(rng)),
            StrategyConfig::FakerPhoneBr => Some(generate_fake_phone_br(rng)),
            StrategyConfig::Cpf => Some(cpf_generate()),
            StrategyConfig::Cnpj => Some(cnpj_generate()),
            StrategyConfig::Fixed { value } => {
                let copy = copy_range(value.as_slice(), 0, value.len());
                assert(copy@ =~= value@);
                Some(copy)
            },
            StrategyConfig::Nullify => None,
            StrategyConfig::RandomChoice { options } => match choose_option(
                options.as_slice(),
                rng,
            ) {
                Some(choice) => Some(choice),
                None => Some(Vec::new()),
            },
            StrategyConfig::Hmac => {
                let empty: [u8; 0] = [];
                let val: &[u8] = match original_value {
                    Some(v) => v,
                    None => empty.as_slice(),
                };
                assert(empty@ =~= Seq::<u8>::empty());
                Some(hmac_hash(val, secret))
            },
            StrategyConfig::DpLaplace { epsilon, sensitivity } => {
                let zero: [u8; 1] = [DIGIT_ZERO];
                let val: &[u8] = match original_value {
                    Some(v) => v,
                    None => zero.as_slice(),
                };
                assert(zero@ =~= seq![DIGIT_ZERO]);
                let noisy = noise(val, *epsilon, *sensitivity);
                Some(noisy)
            },
            StrategyConfig::RandomString { length } => Some(random_alphanumeric(rng, *length)),
        };
        proof {
            match &r {
                Some(x) => {
                    assert(x.deep_view() =~= x@);
                },
                None => {},
            }
        }
        r
    }
}

// ---------------------------------------------------------------------------
// Laws
// ---------------------------------------------------------------------------

pub proof fn lemma_pad_decimal_digits(n: nat, width: nat)
    ensures
        pad_decimal(n, width).len() == width,
        forall|i: int| 0 <= i < width ==> is_digit(#[trigger] pad_decimal(n, width)[i]),
    decreases width,
{
    if width > 0 {
        lemma_pad_decimal_digits(n / 10, (width - 1) as nat);
    }
}

pub proof fn lemma_lower_hex(bytes: Seq<u8>)
    ensures
        lower_hex(bytes).len() == 2 * bytes.len(),
        forall|i: int| 0 <= i < lower_hex(bytes).len() ==> is_lower_hex(#[trigger] lower_hex(bytes)[i]),
    decreases bytes.len(),
{
    if bytes.len() > 0 {
        lemma_lower_hex(bytes.drop_last());
    }
}

/// Law (pseudonyms keep joins): the `Hmac` strategy has one outcome per
/// value and secret, so equal values get equal pseudonyms wherever they
/// appear, and each pseudonym is 64 lower-case hex digits.
pub proof fn law_pseudonym(v: Seq<u8>, secret: Seq<u8>, r1: Option<Seq<u8>>, r2: Option<Seq<u8>>)
    requires
        StrategyConfig::Hmac.allows(Some(v), secret, r1),
        StrategyConfig::Hmac.allows(Some(v), secret, r2),
        hmac_sha256_tag(secret, v).len() == 32,
    ensures
        r1 == r2,
        r1 matches Some(p) && p.len() == 64 && forall|i: int|
            0 <= i < 64 ==> is_lower_hex(#[trigger] p[i]),
{
    lemma_lower_hex(hmac_sha256_tag(secret, v));
}

/// Law (card numbers): a generated card number is 19 bytes, four groups of
/// four digits with dashes at places 4, 9 and 14.
pub proof fn law_credit_card_shape(a: nat, b: nat, c: nat, d: nat)
    ensures
        credit_card_text(a, b, c, d).len() == 19,
        forall|i: int|
            0 <= i < 19 ==> if i == 4 || i == 9 || i == 14 {
                #[trigger] credit_card_text(a, b, c, d)[i] == DASH
            } else {
                is_digit(credit_card_text(a, b, c, d)[i])
            },
{
    lemma_pad_decimal_digits(a, 4);
    lemma_pad_decimal_digits(b, 4);
    lemma_pad_decimal_digits(c, 4);
    lemma_pad_decimal_digits(d, 4);
    let t = credit_card_text(a, b, c, d);
    assert forall|i: int| 0 <= i < 19 implies if i == 4 || i == 9 || i == 14 {
        #[trigger] t[i] == DASH
    } else {
        is_digit(t[i])
    } by {
        if i < 4 {
            assert(t[i] == pad_decimal(a, 4)[i]);
        } else if 4 < i < 9 {
            assert(t[i] == pad_decimal(b, 4)[i - 5]);
        } else if 9 < i < 14 {
            assert(t[i] == pad_decimal(c, 4)[i - 10]);
        } else if 14 < i {
            assert(t[i] == pad_decimal(d, 4)[i - 15]);
        }
    }
}

/// Law (phone numbers): a generated phone number is 15 bytes:
/// `(`, two digits, `) 9`, four digits, `-`, four digits.
pub proof fn law_phone_br_shape(a: nat, b: nat, c: nat)
    ensures
        phone_br_text(a, b, c).len() == 15,
        phone_br_text(a, b, c)[0] == LPAREN,
        phone_br_text(a, b, c)[3] == RPAREN,
        phone_br_text(a, b, c)[10] == DASH,
        forall|i: int|
            (1 <= i < 3 || 5 <= i < 10 || 11 <= i < 15) ==> is_digit(
                #[trigger] phone_br_text(a, b, c)[i],
            ),
{
    lemma_pad_decimal_digits(a, 2);
    lemma_pad_decimal_digits(b, 4);
    lemma_pad_decimal_digits(c, 4);
    let t = phone_br_text(a, b, c);
    assert forall|i: int| (1 <= i < 3 || 5 <= i < 10 || 11 <= i < 15) implies is_digit(
        #[trigger] t[i],
    ) by {
        if i < 3 {
            assert(t[i] == pad_decimal(a, 2)[i - 1]);
        } else if i == 5 {
            assert(t[i] == 57u8);
        } else if i < 10 {
            assert(t[i] == pad_decimal(b, 4)[i - 6]);
        } else {
            assert(t[i] == pad_decimal(c, 4)[i - 11]);
        }
    }
}

} // verus!
