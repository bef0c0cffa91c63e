//! One-time passwords that follow the clock.
//!
//! A stored value is either an `otpauth://totp/…` URL, which says algorithm, digits
//! and step, or a bare base32 secret, for which SHA-1, six digits and thirty
//! seconds are taken. The length of the secret is not checked: many services issue
//! short ones.

use vstd::prelude::*;

use crate::error;
use crate::error::{Error, Failure};
use crate::guard::Guarded;
use crate::text;
use crate::text::{begins_with, copy_text, to_chars, trim};

verus! {

/// The hash of a one-time password.
#[derive(Debug, Clone, Copy, PartialEq, Eq, Structural)]
pub enum Digest {
    /// SHA-1.
    Sha1,
    /// SHA-256.
    Sha256,
    /// SHA-512.
    Sha512,
}

/// What `totp_rs::TOTP::from_url_unchecked` reads from a URL: hash, digits, step and
/// secret; or the text of its error.
pub uninterp spec fn otp_url(url: Seq<char>) -> Result<(Digest, usize, u64, Seq<u8>), Seq<char>>;

/// The bytes that `totp_rs::Secret::to_bytes` decodes from base32.
pub uninterp spec fn base32_secret(s: Seq<char>) -> Option<Seq<u8>>;

/// The code that `totp_rs::TOTP::generate` makes for a counter, the number of steps
/// since the epoch.
pub uninterp spec fn otp_code(
    digest: Digest,
    digits: usize,
    secret: Seq<u8>,
    counter: u64,
) -> Seq<char>;

/// Calls `totp_rs::TOTP::from_url_unchecked` and takes the fields that codes depend
/// on. It panics on a URL without a host; only texts that begin as an `otpauth` URL
/// with a host part are handed to it.
#[verifier::external_body]
fn otp_from_url(url: &str) -> (r: Result<(Digest, usize, u64, Vec<u8>), String>)
    requires
        scheme().is_prefix_of(url@),
        !hostless(url@),
    ensures
        match otp_url(url@) {
            Ok(o) => r matches Ok(t) && t.0 == o.0 && t.1 == o.1 && t.2 == o.2 && t.3@ == o.3,
            Err(m) => r matches Err(s) && s@ == m,
        },
{
    let otp = totp_rs::TOTP::from_url_unchecked(url).map_err(|e| e.to_string())?;
    let digest = match otp.algorithm {
        totp_rs::Algorithm::SHA1 => Digest::Sha1,
        totp_rs::Algorithm::SHA256 => Digest::Sha256,
        totp_rs::Algorithm::SHA512 => Digest::Sha512,
    };
    Ok((digest, otp.digits, otp.step, otp.secret))
}

/// Calls `totp_rs::Secret::to_bytes` on an encoded secret. It has one error only,
/// whose text is stated.
#[verifier::external_body]
fn decode_base32(s: &str) -> (r: Result<Vec<u8>, String>)
    ensures
        match base32_secret(s@) {
            Some(bytes) => r matches Ok(b) && b@ == bytes,
            None => r matches Err(m) && m@ == "Could not decode base32 secret."@,
        },
{
    totp_rs::Secret::Encoded(s.to_owned()).to_bytes().map_err(|e| e.to_string())
}

/// Calls `totp_rs::TOTP::generate`. The code depends on the time by the number of
/// steps since the epoch only. It is padded with zeros to the number of digits. A
/// step of zero, and ten digits or more, are left out: there it panics.
#[verifier::external_body]
fn generate(digest: Digest, digits: usize, step: u64, secret: &[u8], time: u64) -> (r: String)
    requires
        step > 0,
        digits < 10,
    ensures
        r@ == otp_code(digest, digits, secret@, (time / step) as u64),
        digits > 0 ==> r@.len() == digits,
        forall|i: int| 0 <= i < r@.len() ==> '0' <= #[trigger] r@[i] <= '9',
{
    let algorithm = match digest {
        Digest::Sha1 => totp_rs::Algorithm::SHA1,
        Digest::Sha256 => totp_rs::Algorithm::SHA256,
        Digest::Sha512 => totp_rs::Algorithm::SHA512,
    };
    let key = secret.to_vec();
    totp_rs::TOTP::new_unchecked(algorithm, digits, 1, step, key, None, String::new())
        .generate(time)
}

/// Reads the system clock with `std::time::SystemTime::now`: the seconds since the
/// epoch, or the text of the error where the clock stands before it.
#[verifier::external_body]
pub(crate) fn clock() -> (r: Result<u64, String>) {
    std::time::SystemTime::now()
        .duration_since(std::time::UNIX_EPOCH)
        .map(|d| d.as_secs())
        .map_err(|e| e.to_string())
}

// ---------------------------------------------------------------------------
// URLs
// ---------------------------------------------------------------------------

/// What an `otpauth` URL begins with.
pub open spec fn scheme() -> Seq<char> {
    seq!['o', 't', 'p', 'a', 'u', 't', 'h', ':', '/', '/']
}

/// A text without the control characters and blanks that end it.
pub open spec fn without_tail(s: Seq<char>) -> Seq<char>
    decreases s.len(),
{
    if s.len() > 0 && s.last() <= ' ' {
        without_tail(s.drop_last())
    } else {
        s
    }
}

/// A text without tabs and line breaks.
pub open spec fn without_breaks(s: Seq<char>) -> Seq<char>
    decreases s.len(),
{
    if s.len() == 0 {
        s
    } else {
        let before = without_breaks(s.drop_last());
        if s.last() == '\t' || s.last() == '\n' || s.last() == '\r' {
            before
        } else {
            before.push(s.last())
        }
    }
}

/// What stands before the first slash, question mark or hash.
pub open spec fn authority(s: Seq<char>) -> Seq<char>
    decreases s.len(),
{
    if s.len() == 0 {
        s
    } else {
        let before = authority(s.drop_last());
        if before.len() < s.len() - 1 || s.last() == '/' || s.last() == '?' || s.last() == '#' {
            before
        } else {
            before.push(s.last())
        }
    }
}

/// Whether an `otpauth` URL has no host: nothing stands where it would be, or a
/// user part alone.
pub open spec fn hostless(url: Seq<char>) -> bool {
    let rest = without_breaks(without_tail(url.skip(scheme().len() as int)));
    scheme().is_prefix_of(url) && (authority(rest).len() == 0 || authority(rest) == seq![
        ':',
        '@',
    ] || rest == seq!['@'])
}

fn is_otpauth(cs: &[char]) -> (r: bool)
    ensures
        r == scheme().is_prefix_of(cs@),
{
    let s: Vec<char> = vec!['o', 't', 'p', 'a', 'u', 't', 'h', ':', '/', '/'];
    assert(s@ =~= scheme());
    begins_with(cs, s.as_slice())
}

/// Whether an `otpauth` URL has no host.
pub fn is_hostless(url: &str) -> (r: bool)
    ensures
        r == hostless(url@),
{
    let cs = to_chars(url);
    if !is_otpauth(cs.as_slice()) {
        return false;
    }
    let ghost body = url@.skip(10);
    let mut end: usize = cs.len();
    assert(cs@.subrange(10, end as int) =~= body);
    while end > 10 && cs[end - 1] <= ' '
        invariant
            10 <= end <= cs@.len(),
            cs@ == url@,
            without_tail(cs@.subrange(10, end as int)) == without_tail(body),
        decreases end,
    {
        assert(cs@.subrange(10, end as int).drop_last() =~= cs@.subrange(10, end - 1));
        end = end - 1;
    }
    let ghost kept = cs@.subrange(10, end as int);
    assert(without_tail(kept) == kept) by {
        if end > 10 {
            assert(kept.last() == cs@[end - 1]);
        }
    }
    let mut rest: Vec<char> = Vec::new();
    assert(kept.take(0) =~= Seq::empty());
    for i in 10..end
        invariant
            10 <= i <= end <= cs@.len(),
            kept == cs@.subrange(10, end as int),
            rest@ == without_breaks(kept.take(i - 10)),
    {
        let c = cs[i];
        assert(kept.take(i - 10 + 1).drop_last() =~= kept.take(i - 10));
        assert(kept.take(i - 10 + 1).last() == c);
        if c != '\t' && c != '\n' && c != '\r' {
            rest.push(c);
        }
    }
    assert(kept.take(end - 10) =~= kept);
    let mut host: Vec<char> = Vec::new();
    assert(rest@.take(0) =~= Seq::empty());
    for i in 0..rest.len()
        invariant
            host@ == authority(rest@.take(i as int)),
            host@.len() <= i,
    {
        let c = rest[i];
        assert(rest@.take(i + 1).drop_last() =~= rest@.take(i as int));
        assert(rest@.take(i + 1).last() == c);
        if host.len() == i && c != '/' && c != '?' && c != '#' {
            host.push(c);
        }
    }
    assert(rest@.take(rest@.len() as int) =~= rest@);
    if host.len() == 2 && host[0] == ':' && host[1] == '@' {
        assert(host@ =~= seq![':', '@']);
        return true;
    }
    if rest.len() == 1 && rest[0] == '@' {
        assert(rest@ =~= seq!['@']);
        return true;
    }
    host.len() == 0
}

// ---------------------------------------------------------------------------
// Codes
// ---------------------------------------------------------------------------

/// What codes are made of.
pub struct Otp {
    /// The hash.
    pub digest: Digest,
    /// How many digits a code has.
    pub digits: usize,
    /// How many seconds a code holds.
    pub step: u64,
    /// The secret.
    pub secret: Guarded,
}

/// What an [`Otp`] holds.
#[verifier::ext_equal]
pub struct OtpV {
    pub digest: Digest,
    pub digits: usize,
    pub step: u64,
    pub secret: Seq<u8>,
}

impl View for Otp {
    type V = OtpV;

    open spec fn view(&self) -> OtpV {
        OtpV {
            digest: self.digest,
            digits: self.digits,
            step: self.step,
            secret: self.secret@,
        }
    }
}

/// What a stored value says about codes.
pub open spec fn parsed(value: Seq<char>) -> Result<OtpV, Failure> {
    let t = text::trimmed(value);
    if scheme().is_prefix_of(t) {
        match otp_url(t) {
            Ok(o) => Ok(OtpV { digest: o.0, digits: o.1, step: o.2, secret: o.3 }),
            Err(m) => Err(Failure::InvalidTotp(m)),
        }
    } else {
        match base32_secret(t) {
            Some(secret) => Ok(OtpV { digest: Digest::Sha1, digits: 6, step: 30, secret }),
            None => Err(
                Failure::InvalidTotp("base32 secret: "@ + "Could not decode base32 secret."@),
            ),
        }
    }
}

/// Reads a stored value.
pub fn from_value(value: &str) -> (r: Result<Otp, Error>)
    requires
        !hostless(text::trimmed(value@)),
    ensures
        error::agrees(r, parsed(value@)),
{
    let t = trim(value);
    let cs = to_chars(t.as_str());
    if is_otpauth(cs.as_slice()) {
        match otp_from_url(t.as_str()) {
            Ok((digest, digits, step, secret)) => Ok(
                Otp { digest, digits, step, secret: Guarded::new(secret) },
            ),
            Err(m) => Err(Error::InvalidTotp(m)),
        }
    } else {
        match decode_base32(t.as_str()) {
            Ok(secret) => Ok(
                Otp { digest: Digest::Sha1, digits: 6, step: 30, secret: Guarded::new(secret) },
            ),
            Err(m) => {
                let mut reason = copy_text("base32 secret: ");
                reason.append(m.as_str());
                Err(Error::InvalidTotp(reason))
            },
        }
    }
}

/// A code, and how long it holds.
#[derive(Debug)]
pub struct Code {
    /// The code, padded with zeros.
    pub value: String,
    /// How many seconds it still holds.
    pub remaining_secs: u64,
}

/// Whether codes can be made: the step is not zero, and there are less than ten
/// digits.
pub open spec fn usable(otp: OtpV) -> bool {
    otp.step > 0 && otp.digits < 10
}

/// The code at a time.
pub open spec fn code_text(otp: OtpV, time: u64) -> Seq<char> {
    otp_code(otp.digest, otp.digits, otp.secret, (time / otp.step) as u64)
}

/// How long the code at a time still holds.
pub open spec fn remaining(otp: OtpV, time: u64) -> u64 {
    (otp.step - time % otp.step) as u64
}

/// The code at a time, and how long the one at a time still holds; the clock is
/// read for each.
pub fn code_at(otp: &Otp, time: u64, later: u64) -> (r: Code)
    requires
        usable(otp@),
    ensures
        r.value@ == code_text(otp@, time),
        r.remaining_secs == remaining(otp@, later),
        1 <= r.remaining_secs <= otp@.step,
        otp@.digits > 0 ==> r.value@.len() == otp@.digits,
        forall|i: int| 0 <= i < r.value@.len() ==> '0' <= #[trigger] r.value@[i] <= '9',
{
    let value = generate(otp.digest, otp.digits, otp.step, otp.secret.as_bytes(), time);
    Code { value, remaining_secs: otp.step - later % otp.step }
}

/// Whether a time is what a reading of the clock gave.
pub closed spec fn is_reading(time: u64) -> bool {
    call_ensures(clock, (), Ok::<u64, String>(time))
}

/// Whether a text is that of the error of a clock that could not be read.
pub closed spec fn is_clock_error(reason: String) -> bool {
    call_ensures(clock, (), Err::<u64, String>(reason))
}

/// Reads the clock, and keeps that the time is what it gave.
fn read_clock() -> (r: Result<u64, String>)
    ensures
        match r {
            Ok(time) => is_reading(time),
            Err(reason) => is_clock_error(reason),
        },
{
    asked(clock)
}

/// What a clock gives when it is asked.
fn asked(source: impl Fn() -> Result<u64, String>) -> (r: Result<u64, String>)
    requires
        call_requires(source, ()),
    ensures
        call_ensures(source, (), r),
{
    source()
}

/// What the current code of a stored value is: its error, or the code at a time that
/// the clock gave, with what remains at a time that it gave; or the error of a clock
/// that cannot be read. A code has as many digits as it should, and holds for one
/// step at most.
pub open spec fn is_current(value: Seq<char>, r: Result<Code, Error>) -> bool {
    match parsed(value) {
        Err(f) => r matches Err(e) && e@ == f,
        Ok(otp) => match r {
            Ok(code) => {
                &&& exists|time: u64, later: u64|
                    is_reading(time) && is_reading(later) && code.value@ == #[trigger] code_text(
                        otp,
                        time,
                    ) && code.remaining_secs == #[trigger] remaining(otp, later)
                &&& otp.digits > 0 ==> code.value@.len() == otp.digits
                &&& forall|i: int| 0 <= i < code.value@.len() ==> '0' <= #[trigger] code.value@[i] <= '9'
                &&& 1 <= code.remaining_secs <= otp.step
            },
            Err(e) => exists|reason: String| #[trigger]
                is_clock_error(reason) && e@ == Failure::InvalidTotp(reason@),
        },
    }
}

/// The current code of a stored value. Which code that is depends on the clock; a
/// clock that cannot be read is an error.
pub fn current(value: &str) -> (r: Result<Code, Error>)
    requires
        !hostless(text::trimmed(value@)),
        parsed(value@) matches Ok(otp) ==> usable(otp),
    ensures
        is_current(value@, r),
{
    let otp = match from_value(value) {
        Ok(o) => o,
        Err(e) => {
            return Err(e);
        },
    };
    let time = match read_clock() {
        Ok(t) => t,
        Err(m) => {
            assert(is_clock_error(m));
            return Err(Error::InvalidTotp(m));
        },
    };
    let later = match read_clock() {
        Ok(t) => t,
        Err(m) => {
            assert(is_clock_error(m));
            return Err(Error::InvalidTotp(m));
        },
    };
    Ok(code_at(&otp, time, later))
}

/// The current code of any stored value, where a code can be made: there is none
/// for a URL without a host, a step of zero, or ten digits or more.
pub fn current_if_usable(value: &str) -> (r: Option<Result<Code, Error>>)
    ensures
        r is None <==> hostless(text::trimmed(value@)) || (parsed(value@) matches Ok(otp)
            && !usable(otp)),
        r matches Some(current) ==> is_current(value@, current),
{
    let t = trim(value);
    if is_hostless(t.as_str()) {
        return None;
    }
    match from_value(value) {
        Ok(otp) => {
            if otp.step == 0 || otp.digits >= 10 {
                return None;
            }
        },
        Err(_) => {},
    }
    Some(current(value))
}

// ---------------------------------------------------------------------------
// Laws
// ---------------------------------------------------------------------------

/// A code holds for the whole of its step: at any time within the remaining seconds
/// the code is the same.
pub proof fn law_code_holds_for_its_step(otp: OtpV, time: u64, later: u64)
    requires
        usable(otp),
        time <= later,
        later - time < remaining(otp, time),
    ensures
        code_text(otp, later) == code_text(otp, time),
{
    let step = otp.step as int;
    let t = time as int;
    let l = later as int;
    assert(t % step + (l - t) < step);
    assert(l / step == t / step) by (nonlinear_arith)
        requires
            step > 0,
            0 <= t <= l,
            t % step + (l - t) < step,
    ;
}

/// A stored value that begins as an `otpauth` URL, white space around it aside, says
/// what the URL says; any other value is a secret in base32.
pub proof fn law_value_is_url_or_secret(value: Seq<char>, before: Seq<char>, after: Seq<char>)
    requires
        forall|i: int| 0 <= i < before.len() ==> text::white(#[trigger] before[i]),
        forall|i: int| 0 <= i < after.len() ==> text::white(#[trigger] after[i]),
        value.len() > 0,
        !text::white(value[0]),
        !text::white(value.last()),
    ensures
        ({
            let r = parsed(before + value + after);
            let url = value.len() >= 10 && value.take(10) == seq![
                'o',
                't',
                'p',
                'a',
                'u',
                't',
                'h',
                ':',
                '/',
                '/',
            ];
            &&& url ==> match otp_url(value) {
                Ok(o) => r matches Ok(otp) && otp.digest == o.0 && otp.digits == o.1 && otp.step
                    == o.2 && otp.secret == o.3,
                Err(m) => r == Err::<OtpV, Failure>(Failure::InvalidTotp(m)),
            }
            &&& !url ==> match base32_secret(value) {
                Some(secret) => r matches Ok(otp) && otp.secret == secret && otp.digest
                    == Digest::Sha1 && otp.digits == 6 && otp.step == 30,
                None => r matches Err(e) && e is InvalidTotp,
            }
        }),
{
    text::law_trimmed(before, value, after);
    assert(scheme() =~= seq!['o', 't', 'p', 'a', 'u', 't', 'h', ':', '/', '/']);
    if scheme().is_prefix_of(value) {
        assert(value.take(10) =~= value.subrange(0, 10));
    }
    if value.len() >= 10 && value.take(10) == scheme() {
        assert(value.subrange(0, 10) =~= scheme());
    }
}

/// The current code is that of a time which a reading of the clock gave: the code for
/// the number of whole steps up to that time. What remains is the rest of the step at
/// a time which a reading gave.
pub(crate) proof fn law_current_follows_the_clock(value: Seq<char>, otp: OtpV, code: Code)
    requires
        is_current(value, Ok(code)),
        parsed(value) == Ok::<OtpV, Failure>(otp),
        otp.step > 0,
    ensures
        exists|time: u64| #[trigger]
            call_ensures(clock, (), Ok::<u64, String>(time)) && code.value@ == otp_code(
                otp.digest,
                otp.digits,
                otp.secret,
                (time / otp.step) as u64,
            ),
        exists|later: u64| #[trigger]
            call_ensures(clock, (), Ok::<u64, String>(later)) && (later + code.remaining_secs)
                % otp.step as int == 0,
        1 <= code.remaining_secs <= otp.step,
{
    let (time, later) = choose|time: u64, later: u64|
        is_reading(time) && is_reading(later) && code.value@ == #[trigger] code_text(otp, time)
            && code.remaining_secs == #[trigger] remaining(otp, later);
    assert(call_ensures(clock, (), Ok::<u64, String>(time)));
    assert(call_ensures(clock, (), Ok::<u64, String>(later)));
    let l = later as int;
    let s = otp.step as int;
    assert((l + (s - l % s)) % s == 0) by (nonlinear_arith)
        requires
            s > 0,
            l >= 0,
    ;
}

/// There is no current code only where the value is refused or the clock could not be
/// read.
pub(crate) proof fn law_current_fails_with_the_clock(value: Seq<char>, e: Error)
    requires
        is_current(value, Err(e)),
    ensures
        parsed(value) is Err || exists|reason: String| #[trigger]
            call_ensures(clock, (), Err::<u64, String>(reason)) && e@ == Failure::InvalidTotp(
                reason@,
            ),
{
    if parsed(value) is Ok {
        let reason = choose|reason: String| #[trigger]
            is_clock_error(reason) && e@ == Failure::InvalidTotp(reason@);
        assert(call_ensures(clock, (), Err::<u64, String>(reason)));
    }
}

/// A bare secret has six digits and thirty seconds.
pub proof fn law_bare_secret_defaults(value: Seq<char>)
    requires
        !scheme().is_prefix_of(text::trimmed(value)),
        parsed(value) is Ok,
    ensures
        parsed(value)->Ok_0.digits == 6,
        parsed(value)->Ok_0.step == 30,
        parsed(value)->Ok_0.digest == Digest::Sha1,
        usable(parsed(value)->Ok_0),
{
}

/// A URL whose host begins with an ASCII letter or digit has a host.
pub proof fn law_url_with_host(c: char, rest: Seq<char>)
    requires
        'a' <= c <= 'z' || 'A' <= c <= 'Z' || '0' <= c <= '9',
    ensures
        !hostless(scheme() + seq![c] + rest),
{
    let url = scheme() + seq![c] + rest;
    let body = seq![c] + rest;
    assert(url.skip(scheme().len() as int) =~= body);
    assert(body[0] == c);
    lemma_tail_keeps_first(body);
    lemma_breaks_keep_first(without_tail(body));
    let kept = without_breaks(without_tail(body));
    lemma_authority_keeps_first(kept);
}

/// A text that does not begin as an `otpauth` URL is not one without a host.
pub proof fn law_other_text_has_no_url(s: Seq<char>)
    requires
        s.len() < 10 || s.take(10) != scheme(),
    ensures
        !hostless(s),
{
    if scheme().is_prefix_of(s) {
        assert(s.take(10) =~= s.subrange(0, 10));
    }
}

proof fn lemma_tail_keeps_first(s: Seq<char>)
    requires
        s.len() > 0,
        s[0] > ' ',
    ensures
        without_tail(s).len() > 0,
        without_tail(s)[0] == s[0],
    decreases s.len(),
{
    if s.last() <= ' ' {
        assert(s.len() > 1);
        assert(s.drop_last()[0] == s[0]);
        lemma_tail_keeps_first(s.drop_last());
    }
}

proof fn lemma_breaks_keep_first(s: Seq<char>)
    requires
        s.len() > 0,
        s[0] > ' ',
    ensures
        without_breaks(s).len() > 0,
        without_breaks(s)[0] == s[0],
    decreases s.len(),
{
    if s.len() == 1 {
        assert(s.drop_last() =~= Seq::empty());
        assert(without_breaks(s.drop_last()).len() == 0);
        assert(s.last() == s[0]);
    } else {
        assert(s.drop_last()[0] == s[0]);
        lemma_breaks_keep_first(s.drop_last());
    }
}

proof fn lemma_authority_keeps_first(s: Seq<char>)
    requires
        s.len() > 0,
        s[0] != '/',
        s[0] != '?',
        s[0] != '#',
    ensures
        authority(s).len() > 0,
        authority(s)[0] == s[0],
    decreases s.len(),
{
    if s.len() == 1 {
        assert(s.drop_last() =~= Seq::empty());
        assert(authority(s.drop_last()).len() == 0);
        assert(s.last() == s[0]);
    } else {
        assert(s.drop_last()[0] == s[0]);
        lemma_authority_keeps_first(s.drop_last());
    }
}

/// Codes can be made exactly for a step of at least one second and at most nine digits.
pub proof fn law_usable(otp: OtpV)
    ensures
        usable(otp) <==> otp.step >= 1 && otp.digits <= 9,
{
}

/// A URL in which a slash, a question mark or a hash follows at once, or nothing, has no
/// host.
pub proof fn law_url_without_host(c: char, rest: Seq<char>)
    requires
        c == '/' || c == '?' || c == '#',
    ensures
        hostless(scheme() + seq![c] + rest),
        hostless(scheme()),
{
    let url = scheme() + seq![c] + rest;
    let body = seq![c] + rest;
    assert(url.skip(scheme().len() as int) =~= body);
    assert(url.subrange(0, scheme().len() as int) =~= scheme());
    assert(body[0] == c);
    lemma_tail_keeps_first(body);
    lemma_breaks_keep_first(without_tail(body));
    lemma_authority_of_separator(without_breaks(without_tail(body)));
    assert(scheme().skip(scheme().len() as int) =~= Seq::<char>::empty());
    assert(scheme().subrange(0, scheme().len() as int) =~= scheme());
    assert(without_breaks(without_tail(Seq::<char>::empty())) =~= Seq::<char>::empty());
}

proof fn lemma_authority_of_separator(s: Seq<char>)
    requires
        s.len() > 0,
        s[0] == '/' || s[0] == '?' || s[0] == '#',
    ensures
        authority(s).len() == 0,
    decreases s.len(),
{
    if s.len() == 1 {
        assert(s.drop_last() =~= Seq::empty());
        assert(authority(s.drop_last()).len() == 0);
        assert(s.last() == s[0]);
    } else {
        assert(s.drop_last()[0] == s[0]);
        lemma_authority_of_separator(s.drop_last());
    }
}

} // verus!
