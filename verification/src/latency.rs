//! How long relaying took, by the two clocks that count: the one of Discord, which stands
//! in the id of a message, and the one of Telegram.

use vstd::prelude::*;

use crate::text;

verus! {

/// The first millisecond of 2015, in milliseconds since the epoch: from there Discord
/// counts.
pub const DISCORD_EPOCH_MS: i64 = 1_420_070_400_000;

/// The number that decimal digits stand for, if they all are such digits.
pub open spec fn digits_value(s: Seq<char>) -> Option<nat>
    decreases s.len(),
{
    if s.len() == 0 {
        Some(0)
    } else {
        match digits_value(s.drop_last()) {
            Some(v) if text::is_digit(s.last()) => Some(
                (10 * v + (s.last() as int - '0' as int)) as nat,
            ),
            _ => None,
        }
    }
}

/// The unsigned 64-bit number that a text is: at least one digit, a plus sign before
/// them or not, and no more than fits.
pub open spec fn number_of(s: Seq<char>) -> Option<nat> {
    let digits = if s.len() > 0 && s[0] == '+' {
        s.skip(1)
    } else {
        s
    };
    if digits.len() == 0 {
        None
    } else {
        match digits_value(digits) {
            Some(v) if v <= u64::MAX => Some(v),
            _ => None,
        }
    }
}

proof fn lemma_digits_prefix(s: Seq<char>, n: int)
    requires
        0 <= n <= s.len(),
    ensures
        digits_value(s.take(n)) is None ==> digits_value(s) is None,
        digits_value(s) matches Some(v) ==> (digits_value(s.take(n)) matches Some(w) && w <= v),
    decreases s.len() - n,
{
    if n == s.len() {
        assert(s.take(n) =~= s);
    } else {
        assert(s.take(n + 1).drop_last() =~= s.take(n));
        lemma_digits_prefix(s, n + 1);
    }
}

/// Read an unsigned 64-bit number.
pub fn parse_number(s: &str) -> (r: Option<u64>)
    ensures
        match r {
            Some(n) => number_of(s@) == Some(n as nat),
            None => number_of(s@) is None,
        },
{
    let v: Vec<char> = text::chars_of(s);
    let start: usize = if v.len() > 0 && v[0] == '+' {
        1
    } else {
        0
    };
    let ghost digits = v@.skip(start as int);
    assert(start == 0 ==> digits =~= s@);
    if start == v.len() {
        return None;
    }
    let mut value: u64 = 0;
    let mut i: usize = start;
    assert(digits.take(0) =~= Seq::<char>::empty());
    while i < v.len()
        invariant
            start <= i <= v@.len(),
            digits == v@.skip(start as int),
            digits.len() > 0,
            number_of(s@) == (match digits_value(digits) {
                Some(v) if v <= u64::MAX => Some(v),
                _ => None,
            }),
            digits_value(digits.take(i - start)) == Some(value as nat),
        decreases v@.len() - i,
    {
        let c: char = v[i];
        let ghost k = i - start;
        assert(digits.take(k + 1).drop_last() =~= digits.take(k));
        assert(digits.take(k + 1).last() == c);
        proof {
            lemma_digits_prefix(digits, k + 1);
        }
        if !('0' <= c && c <= '9') {
            return None;
        }
        let d: u64 = (c as u32 - '0' as u32) as u64;
        if value > (u64::MAX - d) / 10 {
            assert(10 * value + d > u64::MAX);
            return None;
        }
        value = 10 * value + d;
        i = i + 1;
    }
    assert(digits.take(digits.len() as int) =~= digits);
    Some(value)
}

/// When the message with this id was made: its upper 42 bits count milliseconds.
pub open spec fn made_at(id: Seq<char>) -> Option<int> {
    match number_of(id) {
        Some(n) => Some(n / 0x40_0000 + DISCORD_EPOCH_MS),
        None => None,
    }
}

/// When the message with this id was made, in milliseconds since the epoch; nothing where
/// the id is no number.
pub fn snowflake_ms(discord_msg_id: &str) -> (r: Option<i64>)
    ensures
        match r {
            Some(ms) => made_at(discord_msg_id@) == Some(ms as int),
            None => made_at(discord_msg_id@) is None,
        },
        r matches Some(ms) ==> DISCORD_EPOCH_MS <= ms < DISCORD_EPOCH_MS + 0x400_0000_0000,
{
    match parse_number(discord_msg_id) {
        Some(id) => {
            let ms: u64 = id >> 22;
            assert(ms == id / 0x40_0000 && ms < 0x400_0000_0000) by (bit_vector)
                requires
                    ms == id >> 22,
            ;
            Some(ms as i64 + DISCORD_EPOCH_MS)
        },
        None => None,
    }
}

/// The milliseconds since the epoch that `chrono` reads out of a time in the notation of
/// RFC 3339; nothing where it is no such time.
pub uninterp spec fn millis_of(s: Seq<char>) -> Option<i64>;

/// `chrono::DateTime::parse_from_rfc3339` and `timestamp_millis`: by the text alone. No
/// time that `chrono` can hold lies further from the epoch than 262144 years.
#[verifier::external_body]
fn parse_millis(s: &str) -> (r: Option<i64>)
    ensures
        r == millis_of(s@),
        r matches Some(ms) ==> -9_000_000_000_000_000 < ms < 9_000_000_000_000_000,
{
    chrono::DateTime::parse_from_rfc3339(s).ok().map(|t| t.timestamp_millis())
}

/// The time between two points in time, where both are known.
pub open spec fn latency_between(made: Option<int>, published: Option<i64>) -> Option<int> {
    match (made, published) {
        (Some(m), Some(p)) => Some(m - p),
        _ => None,
    }
}

/// How long relaying took, in milliseconds: from the publication on Telegram to the id of
/// the message on Discord. Nothing where one of them cannot be read.
pub fn relay_latency_ms(discord_msg_id: &str, telegram_date: &str) -> (r: Option<i64>)
    ensures
        match r {
            Some(ms) => latency_between(made_at(discord_msg_id@), millis_of(telegram_date@)) == Some(
                ms as int,
            ),
            None => latency_between(made_at(discord_msg_id@), millis_of(telegram_date@)) is None,
        },
{
    match snowflake_ms(discord_msg_id) {
        Some(discord_ms) => match parse_millis(telegram_date) {
            Some(telegram_ms) => Some(discord_ms - telegram_ms),
            None => None,
        },
        None => None,
    }
}

proof fn lemma_digits_read(s: Seq<char>)
    requires
        forall|i: int| 0 <= i < s.len() ==> text::is_digit(#[trigger] s[i]),
    ensures
        digits_value(s) == Some(text::digits_value(s)),
    decreases s.len(),
{
    if s.len() > 0 {
        let init = s.drop_last();
        assert forall|i: int| 0 <= i < init.len() implies text::is_digit(#[trigger] init[i]) by {
            assert(text::is_digit(s[i]));
        }
        lemma_digits_read(init);
        assert(text::is_digit(s[s.len() - 1]));
    }
}

/// A number that was written is read back.
pub proof fn lemma_number_is_read(n: u64)
    ensures
        number_of(text::decimal(n as int)) == Some(n as nat),
        number_of(seq!['+'] + text::decimal(n as int)) == Some(n as nat),
{
    let s = text::decimal(n as int);
    text::lemma_nat_decimal_value(n as nat);
    lemma_digits_read(s);
    assert(text::is_digit(s[0]));
    let t = seq!['+'] + s;
    assert(t[0] == '+');
    assert(t.skip(1) =~= s);
}

/// The id of a message tells when it was made: in steps of 4194304 since the first
/// millisecond of 2015.
pub proof fn lemma_made_at(n: u64)
    ensures
        made_at(text::decimal(n as int)) == Some((n as int) / 4194304 + 1420070400000),
{
    lemma_number_is_read(n);
}

} // verus!
