//! The settings that a run is started with: the servers to poll, the
//! address that messages go to, and the period between two polls.

use vstd::prelude::*;
use vstd::string::*;
use vstd::utf8::is_ascii_chars;

verus! {

/// Whether `c` is a decimal digit.
pub open spec fn is_digit(c: char) -> bool {
    '0' <= c && c <= '9'
}

/// Every element of `d` is a decimal digit.
pub open spec fn all_digits(d: Seq<char>) -> bool {
    forall|i: int| 0 <= i < d.len() ==> is_digit(#[trigger] d[i])
}

/// The number that the decimal digits `d` write.
pub open spec fn decimal_value(d: Seq<char>) -> nat
    decreases d.len(),
{
    if d.len() == 0 {
        0
    } else {
        (decimal_value(d.drop_last()) * 10 + (d.last() as int - '0' as int)) as nat
    }
}

/// The text without the plus sign that it may start with.
pub open spec fn without_sign(text: Seq<char>) -> Seq<char> {
    if text.len() > 0 && text[0] == '+' {
        text.skip(1)
    } else {
        text
    }
}

/// The period that a text gives, in seconds: the text is a plus sign or
/// none, then one decimal digit or more and nothing else, and the number is
/// positive and no more than `u64::MAX`. Any other text gives no period.
pub open spec fn period_of(text: Seq<char>) -> Option<u64> {
    let d = without_sign(text);
    if d.len() > 0 && all_digits(d) && 0 < decimal_value(d) <= u64::MAX {
        Some(decimal_value(d) as u64)
    } else {
        None
    }
}

proof fn lemma_decimal_value_grows(d: Seq<char>, k: int)
    requires
        all_digits(d),
        0 <= k <= d.len(),
    ensures
        decimal_value(d.take(k)) <= decimal_value(d),
    decreases d.len() - k,
{
    if k < d.len() {
        lemma_decimal_value_grows(d, k + 1);
        assert(d.take(k + 1).drop_last() =~= d.take(k));
        assert(is_digit(d[k]));
        assert(d.take(k + 1).last() == d[k]);
    } else {
        assert(d.take(k) =~= d);
    }
}

/// Reads the period between two polls, in seconds, from a text.
pub fn parse_period(text: &str) -> (period: Option<u64>)
    ensures
        period == period_of(text@),
{
    broadcast use is_ascii_spec_bytes;

    let ghost d = without_sign(text@);
    if !text.is_ascii() {
        proof {
            let i = choose|i: int|
                0 <= i < text@.len() && !('\0' <= #[trigger] text@[i] <= '\u{7f}');
            if text@[0] == '+' {
                assert(d[i - 1] == text@[i]);
            } else {
                assert(d[i] == text@[i]);
            }
        }
        return None;
    }
    let bytes = text.as_bytes();
    let n: usize = bytes.len();
    assert(n == text@.len());
    assert(forall|i: int| 0 <= i < n ==> bytes[i] == #[trigger] text@[i] as u8);
    let start: usize = if n > 0 && bytes[0] == 43u8 {
        1
    } else {
        0
    };
    assert(d =~= text@.skip(start as int));
    if start == n {
        return None;
    }
    let mut value: u64 = 0;
    let mut i: usize = start;
    assert(d.take(0) =~= Seq::<char>::empty());
    while i < n
        invariant
            start <= i <= n,
            n == bytes@.len(),
            n == text@.len(),
            d == without_sign(text@),
            d == text@.skip(start as int),
            is_ascii_chars(text@),
            forall|k: int| 0 <= k < n ==> bytes[k] == #[trigger] text@[k] as u8,
            all_digits(d.take(i - start)),
            value == decimal_value(d.take(i - start)),
        decreases n - i,
    {
        let b: u8 = bytes[i];
        let ghost c = text@[i as int];
        assert(d[i - start] == c);
        assert(b == c as u8);
        assert('\0' <= c <= '\u{7f}');
        if b < 48u8 || b > 57u8 {
            assert(!is_digit(c));
            return None;
        }
        assert(is_digit(c));
        let digit: u64 = (b - 48u8) as u64;
        assert(digit == c as int - '0' as int);
        assert(d.take(i - start + 1).drop_last() =~= d.take(i - start));
        assert(d.take(i - start + 1).last() == c);
        if value > (u64::MAX - digit) / 10 {
            proof {
                assert(decimal_value(d.take(i - start + 1)) > u64::MAX);
                if all_digits(d) {
                    lemma_decimal_value_grows(d, i - start + 1);
                }
            }
            return None;
        }
        value = value * 10 + digit;
        i += 1;
    }
    assert(d.take(i - start) =~= d);
    if value == 0 {
        None
    } else {
        Some(value)
    }
}

/// Why the settings of a run are refused.
#[derive(Clone, Copy, Debug, PartialEq, Eq, Structural)]
pub enum InputError {
    /// No server is named.
    MissingServer,
    /// No address for the messages is given.
    MissingUrl,
    /// No period is given.
    MissingPeriod,
    /// The period is not a positive number of seconds.
    InvalidPeriod,
}

impl InputError {
    /// The error in words.
    pub fn message(&self) -> (text: String)
        ensures
            text@ == match self {
                InputError::MissingServer => "'server' input is missing"@,
                InputError::MissingUrl => "'webhook url' input is missing"@,
                InputError::MissingPeriod => "'period' is mandatory"@,
                InputError::InvalidPeriod => "'period' is not a positive number of seconds"@,
            },
    {
        match self {
            InputError::MissingServer => "'server' input is missing".to_owned(),
            InputError::MissingUrl => "'webhook url' input is missing".to_owned(),
            InputError::MissingPeriod => "'period' is mandatory".to_owned(),
            InputError::InvalidPeriod => "'period' is not a positive number of seconds".to_owned(),
        }
    }
}

/// The settings of a run.
#[derive(Debug)]
pub struct UserInput {
    /// The names of the servers to poll; one at least.
    pub servers: Vec<String>,
    /// The address that messages go to.
    pub url: String,
    /// The period between two polls, in seconds; positive.
    pub period: u64,
}

/// What is wrong with the settings, if anything: the first of no server,
/// no address, no period, and a period that is not a positive number.
pub open spec fn input_error(
    servers: Option<Vec<String>>,
    url: Option<String>,
    period: Option<&str>,
) -> Option<InputError> {
    if servers.is_none() || servers.unwrap()@.len() == 0 {
        Some(InputError::MissingServer)
    } else if url.is_none() {
        Some(InputError::MissingUrl)
    } else if period.is_none() {
        Some(InputError::MissingPeriod)
    } else if period_of(period.unwrap()@).is_none() {
        Some(InputError::InvalidPeriod)
    } else {
        None
    }
}

impl UserInput {
    /// Checks the values that a run is started with, each as it was given
    /// or `None` where it was left out, and makes the settings of them.
    pub fn from_values(servers: Option<Vec<String>>, url: Option<String>, period: Option<&str>) -> (result:
        Result<UserInput, InputError>)
        ensures
            match result {
                Ok(input) => {
                    &&& input_error(servers, url, period).is_none()
                    &&& input.servers == servers.unwrap()
                    &&& input.url == url.unwrap()
                    &&& Some(input.period) == period_of(period.unwrap()@)
                },
                Err(e) => input_error(servers, url, period) == Some(e),
            },
    {
        let servers = match servers {
            Some(list) => list,
            None => {
                return Err(InputError::MissingServer);
            },
        };
        if servers.len() == 0 {
            return Err(InputError::MissingServer);
        }
        let url = match url {
            Some(text) => text,
            None => {
                return Err(InputError::MissingUrl);
            },
        };
        let text = match period {
            Some(text) => text,
            None => {
                return Err(InputError::MissingPeriod);
            },
        };
        match parse_period(text) {
            Some(period) => Ok(UserInput { servers, url, period }),
            None => Err(InputError::InvalidPeriod),
        }
    }
}

} // verus!
