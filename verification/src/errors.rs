//! The error taxonomy of the redaction service, and the structured
//! payload each error maps to: a human-readable message, a numeric
//! status code, and an RFC 3339 timestamp.

use vstd::prelude::*;
use vstd::string::StringExecFns;
use crate::models::Span;

verus! {

/// Everything that can go wrong in the pipeline. Malformed span bounds
/// are not an error: the redaction engine skips them silently.
#[derive(Debug)]
pub enum RedactrError {
    /// The recognition engine cannot be reached or its worker failed.
    ModelNotLoaded,
    /// The text's byte length, then the configured maximum; rejected
    /// before any engine call.
    TextTooLong(usize, usize),
    /// The engine rejected the input or failed internally; carries its
    /// diagnostic.
    ProcessingFailed(String),
    /// Anything else.
    InternalError,
}

/// The structured payload an error is reported as.
pub struct ErrorResponse {
    pub error: String,
    pub code: u16,
    pub timestamp: String,
}

/// Decide what one gated recognition call produced, from plain values:
/// a worker that could not be joined (`None`) means the engine must be
/// considered gone; a failure the engine itself reported becomes
/// `ProcessingFailed` with its diagnostic; otherwise the span sets
/// pass through unchanged.
pub fn recognition_outcome(joined: Option<Result<Vec<Vec<Span>>, String>>) -> (r: Result<
    Vec<Vec<Span>>,
    RedactrError,
>)
    ensures
        match joined {
            None => r == Result::<Vec<Vec<Span>>, RedactrError>::Err(RedactrError::ModelNotLoaded),
            Some(Ok(spans)) => r == Result::<Vec<Vec<Span>>, RedactrError>::Ok(spans),
            Some(Err(msg)) => r == Result::<Vec<Vec<Span>>, RedactrError>::Err(
                RedactrError::ProcessingFailed(msg),
            ),
        },
{
    match joined {
        None => Err(RedactrError::ModelNotLoaded),
        Some(Ok(spans)) => Ok(spans),
        Some(Err(msg)) => Err(RedactrError::ProcessingFailed(msg)),
    }
}

/// The character standing for one decimal digit.
pub open spec fn digit_char(d: nat) -> char {
    if d == 0 {
        '0'
    } else if d == 1 {
        '1'
    } else if d == 2 {
        '2'
    } else if d == 3 {
        '3'
    } else if d == 4 {
        '4'
    } else if d == 5 {
        '5'
    } else if d == 6 {
        '6'
    } else if d == 7 {
        '7'
    } else if d == 8 {
        '8'
    } else {
        '9'
    }
}

/// The decimal digits of `n`, most significant first, no sign and no
/// separators.
pub open spec fn decimal_digits(n: nat) -> Seq<char>
    decreases n,
{
    if n < 10 {
        seq![digit_char(n)]
    } else {
        decimal_digits(n / 10).push(digit_char(n % 10))
    }
}

fn digit_str(d: usize) -> (r: &'static str)
    requires
        d < 10,
    ensures
        r@ == seq![digit_char(d as nat)],
{
    proof {
        reveal_strlit("0");
        reveal_strlit("1");
        reveal_strlit("2");
        reveal_strlit("3");
        reveal_strlit("4");
        reveal_strlit("5");
        reveal_strlit("6");
        reveal_strlit("7");
        reveal_strlit("8");
        reveal_strlit("9");
        assert("0"@ =~= seq!['0']);
        assert("1"@ =~= seq!['1']);
        assert("2"@ =~= seq!['2']);
        assert("3"@ =~= seq!['3']);
        assert("4"@ =~= seq!['4']);
        assert("5"@ =~= seq!['5']);
        assert("6"@ =~= seq!['6']);
        assert("7"@ =~= seq!['7']);
        assert("8"@ =~= seq!['8']);
        assert("9"@ =~= seq!['9']);
    }
    if d == 0 {
        "0"
    } else if d == 1 {
        "1"
    } else if d == 2 {
        "2"
    } else if d == 3 {
        "3"
    } else if d == 4 {
        "4"
    } else if d == 5 {
        "5"
    } else if d == 6 {
        "6"
    } else if d == 7 {
        "7"
    } else if d == 8 {
        "8"
    } else {
        "9"
    }
}

/// Render `n` in decimal, digit by digit.
fn usize_decimal(n: usize) -> (r: String)
    ensures
        r@ == decimal_digits(n as nat),
    decreases n,
{
    if n < 10 {
        digit_str(n).to_owned()
    } else {
        proof {
            assert(n / 10 < n) by (nonlinear_arith)
                requires
                    n >= 10,
            ;
        }
        let mut s = usize_decimal(n / 10);
        s.append(digit_str(n % 10));
        proof {
            assert(decimal_digits((n / 10) as nat) + seq![digit_char((n % 10) as nat)]
                =~= decimal_digits((n / 10) as nat).push(digit_char((n % 10) as nat)));
        }
        s
    }
}

/// A decimal digit.
pub open spec fn is_digit_char(c: char) -> bool {
    '0' <= c && c <= '9'
}

/// The shape of chrono's RFC 3339 rendering of a UTC instant at or
/// after 1970: a date of digits and dashes before `T` (the year may
/// carry a leading `+` once it outgrows four digits), a two-digit
/// hours:minutes:seconds clock, an optional fraction of a dot and
/// digits, and the UTC offset `+00:00` at the end.
pub open spec fn is_rfc3339_utc(s: Seq<char>) -> bool {
    exists|t: int|
        #![trigger s[t]]
        {
            &&& 10 <= t && t + 15 <= s.len()
            &&& s[t] == 'T'
            &&& s[t - 3] == '-' && s[t - 6] == '-'
            &&& forall|i: int|
                0 <= i < t && i != t - 3 && i != t - 6 ==> is_digit_char(#[trigger] s[i]) || (i == 0
                    && s[i] == '+')
            &&& is_digit_char(s[t + 1]) && is_digit_char(s[t + 2]) && s[t + 3] == ':'
            &&& is_digit_char(s[t + 4]) && is_digit_char(s[t + 5]) && s[t + 6] == ':'
            &&& is_digit_char(s[t + 7]) && is_digit_char(s[t + 8])
            &&& s[s.len() - 6] == '+' && s[s.len() - 5] == '0' && s[s.len() - 4] == '0'
            &&& s[s.len() - 3] == ':' && s[s.len() - 2] == '0' && s[s.len() - 1] == '0'
            &&& (t + 9 == s.len() - 6 || (s[t + 9] == '.' && t + 10 <= s.len() - 6 && forall|
                i: int,
            |
                t + 10 <= i < s.len() - 6 ==> is_digit_char(#[trigger] s[i])))
        }
}

/// Relies on chrono's `DateTime::from_timestamp` and
/// `DateTime::to_rfc3339` for the timestamp of an error payload: the
/// rendering of any UTC instant at or after 1970 has the RFC 3339
/// shape above (`write_rfc3339`: two-digit month, day and clock
/// fields, an `AutoSi` fraction, a colon-separated zero offset).
/// Which instant comes back depends on the clock, so no more is said.
/// A clock before 1970, or past chrono's range, falls back to the
/// epoch rendering instead of aborting; `from_timestamp` and
/// `to_rfc3339` themselves cannot fail.
#[verifier::external_body]
fn now_rfc3339() -> (r: String)
    ensures
        is_rfc3339_utc(r@),
{
    let since_epoch = std::time::SystemTime::now().duration_since(std::time::UNIX_EPOCH);
    let stamp = since_epoch
        .ok()
        .and_then(|d| chrono::DateTime::<chrono::Utc>::from_timestamp(d.as_secs() as i64, d.subsec_nanos()));
    match stamp {
        Some(t) => t.to_rfc3339(),
        None => String::from("1970-01-01T00:00:00+00:00"),
    }
}

/// The HTTP status code an error maps to.
pub open spec fn status_code_spec(e: &RedactrError) -> u16 {
    match e {
        RedactrError::ModelNotLoaded => 503,
        RedactrError::TextTooLong(_, _) => 400,
        RedactrError::ProcessingFailed(_) => 500,
        RedactrError::InternalError => 500,
    }
}

/// The human-readable message an error maps to.
pub open spec fn message_spec(e: &RedactrError) -> Seq<char> {
    match e {
        RedactrError::ModelNotLoaded => "Model not loaded"@,
        RedactrError::TextTooLong(n, m) => "Text too long: "@ + decimal_digits(*n as nat)
            + " characters (max: "@ + decimal_digits(*m as nat) + ")"@,
        RedactrError::ProcessingFailed(msg) => "Processing failed: "@ + msg@,
        RedactrError::InternalError => "Internal server error"@,
    }
}

impl RedactrError {
    /// The status code of the error's payload: 503 when the engine is
    /// unavailable, 400 for an oversized input, 500 otherwise.
    pub fn status_code(&self) -> (r: u16)
        ensures
            r == status_code_spec(self),
    {
        match self {
            RedactrError::ModelNotLoaded => 503,
            RedactrError::TextTooLong(_, _) => 400,
            RedactrError::ProcessingFailed(_) => 500,
            RedactrError::InternalError => 500,
        }
    }

    /// The error's message text.
    pub fn message(&self) -> (r: String)
        ensures
            r@ == message_spec(self),
    {
        match self {
            RedactrError::ModelNotLoaded => "Model not loaded".to_owned(),
            RedactrError::TextTooLong(n, m) => {
                let mut s = "Text too long: ".to_owned();
                s.append(usize_decimal(*n).as_str());
                s.append(" characters (max: ");
                s.append(usize_decimal(*m).as_str());
                s.append(")");
                s
            },
            RedactrError::ProcessingFailed(msg) => {
                let mut s = "Processing failed: ".to_owned();
                s.append(msg.as_str());
                s
            },
            RedactrError::InternalError => "Internal server error".to_owned(),
        }
    }

    /// The structured payload for the error: its message, its status
    /// code, and the moment it was built as an RFC 3339 timestamp.
    /// Which moment that is depends on the clock, so only the
    /// timestamp's shape is stated.
    pub fn error_response(&self) -> (r: ErrorResponse)
        ensures
            r.error@ == message_spec(self),
            r.code == status_code_spec(self),
            is_rfc3339_utc(r.timestamp@),
    {
        ErrorResponse { error: self.message(), code: self.status_code(), timestamp: now_rfc3339() }
    }
}

} // verus!
