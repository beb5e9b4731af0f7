use vstd::prelude::*;

verus! {

/// Why a user-supplied time expression was rejected.
#[derive(Clone, Copy, Debug, PartialEq, Eq, Structural)]
pub enum TimeError {
    MalformedDuration,
    MalformedTimestamp,
}

pub open spec fn is_digit(c: char) -> bool {
    48 <= c as int <= 57
}

pub open spec fn all_digits(s: Seq<char>) -> bool {
    forall|i: int| 0 <= i < s.len() ==> is_digit(#[trigger] s[i])
}

/// The value of a run of decimal digits.
pub open spec fn digits_val(s: Seq<char>) -> int
    decreases s.len(),
{
    if s.len() == 0 {
        0
    } else {
        digits_val(s.drop_last()) * 10 + (s.last() as int - 48)
    }
}

proof fn lemma_digits_val_nonneg(s: Seq<char>)
    requires
        all_digits(s),
    ensures
        digits_val(s) >= 0,
    decreases s.len(),
{
    if s.len() > 0 {
        assert(all_digits(s.drop_last())) by {
            assert forall|i: int| 0 <= i < s.drop_last().len() implies is_digit(
                #[trigger] s.drop_last()[i],
            ) by {
                assert(s.drop_last()[i] == s[i]);
            }
        }
        lemma_digits_val_nonneg(s.drop_last());
    }
}

/// A digit run is worth at least ten times any proper prefix of it.
proof fn lemma_digits_val_prefix(s: Seq<char>, i: int)
    requires
        all_digits(s),
        0 <= i <= s.len(),
    ensures
        digits_val(s.take(i)) <= digits_val(s),
        i < s.len() ==> 10 * digits_val(s.take(i)) <= digits_val(s),
    decreases s.len() - i,
{
    assert(all_digits(s.take(i))) by {
        assert forall|k: int| 0 <= k < s.take(i).len() implies is_digit(
            #[trigger] s.take(i)[k],
        ) by {
            assert(s.take(i)[k] == s[k]);
        }
    }
    lemma_digits_val_nonneg(s.take(i));
    if i == s.len() {
        assert(s.take(i) =~= s);
    } else {
        lemma_digits_val_prefix(s, i + 1);
        assert(s.take(i + 1).drop_last() =~= s.take(i));
        assert(digits_val(s.take(i + 1)) == digits_val(s.take(i)) * 10 + (s[i] as int - 48));
        assert(is_digit(s[i]));
    }
}

/// Reads a digit run as a value: `None` when a non-digit stands in the range
/// or the value tops 2^63.
fn parse_digit_value(s: &str, from: usize, to: usize) -> (r: Option<u64>)
    requires
        from <= to <= s@.len(),
    ensures
        ({
            let sub = s@.subrange(from as int, to as int);
            match r {
                Some(v) => all_digits(sub) && v == digits_val(sub) && v
                    <= 9223372036854775808u64,
                None => !all_digits(sub) || digits_val(sub) > 9223372036854775808,
            }
        }),
{
    let ghost sub = s@.subrange(from as int, to as int);
    let mut mag: u64 = 0;
    let mut i: usize = from;
    proof {
        assert(sub.take(0) =~= Seq::<char>::empty());
    }
    while i < to
        invariant
            from <= i <= to <= s@.len(),
            sub == s@.subrange(from as int, to as int),
            all_digits(sub.take(i - from)),
            mag == digits_val(sub.take(i - from)),
            mag <= 9223372036854775808u64,
        decreases to - i,
    {
        let c = s.get_char(i);
        proof {
            assert(sub[i - from] == s@[i as int]);
            assert(sub.take(i - from + 1).drop_last() =~= sub.take(i - from));
            assert(sub.take(i - from + 1).last() == sub[i - from]);
        }
        if (c as u32) < 48 || (c as u32) > 57 {
            proof {
                assert(!is_digit(sub[i - from]));
            }
            return None;
        }
        proof {
            assert(is_digit(sub[i - from]));
            assert forall|k: int| 0 <= k < i - from + 1 implies is_digit(
                #[trigger] sub.take(i - from + 1)[k],
            ) by {
                assert(sub.take(i - from + 1)[k] == sub[k]);
                if k < i - from {
                    assert(sub.take(i - from)[k] == sub[k]);
                }
            }
        }
        let d = (c as u32 - 48) as u64;
        if mag > 922337203685477580u64 || (mag == 922337203685477580u64 && d > 8) {
            // This digit pushes the value past 2^63, and further digits only
            // grow it.
            proof {
                assert(digits_val(sub.take(i - from + 1)) == mag * 10 + d);
                if all_digits(sub) {
                    lemma_digits_val_prefix(sub, i - from + 1);
                    assert(digits_val(sub) >= digits_val(sub.take(i - from + 1)));
                    assert(digits_val(sub) > 9223372036854775808);
                }
            }
            return None;
        }
        mag = mag * 10 + d;
        i = i + 1;
    }
    proof {
        assert(sub.take(to - from) =~= sub);
    }
    Some(mag)
}

/// The milliseconds one unit letter stands for.
pub open spec fn unit_ms(c: char) -> int {
    if c == 's' {
        1000
    } else if c == 'm' {
        60000
    } else if c == 'h' {
        3600000
    } else if c == 'd' {
        86400000
    } else {
        0
    }
}

/// What a duration expression is worth, in milliseconds: one or more digits
/// followed by a unit letter (seconds, minutes, hours or days), provided the
/// count and the product fit a signed 64-bit value; anything else is
/// malformed.
pub open spec fn duration_spec(s: Seq<char>) -> Option<int> {
    if s.len() < 2 {
        None
    } else {
        let ds = s.take(s.len() - 1);
        let u = s.last();
        if !all_digits(ds) || unit_ms(u) == 0 {
            None
        } else {
            let v = digits_val(ds);
            if v <= i64::MAX && v * unit_ms(u) <= i64::MAX {
                Some(v * unit_ms(u))
            } else {
                None
            }
        }
    }
}

/// Parses a duration expression such as `30m`, `2h` or `1d` into
/// milliseconds; an expression of any other shape, or one whose value
/// overflows, is a malformed duration.
pub fn parse_duration(s: &str) -> (r: Result<i64, TimeError>)
    ensures
        r matches Ok(ms) ==> duration_spec(s@) == Some(ms as int),
        r is Err ==> duration_spec(s@) is None && r == Err::<i64, TimeError>(
            TimeError::MalformedDuration,
        ),
{
    let n = s.unicode_len();
    if n < 2 {
        return Err(TimeError::MalformedDuration);
    }
    let u = s.get_char(n - 1);
    let unit: i64 = if u == 's' {
        1000
    } else if u == 'm' {
        60000
    } else if u == 'h' {
        3600000
    } else if u == 'd' {
        86400000
    } else {
        return Err(TimeError::MalformedDuration);
    };
    proof {
        assert(s@.take(n - 1) =~= s@.subrange(0, n - 1));
        assert(s@.last() == s@[n - 1]);
    }
    let v = match parse_digit_value(s, 0, n - 1) {
        Some(v) => v,
        None => {
            proof {
                if all_digits(s@.take(n - 1)) {
                    lemma_digits_val_nonneg(s@.take(n - 1));
                }
            }
            return Err(TimeError::MalformedDuration);
        },
    };
    if v > i64::MAX as u64 {
        return Err(TimeError::MalformedDuration);
    }
    let vi = v as i64;
    if vi > i64::MAX / unit {
        proof {
            assert(digits_val(s@.take(n - 1)) * unit_ms(s@.last()) > i64::MAX) by (nonlinear_arith)
                requires
                    vi > i64::MAX / unit,
                    unit == unit_ms(s@.last()),
                    vi == digits_val(s@.take(n - 1)),
                    unit == 1000 || unit == 60000 || unit == 3600000 || unit == 86400000,
            ;
        }
        return Err(TimeError::MalformedDuration);
    }
    proof {
        lemma_digits_val_nonneg(s@.take(n - 1));
        assert(vi * unit <= i64::MAX && vi * unit >= 0) by (nonlinear_arith)
            requires
                0 <= vi <= i64::MAX / unit,
                unit == 1000 || unit == 60000 || unit == 3600000 || unit == 86400000,
        ;
    }
    Ok(vi * unit)
}

/// What a text is worth as a signed 64-bit number: an optional sign, then
/// digits, nothing else, the value in range.
pub open spec fn numeric_i64(s: Seq<char>) -> Option<int> {
    if s.len() == 0 {
        None
    } else {
        let neg = s[0] == '-';
        let ds = if s[0] == '-' || s[0] == '+' {
            s.drop_first()
        } else {
            s
        };
        if ds.len() == 0 || !all_digits(ds) {
            None
        } else {
            let v = if neg {
                -digits_val(ds)
            } else {
                digits_val(ds)
            };
            if i64::MIN <= v <= i64::MAX {
                Some(v)
            } else {
                None
            }
        }
    }
}

/// Whether chrono reads the text as a wall-clock datetime under the given
/// format, and as which UTC millisecond. Names the result of
/// `chrono::NaiveDateTime::parse_from_str`, a function of text and format
/// alone.
pub uninterp spec fn naive_datetime_millis(s: Seq<char>, fmt: Seq<char>) -> Option<i64>;

/// Relies on `chrono::NaiveDateTime::parse_from_str` and
/// `timestamp_millis`: deterministic in the text and the format; the parsed
/// wall-clock time is read as UTC.
#[verifier::external_body]
fn parse_naive_millis(s: &str, fmt: &str) -> (r: Option<i64>)
    ensures
        r == naive_datetime_millis(s@, fmt@),
{
    match chrono::NaiveDateTime::parse_from_str(s, fmt) {
        Ok(dt) => Some(dt.and_utc().timestamp_millis()),
        Err(_) => None,
    }
}

/// The datetime formats a timestamp text is tried against, in order.
pub open spec fn datetime_cascade(s: Seq<char>) -> Option<i64> {
    if naive_datetime_millis(s, "%Y-%m-%d %H:%M:%S"@) is Some {
        naive_datetime_millis(s, "%Y-%m-%d %H:%M:%S"@)
    } else if naive_datetime_millis(s, "%Y-%m-%dT%H:%M:%S"@) is Some {
        naive_datetime_millis(s, "%Y-%m-%dT%H:%M:%S"@)
    } else if naive_datetime_millis(s, "%Y-%m-%dT%H:%M:%SZ"@) is Some {
        naive_datetime_millis(s, "%Y-%m-%dT%H:%M:%SZ"@)
    } else if naive_datetime_millis(s, "%Y-%m-%d %H:%M:%S%.f"@) is Some {
        naive_datetime_millis(s, "%Y-%m-%d %H:%M:%S%.f"@)
    } else if naive_datetime_millis(s, "%Y-%m-%dT%H:%M:%S%.f"@) is Some {
        naive_datetime_millis(s, "%Y-%m-%dT%H:%M:%S%.f"@)
    } else {
        naive_datetime_millis(s, "%Y-%m-%dT%H:%M:%S%.fZ"@)
    }
}

/// What a timestamp text is worth in UTC milliseconds: a number is taken as
/// milliseconds when past 10^12 and as seconds otherwise; any other text is
/// read as a wall-clock datetime in one of the accepted formats.
pub open spec fn timestamp_spec(s: Seq<char>) -> Option<i64> {
    match numeric_i64(s) {
        Some(v) => if v > 1000000000000 {
            Some(v as i64)
        } else if i64::MIN <= v * 1000 <= i64::MAX {
            Some((v * 1000) as i64)
        } else {
            None
        },
        None => datetime_cascade(s),
    }
}

/// Parses a user-supplied timestamp: a Unix epoch count in seconds or
/// milliseconds, or a datetime text; anything else is a malformed timestamp.
pub fn parse_timestamp(s: &str) -> (r: Result<i64, TimeError>)
    ensures
        r matches Ok(ms) ==> timestamp_spec(s@) == Some(ms),
        r is Err ==> timestamp_spec(s@) is None && r == Err::<i64, TimeError>(
            TimeError::MalformedTimestamp,
        ),
{
    match parse_numeric_i64(s) {
        Some(v) => {
            if v > 1000000000000i64 {
                Ok(v)
            } else if v >= -9223372036854775i64 && v <= 9223372036854775i64 {
                Ok(v * 1000)
            } else {
                Err(TimeError::MalformedTimestamp)
            }
        },
        None => {
            match parse_naive_millis(s, "%Y-%m-%d %H:%M:%S") {
                Some(ms) => Ok(ms),
                None => match parse_naive_millis(s, "%Y-%m-%dT%H:%M:%S") {
                    Some(ms) => Ok(ms),
                    None => match parse_naive_millis(s, "%Y-%m-%dT%H:%M:%SZ") {
                        Some(ms) => Ok(ms),
                        None => match parse_naive_millis(s, "%Y-%m-%d %H:%M:%S%.f") {
                            Some(ms) => Ok(ms),
                            None => match parse_naive_millis(s, "%Y-%m-%dT%H:%M:%S%.f") {
                                Some(ms) => Ok(ms),
                                None => match parse_naive_millis(s, "%Y-%m-%dT%H:%M:%S%.fZ") {
                                    Some(ms) => Ok(ms),
                                    None => Err(TimeError::MalformedTimestamp),
                                },
                            },
                        },
                    },
                },
            }
        },
    }
}

/// Parses an optionally signed decimal number, exactly as the standard
/// library would.
fn parse_numeric_i64(s: &str) -> (r: Option<i64>)
    ensures
        match r {
            Some(v) => numeric_i64(s@) == Some(v as int),
            None => numeric_i64(s@) is None,
        },
{
    let n = s.unicode_len();
    if n == 0 {
        return None;
    }
    let c0 = s.get_char(0);
    let neg = c0 == '-';
    let from: usize = if c0 == '-' || c0 == '+' {
        1
    } else {
        0
    };
    if n == from {
        return None;
    }
    proof {
        if from == 1 {
            assert(s@.subrange(1, n as int) =~= s@.drop_first());
        } else {
            assert(s@.subrange(0, n as int) =~= s@);
        }
    }
    let mag = match parse_digit_value(s, from, n) {
        Some(v) => v,
        None => {
            proof {
                let ds = if from == 1 {
                    s@.drop_first()
                } else {
                    s@
                };
                if all_digits(ds) {
                    lemma_digits_val_nonneg(ds);
                }
            }
            return None;
        },
    };
    if neg {
        if mag == 9223372036854775808u64 {
            Some(i64::MIN)
        } else {
            Some(-(mag as i64))
        }
    } else {
        if mag > i64::MAX as u64 {
            None
        } else {
            Some(mag as i64)
        }
    }
}

/// What the current moment is in UTC milliseconds. Relies on
/// `chrono::Utc::now`; nothing is assumed of the value.
#[verifier::external_body]
fn now_millis() -> i64 {
    chrono::Utc::now().timestamp_millis()
}

/// `a - b`, held at the representable ends.
pub open spec fn sat_sub_spec(a: int, b: int) -> int {
    if a - b > i64::MAX {
        i64::MAX as int
    } else if a - b < i64::MIN {
        i64::MIN as int
    } else {
        a - b
    }
}

fn sat_sub(a: i64, b: i64) -> (r: i64)
    ensures
        r == sat_sub_spec(a as int, b as int),
{
    if b >= 0 {
        if a >= i64::MIN + b {
            a - b
        } else {
            i64::MIN
        }
    } else {
        if a <= i64::MAX + b {
            a - b
        } else {
            i64::MAX
        }
    }
}

/// The query window a time expression trio names, against a fixed current
/// moment `now`: a `since` duration counts back from now; otherwise explicit
/// start and end stamps are read; with nothing given, the window is the hour
/// before now.
pub open spec fn time_range_spec(
    since: Option<Seq<char>>,
    start: Option<Seq<char>>,
    end: Option<Seq<char>>,
    now: int,
) -> Result<(Option<i64>, Option<i64>), TimeError> {
    if since is Some {
        match duration_spec(since->0) {
            Some(d) => Ok((Some(sat_sub_spec(now, d) as i64), Some(now as i64))),
            None => Err(TimeError::MalformedDuration),
        }
    } else {
        let st = match start {
            Some(t) => match timestamp_spec(t) {
                Some(ms) => Ok(Some(ms)),
                None => Err(TimeError::MalformedTimestamp),
            },
            None => Ok(None),
        };
        let en = match end {
            Some(t) => match timestamp_spec(t) {
                Some(ms) => Ok(Some(ms)),
                None => Err(TimeError::MalformedTimestamp),
            },
            None => Ok(None),
        };
        match st {
            Ok(st) => match en {
                Ok(en) => if st is None && en is None {
                    Ok((Some(sat_sub_spec(now, 3600000) as i64), Some(now as i64)))
                } else {
                    Ok((st, en))
                },
                Err(e) => Err(e),
            },
            Err(e) => Err(e),
        }
    }
}

pub open spec fn opt_view(s: Option<String>) -> Option<Seq<char>> {
    match s {
        Some(t) => Some(t@),
        None => None,
    }
}

/// Resolves a time expression trio into a query window against the given
/// current moment.
pub fn parse_time_range_at(
    since: Option<String>,
    start: Option<String>,
    end: Option<String>,
    now_ms: i64,
) -> (r: Result<(Option<i64>, Option<i64>), TimeError>)
    ensures
        r == time_range_spec(opt_view(since), opt_view(start), opt_view(end), now_ms as int),
{
    match since {
        Some(sv) => match parse_duration(sv.as_str()) {
            Ok(d) => Ok((Some(sat_sub(now_ms, d)), Some(now_ms))),
            Err(_) => Err(TimeError::MalformedDuration),
        },
        None => {
            let st = match &start {
                Some(t) => match parse_timestamp(t.as_str()) {
                    Ok(ms) => Some(ms),
                    Err(_) => {
                        return Err(TimeError::MalformedTimestamp);
                    },
                },
                None => None,
            };
            let en = match &end {
                Some(t) => match parse_timestamp(t.as_str()) {
                    Ok(ms) => Some(ms),
                    Err(_) => {
                        return Err(TimeError::MalformedTimestamp);
                    },
                },
                None => None,
            };
            if st.is_none() && en.is_none() {
                Ok((Some(sat_sub(now_ms, 3600000)), Some(now_ms)))
            } else {
                Ok((st, en))
            }
        },
    }
}

/// Resolves a time expression trio against the clock's current moment.
/// Whether it succeeds, and with which error it fails, depends on the
/// expressions alone; a returned window is the one the trio names against
/// some moment.
pub fn parse_time_range(
    since: Option<String>,
    start: Option<String>,
    end: Option<String>,
) -> (r: Result<(Option<i64>, Option<i64>), TimeError>)
    ensures
        forall|now: int|
            (#[trigger] time_range_spec(
                opt_view(since),
                opt_view(start),
                opt_view(end),
                now,
            )) is Ok <==> r is Ok,
        r matches Ok(w) ==> exists|now: int|
            (#[trigger] time_range_spec(opt_view(since), opt_view(start), opt_view(end), now))
                == Ok::<(Option<i64>, Option<i64>), TimeError>(w),
        r matches Err(e) ==> forall|now: int|
            (#[trigger] time_range_spec(opt_view(since), opt_view(start), opt_view(end), now))
                == Err::<(Option<i64>, Option<i64>), TimeError>(e),
{
    let now = now_millis();
    let r = parse_time_range_at(since, start, end, now);
    proof {
        assert forall|n2: int| #[trigger]
            time_range_spec(opt_view(since), opt_view(start), opt_view(end), n2) is Ok <==> r
            is Ok by {}
        if r is Ok {
            // The sampled moment witnesses the returned window.
            assert(time_range_spec(opt_view(since), opt_view(start), opt_view(end), now as int)
                == Ok::<(Option<i64>, Option<i64>), TimeError>(r->Ok_0));
        }
    }
    r
}

} // verus!
