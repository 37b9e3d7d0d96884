//! Times as they are written.
use vstd::prelude::*;
use crate::laws::numbers::{lemma_digits_below, lemma_padded, ten_to};
use crate::output::timestamp_text;
use crate::text::{all_digits, digits_value, padded_decimal};

verus! {

/// A text is a clock: hours, minutes and seconds between colons, two digits
/// each and more for the hours where they are needed, and three digits behind a
/// point where a second is not full.
pub open spec fn is_clock(
    text: Seq<char>,
    hours: Seq<char>,
    minutes: Seq<char>,
    seconds: Seq<char>,
    rest: Seq<char>,
) -> bool {
    &&& all_digits(hours) && all_digits(minutes) && all_digits(seconds) && all_digits(rest)
    &&& hours.len() >= 2 && minutes.len() == 2 && seconds.len() == 2
    &&& rest.len() == 0 || rest.len() == 3
    &&& text == hours + seq![':'] + minutes + seq![':'] + seconds + (if rest.len() == 0 {
        Seq::empty()
    } else {
        seq!['.'] + rest
    })
}

/// A time is read back from its text: hours, minutes below sixty, seconds below
/// sixty and thousandths, which stand there where there are any.
pub proof fn lemma_time_is_read_back(milliseconds: u64)
    ensures
        exists|hours: Seq<char>, minutes: Seq<char>, seconds: Seq<char>, rest: Seq<char>|
            {
                &&& #[trigger] is_clock(
                    timestamp_text(milliseconds),
                    hours,
                    minutes,
                    seconds,
                    rest,
                )
                &&& digits_value(minutes) < 60
                &&& digits_value(seconds) < 60
                &&& ((digits_value(hours) * 60 + digits_value(minutes)) * 60 + digits_value(
                    seconds,
                )) * 1_000 + digits_value(rest) == milliseconds
                &&& rest.len() > 0 <==> digits_value(rest) > 0
            },
{
    reveal_strlit(":");
    reveal_strlit(".");
    let total = milliseconds as nat / 1_000;
    let hours = padded_decimal(total / 3_600, 2);
    let minutes = padded_decimal(total % 3_600 / 60, 2);
    let seconds = padded_decimal(total % 60, 2);
    let part = milliseconds as nat % 1_000;
    let rest = if part == 0 {
        Seq::empty()
    } else {
        padded_decimal(part, 3)
    };
    reveal_with_fuel(ten_to, 4);
    lemma_padded(total / 3_600, 2);
    lemma_padded(total % 3_600 / 60, 2);
    lemma_padded(total % 60, 2);
    lemma_padded(part, 3);
    lemma_digits_below(total % 3_600 / 60, 2);
    lemma_digits_below(total % 60, 2);
    lemma_digits_below(part, 3);
    assert(digits_value(Seq::<char>::empty()) == 0);
    let text = timestamp_text(milliseconds);
    assert(":"@ =~= seq![':']);
    assert("."@ =~= seq!['.']);
    assert(text =~= hours + seq![':'] + minutes + seq![':'] + seconds + (if rest.len() == 0 {
        Seq::empty()
    } else {
        seq!['.'] + rest
    }));
    assert(is_clock(text, hours, minutes, seconds, rest));
}

/// A text is read as a clock in one way only.
proof fn lemma_clock_is_unique(
    text: Seq<char>,
    hours: Seq<char>,
    minutes: Seq<char>,
    seconds: Seq<char>,
    rest: Seq<char>,
    other_hours: Seq<char>,
    other_minutes: Seq<char>,
    other_seconds: Seq<char>,
    other_rest: Seq<char>,
)
    requires
        is_clock(text, hours, minutes, seconds, rest),
        is_clock(text, other_hours, other_minutes, other_seconds, other_rest),
    ensures
        hours == other_hours,
        minutes == other_minutes,
        seconds == other_seconds,
        rest == other_rest,
{
    let n = text.len() as int;
    if rest.len() == 3 {
        assert(text[n - 4] == '.');
    } else {
        assert(text[n - 3] == ':');
    }
    if other_rest.len() == 3 {
        assert(text[n - 4] == '.');
        assert(text[n - 3] == other_rest[0]);
    } else {
        assert(text[n - 3] == ':');
    }
    if rest.len() == 3 {
        assert(text[n - 3] == rest[0]);
    }
    assert(rest.len() == other_rest.len());
    let end = if rest.len() == 3 {
        n - 4
    } else {
        n
    };
    assert(rest =~= text.skip(n - rest.len()));
    assert(other_rest =~= text.skip(n - rest.len()));
    assert(seconds =~= text.subrange(end - 2, end));
    assert(other_seconds =~= text.subrange(end - 2, end));
    assert(minutes =~= text.subrange(end - 5, end - 3));
    assert(other_minutes =~= text.subrange(end - 5, end - 3));
    assert(hours =~= text.subrange(0, end - 6));
    assert(other_hours =~= text.subrange(0, end - 6));
}

/// Different times have different texts.
pub proof fn lemma_times_differ(left: u64, right: u64)
    requires
        timestamp_text(left) == timestamp_text(right),
    ensures
        left == right,
{
    lemma_time_is_read_back(left);
    lemma_time_is_read_back(right);
    let text = timestamp_text(left);
    let (h, m, s, r) = choose|h: Seq<char>, m: Seq<char>, s: Seq<char>, r: Seq<char>|
        {
            &&& #[trigger] is_clock(text, h, m, s, r)
            &&& digits_value(m) < 60
            &&& digits_value(s) < 60
            &&& ((digits_value(h) * 60 + digits_value(m)) * 60 + digits_value(s)) * 1_000
                + digits_value(r) == left
            &&& r.len() > 0 <==> digits_value(r) > 0
        };
    let (h2, m2, s2, r2) = choose|h: Seq<char>, m: Seq<char>, s: Seq<char>, r: Seq<char>|
        {
            &&& #[trigger] is_clock(text, h, m, s, r)
            &&& digits_value(m) < 60
            &&& digits_value(s) < 60
            &&& ((digits_value(h) * 60 + digits_value(m)) * 60 + digits_value(s)) * 1_000
                + digits_value(r) == right
            &&& r.len() > 0 <==> digits_value(r) > 0
        };
    lemma_clock_is_unique(text, h, m, s, r, h2, m2, s2, r2);
}

} // verus!
