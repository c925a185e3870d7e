//! A parsed camera log line.

use crate::calendar::{is_valid_date, is_valid_time};
use crate::text::{chars_of, decimal_digits, push_char, push_decimal, zero_padded};
use vstd::prelude::*;

verus! {

/// A calendar date and wall-clock time to the second, with no time zone.
#[derive(Debug, Clone, Copy, PartialEq, Eq)]
pub struct Timestamp {
    pub year: i32,
    pub month: u32,
    pub day: u32,
    pub hour: u32,
    pub minute: u32,
    pub second: u32,
}

/// `n` written in decimal with at least two digits.
pub open spec fn two_digit_text(n: nat) -> Seq<char> {
    zero_padded(decimal_digits(n), 2)
}

/// A year written with at least four digits; years outside 0..=9999 carry
/// an explicit sign.
pub open spec fn year_text(year: int) -> Seq<char> {
    if 0 <= year <= 9999 {
        zero_padded(decimal_digits(year as nat), 4)
    } else if year < 0 {
        seq!['-'] + zero_padded(decimal_digits((-year) as nat), 4)
    } else {
        seq!['+'] + zero_padded(decimal_digits(year as nat), 4)
    }
}

impl Timestamp {
    /// The date exists and the time of day is a real one.
    pub open spec fn is_valid(self) -> bool {
        is_valid_date(self.year as int, self.month as int, self.day as int) && is_valid_time(
            self.hour as int,
            self.minute as int,
            self.second as int,
        )
    }

    /// `YYYY-MM-DD HH:MM:SS`, the way chrono displays a date-time without
    /// fractional seconds.
    pub open spec fn text(self) -> Seq<char> {
        year_text(self.year as int) + seq!['-'] + two_digit_text(self.month as nat) + seq!['-']
            + two_digit_text(self.day as nat) + seq![' '] + two_digit_text(self.hour as nat)
            + seq![':'] + two_digit_text(self.minute as nat) + seq![':'] + two_digit_text(
            self.second as nat,
        )
    }

    /// The timestamp as text: see [`Timestamp::text`].
    pub fn to_string(&self) -> (s: String)
        ensures
            s@ == self.text(),
    {
        let mut s = String::new();
        if self.year >= 0 && self.year <= 9999 {
            push_padded(&mut s, self.year as u64, 4);
        } else if self.year < 0 {
            push_char(&mut s, '-');
            let magnitude: u64 = (-(self.year as i64)) as u64;
            push_padded(&mut s, magnitude, 4);
        } else {
            push_char(&mut s, '+');
            push_padded(&mut s, self.year as u64, 4);
        }
        push_char(&mut s, '-');
        push_padded(&mut s, self.month as u64, 2);
        push_char(&mut s, '-');
        push_padded(&mut s, self.day as u64, 2);
        push_char(&mut s, ' ');
        push_padded(&mut s, self.hour as u64, 2);
        push_char(&mut s, ':');
        push_padded(&mut s, self.minute as u64, 2);
        push_char(&mut s, ':');
        push_padded(&mut s, self.second as u64, 2);
        assert(s@ =~= self.text());
        s
    }
}

/// Number of decimal digits of `n`.
fn decimal_len(n: u64) -> (l: u64)
    ensures
        l == decimal_digits(n as nat).len(),
        1 <= l <= n + 1,
    decreases n,
{
    if n < 10 {
        1
    } else {
        let l = decimal_len(n / 10);
        assert(decimal_digits(n as nat) == decimal_digits((n / 10) as nat).push(
            crate::text::digit_char((n % 10) as nat),
        ));
        l + 1
    }
}

/// Appends `n` in decimal, padded on the left with zeros to `width`.
fn push_padded(s: &mut String, n: u64, width: u64)
    requires
        width <= 4,
    ensures
        final(s)@ == old(s)@ + zero_padded(decimal_digits(n as nat), width as nat),
{
    let l = decimal_len(n);
    let ghost start = s@;
    let mut k: u64 = l;
    while k < width
        invariant
            l <= k,
            l < width ==> k <= width,
            l >= width ==> k == l,
            l == decimal_digits(n as nat).len(),
            width <= 4,
            s@ == start + Seq::new((k - l) as nat, |i: int| '0'),
        decreases width - k,
    {
        push_char(s, '0');
        k = k + 1;
        assert(s@ =~= start + Seq::new((k - l) as nat, |i: int| '0'));
    }
    let ghost zeros = s@;
    push_decimal(s, n);
    proof {
        if l < width {
            assert(k == width);
        } else {
            assert(k == l);
            assert(Seq::new((k - l) as nat, |i: int| '0') =~= Seq::<char>::empty());
        }
        assert(s@ =~= old(s)@ + zero_padded(decimal_digits(n as nat), width as nat));
    }
}

/// One camera log line after parsing.
#[derive(Debug, Clone, PartialEq)]
pub struct ScanRecord {
    pub sequence: i64,
    pub timestamp: Timestamp,
    /// One inspection verdict per inspection step; their number depends on
    /// how the camera is set up.
    pub judgements: Vec<String>,
    pub qr_serial: String,
    pub mo: String,
    /// Lower-case hexadecimal SHA-256 of the trimmed raw line.
    pub record_key: String,
}

/// `s` equals "OK" when ASCII letter case is ignored.
pub open spec fn is_ok_verdict(s: Seq<char>) -> bool {
    &&& s.len() == 2
    &&& (s[0] == 'O' || s[0] == 'o')
    &&& (s[1] == 'K' || s[1] == 'k')
}

/// Every verdict passes, and there is at least one.
pub open spec fn all_ok(judgements: Seq<Seq<char>>) -> bool {
    &&& judgements.len() > 0
    &&& forall|i: int| 0 <= i < judgements.len() ==> #[trigger] is_ok_verdict(judgements[i])
}

fn verdict_is_ok(j: &String) -> (b: bool)
    ensures
        b == is_ok_verdict(j@),
{
    let c = chars_of(j.as_str());
    c.len() == 2 && (c[0] == 'O' || c[0] == 'o') && (c[1] == 'K' || c[1] == 'k')
}

impl ScanRecord {
    /// The verdicts as character sequences.
    pub open spec fn judgement_texts(self) -> Seq<Seq<char>> {
        self.judgements@.map_values(|j: String| j@)
    }

    /// The record passes overall when it has verdicts and each of them is
    /// "OK" in any letter case.
    pub fn overall_ok(&self) -> (b: bool)
        ensures
            b == all_ok(self.judgement_texts()),
            b == (self.judgements@.len() > 0 && forall|i: int|
                0 <= i < self.judgements@.len() ==> #[trigger] is_ok_verdict(self.judgements@[i]@)),
    {
        let n = self.judgements.len();
        if n == 0 {
            return false;
        }
        let mut i: usize = 0;
        while i < n
            invariant
                n == self.judgements.len(),
                i <= n,
                forall|k: int| 0 <= k < i ==> #[trigger] is_ok_verdict(self.judgements@[k]@),
            decreases n - i,
        {
            if !verdict_is_ok(&self.judgements[i]) {
                assert(!is_ok_verdict(self.judgement_texts()[i as int]));
                return false;
            }
            i = i + 1;
        }
        assert forall|k: int| 0 <= k < self.judgement_texts().len() implies #[trigger] is_ok_verdict(
            self.judgement_texts()[k],
        ) by {
            assert(self.judgement_texts()[k] == self.judgements@[k]@);
        }
        true
    }
}

/// What the overall verdict means: a record passes exactly when it has at
/// least one verdict and every verdict, wherever it stands, is the two
/// letters O and K in any case; a single other verdict anywhere fails it.
pub proof fn lemma_overall_verdict(judgements: Seq<Seq<char>>)
    ensures
        all_ok(judgements) <==> (judgements.len() > 0 && forall|i: int|
            0 <= i < judgements.len() ==> {
                &&& (#[trigger] judgements[i]).len() == 2
                &&& (judgements[i][0] == 'O' || judgements[i][0] == 'o')
                &&& (judgements[i][1] == 'K' || judgements[i][1] == 'k')
            }),
        forall|i: int|
            0 <= i < judgements.len() && !(#[trigger] judgements[i] =~= seq!['O', 'K']) && !(
            judgements[i] =~= seq!['o', 'k']) && !(judgements[i] =~= seq!['O', 'k']) && !(
            judgements[i] =~= seq!['o', 'K']) ==> !all_ok(judgements),
        judgements.len() == 0 ==> !all_ok(judgements),
{
    assert forall|i: int|
        0 <= i < judgements.len() && !(#[trigger] judgements[i] =~= seq!['O', 'K']) && !(
        judgements[i] =~= seq!['o', 'k']) && !(judgements[i] =~= seq!['O', 'k']) && !(
        judgements[i] =~= seq!['o', 'K']) implies !all_ok(judgements) by {
        if all_ok(judgements) {
            let j = judgements[i];
            assert(is_ok_verdict(j));
            if j[0] == 'O' && j[1] == 'K' {
                assert(j =~= seq!['O', 'K']);
            } else if j[0] == 'o' && j[1] == 'k' {
                assert(j =~= seq!['o', 'k']);
            } else if j[0] == 'O' {
                assert(j =~= seq!['O', 'k']);
            } else {
                assert(j =~= seq!['o', 'K']);
            }
        }
    }
}

} // verus!
