//! Calendar month values and their canonical `YYYY-MM` text.
use vstd::prelude::*;

verus! {

/// A calendar month: a year and a month number within `1..=12`.
#[derive(Clone, Copy, Debug, PartialEq, Eq, Hash, Structural)]
pub struct MonthScalar {
    pub year: i32,
    pub month: u8,
}

/// Why a month text was rejected.
#[derive(Clone, Copy, Debug, PartialEq, Eq, Structural)]
pub enum MonthError {
    /// The text does not split into exactly two parts on `-`.
    Format,
    /// The year part is not an integer that fits in an `i32`.
    InvalidYear,
    /// The month part is not an integer that fits in a `u8`.
    InvalidMonth,
    /// The month number lies outside `1..=12`.
    OutOfRange,
}

pub open spec fn is_digit(c: char) -> bool {
    '0' <= c && c <= '9'
}

pub open spec fn digit_value(c: char) -> int {
    (c as int) - ('0' as int)
}

pub open spec fn digit_char(d: nat) -> char {
    ((d + 48) as u32) as char
}

pub open spec fn all_digits(s: Seq<char>) -> bool {
    forall|i: int| 0 <= i < s.len() ==> is_digit(#[trigger] s[i])
}

pub open spec fn dash_free(s: Seq<char>) -> bool {
    forall|i: int| 0 <= i < s.len() ==> #[trigger] s[i] != '-'
}

/// The number written by a string of decimal digits.
pub open spec fn decimal_value(s: Seq<char>) -> nat
    decreases s.len(),
{
    if s.len() == 0 {
        0
    } else {
        decimal_value(s.drop_last()) * 10 + digit_value(s.last()) as nat
    }
}

/// The digits of an unsigned integer text: what follows an optional leading `+`.
pub open spec fn unsigned_digits(t: Seq<char>) -> Seq<char> {
    if t.len() > 0 && t[0] == '+' {
        t.drop_first()
    } else {
        t
    }
}

/// An optional `+` followed by one or more decimal digits.
pub open spec fn is_unsigned_text(t: Seq<char>) -> bool {
    unsigned_digits(t).len() > 0 && all_digits(unsigned_digits(t))
}

pub open spec fn unsigned_value(t: Seq<char>) -> nat {
    decimal_value(unsigned_digits(t))
}

/// Index of the first `-` in `s`, or `s.len()` when there is none.
pub open spec fn dash_index(s: Seq<char>) -> int
    decreases s.len(),
{
    if s.len() == 0 {
        0
    } else if s[0] == '-' {
        0
    } else {
        1 + dash_index(s.drop_first())
    }
}

/// What month text parses to: exactly one `-`, a year that fits in `i32`, and a
/// month number that fits in `u8` and lies within `1..=12`.
pub open spec fn parse_month_text(s: Seq<char>) -> Result<MonthScalar, MonthError> {
    let k = dash_index(s);
    let y = s.subrange(0, k);
    let m = s.subrange(k + 1, s.len() as int);
    if k >= s.len() || !dash_free(m) {
        Err(MonthError::Format)
    } else if !is_unsigned_text(y) || unsigned_value(y) > i32::MAX {
        Err(MonthError::InvalidYear)
    } else if !is_unsigned_text(m) || unsigned_value(m) > u8::MAX {
        Err(MonthError::InvalidMonth)
    } else if !(1 <= unsigned_value(m) <= 12) {
        Err(MonthError::OutOfRange)
    } else {
        Ok(MonthScalar { year: unsigned_value(y) as i32, month: unsigned_value(m) as u8 })
    }
}

/// Decimal digits of `n`, without leading zeros.
pub open spec fn decimal(n: nat) -> Seq<char>
    decreases n,
{
    if n < 10 {
        seq![digit_char(n)]
    } else {
        decimal(n / 10) + seq![digit_char(n % 10)]
    }
}

/// `s` with zeros put in front until it is `w` characters long.
pub open spec fn zero_pad(s: Seq<char>, w: nat) -> Seq<char> {
    if s.len() < w {
        Seq::new((w - s.len()) as nat, |i: int| '0') + s
    } else {
        s
    }
}

/// The year at width four, zeros after the sign.
pub open spec fn year_text(y: int) -> Seq<char> {
    if y >= 0 {
        zero_pad(decimal(y as nat), 4)
    } else {
        seq!['-'] + zero_pad(decimal((-y) as nat), 3)
    }
}

/// The canonical text `YYYY-MM` of a year and month.
pub open spec fn month_text(y: int, m: nat) -> Seq<char> {
    year_text(y) + seq!['-'] + zero_pad(decimal(m), 2)
}

impl MonthScalar {
    pub open spec fn wf(&self) -> bool {
        1 <= self.month <= 12
    }

    pub open spec fn text(&self) -> Seq<char> {
        month_text(self.year as int, self.month as nat)
    }

    /// Canonical text of the month: four-digit year, `-`, two-digit month.
    pub fn as_str(&self) -> (r: String)
        ensures
            r@ == self.text(),
    {
        let mut out = String::new();
        if self.year >= 0 {
            push_padded(&mut out, self.year as u32, 4);
        } else {
            let minus = "-";
            proof {
                reveal_strlit("-");
            }
            out.append(minus);
            let magnitude: u32 = (-(self.year as i64)) as u32;
            push_padded(&mut out, magnitude, 3);
        }
        let dash = "-";
        proof {
            reveal_strlit("-");
        }
        out.append(dash);
        push_padded(&mut out, self.month as u32, 2);
        proof {
            assert(out@ =~= self.text());
        }
        out
    }

    /// Reads month text of the form `YYYY-MM`.
    pub fn parse(text: &str) -> (r: Result<MonthScalar, MonthError>)
        ensures
            r == parse_month_text(text@),
            r is Ok ==> r->Ok_0.wf(),
    {
        let ghost s = text@;
        let n = text.unicode_len();
        let mut k: usize = 0;
        while k < n
            invariant
                s == text@,
                n == s.len(),
                k <= n,
                forall|i: int| 0 <= i < k ==> s[i] != '-',
            ensures
                k == n || s[k as int] == '-',
                k <= n,
                forall|i: int| 0 <= i < k ==> s[i] != '-',
            decreases n - k,
        {
            if text.get_char(k) == '-' {
                break;
            }
            k = k + 1;
        }
        proof {
            lemma_dash_index(s, k as int);
        }
        if k >= n {
            return Err(MonthError::Format);
        }
        let mut j: usize = k + 1;
        while j < n
            invariant
                s == text@,
                n == s.len(),
                k < j <= n,
                dash_index(s) == k,
                forall|i: int| k < i < j ==> s[i] != '-',
            decreases n - j,
        {
            if text.get_char(j) == '-' {
                proof {
                    let m = s.subrange(k + 1, n as int);
                    assert(m[j - k - 1] == '-');
                    assert(!dash_free(m));
                    assert(dash_index(s) == k);
                }
                return Err(MonthError::Format);
            }
            j = j + 1;
        }
        let year_part = text.substring_char(0, k);
        let month_part = text.substring_char(k + 1, n);
        proof {
            assert(dash_free(s.subrange(k + 1, n as int)));
        }
        let year = match parse_unsigned(year_part, 2147483647) {
            Some(v) => v,
            None => {
                return Err(MonthError::InvalidYear);
            },
        };
        let month = match parse_unsigned(month_part, 255) {
            Some(v) => v,
            None => {
                return Err(MonthError::InvalidMonth);
            },
        };
        if month < 1 || month > 12 {
            return Err(MonthError::OutOfRange);
        }
        Ok(MonthScalar { year: year as i32, month: month as u8 })
    }
}

/// Canonical text round trip: the text of a month whose year is at least zero
/// parses back to that month, and formatting the result gives the text again.
pub proof fn lemma_month_text_round_trip(year: i32, month: u8)
    requires
        0 <= year,
        1 <= month <= 12,
    ensures
        parse_month_text(month_text(year as int, month as nat)) == (Ok::<MonthScalar, MonthError>(
            MonthScalar { year, month },
        )),
        (MonthScalar { year, month }).text() == month_text(year as int, month as nat),
{
    let yt = zero_pad(decimal(year as nat), 4);
    let mt = zero_pad(decimal(month as nat), 2);
    let s = month_text(year as int, month as nat);
    lemma_decimal_facts(year as nat);
    lemma_decimal_facts(month as nat);
    lemma_zero_pad(decimal(year as nat), 4);
    lemma_zero_pad(decimal(month as nat), 2);
    assert(s =~= yt + seq!['-'] + mt);
    let k = yt.len() as int;
    assert forall|i: int| 0 <= i < k implies s[i] != '-' by {
        assert(s[i] == yt[i]);
    }
    lemma_dash_index(s, k);
    assert(s.subrange(0, k) =~= yt);
    assert(s.subrange(k + 1, s.len() as int) =~= mt);
    assert(unsigned_digits(yt) == yt);
    assert(unsigned_digits(mt) == mt);
}

proof fn lemma_decimal_facts(n: nat)
    ensures
        decimal(n).len() > 0,
        all_digits(decimal(n)),
        dash_free(decimal(n)),
        decimal(n)[0] != '+',
        decimal_value(decimal(n)) == n,
    decreases n,
{
    if n >= 10 {
        lemma_decimal_facts(n / 10);
        let d = decimal(n);
        assert(d.drop_last() =~= decimal(n / 10));
        assert(d.last() == digit_char(n % 10));
        assert(digit_value(digit_char(n % 10)) == n % 10);
        assert((n / 10) * 10 + n % 10 == n);
        assert(decimal_value(d) == decimal_value(d.drop_last()) * 10 + digit_value(d.last()) as nat);
        assert(decimal_value(d.drop_last()) == n / 10);
        assert forall|i: int| 0 <= i < d.len() implies is_digit(#[trigger] d[i]) && d[i] != '-' by {
            if i < d.len() - 1 {
                assert(d[i] == decimal(n / 10)[i]);
            }
        }
    } else {
        let d = decimal(n);
        assert(d.drop_last() =~= Seq::<char>::empty());
        assert(digit_value(digit_char(n)) == n);
        assert(decimal_value(d) == decimal_value(d.drop_last()) * 10 + digit_value(d.last()) as nat);
    }
}

proof fn lemma_zeros_value(k: nat)
    ensures
        decimal_value(Seq::new(k, |i: int| '0')) == 0,
    decreases k,
{
    if k > 0 {
        assert(Seq::new(k, |i: int| '0').drop_last() =~= Seq::new((k - 1) as nat, |i: int| '0'));
        lemma_zeros_value((k - 1) as nat);
    }
}

proof fn lemma_zeros_prefix_value(k: nat, s: Seq<char>)
    ensures
        decimal_value(Seq::new(k, |i: int| '0') + s) == decimal_value(s),
    decreases s.len(),
{
    let z = Seq::new(k, |i: int| '0');
    if s.len() == 0 {
        assert(z + s =~= z);
        lemma_zeros_value(k);
    } else {
        assert((z + s).drop_last() =~= z + s.drop_last());
        assert((z + s).last() == s.last());
        lemma_zeros_prefix_value(k, s.drop_last());
    }
}

proof fn lemma_zero_pad(s: Seq<char>, w: nat)
    requires
        s.len() > 0,
        all_digits(s),
    ensures
        zero_pad(s, w).len() > 0,
        all_digits(zero_pad(s, w)),
        dash_free(zero_pad(s, w)),
        zero_pad(s, w)[0] != '+',
        decimal_value(zero_pad(s, w)) == decimal_value(s),
{
    if s.len() < w {
        let z = Seq::new((w - s.len()) as nat, |i: int| '0');
        let p = z + s;
        assert forall|i: int| 0 <= i < p.len() implies is_digit(#[trigger] p[i]) && p[i] != '-' by {
            if i >= z.len() {
                assert(p[i] == s[i - z.len()]);
            }
        }
        lemma_zeros_prefix_value((w - s.len()) as nat, s);
    } else {
        assert(is_digit(s[0]));
        assert forall|i: int| 0 <= i < s.len() implies s[i] != '-' by {
            assert(is_digit(s[i]));
        }
    }
}

proof fn lemma_dash_index(s: Seq<char>, k: int)
    requires
        0 <= k <= s.len(),
        forall|i: int| 0 <= i < k ==> s[i] != '-',
        k == s.len() || s[k] == '-',
    ensures
        dash_index(s) == k,
    decreases k,
{
    if k > 0 {
        let t = s.drop_first();
        assert forall|i: int| 0 <= i < k - 1 implies t[i] != '-' by {
            assert(t[i] == s[i + 1]);
        }
        lemma_dash_index(t, k - 1);
    }
}

proof fn lemma_prefix_value_le(d: Seq<char>, j: int)
    requires
        0 <= j <= d.len(),
    ensures
        decimal_value(d.subrange(0, j)) <= decimal_value(d),
    decreases d.len(),
{
    if j < d.len() {
        assert(d.drop_last().subrange(0, j) =~= d.subrange(0, j));
        lemma_prefix_value_le(d.drop_last(), j);
    } else {
        assert(d.subrange(0, j) =~= d);
    }
}

/// Reads an optional `+` and then decimal digits, as long as the value stays
/// within `bound`.
fn parse_unsigned(t: &str, bound: u32) -> (r: Option<u32>)
    ensures
        r == (if is_unsigned_text(t@) && unsigned_value(t@) <= bound {
            Some(unsigned_value(t@) as u32)
        } else {
            None::<u32>
        }),
{
    let n = t.unicode_len();
    let start: usize = if n > 0 && t.get_char(0) == '+' { 1 } else { 0 };
    let ghost d = unsigned_digits(t@);
    proof {
        if start == 1 {
            assert(d =~= t@.subrange(1, n as int));
        } else {
            assert(d =~= t@.subrange(0, n as int));
        }
    }
    if start >= n {
        return None;
    }
    let mut acc: u32 = 0;
    let mut i: usize = start;
    while i < n
        invariant
            n == t@.len(),
            start <= i <= n,
            d == t@.subrange(start as int, n as int),
            d == unsigned_digits(t@),
            acc <= bound,
            all_digits(d.subrange(0, i - start)),
            acc == decimal_value(d.subrange(0, i - start)),
        decreases n - i,
    {
        let c = t.get_char(i);
        if c < '0' || c > '9' {
            proof {
                assert(d[i - start] == c);
                assert(!is_digit(d[i - start]));
                assert(!all_digits(d));
            }
            return None;
        }
        let dv: u32 = (c as u32) - ('0' as u32);
        let next: u64 = (acc as u64) * 10 + (dv as u64);
        proof {
            let p = d.subrange(0, i - start + 1);
            assert(p.drop_last() =~= d.subrange(0, i - start));
            assert(p.last() == c);
            assert(decimal_value(p) == next);
            assert(all_digits(p));
        }
        if next > bound as u64 {
            proof {
                if all_digits(d) {
                    lemma_prefix_value_le(d, i - start + 1);
                    assert(decimal_value(d) > bound);
                }
            }
            return None;
        }
        acc = next as u32;
        i = i + 1;
    }
    proof {
        assert(d.subrange(0, n - start) =~= d);
    }
    Some(acc)
}

/// The one-character text of a decimal digit.
fn digit_str(v: u32) -> (r: &'static str)
    requires
        v < 10,
    ensures
        r@ == seq![digit_char(v as nat)],
{
    proof {
        reveal_strlit("0");
        reveal_strlit("1");
        reveal_strlit("2");
        reveal_strlit("3");
        reveal_strlit("4");
        reveal_strlit("5");
        reveal_strlit("6");
        reveal_strlit("7");
        reveal_strlit("8");
        reveal_strlit("9");
    }
    let r = if v == 0 {
        "0"
    } else if v == 1 {
        "1"
    } else if v == 2 {
        "2"
    } else if v == 3 {
        "3"
    } else if v == 4 {
        "4"
    } else if v == 5 {
        "5"
    } else if v == 6 {
        "6"
    } else if v == 7 {
        "7"
    } else if v == 8 {
        "8"
    } else {
        "9"
    };
    assert(r@ =~= seq![digit_char(v as nat)]);
    r
}

fn push_decimal(out: &mut String, n: u32)
    ensures
        final(out)@ == old(out)@ + decimal(n as nat),
    decreases n,
{
    if n >= 10 {
        push_decimal(out, n / 10);
    }
    out.append(digit_str(n % 10));
    assert(out@ =~= old(out)@ + decimal(n as nat));
}

proof fn lemma_decimal_len(n: nat)
    ensures
        n < 10 ==> decimal(n).len() == 1,
        10 <= n < 100 ==> decimal(n).len() == 2,
        100 <= n < 1000 ==> decimal(n).len() == 3,
        1000 <= n ==> decimal(n).len() >= 4,
    decreases n,
{
    if n >= 10 {
        lemma_decimal_len(n / 10);
    }
}

/// Length of the decimal digits of `n`, counted up to four.
fn decimal_len_upto4(n: u32) -> (r: usize)
    ensures
        r == (if decimal(n as nat).len() < 4 { decimal(n as nat).len() } else { 4 }),
{
    proof {
        lemma_decimal_len(n as nat);
    }
    if n < 10 {
        1
    } else if n < 100 {
        2
    } else if n < 1000 {
        3
    } else {
        4
    }
}

fn push_padded(out: &mut String, n: u32, w: usize)
    requires
        w <= 4,
    ensures
        final(out)@ == old(out)@ + zero_pad(decimal(n as nat), w as nat),
{
    let len = decimal_len_upto4(n);
    let mut k: usize = len;
    let zero = "0";
    proof {
        reveal_strlit("0");
    }
    let ghost start = out@;
    while k < w
        invariant
            zero@ == seq!['0'],
            len <= k,
            k <= w || k == len,
            len == (if decimal(n as nat).len() < 4 { decimal(n as nat).len() } else { 4 }),
            out@ == start + Seq::new((k - len) as nat, |i: int| '0'),
        decreases w - k,
    {
        out.append(zero);
        k = k + 1;
        proof {
            assert(out@ =~= start + Seq::new((k - len) as nat, |i: int| '0'));
        }
    }
    push_decimal(out, n);
    assert(out@ =~= start + zero_pad(decimal(n as nat), w as nat));
}

} // verus!
