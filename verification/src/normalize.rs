//! Field normalizers: pure functions from one textual field to a fixed
//! number of bounded rational feature values.

use vstd::prelude::*;
use vstd::string::StrSliceExecFns;

use crate::entry::{Entry, EntryV};
use crate::feature::{Error, Feat, Rat, feats_wf, normalized, rats, sentinel};

verus! {

// ------------------------------------------------------------------
// Decimal digits
// ------------------------------------------------------------------
/// `c` is an ASCII decimal digit.
pub open spec fn is_digit(c: char) -> bool {
    48 <= c as u32 && c as u32 <= 57
}

/// Every character of `s` is a decimal digit (vacuously true of the empty text).
pub open spec fn all_digits(s: Seq<char>) -> bool {
    forall|i: int| 0 <= i < s.len() ==> is_digit(#[trigger] s[i])
}

/// `s` is a non-empty run of decimal digits.
pub open spec fn digits_ok(s: Seq<char>) -> bool {
    s.len() > 0 && all_digits(s)
}

/// The base-ten value of a digit run (0 for the empty run).
pub open spec fn digits_val(s: Seq<char>) -> int
    decreases s.len(),
{
    if s.len() == 0 {
        0
    } else {
        digits_val(s.drop_last()) * 10 + (s.last() as u32 - 48)
    }
}

pub proof fn lemma_digits_val_nonneg(s: Seq<char>)
    requires
        all_digits(s),
    ensures
        digits_val(s) >= 0,
    decreases s.len(),
{
    if s.len() > 0 {
        assert(all_digits(s.drop_last()));
        lemma_digits_val_nonneg(s.drop_last());
    }
}

/// A digit run is worth at least any of its prefixes.
pub proof fn lemma_digits_val_prefix_le(s: Seq<char>, i: int)
    requires
        all_digits(s),
        0 <= i <= s.len(),
    ensures
        0 <= digits_val(s.subrange(0, i)) <= digits_val(s),
    decreases s.len() - i,
{
    assert(all_digits(s.subrange(0, i)));
    lemma_digits_val_nonneg(s.subrange(0, i));
    if i < s.len() {
        lemma_digits_val_prefix_le(s, i + 1);
        assert(s.subrange(0, i + 1).drop_last() =~= s.subrange(0, i));
        assert(s.subrange(0, i + 1).last() == s[i]);
        assert(digits_val(s.subrange(0, i + 1)) == digits_val(s.subrange(0, i)) * 10 + (s[i] as u32
            - 48));
        assert(digits_val(s.subrange(0, i)) * 10 >= digits_val(s.subrange(0, i))) by (nonlinear_arith)
            requires
                digits_val(s.subrange(0, i)) >= 0,
        ;
    } else {
        assert(s.subrange(0, i) =~= s);
    }
}

// ------------------------------------------------------------------
// Scanning for a separator
// ------------------------------------------------------------------
/// Index of the first occurrence of `stop` in `s` at or after `from`,
/// or `s.len()` if there is none.
pub open spec fn scan_to(s: Seq<char>, from: int, stop: char) -> int
    decreases s.len() - from,
{
    if from < 0 || from >= s.len() {
        s.len() as int
    } else if s[from] == stop {
        from
    } else {
        scan_to(s, from + 1, stop)
    }
}

pub proof fn lemma_scan_to(s: Seq<char>, from: int, stop: char)
    requires
        0 <= from <= s.len(),
    ensures
        from <= scan_to(s, from, stop) <= s.len(),
        scan_to(s, from, stop) < s.len() ==> s[scan_to(s, from, stop)] == stop,
        forall|k: int| from <= k < scan_to(s, from, stop) ==> s[k] != stop,
    decreases s.len() - from,
{
    if from < s.len() && s[from] != stop {
        lemma_scan_to(s, from + 1, stop);
    }
}

/// Returns the index of the first `stop` character at or after `from`,
/// or the length of `v` if there is none.
fn find_from(v: &Vec<char>, from: usize, stop: char) -> (e: usize)
    requires
        from <= v@.len(),
    ensures
        e as int == scan_to(v@, from as int, stop),
{
    let n = v.len();
    let mut i = from;
    while i < n
        invariant
            from <= i <= n,
            n == v@.len(),
            scan_to(v@, from as int, stop) == scan_to(v@, i as int, stop),
        decreases n - i,
    {
        if v[i] == stop {
            return i;
        }
        i = i + 1;
    }
    i
}

/// The characters of `s`, in order, as a vector.
fn chars_of(s: &str) -> (v: Vec<char>)
    ensures
        v@ == s@,
{
    let n = s.unicode_len();
    let mut v: Vec<char> = Vec::new();
    let mut i: usize = 0;
    while i < n
        invariant
            i <= n,
            n == s@.len(),
            v@ == s@.subrange(0, i as int),
        decreases n - i,
    {
        let c = s.get_char(i);
        v.push(c);
        proof {
            assert(s@.subrange(0, i + 1) =~= s@.subrange(0, i as int).push(c));
        }
        i = i + 1;
    }
    proof {
        assert(s@.subrange(0, n as int) =~= s@);
    }
    v
}

/// Parses `v[from..to]` as a run of decimal digits, refusing the empty
/// run, any non-digit, and any value above `cap`.
fn parse_digits(v: &Vec<char>, from: usize, to: usize, cap: u64) -> (r: Option<u64>)
    requires
        from <= to <= v@.len(),
    ensures
        r is Some <==> digits_ok(v@.subrange(from as int, to as int)) && digits_val(
            v@.subrange(from as int, to as int),
        ) <= cap,
        r is Some ==> r->0 as int == digits_val(v@.subrange(from as int, to as int)),
{
    let ghost sub = v@.subrange(from as int, to as int);
    if from == to {
        return None;
    }
    let mut acc: u64 = 0;
    let mut i = from;
    while i < to
        invariant
            from <= i <= to <= v@.len(),
            sub == v@.subrange(from as int, to as int),
            all_digits(sub.subrange(0, i - from)),
            acc as int == digits_val(sub.subrange(0, i - from)),
            acc <= cap,
        decreases to - i,
    {
        let c = v[i];
        let code = c as u32;
        proof {
            assert(sub.subrange(0, i - from + 1).drop_last() =~= sub.subrange(0, i - from));
            assert(sub.subrange(0, i - from + 1).last() == sub[i - from]);
            assert(sub[i - from] == v@[i as int]);
        }
        if code < 48 || code > 57 {
            proof {
                assert(!is_digit(sub[i - from]));
            }
            return None;
        }
        let d = (code - 48) as u64;
        let ghost next_val = digits_val(sub.subrange(0, i - from + 1));
        proof {
            assert(next_val == digits_val(sub.subrange(0, i - from)) * 10 + (sub[i - from] as u32
                - 48));
            assert(next_val == acc as int * 10 + d);
        }
        let exceeded: bool = if acc > cap / 10 {
            true
        } else {
            proof {
                assert(acc * 10 <= (cap / 10) * 10 <= cap) by (nonlinear_arith)
                    requires
                        acc <= cap / 10,
                ;
            }
            let n10 = acc * 10;
            if d > cap - n10 {
                true
            } else {
                acc = n10 + d;
                false
            }
        };
        if exceeded {
            proof {
                assert(next_val > cap);
                if digits_ok(sub) && digits_val(sub) <= cap {
                    lemma_digits_val_prefix_le(sub, i - from + 1);
                }
            }
            return None;
        }
        i = i + 1;
    }
    proof {
        assert(sub.subrange(0, to - from) =~= sub);
    }
    Some(acc)
}

// ------------------------------------------------------------------
// Date normalizer
// ------------------------------------------------------------------
/// The day component: everything before the first `-`.
pub open spec fn day_str(s: Seq<char>) -> Seq<char> {
    s.subrange(0, scan_to(s, 0, '-'))
}

/// The month component: between the first and the second `-`.
pub open spec fn month_str(s: Seq<char>) -> Seq<char> {
    let e1 = scan_to(s, 0, '-');
    s.subrange(e1 + 1, scan_to(s, e1 + 1, '-'))
}

/// The year component: between the second and the third `-` (or the end).
pub open spec fn year_str(s: Seq<char>) -> Seq<char> {
    let e1 = scan_to(s, 0, '-');
    let e2 = scan_to(s, e1 + 1, '-');
    s.subrange(e2 + 1, scan_to(s, e2 + 1, '-'))
}

/// `s` parses as a date: at least three `-`-separated components, the
/// first three of which are digit runs (components past the third are
/// ignored).  Each value must fit in a `u32`.
pub open spec fn date_ok(s: Seq<char>) -> bool {
    let e1 = scan_to(s, 0, '-');
    let e2 = scan_to(s, e1 + 1, '-');
    &&& e1 < s.len()
    &&& e2 < s.len()
    &&& digits_ok(day_str(s))
    &&& digits_val(day_str(s)) <= u32::MAX
    &&& digits_ok(month_str(s))
    &&& digits_val(month_str(s)) <= u32::MAX
    &&& digits_ok(year_str(s))
    &&& digits_val(year_str(s)) <= u32::MAX
}

/// The three values of a date: day against `[1, 31]`, month against
/// `[1, 12]`, year against `[1970, 2040]`.
pub open spec fn date_rats(s: Seq<char>) -> Seq<Rat> {
    seq![
        normalized(digits_val(day_str(s)), 1, 31),
        normalized(digits_val(month_str(s)), 1, 12),
        normalized(digits_val(year_str(s)), 1970, 2040),
    ]
}

/// Turns a `DD-MM-YYYY` date into its three normalized values.
pub fn normalize_date(date: &str) -> (r: Result<Vec<Feat>, Error>)
    ensures
        r is Ok <==> date_ok(date@),
        r is Ok ==> rats(r->Ok_0@) == date_rats(date@),
        r is Ok ==> r->Ok_0@.len() == 3 && feats_wf(r->Ok_0@),
        r is Err ==> r->Err_0 == Error::ParseError,
{
    let v = chars_of(date);
    let n = v.len();
    let e1 = find_from(&v, 0, '-');
    proof {
        lemma_scan_to(v@, 0, '-');
    }
    if e1 == n {
        return Err(Error::ParseError);
    }
    let e2 = find_from(&v, e1 + 1, '-');
    proof {
        lemma_scan_to(v@, e1 + 1, '-');
    }
    if e2 == n {
        return Err(Error::ParseError);
    }
    let e3 = find_from(&v, e2 + 1, '-');
    proof {
        lemma_scan_to(v@, e2 + 1, '-');
    }
    let cap: u64 = u32::MAX as u64;
    let day = match parse_digits(&v, 0, e1, cap) {
        Some(d) => d,
        None => {
            return Err(Error::ParseError);
        },
    };
    let month = match parse_digits(&v, e1 + 1, e2, cap) {
        Some(m) => m,
        None => {
            return Err(Error::ParseError);
        },
    };
    let year = match parse_digits(&v, e2 + 1, e3, cap) {
        Some(y) => y,
        None => {
            return Err(Error::ParseError);
        },
    };
    let mut out: Vec<Feat> = Vec::new();
    out.push(Feat { num: day as i64 - 1, den: 30 });
    out.push(Feat { num: month as i64 - 1, den: 11 });
    out.push(Feat { num: year as i64 - 1970, den: 70 });
    proof {
        assert(rats(out@) =~= date_rats(date@));
    }
    Ok(out)
}

// ------------------------------------------------------------------
// Fixed-width text normalizer
// ------------------------------------------------------------------
/// The code point of `c` after ASCII upper-casing.
pub open spec fn upper_code(c: char) -> int {
    if 97 <= c as u32 && c as u32 <= 122 {
        c as u32 - 32
    } else {
        c as u32 as int
    }
}

/// One character's value: its upper-cased code point against `[48, 90]`.
pub open spec fn char_rat(c: char) -> Rat {
    normalized(upper_code(c), 48, 90)
}

/// A text of length `L <= w` fills `w` slots: its `L` character values,
/// then `w - L` sentinels.
pub open spec fn text_rats(s: Seq<char>, w: int) -> Seq<Rat> {
    Seq::new(
        w as nat,
        |i: int|
            if i < s.len() {
                char_rat(s[i])
            } else {
                sentinel()
            },
    )
}

/// Turns free text into exactly `width` slots, upper-casing each
/// character and padding with sentinels; text wider than `width` is
/// refused rather than truncated.
pub fn normalize_string(text: &str, width: usize) -> (r: Result<Vec<Feat>, Error>)
    ensures
        r is Ok <==> text@.len() <= width,
        r is Ok ==> rats(r->Ok_0@) == text_rats(text@, width as int),
        r is Ok ==> r->Ok_0@.len() == width && feats_wf(r->Ok_0@),
        r is Err ==> r->Err_0 == Error::InvariantViolation,
{
    let n = text.unicode_len();
    if n > width {
        return Err(Error::InvariantViolation);
    }
    let mut out: Vec<Feat> = Vec::new();
    let mut i: usize = 0;
    while i < n
        invariant
            i <= n <= width,
            n == text@.len(),
            out@.len() == i,
            forall|j: int| 0 <= j < i ==> (#[trigger] out@[j])@ == char_rat(text@[j]),
            forall|j: int| 0 <= j < i ==> (#[trigger] out@[j]).den == 42,
        decreases n - i,
    {
        let c = text.get_char(i);
        let code = c as u32;
        let up = if code >= 97 && code <= 122 {
            code - 32
        } else {
            code
        };
        out.push(Feat { num: up as i64 - 48, den: 42 });
        i = i + 1;
    }
    while i < width
        invariant
            n <= i <= width,
            n == text@.len(),
            out@.len() == i,
            forall|j: int| 0 <= j < n ==> (#[trigger] out@[j])@ == char_rat(text@[j]),
            forall|j: int| n <= j < i ==> (#[trigger] out@[j])@ == sentinel(),
            forall|j: int| 0 <= j < i ==> (#[trigger] out@[j]).den >= 1,
        decreases width - i,
    {
        out.push(Feat { num: -1, den: 1 });
        i = i + 1;
    }
    proof {
        assert(rats(out@) =~= text_rats(text@, width as int));
    }
    Ok(out)
}

// ------------------------------------------------------------------
// Currency normalizer
// ------------------------------------------------------------------
/// `s` with every `.` (thousands separator) removed.
pub open spec fn strip_dots(s: Seq<char>) -> Seq<char>
    decreases s.len(),
{
    if s.len() == 0 {
        Seq::empty()
    } else if s.last() == '.' {
        strip_dots(s.drop_last())
    } else {
        strip_dots(s.drop_last()).push(s.last())
    }
}

/// Whether the stripped text carries a leading minus sign.
pub open spec fn curr_neg(t: Seq<char>) -> bool {
    t.len() > 0 && t[0] == '-'
}

/// The stripped text without its sign.
pub open spec fn curr_body(t: Seq<char>) -> Seq<char> {
    if curr_neg(t) {
        t.drop_first()
    } else {
        t
    }
}

/// The integer digits of a currency body: everything before the decimal comma.
pub open spec fn int_str(b: Seq<char>) -> Seq<char> {
    b.subrange(0, scan_to(b, 0, ','))
}

/// The fractional digits of a currency body: everything after the
/// decimal comma, or empty if there is none.
pub open spec fn frac_str(b: Seq<char>) -> Seq<char> {
    let k = scan_to(b, 0, ',');
    if k < b.len() {
        b.subrange(k + 1, b.len() as int)
    } else {
        Seq::empty()
    }
}

/// `10^k`.
pub open spec fn pow10(k: nat) -> int
    decreases k,
{
    if k == 0 {
        1
    } else {
        10 * pow10((k - 1) as nat)
    }
}

/// All digits of a currency body, integer part then fractional part.
pub open spec fn curr_digits(b: Seq<char>) -> Seq<char> {
    int_str(b) + frac_str(b)
}

/// Non-empty currency text is well formed when, after stripping `.`,
/// it is an optional `-`, then digit runs on either side of at most one
/// decimal comma, with at least one digit in all.  The digit string
/// must fit in an `i64` and the fraction may carry at most 18 places.
pub open spec fn curr_ok_str(s: Seq<char>) -> bool {
    let b = curr_body(strip_dots(s));
    &&& all_digits(int_str(b))
    &&& all_digits(frac_str(b))
    &&& int_str(b).len() + frac_str(b).len() > 0
    &&& frac_str(b).len() <= 18
    &&& digits_val(curr_digits(b)) <= i64::MAX
}

/// Empty currency text stands for "no amount"; anything else must be
/// well-formed decimal-comma text.
pub open spec fn curr_ok(s: Seq<char>) -> bool {
    s.len() == 0 || curr_ok_str(s)
}

/// The single value of a currency field: the sentinel for empty text,
/// otherwise the signed decimal it spells, kept unnormalized.
pub open spec fn curr_rat(s: Seq<char>) -> Rat {
    if s.len() == 0 {
        sentinel()
    } else {
        let t = strip_dots(s);
        let b = curr_body(t);
        let mag = digits_val(curr_digits(b));
        Rat {
            num: if curr_neg(t) {
                -mag
            } else {
                mag
            },
            den: pow10(frac_str(b).len()),
        }
    }
}

proof fn lemma_pow10_18()
    ensures
        pow10(18) == 1000000000000000000,
{
    assert(pow10(0) == 1);
    assert(pow10(1) == 10);
    assert(pow10(2) == 100);
    assert(pow10(3) == 1000);
    assert(pow10(4) == 10000);
    assert(pow10(5) == 100000);
    assert(pow10(6) == 1000000);
    assert(pow10(7) == 10000000);
    assert(pow10(8) == 100000000);
    assert(pow10(9) == 1000000000);
    assert(pow10(10) == 10000000000);
    assert(pow10(11) == 100000000000);
    assert(pow10(12) == 1000000000000);
    assert(pow10(13) == 10000000000000);
    assert(pow10(14) == 100000000000000);
    assert(pow10(15) == 1000000000000000);
    assert(pow10(16) == 10000000000000000);
    assert(pow10(17) == 100000000000000000);
    assert(pow10(18) == 1000000000000000000);
}

proof fn lemma_pow10_bounds(k: nat)
    requires
        k <= 18,
    ensures
        0 < pow10(k) <= 1000000000000000000,
{
    lemma_pow10_18();
    lemma_pow10_mono(k, 18);
}

proof fn lemma_pow10_pos(k: nat)
    ensures
        pow10(k) > 0,
    decreases k,
{
    if k > 0 {
        lemma_pow10_pos((k - 1) as nat);
    }
}

proof fn lemma_pow10_mono(i: nat, j: nat)
    requires
        i <= j,
    ensures
        0 < pow10(i) <= pow10(j),
    decreases j,
{
    lemma_pow10_pos(i);
    if i < j {
        lemma_pow10_mono(i, (j - 1) as nat);
        assert(pow10((j - 1) as nat) <= 10 * pow10((j - 1) as nat)) by (nonlinear_arith)
            requires
                pow10((j - 1) as nat) > 0,
        ;
    }
}

/// A concatenation is all digits exactly when both halves are.
proof fn lemma_all_digits_concat(x: Seq<char>, y: Seq<char>)
    ensures
        all_digits(x + y) <==> (all_digits(x) && all_digits(y)),
{
    if all_digits(x + y) {
        assert forall|i: int| 0 <= i < x.len() implies is_digit(x[i]) by {
            assert((x + y)[i] == x[i]);
        }
        assert forall|i: int| 0 <= i < y.len() implies is_digit(y[i]) by {
            assert((x + y)[x.len() + i] == y[i]);
        }
    }
    if all_digits(x) && all_digits(y) {
        assert forall|i: int| 0 <= i < (x + y).len() implies is_digit((x + y)[i]) by {
            if i < x.len() {
                assert((x + y)[i] == x[i]);
            } else {
                assert((x + y)[i] == y[i - x.len()]);
            }
        }
    }
}

/// Turns a decimal-comma currency field into its single value: the
/// sentinel for empty text, the exact signed decimal otherwise.
pub fn normalize_currency(text: &str) -> (r: Result<Vec<Feat>, Error>)
    ensures
        r is Ok <==> curr_ok(text@),
        r is Ok ==> rats(r->Ok_0@) == seq![curr_rat(text@)],
        r is Ok ==> r->Ok_0@.len() == 1 && feats_wf(r->Ok_0@),
        r is Err ==> r->Err_0 == Error::ParseError,
{
    if text.is_empty() {
        let out = vec![Feat { num: -1, den: 1 }];
        proof {
            assert(rats(out@) =~= seq![curr_rat(text@)]);
        }
        return Ok(out);
    }
    let v = chars_of(text);
    // Strip the thousands-separator periods.
    let mut t: Vec<char> = Vec::new();
    let mut i: usize = 0;
    while i < v.len()
        invariant
            i <= v@.len(),
            t@ == strip_dots(v@.subrange(0, i as int)),
        decreases v@.len() - i,
    {
        let c = v[i];
        proof {
            assert(v@.subrange(0, i + 1).drop_last() =~= v@.subrange(0, i as int));
            assert(v@.subrange(0, i + 1).last() == v@[i as int]);
        }
        if c != '.' {
            t.push(c);
        }
        i = i + 1;
    }
    proof {
        assert(v@.subrange(0, v@.len() as int) =~= v@);
    }
    let ghost gt = strip_dots(text@);
    // Split off the sign.
    let neg = t.len() > 0 && t[0] == '-';
    let b0: usize = if neg {
        1
    } else {
        0
    };
    let mut body: Vec<char> = Vec::new();
    let mut i: usize = b0;
    while i < t.len()
        invariant
            b0 <= i <= t@.len(),
            body@ == t@.subrange(b0 as int, i as int),
        decreases t@.len() - i,
    {
        let c = t[i];
        proof {
            assert(t@.subrange(b0 as int, i + 1) =~= t@.subrange(b0 as int, i as int).push(
                t@[i as int],
            ));
        }
        body.push(c);
        i = i + 1;
    }
    proof {
        assert(body@ =~= curr_body(gt));
    }
    // Find the decimal comma and collect all digits around it.
    let k = find_from(&body, 0, ',');
    proof {
        lemma_scan_to(body@, 0, ',');
    }
    let mut digits: Vec<char> = Vec::new();
    let mut i: usize = 0;
    while i < k
        invariant
            i <= k,
            k as int == scan_to(body@, 0, ','),
            k <= body@.len(),
            digits@ == body@.subrange(0, i as int),
        decreases k - i,
    {
        proof {
            assert(body@.subrange(0, i + 1) =~= body@.subrange(0, i as int).push(body@[i as int]));
        }
        digits.push(body[i]);
        i = i + 1;
    }
    proof {
        assert(digits@ =~= int_str(body@));
    }
    let frac_len: usize = if k < body.len() {
        body.len() - (k + 1)
    } else {
        0
    };
    if k < body.len() {
        let mut i: usize = k + 1;
        while i < body.len()
            invariant
                k as int == scan_to(body@, 0, ','),
                (k as int) < body@.len(),
                k + 1 <= i <= body@.len(),
                digits@ == int_str(body@) + body@.subrange(k + 1, i as int),
            decreases body@.len() - i,
        {
            proof {
                assert(body@.subrange(k + 1, i + 1) =~= body@.subrange(k + 1, i as int).push(
                    body@[i as int],
                ));
            }
            digits.push(body[i]);
            i = i + 1;
        }
    }
    proof {
        assert(digits@ =~= curr_digits(body@));
        assert(frac_len as int == frac_str(body@).len());
    }
    if frac_len > 18 {
        return Err(Error::ParseError);
    }
    let mag = match parse_digits(&digits, 0, digits.len(), i64::MAX as u64) {
        Some(m) => m,
        None => {
            proof {
                assert(digits@.subrange(0, digits@.len() as int) =~= digits@);
                lemma_all_digits_concat(int_str(body@), frac_str(body@));
            }
            return Err(Error::ParseError);
        },
    };
    proof {
        assert(digits@.subrange(0, digits@.len() as int) =~= digits@);
        lemma_all_digits_concat(int_str(body@), frac_str(body@));
        lemma_pow10_bounds(frac_len as nat);
    }
    // 10^frac_len as the denominator.
    let mut den: u64 = 1;
    let mut e: usize = 0;
    while e < frac_len
        invariant
            e <= frac_len <= 18,
            den as int == pow10(e as nat),
        decreases frac_len - e,
    {
        proof {
            lemma_pow10_bounds(frac_len as nat);
            lemma_pow10_mono((e + 1) as nat, frac_len as nat);
        }
        den = den * 10;
        e = e + 1;
    }
    let num: i64 = if neg {
        -(mag as i64)
    } else {
        mag as i64
    };
    let out = vec![Feat { num, den }];
    proof {
        assert(rats(out@) =~= seq![curr_rat(text@)]);
    }
    Ok(out)
}

// ------------------------------------------------------------------
// Whole-record feature vector
// ------------------------------------------------------------------
/// Width of the description slot block.
pub const DESCRIPTION_WIDTH: usize = 21;

/// Total feature-vector width: 3 per date, 21 for the description, one
/// per amount.
pub const INPUT_WIDTH: usize = 29;

/// Every field of the record can be encoded.
pub open spec fn entry_ok(e: EntryV) -> bool {
    &&& date_ok(e.date_mov)
    &&& date_ok(e.date_val)
    &&& e.description.len() <= 21
    &&& curr_ok(e.debit)
    &&& curr_ok(e.credit)
}

/// The error reported for a record that cannot be encoded: the first
/// failing field decides, in field order.
pub open spec fn entry_err(e: EntryV) -> Error {
    if !date_ok(e.date_mov) || !date_ok(e.date_val) {
        Error::ParseError
    } else if e.description.len() > 21 {
        Error::InvariantViolation
    } else {
        Error::ParseError
    }
}

/// The 29 values of a record, in fixed field order.
pub open spec fn input_rats(e: EntryV) -> Seq<Rat> {
    date_rats(e.date_mov) + date_rats(e.date_val) + text_rats(e.description, 21) + seq![
        curr_rat(e.debit),
    ] + seq![curr_rat(e.credit)]
}

/// Law: the feature vector of any record is exactly 29 slots wide —
/// 3 per date, 21 for the description, 1 per amount — whatever the
/// fields hold.
pub proof fn lemma_input_width(e: EntryV)
    ensures
        input_rats(e).len() == 29,
{
}

/// Encodes one record's six non-category fields into exactly 29 slots:
/// movement date, value date, description, debit, credit.
pub fn normalize_input(entry: &Entry) -> (r: Result<Vec<Feat>, Error>)
    ensures
        r is Ok <==> entry_ok(entry@),
        r is Ok ==> rats(r->Ok_0@) == input_rats(entry@),
        r is Ok ==> r->Ok_0@.len() == 29 && feats_wf(r->Ok_0@),
        r is Err ==> r->Err_0 == entry_err(entry@),
{
    let mut date_mov = match normalize_date(entry.date_mov.as_str()) {
        Ok(f) => f,
        Err(e) => {
            return Err(e);
        },
    };
    let mut date_val = match normalize_date(entry.date_val.as_str()) {
        Ok(f) => f,
        Err(e) => {
            return Err(e);
        },
    };
    let mut description = match normalize_string(entry.description.as_str(), DESCRIPTION_WIDTH) {
        Ok(f) => f,
        Err(e) => {
            return Err(e);
        },
    };
    let mut debit = match normalize_currency(entry.debit.as_str()) {
        Ok(f) => f,
        Err(e) => {
            return Err(e);
        },
    };
    let mut credit = match normalize_currency(entry.credit.as_str()) {
        Ok(f) => f,
        Err(e) => {
            return Err(e);
        },
    };
    let mut out: Vec<Feat> = date_mov;
    out.append(&mut date_val);
    out.append(&mut description);
    out.append(&mut debit);
    out.append(&mut credit);
    proof {
        assert(rats(out@) =~= input_rats(entry@));
    }
    Ok(out)
}

} // verus!


