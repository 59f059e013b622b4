//! Numbers as text, text as numbers, and text search.

use vstd::prelude::*;
use vstd::string::StringExecFns;

verus! {

/// The character of one decimal digit.
pub open spec fn digit_char(d: int) -> char {
    if d == 0 {
        '0'
    } else if d == 1 {
        '1'
    } else if d == 2 {
        '2'
    } else if d == 3 {
        '3'
    } else if d == 4 {
        '4'
    } else if d == 5 {
        '5'
    } else if d == 6 {
        '6'
    } else if d == 7 {
        '7'
    } else if d == 8 {
        '8'
    } else {
        '9'
    }
}

/// `n` in decimal, without leading zeros.
pub open spec fn decimal(n: nat) -> Seq<char>
    decreases n,
{
    if n < 10 {
        seq![digit_char(n as int)]
    } else {
        decimal(n / 10).push(digit_char((n % 10) as int))
    }
}

/// `n` in decimal, with a minus sign where it is negative.
pub open spec fn signed_decimal(n: int) -> Seq<char> {
    if n < 0 {
        seq!['-'] + decimal((-n) as nat)
    } else {
        decimal(n as nat)
    }
}

/// `n` in decimal, padded with a zero to at least two digits.
pub open spec fn two_digits(n: nat) -> Seq<char> {
    if n < 10 {
        seq!['0'] + decimal(n)
    } else {
        decimal(n)
    }
}

/// Whether `c` is one of `0` to `9`.
pub open spec fn is_digit(c: char) -> bool {
    '0' <= c && c <= '9'
}

/// The number that a row of digits writes.
pub open spec fn digits_value(s: Seq<char>) -> nat
    decreases s.len(),
{
    if s.len() == 0 {
        0
    } else {
        (digits_value(s.drop_last()) * 10 + (s.last() as int - '0' as int)) as nat
    }
}

/// `s` without the plus sign that may stand in front.
pub open spec fn without_plus(s: Seq<char>) -> Seq<char> {
    if s.len() > 0 && s[0] == '+' {
        s.skip(1)
    } else {
        s
    }
}

/// Whether `s` is at least one digit, and nothing but digits, behind an optional plus sign.
pub open spec fn is_unsigned(s: Seq<char>) -> bool {
    let d = without_plus(s);
    d.len() > 0 && forall|i: int| 0 <= i < d.len() ==> #[trigger] is_digit(d[i])
}

/// What `s` means as a `u32`, where it means one.
pub open spec fn u32_value(s: Seq<char>) -> Option<u32> {
    if is_unsigned(s) && digits_value(without_plus(s)) <= u32::MAX {
        Some(digits_value(without_plus(s)) as u32)
    } else {
        None
    }
}

/// Whether `needle` stands in `hay` as a run of neighbouring characters.
pub open spec fn occurs_in(needle: Seq<char>, hay: Seq<char>) -> bool {
    exists|i: int| occurs_at(needle, hay, i)
}

/// Whether `needle` stands in `hay` from position `i` on.
pub open spec fn occurs_at(needle: Seq<char>, hay: Seq<char>, i: int) -> bool {
    0 <= i && i + needle.len() <= hay.len() && hay.subrange(i, i + needle.len()) =~= needle
}

/// One digit as text.
fn digit_text(d: u64) -> (r: &'static str)
    requires
        d < 10,
    ensures
        r@ == seq![digit_char(d as int)],
{
    proof {
        reveal_strlit("0");
        reveal_strlit("1");
        reveal_strlit("2");
        reveal_strlit("3");
        reveal_strlit("4");
        reveal_strlit("5");
        reveal_strlit("6");
        reveal_strlit("7");
        reveal_strlit("8");
        reveal_strlit("9");
    }
    if d == 0 {
        "0"
    } else if d == 1 {
        "1"
    } else if d == 2 {
        "2"
    } else if d == 3 {
        "3"
    } else if d == 4 {
        "4"
    } else if d == 5 {
        "5"
    } else if d == 6 {
        "6"
    } else if d == 7 {
        "7"
    } else if d == 8 {
        "8"
    } else {
        "9"
    }
}

/// `n` in decimal.
pub fn decimal_text(n: u64) -> (r: String)
    ensures
        r@ == decimal(n as nat),
    decreases n,
{
    if n < 10 {
        digit_text(n).to_owned()
    } else {
        let mut s = decimal_text(n / 10);
        s.append(digit_text(n % 10));
        s
    }
}

/// `n` in decimal, with its sign where it is negative.
pub fn signed_decimal_text(n: i64) -> (r: String)
    ensures
        r@ == signed_decimal(n as int),
{
    if n < 0 {
        proof {
            reveal_strlit("-");
        }
        let magnitude: u64 = (-(n as i128)) as u64;
        let mut s = "-".to_owned();
        s.append(decimal_text(magnitude).as_str());
        assert(s@ == signed_decimal(n as int));
        s
    } else {
        decimal_text(n as u64)
    }
}

/// `n` in decimal, at least two digits wide.
pub fn two_digit_text(n: u64) -> (r: String)
    ensures
        r@ == two_digits(n as nat),
{
    if n < 10 {
        proof {
            reveal_strlit("0");
        }
        let mut s = "0".to_owned();
        s.append(decimal_text(n).as_str());
        assert(s@ == two_digits(n as nat));
        s
    } else {
        decimal_text(n)
    }
}

/// The characters of `s`.
pub fn chars_of(s: &str) -> (r: Vec<char>)
    ensures
        r@ == s@,
{
    let n: usize = s.unicode_len();
    let mut out: Vec<char> = Vec::new();
    let mut i: usize = 0;
    while i < n
        invariant
            n == s@.len(),
            i <= n,
            out@ == s@.take(i as int),
        decreases n - i,
    {
        out.push(s.get_char(i));
        assert(s@.take(i + 1) == s@.take(i as int).push(s@[i as int]));
        i += 1;
    }
    assert(s@.take(n as int) == s@);
    out
}

/// Reads a `u32`: digits behind an optional plus sign, and nothing else.
pub fn parse_u32(s: &str) -> (r: Option<u32>)
    ensures
        r == u32_value(s@),
{
    let chars = chars_of(s);
    let first: usize = if chars.len() > 0 && chars[0] == '+' {
        1
    } else {
        0
    };
    let ghost d = without_plus(s@);
    assert(d == chars@.skip(first as int));
    if first == chars.len() {
        return None;
    }
    let mut i: usize = first;
    let mut value: u64 = 0;
    let mut fits: bool = true;
    while i < chars.len()
        invariant
            first <= i <= chars.len(),
            d == chars@.skip(first as int),
            d == without_plus(s@),
            forall|k: int| 0 <= k < i - first ==> #[trigger] is_digit(d[k]),
            fits ==> value == digits_value(d.take(i - first)) && value <= u32::MAX,
            !fits ==> digits_value(d.take(i - first)) > u32::MAX,
        decreases chars.len() - i,
    {
        let c = chars[i];
        assert(d[i - first] == c);
        if !('0' <= c && c <= '9') {
            assert(!is_digit(d[i - first]));
            return None;
        }
        assert(d.take(i + 1 - first).drop_last() == d.take(i - first));
        if fits {
            let digit: u64 = (c as u64) - ('0' as u64);
            value = value * 10 + digit;
            if value > u32::MAX as u64 {
                fits = false;
            }
        }
        i += 1;
    }
    assert(d.take(d.len() as int) == d);
    if fits {
        Some(value as u32)
    } else {
        None
    }
}

/// Whether `needle` stands somewhere in `hay`.
pub fn contains_text(hay: &str, needle: &str) -> (r: bool)
    ensures
        r == occurs_in(needle@, hay@),
{
    let h = chars_of(hay);
    let n = chars_of(needle);
    if n.len() == 0 {
        assert(occurs_at(needle@, hay@, 0));
        return true;
    }
    if n.len() > h.len() {
        return false;
    }
    let stop: usize = h.len() - n.len() + 1;
    let mut i: usize = 0;
    while i < stop
        invariant
            h@ == hay@,
            n@ == needle@,
            n.len() > 0,
            stop + n.len() == h.len() + 1,
            i <= stop,
            forall|k: int| 0 <= k < i ==> !#[trigger] occurs_at(needle@, hay@, k),
        decreases stop - i,
    {
        let mut j: usize = 0;
        while j < n.len() && h[i + j] == n[j]
            invariant
                h@ == hay@,
                n@ == needle@,
                n.len() > 0,
                stop + n.len() == h.len() + 1,
                i < stop,
                j <= n.len(),
                forall|k: int| 0 <= k < j ==> h@[i + k] == #[trigger] n@[k],
            decreases n.len() - j,
        {
            j += 1;
        }
        if j == n.len() {
            assert(occurs_at(needle@, hay@, i as int));
            return true;
        }
        assert(!occurs_at(needle@, hay@, i as int)) by {
            if occurs_at(needle@, hay@, i as int) {
                assert(hay@.subrange(i as int, i + needle@.len())[j as int] == needle@[j as int]);
            }
        }
        i += 1;
    }
    false
}

/// Whether the two texts are the same.
pub fn same_text(a: &str, b: &str) -> (r: bool)
    ensures
        r == (a@ == b@),
{
    a.to_owned() == b.to_owned()
}

/// The decimal text of a `u32` is a row of digits that writes the same number.
proof fn lemma_decimal_digits(n: nat)
    ensures
        decimal(n).len() > 0,
        forall|i: int| 0 <= i < decimal(n).len() ==> #[trigger] is_digit(decimal(n)[i]),
        digits_value(decimal(n)) == n,
    decreases n,
{
    reveal_with_fuel(digits_value, 2);
    if n < 10 {
        let s = decimal(n);
        assert(s.drop_last() == Seq::<char>::empty());
        assert(digits_value(s.drop_last()) == 0);
        assert(s.last() == digit_char(n as int));
    } else {
        lemma_decimal_digits(n / 10);
        let s = decimal(n);
        assert(s.drop_last() == decimal(n / 10));
        assert(s.last() == digit_char((n % 10) as int));
        assert forall|i: int| 0 <= i < s.len() implies #[trigger] is_digit(s[i]) by {
            if i < decimal(n / 10).len() {
                assert(s[i] == decimal(n / 10)[i]);
            }
        }
    }
}

/// Reading a number's decimal text gives the number back.
pub proof fn law_decimal_reads_back(n: u32)
    ensures
        u32_value(decimal(n as nat)) == Some(n),
{
    lemma_decimal_digits(n as nat);
    assert(is_digit(decimal(n as nat)[0]));
    assert(without_plus(decimal(n as nat)) == decimal(n as nat));
}

/// Two numbers with the same decimal text are the same number.
pub proof fn law_decimal_distinct(a: nat, b: nat)
    requires
        decimal(a) == decimal(b),
    ensures
        a == b,
{
    lemma_decimal_digits(a);
    lemma_decimal_digits(b);
}

/// The value of a decimal digit.
pub open spec fn digit_value(c: char) -> int {
    c as int - '0' as int
}

/// A number's text is its digits, without a zero in front: it is one digit below ten, and the text of
/// a tenth followed by the last digit from ten on.
pub proof fn law_decimal_is_written_out(n: u64, tenth: String, r: String)
    requires
        call_ensures(decimal_text, (n / 10,), tenth),
        call_ensures(decimal_text, (n,), r),
    ensures
        r@.len() > 0,
        digit_value(r@.last()) == n % 10,
        n < 10 ==> r@.len() == 1,
        n >= 10 ==> r@.drop_last() == tenth@,
{
    if n >= 10 {
        assert(r@.drop_last() =~= tenth@);
    }
}

/// A negative number's text is that of its size behind a minus sign.
pub proof fn law_sign_is_written_out(n: i64, size: u64, unsigned: String, r: String)
    requires
        call_ensures(signed_decimal_text, (n,), r),
        call_ensures(decimal_text, (size,), unsigned),
        size == if n < 0 {
            -n
        } else {
            n as int
        },
    ensures
        n >= 0 ==> r@ == unsigned@,
        n < 0 ==> r@ == seq!['-'] + unsigned@,
{
}

/// A number below a hundred is written with two digits, and greater ones with all that they have.
pub proof fn law_two_digits(n: u64, all: String, r: String)
    requires
        call_ensures(two_digit_text, (n,), r),
        call_ensures(decimal_text, (n,), all),
    ensures
        n < 100 ==> r@.len() == 2 && digit_value(r@[0]) == n / 10 && digit_value(r@[1]) == n % 10,
        n >= 100 ==> r@ == all@,
{
    reveal_with_fuel(decimal, 2);
}

/// A text is read as a number exactly if it is digits, at least one, behind at most one plus sign, and
/// the number is below 2 to the power 32. A further digit makes the number ten times as great and adds
/// its value.
pub proof fn law_digits_are_read(s: &str, r: Option<u32>)
    requires
        call_ensures(parse_u32, (s,), r),
    ensures
        s@.len() == 0 ==> r is None,
        s@ == seq!['+'] ==> r is None,
        s@.len() == 1 && 0 <= digit_value(s@[0]) <= 9 ==> r == Some(digit_value(s@[0]) as u32),
        (exists|i: int| 0 < i < s@.len() && !(0 <= digit_value(#[trigger] s@[i]) <= 9))
            ==> r is None,
        s@.len() > 0 && !(0 <= digit_value(s@[0]) <= 9) && s@[0] != '+' ==> r is None,
{
    reveal_with_fuel(digits_value, 2);
    let d = without_plus(s@);
    if s@.len() == 1 && is_digit(s@[0]) {
        assert(d =~= s@);
        assert(d.drop_last() =~= Seq::empty());
    }
    if exists|i: int| 0 < i < s@.len() && !(0 <= digit_value(#[trigger] s@[i]) <= 9) {
        let i = choose|i: int| 0 < i < s@.len() && !(0 <= digit_value(#[trigger] s@[i]) <= 9);
        assert(!is_digit(s@[i]));
        if s@[0] == '+' {
            assert(d[i - 1] == s@[i]);
            assert(!is_digit(d[i - 1]));
        } else {
            assert(d[i] == s@[i]);
            assert(!is_digit(d[i]));
        }
    }
    if s@.len() > 0 && !is_digit(s@[0]) && s@[0] != '+' {
        assert(!is_digit(d[0]));
    }
}

/// Reading a text with one more digit behind it gives ten times the number and the digit, where that is
/// below 2 to the power 32, and nothing where it is not or where the text is not read.
pub proof fn law_further_digit_is_read(s: &str, longer: &str, a: Option<u32>, b: Option<u32>)
    requires
        call_ensures(parse_u32, (s,), a),
        call_ensures(parse_u32, (longer,), b),
        s@.len() > 0,
        s@ != seq!['+'],
        longer@.len() == s@.len() + 1,
        longer@.drop_last() == s@,
        0 <= digit_value(longer@.last()) <= 9,
    ensures
        b == match a {
            Some(n) => if n * 10 + digit_value(longer@.last()) <= u32::MAX {
                Some((n * 10 + digit_value(longer@.last())) as u32)
            } else {
                None
            },
            None => None,
        },
{
    let d = without_plus(s@);
    let e = without_plus(longer@);
    assert(longer@[0] == s@[0]) by {
        assert(longer@.drop_last()[0] == longer@[0]);
    }
    assert(longer@ =~= s@.push(longer@.last()));
    assert(e.drop_last() =~= d);
    assert(e.last() == longer@.last());
    if is_unsigned(s@) {
        assert forall|i: int| 0 <= i < e.len() implies #[trigger] is_digit(e[i]) by {
            if i < d.len() {
                assert(e[i] == d[i]);
                assert(is_digit(d[i]));
            }
        }
    }
    if is_unsigned(longer@) {
        if s@[0] == '+' {
            assert(s@.len() >= 2) by {
                if s@.len() == 1 {
                    assert(s@ =~= seq!['+']);
                }
            }
        }
        assert forall|i: int| 0 <= i < d.len() implies #[trigger] is_digit(d[i]) by {
            assert(e[i] == d[i]);
            assert(is_digit(e[i]));
        }
    }
}

/// A text stands in another exactly if there are texts before and behind it that make up the other.
pub proof fn law_text_is_found(
    hay: &str,
    needle: &str,
    r: bool,
    before: Seq<char>,
    behind: Seq<char>,
)
    requires
        call_ensures(contains_text, (hay, needle), r),
    ensures
        hay@ == before + needle@ + behind ==> r,
        r ==> exists|i: int|
            0 <= i && i + needle@.len() <= hay@.len() && #[trigger] hay@.subrange(
                i,
                i + needle@.len(),
            ) == needle@,
{
    if hay@ == before + needle@ + behind {
        let i = before.len() as int;
        assert(hay@.subrange(i, i + needle@.len()) =~= needle@);
        assert(occurs_at(needle@, hay@, i));
    }
    if r {
        let i = choose|i: int| occurs_at(needle@, hay@, i);
        assert(hay@.subrange(i, i + needle@.len()) == needle@);
    }
}

} // verus!
