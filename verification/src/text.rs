//! Text as sequences of characters: the conversions between `String` and
//! `Vec<char>`, and the searching, splitting and number formats that the
//! rest of the crate needs.

use vstd::prelude::*;

verus! {

/// The characters of `s`, in order.
pub fn chars_of(s: &str) -> (v: Vec<char>)
    ensures
        v@ == s@,
{
    let mut v: Vec<char> = Vec::new();
    for c in it: s.chars()
        invariant
            v@ == it.seq().take(it.index()),
            it.seq() == s@,
    {
        v.push(c);
    }
    v
}

/// `String::push` of the standard library: `c` is appended to `s`. Assumed, not proved.
#[verifier::external_body]
fn push_char(s: &mut String, c: char)
    ensures
        final(s)@ == old(s)@.push(c),
{
    s.push(c)
}

/// The string made of the characters of `v`, in order.
pub fn string_of(v: &Vec<char>) -> (s: String)
    ensures
        s@ == v@,
{
    let mut s = String::new();
    let mut i: usize = 0;
    while i < v.len()
        invariant
            i <= v@.len(),
            s@ == v@.take(i as int),
        decreases v@.len() - i,
    {
        push_char(&mut s, v[i]);
        i += 1;
        assert(v@.take(i as int) =~= v@.take(i - 1).push(v@[i - 1]));
    }
    assert(v@.take(v@.len() as int) =~= v@);
    s
}

/// Appends the characters of `tail` to `out`.
pub fn push_all(out: &mut Vec<char>, tail: &Vec<char>)
    ensures
        final(out)@ == old(out)@ + tail@,
{
    let mut i: usize = 0;
    while i < tail.len()
        invariant
            i <= tail@.len(),
            out@ == old(out)@ + tail@.take(i as int),
        decreases tail@.len() - i,
    {
        out.push(tail[i]);
        i += 1;
        assert(tail@.take(i as int) =~= tail@.take(i - 1).push(tail@[i - 1]));
    }
    assert(tail@.take(tail@.len() as int) =~= tail@);
}

/// Appends the characters of the string `tail` to `out`.
pub fn push_str(out: &mut Vec<char>, tail: &str)
    ensures
        final(out)@ == old(out)@ + tail@,
{
    let t = chars_of(tail);
    push_all(out, &t);
}

/// The characters of `v` from `from` up to, not including, `to`.
pub fn slice_of(v: &Vec<char>, from: usize, to: usize) -> (r: Vec<char>)
    requires
        from <= to <= v@.len(),
    ensures
        r@ == v@.subrange(from as int, to as int),
{
    let mut r: Vec<char> = Vec::new();
    let mut i: usize = from;
    while i < to
        invariant
            from <= i <= to <= v@.len(),
            r@ == v@.subrange(from as int, i as int),
        decreases to - i,
    {
        r.push(v[i]);
        i += 1;
        assert(v@.subrange(from as int, i as int) =~= v@.subrange(from as int, i - 1).push(
            v@[i - 1],
        ));
    }
    r
}

/// Whether two texts hold the same characters.
pub fn same_chars(a: &Vec<char>, b: &Vec<char>) -> (r: bool)
    ensures
        r == (a@ == b@),
{
    if a.len() != b.len() {
        return false;
    }
    let mut i: usize = 0;
    while i < a.len()
        invariant
            a@.len() == b@.len(),
            i <= a@.len(),
            forall|j: int| 0 <= j < i ==> a@[j] == b@[j],
        decreases a@.len() - i,
    {
        if a[i] != b[i] {
            return false;
        }
        i += 1;
    }
    assert(a@ =~= b@);
    true
}

/// The upper-case hexadecimal digit for a value below sixteen.
pub open spec fn hex_digit(n: int) -> char {
    if n < 10 {
        (n + 48) as char
    } else {
        (n + 55) as char
    }
}

/// The sixteen upper-case hexadecimal digits of `v`, most significant first.
pub open spec fn hex16(v: u64) -> Seq<char> {
    Seq::new(16, |i: int| hex_digit(((v >> ((60 - 4 * i) as u64)) & 0xf) as int))
}

fn hex_digit_of(n: u8) -> (c: char)
    requires
        n < 16,
    ensures
        c == hex_digit(n as int),
{
    if n < 10 {
        (n + 48) as char
    } else {
        (n + 55) as char
    }
}

/// Writes `v` as sixteen upper-case hexadecimal digits.
pub fn format_hex16(v: u64) -> (r: Vec<char>)
    ensures
        r@ == hex16(v),
{
    let mut r: Vec<char> = Vec::new();
    let mut i: u64 = 0;
    while i < 16
        invariant
            i <= 16,
            r@.len() == i,
            forall|j: int| 0 <= j < i ==> r@[j] == hex16(v)[j],
        decreases 16 - i,
    {
        let shift: u64 = 60 - 4 * i;
        let nibble: u64 = (v >> shift) & 0xf;
        assert(nibble < 16) by (bit_vector)
            requires
                nibble == (v >> shift) & 0xf,
        ;
        r.push(hex_digit_of(nibble as u8));
        i += 1;
    }
    assert(r@ =~= hex16(v));
    r
}

/// The value of `c` as a digit in `base` (ten or sixteen, either case), or
/// `None` where it is no digit.
pub open spec fn digit_value(c: char, base: int) -> Option<int> {
    if '0' <= c <= '9' {
        Some(c as int - 48)
    } else if base == 16 && 'a' <= c <= 'f' {
        Some(c as int - 87)
    } else if base == 16 && 'A' <= c <= 'F' {
        Some(c as int - 55)
    } else {
        None
    }
}

/// Whether every character of `s` is a digit in `base`.
pub open spec fn all_digits(s: Seq<char>, base: int) -> bool {
    forall|i: int| 0 <= i < s.len() ==> (#[trigger] digit_value(s[i], base)) is Some
}

/// The number that the digits of `s` write in `base`.
pub open spec fn digits_value(s: Seq<char>, base: int) -> int
    decreases s.len(),
{
    if s.len() == 0 {
        0
    } else {
        digits_value(s.drop_last(), base) * base + digit_value(s.last(), base).unwrap_or(0)
    }
}

/// `s` without the `+` that may lead it.
pub open spec fn unsigned_part(s: Seq<char>) -> Seq<char> {
    if s.len() > 0 && s[0] == '+' {
        s.subrange(1, s.len() as int)
    } else {
        s
    }
}

/// What the standard library reads from `s` as an unsigned 64-bit number in
/// `base`: an optional `+`, then at least one digit and nothing else, with a
/// value that fits; `None` for every other text.
pub open spec fn parsed_u64(s: Seq<char>, base: int) -> Option<u64> {
    let digits = unsigned_part(s);
    if digits.len() > 0 && all_digits(digits, base) && digits_value(digits, base) <= u64::MAX {
        Some(digits_value(digits, base) as u64)
    } else {
        None
    }
}

fn digit_of(c: char, base: u64) -> (r: Option<u64>)
    requires
        base == 10 || base == 16,
    ensures
        r matches Some(d) ==> digit_value(c, base as int) == Some(d as int) && d < base,
        r is None ==> digit_value(c, base as int) is None,
{
    let n = c as u32;
    if 48 <= n && n <= 57 {
        Some((n - 48) as u64)
    } else if base == 16 && 97 <= n && n <= 102 {
        Some((n - 87) as u64)
    } else if base == 16 && 65 <= n && n <= 70 {
        Some((n - 55) as u64)
    } else {
        None
    }
}

proof fn lemma_digits_value_grows(s: Seq<char>, base: int, k: int)
    requires
        base == 10 || base == 16,
        0 <= k <= s.len(),
        all_digits(s, base),
    ensures
        0 <= digits_value(s.take(k), base) <= digits_value(s, base),
    decreases s.len() - k,
{
    lemma_digits_value_nonneg(s.take(k), base);
    if k < s.len() {
        lemma_digits_value_grows(s, base, k + 1);
        let t = s.take(k + 1);
        assert(t.drop_last() =~= s.take(k));
        assert(digit_value(t.last(), base) is Some);
        assert(digits_value(s.take(k), base) * base >= digits_value(s.take(k), base))
            by (nonlinear_arith)
            requires
                digits_value(s.take(k), base) >= 0,
                base >= 1,
        ;
    } else {
        assert(s.take(k) =~= s);
    }
}

proof fn lemma_digits_value_nonneg(s: Seq<char>, base: int)
    requires
        base == 10 || base == 16,
    ensures
        digits_value(s, base) >= 0,
    decreases s.len(),
{
    if s.len() > 0 {
        lemma_digits_value_nonneg(s.drop_last(), base);
        assert(digits_value(s.drop_last(), base) * base >= 0) by (nonlinear_arith)
            requires
                digits_value(s.drop_last(), base) >= 0,
                base >= 1,
        ;
    }
}

/// The digit `hex_digit(n)` stands for `n`.
pub proof fn lemma_hex_digit(n: int)
    requires
        0 <= n < 16,
    ensures
        digit_value(hex_digit(n), 16) == Some(n),
        hex_digit(n) != '+',
        hex_digit(n) != 'x',
{
    if n < 10 {
        assert(((n + 48) as char) as int == n + 48);
    } else {
        assert(((n + 55) as char) as int == n + 55);
    }
}

/// One more hexadecimal digit of a number: what stands above the digit,
/// times sixteen, and the digit.
proof fn lemma_nibble(v: u64, s: u64)
    by (bit_vector)
    requires
        s <= 60,
    ensures
        (v >> s) == ((v >> ((s + 4) as u64)) * 16 + ((v >> s) & 0xf)) as u64,
        (v >> ((s + 4) as u64)) <= 0x0fff_ffff_ffff_ffff,
        ((v >> s) & 0xf) < 16,
{
}

/// The first `k` digits of `hex16(v)` write what stands in `v` above the
/// other digits.
proof fn lemma_hex16_value(v: u64, k: int)
    requires
        1 <= k <= 16,
    ensures
        digits_value(hex16(v).take(k), 16) == (v >> ((64 - 4 * k) as u64)) as int,
        all_digits(hex16(v).take(k), 16),
    decreases k,
{
    let digits = hex16(v).take(k);
    let shift = (64 - 4 * k) as u64;
    let nibble = ((v >> shift) & 0xf) as int;
    lemma_nibble(v, shift);
    lemma_hex_digit(nibble);
    assert(digits.last() == hex_digit(nibble));
    assert(digits.drop_last() =~= hex16(v).take(k - 1));
    if k == 1 {
        assert(digits_value(hex16(v).take(0), 16) == 0);
        assert((v >> 64u64) == 0) by (bit_vector);
    } else {
        lemma_hex16_value(v, k - 1);
    }
    assert forall|i: int| 0 <= i < digits.len() implies (#[trigger] digit_value(digits[i], 16))
        is Some by {
        if i < k - 1 {
            assert(hex16(v).take(k - 1)[i] == digits[i]);
        }
    }
}

/// Reading the sixteen hexadecimal digits of a number gives the number.
pub proof fn law_hex16_is_read(v: u64)
    ensures
        parsed_u64(hex16(v), 16) == Some(v),
        hex16(v).len() == 16,
        hex16(v)[0] != '+',
        hex16(v)[1] != 'x',
{
    lemma_hex16_value(v, 16);
    assert(hex16(v).take(16) =~= hex16(v));
    assert((v >> 0u64) == v) by (bit_vector);
    lemma_nibble(v, 60);
    lemma_nibble(v, 56);
    lemma_hex_digit(((v >> 60u64) & 0xf) as int);
    lemma_hex_digit(((v >> 56u64) & 0xf) as int);
}

/// Reads an unsigned 64-bit number in base ten or sixteen, as the standard
/// library's `from_str_radix` does.
pub fn parse_u64(s: &Vec<char>, base: u64) -> (r: Option<u64>)
    requires
        base == 10 || base == 16,
    ensures
        r == parsed_u64(s@, base as int),
{
    let start: usize = if s.len() > 0 && s[0] == '+' {
        1
    } else {
        0
    };
    let ghost digits = s@.subrange(start as int, s@.len() as int);
    assert(digits =~= unsigned_part(s@));
    if start == s.len() {
        return None;
    }
    let mut value: u64 = 0;
    let mut i: usize = start;
    while i < s.len()
        invariant
            base == 10 || base == 16,
            start <= i <= s@.len(),
            digits == s@.subrange(start as int, s@.len() as int),
            digits == unsigned_part(s@),
            digits.len() > 0,
            all_digits(digits.take(i - start), base as int),
            value == digits_value(digits.take(i - start), base as int),
        decreases s@.len() - i,
    {
        let ghost before = digits.take(i - start);
        let ghost after = digits.take(i - start + 1);
        proof {
            assert(after.drop_last() =~= before);
            assert(after.last() == s@[i as int]);
        }
        match digit_of(s[i], base) {
            None => {
                proof {
                    assert(digits[i - start] == s@[i as int]);
                    assert(digit_value(digits[i - start], base as int) is None);
                }
                return None;
            },
            Some(d) => {
                proof {
                    assert forall|j: int| 0 <= j < after.len() implies (#[trigger] digit_value(
                        after[j],
                        base as int,
                    )) is Some by {
                        if j < before.len() {
                            assert(after[j] == before[j]);
                        }
                    }
                    assert(digits_value(after, base as int) == value * base + d);
                }
                if value > (u64::MAX - d) / base {
                    proof {
                        assert(value * base + d > u64::MAX) by (nonlinear_arith)
                            requires
                                value > (u64::MAX - d) / (base as int),
                                base == 10 || base == 16,
                                d < base,
                        ;
                        if all_digits(digits, base as int) {
                            lemma_digits_value_grows(digits, base as int, i - start + 1);
                        }
                    }
                    return None;
                }
                assert(value * base + d <= u64::MAX) by (nonlinear_arith)
                    requires
                        value <= (u64::MAX - d) / (base as int),
                        base == 10 || base == 16,
                        d < base,
                ;
                value = value * base + d;
            },
        }
        i += 1;
    }
    assert(digits.take(i - start) =~= digits);
    Some(value)
}

/// The decimal digits of `n`, without leading zeros.
pub open spec fn decimal(n: nat) -> Seq<char>
    decreases n,
{
    if n < 10 {
        seq![(n + 48) as char]
    } else {
        decimal(n / 10).push((n % 10 + 48) as char)
    }
}

/// Appends the decimal digits of `n` to `out`.
pub fn push_decimal(out: &mut Vec<char>, n: u64)
    ensures
        final(out)@ == old(out)@ + decimal(n as nat),
    decreases n,
{
    if n < 10 {
        out.push(((n as u8) + 48) as char);
        assert(out@ =~= old(out)@ + decimal(n as nat));
    } else {
        push_decimal(out, n / 10);
        out.push((((n % 10) as u8) + 48) as char);
        assert(out@ =~= old(out)@ + decimal(n as nat));
    }
}


/// The place of the last `c` in `s`, or -1 where there is none.
pub open spec fn last_index_of(s: Seq<char>, c: char) -> int
    decreases s.len(),
{
    if s.len() == 0 {
        -1
    } else if s.last() == c {
        s.len() - 1
    } else {
        last_index_of(s.drop_last(), c)
    }
}

/// The place of the first `c` in `s`, or the length of `s` where there is none.
pub open spec fn first_index_of(s: Seq<char>, c: char) -> int
    decreases s.len(),
{
    if s.len() == 0 {
        0
    } else if s[0] == c {
        0
    } else {
        1 + first_index_of(s.drop_first(), c)
    }
}

/// Where `last_index_of` points, there is a `c`, and none behind it.
pub proof fn lemma_last_index_of(s: Seq<char>, c: char)
    ensures
        -1 <= last_index_of(s, c) < s.len(),
        last_index_of(s, c) >= 0 ==> s[last_index_of(s, c)] == c,
        forall|j: int| last_index_of(s, c) < j < s.len() ==> s[j] != c,
    decreases s.len(),
{
    if s.len() > 0 && s.last() != c {
        let t = s.drop_last();
        lemma_last_index_of(t, c);
        assert forall|j: int| last_index_of(s, c) < j < s.len() implies s[j] != c by {
            if j < t.len() {
                assert(s[j] == t[j]);
            }
        }
    }
}

/// Where `first_index_of` points, there is a `c`, and none before it.
pub proof fn lemma_first_index_of(s: Seq<char>, c: char)
    ensures
        0 <= first_index_of(s, c) <= s.len(),
        first_index_of(s, c) < s.len() ==> s[first_index_of(s, c)] == c,
        forall|j: int| 0 <= j < first_index_of(s, c) ==> s[j] != c,
    decreases s.len(),
{
    if s.len() > 0 && s[0] != c {
        let t = s.drop_first();
        lemma_first_index_of(t, c);
        assert forall|j: int| 0 <= j < first_index_of(s, c) implies s[j] != c by {
            if j > 0 {
                assert(s[j] == t[j - 1]);
            }
        }
    }
}

/// A place that holds `c` and has no `c` behind it is the last.
pub proof fn lemma_last_index_is(s: Seq<char>, c: char, at: int)
    requires
        -1 <= at < s.len(),
        at >= 0 ==> s[at] == c,
        forall|j: int| at < j < s.len() ==> s[j] != c,
    ensures
        last_index_of(s, c) == at,
    decreases s.len(),
{
    if s.len() > 0 && s.last() != c {
        lemma_last_index_is(s.drop_last(), c, at);
    }
}

/// A place that holds `c` (or the end) and has no `c` before it is the first.
pub proof fn lemma_first_index_is(s: Seq<char>, c: char, at: int)
    requires
        0 <= at <= s.len(),
        at < s.len() ==> s[at] == c,
        forall|j: int| 0 <= j < at ==> s[j] != c,
    ensures
        first_index_of(s, c) == at,
    decreases s.len(),
{
    if s.len() > 0 && s[0] != c {
        let t = s.drop_first();
        assert forall|j: int| 0 <= j < at - 1 implies t[j] != c by {
            assert(t[j] == s[j + 1]);
        }
        lemma_first_index_is(t, c, at - 1);
    }
}

/// Finds the last `c` in `s`.
pub fn rfind_char(s: &Vec<char>, c: char) -> (r: Option<usize>)
    ensures
        match r {
            Some(i) => i == last_index_of(s@, c) && i < s@.len(),
            None => last_index_of(s@, c) == -1,
        },
{
    let mut i: usize = s.len();
    while i > 0
        invariant
            i <= s@.len(),
            forall|j: int| i <= j < s@.len() ==> s@[j] != c,
        decreases i,
    {
        i -= 1;
        if s[i] == c {
            proof {
                lemma_last_index_is(s@, c, i as int);
            }
            return Some(i);
        }
    }
    proof {
        lemma_last_index_is(s@, c, -1);
    }
    None
}

/// Finds the first `c` in `s`.
pub fn find_char(s: &Vec<char>, c: char) -> (r: Option<usize>)
    ensures
        match r {
            Some(i) => i == first_index_of(s@, c) && i < s@.len(),
            None => first_index_of(s@, c) == s@.len(),
        },
{
    let mut i: usize = 0;
    while i < s.len()
        invariant
            i <= s@.len(),
            forall|j: int| 0 <= j < i ==> s@[j] != c,
        decreases s@.len() - i,
    {
        if s[i] == c {
            proof {
                lemma_first_index_is(s@, c, i as int);
            }
            return Some(i);
        }
        i += 1;
    }
    proof {
        lemma_first_index_is(s@, c, s@.len() as int);
    }
    None
}

/// Whether `pat` stands in `s` at `at`.
pub open spec fn occurs_at(s: Seq<char>, pat: Seq<char>, at: int) -> bool {
    0 <= at && at + pat.len() <= s.len() && s.subrange(at, at + pat.len()) == pat
}

/// Whether `pat` stands somewhere in `s`.
pub open spec fn has_sub(s: Seq<char>, pat: Seq<char>) -> bool {
    exists|at: int| occurs_at(s, pat, at)
}

/// Whether `pat` stands in `s` at `at`.
pub fn matches_at(s: &Vec<char>, pat: &Vec<char>, at: usize) -> (r: bool)
    ensures
        r == occurs_at(s@, pat@, at as int),
{
    if at > s.len() || pat.len() > s.len() - at {
        return false;
    }
    let mut k: usize = 0;
    while k < pat.len()
        invariant
            k <= pat@.len(),
            at + pat@.len() <= s@.len(),
            s@.len() <= usize::MAX,
            forall|j: int| 0 <= j < k ==> s@[at + j] == pat@[j],
        decreases pat@.len() - k,
    {
        if s[at + k] != pat[k] {
            assert(s@.subrange(at as int, at + pat@.len())[k as int] != pat@[k as int]);
            return false;
        }
        k += 1;
    }
    assert(s@.subrange(at as int, at + pat@.len()) =~= pat@);
    true
}

/// Finds the first place from `from` on at which `pat` stands in `s`.
pub fn find_sub_from(s: &Vec<char>, pat: &Vec<char>, from: usize) -> (r: Option<usize>)
    ensures
        match r {
            Some(i) => from <= i && occurs_at(s@, pat@, i as int) && forall|j: int|
                from <= j < i ==> !occurs_at(s@, pat@, j),
            None => forall|j: int| from <= j ==> !occurs_at(s@, pat@, j),
        },
{
    if from > s.len() {
        return None;
    }
    let mut i: usize = from;
    while i < s.len()
        invariant
            from <= i <= s@.len(),
            forall|j: int| from <= j < i ==> !occurs_at(s@, pat@, j),
        decreases s@.len() - i,
    {
        if matches_at(s, pat, i) {
            return Some(i);
        }
        i += 1;
    }
    if matches_at(s, pat, i) {
        return Some(i);
    }
    None
}

/// Whether `pat` stands somewhere in `s`.
pub fn contains_sub(s: &Vec<char>, pat: &Vec<char>) -> (r: bool)
    ensures
        r == has_sub(s@, pat@),
{
    match find_sub_from(s, pat, 0) {
        Some(i) => {
            assert(occurs_at(s@, pat@, i as int));
            true
        },
        None => false,
    }
}

/// The number of `c` in `s`.
pub open spec fn count_of(s: Seq<char>, c: char) -> nat
    decreases s.len(),
{
    if s.len() == 0 {
        0
    } else {
        count_of(s.drop_last(), c) + if s.last() == c {
            1nat
        } else {
            0nat
        }
    }
}

/// Counts the `c` in `s`.
pub fn count_char(s: &Vec<char>, c: char) -> (n: usize)
    ensures
        n == count_of(s@, c),
{
    let mut n: usize = 0;
    let mut i: usize = 0;
    while i < s.len()
        invariant
            i <= s@.len(),
            n == count_of(s@.take(i as int), c),
            n <= i,
        decreases s@.len() - i,
    {
        assert(s@.take(i + 1).drop_last() =~= s@.take(i as int));
        if s[i] == c {
            n += 1;
        }
        i += 1;
    }
    assert(s@.take(s@.len() as int) =~= s@);
    n
}

/// `c` in lower case where it is an ASCII capital, else `c`.
pub open spec fn ascii_lower(c: char) -> char {
    if 'A' <= c <= 'Z' {
        ((c as u8) + 32) as char
    } else {
        c
    }
}

/// `s` with every ASCII capital in lower case.
pub open spec fn to_ascii_lower(s: Seq<char>) -> Seq<char> {
    Seq::new(s.len(), |i: int| ascii_lower(s[i]))
}

/// Puts every ASCII capital of `s` in lower case.
pub fn ascii_lowercase(s: &Vec<char>) -> (r: Vec<char>)
    ensures
        r@ == to_ascii_lower(s@),
{
    let mut r: Vec<char> = Vec::new();
    let mut i: usize = 0;
    while i < s.len()
        invariant
            i <= s@.len(),
            r@.len() == i,
            forall|j: int| 0 <= j < i ==> r@[j] == ascii_lower(s@[j]),
        decreases s@.len() - i,
    {
        let c = s[i];
        if 'A' <= c && c <= 'Z' {
            r.push(((c as u8) + 32) as char);
        } else {
            r.push(c);
        }
        i += 1;
    }
    assert(r@ =~= to_ascii_lower(s@));
    r
}

/// The number of bytes that `c` takes in UTF-8.
pub open spec fn utf8_width(c: char) -> int {
    if (c as u32) < 0x80 {
        1
    } else if (c as u32) < 0x800 {
        2
    } else if (c as u32) < 0x1_0000 {
        3
    } else {
        4
    }
}

/// The number of bytes that `s` takes in UTF-8.
pub open spec fn utf8_len(s: Seq<char>) -> int
    decreases s.len(),
{
    if s.len() == 0 {
        0
    } else {
        utf8_len(s.drop_last()) + utf8_width(s.last())
    }
}

/// The number of bytes that the first `n` characters of `s` take in UTF-8,
/// capped at `usize::MAX`.
pub fn utf8_len_of(s: &Vec<char>, n: usize) -> (r: usize)
    requires
        n <= s@.len(),
    ensures
        r == if utf8_len(s@.take(n as int)) <= usize::MAX {
            utf8_len(s@.take(n as int))
        } else {
            usize::MAX as int
        },
        utf8_len(s@.take(n as int)) >= n,
{
    let mut r: usize = 0;
    let mut capped = false;
    let mut i: usize = 0;
    while i < n
        invariant
            i <= n <= s@.len(),
            utf8_len(s@.take(i as int)) >= i,
            !capped ==> r == utf8_len(s@.take(i as int)),
            capped ==> utf8_len(s@.take(i as int)) > usize::MAX,
        decreases n - i,
    {
        assert(s@.take(i + 1).drop_last() =~= s@.take(i as int));
        let c = s[i] as u32;
        let w: usize = if c < 0x80 {
            1
        } else if c < 0x800 {
            2
        } else if c < 0x1_0000 {
            3
        } else {
            4
        };
        if !capped {
            if r > usize::MAX - w {
                capped = true;
            } else {
                r += w;
            }
        }
        i += 1;
    }
    if capped {
        usize::MAX
    } else {
        r
    }
}


/// `String::from_utf8` of the standard library: the text that `bytes` are
/// the UTF-8 encoding of, or `None` where they are none. Assumed, not proved.
#[verifier::external_body]
pub(crate) fn text_from_utf8(bytes: Vec<u8>) -> (r: Option<String>)
    ensures
        r is Some <==> vstd::utf8::valid_utf8(bytes@),
        r matches Some(s) ==> s@ == vstd::utf8::decode_utf8(bytes@),
{
    String::from_utf8(bytes).ok()
}

/// `s` without the NUL characters at its end.
pub open spec fn trim_nul(s: Seq<char>) -> Seq<char>
    decreases s.len(),
{
    if s.len() > 0 && s.last() == '\0' {
        trim_nul(s.drop_last())
    } else {
        s
    }
}

/// Drops the NUL characters at the end of `s`.
pub fn trim_end_nul(s: &Vec<char>) -> (r: Vec<char>)
    ensures
        r@ == trim_nul(s@),
{
    let mut end: usize = s.len();
    assert(s@.take(s@.len() as int) =~= s@);
    while end > 0 && s[end - 1] == '\0'
        invariant
            end <= s@.len(),
            trim_nul(s@) == trim_nul(s@.take(end as int)),
        decreases end,
    {
        assert(s@.take(end as int).drop_last() =~= s@.take(end - 1));
        end -= 1;
    }
    assert(s@.subrange(0, end as int) =~= s@.take(end as int));
    slice_of(s, 0, end)
}


/// Whether `c` is white space: the characters with the Unicode property
/// `White_Space`, which are those that `char::is_whitespace` names.
pub open spec fn is_white_space(c: char) -> bool {
    let n = c as u32;
    ||| 0x09 <= n <= 0x0D
    ||| n == 0x20
    ||| n == 0x85
    ||| n == 0xA0
    ||| n == 0x1680
    ||| 0x2000 <= n <= 0x200A
    ||| n == 0x2028
    ||| n == 0x2029
    ||| n == 0x202F
    ||| n == 0x205F
    ||| n == 0x3000
}

/// Whether `c` is white space.
pub fn white_space(c: char) -> (r: bool)
    ensures
        r == is_white_space(c),
{
    let n = c as u32;
    (0x09 <= n && n <= 0x0D) || n == 0x20 || n == 0x85 || n == 0xA0 || n == 0x1680 || (0x2000 <= n
        && n <= 0x200A) || n == 0x2028 || n == 0x2029 || n == 0x202F || n == 0x205F || n == 0x3000
}

/// The place, from `from` on, of the first character of `s` that is no
/// white space, or the length of `s` where there is none.
pub open spec fn first_black(s: Seq<char>, from: int) -> int
    decreases s.len() - from,
{
    if from < 0 || from >= s.len() {
        s.len() as int
    } else if !is_white_space(s[from]) {
        from
    } else {
        first_black(s, from + 1)
    }
}

/// The place behind the last of the first `upto` characters of `s` that is
/// no white space, or zero where there is none.
pub open spec fn last_black(s: Seq<char>, upto: int) -> int
    decreases upto,
{
    if upto <= 0 {
        0
    } else if !is_white_space(s[upto - 1]) {
        upto
    } else {
        last_black(s, upto - 1)
    }
}

/// `s` without the white space at its start.
pub open spec fn trimmed_start(s: Seq<char>) -> Seq<char> {
    s.subrange(first_black(s, 0), s.len() as int)
}

/// `s` without the white space at its start and end.
pub open spec fn trimmed(s: Seq<char>) -> Seq<char> {
    if first_black(s, 0) >= s.len() {
        Seq::empty()
    } else {
        s.subrange(first_black(s, 0), last_black(s, s.len() as int))
    }
}

/// The place of the first character of `v` that is no white space.
fn skip_white(v: &Vec<char>) -> (from: usize)
    ensures
        from == first_black(v@, 0),
        from <= v@.len(),
        from < v@.len() ==> !is_white_space(v@[from as int]),
{
    let mut from: usize = 0;
    while from < v.len() && white_space(v[from])
        invariant
            from <= v@.len(),
            first_black(v@, 0) == first_black(v@, from as int),
        decreases v@.len() - from,
    {
        from += 1;
    }
    from
}

/// `s` without the white space at its start, as `str::trim_start` gives it.
pub fn trim_start(s: &str) -> (r: String)
    ensures
        r@ == trimmed_start(s@),
{
    let v = chars_of(s);
    let from = skip_white(&v);
    string_of(&slice_of(&v, from, v.len()))
}

/// `s` without the white space at its start and end, as `str::trim` gives it.
pub fn trim(s: &str) -> (r: String)
    ensures
        r@ == trimmed(s@),
{
    let v = chars_of(s);
    let from = skip_white(&v);
    let mut end: usize = v.len();
    while end > from && white_space(v[end - 1])
        invariant
            from <= end <= v@.len(),
            from < v@.len() ==> from < end && !is_white_space(v@[from as int]),
            last_black(v@, v@.len() as int) == last_black(v@, end as int),
        decreases end,
    {
        end -= 1;
    }
    assert(v@.subrange(from as int, from as int) =~= Seq::<char>::empty());
    string_of(&slice_of(&v, from, end))
}

/// The pieces of `s` between its line feeds, from the first `upto`
/// characters: as many pieces as there are line feeds, and one more.
pub open spec fn line_pieces(s: Seq<char>, upto: int) -> Seq<Seq<char>>
    decreases upto,
{
    if upto <= 0 {
        seq![Seq::empty()]
    } else if s[upto - 1] == '\n' {
        line_pieces(s, upto - 1).push(Seq::empty())
    } else {
        let before = line_pieces(s, upto - 1);
        before.drop_last().push(before.last().push(s[upto - 1]))
    }
}

/// `piece` without the carriage return at its end, where it has one.
pub open spec fn without_return(piece: Seq<char>) -> Seq<char> {
    if piece.len() > 0 && piece.last() == '\r' {
        piece.drop_last()
    } else {
        piece
    }
}

/// The lines of `s`, as the standard library's `str::lines` gives them:
/// each piece that a line feed ends, without the carriage return before the
/// line feed, and what follows the last line feed where that is not empty.
pub open spec fn lines_of(s: Seq<char>) -> Seq<Seq<char>> {
    let all = line_pieces(s, s.len() as int);
    let ended = Seq::new((all.len() - 1) as nat, |i: int| without_return(all[i]));
    if all.last().len() > 0 {
        ended.push(all.last())
    } else {
        ended
    }
}

/// The texts that a sequence of character vectors holds.
pub open spec fn rows(v: Seq<Vec<char>>) -> Seq<Seq<char>> {
    Seq::new(v.len(), |i: int| v[i]@)
}

/// Splits `s` into its lines.
pub fn split_lines(s: &Vec<char>) -> (r: Vec<Vec<char>>)
    ensures
        rows(r@) == lines_of(s@),
{
    let mut done: Vec<Vec<char>> = Vec::new();
    let mut current: Vec<char> = Vec::new();
    let mut i: usize = 0;
    let ghost mut raw: Seq<Seq<char>> = Seq::empty();
    assert(raw.push(current@) =~= line_pieces(s@, 0));
    while i < s.len()
        invariant
            i <= s@.len(),
            raw.push(current@) == line_pieces(s@, i as int),
            done@.len() == raw.len(),
            forall|k: int| 0 <= k < raw.len() ==> (#[trigger] done@[k])@ == without_return(raw[k]),
        decreases s@.len() - i,
    {
        let ghost before = raw.push(current@);
        if s[i] == '\n' {
            let n = current.len();
            if n > 0 && current[n - 1] == '\r' {
                let cut = slice_of(&current, 0, n - 1);
                assert(cut@ =~= without_return(current@));
                done.push(cut);
            } else {
                done.push(current);
            }
            proof {
                raw = before;
            }
            current = Vec::new();
            assert(raw.push(current@) =~= before.push(Seq::empty()));
        } else {
            current.push(s[i]);
            assert(raw.push(current@) =~= before.drop_last().push(
                before.last().push(s@[i as int]),
            ));
        }
        i += 1;
    }
    proof {
        let all = line_pieces(s@, s@.len() as int);
        assert(all.len() - 1 == raw.len());
        assert forall|k: int| 0 <= k < raw.len() implies raw[k] == all[k] by {
            assert(raw.push(current@)[k] == all[k]);
        }
        assert(all.last() == current@);
        assert(rows(done@) =~= Seq::new(
            (all.len() - 1) as nat,
            |i: int| without_return(all[i]),
        ));
    }
    if current.len() > 0 {
        let ghost ended = rows(done@);
        done.push(current);
        assert(rows(done@) =~= ended.push(current@));
    }
    done
}

/// Whether `s` starts with `prefix`.
pub fn starts_with(s: &Vec<char>, prefix: &str) -> (r: bool)
    ensures
        r == occurs_at(s@, prefix@, 0),
{
    matches_at(s, &chars_of(prefix), 0)
}

/// Whether `s` is the text `t`.
pub fn is_text(s: &Vec<char>, t: &str) -> (r: bool)
    ensures
        r == (s@ == t@),
{
    same_chars(s, &chars_of(t))
}


/// `s` in upper case, as the standard library's `str::to_uppercase` puts it.
pub uninterp spec fn upper_text(s: Seq<char>) -> Seq<char>;

/// `str::to_uppercase` of the standard library. Assumed, not proved.
#[verifier::external_body]
pub(crate) fn to_upper(s: &str) -> (r: String)
    ensures
        r@ == upper_text(s@),
{
    s.to_uppercase()
}

/// `s` in lower case, as the standard library's `str::to_lowercase` puts it.
pub uninterp spec fn lower_text(s: Seq<char>) -> Seq<char>;

/// `str::to_lowercase` of the standard library. Assumed, not proved.
#[verifier::external_body]
pub(crate) fn to_lower(s: &str) -> (r: String)
    ensures
        r@ == lower_text(s@),
{
    s.to_lowercase()
}

/// Whether `a` comes before `b` in the order of the dictionary, character
/// by character, or is `b`.
pub open spec fn lex_le(a: Seq<char>, b: Seq<char>) -> bool
    decreases a.len(),
{
    if a.len() == 0 {
        true
    } else if b.len() == 0 {
        false
    } else if a[0] != b[0] {
        (a[0] as u32) < (b[0] as u32)
    } else {
        lex_le(a.drop_first(), b.drop_first())
    }
}

/// Compares two texts in the order of the dictionary.
pub fn text_le(a: &Vec<char>, b: &Vec<char>) -> (r: bool)
    ensures
        r == lex_le(a@, b@),
{
    let mut i: usize = 0;
    assert(a@.skip(0) =~= a@);
    assert(b@.skip(0) =~= b@);
    while i < a.len()
        invariant
            i <= a@.len(),
            i <= b@.len(),
            lex_le(a@, b@) == lex_le(a@.skip(i as int), b@.skip(i as int)),
        decreases a@.len() - i,
    {
        if i >= b.len() {
            return false;
        }
        assert(a@.skip(i as int)[0] == a@[i as int]);
        assert(b@.skip(i as int)[0] == b@[i as int]);
        if a[i] != b[i] {
            return (a[i] as u32) < (b[i] as u32);
        }
        assert(a@.skip(i as int).drop_first() =~= a@.skip(i + 1));
        assert(b@.skip(i as int).drop_first() =~= b@.skip(i + 1));
        i += 1;
    }
    true
}

} // verus!
