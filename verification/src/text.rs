//! Words and decimal numbers in text.
use vstd::prelude::*;
use vstd::string::*;

verus! {

/// Whether a character is white space in the sense of Unicode.
pub open spec fn is_space(c: char) -> bool {
    let u = c as u32;
    ||| 0x09 <= u <= 0x0d
    ||| u == 0x20
    ||| u == 0x85
    ||| u == 0xa0
    ||| u == 0x1680
    ||| 0x2000 <= u <= 0x200a
    ||| u == 0x2028
    ||| u == 0x2029
    ||| u == 0x202f
    ||| u == 0x205f
    ||| u == 0x3000
}

/// Whether a character is white space in the sense of Unicode.
pub fn is_whitespace(c: char) -> (r: bool)
    ensures
        r == is_space(c),
{
    let u: u32 = c as u32;
    (0x09 <= u && u <= 0x0d) || u == 0x20 || u == 0x85 || u == 0xa0 || u == 0x1680 || (0x2000 <= u
        && u <= 0x200a) || u == 0x2028 || u == 0x2029 || u == 0x202f || u == 0x205f || u == 0x3000
}

/// How many characters of white space come first.
pub open spec fn leading_space(s: Seq<char>) -> int
    decreases s.len(),
{
    if s.len() > 0 && is_space(s[0]) {
        1 + leading_space(s.drop_first())
    } else {
        0
    }
}

/// How many characters other than white space come first.
pub open spec fn leading_word(s: Seq<char>) -> int
    decreases s.len(),
{
    if s.len() > 0 && !is_space(s[0]) {
        1 + leading_word(s.drop_first())
    } else {
        0
    }
}

pub proof fn lemma_leading_space(s: Seq<char>)
    ensures
        0 <= leading_space(s) <= s.len(),
        forall|i: int| 0 <= i < leading_space(s) ==> is_space(#[trigger] s[i]),
        leading_space(s) < s.len() ==> !is_space(s[leading_space(s)]),
    decreases s.len(),
{
    if s.len() > 0 && is_space(s[0]) {
        let rest = s.drop_first();
        lemma_leading_space(rest);
        assert forall|i: int| 0 <= i < leading_space(s) implies is_space(#[trigger] s[i]) by {
            if i > 0 {
                assert(rest[i - 1] == s[i]);
            }
        }
    }
}

pub proof fn lemma_leading_word(s: Seq<char>)
    ensures
        0 <= leading_word(s) <= s.len(),
        forall|i: int| 0 <= i < leading_word(s) ==> !is_space(#[trigger] s[i]),
        leading_word(s) < s.len() ==> is_space(s[leading_word(s)]),
    decreases s.len(),
{
    if s.len() > 0 && !is_space(s[0]) {
        let rest = s.drop_first();
        lemma_leading_word(rest);
        assert forall|i: int| 0 <= i < leading_word(s) implies !is_space(#[trigger] s[i]) by {
            if i > 0 {
                assert(rest[i - 1] == s[i]);
            }
        }
    }
}

/// The words of a text: what stands between runs of white space.
pub open spec fn words(s: Seq<char>) -> Seq<Seq<char>>
    decreases s.len(),
    via words_decreases
{
    let t = s.skip(leading_space(s));
    if t.len() == 0 {
        Seq::empty()
    } else {
        seq![t.take(leading_word(t))] + words(t.skip(leading_word(t)))
    }
}

#[via_fn]
proof fn words_decreases(s: Seq<char>) {
    lemma_leading_space(s);
    let t = s.skip(leading_space(s));
    lemma_leading_word(t);
}

/// The characters of a text.
pub fn chars_of(s: &str) -> (r: Vec<char>)
    ensures
        r@ == s@,
{
    let mut out: Vec<char> = Vec::new();
    for c in iter: s.chars()
        invariant
            out@ == s@.take(iter.index() as int),
            iter.seq() == s@,
    {
        out.push(c);
    }
    proof {
        assert(s@.take(s@.len() as int) =~= s@);
    }
    out
}

proof fn lemma_space_step(s: Seq<char>, i: int)
    requires
        0 <= i <= s.len(),
        forall|k: int| 0 <= k < i ==> is_space(#[trigger] s[k]),
        i < s.len() ==> !is_space(s[i]),
    ensures
        leading_space(s) == i,
{
    lemma_leading_space(s);
    if leading_space(s) < i {
        assert(is_space(s[leading_space(s)]));
    }
    if i < leading_space(s) {
        assert(is_space(s[i]));
    }
}

proof fn lemma_word_step(s: Seq<char>, i: int)
    requires
        0 <= i <= s.len(),
        forall|k: int| 0 <= k < i ==> !is_space(#[trigger] s[k]),
        i < s.len() ==> is_space(s[i]),
    ensures
        leading_word(s) == i,
{
    lemma_leading_word(s);
    if leading_word(s) < i {
        assert(!is_space(s[leading_word(s)]));
    }
    if i < leading_word(s) {
        assert(!is_space(s[i]));
    }
}

/// The views of owned texts.
pub open spec fn views(v: Seq<String>) -> Seq<Seq<char>> {
    Seq::new(v.len(), |i: int| v[i]@)
}

/// The words of a text.
pub fn split_words(msg: &str) -> (r: Vec<String>)
    ensures
        views(r@) == words(msg@),
{
    let chars = chars_of(msg);
    let n: usize = chars.len();
    let mut out: Vec<String> = Vec::new();
    let mut at: usize = 0;
    proof {
        assert(msg@.skip(0) =~= msg@);
        assert(views(out@) =~= Seq::empty());
        assert(Seq::empty() + words(msg@) =~= words(msg@));
    }
    loop
        invariant
            chars@ == msg@,
            n == chars@.len(),
            at <= n,
            views(out@) + words(msg@.skip(at as int)) == words(msg@),
        ensures
            views(out@) == words(msg@),
        decreases n - at,
    {
        let ghost s = msg@.skip(at as int);
        let mut start: usize = at;
        while start < n && is_whitespace(chars[start])
            invariant
                chars@ == msg@,
                n == chars@.len(),
                at <= start <= n,
                s == msg@.skip(at as int),
                forall|k: int| 0 <= k < start - at ==> is_space(#[trigger] s[k]),
            decreases n - start,
        {
            proof {
                assert(s[start - at] == msg@[start as int]);
            }
            start += 1;
        }
        proof {
            if start < n {
                assert(s[start - at] == msg@[start as int]);
            }
            lemma_space_step(s, start - at);
            assert(s.skip(start - at) =~= msg@.skip(start as int));
        }
        if start == n {
            proof {
                assert(words(s) =~= Seq::empty());
                assert(views(out@) + words(s) =~= views(out@));
            }
            break;
        }
        let ghost t = msg@.skip(start as int);
        let mut end: usize = start;
        while end < n && !is_whitespace(chars[end])
            invariant
                chars@ == msg@,
                n == chars@.len(),
                start <= end <= n,
                t == msg@.skip(start as int),
                forall|k: int| 0 <= k < end - start ==> !is_space(#[trigger] t[k]),
            decreases n - end,
        {
            proof {
                assert(t[end - start] == msg@[end as int]);
            }
            end += 1;
        }
        proof {
            if end < n {
                assert(t[end - start] == msg@[end as int]);
            }
            lemma_word_step(t, end - start);
            assert(!is_space(msg@[start as int]));
            assert(t[0] == msg@[start as int]);
            assert(end > start) by {
                if end == start {
                    assert(is_space(t[0]));
                }
            }
            assert(t.take(end - start) =~= msg@.subrange(start as int, end as int));
            assert(t.skip(end - start) =~= msg@.skip(end as int));
        }
        let ghost before = views(out@);
        let word: String = msg.substring_char(start, end).to_owned();
        out.push(word);
        proof {
            assert(views(out@) =~= before + seq![word@]);
            assert(words(s) == seq![word@] + words(msg@.skip(end as int)));
            assert(views(out@) + words(msg@.skip(end as int)) =~= before + words(s));
        }
        at = end;
    }
    out
}

/// The digit character of a number below ten.
pub open spec fn digit_char(d: int) -> char {
    (('0' as u32) + d) as char
}

/// The shortest decimal text of a number.
pub open spec fn decimal(n: nat) -> Seq<char>
    decreases n,
{
    if n < 10 {
        seq![digit_char(n as int)]
    } else {
        decimal(n / 10).push(digit_char((n % 10) as int))
    }
}

fn digit_text(d: u64) -> (r: &'static str)
    requires
        d < 10,
    ensures
        r@ == seq![digit_char(d as int)],
{
    proof {
        reveal_strlit("0");
        reveal_strlit("1");
        reveal_strlit("2");
        reveal_strlit("3");
        reveal_strlit("4");
        reveal_strlit("5");
        reveal_strlit("6");
        reveal_strlit("7");
        reveal_strlit("8");
        reveal_strlit("9");
    }
    let r: &'static str = match d {
        0 => "0",
        1 => "1",
        2 => "2",
        3 => "3",
        4 => "4",
        5 => "5",
        6 => "6",
        7 => "7",
        8 => "8",
        _ => "9",
    };
    proof {
        assert(r@ =~= seq![digit_char(d as int)]);
    }
    r
}

/// Append the decimal text of a number.
pub fn push_decimal(out: &mut String, n: u64)
    ensures
        final(out)@ == old(out)@ + decimal(n as nat),
    decreases n,
{
    if n < 10 {
        out.append(digit_text(n));
    } else {
        push_decimal(out, n / 10);
        let ghost mid = out@;
        out.append(digit_text(n % 10));
        proof {
            assert(out@ =~= old(out)@ + decimal(n as nat));
        }
    }
}

/// Whether a character is an ASCII digit.
pub open spec fn is_digit(c: char) -> bool {
    '0' as u32 <= c as u32 <= '9' as u32
}

/// Whether a text is one or more digits.
pub open spec fn all_digits(s: Seq<char>) -> bool {
    s.len() > 0 && forall|i: int| 0 <= i < s.len() ==> is_digit(#[trigger] s[i])
}

/// The number that digits spell.
pub open spec fn digits_value(s: Seq<char>) -> int
    decreases s.len(),
{
    if s.len() == 0 {
        0
    } else {
        digits_value(s.drop_last()) * 10 + (s.last() as u32 - '0' as u32)
    }
}

/// A text without its leading plus sign.
pub open spec fn unsigned_part(s: Seq<char>) -> Seq<char> {
    if s.len() > 0 && s[0] == '+' {
        s.drop_first()
    } else {
        s
    }
}

/// The number up to `max` that a text spells: digits, with a plus sign in
/// front if one likes.
pub open spec fn number(s: Seq<char>, max: int) -> Option<int> {
    let d = unsigned_part(s);
    if all_digits(d) && digits_value(d) <= max {
        Some(digits_value(d))
    } else {
        None
    }
}

proof fn lemma_prefix_not_larger(s: Seq<char>, n: int)
    requires
        all_digits(s),
        0 <= n <= s.len(),
    ensures
        0 <= digits_value(s.take(n)) <= digits_value(s),
    decreases s.len() - n,
{
    if n < s.len() {
        lemma_prefix_not_larger(s, n + 1);
        assert(s.take(n + 1).drop_last() =~= s.take(n));
        assert(is_digit(s[n]));
        lemma_digits_not_negative(s, n);
    } else {
        assert(s.take(n) =~= s);
        lemma_digits_not_negative(s, n);
    }
}

proof fn lemma_digits_not_negative(s: Seq<char>, n: int)
    requires
        all_digits(s),
        0 <= n <= s.len(),
    ensures
        0 <= digits_value(s.take(n)),
    decreases n,
{
    if n > 0 {
        lemma_digits_not_negative(s, n - 1);
        assert(s.take(n).drop_last() =~= s.take(n - 1));
        assert(is_digit(s[n - 1]));
    }
}

/// Read a number up to `max`.
pub fn parse_number(text: &str, max: u64) -> (r: Option<u64>)
    ensures
        match r {
            Some(n) => number(text@, max as int) == Some(n as int),
            None => number(text@, max as int) is None,
        },
{
    let chars = chars_of(text);
    let mut i: usize = 0;
    if chars.len() > 0 && chars[0] == '+' {
        i = 1;
    }
    let start: usize = i;
    let ghost d = unsigned_part(text@);
    proof {
        assert(d =~= text@.skip(start as int));
    }
    if i == chars.len() {
        return None;
    }
    let mut value: u64 = 0;
    proof {
        assert(d.take(0) =~= Seq::empty());
    }
    while i < chars.len()
        invariant
            chars@ == text@,
            d == unsigned_part(text@),
            d == text@.skip(start as int),
            start <= i <= chars@.len(),
            start < chars@.len(),
            value <= max,
            value == digits_value(d.take(i - start)),
            forall|k: int| 0 <= k < i - start ==> is_digit(#[trigger] d[k]),
        decreases chars.len() - i,
    {
        let c: u32 = chars[i] as u32;
        proof {
            assert(d[i - start] == chars@[i as int]);
            assert(d.take(i - start + 1).drop_last() =~= d.take(i - start));
        }
        if c < 48 || c > 57 {
            proof {
                assert(!is_digit(d[i - start]));
            }
            return None;
        }
        let digit: u64 = (c - 48) as u64;
        match value.checked_mul(10) {
            None => {
                proof {
                    if all_digits(d) {
                        lemma_prefix_not_larger(d, i - start + 1);
                    }
                }
                return None;
            },
            Some(shifted) => match shifted.checked_add(digit) {
                None => {
                    proof {
                        if all_digits(d) {
                            lemma_prefix_not_larger(d, i - start + 1);
                        }
                    }
                    return None;
                },
                Some(next) => {
                    if next > max {
                        proof {
                            if all_digits(d) {
                                lemma_prefix_not_larger(d, i - start + 1);
                            }
                        }
                        return None;
                    }
                    value = next;
                },
            },
        }
        i += 1;
    }
    proof {
        assert(d.take(i - start) =~= d);
    }
    Some(value)
}

/// The decimal text of a number is nothing but digits, and spells the number.
pub proof fn lemma_decimal_reads_back(n: nat)
    ensures
        all_digits(decimal(n)),
        digits_value(decimal(n)) == n,
    decreases n,
{
    if n < 10 {
        let s = decimal(n);
        assert(s.drop_last() =~= Seq::empty());
        assert(digits_value(s.drop_last()) == 0);
        assert(s.last() == digit_char(n as int));
    } else {
        lemma_decimal_reads_back(n / 10);
        let s = decimal(n);
        let rest = decimal(n / 10);
        assert(s.drop_last() =~= rest);
        assert(s.last() == digit_char((n % 10) as int));
        assert forall|i: int| 0 <= i < s.len() implies is_digit(#[trigger] s[i]) by {
            if i < rest.len() {
                assert(is_digit(rest[i]));
            }
        }
    }
}

/// A number written in decimal is read back unchanged, and is a single word.
pub proof fn law_numbers_read_back(n: u64, max: u64)
    requires
        n <= max,
    ensures
        number(decimal(n as nat), max as int) == Some(n as int),
        decimal(n as nat).len() > 0,
        forall|i: int| 0 <= i < decimal(n as nat).len() ==> !is_space(#[trigger] decimal(n as nat)[i]),
{
    let s = decimal(n as nat);
    lemma_decimal_reads_back(n as nat);
    assert(is_digit(s[0]));
    assert(unsigned_part(s) == s);
    assert forall|i: int| 0 <= i < s.len() implies !is_space(#[trigger] s[i]) by {
        assert(is_digit(s[i]));
    }
}

/// Text falls apart at every single space, of whatever kind: the words of two
/// texts with a space between them are the words of the one and then those of
/// the other. Text without a space is one word, and empty text has none.
pub proof fn law_text_falls_apart_at_spaces(a: Seq<char>, space: char, b: Seq<char>)
    requires
        is_space(space),
    ensures
        words(a + seq![space] + b) == words(a) + words(b),
        words(Seq::empty()) == Seq::<Seq<char>>::empty(),
        a.len() > 0 && (forall|i: int| 0 <= i < a.len() ==> !is_space(#[trigger] a[i])) ==> words(a)
            == seq![a],
    decreases a.len(),
{
    let empty = Seq::<char>::empty();
    lemma_leading_space(empty);
    assert(empty.skip(leading_space(empty)) =~= empty);
    assert(words(empty) =~= Seq::<Seq<char>>::empty());
    let s = a + seq![space] + b;
    let n = leading_space(a);
    lemma_leading_space(a);
    lemma_leading_space(s);
    lemma_leading_space(b);
    let t = a.skip(n);
    let r = leading_space(s);
    assert forall|i: int| 0 <= i < a.len() implies #[trigger] s[i] == a[i] by {}
    assert(s[a.len() as int] == space);
    if t.len() == 0 {
        let k = leading_space(b);
        let whole = a.len() + 1 + k;
        assert(r == whole) by {
            if r < whole {
                if r < a.len() {
                    assert(is_space(a[r]));
                } else if r > a.len() {
                    assert(s[r] == b[r - a.len() - 1]);
                }
            }
            if r > whole {
                assert(s[whole as int] == b[k]);
            }
        }
        assert(s.skip(r) =~= b.skip(k));
        assert(words(a) =~= Seq::<Seq<char>>::empty());
        assert(words(s) =~= words(b));
    } else {
        assert(r == n) by {
            assert(!is_space(a[n]));
            if r < n {
                assert(is_space(a[r]));
            }
            if r > n {
                assert(is_space(s[n]));
            }
        }
        let u = s.skip(r);
        assert(u =~= t + seq![space] + b);
        let m = leading_word(t);
        lemma_leading_word(t);
        lemma_leading_word(u);
        let q = leading_word(u);
        assert forall|i: int| 0 <= i < t.len() implies #[trigger] u[i] == t[i] by {}
        assert(u[t.len() as int] == space);
        assert(q == m) by {
            if q < m {
                assert(!is_space(t[q]));
            }
            if q > m {
                assert(!is_space(u[m]));
            }
        }
        assert(t[0] == a[n]);
        assert(m > 0);
        assert(u.take(q) =~= t.take(m));
        assert(u.skip(q) =~= t.skip(m) + seq![space] + b);
        law_text_falls_apart_at_spaces(t.skip(m), space, b);
        assert(words(s) =~= words(a) + words(b));
    }
    if a.len() > 0 && (forall|i: int| 0 <= i < a.len() ==> !is_space(#[trigger] a[i])) {
        assert(n == 0) by {
            if n > 0 {
                assert(is_space(a[0]));
            }
        }
        assert(t =~= a);
        let m = leading_word(a);
        lemma_leading_word(a);
        assert(m == a.len());
        assert(a.take(m) =~= a);
        assert(a.skip(m) =~= empty);
        assert(words(a) =~= seq![a]);
    }
}

/// White space is what Unicode calls so, by code.
pub proof fn law_spaces_have_these_codes(c: char)
    ensures
        (c as u32) <= 32 ==> (is_space(c) <==> 9 <= (c as u32) <= 13 || c as u32 == 32),
        32 < (c as u32) <= 160 ==> (is_space(c) <==> c as u32 == 133 || c as u32 == 160),
        160 < (c as u32) < 8192 ==> (is_space(c) <==> c as u32 == 5760),
        8192 <= (c as u32) <= 8202 ==> is_space(c),
        8202 < c as u32 ==> (is_space(c) <==> c as u32 == 8232 || c as u32 == 8233 || c as u32
            == 8239 || c as u32 == 8287 || c as u32 == 12288),
{
}

/// A number is written digit by digit: its last digit comes last, after those
/// of a tenth of it, and a number below ten is its one digit.
pub proof fn law_numbers_are_written_in_decimal(n: nat)
    ensures
        n < 10 ==> decimal(n).len() == 1,
        n >= 10 ==> decimal(n).len() == decimal(n / 10).len() + 1 && decimal(n).drop_last()
            == decimal(n / 10),
        decimal(n).len() > 0 && (decimal(n).last() as u32) == 48 + n % 10,
{
    if n >= 10 {
        assert(decimal(n).drop_last() =~= decimal(n / 10));
    }
}

/// A number is read digit by digit: one more digit is ten times what was read
/// so far plus the digit, as long as the sum is not above the limit. One plus
/// sign may stand in front. Nothing else is a number, nor is nothing at all.
pub proof fn law_numbers_are_read_in_decimal(s: Seq<char>, c: char, max: int)
    requires
        0 <= max,
    ensures
        number(Seq::empty(), max) is None,
        number(seq!['+'], max) is None,
        48 <= (c as u32) <= 57 && c as u32 - 48 <= max ==> number(seq![c], max) == Some(
            c as u32 - 48,
        ),
        !(48 <= (c as u32) <= 57) && s.len() > 0 ==> number(s.push(c), max) is None,
        !(48 <= (c as u32) <= 57) && c != '+' ==> number(seq![c] + s, max) is None,
        48 <= (c as u32) <= 57 && number(s, max) is Some ==> number(s.push(c), max) == (if 10
            * number(s, max)->0 + (c as u32 - 48) <= max {
            Some(10 * number(s, max)->0 + (c as u32 - 48))
        } else {
            None
        }),
        s.len() > 0 && s[0] != '+' ==> number(seq!['+'] + s, max) == number(s, max),
        number(seq!['+', '+'] + s, max) is None,
        number(s, max) is None && s.len() > 0 && s != seq!['+'] ==> number(s.push(c), max) is None,
        number(s, max) matches Some(n) ==> 0 <= n <= max,
{
    reveal_with_fuel(digits_value, 2);
    let empty = Seq::<char>::empty();
    assert(seq!['+'].drop_first() =~= empty);
    assert(seq![c].drop_last() =~= empty);
    assert(seq![c].last() == c);
    assert(seq![c][0] == c);
    if 48 <= (c as u32) <= 57 {
        assert(all_digits(seq![c]));
        assert(unsigned_part(seq![c]) == seq![c]);
    }
    let p = s.push(c);
    if s.len() > 0 {
        assert(p[0] == s[0]);
        if s[0] == '+' {
            assert(p.drop_first() =~= s.drop_first().push(c));
        }
        let d = unsigned_part(s);
        let e = unsigned_part(p);
        assert(e == d.push(c));
        assert(e[d.len() as int] == c);
        assert(e.drop_last() =~= d);
        if all_digits(d) && 48 <= (c as u32) <= 57 {
            assert forall|i: int| 0 <= i < e.len() implies is_digit(#[trigger] e[i]) by {
                if i < d.len() {
                    assert(e[i] == d[i]);
                }
            }
            assert(digits_value(e) == digits_value(d) * 10 + (c as u32 - 48));
        }
        if all_digits(d) {
            lemma_digits_not_negative(d, d.len() as int);
            assert(d.take(d.len() as int) =~= d);
        }
    }
    if s.len() > 0 && s != seq!['+'] && number(s, max) is None {
        let d = unsigned_part(s);
        let e = unsigned_part(p);
        assert(d.len() > 0) by {
            if d.len() == 0 {
                assert(s =~= seq!['+']);
            }
        }
        if !all_digits(d) {
            let i = choose|i: int| 0 <= i < d.len() && !is_digit(#[trigger] d[i]);
            assert(e[i] == d[i]);
        }
    }
    let f = seq![c] + s;
    assert(f[0] == c);
    if !(48 <= (c as u32) <= 57) && c != '+' {
        assert(unsigned_part(f) == f);
        assert(!is_digit(f[0]));
    }
    let g = seq!['+'] + s;
    assert(g[0] == '+');
    assert(g.drop_first() =~= s);
    let h = seq!['+', '+'] + s;
    assert(h[0] == '+');
    assert(h.drop_first()[0] == '+');
    assert(!is_digit('+'));
    assert(!all_digits(h.drop_first()));
}

/// Owned texts are viewed one by one, in their order.
pub proof fn law_texts_are_viewed_in_order(v: Seq<String>, i: int)
    ensures
        views(v).len() == v.len(),
        0 <= i < v.len() ==> views(v)[i] == v[i]@,
{
}

} // verus!
