//! Small verified string utilities used by the type parser and the names
//! the generator produces.
use vstd::prelude::*;
use vstd::string::*;

verus! {

/// Decimal digit character for `d < 10`.
pub open spec fn digit_char(d: nat) -> char {
    if d == 0 { '0' }
    else if d == 1 { '1' }
    else if d == 2 { '2' }
    else if d == 3 { '3' }
    else if d == 4 { '4' }
    else if d == 5 { '5' }
    else if d == 6 { '6' }
    else if d == 7 { '7' }
    else if d == 8 { '8' }
    else { '9' }
}

/// Value of a decimal digit character, if it is one.
pub open spec fn digit_value(c: char) -> Option<nat> {
    if '0' <= c && c <= '9' {
        Some((c as nat - '0' as nat) as nat)
    } else {
        None
    }
}

/// The decimal representation of `n`, without leading zeros.
pub open spec fn decimal(n: nat) -> Seq<char>
    decreases n,
{
    if n < 10 {
        seq![digit_char(n)]
    } else {
        decimal(n / 10).push(digit_char(n % 10))
    }
}

/// The number written by a non-empty run of decimal digits.
pub open spec fn digits_value(s: Seq<char>) -> Option<nat>
    decreases s.len(),
{
    if s.len() == 0 {
        None
    } else {
        match digit_value(s.last()) {
            None => None,
            Some(d) => if s.len() == 1 {
                Some(d)
            } else {
                match digits_value(s.drop_last()) {
                    None => None,
                    Some(v) => Some(v * 10 + d),
                }
            },
        }
    }
}

/// An unsigned decimal number in the form Rust's integer parser accepts:
/// an optional leading `+` followed by at least one digit.
pub open spec fn unsigned_value(s: Seq<char>) -> Option<nat> {
    if s.len() > 0 && s[0] == '+' {
        digits_value(s.drop_first())
    } else {
        digits_value(s)
    }
}

/// Index of the first occurrence of `c` in `s`.
pub open spec fn first_index_of(s: Seq<char>, c: char) -> Option<int> {
    if exists|i: int| 0 <= i < s.len() && s[i] == c {
        Some(choose|i: int| 0 <= i < s.len() && s[i] == c && forall|j: int| 0 <= j < i ==> s[j] != c)
    } else {
        None
    }
}

fn digit_str(d: usize) -> (r: &'static str)
    requires
        d < 10,
    ensures
        r@ == seq![digit_char(d as nat)],
{
    proof {
        reveal_strlit("0");
        reveal_strlit("1");
        reveal_strlit("2");
        reveal_strlit("3");
        reveal_strlit("4");
        reveal_strlit("5");
        reveal_strlit("6");
        reveal_strlit("7");
        reveal_strlit("8");
        reveal_strlit("9");
    }
    if d == 0 { "0" }
    else if d == 1 { "1" }
    else if d == 2 { "2" }
    else if d == 3 { "3" }
    else if d == 4 { "4" }
    else if d == 5 { "5" }
    else if d == 6 { "6" }
    else if d == 7 { "7" }
    else if d == 8 { "8" }
    else { "9" }
}

/// Appends the decimal representation of `n` to `out`.
pub fn push_decimal(out: &mut String, n: usize)
    ensures
        final(out)@ == old(out)@ + decimal(n as nat),
    decreases n,
{
    if n < 10 {
        out.append(digit_str(n));
    } else {
        push_decimal(out, n / 10);
        out.append(digit_str(n % 10));
    }
}

/// Character-wise equality of two strings.
pub fn str_eq(a: &str, b: &str) -> (r: bool)
    ensures
        r == (a@ == b@),
{
    let n = a.unicode_len();
    if n != b.unicode_len() {
        return false;
    }
    let mut i: usize = 0;
    while i < n
        invariant
            n == a@.len(),
            n == b@.len(),
            0 <= i <= n,
            forall|j: int| 0 <= j < i ==> a@[j] == b@[j],
        decreases n - i,
    {
        if a.get_char(i) != b.get_char(i) {
            return false;
        }
        i = i + 1;
    }
    assert(a@ =~= b@);
    true
}

/// Position of the first `c` in `s`, as a character index.
pub fn find_char(s: &str, c: char) -> (r: Option<usize>)
    ensures
        r matches Some(i) ==> first_index_of(s@, c) == Some(i as int),
        r matches Some(i) ==> i < s@.len() && s@[i as int] == c && forall|j: int| 0 <= j < i ==> s@[j] != c,
        r is None ==> first_index_of(s@, c) is None,
{
    let n = s.unicode_len();
    let mut i: usize = 0;
    while i < n
        invariant
            n == s@.len(),
            0 <= i <= n,
            forall|j: int| 0 <= j < i ==> s@[j] != c,
        decreases n - i,
    {
        if s.get_char(i) == c {
            let ghost k = first_index_of(s@, c);
            assert(k is Some);
            assert(k == Some(i as int));
            return Some(i);
        }
        i = i + 1;
    }
    None
}

/// Reads an unsigned decimal number as Rust's integer parser does for `usize`;
/// `None` where the text is no number or the number does not fit.
pub fn parse_unsigned(s: &str) -> (r: Option<usize>)
    ensures
        r matches Some(v) ==> unsigned_value(s@) == Some(v as nat),
        r is None ==> match unsigned_value(s@) {
            None => true,
            Some(v) => v > usize::MAX,
        },
{
    let n = s.unicode_len();
    let mut start: usize = 0;
    if n > 0 && s.get_char(0) == '+' {
        start = 1;
    }
    let ghost body = s@.subrange(start as int, n as int);
    assert(unsigned_value(s@) == digits_value(body)) by {
        if start == 1 {
            assert(body =~= s@.drop_first());
        } else {
            assert(body =~= s@);
        }
    }
    if start == n {
        return None;
    }
    let mut acc: usize = 0;
    let mut overflow = false;
    let mut i: usize = start;
    while i < n
        invariant
            n == s@.len(),
            start < n,
            start <= i <= n,
            body == s@.subrange(start as int, n as int),
            unsigned_value(s@) == digits_value(body),
            i > start ==> digits_value(s@.subrange(start as int, i as int)) is Some,
            i > start && !overflow ==> digits_value(s@.subrange(start as int, i as int)) == Some(acc as nat),
            i > start && overflow ==> digits_value(s@.subrange(start as int, i as int)).unwrap() > usize::MAX,
            i == start ==> !overflow && acc == 0,
        decreases n - i,
    {
        let c = s.get_char(i);
        if c < '0' || c > '9' {
            proof { lemma_digits_none_extends(s@, start as int, i as int, n as int); }
            return None;
        }
        let d = (c as u32 - '0' as u32) as usize;
        let ghost prev = s@.subrange(start as int, i as int);
        let ghost next = s@.subrange(start as int, i + 1);
        assert(next.drop_last() =~= prev);
        assert(next.last() == c);
        if overflow || acc > (usize::MAX - d) / 10 {
            overflow = true;
        } else {
            acc = acc * 10 + d;
        }
        i = i + 1;
    }
    assert(s@.subrange(start as int, n as int) =~= body);
    if overflow {
        None
    } else {
        Some(acc)
    }
}

/// A non-digit anywhere in a run makes the whole run no number.
proof fn lemma_digits_none_extends(s: Seq<char>, start: int, i: int, n: int)
    requires
        0 <= start <= i < n <= s.len(),
        digit_value(s[i]) is None,
    ensures
        digits_value(s.subrange(start, n)) is None,
    decreases n - i,
{
    let t = s.subrange(start, n);
    if n == i + 1 {
        assert(t.last() == s[i]);
    } else {
        lemma_digits_none_extends(s, start, i, n - 1);
        assert(t.drop_last() =~= s.subrange(start, n - 1));
    }
}

/// Value of `c` as a digit in base `radix` (10 or 16), if it is one.
pub open spec fn radix_digit(c: char, radix: nat) -> Option<nat> {
    if '0' <= c && c <= '9' && (c as nat - '0' as nat) < radix {
        Some((c as nat - '0' as nat) as nat)
    } else if radix == 16 && 'a' <= c && c <= 'f' {
        Some((c as nat - 'a' as nat + 10) as nat)
    } else if radix == 16 && 'A' <= c && c <= 'F' {
        Some((c as nat - 'A' as nat + 10) as nat)
    } else {
        None
    }
}

/// The number written by a non-empty run of digits in base `radix`.
pub open spec fn radix_digits_value(s: Seq<char>, radix: nat) -> Option<nat>
    decreases s.len(),
{
    if s.len() == 0 {
        None
    } else {
        match radix_digit(s.last(), radix) {
            None => None,
            Some(d) => if s.len() == 1 {
                Some(d)
            } else {
                match radix_digits_value(s.drop_last(), radix) {
                    None => None,
                    Some(v) => Some(v * radix + d),
                }
            },
        }
    }
}

/// An unsigned number in base `radix` as Rust's `from_str_radix` reads it:
/// an optional `+`, then at least one digit.
pub open spec fn unsigned_radix_value(s: Seq<char>, radix: nat) -> Option<nat> {
    if s.len() > 0 && s[0] == '+' {
        radix_digits_value(s.drop_first(), radix)
    } else {
        radix_digits_value(s, radix)
    }
}

proof fn lemma_radix_none_extends(s: Seq<char>, radix: nat, start: int, i: int, n: int)
    requires
        0 <= start <= i < n <= s.len(),
        radix_digit(s[i], radix) is None,
    ensures
        radix_digits_value(s.subrange(start, n), radix) is None,
    decreases n - i,
{
    let t = s.subrange(start, n);
    if n == i + 1 {
        assert(t.last() == s[i]);
    } else {
        lemma_radix_none_extends(s, radix, start, i, n - 1);
        assert(t.drop_last() =~= s.subrange(start, n - 1));
    }
}

fn radix_digit_of(c: char, radix: u32) -> (r: Option<u32>)
    requires
        radix == 10 || radix == 16,
    ensures
        r matches Some(d) ==> radix_digit(c, radix as nat) == Some(d as nat) && d < radix,
        r is None ==> radix_digit(c, radix as nat) is None,
{
    if '0' <= c && c <= '9' && (c as u32 - '0' as u32) < radix {
        Some(c as u32 - '0' as u32)
    } else if radix == 16 && 'a' <= c && c <= 'f' {
        Some(c as u32 - 'a' as u32 + 10)
    } else if radix == 16 && 'A' <= c && c <= 'F' {
        Some(c as u32 - 'A' as u32 + 10)
    } else {
        None
    }
}

/// Reads an unsigned number in base 10 or 16 as `u32::from_str_radix`
/// does; `None` where the text is no number or the number does not fit.
pub fn parse_u32_radix(s: &str, radix: u32) -> (r: Option<u32>)
    requires
        radix == 10 || radix == 16,
    ensures
        r matches Some(v) ==> unsigned_radix_value(s@, radix as nat) == Some(v as nat),
        r is None ==> match unsigned_radix_value(s@, radix as nat) {
            None => true,
            Some(v) => v > u32::MAX,
        },
{
    let n = s.unicode_len();
    let mut start: usize = 0;
    if n > 0 && s.get_char(0) == '+' {
        start = 1;
    }
    let ghost body = s@.subrange(start as int, n as int);
    assert(unsigned_radix_value(s@, radix as nat) == radix_digits_value(body, radix as nat)) by {
        if start == 1 {
            assert(body =~= s@.drop_first());
        } else {
            assert(body =~= s@);
        }
    }
    if start == n {
        return None;
    }
    let mut acc: u32 = 0;
    let mut overflow = false;
    let mut i: usize = start;
    while i < n
        invariant
            radix == 10 || radix == 16,
            n == s@.len(),
            start < n,
            start <= i <= n,
            body == s@.subrange(start as int, n as int),
            unsigned_radix_value(s@, radix as nat) == radix_digits_value(body, radix as nat),
            i > start ==> radix_digits_value(s@.subrange(start as int, i as int), radix as nat) is Some,
            i > start && !overflow ==> radix_digits_value(s@.subrange(start as int, i as int), radix as nat) == Some(acc as nat),
            i > start && overflow ==> radix_digits_value(s@.subrange(start as int, i as int), radix as nat).unwrap() > u32::MAX,
            i == start ==> !overflow && acc == 0,
        decreases n - i,
    {
        let c = s.get_char(i);
        let d = match radix_digit_of(c, radix) {
            None => {
                proof { lemma_radix_none_extends(s@, radix as nat, start as int, i as int, n as int); }
                return None;
            },
            Some(d) => d,
        };
        let ghost prev = s@.subrange(start as int, i as int);
        let ghost next = s@.subrange(start as int, i + 1);
        assert(next.drop_last() =~= prev);
        assert(next.last() == c);
        if overflow {
            proof {
                let v = radix_digits_value(prev, radix as nat).unwrap();
                assert(v * radix as nat + d as nat > u32::MAX) by (nonlinear_arith)
                    requires v > u32::MAX, radix > 0;
            }
        } else {
            assert(acc as u64 * radix as u64 <= 0xFFFF_FFFF * 16) by (nonlinear_arith)
                requires acc <= 0xFFFF_FFFFu32, radix <= 16;
            let next: u64 = acc as u64 * radix as u64 + d as u64;
            if next > 0xFFFF_FFFFu64 {
                overflow = true;
            } else {
                acc = next as u32;
            }
        }
        i = i + 1;
    }
    assert(s@.subrange(start as int, n as int) =~= body);
    if overflow {
        None
    } else {
        Some(acc)
    }
}

/// `s` with each line feed replaced by `to`.
pub open spec fn replace_newlines(s: Seq<char>, to: Seq<char>) -> Seq<char>
    decreases s.len(),
{
    if s.len() == 0 {
        s
    } else {
        replace_newlines(s.drop_last(), to) + if s.last() == '\n' { to } else { seq![s.last()] }
    }
}

/// Replaces every line feed of `s` by `to`.
pub fn replace_newline(s: &str, to: &str) -> (r: String)
    ensures
        r@ == replace_newlines(s@, to@),
{
    let n = s.unicode_len();
    let mut out = String::new();
    let mut i: usize = 0;
    while i < n
        invariant
            n == s@.len(),
            0 <= i <= n,
            out@ == replace_newlines(s@.take(i as int), to@),
        decreases n - i,
    {
        let c = s.get_char(i);
        proof {
            assert(s@.take(i + 1).drop_last() =~= s@.take(i as int));
            assert(s@.take(i + 1).last() == c);
        }
        if c == '\n' {
            out.append(to);
        } else {
            push_char(&mut out, c);
            assert(seq![c] =~= Seq::<char>::empty().push(c));
        }
        i = i + 1;
    }
    assert(s@.take(n as int) =~= s@);
    out
}

/// Relies on std's `String::push`: appends one character.
#[verifier::external_body]
fn push_char(s: &mut String, c: char)
    ensures
        final(s)@ == old(s)@.push(c),
{
    s.push(c)
}

/// What std's `char::to_uppercase` yields for `c`, as a string.
pub uninterp spec fn upper_of(c: char) -> Seq<char>;

/// Relies on std's `char::to_uppercase`: the upper case of `c`, one or
/// more characters depending on `c` alone.
#[verifier::external_body]
fn upper_case(c: char) -> (r: String)
    ensures
        r@ == upper_of(c),
{
    c.to_uppercase().to_string()
}

/// ASCII upper-case letters made lower case, other characters kept.
pub open spec fn ascii_lower(c: char) -> char {
    if 'A' <= c && c <= 'Z' { ((c as u32) + 32) as char } else { c }
}

/// A word with its first character upper-cased and the rest ASCII-lowered.
pub open spec fn capitalized(s: Seq<char>) -> Seq<char> {
    if s.len() == 0 {
        s
    } else {
        upper_of(s[0]) + s.drop_first().map_values(|c: char| ascii_lower(c))
    }
}

/// Pascal case of `s` from a position where a word starts (`at_start`) or
/// continues: underscores are dropped, the first character of each word is
/// upper-cased and the others ASCII-lowered.
pub open spec fn pascal_from(s: Seq<char>, at_start: bool) -> Seq<char>
    decreases s.len(),
{
    if s.len() == 0 {
        s
    } else if s[0] == '_' {
        pascal_from(s.drop_first(), true)
    } else if at_start {
        upper_of(s[0]) + pascal_from(s.drop_first(), false)
    } else {
        seq![ascii_lower(s[0])] + pascal_from(s.drop_first(), false)
    }
}

fn lower_char(c: char) -> (r: char)
    ensures
        r == ascii_lower(c),
{
    if 'A' <= c && c <= 'Z' {
        proof { assert(((c as u32) + 32) < 0xD800); }
        ((c as u32 + 32) as u8) as char
    } else {
        c
    }
}

/// Upper-cases the first character of a word and ASCII-lowers the rest.
pub fn capitalize_word(text: &str) -> (r: String)
    ensures
        r@ == capitalized(text@),
{
    let n = text.unicode_len();
    if n == 0 {
        return String::new();
    }
    let mut out = upper_case(text.get_char(0));
    let ghost head = out@;
    let mut i: usize = 1;
    while i < n
        invariant
            n == text@.len(),
            1 <= i <= n,
            out@ == head + text@.subrange(1, i as int).map_values(|c: char| ascii_lower(c)),
        decreases n - i,
    {
        push_char(&mut out, lower_char(text.get_char(i)));
        i = i + 1;
        assert(text@.subrange(1, i as int).map_values(|c: char| ascii_lower(c))
            =~= text@.subrange(1, i - 1).map_values(|c: char| ascii_lower(c)).push(ascii_lower(text@[i - 1])));
    }
    assert(text@.subrange(1, n as int) =~= text@.drop_first());
    out
}

/// The Pascal-case form of an upper-snake-case name (`MAV_CMD` becomes `MavCmd`).
pub fn to_pascal_case(text: &str) -> (r: String)
    ensures
        r@ == pascal_from(text@, true),
{
    let n = text.unicode_len();
    let mut out = String::new();
    let mut at_start = true;
    let mut i: usize = 0;
    assert(text@.subrange(0, n as int) =~= text@);
    assert(out@ + pascal_from(text@, true) =~= pascal_from(text@, true));
    while i < n
        invariant
            n == text@.len(),
            0 <= i <= n,
            out@ + pascal_from(text@.subrange(i as int, n as int), at_start) == pascal_from(text@, true),
        decreases n - i,
    {
        let ghost rest = text@.subrange(i as int, n as int);
        let c = text.get_char(i);
        assert(rest.drop_first() =~= text@.subrange(i + 1, n as int));
        if c == '_' {
            at_start = true;
        } else if at_start {
            let up = upper_case(c);
            out.append(up.as_str());
            at_start = false;
        } else {
            push_char(&mut out, lower_char(c));
            assert(seq![ascii_lower(c)] =~= Seq::<char>::empty().push(ascii_lower(c)));
        }
        i = i + 1;
        proof {
            assert(out@ + pascal_from(text@.subrange(i as int, n as int), at_start) =~= pascal_from(text@, true));
        }
    }
    assert(text@.subrange(n as int, n as int) =~= Seq::<char>::empty());
    assert(text@.subrange(0, n as int) =~= text@);
    out
}

} // verus!
