//! Text rules of the race data: the order of names, white space, and the
//! decimal number a track name may start with.
use std::cmp::Ordering;
use std::num::ParseIntError;
use vstd::prelude::*;

verus! {

/// `std::num::ParseIntError`, the error of a failed number parse, held opaque.
#[verifier::external_type_specification]
#[verifier::external_body]
pub struct ExParseIntError(ParseIntError);

/// `a` sorts strictly before `b`, comparing code points from the front; a
/// proper prefix sorts first. This is the order of `String`s.
pub open spec fn text_lt(a: Seq<char>, b: Seq<char>) -> bool
    decreases a.len(),
{
    if b.len() == 0 {
        false
    } else if a.len() == 0 {
        true
    } else if a[0] != b[0] {
        (a[0] as u32) < (b[0] as u32)
    } else {
        text_lt(a.skip(1), b.skip(1))
    }
}

/// Three-way order of two texts.
pub open spec fn text_cmp(a: Seq<char>, b: Seq<char>) -> Ordering {
    if text_lt(a, b) {
        Ordering::Less
    } else if a == b {
        Ordering::Equal
    } else {
        Ordering::Greater
    }
}

/// Two different texts are ordered one way or the other, never both.
pub proof fn lemma_text_order_total(a: Seq<char>, b: Seq<char>)
    ensures
        a != b ==> (text_lt(a, b) || text_lt(b, a)),
        !(text_lt(a, b) && text_lt(b, a)),
        !text_lt(a, a),
    decreases a.len(),
{
    if a.len() > 0 {
        lemma_text_order_total(a.skip(1), a.skip(1));
    }
    if a.len() > 0 && b.len() > 0 {
        vstd::utf8::char_u32_cast(a[0], a[0] as u32);
        vstd::utf8::char_u32_cast(b[0], b[0] as u32);
        lemma_text_order_total(a.skip(1), b.skip(1));
        if a != b && a[0] == b[0] {
            assert(a.skip(1) != b.skip(1)) by {
                if a.skip(1) == b.skip(1) {
                    assert(a =~= seq![a[0]] + a.skip(1));
                    assert(b =~= seq![b[0]] + b.skip(1));
                }
            }
        }
    } else if a.len() == 0 && b.len() == 0 {
        assert(a =~= b);
    }
}

/// The text order is transitive.
pub proof fn lemma_text_order_transitive(a: Seq<char>, b: Seq<char>, c: Seq<char>)
    requires
        text_lt(a, b),
        text_lt(b, c),
    ensures
        text_lt(a, c),
    decreases a.len(),
{
    if a.len() > 0 && b.len() > 0 && c.len() > 0 {
        vstd::utf8::char_u32_cast(a[0], a[0] as u32);
        vstd::utf8::char_u32_cast(b[0], b[0] as u32);
        vstd::utf8::char_u32_cast(c[0], c[0] as u32);
        if a[0] == b[0] && b[0] == c[0] {
            lemma_text_order_transitive(a.skip(1), b.skip(1), c.skip(1));
        }
    }
}

/// `char::is_whitespace`: the characters with the Unicode `White_Space`
/// property.
pub open spec fn is_space(c: char) -> bool {
    let u = c as u32;
    (0x09 <= u <= 0x0d) || u == 0x20 || u == 0x85 || u == 0xa0 || u == 0x1680 || (0x2000 <= u
        <= 0x200a) || u == 0x2028 || u == 0x2029 || u == 0x202f || u == 0x205f || u == 0x3000
}

/// Value of a decimal digit character.
pub open spec fn digit_value(c: char) -> int {
    (c as u32) - ('0' as u32)
}

/// A character `0` to `9`.
pub open spec fn is_digit(c: char) -> bool {
    '0' as u32 <= c as u32 <= '9' as u32
}

/// Value of a string of decimal digits.
pub open spec fn decimal_value(d: Seq<char>) -> int
    decreases d.len(),
{
    if d.len() == 0 {
        0
    } else {
        decimal_value(d.drop_last()) * 10 + digit_value(d.last())
    }
}

/// What `u32`'s `from_str` accepts: an optional `+`, then one or more decimal
/// digits and nothing else, of a value that fits.
pub open spec fn decimal_u32(s: Seq<char>) -> Option<u32> {
    let d = if s.len() > 0 && s[0] == '+' {
        s.skip(1)
    } else {
        s
    };
    if d.len() > 0 && (forall|i: int| 0 <= i < d.len() ==> is_digit(#[trigger] d[i]))
        && decimal_value(d) <= u32::MAX {
        Some(decimal_value(d) as u32)
    } else {
        None
    }
}

/// `s` with its leading white space removed.
pub open spec fn trim_start_spec(s: Seq<char>) -> Seq<char>
    decreases s.len(),
{
    if s.len() > 0 && is_space(s[0]) {
        trim_start_spec(s.skip(1))
    } else {
        s
    }
}

/// The characters of `s` up to its first white space.
pub open spec fn word_spec(s: Seq<char>) -> Seq<char>
    decreases s.len(),
{
    if s.len() == 0 || is_space(s[0]) {
        Seq::empty()
    } else {
        seq![s[0]] + word_spec(s.skip(1))
    }
}

/// The first white-space separated word of `s`, empty when it has none.
pub open spec fn first_word(s: Seq<char>) -> Seq<char> {
    word_spec(trim_start_spec(s))
}

/// The number a name starts with: its first word read as a `u32`, else 0.
pub open spec fn leading_number_spec(s: Seq<char>) -> u32 {
    match decimal_u32(first_word(s)) {
        Some(v) => v,
        None => 0,
    }
}

/// Relies on `str::parse::<u32>`: an optional `+` and decimal digits only, of
/// a value that fits; anything else is an error.
#[verifier::external_body]
pub(crate) fn parse_u32(s: &str) -> (r: Result<u32, ParseIntError>)
    ensures
        match decimal_u32(s@) {
            Some(v) => r == Ok::<u32, ParseIntError>(v),
            None => r is Err,
        },
{
    s.parse::<u32>()
}

fn is_space_exec(c: char) -> (b: bool)
    ensures
        b == is_space(c),
{
    let u = c as u32;
    (0x09 <= u && u <= 0x0d) || u == 0x20 || u == 0x85 || u == 0xa0 || u == 0x1680 || (0x2000 <= u
        && u <= 0x200a) || u == 0x2028 || u == 0x2029 || u == 0x202f || u == 0x205f || u == 0x3000
}

/// The characters of a text.
pub fn chars_of(s: &str) -> (r: Vec<char>)
    ensures
        r@ == s@,
{
    let n = s.unicode_len();
    let mut out: Vec<char> = Vec::new();
    let mut i: usize = 0;
    while i < n
        invariant
            n == s@.len(),
            i <= n,
            out@ == s@.subrange(0, i as int),
        decreases n - i,
    {
        out.push(s.get_char(i));
        i = i + 1;
    }
    assert(s@.subrange(0, n as int) =~= s@);
    out
}

/// Three-way comparison of two texts in the order of `String`s.
pub fn compare_text(a: &str, b: &str) -> (r: Ordering)
    ensures
        r == text_cmp(a@, b@),
{
    let x = chars_of(a);
    let y = chars_of(b);
    let mut k: usize = 0;
    assert(a@.skip(0) =~= a@);
    assert(b@.skip(0) =~= b@);
    while k < x.len() && k < y.len()
        invariant
            x@ == a@,
            y@ == b@,
            k <= x@.len(),
            k <= y@.len(),
            x@.subrange(0, k as int) == y@.subrange(0, k as int),
            text_lt(a@, b@) == text_lt(a@.skip(k as int), b@.skip(k as int)),
            text_lt(b@, a@) == text_lt(b@.skip(k as int), a@.skip(k as int)),
        decreases x@.len() - k,
    {
        if x[k] != y[k] {
            proof {
                lemma_text_order_total(a@, b@);
                vstd::utf8::char_u32_cast(x@[k as int], x@[k as int] as u32);
                vstd::utf8::char_u32_cast(y@[k as int], y@[k as int] as u32);
            }
            if (x[k] as u32) < (y[k] as u32) {
                return Ordering::Less;
            } else {
                return Ordering::Greater;
            }
        }
        proof {
            assert(a@.skip(k as int).skip(1) =~= a@.skip(k + 1));
            assert(b@.skip(k as int).skip(1) =~= b@.skip(k + 1));
            assert(x@.subrange(0, k + 1) =~= x@.subrange(0, k as int).push(x@[k as int]));
            assert(y@.subrange(0, k + 1) =~= y@.subrange(0, k as int).push(y@[k as int]));
        }
        k = k + 1;
    }
    proof {
        lemma_text_order_total(a@, b@);
    }
    if x.len() == y.len() {
        assert(a@ =~= b@) by {
            assert(x@.subrange(0, k as int) =~= x@);
            assert(y@.subrange(0, k as int) =~= y@);
        }
        Ordering::Equal
    } else if x.len() < y.len() {
        Ordering::Less
    } else {
        Ordering::Greater
    }
}

/// Whether `a` sorts strictly before `b` in the order of `String`s.
pub fn text_before(a: &str, b: &str) -> (r: bool)
    ensures
        r == text_lt(a@, b@),
{
    match compare_text(a, b) {
        Ordering::Less => true,
        _ => false,
    }
}

/// The number a name starts with: its first white-space separated word read
/// as a `u32`, or 0 when that fails.
pub fn leading_number(s: &str) -> (r: u32)
    ensures
        r == leading_number_spec(s@),
{
    let cs = chars_of(s);
    let n = cs.len();
    let mut from: usize = 0;
    assert(s@.skip(0) =~= s@);
    while from < n && is_space_exec(cs[from])
        invariant
            cs@ == s@,
            n == cs@.len(),
            from <= n,
            trim_start_spec(s@) == trim_start_spec(s@.skip(from as int)),
        decreases n - from,
    {
        proof {
            assert(s@.skip(from as int).skip(1) =~= s@.skip(from + 1));
        }
        from = from + 1;
    }
    proof {
        assert(trim_start_spec(s@.skip(from as int)) == s@.skip(from as int));
    }
    let mut to: usize = from;
    while to < n && !is_space_exec(cs[to])
        invariant
            cs@ == s@,
            n == cs@.len(),
            from <= to <= n,
            first_word(s@) == s@.subrange(from as int, to as int) + word_spec(s@.skip(to as int)),
        decreases n - to,
    {
        proof {
            assert(s@.skip(to as int).skip(1) =~= s@.skip(to + 1));
            assert(s@.subrange(from as int, to + 1) =~= s@.subrange(from as int, to as int) + seq![
                s@[to as int],
            ]);
        }
        to = to + 1;
    }
    proof {
        assert(word_spec(s@.skip(to as int)) == Seq::<char>::empty());
        assert(first_word(s@) =~= s@.subrange(from as int, to as int));
    }
    let word = s.substring_char(from, to);
    match parse_u32(word) {
        Ok(v) => v,
        Err(_) => 0,
    }
}

} // verus!
