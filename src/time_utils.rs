//! Points in time as the timing core handles them.
use vstd::prelude::*;

verus! {

/// Nanoseconds in one second.
pub const NANOS_PER_SEC: i128 = 1_000_000_000;

/// A point in time (UTC): whole seconds since the Unix epoch and the
/// nanoseconds into that second. A leap second shows as `nanos` of one billion
/// or more within the second before it.
#[derive(Clone, Copy, Debug, PartialEq, Eq, Hash, Structural)]
pub struct Timestamp {
    pub secs: i64,
    pub nanos: u32,
}

/// `a` lies strictly before `b`.
pub open spec fn earlier(a: Timestamp, b: Timestamp) -> bool {
    a.secs < b.secs || (a.secs == b.secs && a.nanos < b.nanos)
}

/// Nanoseconds from `start` to `finish`; negative when `finish` lies before.
pub open spec fn nanos_between(start: Timestamp, finish: Timestamp) -> int {
    (finish.secs - start.secs) * 1_000_000_000 + finish.nanos - start.nanos
}

/// Elapsed time of a racer: finish minus start, when both are known.
pub open spec fn elapsed_spec(start: Option<Timestamp>, finish: Option<Timestamp>) -> Option<i128> {
    match (start, finish) {
        (Some(s), Some(f)) => Some(nanos_between(s, f) as i128),
        _ => None,
    }
}

impl Timestamp {
    /// Whether `self` lies strictly before `other`.
    pub fn is_before(&self, other: &Timestamp) -> (r: bool)
        ensures
            r == earlier(*self, *other),
    {
        self.secs < other.secs || (self.secs == other.secs && self.nanos < other.nanos)
    }
}

/// Elapsed nanoseconds from `start` to `finish`, when both are known.
pub fn calculate_time(start: Option<Timestamp>, finish: Option<Timestamp>) -> (r: Option<i128>)
    ensures
        r == elapsed_spec(start, finish),
        r matches Some(d) ==> d == nanos_between(start->0, finish->0),
{
    match (start, finish) {
        (Some(s), Some(f)) => {
            let secs = f.secs as i128 - s.secs as i128;
            assert(-0x1_0000_0000_0000_0000 <= secs <= 0x1_0000_0000_0000_0000);
            assert(secs * 1_000_000_000 <= 0x1_0000_0000_0000_0000 * 1_000_000_000) by (nonlinear_arith)
                requires secs <= 0x1_0000_0000_0000_0000;
            assert(secs * 1_000_000_000 >= -0x1_0000_0000_0000_0000 * 1_000_000_000) by (nonlinear_arith)
                requires secs >= -0x1_0000_0000_0000_0000;
            Some(secs * NANOS_PER_SEC + f.nanos as i128 - s.nanos as i128)
        },
        _ => None,
    }
}

/// The decimal digit characters.
pub open spec fn digit_chars() -> Seq<char> {
    seq!['0', '1', '2', '3', '4', '5', '6', '7', '8', '9']
}

/// Decimal digits of `n`, most significant first.
pub open spec fn decimal_digits(n: nat) -> Seq<char>
    decreases n,
{
    if n < 10 {
        seq![digit_chars()[n as int]]
    } else {
        decimal_digits(n / 10) + seq![digit_chars()[(n % 10) as int]]
    }
}

/// `k` zero characters, none when `k` is not positive.
pub open spec fn zeros(k: int) -> Seq<char> {
    Seq::new(if k > 0 { k as nat } else { 0 }, |i: int| '0')
}

/// `n` in decimal, zero-padded after its sign to at least `width`
/// characters, as `{:0width$}` writes an integer.
pub open spec fn padded(n: int, width: int) -> Seq<char> {
    if n >= 0 {
        zeros(width - decimal_digits(n as nat).len()) + decimal_digits(n as nat)
    } else {
        seq!['-'] + zeros(width - 1 - decimal_digits((-n) as nat).len()) + decimal_digits(
            (-n) as nat,
        )
    }
}

/// `v` with a minus sign when `neg`.
pub open spec fn signed(neg: bool, v: int) -> int {
    if neg {
        -v
    } else {
        v
    }
}

/// Text of a duration of `nanos` nanoseconds: the whole milliseconds `t`
/// (rounded toward zero) split with truncating division into hours
/// `t / 1000 / 3600`, minutes `t / 1000 / 60 % 60`, seconds `t / 1000 % 60`
/// and milliseconds `t % 1000`, written `HH:MM:SS` or `HH:MM:SS.mmm`, each
/// part zero-padded.
pub open spec fn time_delta_text(nanos: int, with_ms: bool) -> Seq<char> {
    let neg = nanos < 0;
    let a = (if neg { -nanos } else { nanos }) / 1_000_000;
    let head = padded(signed(neg, a / 1000 / 3600), 2) + seq![':'] + padded(
        signed(neg, a / 1000 / 60 % 60),
        2,
    ) + seq![':'] + padded(signed(neg, a / 1000 % 60), 2);
    if with_ms {
        head + seq!['.'] + padded(signed(neg, a % 1000), 3)
    } else {
        head
    }
}

fn push_digits(out: &mut String, n: u128)
    ensures
        final(out)@ == old(out)@ + decimal_digits(n as nat),
    decreases n,
{
    let ghost before = out@;
    if n >= 10 {
        push_digits(out, n / 10);
    }
    let ghost mid = out@;
    let digits = "0123456789";
    proof {
        reveal_strlit("0123456789");
        assert(digits@ =~= digit_chars());
    }
    let d = (n % 10) as usize;
    out.append(digits.substring_ascii(d, d + 1));
    proof {
        if n >= 10 {
            assert(out@ =~= before + decimal_digits(n as nat));
        } else {
            assert(out@ =~= before + decimal_digits(n as nat));
        }
    }
}

fn push_zeros(out: &mut String, k: usize)
    ensures
        final(out)@ == old(out)@ + zeros(k as int),
{
    let ghost before = out@;
    let zero = "0";
    proof {
        reveal_strlit("0");
        assert(zero@ =~= seq!['0']);
    }
    let mut i: usize = 0;
    while i < k
        invariant
            zero@ == seq!['0'],
            i <= k,
            out@ == before + zeros(i as int),
        decreases k - i,
    {
        out.append(zero);
        i = i + 1;
        assert(out@ =~= before + zeros(i as int));
    }
    assert(out@ =~= before + zeros(k as int));
}

/// Appends `mag`, negated when `neg`, as `padded` writes it.
fn push_padded(out: &mut String, neg: bool, mag: u128, width: usize)
    requires
        width >= 1,
    ensures
        final(out)@ == old(out)@ + padded(signed(neg, mag as int), width as int),
{
    let ghost before = out@;
    let mut d = String::new();
    push_digits(&mut d, mag);
    assert(d@ =~= decimal_digits(mag as nat));
    let len = d.as_str().unicode_len();
    if neg && mag > 0 {
        let minus = "-";
        proof {
            reveal_strlit("-");
            assert(minus@ =~= seq!['-']);
        }
        out.append(minus);
        let k = if width - 1 > len {
            width - 1 - len
        } else {
            0
        };
        push_zeros(out, k);
        out.append(d.as_str());
        assert(zeros(k as int) =~= zeros(width - 1 - len));
        assert(out@ =~= before + padded(signed(true, mag as int), width as int));
    } else {
        let k = if width > len {
            width - len
        } else {
            0
        };
        push_zeros(out, k);
        out.append(d.as_str());
        assert(zeros(k as int) =~= zeros(width - len));
        assert(out@ =~= before + padded(signed(neg, mag as int), width as int));
    }
}

fn push_char(out: &mut String, c: &str)
    requires
        c@.len() == 1,
    ensures
        final(out)@ == old(out)@ + c@,
{
    out.append(c);
}

/// Text of an elapsed time, `HH:MM:SS` or, with `with_ms`, `HH:MM:SS.mmm`;
/// empty when there is none.
pub fn format_time_delta(delta: Option<i128>, with_ms: bool) -> (r: String)
    ensures
        r@ == match delta {
            None => Seq::<char>::empty(),
            Some(n) => time_delta_text(n as int, with_ms),
        },
{
    let nanos = match delta {
        None => {
            return String::new();
        },
        Some(n) => n,
    };
    let neg = nanos < 0;
    let mag: u128 = if neg {
        (-(nanos + 1)) as u128 + 1
    } else {
        nanos as u128
    };
    let a = mag / 1_000_000;
    let colon = ":";
    let dot = ".";
    proof {
        reveal_strlit(":");
        reveal_strlit(".");
        assert(colon@ =~= seq![':']);
        assert(dot@ =~= seq!['.']);
    }
    let mut out = String::new();
    let ghost an = a as int;
    push_padded(&mut out, neg, a / 1000 / 3600, 2);
    push_char(&mut out, colon);
    push_padded(&mut out, neg, a / 1000 / 60 % 60, 2);
    push_char(&mut out, colon);
    push_padded(&mut out, neg, a / 1000 % 60, 2);
    if with_ms {
        push_char(&mut out, dot);
        push_padded(&mut out, neg, a % 1000, 3);
    }
    proof {
        assert(mag as int == if neg { -nanos } else { nanos as int });
    }
    assert(out@ =~= time_delta_text(nanos as int, with_ms));
    out
}

/// Elapsed time as `HH:MM:SS.mmm`; empty when there is none.
pub fn format_time_delta_millis(delta: Option<i128>) -> (r: String)
    ensures
        r@ == match delta {
            None => Seq::<char>::empty(),
            Some(n) => time_delta_text(n as int, true),
        },
{
    format_time_delta(delta, true)
}

/// Elapsed time as `HH:MM:SS`; empty when there is none.
pub fn format_time_delta_secs(delta: Option<i128>) -> (r: String)
    ensures
        r@ == match delta {
            None => Seq::<char>::empty(),
            Some(n) => time_delta_text(n as int, false),
        },
{
    format_time_delta(delta, false)
}

} // verus!
