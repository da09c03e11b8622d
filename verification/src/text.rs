//! Small text helpers: character pushes and zero-padded decimal formatting.
use vstd::prelude::*;

verus! {

/// `String::push`: appends one character.
#[verifier::external_body]
pub(crate) fn string_push(s: &mut String, c: char)
    ensures
        final(s)@ == old(s)@.push(c),
{
    s.push(c);
}

/// The ASCII digit for `d < 10`.
pub open spec fn digit_char(d: nat) -> char {
    if d == 0 {
        '0'
    } else if d == 1 {
        '1'
    } else if d == 2 {
        '2'
    } else if d == 3 {
        '3'
    } else if d == 4 {
        '4'
    } else if d == 5 {
        '5'
    } else if d == 6 {
        '6'
    } else if d == 7 {
        '7'
    } else if d == 8 {
        '8'
    } else {
        '9'
    }
}

/// Decimal digits of `n`, most significant first, without leading zeros.
pub open spec fn decimal(n: nat) -> Seq<char>
    decreases n,
{
    if n < 10 {
        seq![digit_char(n)]
    } else {
        decimal(n / 10).push(digit_char(n % 10))
    }
}

/// `n` in decimal, left-padded with zeros to at least `width` characters.
pub open spec fn zero_padded(n: nat, width: nat) -> Seq<char> {
    let d = decimal(n);
    if d.len() >= width {
        d
    } else {
        Seq::new((width - d.len()) as nat, |i: int| '0') + d
    }
}

/// `n` formatted as Rust's `{:0width}` does: a minus sign for negative
/// values, counted in the width, followed by zero-padded digits.
pub open spec fn signed_zero_padded(n: int, width: nat) -> Seq<char> {
    if n < 0 {
        seq!['-'] + zero_padded((-n) as nat, if width > 0 { (width - 1) as nat } else { 0 })
    } else {
        zero_padded(n as nat, width)
    }
}

fn digit(d: u64) -> (c: char)
    requires
        d < 10,
    ensures
        c == digit_char(d as nat),
{
    if d == 0 {
        '0'
    } else if d == 1 {
        '1'
    } else if d == 2 {
        '2'
    } else if d == 3 {
        '3'
    } else if d == 4 {
        '4'
    } else if d == 5 {
        '5'
    } else if d == 6 {
        '6'
    } else if d == 7 {
        '7'
    } else if d == 8 {
        '8'
    } else {
        '9'
    }
}

proof fn lemma_decimal_len(n: nat)
    ensures
        decimal(n).len() >= 1,
    decreases n,
{
    if n >= 10 {
        lemma_decimal_len(n / 10);
    }
}

/// Appends `n` in decimal, zero-padded to `width` characters.
pub fn push_zero_padded(out: &mut String, n: u64, width: usize)
    ensures
        final(out)@ == old(out)@ + zero_padded(n as nat, width as nat),
{
    // Collect digits least significant first.
    let mut rev: Vec<char> = Vec::new();
    let mut m: u64 = n;
    let ghost mut acc: Seq<char> = Seq::empty();
    while m >= 10
        invariant
            decimal(n as nat) =~= decimal(m as nat) + acc,
            rev@ =~= acc.reverse(),
        decreases m,
    {
        let c = digit(m % 10);
        proof {
            assert(decimal(m as nat) =~= decimal((m / 10) as nat).push(c));
            acc = seq![c] + acc;
        }
        rev.push(c);
        m = m / 10;
    }
    let c = digit(m);
    proof {
        assert(decimal(m as nat) =~= seq![c]);
        acc = seq![c] + acc;
    }
    rev.push(c);
    proof {
        assert(decimal(n as nat) =~= acc);
        lemma_decimal_len(n as nat);
    }
    let count = rev.len();
    let mut pad: usize = 0;
    let ghost start = out@;
    while count + pad < width
        invariant
            out@ =~= start + Seq::new(pad as nat, |i: int| '0'),
            count == rev@.len(),
            count + pad <= width || pad == 0,
        decreases width - count - pad,
    {
        string_push(out, '0');
        pad = pad + 1;
    }
    let ghost padded = out@;
    let mut k: usize = count;
    while k > 0
        invariant
            k <= count,
            count == rev@.len(),
            rev@ =~= acc.reverse(),
            out@ =~= padded + acc.subrange(0, (count - k) as int),
        decreases k,
    {
        k = k - 1;
        let c = rev[k];
        proof {
            assert(acc[(count - 1 - k) as int] == c);
            assert(acc.subrange(0, (count - k) as int) =~= acc.subrange(0, (count - 1 - k) as int).push(c));
        }
        string_push(out, c);
    }
    proof {
        assert(acc.subrange(0, count as int) =~= acc);
        let d = decimal(n as nat);
        if d.len() >= width {
            assert(pad == 0);
            assert(Seq::new(0, |i: int| '0') + d =~= d);
        }
    }
}

/// Appends the characters of `s`.
pub fn push_chars(out: &mut String, s: &str)
    ensures
        final(out)@ == old(out)@ + s@,
{
    out.append(s);
}

/// Appends `n` in decimal, as `{}` formats a signed integer.
pub fn push_signed(out: &mut String, n: i128)
    requires
        -0xFFFF_FFFF_FFFF_FFFF <= n <= 0xFFFF_FFFF_FFFF_FFFF,
    ensures
        final(out)@ == old(out)@ + signed_zero_padded(n as int, 0),
{
    if n < 0 {
        let ghost start = out@;
        string_push(out, '-');
        push_zero_padded(out, (-n) as u64, 0);
        proof {
            assert(out@ =~= start + (seq!['-'] + zero_padded((-n) as nat, 0)));
        }
    } else {
        push_zero_padded(out, n as u64, 0);
    }
}

} // verus!
