//! Byte classes, lenient decoding and decimal rendering shared by the utilities.
use vstd::prelude::*;
use vstd::std_specs::iter::IteratorSpec;

verus! {

/// The line-feed byte that ends a line record.
pub const LF: u8 = 0x0a;

/// The space byte used for padding and separating fields.
pub const SPACE: u8 = 0x20;

/// Space, tab, line feed, vertical tab, form feed and carriage return.
pub open spec fn is_space(b: u8) -> bool {
    b == 0x20u8 || (0x09u8 <= b && b <= 0x0du8)
}

/// Every byte is 7-bit ASCII.
pub open spec fn is_ascii_bytes(b: Seq<u8>) -> bool {
    forall|i: int| 0 <= i < b.len() ==> b[i] < 0x80u8
}

/// The text that lenient UTF-8 decoding makes of a byte sequence.
pub uninterp spec fn lossy_text(b: Seq<u8>) -> Seq<char>;

/// Relies on `String::from_utf8_lossy`: it decodes valid UTF-8 as it stands and
/// turns each invalid sequence of one or more bytes into one U+FFFD, so the text
/// never holds more characters than the input holds bytes, and ASCII input
/// decodes to one character per byte.
#[verifier::external_body]
pub(crate) fn decode_lossy(b: &[u8]) -> (r: String)
    ensures
        r@ == lossy_text(b@),
        r@.len() <= b@.len(),
        is_ascii_bytes(b@) ==> r@.len() == b@.len(),
{
    String::from_utf8_lossy(b).into_owned()
}

pub fn is_space_byte(b: u8) -> (r: bool)
    ensures
        r == is_space(b),
{
    b == SPACE || (0x09u8 <= b && b <= 0x0du8)
}

/// Number of Unicode scalar values in a string.
pub fn char_total(s: &str) -> (r: usize)
    requires
        s@.len() <= usize::MAX,
    ensures
        r == s@.len(),
{
    let mut it = s.chars();
    let mut n: usize = 0;
    proof {
        vstd::string::axiom_spec_iter(s);
    }
    broadcast use vstd::string::next_postcondition;

    loop
        invariant
            it.obeys_prophetic_iter_laws(),
            n + it.remaining().len() == s@.len(),
            n <= s@.len(),
            s@.len() <= usize::MAX,
            it.decrease() is Some,
        ensures
            n == s@.len(),
        decreases it.decrease()->0,
    {
        match it.next() {
            Some(_) => {
                n = n + 1;
            },
            None => {
                break ;
            },
        }
    }
    n
}

/// Number of characters that lenient decoding makes of a byte sequence.
pub fn lossy_char_count(b: &[u8]) -> (r: usize)
    ensures
        r == lossy_text(b@).len(),
        r <= b@.len(),
        is_ascii_bytes(b@) ==> r == b@.len(),
{
    let len = b.len();
    let s = decode_lossy(b);
    assert(s@.len() <= len);
    char_total(s.as_str())
}

/// Appends all bytes of `b` to `out`.
pub fn push_all(out: &mut Vec<u8>, b: &[u8])
    ensures
        final(out)@ == old(out)@ + b@,
{
    let mut i: usize = 0;
    while i < b.len()
        invariant
            0 <= i <= b@.len(),
            out@ == old(out)@ + b@.subrange(0, i as int),
        decreases b@.len() - i,
    {
        out.push(b[i]);
        i = i + 1;
        assert(out@ =~= old(out)@ + b@.subrange(0, i as int));
    }
    assert(b@.subrange(0, b@.len() as int) =~= b@);
}

/// The decimal digits of `n`, most significant first, with no leading zeros.
pub open spec fn decimal(n: nat) -> Seq<u8>
    decreases n,
{
    if n < 10 {
        seq![(48 + n) as u8]
    } else {
        decimal(n / 10).push((48 + n % 10) as u8)
    }
}

/// `k` space bytes.
pub open spec fn spaces(k: nat) -> Seq<u8> {
    Seq::new(k, |i: int| SPACE)
}

/// `d` right-aligned in a field of at least `w` bytes.
pub open spec fn right_aligned(d: Seq<u8>, w: nat) -> Seq<u8> {
    if d.len() < w {
        spaces((w - d.len()) as nat) + d
    } else {
        d
    }
}

/// Number of decimal digits of `n`.
pub fn decimal_len(n: usize) -> (r: usize)
    ensures
        r == decimal(n as nat).len(),
        1 <= r <= n as nat + 1,
    decreases n,
{
    if n < 10 {
        1
    } else {
        let k = decimal_len(n / 10);
        proof {
            assert(n / 10 < n);
        }
        k + 1
    }
}

/// Appends the decimal digits of `n` to `out`.
pub fn push_decimal(out: &mut Vec<u8>, n: usize)
    ensures
        final(out)@ == old(out)@ + decimal(n as nat),
    decreases n,
{
    if n >= 10 {
        push_decimal(out, n / 10);
    }
    let d: u8 = (n % 10) as u8;
    out.push(48u8 + d);
    proof {
        if n < 10 {
            assert(final(out)@ =~= old(out)@ + decimal(n as nat));
        } else {
            assert(final(out)@ =~= old(out)@ + decimal(n as nat));
        }
    }
}

/// Appends `n` in decimal, right-aligned in a field of at least `w` bytes.
pub fn push_padded(out: &mut Vec<u8>, n: usize, w: usize)
    ensures
        final(out)@ == old(out)@ + right_aligned(decimal(n as nat), w as nat),
{
    let k = decimal_len(n);
    let ghost start = out@;
    if k < w {
        let mut i: usize = 0;
        while i < w - k
            invariant
                k < w,
                i <= w - k,
                out@ == start + spaces(i as nat),
            decreases w - k - i,
        {
            out.push(SPACE);
            i = i + 1;
            assert(out@ =~= start + spaces(i as nat));
        }
    }
    push_decimal(out, n);
    proof {
        if k < w {
            assert(final(out)@ =~= old(out)@ + right_aligned(decimal(n as nat), w as nat));
        } else {
            assert(final(out)@ =~= old(out)@ + right_aligned(decimal(n as nat), w as nat));
        }
    }
}

} // verus!
