//! Bounded retrieval of the leading lines or bytes of an input, the validation
//! of the requested amount, and the header that separates several inputs.
use vstd::prelude::*;
use vstd::string::StringSliceAdditionalSpecFns;
use crate::text::{LF, decode_lossy, lossy_text, push_all};
use crate::wc::{
    lemma_line_starts_grow, lemma_line_starts_lf, lemma_line_starts_prefix, lf_count, line_count,
    line_starts,
};

verus! {

pub open spec fn is_digit(b: u8) -> bool {
    48u8 <= b && b <= 57u8
}

/// The value of a sequence of decimal digits.
pub open spec fn digits_value(d: Seq<u8>) -> nat
    decreases d.len(),
{
    if d.len() == 0 {
        0
    } else {
        digits_value(d.drop_last()) * 10 + (d.last() - 48) as nat
    }
}

/// The digits that follow an optional leading plus sign.
pub open spec fn unsigned_digits(s: Seq<u8>) -> Seq<u8> {
    if s.len() > 0 && s[0] == 43u8 {
        s.drop_first()
    } else {
        s
    }
}

/// The `usize` that the text denotes, as `usize::from_str` reads it: an
/// optional plus sign and one or more decimal digits, with a value that fits.
pub open spec fn usize_of(s: Seq<u8>) -> Option<nat> {
    let d = unsigned_digits(s);
    if d.len() > 0 && (forall|i: int| 0 <= i < d.len() ==> is_digit(d[i])) && digits_value(d)
        <= usize::MAX {
        Some(digits_value(d))
    } else {
        None
    }
}

proof fn lemma_value_grows(d: Seq<u8>, i: int, j: int)
    requires
        0 <= i <= j <= d.len(),
        forall|k: int| 0 <= k < d.len() ==> is_digit(d[k]),
    ensures
        digits_value(d.subrange(0, i)) <= digits_value(d.subrange(0, j)),
    decreases j - i,
{
    if i < j {
        lemma_value_grows(d, i, j - 1);
        assert(d.subrange(0, j).drop_last() =~= d.subrange(0, j - 1));
    }
}

/// Reads a positive count; anything else is an error that holds the text.
pub fn parse_positive_int(val: &str) -> (r: Result<usize, String>)
    ensures
        r matches Ok(n) ==> usize_of(val.spec_bytes()) == Some(n as nat) && n > 0,
        r is Err <==> !(usize_of(val.spec_bytes()) matches Some(n) && n > 0),
        r matches Err(e) ==> e@ == val@,
{
    let b = val.as_bytes();
    let ghost s = b@;
    let start: usize = if b.len() > 0 && b[0] == 43u8 {
        1
    } else {
        0
    };
    let ghost d = unsigned_digits(s);
    assert(d =~= s.subrange(start as int, s.len() as int));
    if start >= b.len() {
        return Err(val.to_owned());
    }
    let mut acc: usize = 0;
    let mut i: usize = start;
    assert(d.subrange(0, 0) =~= Seq::<u8>::empty());
    while i < b.len()
        invariant
            b@ == s,
            s == val.spec_bytes(),
            d == unsigned_digits(s),
            start <= i <= s.len(),
            d == s.subrange(start as int, s.len() as int),
            forall|k: int| 0 <= k < i - start ==> is_digit(d[k]),
            acc == digits_value(d.subrange(0, i - start)),
        decreases s.len() - i,
    {
        let c = b[i];
        if c < 48u8 || c > 57u8 {
            assert(!is_digit(d[i - start]));
            return Err(val.to_owned());
        }
        let v: usize = (c - 48u8) as usize;
        assert(d.subrange(0, i + 1 - start).drop_last() =~= d.subrange(0, i - start));
        if acc > (usize::MAX - v) / 10 {
            proof {
                assert(digits_value(d.subrange(0, i + 1 - start)) > usize::MAX) by (nonlinear_arith)
                    requires
                        acc > (usize::MAX - v) / 10,
                        digits_value(d.subrange(0, i + 1 - start)) == acc * 10 + v,
                        v <= 9,
                ;
                if forall|k: int| 0 <= k < d.len() ==> is_digit(d[k]) {
                    lemma_value_grows(d, i + 1 - start, d.len() as int);
                    assert(d.subrange(0, d.len() as int) =~= d);
                }
            }
            return Err(val.to_owned());
        }
        acc = acc * 10 + v;
        i = i + 1;
    }
    assert(d.subrange(0, d.len() as int) =~= d);
    if acc == 0 {
        Err(val.to_owned())
    } else {
        Ok(acc)
    }
}

/// The first `n` line records of `data` (all of them where it holds fewer),
/// terminators included, as they stand.
pub fn take_lines(data: &[u8], n: usize) -> (r: Vec<u8>)
    ensures
        r@ == data@.subrange(0, r@.len() as int),
        r@.len() == 0 || r@.len() == data@.len() || data@[r@.len() - 1] == LF,
        line_starts(data@, r@.len()) == if n <= line_count(data@) {
            n as nat
        } else {
            line_count(data@)
        },
        line_count(r@) == line_starts(data@, r@.len()),
{
    let len = data.len();
    let ghost s = data@;
    if n == 0 {
        let r: Vec<u8> = Vec::new();
        assert(r@ =~= s.subrange(0, 0));
        return r;
    }
    let mut i: usize = 0;
    let mut seen: usize = 0;
    while i < len && seen < n
        invariant
            s == data@,
            len == s.len(),
            i <= len,
            seen == lf_count(s, i as nat),
            seen <= n,
            seen < n || (i > 0 && s[i - 1] == LF),
        decreases len - i,
    {
        if data[i] == LF {
            seen = seen + 1;
        }
        i = i + 1;
    }
    proof {
        lemma_line_starts_grow(s, i as nat, s.len());
        if i > 0 {
            lemma_line_starts_lf(s, i as nat);
            if i == len && s[i - 1] != LF {
                assert(line_starts(s, i as nat) == seen + 1);
            }
        }
        lemma_line_starts_prefix(s, i as nat, i as nat);
    }
    let r = vstd::slice::slice_to_vec(vstd::slice::slice_subrange(data, 0, i));
    assert(r@ =~= s.subrange(0, i as int));
    r
}

/// The first `n` bytes of `data` (all of them where it holds fewer), decoded
/// leniently.
pub fn take_bytes(data: &[u8], n: usize) -> (r: String)
    ensures
        r@ == lossy_text(data@.subrange(0, if n < data@.len() { n as int } else { data@.len() as int })),
{
    let e = if n < data.len() {
        n
    } else {
        data.len()
    };
    decode_lossy(vstd::slice::slice_subrange(data, 0, e))
}

/// The header before the excerpt of `name`: `==> name <==` on a line of its
/// own, after a blank line but for the first input.
pub open spec fn header_text(name: Seq<u8>, first: bool) -> Seq<u8> {
    (if first {
        Seq::empty()
    } else {
        seq![LF]
    }) + seq![61u8, 61u8, 62u8, 32u8] + name + seq![32u8, 60u8, 61u8, 61u8, LF]
}

/// The header of input number `file_num` (from zero) among `n_files`; empty
/// where there is only one input.
pub fn header(name: &str, file_num: usize, n_files: usize) -> (r: Vec<u8>)
    ensures
        n_files <= 1 ==> r@.len() == 0,
        n_files > 1 ==> r@ == header_text(name.spec_bytes(), file_num == 0),
{
    let mut out: Vec<u8> = Vec::new();
    if n_files > 1 {
        if file_num > 0 {
            out.push(LF);
        }
        out.push(61u8);
        out.push(61u8);
        out.push(62u8);
        out.push(32u8);
        push_all(&mut out, name.as_bytes());
        out.push(32u8);
        out.push(60u8);
        out.push(61u8);
        out.push(61u8);
        out.push(LF);
        assert(out@ =~= header_text(name.spec_bytes(), file_num == 0));
    }
    out
}

/// How much of each input to show.
pub struct Config {
    pub files: Vec<String>,
    pub lines: usize,
    pub bytes: Option<usize>,
}

impl Config {
    /// Both amounts are positive.
    pub open spec fn wf(&self) -> bool {
        self.lines > 0 && !(self.bytes == Some(0usize))
    }

    /// The selection of `lines` lines, or of `bytes` bytes where given, which
    /// then takes precedence; a zero amount is an error.
    pub fn new(files: Vec<String>, lines: usize, bytes: Option<usize>) -> (r: Result<Config, String>)
        ensures
            r is Err <==> (lines == 0 || bytes == Some(0usize)),
            r matches Ok(c) ==> c.wf() && c.files@ == files@ && c.lines == lines && c.bytes == bytes,
    {
        if lines == 0 {
            return Err("illegal line count -- 0".to_owned());
        }
        match bytes {
            Some(0) => Err("illegal byte count -- 0".to_owned()),
            _ => Ok(Config { files, lines, bytes }),
        }
    }
}

} // verus!
