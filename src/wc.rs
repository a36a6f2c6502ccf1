//! Full-scan counting of lines, words, bytes and characters, and the aligned
//! report that lists the selected counts per input and in total.
use vstd::prelude::*;
use vstd::string::StringSliceAdditionalSpecFns;
use crate::text::{
    LF, SPACE, decimal, is_ascii_bytes, is_space, is_space_byte, lossy_char_count,
    lossy_text, push_all, push_padded, right_aligned,
};

verus! {

/// One of the four counts that the report can show.
#[derive(Clone, Copy, Debug, PartialEq, Eq, Structural)]
pub enum Metric {
    Lines,
    Words,
    Bytes,
    Chars,
}

/// The counts of one input.
#[derive(Clone, Copy, Debug, PartialEq, Eq, Structural)]
pub struct FileInfo {
    pub num_lines: usize,
    pub num_words: usize,
    pub num_bytes: usize,
    pub num_chars: usize,
}

impl FileInfo {
    pub open spec fn value(self, m: Metric) -> nat {
        match m {
            Metric::Lines => self.num_lines as nat,
            Metric::Words => self.num_words as nat,
            Metric::Bytes => self.num_bytes as nat,
            Metric::Chars => self.num_chars as nat,
        }
    }

    /// The counts of an empty input.
    pub fn zero() -> (r: FileInfo)
        ensures
            forall|m: Metric| r.value(m) == 0,
    {
        FileInfo { num_lines: 0, num_words: 0, num_bytes: 0, num_chars: 0 }
    }

    /// The metric-wise sum of two sets of counts, or `None` where one sum does
    /// not fit in `usize`.
    pub fn add(&self, other: &FileInfo) -> (r: Option<FileInfo>)
        ensures
            r is Some <==> (forall|m: Metric| self.value(m) + other.value(m) <= usize::MAX),
            r matches Some(t) ==> (forall|m: Metric| t.value(m) == self.value(m) + other.value(m)),
    {
        if self.num_lines <= usize::MAX - other.num_lines && self.num_words <= usize::MAX
            - other.num_words && self.num_bytes <= usize::MAX - other.num_bytes
            && self.num_chars <= usize::MAX - other.num_chars {
            let t = FileInfo {
                num_lines: self.num_lines + other.num_lines,
                num_words: self.num_words + other.num_words,
                num_bytes: self.num_bytes + other.num_bytes,
                num_chars: self.num_chars + other.num_chars,
            };
            assert forall|m: Metric| t.value(m) == self.value(m) + other.value(m) by {
                match m {
                    Metric::Lines => {},
                    Metric::Words => {},
                    Metric::Bytes => {},
                    Metric::Chars => {},
                }
            }
            Some(t)
        } else {
            proof {
                if self.num_lines > usize::MAX - other.num_lines {
                    assert(self.value(Metric::Lines) + other.value(Metric::Lines) > usize::MAX);
                } else if self.num_words > usize::MAX - other.num_words {
                    assert(self.value(Metric::Words) + other.value(Metric::Words) > usize::MAX);
                } else if self.num_bytes > usize::MAX - other.num_bytes {
                    assert(self.value(Metric::Bytes) + other.value(Metric::Bytes) > usize::MAX);
                } else {
                    assert(self.value(Metric::Chars) + other.value(Metric::Chars) > usize::MAX);
                }
            }
            None
        }
    }
}

/// A line record starts at position `i`: the first byte, or one after a line feed.
pub open spec fn starts_line(s: Seq<u8>, i: int) -> bool {
    i == 0 || s[i - 1] == LF
}

/// A word starts at position `i`: a non-space byte at the start or after a space.
pub open spec fn starts_word(s: Seq<u8>, i: int) -> bool {
    !is_space(s[i]) && (i == 0 || is_space(s[i - 1]))
}

/// Number of line records that start before position `n`.
pub open spec fn line_starts(s: Seq<u8>, n: nat) -> nat
    decreases n,
{
    if n == 0 {
        0
    } else {
        line_starts(s, (n - 1) as nat) + if starts_line(s, n - 1) {
            1nat
        } else {
            0nat
        }
    }
}

/// Number of words that start before position `n`.
pub open spec fn word_starts(s: Seq<u8>, n: nat) -> nat
    decreases n,
{
    if n == 0 {
        0
    } else {
        word_starts(s, (n - 1) as nat) + if starts_word(s, n - 1) {
            1nat
        } else {
            0nat
        }
    }
}

/// Number of line feeds before position `n`.
pub open spec fn lf_count(s: Seq<u8>, n: nat) -> nat
    decreases n,
{
    if n == 0 {
        0
    } else {
        lf_count(s, (n - 1) as nat) + if s[n - 1] == LF {
            1nat
        } else {
            0nat
        }
    }
}

/// Number of line records: each line feed ends one, and a last record may lack it.
pub open spec fn line_count(s: Seq<u8>) -> nat {
    line_starts(s, s.len())
}

/// Number of maximal runs of non-space bytes.
pub open spec fn word_count(s: Seq<u8>) -> nat {
    word_starts(s, s.len())
}

/// End (exclusive) of the line record that contains position `i`.
pub open spec fn record_end(s: Seq<u8>, i: int) -> int
    decreases s.len() - i,
{
    if i >= s.len() {
        s.len() as int
    } else if s[i] == LF {
        i + 1
    } else {
        record_end(s, i + 1)
    }
}

/// Characters of the line records from position `i` on, each decoded leniently.
pub open spec fn chars_from(s: Seq<u8>, i: int) -> nat
    decreases s.len() - i,
{
    if i < 0 || i >= s.len() {
        0
    } else {
        let e = record_end(s, i);
        if e <= i || e > s.len() {
            0
        } else {
            lossy_text(s.subrange(i, e)).len() + chars_from(s, e)
        }
    }
}

/// Characters of the whole input, decoded leniently record by record.
pub open spec fn char_count(s: Seq<u8>) -> nat {
    chars_from(s, 0)
}

/// Counts the line records, words, bytes and characters of `data`.
pub fn count(data: &[u8]) -> (r: FileInfo)
    ensures
        r.num_lines == line_count(data@),
        r.num_words == word_count(data@),
        r.num_bytes == data@.len(),
        r.num_chars == char_count(data@),
        r.num_chars <= r.num_bytes,
        is_ascii_bytes(data@) ==> r.num_chars == r.num_bytes,
{
    let len = data.len();
    let ghost s = data@;
    let mut lines: usize = 0;
    let mut words: usize = 0;
    let mut chars: usize = 0;
    let mut pos: usize = 0;
    while pos < len
        invariant
            len == s.len(),
            s == data@,
            pos <= len,
            pos == 0 || pos == len || s[pos - 1] == LF,
            lines == line_starts(s, pos as nat),
            words == word_starts(s, pos as nat),
            lines <= pos,
            words <= pos,
            chars + chars_from(s, pos as int) == chars_from(s, 0),
            chars <= pos,
            is_ascii_bytes(s) ==> chars == pos,
        decreases len - pos,
    {
        let mut j: usize = pos;
        loop
            invariant_except_break
                j == pos || s[j - 1] != LF,
                record_end(s, j as int) == record_end(s, pos as int),
            invariant
                len == s.len(),
                s == data@,
                pos < len,
                pos == 0 || s[pos - 1] == LF,
                pos <= j <= len,
                lines == line_starts(s, j as nat),
                words == word_starts(s, j as nat),
                lines <= j,
                words <= j,
            ensures
                pos < j <= len,
                j == len || s[j - 1] == LF,
                j == record_end(s, pos as int),
                lines == line_starts(s, j as nat),
                words == word_starts(s, j as nat),
                lines <= j,
                words <= j,
            decreases len - j,
        {
            if j >= len {
                break ;
            }
            let b = data[j];
            if j == pos {
                lines = lines + 1;
            }
            let prev_space = j == 0 || is_space_byte(data[j - 1]);
            if !is_space_byte(b) && prev_space {
                words = words + 1;
            }
            j = j + 1;
            if b == LF {
                break ;
            }
        }
        let rec = vstd::slice::slice_subrange(data, pos, j);
        let c = lossy_char_count(rec);
        proof {
            assert(rec@ == s.subrange(pos as int, j as int));
            if is_ascii_bytes(s) {
                assert(is_ascii_bytes(rec@));
            }
        }
        chars = chars + c;
        pos = j;
    }
    FileInfo { num_lines: lines, num_words: words, num_bytes: len, num_chars: chars }
}

/// Sum of one metric over a sequence of counts.
pub open spec fn sum_of(infos: Seq<FileInfo>, m: Metric) -> nat
    decreases infos.len(),
{
    if infos.len() == 0 {
        0
    } else {
        sum_of(infos.drop_last(), m) + infos.last().value(m)
    }
}

proof fn lemma_sum_grows(infos: Seq<FileInfo>, i: int, j: int, m: Metric)
    requires
        0 <= i <= j <= infos.len(),
    ensures
        sum_of(infos.subrange(0, i), m) <= sum_of(infos.subrange(0, j), m),
    decreases j - i,
{
    if i < j {
        lemma_sum_grows(infos, i, j - 1, m);
        assert(infos.subrange(0, j).drop_last() =~= infos.subrange(0, j - 1));
    }
}

/// The totals over all inputs, metric by metric, or `None` where a total does
/// not fit in `usize`.
pub fn totals(infos: &Vec<FileInfo>) -> (r: Option<FileInfo>)
    ensures
        r is Some <==> (forall|m: Metric| sum_of(infos@, m) <= usize::MAX),
        r matches Some(t) ==> (forall|m: Metric| t.value(m) == sum_of(infos@, m)),
{
    let mut acc = FileInfo::zero();
    let mut i: usize = 0;
    assert(infos@.subrange(0, 0) =~= Seq::<FileInfo>::empty());
    while i < infos.len()
        invariant
            i <= infos@.len(),
            forall|m: Metric| acc.value(m) == sum_of(infos@.subrange(0, i as int), m),
        decreases infos@.len() - i,
    {
        assert(infos@.subrange(0, i + 1).drop_last() =~= infos@.subrange(0, i as int));
        match acc.add(&infos[i]) {
            Some(t) => {
                acc = t;
            },
            None => {
                proof {
                    let m = choose|m: Metric| acc.value(m) + infos@[i as int].value(m) > usize::MAX;
                    lemma_sum_grows(infos@, i + 1, infos@.len() as int, m);
                    assert(infos@.subrange(0, infos@.len() as int) =~= infos@);
                }
                return None;
            },
        }
        i = i + 1;
    }
    assert(infos@.subrange(0, infos@.len() as int) =~= infos@);
    assert forall|m: Metric| sum_of(infos@, m) <= usize::MAX by {
        assert(acc.value(m) == sum_of(infos@, m));
        match m {
            Metric::Lines => {},
            Metric::Words => {},
            Metric::Bytes => {},
            Metric::Chars => {},
        }
    }
    Some(acc)
}

/// Which counts the report shows, and for which inputs.
pub struct Config {
    pub files: Vec<String>,
    pub lines: bool,
    pub words: bool,
    pub bytes: bool,
    pub chars: bool,
}

/// The report column of one count: right-aligned in eight bytes.
pub open spec fn column(v: nat) -> Seq<u8> {
    right_aligned(decimal(v), 8)
}

/// The bytes of `name` after a space, or nothing.
pub open spec fn label(name: Seq<u8>, shown: bool) -> Seq<u8> {
    if shown {
        seq![SPACE] + name
    } else {
        Seq::empty()
    }
}

impl Config {
    /// The bytes and characters counts are never both selected, and at least
    /// one count is.
    pub open spec fn wf(&self) -> bool {
        &&& !(self.bytes && self.chars)
        &&& (self.lines || self.words || self.bytes || self.chars)
    }

    pub open spec fn selected(&self, m: Metric) -> bool {
        match m {
            Metric::Lines => self.lines,
            Metric::Words => self.words,
            Metric::Bytes => self.bytes,
            Metric::Chars => self.chars,
        }
    }

    pub open spec fn cell(&self, info: FileInfo, m: Metric) -> Seq<u8> {
        if self.selected(m) {
            column(info.value(m))
        } else {
            Seq::empty()
        }
    }

    /// The selected columns, in the order lines, words, bytes, chars.
    pub open spec fn columns(&self, info: FileInfo) -> Seq<u8> {
        self.cell(info, Metric::Lines) + self.cell(info, Metric::Words) + self.cell(
            info,
            Metric::Bytes,
        ) + self.cell(info, Metric::Chars)
    }

    /// One report line: the columns, the name where shown, a line feed.
    pub open spec fn row_text(&self, info: FileInfo, name: Seq<u8>, shown: bool) -> Seq<u8> {
        self.columns(info) + label(name, shown) + seq![LF]
    }

    /// A selection from the flags given; with no flag, lines, words and bytes.
    /// Asking for both bytes and characters is an error.
    pub fn new(files: Vec<String>, lines: bool, words: bool, bytes: bool, chars: bool) -> (r:
        Result<Config, String>)
        ensures
            r is Err <==> (bytes && chars),
            r matches Ok(c) ==> {
                &&& c.wf()
                &&& c.files@ == files@
                &&& if !lines && !words && !bytes && !chars {
                    c.lines && c.words && c.bytes && !c.chars
                } else {
                    c.lines == lines && c.words == words && c.bytes == bytes && c.chars == chars
                }
            },
    {
        if bytes && chars {
            return Err("the options for bytes and for characters cannot be used together".to_owned());
        }
        if !lines && !words && !bytes && !chars {
            Ok(Config { files, lines: true, words: true, bytes: true, chars: false })
        } else {
            Ok(Config { files, lines, words, bytes, chars })
        }
    }

    fn push_cell(&self, out: &mut Vec<u8>, info: &FileInfo, m: Metric)
        ensures
            final(out)@ == old(out)@ + self.cell(*info, m),
    {
        let (on, v) = match m {
            Metric::Lines => (self.lines, info.num_lines),
            Metric::Words => (self.words, info.num_words),
            Metric::Bytes => (self.bytes, info.num_bytes),
            Metric::Chars => (self.chars, info.num_chars),
        };
        if on {
            push_padded(out, v, 8);
        } else {
            assert(old(out)@ + self.cell(*info, m) =~= old(out)@);
        }
    }

    fn push_row(&self, out: &mut Vec<u8>, info: &FileInfo, name: &[u8], shown: bool)
        ensures
            final(out)@ == old(out)@ + self.row_text(*info, name@, shown),
    {
        self.push_cell(out, info, Metric::Lines);
        self.push_cell(out, info, Metric::Words);
        self.push_cell(out, info, Metric::Bytes);
        self.push_cell(out, info, Metric::Chars);
        if shown {
            out.push(SPACE);
            push_all(out, name);
        }
        out.push(LF);
        assert(final(out)@ =~= old(out)@ + self.row_text(*info, name@, shown));
    }

    /// The report line of one input among `n_files`: the name is shown only
    /// where there is more than one input.
    pub fn row(&self, info: &FileInfo, name: &str, n_files: usize) -> (r: Vec<u8>)
        ensures
            r@ == self.row_text(*info, name.spec_bytes(), n_files > 1),
    {
        let mut out: Vec<u8> = Vec::new();
        self.push_row(&mut out, info, name.as_bytes(), n_files > 1);
        assert(out@ =~= self.row_text(*info, name.spec_bytes(), n_files > 1));
        out
    }

    /// The closing line of totals, shown only where there is more than one input.
    pub fn total_row(&self, totals: &FileInfo, n_files: usize) -> (r: Vec<u8>)
        ensures
            n_files <= 1 ==> r@.len() == 0,
            n_files > 1 ==> r@ == self.row_text(*totals, "total".spec_bytes(), true),
    {
        let mut out: Vec<u8> = Vec::new();
        if n_files > 1 {
            self.push_row(&mut out, totals, "total".as_bytes(), true);
            assert(out@ =~= self.row_text(*totals, "total".spec_bytes(), true));
        }
        out
    }
}

/// The standard-input marker ends the batch: inputs after it are not processed.
pub fn ends_batch(name: &str) -> (r: bool)
    ensures
        r == (name.spec_bytes() == seq![45u8]),
{
    let b = name.as_bytes();
    let r = b.len() == 1 && b[0] == 45u8;
    proof {
        if b@.len() == 1 {
            if b@[0] == 45u8 {
                assert(b@ =~= seq![45u8]);
            }
        }
    }
    r
}

/// Past the first byte, the records that start before `i` are one more than the
/// line feeds before `i - 1`.
pub proof fn lemma_line_starts_lf(s: Seq<u8>, i: nat)
    requires
        0 < i <= s.len(),
    ensures
        line_starts(s, i) == lf_count(s, (i - 1) as nat) + 1,
    decreases i,
{
    reveal_with_fuel(line_starts, 2);
    reveal_with_fuel(lf_count, 2);
    if i > 1 {
        lemma_line_starts_lf(s, (i - 1) as nat);
    }
}

/// Records that start before `i` are no more than those that start before `j >= i`.
pub proof fn lemma_line_starts_grow(s: Seq<u8>, i: nat, j: nat)
    requires
        i <= j <= s.len(),
    ensures
        line_starts(s, i) <= line_starts(s, j),
    decreases j - i,
{
    if i < j {
        lemma_line_starts_grow(s, i, (j - 1) as nat);
    }
}

/// Records that start before `k` depend only on the bytes before `k`.
pub proof fn lemma_line_starts_prefix(s: Seq<u8>, e: nat, k: nat)
    requires
        k <= e <= s.len(),
    ensures
        line_starts(s.subrange(0, e as int), k) == line_starts(s, k),
    decreases k,
{
    if k > 0 {
        lemma_line_starts_prefix(s, e, (k - 1) as nat);
    }
}

/// The last byte of `a` and the first of `b` are both inside words, so a word
/// runs across the seam of `a + b`.
pub open spec fn joins_words(a: Seq<u8>, b: Seq<u8>) -> bool {
    a.len() > 0 && b.len() > 0 && !is_space(a.last()) && !is_space(b[0])
}

proof fn lemma_word_starts_prefix(a: Seq<u8>, b: Seq<u8>, k: nat)
    requires
        k <= a.len(),
    ensures
        word_starts(a + b, k) == word_starts(a, k),
    decreases k,
{
    if k > 0 {
        lemma_word_starts_prefix(a, b, (k - 1) as nat);
        assert((a + b)[k - 1] == a[k - 1]);
        if k > 1 {
            assert((a + b)[k - 2] == a[k - 2]);
        }
    }
}

proof fn lemma_word_starts_suffix(a: Seq<u8>, b: Seq<u8>, k: nat)
    requires
        0 < k <= b.len(),
    ensures
        word_starts(a + b, a.len() + k) + (if joins_words(a, b) {
            1nat
        } else {
            0nat
        }) == word_count(a) + word_starts(b, k),
    decreases k,
{
    let s = a + b;
    let p = a.len() + k - 1;
    assert(s[p] == b[k - 1]);
    if k == 1 {
        lemma_word_starts_prefix(a, b, a.len());
        reveal_with_fuel(word_starts, 2);
        if a.len() > 0 {
            assert(s[p - 1] == a.last());
        }
    } else {
        lemma_word_starts_suffix(a, b, (k - 1) as nat);
        assert(s[p - 1] == b[k - 2]);
    }
}

/// Words of a concatenation: those of the parts, less one where a word runs
/// across the seam.
pub proof fn lemma_word_count_concat(a: Seq<u8>, b: Seq<u8>)
    ensures
        word_count(a + b) + (if joins_words(a, b) {
            1nat
        } else {
            0nat
        }) == word_count(a) + word_count(b),
{
    if b.len() == 0 {
        assert(a + b =~= a);
    } else {
        lemma_word_starts_suffix(a, b, b.len());
    }
}

/// All bytes are spaces.
pub open spec fn all_space(w: Seq<u8>) -> bool {
    forall|i: int| 0 <= i < w.len() ==> is_space(w[i])
}

/// No byte is a space.
pub open spec fn no_space(v: Seq<u8>) -> bool {
    forall|i: int| 0 <= i < v.len() ==> !is_space(v[i])
}

proof fn lemma_spaces_no_words(w: Seq<u8>, k: nat)
    requires
        all_space(w),
        k <= w.len(),
    ensures
        word_starts(w, k) == 0,
    decreases k,
{
    if k > 0 {
        lemma_spaces_no_words(w, (k - 1) as nat);
    }
}

proof fn lemma_run_one_word(v: Seq<u8>, k: nat)
    requires
        no_space(v),
        0 < k <= v.len(),
    ensures
        word_starts(v, k) == 1,
    decreases k,
{
    reveal_with_fuel(word_starts, 2);
    if k > 1 {
        lemma_run_one_word(v, (k - 1) as nat);
    }
}

/// Inserting whitespace where the text already breaks between words, or at its
/// start or end, leaves the word count as it was.
pub proof fn law_extra_space_keeps_words(a: Seq<u8>, w: Seq<u8>, b: Seq<u8>)
    requires
        all_space(w),
        a.len() == 0 || b.len() == 0 || is_space(a.last()) || is_space(b[0]),
    ensures
        word_count(a + w + b) == word_count(a + b),
{
    if w.len() == 0 {
        assert(a + w =~= a);
    } else {
        lemma_spaces_no_words(w, w.len());
        lemma_word_count_concat(a, w);
        lemma_word_count_concat(a + w, b);
        assert((a + w).last() == w.last());
        lemma_word_count_concat(a, b);
    }
}

/// Inserting a run of non-space bytes between whitespace (or at an edge that
/// whitespace follows or precedes) adds exactly one word.
pub proof fn law_new_run_adds_one_word(a: Seq<u8>, v: Seq<u8>, b: Seq<u8>)
    requires
        v.len() > 0,
        no_space(v),
        a.len() == 0 || is_space(a.last()),
        b.len() == 0 || is_space(b[0]),
    ensures
        word_count(a + v + b) == word_count(a + b) + 1,
{
    lemma_run_one_word(v, v.len());
    lemma_word_count_concat(a, v);
    lemma_word_count_concat(a + v, b);
    assert((a + v).last() == v.last());
    lemma_word_count_concat(a, b);
}

/// The line count is the number of line feeds, plus one where the input does
/// not end with one.
pub proof fn law_lines_by_line_feeds(s: Seq<u8>)
    requires
        s.len() > 0,
    ensures
        line_count(s) == lf_count(s, s.len()) + if s.last() != LF {
            1nat
        } else {
            0nat
        },
{
    lemma_line_starts_lf(s, s.len());
}

proof fn lemma_line_starts_suffix(a: Seq<u8>, b: Seq<u8>, k: nat)
    requires
        a.len() == 0 || a.last() == LF,
        k <= b.len(),
    ensures
        line_starts(a + b, a.len() + k) == line_count(a) + line_starts(b, k),
    decreases k,
{
    let s = a + b;
    if k == 0 {
        lemma_line_starts_prefix(s, a.len(), a.len());
        assert(s.subrange(0, a.len() as int) =~= a);
    } else {
        lemma_line_starts_suffix(a, b, (k - 1) as nat);
        let p = a.len() + k - 1;
        if k == 1 {
            if a.len() > 0 {
                assert(s[p - 1] == a.last());
            }
        } else {
            assert(s[p - 1] == b[k - 2]);
        }
    }
}

proof fn lemma_record_end_left(a: Seq<u8>, b: Seq<u8>, i: int)
    requires
        a.len() > 0,
        a.last() == LF,
        0 <= i < a.len(),
    ensures
        record_end(a + b, i) == record_end(a, i),
        i < record_end(a, i) <= a.len(),
    decreases a.len() - i,
{
    assert((a + b)[i] == a[i]);
    if a[i] != LF {
        lemma_record_end_left(a, b, i + 1);
    }
}

proof fn lemma_record_end_right(a: Seq<u8>, b: Seq<u8>, j: int)
    requires
        0 <= j <= b.len(),
    ensures
        record_end(a + b, a.len() + j) == a.len() + record_end(b, j),
    decreases b.len() - j,
{
    if j < b.len() {
        assert((a + b)[a.len() + j] == b[j]);
        if b[j] != LF {
            lemma_record_end_right(a, b, j + 1);
        }
    }
}

proof fn lemma_chars_right(a: Seq<u8>, b: Seq<u8>, j: int)
    requires
        0 <= j <= b.len(),
    ensures
        chars_from(a + b, a.len() + j) == chars_from(b, j),
    decreases b.len() - j,
{
    if j < b.len() {
        lemma_record_end_right(a, b, j);
        let e = record_end(b, j);
        if j < e && e <= b.len() {
            lemma_chars_right(a, b, e);
            assert((a + b).subrange(a.len() + j, a.len() + e) =~= b.subrange(j, e));
        }
    }
}

proof fn lemma_chars_left(a: Seq<u8>, b: Seq<u8>, i: int)
    requires
        a.len() > 0,
        a.last() == LF,
        0 <= i <= a.len(),
    ensures
        chars_from(a + b, i) == chars_from(a, i) + chars_from(b, 0),
    decreases a.len() - i,
{
    if i == a.len() {
        lemma_chars_right(a, b, 0);
    } else {
        lemma_record_end_left(a, b, i);
        let e = record_end(a, i);
        lemma_chars_left(a, b, e);
        assert((a + b).subrange(i, e) =~= a.subrange(i, e));
    }
}

/// Counting an input in two parts split after a line feed, and adding the two
/// counts, gives the counts of the whole: lines, words, bytes and characters.
pub proof fn law_counts_add_at_line_breaks(a: Seq<u8>, b: Seq<u8>)
    requires
        a.len() == 0 || a.last() == LF,
    ensures
        line_count(a + b) == line_count(a) + line_count(b),
        word_count(a + b) == word_count(a) + word_count(b),
        (a + b).len() == a.len() + b.len(),
        char_count(a + b) == char_count(a) + char_count(b),
{
    lemma_line_starts_suffix(a, b, b.len());
    lemma_word_count_concat(a, b);
    if a.len() == 0 {
        assert(a + b =~= b);
    } else {
        lemma_chars_left(a, b, 0);
    }
}

} // verus!
