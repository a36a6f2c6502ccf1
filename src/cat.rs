//! Line numbering for concatenated output.
use vstd::prelude::*;
use vstd::string::StringSliceAdditionalSpecFns;
use crate::text::{LF, decimal, push_all, push_padded, right_aligned};

verus! {

/// The tab byte between a line number and the line.
pub const TAB: u8 = 0x09;

/// Which lines get a number, and for which inputs.
pub struct Config {
    pub files: Vec<String>,
    pub number_lines: bool,
    pub number_nonblank_lines: bool,
}

impl Config {
    pub open spec fn wf(&self) -> bool {
        !(self.number_lines && self.number_nonblank_lines)
    }

    /// Numbering every line and numbering only the non-blank ones are exclusive.
    pub fn new(files: Vec<String>, number_lines: bool, number_nonblank_lines: bool) -> (r: Result<
        Config,
        String,
    >)
        ensures
            r is Err <==> (number_lines && number_nonblank_lines),
            r matches Ok(c) ==> c.wf() && c.files@ == files@ && c.number_lines == number_lines
                && c.number_nonblank_lines == number_nonblank_lines,
    {
        if number_lines && number_nonblank_lines {
            Err("numbering all lines and numbering non-blank lines are exclusive".to_owned())
        } else {
            Ok(Config { files, number_lines, number_nonblank_lines })
        }
    }

    /// The line gets a number: every line with `-n`, a non-empty one with `-b`.
    pub open spec fn numbered(&self, line: Seq<u8>) -> bool {
        self.number_lines || (self.number_nonblank_lines && line.len() > 0)
    }

    /// The output of one line when `count` lines of the input were numbered
    /// before it: the number right-aligned in six bytes and a tab where the line
    /// is numbered, then the line and a line feed.
    pub open spec fn line_text(&self, line: Seq<u8>, count: nat) -> Seq<u8> {
        if self.numbered(line) {
            right_aligned(decimal(count + 1), 6) + seq![TAB] + line + seq![LF]
        } else {
            line + seq![LF]
        }
    }

    /// Renders one line (without its terminator) and gives the new number of
    /// numbered lines.
    pub fn render_line(&self, line: &str, count: usize) -> (r: (Vec<u8>, usize))
        requires
            count < usize::MAX,
        ensures
            r.0@ == self.line_text(line.spec_bytes(), count as nat),
            r.1 == if self.numbered(line.spec_bytes()) {
                count + 1
            } else {
                count as int
            },
    {
        let b = line.as_bytes();
        let mut out: Vec<u8> = Vec::new();
        let on = self.number_lines || (self.number_nonblank_lines && b.len() > 0);
        let next = if on {
            push_padded(&mut out, count + 1, 6);
            out.push(TAB);
            count + 1
        } else {
            count
        };
        push_all(&mut out, b);
        out.push(LF);
        assert(out@ =~= self.line_text(line.spec_bytes(), count as nat));
        (out, next)
    }
}

} // verus!
