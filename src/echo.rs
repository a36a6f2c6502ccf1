//! Echoing arguments.
use vstd::prelude::*;
use vstd::string::StringSliceAdditionalSpecFns;
use vstd::utf8::encode_utf8;
use crate::text::{LF, SPACE, push_all};

verus! {

/// The texts joined by single spaces.
pub open spec fn joined(words: Seq<Seq<u8>>) -> Seq<u8>
    decreases words.len(),
{
    if words.len() == 0 {
        Seq::empty()
    } else if words.len() == 1 {
        words[0]
    } else {
        joined(words.drop_last()) + seq![SPACE] + words.last()
    }
}

/// The UTF-8 bytes of each string.
pub open spec fn utf8_of(words: Seq<String>) -> Seq<Seq<u8>> {
    Seq::new(words.len(), |i: int| encode_utf8(words[i]@))
}

/// The arguments joined by single spaces, with a closing line feed unless it
/// is omitted.
pub fn echo_line(words: &Vec<String>, omit_newline: bool) -> (r: Vec<u8>)
    ensures
        r@ == joined(utf8_of(words@)) + if omit_newline {
            Seq::empty()
        } else {
            seq![LF]
        },
{
    let mut out: Vec<u8> = Vec::new();
    let mut i: usize = 0;
    while i < words.len()
        invariant
            i <= words@.len(),
            out@ == joined(utf8_of(words@).subrange(0, i as int)),
        decreases words@.len() - i,
    {
        if i > 0 {
            out.push(SPACE);
        }
        let w = words[i].as_str();
        push_all(&mut out, w.as_bytes());
        proof {
            let u = utf8_of(words@);
            assert(u.subrange(0, i + 1).drop_last() =~= u.subrange(0, i as int));
            assert(w.spec_bytes() == u[i as int]);
        }
        i = i + 1;
        assert(out@ =~= joined(utf8_of(words@).subrange(0, i as int)));
    }
    assert(utf8_of(words@).subrange(0, words@.len() as int) =~= utf8_of(words@));
    if !omit_newline {
        out.push(LF);
    }
    proof {
        if omit_newline {
            assert(out@ =~= joined(utf8_of(words@)) + Seq::<u8>::empty());
        }
    }
    out
}

} // verus!
