//! The indenting adapter: a sink wrapper that makes a recursively invoked
//! named block inherit its call site's column.
//!
//! Each write is split at line breaks. After a line break the adapter owes an
//! indentation, which it pays out just before the next non-empty segment;
//! blank lines are forwarded as they are and are never padded.

use vstd::prelude::*;

use crate::chars::{append_chars, chars_to_string, to_chars};

verus! {

/// The characters that come out of the adapter for input `s`, given the
/// configured indentation and whether an indentation is currently owed;
/// also whether one is owed afterwards.
pub open spec fn indent_chars(s: Seq<char>, ind: Seq<char>, needs: bool) -> (Seq<char>, bool)
    decreases s.len(),
{
    if s.len() == 0 {
        (Seq::empty(), needs)
    } else {
        let c = s[0];
        let (head, needs1): (Seq<char>, bool) = if c == '\n' {
            (seq!['\n'], true)
        } else if needs {
            (ind.push(c), false)
        } else {
            (seq![c], false)
        };
        let (rest, nf) = indent_chars(s.drop_first(), ind, needs1);
        (head + rest, nf)
    }
}

/// Applies the adapter transformation to `s`, appending to `out`; returns
/// whether an indentation is owed afterwards.
pub fn indent_append(out: &mut Vec<char>, s: &[char], ind: &[char], needs: bool) -> (nf: bool)
    ensures
        final(out)@ == old(out)@ + indent_chars(s@, ind@, needs).0,
        nf == indent_chars(s@, ind@, needs).1,
{
    let mut i: usize = 0;
    let mut cur = needs;
    let n = s.len();
    let ghost base = out@;
    proof {
        assert(s@.skip(0) =~= s@);
        assert(base + indent_chars(s@, ind@, needs).0 =~= base + indent_chars(
            s@.skip(0),
            ind@,
            cur,
        ).0);
    }
    while i < n
        invariant
            i <= n,
            n == s@.len(),
            out@ + indent_chars(s@.skip(i as int), ind@, cur).0 == base + indent_chars(
                s@,
                ind@,
                needs,
            ).0,
            indent_chars(s@.skip(i as int), ind@, cur).1 == indent_chars(s@, ind@, needs).1,
        decreases n - i,
    {
        proof {
            assert(s@.skip(i as int)[0] == s@[i as int]);
            assert(s@.skip(i as int).drop_first() =~= s@.skip(i + 1));
        }
        let ghost out0 = out@;
        let c = s[i];
        if c == '\n' {
            out.push('\n');
            cur = true;
            proof {
                assert(out@ =~= out0 + seq!['\n']);
            }
        } else if cur {
            append_chars(out, ind);
            out.push(c);
            cur = false;
            proof {
                assert(out@ =~= out0 + ind@.push(c));
            }
        } else {
            out.push(c);
            proof {
                assert(out@ =~= out0 + seq![c]);
            }
        }
        proof {
            assert(out@ + indent_chars(s@.skip(i + 1), ind@, cur).0 =~= base + indent_chars(
                s@,
                ind@,
                needs,
            ).0);
        }
        i = i + 1;
    }
    proof {
        assert(s@.skip(i as int).len() == 0);
        assert(out@ =~= out@ + indent_chars(s@.skip(i as int), ind@, cur).0);
        assert(out@ =~= base + indent_chars(s@, ind@, needs).0);
    }
    cur
}

/// A sink wrapper: every line written through it after the first line break
/// is indented by the configured string, except blank lines, which pass
/// through untouched.
pub struct Indenter {
    /// The wrapped output.
    pub sink: String,
    /// The indentation paid out at the start of each non-blank line.
    pub indentation: Vec<char>,
    /// Whether a line break has been forwarded and the indentation for the
    /// next non-empty segment is still owed.
    pub needs_indent: bool,
}

impl Indenter {
    /// Wraps a sink with the given indentation; nothing is owed at first,
    /// so the very first segment keeps its column.
    pub fn new(sink: String, indentation: &str) -> (r: Indenter)
        ensures
            r.sink == sink,
            r.indentation@ == indentation@,
            !r.needs_indent,
    {
        Indenter { sink, indentation: to_chars(indentation), needs_indent: false }
    }

    /// Writes `s` through the adapter: line breaks are forwarded and set the
    /// owed flag, the indentation is paid before the next non-empty segment,
    /// and blank lines are never padded.
    pub fn write_str(&mut self, s: &str)
        ensures
            final(self).sink@ == old(self).sink@ + indent_chars(
                s@,
                old(self).indentation@,
                old(self).needs_indent,
            ).0,
            final(self).needs_indent == indent_chars(
                s@,
                old(self).indentation@,
                old(self).needs_indent,
            ).1,
            final(self).indentation == old(self).indentation,
    {
        let sv = to_chars(s);
        let mut buf: Vec<char> = Vec::new();
        let nf = indent_append(&mut buf, sv.as_slice(), self.indentation.as_slice(), self.needs_indent);
        proof {
            assert(buf@ =~= indent_chars(s@, self.indentation@, self.needs_indent).0);
        }
        let piece = chars_to_string(buf.as_slice());
        self.sink.append(piece.as_str());
        self.needs_indent = nf;
    }

    /// Hands the wrapped sink back.
    pub fn into_inner(self) -> (r: String)
        ensures
            r == self.sink,
    {
        self.sink
    }
}

} // verus!
