//! Rendering of bytes of the image as printable text.

use vstd::prelude::*;
use vstd::string::{StrSliceExecFns, StringExecFns};

verus! {

/// Bytes that are shown as text.
pub struct Bytes<'a>(pub &'a [u8]);

/// The digit that shows `d` in base sixteen, in lower case.
pub open spec fn hex_digit(d: u8) -> char {
    if d < 10 {
        ((48 + d) as u8) as char
    } else {
        ((87 + d) as u8) as char
    }
}

/// The text that shows one byte: a printable character stands for itself,
/// but for the backslash, which is doubled; the bytes 0, 9 and 10 are shown
/// as `\0`, `\t` and `\n`; any other byte as `\x` and its two digits in
/// base sixteen.
pub open spec fn escaped_byte(b: u8) -> Seq<char> {
    if b == 0x5c {
        seq!['\\', '\\']
    } else if 0x20 <= b <= 0x7e {
        seq![b as char]
    } else if b == 0 {
        seq!['\\', '0']
    } else if b == 9 {
        seq!['\\', 't']
    } else if b == 10 {
        seq!['\\', 'n']
    } else {
        seq!['\\', 'x', hex_digit(b / 16), hex_digit(b % 16)]
    }
}

/// The text that shows the bytes, each byte in turn.
pub open spec fn escaped(bytes: Seq<u8>) -> Seq<char>
    decreases bytes.len(),
{
    if bytes.len() == 0 {
        Seq::empty()
    } else {
        escaped(bytes.drop_last()) + escaped_byte(bytes.last())
    }
}

/// The text that shows the bytes between double quotes.
pub open spec fn quoted(bytes: Seq<u8>) -> Seq<char> {
    seq!['"'] + escaped(bytes) + seq!['"']
}

/// Appends to `out` the character with the code `b`.
fn push_printable(out: &mut String, b: u8)
    requires
        0x20 <= b <= 0x7e,
    ensures
        final(out)@ == old(out)@.push(b as char),
{
    let table =
        " !\"#$%&'()*+,-./0123456789:;<=>?@ABCDEFGHIJKLMNOPQRSTUVWXYZ[\\]^_`abcdefghijklmnopqrstuvwxyz{|}~";
    proof {
        reveal_strlit(
            " !\"#$%&'()*+,-./0123456789:;<=>?@ABCDEFGHIJKLMNOPQRSTUVWXYZ[\\]^_`abcdefghijklmnopqrstuvwxyz{|}~",
        );
        assert(table@.len() == 95);
        assert(table@[b - 32] == b as char);
    }
    let at: usize = (b - 32) as usize;
    let piece = table.substring_ascii(at, at + 1);
    proof {
        assert(piece@ =~= seq![b as char]);
        assert(old(out)@ + piece@ =~= old(out)@.push(b as char));
    }
    out.append(piece);
}

/// Appends to `out` the digit that shows `d` in base sixteen.
fn push_hex_digit(out: &mut String, d: u8)
    requires
        d < 16,
    ensures
        final(out)@ == old(out)@.push(hex_digit(d)),
{
    let table = "0123456789abcdef";
    proof {
        reveal_strlit("0123456789abcdef");
        assert(table@.len() == 16);
        assert(table@[d as int] == hex_digit(d));
    }
    let at: usize = d as usize;
    let piece = table.substring_ascii(at, at + 1);
    proof {
        assert(piece@ =~= seq![hex_digit(d)]);
        assert(old(out)@ + piece@ =~= old(out)@.push(hex_digit(d)));
    }
    out.append(piece);
}

/// Appends to `out` the text that shows one byte.
pub fn push_escaped(out: &mut String, b: u8)
    ensures
        final(out)@ == old(out)@ + escaped_byte(b),
{
    if b == 0x5c {
        proof {
            reveal_strlit("\\\\");
        }
        out.append("\\\\");
        assert(out@ =~= old(out)@ + escaped_byte(b));
    } else if 0x20 <= b && b <= 0x7e {
        push_printable(out, b);
        assert(out@ =~= old(out)@ + escaped_byte(b));
    } else if b == 0 {
        proof {
            reveal_strlit("\\0");
        }
        out.append("\\0");
        assert(out@ =~= old(out)@ + escaped_byte(b));
    } else if b == 9 {
        proof {
            reveal_strlit("\\t");
        }
        out.append("\\t");
        assert(out@ =~= old(out)@ + escaped_byte(b));
    } else if b == 10 {
        proof {
            reveal_strlit("\\n");
        }
        out.append("\\n");
        assert(out@ =~= old(out)@ + escaped_byte(b));
    } else {
        proof {
            reveal_strlit("\\x");
        }
        out.append("\\x");
        push_hex_digit(out, b / 16);
        push_hex_digit(out, b % 16);
        assert(out@ =~= old(out)@ + escaped_byte(b));
    }
}

impl<'a> Bytes<'a> {
    /// The bytes as text, each byte shown by `escaped_byte`.
    pub fn render(&self) -> (text: String)
        ensures
            text@ == escaped(self.0@),
    {
        let mut text = String::new();
        let mut i: usize = 0;
        proof {
            assert(self.0@.take(0) =~= Seq::<u8>::empty());
        }
        while i < self.0.len()
            invariant
                i <= self.0@.len(),
                text@ == escaped(self.0@.take(i as int)),
            decreases self.0.len() - i,
        {
            proof {
                assert(self.0@.take(i + 1).drop_last() =~= self.0@.take(i as int));
            }
            push_escaped(&mut text, self.0[i]);
            i += 1;
        }
        proof {
            assert(self.0@.take(i as int) =~= self.0@);
        }
        text
    }

    /// The bytes as text between double quotes.
    pub fn render_quoted(&self) -> (text: String)
        ensures
            text@ == quoted(self.0@),
    {
        proof {
            reveal_strlit("\"");
        }
        let mut text = String::new();
        text.append("\"");
        let inner = self.render();
        text.append(inner.as_str());
        text.append("\"");
        assert(text@ =~= quoted(self.0@));
        text
    }
}

} // verus!
