//! The runtime of user programs.
//!
//! There is deliberately no heap in userland: programs work out of fixed-size
//! buffers that their callers provide.

use vstd::prelude::*;

pub mod calls;
pub mod shell;

verus! {

/// The argument vector, as byte strings.
///
/// Bytes rather than text because a program name arriving from a filesystem is not
/// guaranteed to be UTF-8, and refusing to start over that would be worse than
/// passing the bytes through.
pub struct Args {
    args: Vec<Vec<u8>>,
    index: usize,
}

impl View for Args {
    type V = Seq<Seq<u8>>;

    closed spec fn view(&self) -> Seq<Seq<u8>> {
        Seq::new(self.args@.len(), |i: int| self.args@[i]@)
    }
}

impl Args {
    /// How many arguments were handed out already.
    pub closed spec fn taken(&self) -> int {
        self.index as int
    }

    /// Wrap the vector that the kernel supplied.
    pub fn new(args: Vec<Vec<u8>>) -> (r: Args)
        ensures
            r@.len() == args@.len(),
            forall|i: int| 0 <= i < args@.len() ==> #[trigger] r@[i] == args@[i]@,
            r.taken() == 0,
    {
        Args { args, index: 0 }
    }

    /// Number of arguments, including the program name.
    pub fn len(&self) -> (r: usize)
        ensures
            r == self@.len(),
    {
        self.args.len()
    }

    /// Were no arguments passed at all?
    pub fn is_empty(&self) -> (r: bool)
        ensures
            r == (self@.len() == 0),
    {
        self.args.len() == 0
    }

    /// Argument `n`, or `None` if out of range.
    pub fn get(&self, n: usize) -> (r: Option<&[u8]>)
        ensures
            match r {
                Some(a) => n < self@.len() && a@ == self@[n as int],
                None => n >= self@.len(),
            },
    {
        if n >= self.args.len() {
            return None;
        }
        Some(self.args[n].as_slice())
    }

    /// The next argument that was not handed out yet, if there is one.
    pub fn next(&mut self) -> (r: Option<&[u8]>)
        ensures
            final(self)@ == old(self)@,
            match r {
                Some(a) => {
                    &&& old(self).taken() < old(self)@.len()
                    &&& a@ == old(self)@[old(self).taken()]
                    &&& final(self).taken() == old(self).taken() + 1
                },
                None => old(self).taken() >= old(self)@.len() && final(self).taken() == old(self).taken(),
            },
    {
        let n: usize = self.index;
        if n >= self.args.len() {
            return None;
        }
        self.index = n + 1;
        Some(self.args[n].as_slice())
    }
}

/// A line being typed.
pub struct Line {
    /// What was typed so far.
    pub text: Vec<u8>,
    /// The most bytes that the line may have.
    pub limit: usize,
}

/// What a typed character leads to.
#[derive(Debug, Clone, Copy, PartialEq, Eq, Structural)]
pub enum Edit {
    /// The line is complete: write a line feed.
    Done,
    /// Back up, overwrite with a space, back up again: the only way to erase a
    /// character on a dumb terminal.
    Erase,
    /// Write the character.
    Echo(u8),
    /// Write nothing.
    Ignore,
}

impl Edit {
    /// The bytes to write to standard output.
    pub open spec fn spec_output(&self) -> Seq<u8> {
        match *self {
            Edit::Done => seq![10u8],
            Edit::Erase => seq![8u8, 0x20, 8],
            Edit::Echo(c) => seq![c],
            Edit::Ignore => Seq::empty(),
        }
    }

    /// The bytes to write to standard output.
    pub fn output(&self) -> (r: Vec<u8>)
        ensures
            r@ == self.spec_output(),
    {
        let mut out: Vec<u8> = Vec::new();
        match *self {
            Edit::Done => {
                out.push(10);
            },
            Edit::Erase => {
                out.push(8);
                out.push(0x20);
                out.push(8);
            },
            Edit::Echo(c) => {
                out.push(c);
            },
            Edit::Ignore => {},
        }
        assert(out@ =~= self.spec_output());
        out
    }
}

/// Is the character one that shows?
pub open spec fn shows(c: u8) -> bool {
    0x20 <= c <= 0x7e
}

/// The effect of typing `c`.
pub open spec fn typed(text: Seq<u8>, limit: int, c: u8) -> (Seq<u8>, Edit) {
    if c == 13 || c == 10 {
        (text, Edit::Done)
    } else if c == 0x7f || c == 0x08 {
        if text.len() > 0 {
            (text.drop_last(), Edit::Erase)
        } else {
            (text, Edit::Ignore)
        }
    } else if shows(c) && text.len() < limit {
        (text.push(c), Edit::Echo(c))
    } else {
        (text, Edit::Ignore)
    }
}

/// Read a line from standard input, character by character: `c` was typed.
///
/// The kernel hands over raw characters, so line editing -- echo and backspace --
/// belongs here, the same division of labour as a Unix tty in raw mode. Control
/// characters and escape sequences are ignored; they would otherwise end up in the
/// command line.
pub fn read_line(line: &mut Line, c: u8) -> (r: Edit)
    ensures
        final(line).limit == old(line).limit,
        (final(line).text@, r) == typed(old(line).text@, old(line).limit as int, c),
{
    if c == 13 || c == 10 {
        Edit::Done
    } else if c == 0x7f || c == 0x08 {
        if line.text.len() > 0 {
            let ghost before = line.text@;
            let _ = line.text.pop();
            assert(line.text@ =~= before.drop_last());
            Edit::Erase
        } else {
            Edit::Ignore
        }
    } else if 0x20 <= c && c <= 0x7e && line.text.len() < line.limit {
        line.text.push(c);
        Edit::Echo(c)
    } else {
        Edit::Ignore
    }
}

/// The line after typing `cs`, ended or not.
pub open spec fn typed_all(text: Seq<u8>, limit: int, cs: Seq<u8>) -> Seq<u8>
    decreases cs.len(),
{
    if cs.len() == 0 {
        text
    } else {
        typed(typed_all(text, limit, cs.drop_last()), limit, cs.last()).0
    }
}

/// Whatever is typed, the line stays within its buffer and holds only characters that
/// show.
pub proof fn law_line_is_clean(limit: int, cs: Seq<u8>)
    requires
        0 <= limit,
    ensures
        typed_all(Seq::empty(), limit, cs).len() <= limit,
        forall|i: int|
            0 <= i < typed_all(Seq::empty(), limit, cs).len() ==> shows(
                #[trigger] typed_all(Seq::empty(), limit, cs)[i],
            ),
    decreases cs.len(),
{
    if cs.len() > 0 {
        law_line_is_clean(limit, cs.drop_last());
        let text = typed_all(Seq::empty(), limit, cs.drop_last());
        let next = typed(text, limit, cs.last()).0;
        assert forall|i: int| 0 <= i < next.len() implies shows(#[trigger] next[i]) by {
            if i < text.len() {
                assert(next[i] == text[i]);
            }
        }
    }
}

/// A backspace undoes a character.
pub proof fn law_backspace_undoes(text: Seq<u8>, limit: int, c: u8)
    requires
        shows(c),
        text.len() < limit,
    ensures
        typed(typed(text, limit, c).0, limit, 0x08).0 == text,
        typed(typed(text, limit, c).0, limit, 0x7f).0 == text,
{
    assert(text.push(c).drop_last() =~= text);
}

/// A key does to the line what it stands for. A printable character is added and shown if
/// there is room; either backspace takes the last character off the line and the screen;
/// either line terminator ends the line as it is; anything else does nothing.
pub proof fn law_keys_edit_the_line(text: Seq<u8>, limit: int, c: u8)
    ensures
        0x20 <= c <= 0x7e && text.len() < limit ==> typed(text, limit, c) == (text.push(c), Edit::Echo(c)),
        0x20 <= c <= 0x7e && text.len() >= limit ==> typed(text, limit, c) == (text, Edit::Ignore),
        (c == 8 || c == 0x7f) && text.len() > 0 ==> typed(text, limit, c) == (
            text.subrange(0, text.len() - 1),
            Edit::Erase,
        ),
        (c == 8 || c == 0x7f) && text.len() == 0 ==> typed(text, limit, c) == (text, Edit::Ignore),
        c == 10 || c == 13 ==> typed(text, limit, c) == (text, Edit::Done),
        (c < 0x20 && c != 8 && c != 10 && c != 13) || c > 0x7f ==> typed(text, limit, c) == (text, Edit::Ignore),
        Edit::Done.spec_output() == seq![10u8],
        Edit::Erase.spec_output() == seq![8u8, 32u8, 8u8],
        Edit::Echo(c).spec_output() == seq![c],
        Edit::Ignore.spec_output() == Seq::<u8>::empty(),
{
    if text.len() > 0 {
        assert(text.drop_last() =~= text.subrange(0, text.len() - 1));
    }
}

} // verus!
