//! The logic of the shell, of init, and of `echo`.
//!
//! The shell builds its argument vector in place: the separators in the input line are
//! overwritten with NULs and the vector points into that same buffer. Nothing is copied
//! and nothing is allocated.

use vstd::prelude::*;

verus! {

/// Longest command line accepted.
pub const LINE_MAX: usize = 256;

/// Most arguments in one command, including the program name.
pub const ARGS_MAX: usize = 16;

/// Is `b` whitespace: a space, a tab, a line feed, a vertical tab, a form feed or a
/// carriage return?
pub open spec fn is_blank(b: u8) -> bool {
    b == 0x20 || 9 <= b <= 13
}

/// Is `b` whitespace?
fn whitespace(b: u8) -> (r: bool)
    ensures
        r == is_blank(b),
{
    b == 0x20 || (9 <= b && b <= 13)
}

/// The first place from `i` on that is not whitespace.
pub open spec fn past_blanks(line: Seq<u8>, i: int) -> int
    decreases line.len() - i,
{
    if i < line.len() && is_blank(line[i]) {
        past_blanks(line, i + 1)
    } else {
        i
    }
}

/// The first place from `i` on that is whitespace, or the end.
pub open spec fn field_end(line: Seq<u8>, i: int) -> int
    decreases line.len() - i,
{
    if i < line.len() && !is_blank(line[i]) {
        field_end(line, i + 1)
    } else {
        i
    }
}

proof fn lemma_past_blanks(line: Seq<u8>, i: int)
    ensures
        i <= past_blanks(line, i),
        i <= line.len() ==> past_blanks(line, i) <= line.len(),
        past_blanks(line, i) < line.len() ==> !is_blank(line[past_blanks(line, i)]),
        forall|j: int| i <= j < past_blanks(line, i) ==> j < line.len() && is_blank(#[trigger] line[j]),
    decreases line.len() - i,
{
    if i < line.len() && is_blank(line[i]) {
        lemma_past_blanks(line, i + 1);
    }
}

proof fn lemma_field_end(line: Seq<u8>, i: int)
    ensures
        i <= field_end(line, i),
        i <= line.len() ==> field_end(line, i) <= line.len(),
        i < line.len() && !is_blank(line[i]) ==> i < field_end(line, i),
        field_end(line, i) < line.len() ==> is_blank(line[field_end(line, i)]),
        forall|j: int| i <= j < field_end(line, i) ==> j < line.len() && !is_blank(#[trigger] line[j]),
    decreases line.len() - i,
{
    if i < line.len() && !is_blank(line[i]) {
        lemma_field_end(line, i + 1);
    }
}

/// Where the fields of a line start, from `i` on.
pub open spec fn fields(line: Seq<u8>, i: int) -> Seq<int>
    decreases line.len() - i,
    when 0 <= i
    via fields_decrease
{
    let a = past_blanks(line, i);
    if a >= line.len() {
        Seq::empty()
    } else {
        seq![a] + fields(line, field_end(line, a))
    }
}

#[via_fn]
proof fn fields_decrease(line: Seq<u8>, i: int) {
    lemma_past_blanks(line, i);
    lemma_field_end(line, past_blanks(line, i));
}

/// The line in `buf`, whose first `len` bytes it is.
pub open spec fn line_of(buf: Seq<u8>, len: int) -> Seq<u8> {
    buf.take(len)
}

/// Byte `j` of the buffer after its first `upto` bytes were split: separators have
/// become NULs.
pub open spec fn split_byte(buf: Seq<u8>, upto: int, j: int) -> u8 {
    if j < upto && is_blank(buf[j]) {
        0
    } else {
        buf[j]
    }
}

/// The first place of the field past the most that are allowed.
pub open spec fn excess(line: Seq<u8>) -> int {
    fields(line, 0)[ARGS_MAX as int]
}

/// Split the line in the first `len` bytes of `buf` on whitespace, NUL-terminating
/// each field in place, and say where the fields start.
///
/// `None` if there are more than [`ARGS_MAX`]. The last field runs to the end of the
/// line, and is terminated in the byte after it if the buffer has one.
pub fn split(buf: &mut [u8; 256], len: usize) -> (r: Option<Vec<usize>>)
    requires
        len <= LINE_MAX,
    ensures
        ({
            let line = line_of(old(buf)@, len as int);
            let starts = fields(line, 0);
            match r {
                Some(v) => {
                    &&& starts.len() <= ARGS_MAX
                    &&& v@.len() == starts.len()
                    &&& forall|k: int| 0 <= k < v@.len() ==> #[trigger] v@[k] == starts[k]
                    &&& forall|j: int|
                        0 <= j < LINE_MAX ==> #[trigger] final(buf)@[j] == (if j == len && starts.len() > 0 {
                            0
                        } else {
                            split_byte(old(buf)@, len as int, j)
                        })
                },
                None => {
                    &&& starts.len() > ARGS_MAX
                    &&& forall|j: int|
                        0 <= j < LINE_MAX ==> #[trigger] final(buf)@[j] == split_byte(
                            old(buf)@,
                            excess(line),
                            j,
                        )
                },
            }
        }),
{
    let ghost b0 = buf@;
    let ghost line = line_of(b0, len as int);
    let mut v: Vec<usize> = Vec::new();
    let mut i: usize = 0;
    let ghost mut rest = fields(line, 0);
    proof {
        assert(Seq::<int>::empty() + rest =~= rest);
    }
    while i < len
        invariant
            len <= LINE_MAX,
            i <= len,
            b0 == old(buf)@,
            b0.len() == LINE_MAX,
            line == line_of(b0, len as int),
            line.len() == len,
            v@.len() <= ARGS_MAX,
            rest == fields(line, i as int),
            fields(line, 0).len() == v@.len() + rest.len(),
            forall|k: int| 0 <= k < v@.len() ==> #[trigger] v@[k] == fields(line, 0)[k],
            forall|k: int| 0 <= k < rest.len() ==> #[trigger] rest[k] == fields(line, 0)[v@.len() + k],
            forall|j: int| 0 <= j < LINE_MAX ==> #[trigger] buf@[j] == split_byte(b0, i as int, j),
        decreases len - i,
    {
        let ghost from = i as int;
        while i < len && whitespace(buf[i])
            invariant
                len <= LINE_MAX,
                from <= i <= len,
                b0.len() == LINE_MAX,
                line == line_of(b0, len as int),
                past_blanks(line, from) == past_blanks(line, i as int),
                forall|j: int| 0 <= j < LINE_MAX ==> #[trigger] buf@[j] == split_byte(b0, i as int, j),
            decreases len - i,
        {
            assert(line[i as int] == b0[i as int]);
            // Overwrite separators so the preceding field is NUL-terminated.
            buf[i] = 0;
            i = i + 1;
        }
        proof {
            if i < len {
                assert(line[i as int] == b0[i as int]);
            }
            assert(past_blanks(line, from) == i);
        }
        if i >= len {
            assert(rest.len() == 0);
        } else {
            proof {
                lemma_field_end(line, i as int);
            }
            assert(fields(line, from) == seq![i as int] + fields(line, field_end(line, i as int)));
            assert(rest[0] == i);
            if v.len() == ARGS_MAX {
                assert(fields(line, 0)[v@.len() as int] == rest[0]);
                return None;
            }
            v.push(i);
            let ghost at = i as int;
            while i < len && !whitespace(buf[i])
                invariant
                    len <= LINE_MAX,
                    at <= i <= len,
                    b0.len() == LINE_MAX,
                    line == line_of(b0, len as int),
                    field_end(line, at) == field_end(line, i as int),
                    forall|j: int| 0 <= j < LINE_MAX ==> #[trigger] buf@[j] == split_byte(b0, i as int, j),
                decreases len - i,
            {
                assert(line[i as int] == b0[i as int]);
                i = i + 1;
            }
            proof {
                if i < len {
                    assert(line[i as int] == b0[i as int]);
                }
                lemma_field_end(line, at);
                assert(field_end(line, at) == i);
                let before = rest;
                rest = fields(line, i as int);
                assert(before =~= seq![at] + rest);
                assert forall|k: int| 0 <= k < rest.len() implies #[trigger] rest[k] == fields(line, 0)[v@.len() + k] by {
                    assert(before[k + 1] == rest[k]);
                }
            }
        }
        proof {
            if i >= len {
                lemma_past_blanks(line, i as int);
                rest = fields(line, i as int);
            }
        }
    }
    proof {
        lemma_past_blanks(line, i as int);
        assert(rest.len() == 0);
    }
    if v.len() > 0 && len < LINE_MAX {
        buf[len] = 0;
    }
    Some(v)
}

/// Where the string at `at` ends: its first NUL, or the end of the buffer.
pub open spec fn string_end(buf: Seq<u8>, at: int) -> int
    decreases buf.len() - at,
{
    if at < buf.len() && buf[at] != 0 {
        string_end(buf, at + 1)
    } else {
        at
    }
}

/// Where the NUL-terminated string that starts at `at` ends.
pub fn cstr_at(buf: &[u8], at: usize) -> (r: usize)
    requires
        at <= buf@.len(),
    ensures
        r == string_end(buf@, at as int),
        at <= r <= buf@.len(),
{
    let mut i: usize = at;
    while i < buf.len() && buf[i] != 0
        invariant
            at <= i <= buf@.len(),
            string_end(buf@, at as int) == string_end(buf@, i as int),
        decreases buf@.len() - i,
    {
        i = i + 1;
    }
    i
}

/// A string ends at the first NUL.
proof fn lemma_string_end(buf: Seq<u8>, at: int, end: int)
    requires
        0 <= at <= end < buf.len(),
        forall|j: int| at <= j < end ==> #[trigger] buf[j] != 0,
        buf[end] == 0,
    ensures
        string_end(buf, at) == end,
    decreases end - at,
{
    if at < end {
        assert(buf[at] != 0);
        lemma_string_end(buf, at + 1, end);
    }
}

/// Where field `k` of a line starts and ends.
proof fn lemma_field(line: Seq<u8>, i: int, k: int)
    requires
        0 <= i <= line.len(),
        0 <= k < fields(line, i).len(),
    ensures
        i <= fields(line, i)[k] < line.len(),
        !is_blank(line[fields(line, i)[k]]),
    decreases line.len() - i,
{
    let a = past_blanks(line, i);
    lemma_past_blanks(line, i);
    lemma_field_end(line, a);
    if k > 0 {
        let e = field_end(line, a);
        assert(fields(line, i)[k] == fields(line, e)[k - 1]);
        lemma_field(line, e, k - 1);
    }
}

/// Every field that a split has found is a NUL-terminated string that spells the field,
/// as long as the line holds no NUL itself and leaves a byte of the buffer.
pub proof fn law_fields_are_terminated(b0: Seq<u8>, buf: Seq<u8>, len: int, k: int)
    requires
        b0.len() == LINE_MAX,
        buf.len() == LINE_MAX,
        0 <= len < LINE_MAX,
        0 <= k < fields(line_of(b0, len), 0).len(),
        forall|j: int| 0 <= j < len ==> #[trigger] b0[j] != 0,
        forall|j: int|
            0 <= j < LINE_MAX ==> #[trigger] buf[j] == (if j == len {
                0
            } else {
                split_byte(b0, len, j)
            }),
    ensures
        ({
            let line = line_of(b0, len);
            let at = fields(line, 0)[k];
            &&& string_end(buf, at) == field_end(line, at)
            &&& buf.subrange(at, string_end(buf, at)) == line.subrange(at, field_end(line, at))
        }),
{
    let line = line_of(b0, len);
    let at = fields(line, 0)[k];
    lemma_field(line, 0, k);
    lemma_field_end(line, at);
    let end = field_end(line, at);
    assert forall|j: int| at <= j < end implies #[trigger] buf[j] != 0 && buf[j] == line[j] by {
        assert(!is_blank(line[j]));
        assert(b0[j] != 0);
    }
    if end < len {
        assert(is_blank(line[end]));
    }
    lemma_string_end(buf, at, end);
    assert(buf.subrange(at, end) =~= line.subrange(at, end));
}

/// What a command line asks for.
#[derive(Debug, Clone, Copy, PartialEq, Eq, Structural)]
pub enum Command {
    /// Leave the shell.
    Exit,
    /// List the builtins.
    Help,
    /// Print the time since boot.
    Uptime,
    /// List tasks.
    Ps,
    /// Anything else is looked up as a program.
    External,
}

/// The command that `name` means. The builtins are `exit`, `help`, `uptime` and `ps`.
pub open spec fn command_of(name: Seq<u8>) -> Command {
    if name == seq![0x65u8, 0x78, 0x69, 0x74] {
        Command::Exit
    } else if name == seq![0x68u8, 0x65, 0x6c, 0x70] {
        Command::Help
    } else if name == seq![0x75u8, 0x70, 0x74, 0x69, 0x6d, 0x65] {
        Command::Uptime
    } else if name == seq![0x70u8, 0x73] {
        Command::Ps
    } else {
        Command::External
    }
}

/// The command that `name` means.
pub fn command(name: &[u8]) -> (r: Command)
    ensures
        r == command_of(name@),
{
    let n: usize = name.len();
    if n == 4 && name[0] == 0x65 && name[1] == 0x78 && name[2] == 0x69 && name[3] == 0x74 {
        assert(name@ =~= seq![0x65u8, 0x78, 0x69, 0x74]);
        Command::Exit
    } else if n == 4 && name[0] == 0x68 && name[1] == 0x65 && name[2] == 0x6c && name[3] == 0x70 {
        assert(name@ =~= seq![0x68u8, 0x65, 0x6c, 0x70]);
        Command::Help
    } else if n == 6 && name[0] == 0x75 && name[1] == 0x70 && name[2] == 0x74 && name[3] == 0x69 && name[4] == 0x6d
        && name[5] == 0x65 {
        assert(name@ =~= seq![0x75u8, 0x70, 0x74, 0x69, 0x6d, 0x65]);
        Command::Uptime
    } else if n == 2 && name[0] == 0x70 && name[1] == 0x73 {
        assert(name@ =~= seq![0x70u8, 0x73]);
        Command::Ps
    } else {
        Command::External
    }
}

/// Which side of a fork this is.
#[derive(Debug, Clone, Copy, PartialEq, Eq, Structural)]
pub enum Side {
    /// The child.
    Child,
    /// The parent, with the child's pid.
    Parent(i64),
    /// There was no fork, for the error given.
    Failed(i64),
}

/// Which side of a fork this is, where `ret` is what the call returned.
pub fn side(ret: i64) -> (r: Side)
    ensures
        r == (if ret == 0 {
            Side::Child
        } else if ret > 0 {
            Side::Parent(ret)
        } else {
            Side::Failed(ret)
        }),
{
    if ret == 0 {
        Side::Child
    } else if ret > 0 {
        Side::Parent(ret)
    } else {
        Side::Failed(ret)
    }
}

/// What init does after a wait.
#[derive(Debug, Clone, Copy, PartialEq, Eq, Structural)]
pub enum Reaping {
    /// An orphan was collected: wait on.
    Continue,
    /// The shell has exited: say so, and start another.
    ShellExited,
    /// There is nobody to wait for: start a shell.
    Nobody,
}

/// What init does after a wait that returned `reaped`, where `shell` is the shell's pid.
/// It reaps everything, not just the shell: orphans land here too.
pub fn reap(shell: i64, reaped: i64) -> (r: Reaping)
    ensures
        r == (if reaped < 0 {
            Reaping::Nobody
        } else if reaped == shell {
            Reaping::ShellExited
        } else {
            Reaping::Continue
        }),
{
    if reaped < 0 {
        Reaping::Nobody
    } else if reaped == shell {
        Reaping::ShellExited
    } else {
        Reaping::Continue
    }
}

/// Arguments `1` up to `n`, separated by spaces.
pub open spec fn spaced(args: Seq<Vec<u8>>, n: int) -> Seq<u8>
    decreases n,
{
    if n <= 1 {
        Seq::empty()
    } else if n == 2 {
        args[1]@
    } else {
        spaced(args, n - 1).push(0x20) + args[n - 1]@
    }
}

/// What `echo` prints: the arguments after the program name, as they are, separated by
/// spaces, and a line feed.
pub fn echo(args: &Vec<Vec<u8>>) -> (r: Vec<u8>)
    ensures
        r@ == spaced(args@, args@.len() as int).push(10),
{
    let mut out: Vec<u8> = Vec::new();
    let mut i: usize = 1;
    assert(spaced(args@, 1) == Seq::<u8>::empty());
    while i < args.len()
        invariant
            1 <= i,
            i <= args@.len() || (args@.len() == 0 && i == 1),
            out@ == spaced(args@, i as int),
        decreases args@.len() - i,
    {
        if i > 1 {
            out.push(0x20);
        }
        let ghost before = out@;
        let mut j: usize = 0;
        while j < args[i].len()
            invariant
                1 <= i < args@.len(),
                j <= args@[i as int]@.len(),
                out@ == before + args@[i as int]@.take(j as int),
            decreases args@[i as int]@.len() - j,
        {
            out.push(args[i][j]);
            j = j + 1;
            assert(out@ =~= before + args@[i as int]@.take(j as int));
        }
        assert(args@[i as int]@.take(j as int) =~= args@[i as int]@);
        assert(out@ =~= spaced(args@, i + 1));
        i = i + 1;
    }
    assert(args@.len() == 0 ==> spaced(args@, 0) == Seq::<u8>::empty());
    out.push(10);
    out
}

/// A line is split at whitespace. A field starts wherever something follows whitespace or
/// the start of the line, and nowhere else; the fields are in the order of the line; and
/// each one goes on to the next whitespace or the end. Up to 16 fields are taken.
pub proof fn law_line_is_split_at_whitespace(line: Seq<u8>, p: int)
    requires
        0 <= p < line.len(),
    ensures
        fields(line, 0).contains(p) <==> !(line[p] == 32 || 9 <= line[p] <= 13) && (p == 0 || line[p - 1] == 32 || 9
            <= line[p - 1] <= 13),
        forall|a: int, b: int|
            0 <= a < b < fields(line, 0).len() ==> #[trigger] fields(line, 0)[a] < #[trigger] fields(line, 0)[b],
        forall|j: int| p <= j < field_end(line, p) ==> j < line.len() && !(#[trigger] line[j] == 32 || 9 <= line[j] <= 13),
        field_end(line, p) < line.len() ==> line[field_end(line, p)] == 32 || 9 <= line[field_end(line, p)] <= 13,
        ARGS_MAX == 16,
{
    lemma_field_end(line, p);
    lemma_starts(line, 0, p);
    assert forall|a: int, b: int| 0 <= a < b < fields(line, 0).len() implies #[trigger] fields(line, 0)[a]
        < #[trigger] fields(line, 0)[b] by {
        lemma_fields_ascend(line, 0, a, b);
    }
}

proof fn lemma_starts(line: Seq<u8>, i: int, p: int)
    requires
        0 <= i <= p < line.len(),
        i == 0 || i == line.len() || is_blank(line[i]),
    ensures
        fields(line, i).contains(p) <==> !is_blank(line[p]) && (p == 0 || is_blank(line[p - 1])),
    decreases line.len() - i,
{
    let a = past_blanks(line, i);
    lemma_past_blanks(line, i);
    lemma_field_end(line, a);
    let all = fields(line, i);
    if p < a {
        assert(is_blank(line[p]));
        if all.contains(p) {
            let k = choose|k: int| 0 <= k < all.len() && all[k] == p;
            lemma_field(line, i, k);
        }
    } else {
        let e = field_end(line, a);
        let rest = fields(line, e);
        assert(all == seq![a] + rest);
        if p == a {
            assert(all[0] == p);
            if p > 0 && p > i {
                assert(is_blank(line[p - 1]));
            }
        } else if p < e {
            assert(!is_blank(line[p - 1]));
            if all.contains(p) {
                let k = choose|k: int| 0 <= k < all.len() && all[k] == p;
                assert(rest[k - 1] == p);
                lemma_field(line, e, k - 1);
            }
        } else {
            lemma_starts(line, e, p);
            if all.contains(p) {
                let k = choose|k: int| 0 <= k < all.len() && all[k] == p;
                assert(rest[k - 1] == p);
            }
            if rest.contains(p) {
                let k = choose|k: int| 0 <= k < rest.len() && rest[k] == p;
                assert(all[k + 1] == p);
            }
        }
    }
}

proof fn lemma_fields_ascend(line: Seq<u8>, i: int, a: int, b: int)
    requires
        0 <= i <= line.len(),
        0 <= a < b < fields(line, i).len(),
    ensures
        fields(line, i)[a] < fields(line, i)[b],
    decreases line.len() - i,
{
    let s = past_blanks(line, i);
    lemma_past_blanks(line, i);
    lemma_field_end(line, s);
    let e = field_end(line, s);
    let rest = fields(line, e);
    assert(fields(line, i) == seq![s] + rest);
    if a == 0 {
        lemma_field(line, e, b - 1);
    } else {
        lemma_fields_ascend(line, e, a - 1, b - 1);
    }
}

/// What the shell does itself is what is called `exit`, `help`, `uptime` and `ps`.
pub proof fn law_builtins_have_their_names(name: Seq<u8>)
    ensures
        command_of(name) == Command::Exit <==> name == seq![101u8, 120u8, 105u8, 116u8],
        command_of(name) == Command::Help <==> name == seq![104u8, 101u8, 108u8, 112u8],
        command_of(name) == Command::Uptime <==> name == seq![117u8, 112u8, 116u8, 105u8, 109u8, 101u8],
        command_of(name) == Command::Ps <==> name == seq![112u8, 115u8],
{
    assert(seq![112u8, 115u8].len() == 2 && seq![117u8, 112u8, 116u8, 105u8, 109u8, 101u8].len() == 6);
    assert(seq![101u8, 120u8, 105u8, 116u8][0] != seq![104u8, 101u8, 108u8, 112u8][0]);
}

/// Where argument `i` is in a line of arguments from the second on with a byte between.
pub open spec fn place_of(args: Seq<Vec<u8>>, i: int) -> int
    decreases i,
{
    if i <= 1 {
        0
    } else {
        place_of(args, i - 1) + args[i - 1]@.len() + 1
    }
}

proof fn lemma_place(args: Seq<Vec<u8>>, i: int)
    ensures
        0 <= place_of(args, i),
    decreases i,
{
    if i > 1 {
        lemma_place(args, i - 1);
    }
}

/// `echo` prints every argument after its name, each as it is, with one space between two.
pub proof fn law_echo_spaces_its_arguments(args: Seq<Vec<u8>>, n: int, i: int)
    requires
        1 <= i < n <= args.len(),
    ensures
        spaced(args, n).len() == place_of(args, n) - 1,
        0 <= place_of(args, i),
        place_of(args, i) + args[i]@.len() <= spaced(args, n).len(),
        spaced(args, n).subrange(place_of(args, i), place_of(args, i) + args[i]@.len()) == args[i]@,
        i > 1 ==> spaced(args, n)[place_of(args, i) - 1] == 32,
    decreases n,
{
    lemma_place(args, i - 1);
    let all = spaced(args, n);
    let at = place_of(args, i);
    if n == 2 {
        assert(all.subrange(at, at + args[i]@.len()) =~= args[i]@);
    } else {
        let shorter = spaced(args, n - 1);
        law_echo_spaces_its_arguments(args, n - 1, if i < n - 1 {
            i
        } else {
            1
        });
        assert(all == shorter.push(0x20) + args[n - 1]@);
        if i < n - 1 {
            assert(all.subrange(at, at + args[i]@.len()) =~= shorter.subrange(at, at + args[i]@.len()));
        } else {
            assert(at == shorter.len() + 1);
            assert(all.subrange(at, at + args[i]@.len()) =~= args[i]@);
        }
    }
}

} // verus!
