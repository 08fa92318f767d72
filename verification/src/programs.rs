//! User programs built into the kernel image.
//!
//! Until there is a disk to read from, `exec` resolves names against a table of
//! ELF images embedded at build time -- the same idea as an initramfs, minus the
//! archive format.

use vstd::prelude::*;

verus! {

/// An embedded program.
pub struct Program {
    /// What `exec` calls it.
    pub name: Vec<u8>,
    /// Its ELF image.
    pub image: Vec<u8>,
}

/// `name` without a leading slash.
pub open spec fn bare(name: Seq<u8>) -> Seq<u8> {
    if name.len() > 0 && name[0] == 0x2f {
        name.skip(1)
    } else {
        name
    }
}

/// The image of the first program called `name`.
pub open spec fn named(programs: Seq<Program>, name: Seq<u8>) -> Option<Seq<u8>>
    decreases programs.len(),
{
    if programs.len() == 0 {
        None
    } else if programs[0].name@ == name {
        Some(programs[0].image@)
    } else {
        named(programs.skip(1), name)
    }
}

/// The image that `name` is resolved to, with or without a leading slash.
pub open spec fn found(programs: Seq<Program>, name: Seq<u8>) -> Option<Seq<u8>> {
    named(programs, bare(name))
}

/// Is `a` the part of `b` from `from` on?
fn same_bytes(a: &[u8], b: &[u8], from: usize) -> (r: bool)
    requires
        from <= b@.len(),
    ensures
        r == (a@ == b@.skip(from as int)),
{
    let total: usize = b.len();
    if a.len() != total - from {
        return false;
    }
    let mut i: usize = 0;
    while i < a.len()
        invariant
            i <= a@.len(),
            from + a@.len() == total == b@.len(),
            forall|j: int| 0 <= j < i ==> a@[j] == b@.skip(from as int)[j],
        decreases a@.len() - i,
    {
        if a[i] != b[from + i] {
            assert(a@[i as int] != b@.skip(from as int)[i as int]);
            return false;
        }
        i = i + 1;
    }
    assert(a@ =~= b@.skip(from as int));
    true
}

/// Look up a program by name, with or without a leading slash.
pub fn find<'a>(programs: &'a [Program], name: &[u8]) -> (r: Option<&'a [u8]>)
    ensures
        match found(programs@, name@) {
            Some(image) => r matches Some(v) && v@ == image,
            None => r is None,
        },
{
    let from: usize = if name.len() > 0 && name[0] == 0x2f {
        1
    } else {
        0
    };
    assert(name@.skip(from as int) =~= bare(name@));
    let mut i: usize = 0;
    assert(programs@.skip(0) =~= programs@);
    while i < programs.len()
        invariant
            i <= programs@.len(),
            from <= name@.len(),
            name@.skip(from as int) == bare(name@),
            named(programs@, bare(name@)) == named(programs@.skip(i as int), bare(name@)),
        decreases programs@.len() - i,
    {
        assert(programs@.skip(i as int)[0] == programs@[i as int]);
        assert(programs@.skip(i as int).skip(1) =~= programs@.skip(i + 1));
        if same_bytes(programs[i].name.as_slice(), name, from) {
            return Some(programs[i].image.as_slice());
        }
        i = i + 1;
    }
    None
}

/// Names of every embedded program, for `ls` and for the shell's error message.
pub fn names(programs: &[Program]) -> (r: Vec<&Vec<u8>>)
    ensures
        r@.len() == programs@.len(),
        forall|i: int| 0 <= i < r@.len() ==> *(#[trigger] r@[i]) == programs@[i].name,
{
    let mut r: Vec<&Vec<u8>> = Vec::new();
    let mut i: usize = 0;
    while i < programs.len()
        invariant
            i == r@.len() <= programs@.len(),
            forall|j: int| 0 <= j < i ==> *(#[trigger] r@[j]) == programs@[j].name,
        decreases programs@.len() - i,
    {
        r.push(&programs[i].name);
        i = i + 1;
    }
    r
}

/// How many programs are embedded.
pub fn count(programs: &[Program]) -> (r: usize)
    ensures
        r == programs@.len(),
{
    programs.len()
}

/// A name is found with a leading slash as it is without one.
pub proof fn law_leading_slash_is_optional(programs: Seq<Program>, name: Seq<u8>)
    requires
        name.len() == 0 || name[0] != 0x2f,
    ensures
        found(programs, seq![0x2fu8] + name) == found(programs, name),
{
    assert((seq![0x2fu8] + name).skip(1) =~= name);
}

/// Every program can be found under its name, unless an earlier one has it too.
pub proof fn law_programs_are_found(programs: Seq<Program>, i: int)
    requires
        0 <= i < programs.len(),
        programs[i].name@.len() == 0 || programs[i].name@[0] != 0x2f,
        forall|j: int| 0 <= j < i ==> (#[trigger] programs[j]).name@ != programs[i].name@,
    ensures
        found(programs, programs[i].name@) == Some(programs[i].image@),
    decreases i,
{
    if i > 0 {
        let rest = programs.skip(1);
        assert(rest[i - 1] == programs[i]);
        assert forall|j: int| 0 <= j < i - 1 implies (#[trigger] rest[j]).name@ != rest[i - 1].name@ by {
            assert(rest[j] == programs[j + 1]);
        }
        law_programs_are_found(rest, i - 1);
        assert(programs[0].name@ != programs[i].name@);
    }
}

/// A name that no program has is not found, and what is found is the image of the first
/// program of that name. One leading slash of a name does not count.
pub proof fn law_only_programs_are_found(programs: Seq<Program>, name: Seq<u8>)
    ensures
        ({
            let short = if name.len() > 0 && name[0] == 0x2f {
                name.skip(1)
            } else {
                name
            };
            match found(programs, name) {
                None => forall|i: int| 0 <= i < programs.len() ==> (#[trigger] programs[i]).name@ != short,
                Some(image) => exists|i: int|
                    {
                        &&& 0 <= i < programs.len()
                        &&& (#[trigger] programs[i]).name@ == short
                        &&& programs[i].image@ == image
                        &&& forall|j: int| 0 <= j < i ==> (#[trigger] programs[j]).name@ != short
                    },
            }
        }),
{
    lemma_named(programs, bare(name));
}

proof fn lemma_named(programs: Seq<Program>, name: Seq<u8>)
    ensures
        match named(programs, name) {
            None => forall|i: int| 0 <= i < programs.len() ==> (#[trigger] programs[i]).name@ != name,
            Some(image) => exists|i: int|
                {
                    &&& 0 <= i < programs.len()
                    &&& (#[trigger] programs[i]).name@ == name
                    &&& programs[i].image@ == image
                    &&& forall|j: int| 0 <= j < i ==> (#[trigger] programs[j]).name@ != name
                },
        },
    decreases programs.len(),
{
    if programs.len() > 0 {
        let rest = programs.skip(1);
        lemma_named(rest, name);
        if programs[0].name@ != name {
            match named(rest, name) {
                None => {
                    assert forall|i: int| 0 <= i < programs.len() implies (#[trigger] programs[i]).name@ != name by {
                        if i > 0 {
                            assert(programs[i] == rest[i - 1]);
                        }
                    }
                },
                Some(image) => {
                    let i = choose|i: int|
                        {
                            &&& 0 <= i < rest.len()
                            &&& (#[trigger] rest[i]).name@ == name
                            &&& rest[i].image@ == image
                            &&& forall|j: int| 0 <= j < i ==> (#[trigger] rest[j]).name@ != name
                        };
                    assert(programs[i + 1] == rest[i]);
                    assert forall|j: int| 0 <= j < i + 1 implies (#[trigger] programs[j]).name@ != name by {
                        if j > 0 {
                            assert(programs[j] == rest[j - 1]);
                        }
                    }
                },
            }
        } else {
            assert(programs[0].name@ == name);
        }
    }
}

} // verus!
