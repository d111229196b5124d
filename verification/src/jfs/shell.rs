//! Splitting a line of the file system shell into its command and
//! arguments.

use vstd::prelude::*;

verus! {

/// The first space in `b` at or after `from`, or the length of `b`.
pub open spec fn space_from(b: Seq<u8>, from: int) -> int
    decreases b.len() - from,
{
    if from >= b.len() {
        b.len() as int
    } else if b[from] == 32u8 {
        from
    } else {
        space_from(b, from + 1)
    }
}

/// Where a line splits into at most three parts at its spaces: the
/// command is `line[0..cmd_end]`, the first argument
/// `line[arg1_start..arg1_end]`, the rest `line[arg2_start..]`; absent
/// parts are empty.
#[derive(Clone, Copy, Debug, PartialEq, Eq, Structural)]
pub struct CommandSplit {
    pub cmd_end: usize,
    pub arg1_start: usize,
    pub arg1_end: usize,
    pub arg2_start: usize,
}

/// The split of `b` into at most three parts at its first two spaces.
pub open spec fn command_split(b: Seq<u8>) -> CommandSplit {
    let n = b.len() as int;
    let s1 = space_from(b, 0);
    if s1 >= n {
        CommandSplit { cmd_end: n as usize, arg1_start: n as usize, arg1_end: n as usize, arg2_start: n as usize }
    } else {
        let s2 = space_from(b, s1 + 1);
        CommandSplit {
            cmd_end: s1 as usize,
            arg1_start: (s1 + 1) as usize,
            arg1_end: s2 as usize,
            arg2_start: if s2 >= n { n as usize } else { (s2 + 1) as usize },
        }
    }
}

proof fn lemma_space_from(b: Seq<u8>, from: int)
    requires
        0 <= from <= b.len(),
    ensures
        from <= space_from(b, from) <= b.len(),
        space_from(b, from) < b.len() ==> b[space_from(b, from)] == 32u8,
        forall|i: int| from <= i < space_from(b, from) ==> b[i] != 32u8,
    decreases b.len() - from,
{
    if from < b.len() && b[from] != 32u8 {
        lemma_space_from(b, from + 1);
    }
}

/// The first space in `line` at or after `from`, or its length.
fn find_space(line: &[u8], from: usize) -> (i: usize)
    requires
        from <= line@.len(),
    ensures
        i == space_from(line@, from as int),
{
    let mut i = from;
    while i < line.len()
        invariant
            from <= i <= line@.len(),
            space_from(line@, from as int) == space_from(line@, i as int),
        decreases line@.len() - i,
    {
        if line[i] == 32u8 {
            return i;
        }
        i = i + 1;
    }
    i
}

/// Splits a shell line into the command, the first argument and the rest,
/// at its first two spaces (as `splitn(3, ' ')` does).
pub fn split_command(line: &[u8]) -> (s: CommandSplit)
    ensures
        s == command_split(line@),
        s.cmd_end <= s.arg1_start <= line@.len(),
        s.arg1_start <= s.arg1_end <= s.arg2_start <= line@.len(),
        forall|i: int| 0 <= i < s.cmd_end ==> line@[i] != 32u8,
        forall|i: int| s.arg1_start <= i < s.arg1_end ==> line@[i] != 32u8,
{
    let n = line.len();
    proof {
        lemma_space_from(line@, 0);
    }
    let s1 = find_space(line, 0);
    if s1 >= n {
        return CommandSplit { cmd_end: n, arg1_start: n, arg1_end: n, arg2_start: n };
    }
    proof {
        lemma_space_from(line@, s1 + 1);
    }
    let s2 = find_space(line, s1 + 1);
    CommandSplit { cmd_end: s1, arg1_start: s1 + 1, arg1_end: s2, arg2_start: if s2 >= n { n } else { s2 + 1 } }
}

} // verus!
