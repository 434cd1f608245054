//! Translation of source text into a flat sequence of instructions whose
//! bracket pairs point at each other.
use vstd::prelude::*;

verus! {

/// One step of a compiled program. A jump's operand is the index of its partner.
#[derive(Debug, Clone, Copy, PartialEq, Eq, Structural)]
pub enum Instruction {
    Read,
    FlipBit,
    JmpF(usize),
    JmpT(usize),
    Write,
    IncP,
    DecP,
}

/// The characters that stand for an instruction; all others are comments.
pub open spec fn is_command(c: char) -> bool {
    c == '>' || c == '<' || c == '+' || c == ';' || c == ',' || c == '[' || c == ']'
}

/// The commands of `s`, in order, with every other character left out.
pub open spec fn commands(s: Seq<char>) -> Seq<char>
    decreases s.len(),
{
    if s.len() == 0 {
        Seq::empty()
    } else if is_command(s.last()) {
        commands(s.drop_last()).push(s.last())
    } else {
        commands(s.drop_last())
    }
}

/// The number of `[` in `s` less the number of `]`.
pub open spec fn depth(s: Seq<char>) -> int
    decreases s.len(),
{
    if s.len() == 0 {
        0
    } else {
        depth(s.drop_last()) + if s.last() == '[' {
            1int
        } else if s.last() == ']' {
            -1int
        } else {
            0int
        }
    }
}

/// Every `]` of `s` closes an earlier `[`, and every `[` is closed.
pub open spec fn balanced(s: Seq<char>) -> bool {
    &&& forall|k: int| 0 <= k <= s.len() ==> depth(#[trigger] s.take(k)) >= 0
    &&& depth(s) == 0
}

/// The instruction `i` is what command `c` compiles to, jump operands aside.
pub open spec fn encodes(c: char, i: Instruction) -> bool {
    if c == '>' {
        i == Instruction::IncP
    } else if c == '<' {
        i == Instruction::DecP
    } else if c == '+' {
        i == Instruction::FlipBit
    } else if c == ';' {
        i == Instruction::Write
    } else if c == ',' {
        i == Instruction::Read
    } else if c == '[' {
        i is JmpF
    } else {
        i is JmpT
    }
}

/// Each forward jump at `i` targets a later backward jump that targets `i`, and the other way round.
pub open spec fn jumps_paired(p: Seq<Instruction>) -> bool {
    forall|i: int|
        0 <= i < p.len() ==> {
            &&& (#[trigger] p[i] is JmpF ==> {
                &&& i < p[i]->JmpF_0 < p.len()
                &&& p[p[i]->JmpF_0 as int] is JmpT && p[p[i]->JmpF_0 as int]->JmpT_0 == i
            })
            &&& (p[i] is JmpT ==> {
                &&& p[i]->JmpT_0 < i
                &&& p[p[i]->JmpT_0 as int] is JmpF && p[p[i]->JmpT_0 as int]->JmpF_0 == i
            })
        }
}

/// No two jump pairs cross: a pair that opens inside another also closes inside it.
pub open spec fn jumps_nested(p: Seq<Instruction>) -> bool {
    forall|i: int, j: int|
        0 <= i < j < p.len() && #[trigger] p[i] is JmpF && #[trigger] p[j] is JmpF && j
            < p[i]->JmpF_0 ==> p[j]->JmpF_0 < p[i]->JmpF_0
}

/// `p` is the compiled form of source text `s`.
pub open spec fn compiles_to(s: Seq<char>, p: Seq<Instruction>) -> bool {
    &&& p.len() == commands(s).len()
    &&& forall|k: int| 0 <= k < p.len() ==> encodes(#[trigger] commands(s)[k], p[k])
    &&& jumps_paired(p)
    &&& jumps_nested(p)
}

/// A compiled program.
#[derive(Debug)]
pub struct Program {
    instructions: Vec<Instruction>,
}

impl View for Program {
    type V = Seq<Instruction>;

    closed spec fn view(&self) -> Seq<Instruction> {
        self.instructions@
    }
}

impl Program {
    /// The number of instructions.
    pub fn len(&self) -> (r: usize)
        ensures
            r == self@.len(),
    {
        self.instructions.len()
    }

    /// The instruction at index `i`.
    pub fn get(&self, i: usize) -> (r: Instruction)
        requires
            i < self@.len(),
        ensures
            r == self@[i as int],
    {
        self.instructions[i]
    }

    /// Compiles source text in one pass, matching brackets with a stack of open ones.
    pub fn compile(code: &str) -> (r: Program)
        requires
            balanced(code@),
        ensures
            compiles_to(code@, r@),
            jumps_paired(r@),
    {
        let mut jumps: Vec<usize> = Vec::new();
        let mut instructions: Vec<Instruction> = Vec::new();
        for c in it: code.chars()
            invariant
                it.seq() == code@,
                balanced(code@),
                compiling(code@.take(it.index() as int), instructions@, jumps@),
        {
            let ghost pre = code@.take(it.index() as int);
            let ghost p0 = instructions@;
            let ghost j0 = jumps@;
            let emitted = instructions.len();
            proof {
                assert(code@.take(it.index() + 1).drop_last() =~= pre);
                assert(code@.take(it.index() + 1).last() == c);
                assert(depth(code@.take(it.index() + 1)) >= 0);
            }
            if c == '[' {
                jumps.push(emitted);
                instructions.push(Instruction::JmpF(0));
                proof {
                    lemma_open(pre, p0, j0, instructions@, jumps@);
                }
            } else if c == ']' {
                let open = jumps.pop().unwrap();
                instructions.set(open, Instruction::JmpF(emitted));
                instructions.push(Instruction::JmpT(open));
                proof {
                    lemma_close(pre, p0, j0, instructions@, jumps@);
                }
            } else {
                if c == '>' {
                    instructions.push(Instruction::IncP);
                } else if c == '<' {
                    instructions.push(Instruction::DecP);
                } else if c == '+' {
                    instructions.push(Instruction::FlipBit);
                } else if c == ';' {
                    instructions.push(Instruction::Write);
                } else if c == ',' {
                    instructions.push(Instruction::Read);
                }
                proof {
                    lemma_plain(pre, c, p0, j0, instructions@);
                }
            }
        }
        proof {
            assert(code@.take(code@.len() as int) =~= code@);
        }
        Program { instructions }
    }
}

/// Compilation is determined by the source text: two instruction sequences that are
/// both a compiled form of the same text are equal, jump targets included.
pub proof fn lemma_compile_unique(s: Seq<char>, p1: Seq<Instruction>, p2: Seq<Instruction>)
    requires
        compiles_to(s, p1),
        compiles_to(s, p2),
    ensures
        p1 == p2,
{
    assert forall|k: int| 0 <= k < p1.len() implies p1[k] == p2[k] by {
        assert(encodes(commands(s)[k], p1[k]) && encodes(commands(s)[k], p2[k]));
        if p1[k] is JmpT {
            lemma_same_partner(s, p1, p2, k);
        } else if p1[k] is JmpF {
            let t = p1[k]->JmpF_0 as int;
            lemma_same_partner(s, p1, p2, t);
        }
    }
    assert(p1 =~= p2);
}

/// A backward jump has the same target in any two compiled forms of one text.
proof fn lemma_same_partner(s: Seq<char>, p1: Seq<Instruction>, p2: Seq<Instruction>, c: int)
    requires
        compiles_to(s, p1),
        compiles_to(s, p2),
        0 <= c < p1.len(),
        p1[c] is JmpT,
    ensures
        p2[c] is JmpT,
        p2[c]->JmpT_0 == p1[c]->JmpT_0,
    decreases c,
{
    assert(encodes(commands(s)[c], p1[c]) && encodes(commands(s)[c], p2[c]));
    let o1 = p1[c]->JmpT_0 as int;
    let o2 = p2[c]->JmpT_0 as int;
    if o1 < o2 {
        assert(encodes(commands(s)[o2], p1[o2]) && encodes(commands(s)[o2], p2[o2]));
        assert(p1[o1] is JmpF && p1[o2] is JmpF);
        let d = p1[o2]->JmpF_0 as int;
        lemma_same_partner(s, p1, p2, d);
    } else if o2 < o1 {
        assert(encodes(commands(s)[o1], p1[o1]) && encodes(commands(s)[o1], p2[o1]));
        assert(p2[o2] is JmpF && p2[o1] is JmpF);
        let d = p2[o1]->JmpF_0 as int;
        lemma_same_partner(s, p2, p1, d);
    }
}

/// The state of the compiler after reading `pre`: `p` is emitted so far and `open`
/// holds, in increasing order, the indices of the forward jumps not yet closed.
spec fn compiling(pre: Seq<char>, p: Seq<Instruction>, open: Seq<usize>) -> bool {
    &&& p.len() == commands(pre).len()
    &&& forall|k: int| 0 <= k < p.len() ==> encodes(#[trigger] commands(pre)[k], p[k])
    &&& open.len() == depth(pre)
    &&& open_sorted(p, open)
    &&& jumps_resolved(p, open)
    &&& closed_nested(p, open)
}

spec fn open_sorted(p: Seq<Instruction>, open: Seq<usize>) -> bool {
    &&& forall|m: int, n: int| 0 <= m < n < open.len() ==> open[m] < open[n]
    &&& forall|m: int|
        0 <= m < open.len() ==> #[trigger] open[m] < p.len() && p[open[m] as int] is JmpF
}

/// Every jump but the open ones has its partner, and no open one lies inside a closed pair.
spec fn jumps_resolved(p: Seq<Instruction>, open: Seq<usize>) -> bool {
    forall|i: int|
        0 <= i < p.len() ==> {
            &&& (#[trigger] p[i] is JmpF && !open.contains(i as usize) ==> {
                &&& i < p[i]->JmpF_0 < p.len()
                &&& p[p[i]->JmpF_0 as int] is JmpT && p[p[i]->JmpF_0 as int]->JmpT_0 == i
                &&& forall|m: int| 0 <= m < open.len() ==> !(i < #[trigger] open[m] < p[i]->JmpF_0)
            })
            &&& (p[i] is JmpT ==> {
                &&& p[i]->JmpT_0 < i
                &&& p[p[i]->JmpT_0 as int] is JmpF && p[p[i]->JmpT_0 as int]->JmpF_0 == i
                &&& !open.contains(p[i]->JmpT_0)
            })
        }
}

spec fn closed_nested(p: Seq<Instruction>, open: Seq<usize>) -> bool {
    forall|i: int, j: int|
        0 <= i < j < p.len() && #[trigger] p[i] is JmpF && #[trigger] p[j] is JmpF
            && !open.contains(i as usize) && !open.contains(j as usize) && j < p[i]->JmpF_0
            ==> p[j]->JmpF_0 < p[i]->JmpF_0
}

proof fn lemma_push_command(pre: Seq<char>, c: char)
    ensures
        pre.push(c).drop_last() == pre,
        pre.push(c).last() == c,
        commands(pre.push(c)) == if is_command(c) {
            commands(pre).push(c)
        } else {
            commands(pre)
        },
        depth(pre.push(c)) == depth(pre) + if c == '[' {
            1int
        } else if c == ']' {
            -1int
        } else {
            0int
        },
{
    assert(pre.push(c).drop_last() =~= pre);
}

/// Emitting an instruction that is no jump keeps the compiler state consistent.
proof fn lemma_plain(pre: Seq<char>, c: char, p0: Seq<Instruction>, open: Seq<usize>, p: Seq<Instruction>)
    requires
        compiling(pre, p0, open),
        c != '[' && c != ']',
        is_command(c) ==> p.len() == p0.len() + 1 && p.drop_last() =~= p0 && encodes(c, p.last()),
        !is_command(c) ==> p == p0,
        p0.len() <= usize::MAX,
    ensures
        compiling(pre.push(c), p, open),
{
    lemma_push_command(pre, c);
    if is_command(c) {
        assert(p =~= p0.push(p.last()));
        let q = pre.push(c);
        assert forall|k: int| 0 <= k < p.len() implies encodes(#[trigger] commands(q)[k], p[k]) by {
            if k < p0.len() {
                assert(commands(q)[k] == commands(pre)[k]);
            }
        }
        lemma_push_plain(p0, open, p);
    }
}

proof fn lemma_push_plain(p0: Seq<Instruction>, open: Seq<usize>, p: Seq<Instruction>)
    requires
        open_sorted(p0, open),
        jumps_resolved(p0, open),
        closed_nested(p0, open),
        p.len() == p0.len() + 1,
        p.drop_last() =~= p0,
        !(p.last() is JmpF),
        !(p.last() is JmpT),
    ensures
        open_sorted(p, open),
        jumps_resolved(p, open),
        closed_nested(p, open),
{
    assert forall|m: int| 0 <= m < open.len() implies #[trigger] open[m] < p.len() && p[open[m] as int] is JmpF by {
        assert(p[open[m] as int] == p0[open[m] as int]);
    }
    assert forall|i: int| 0 <= i < p.len() implies {
        &&& (#[trigger] p[i] is JmpF && !open.contains(i as usize) ==> {
            &&& i < p[i]->JmpF_0 < p.len()
            &&& p[p[i]->JmpF_0 as int] is JmpT && p[p[i]->JmpF_0 as int]->JmpT_0 == i
            &&& forall|m: int| 0 <= m < open.len() ==> !(i < #[trigger] open[m] < p[i]->JmpF_0)
        })
        &&& (p[i] is JmpT ==> {
            &&& p[i]->JmpT_0 < i
            &&& p[p[i]->JmpT_0 as int] is JmpF && p[p[i]->JmpT_0 as int]->JmpF_0 == i
            &&& !open.contains(p[i]->JmpT_0)
        })
    } by {
        if i < p0.len() {
            assert(p[i] == p0[i]);
            if p[i] is JmpF && !open.contains(i as usize) {
                assert(p[p[i]->JmpF_0 as int] == p0[p0[i]->JmpF_0 as int]);
            }
            if p[i] is JmpT {
                assert(p[p[i]->JmpT_0 as int] == p0[p0[i]->JmpT_0 as int]);
            }
        }
    }
    assert forall|i: int, j: int|
        0 <= i < j < p.len() && #[trigger] p[i] is JmpF && #[trigger] p[j] is JmpF
            && !open.contains(i as usize) && !open.contains(j as usize) && j < p[i]->JmpF_0
        implies p[j]->JmpF_0 < p[i]->JmpF_0 by {
        assert(p[i] == p0[i] && p[j] == p0[j]);
    }
}

/// Emitting a forward jump with an unknown target and marking it open keeps the
/// compiler state consistent.
proof fn lemma_open(pre: Seq<char>, p0: Seq<Instruction>, j0: Seq<usize>, p: Seq<Instruction>, open: Seq<usize>)
    requires
        compiling(pre, p0, j0),
        p == p0.push(Instruction::JmpF(0)),
        open == j0.push(p0.len() as usize),
        p0.len() <= usize::MAX,
    ensures
        compiling(pre.push('['), p, open),
{
    let n = p0.len();
    lemma_push_command(pre, '[');
    let q = pre.push('[');
    assert forall|k: int| 0 <= k < p.len() implies encodes(#[trigger] commands(q)[k], p[k]) by {
        if k < n {
            assert(commands(q)[k] == commands(pre)[k]);
        }
    }
    assert forall|x: usize| open.contains(x) <==> (j0.contains(x) || x == n) by {
        if open.contains(x) {
            let m = choose|m: int| 0 <= m < open.len() && open[m] == x;
            if m < j0.len() {
                assert(j0[m] == x);
            }
        }
        if j0.contains(x) {
            let m = choose|m: int| 0 <= m < j0.len() && j0[m] == x;
            assert(open[m] == x);
        }
        if x == n {
            assert(open[open.len() - 1] == x);
        }
    }
    assert forall|m: int| 0 <= m < open.len() implies #[trigger] open[m] < p.len() && p[open[m] as int] is JmpF by {
        if m < j0.len() {
            assert(open[m] == j0[m]);
        }
    }
    assert forall|m: int, k: int| 0 <= m < k < open.len() implies open[m] < open[k] by {
        assert(open[m] == j0[m]);
        if k < j0.len() {
            assert(open[k] == j0[k]);
        }
    }
    assert forall|i: int| 0 <= i < p.len() implies {
        &&& (#[trigger] p[i] is JmpF && !open.contains(i as usize) ==> {
            &&& i < p[i]->JmpF_0 < p.len()
            &&& p[p[i]->JmpF_0 as int] is JmpT && p[p[i]->JmpF_0 as int]->JmpT_0 == i
            &&& forall|m: int| 0 <= m < open.len() ==> !(i < #[trigger] open[m] < p[i]->JmpF_0)
        })
        &&& (p[i] is JmpT ==> {
            &&& p[i]->JmpT_0 < i
            &&& p[p[i]->JmpT_0 as int] is JmpF && p[p[i]->JmpT_0 as int]->JmpF_0 == i
            &&& !open.contains(p[i]->JmpT_0)
        })
    } by {
        if i < n {
            assert(p[i] == p0[i]);
            if p[i] is JmpF && !open.contains(i as usize) {
                assert forall|m: int| 0 <= m < open.len() implies !(i < #[trigger] open[m] < p[i]->JmpF_0) by {
                    if m < j0.len() {
                        assert(open[m] == j0[m]);
                    }
                }
            }
        }
    }
    assert forall|i: int, j: int|
        0 <= i < j < p.len() && #[trigger] p[i] is JmpF && #[trigger] p[j] is JmpF
            && !open.contains(i as usize) && !open.contains(j as usize) && j < p[i]->JmpF_0
        implies p[j]->JmpF_0 < p[i]->JmpF_0 by {
        assert(p[i] == p0[i] && p[j] == p0[j]);
    }
}

/// Removing the last of a strictly increasing sequence removes exactly that value.
proof fn lemma_pop_open(j0: Seq<usize>, open: Seq<usize>)
    requires
        j0.len() > 0,
        open == j0.drop_last(),
        forall|m: int, n: int| 0 <= m < n < j0.len() ==> j0[m] < j0[n],
    ensures
        forall|x: usize| #[trigger] j0.contains(x) <==> (open.contains(x) || x == j0.last()),
        !open.contains(j0.last()),
        forall|m: int| 0 <= m < open.len() ==> #[trigger] open[m] == j0[m] && open[m] < j0.last(),
{
    let s = j0.last();
    assert forall|x: usize| #[trigger] j0.contains(x) <==> (open.contains(x) || x == s) by {
        if j0.contains(x) {
            let m = choose|m: int| 0 <= m < j0.len() && j0[m] == x;
            if m < open.len() {
                assert(open[m] == x);
            }
        }
        if open.contains(x) {
            let m = choose|m: int| 0 <= m < open.len() && open[m] == x;
            assert(j0[m] == x);
        }
        if x == s {
            assert(j0[j0.len() - 1] == x);
        }
    }
    assert forall|m: int| 0 <= m < open.len() implies #[trigger] open[m] == j0[m] && open[m] < s by {
        assert(j0[m] < j0[j0.len() - 1]);
    }
}

/// Closing the innermost open forward jump keeps the compiler state consistent.
proof fn lemma_close(pre: Seq<char>, p0: Seq<Instruction>, j0: Seq<usize>, p: Seq<Instruction>, open: Seq<usize>)
    requires
        compiling(pre, p0, j0),
        j0.len() > 0,
        open == j0.drop_last(),
        p == p0.update(j0.last() as int, Instruction::JmpF(p0.len() as usize)).push(
            Instruction::JmpT(j0.last()),
        ),
        p0.len() <= usize::MAX,
    ensures
        compiling(pre.push(']'), p, open),
{
    let n = p0.len();
    lemma_push_command(pre, ']');
    let q = pre.push(']');
    assert forall|k: int| 0 <= k < p.len() implies encodes(#[trigger] commands(q)[k], p[k]) by {
        if k < n {
            assert(commands(q)[k] == commands(pre)[k]);
        }
    }
    lemma_pop_open(j0, open);
    lemma_close_resolved(p0, j0, p, open);
    lemma_close_nested(p0, j0, p, open);
}

proof fn lemma_close_resolved(p0: Seq<Instruction>, j0: Seq<usize>, p: Seq<Instruction>, open: Seq<usize>)
    requires
        open_sorted(p0, j0),
        jumps_resolved(p0, j0),
        j0.len() > 0,
        open == j0.drop_last(),
        p == p0.update(j0.last() as int, Instruction::JmpF(p0.len() as usize)).push(
            Instruction::JmpT(j0.last()),
        ),
        p0.len() <= usize::MAX,
        forall|x: usize| #[trigger] j0.contains(x) <==> (open.contains(x) || x == j0.last()),
        !open.contains(j0.last()),
        forall|m: int| 0 <= m < open.len() ==> #[trigger] open[m] == j0[m] && open[m] < j0.last(),
    ensures
        open_sorted(p, open),
        jumps_resolved(p, open),
{
    let s = j0.last();
    let n = p0.len();
    assert(p0[s as int] is JmpF);
    assert forall|m: int| 0 <= m < open.len() implies #[trigger] open[m] < p.len() && p[open[m] as int] is JmpF by {
        assert(j0[m] == open[m]);
    }
    assert forall|i: int| 0 <= i < p.len() && #[trigger] p[i] is JmpT implies {
        &&& p[i]->JmpT_0 < i
        &&& p[p[i]->JmpT_0 as int] is JmpF && p[p[i]->JmpT_0 as int]->JmpF_0 == i
        &&& !open.contains(p[i]->JmpT_0)
    } by {
        if i < n {
            assert(p0[i] is JmpT);
            assert(p0[i]->JmpT_0 != s);
        }
    }
    assert forall|i: int| 0 <= i < p.len() && #[trigger] p[i] is JmpF && !open.contains(i as usize) implies {
        &&& i < p[i]->JmpF_0 < p.len()
        &&& p[p[i]->JmpF_0 as int] is JmpT && p[p[i]->JmpF_0 as int]->JmpT_0 == i
        &&& forall|m: int| 0 <= m < open.len() ==> !(i < #[trigger] open[m] < p[i]->JmpF_0)
    } by {
        assert(i < n);
        if i != s {
            assert(p0[i] == p[i]);
            assert(!j0.contains(i as usize));
            let t = p0[i]->JmpF_0 as int;
            assert(p0[t] is JmpT);
            assert(p[t] == p0[t]);
            assert forall|m: int| 0 <= m < open.len() implies !(i < #[trigger] open[m] < p[i]->JmpF_0) by {
                assert(j0[m] == open[m]);
            }
        }
    }
}

proof fn lemma_close_nested(p0: Seq<Instruction>, j0: Seq<usize>, p: Seq<Instruction>, open: Seq<usize>)
    requires
        open_sorted(p0, j0),
        jumps_resolved(p0, j0),
        closed_nested(p0, j0),
        j0.len() > 0,
        open == j0.drop_last(),
        p == p0.update(j0.last() as int, Instruction::JmpF(p0.len() as usize)).push(
            Instruction::JmpT(j0.last()),
        ),
        p0.len() <= usize::MAX,
        forall|x: usize| #[trigger] j0.contains(x) <==> (open.contains(x) || x == j0.last()),
        !open.contains(j0.last()),
    ensures
        closed_nested(p, open),
{
    let s = j0.last();
    let n = p0.len();
    assert(p0[s as int] is JmpF);
    assert forall|i: int, j: int|
        0 <= i < j < p.len() && #[trigger] p[i] is JmpF && #[trigger] p[j] is JmpF
            && !open.contains(i as usize) && !open.contains(j as usize) && j < p[i]->JmpF_0
        implies p[j]->JmpF_0 < p[i]->JmpF_0 by {
        assert(i < n && j < n);
        if i != s && j != s {
            assert(p0[i] == p[i] && p0[j] == p[j]);
            assert(!j0.contains(i as usize) && !j0.contains(j as usize));
        } else if j == s {
            // the pair at i closed before s did, and s does not lie inside it
            assert(p0[i] == p[i]);
            assert(!j0.contains(i as usize));
            assert(j0.contains(s)) by {
                assert(j0[j0.len() - 1] == s);
            }
        }
    }
}

} // verus!
