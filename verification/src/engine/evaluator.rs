use super::Instruction;
use crate::helper::safe_add;
use std::collections::VecDeque;
use vstd::prelude::*;

verus! {

/// An error while running the matching machine.
#[derive(Debug, Clone, Copy, PartialEq, Eq, Structural)]
pub enum EvalError {
    PCOverFlow,
    SPOverFlow,
    InvalidPC,
    InvalidContext,
}

/// Depth-first run from `(pc, sp)` with at most `fuel` nested steps; `None`
/// when the fuel runs out. At a split the first address is tried first, and
/// the second one only when the first fails to match.
pub open spec fn dfs(inst: Seq<Instruction>, line: Seq<char>, pc: int, sp: int, fuel: nat) -> Option<
    Result<bool, EvalError>,
>
    decreases fuel,
{
    if fuel == 0 {
        None
    } else if !(0 <= pc < inst.len()) {
        Some(Err(EvalError::InvalidPC))
    } else {
        match inst[pc] {
            Instruction::Char(c) => {
                if 0 <= sp < line.len() && line[sp] == c {
                    dfs(inst, line, pc + 1, sp + 1, (fuel - 1) as nat)
                } else {
                    Some(Ok(false))
                }
            },
            Instruction::Match => Some(Ok(true)),
            Instruction::Jump(addr) => dfs(inst, line, addr as int, sp, (fuel - 1) as nat),
            Instruction::Split(addr1, addr2) => {
                match dfs(inst, line, addr1 as int, sp, (fuel - 1) as nat) {
                    Some(Ok(false)) => dfs(inst, line, addr2 as int, sp, (fuel - 1) as nat),
                    other => other,
                }
            },
        }
    }
}

/// The depth-first run from the start of the program and of the line ends.
pub open spec fn depth_terminates(inst: Seq<Instruction>, line: Seq<char>) -> bool {
    exists|fuel: nat| #[trigger] dfs(inst, line, 0, 0, fuel) is Some
}

/// The result of the depth-first run from the start.
pub open spec fn depth_result(inst: Seq<Instruction>, line: Seq<char>) -> Result<bool, EvalError> {
    dfs(inst, line, 0, 0, choose|fuel: nat| #[trigger] dfs(inst, line, 0, 0, fuel) is Some).unwrap()
}

/// Depth-first matching from `(pc, sp)`.
fn eval_depth(inst: &[Instruction], line: &[char], pc: usize, sp: usize, Ghost(fuel): Ghost<nat>) -> (r:
    Result<bool, EvalError>)
    requires
        dfs(inst@, line@, pc as int, sp as int, fuel) is Some,
    ensures
        Some(r) == dfs(inst@, line@, pc as int, sp as int, fuel),
    decreases fuel,
{
    let ghost outcome = dfs(inst@, line@, pc as int, sp as int, fuel);
    let mut cur_pc = pc;
    let mut cur_sp = sp;
    let ghost mut f = fuel;
    loop
        invariant
            dfs(inst@, line@, cur_pc as int, cur_sp as int, f) == outcome,
            outcome == dfs(inst@, line@, pc as int, sp as int, fuel),
            outcome is Some,
            f <= fuel,
        decreases f,
    {
        let next = if let Some(i) = inst.get(cur_pc) {
            i
        } else {
            return Err(EvalError::InvalidPC);
        };
        match next {
            Instruction::Char(c) => {
                if let Some(sp_c) = line.get(cur_sp) {
                    if c == sp_c {
                        safe_add(&mut cur_pc, &1, || EvalError::PCOverFlow)?;
                        safe_add(&mut cur_sp, &1, || EvalError::SPOverFlow)?;
                        proof {
                            f = (f - 1) as nat;
                        }
                    } else {
                        return Ok(false);
                    }
                } else {
                    return Ok(false);
                }
            },
            Instruction::Match => {
                return Ok(true);
            },
            Instruction::Jump(addr) => {
                cur_pc = *addr;
                proof {
                    f = (f - 1) as nat;
                }
            },
            Instruction::Split(addr1, addr2) => {
                if eval_depth(inst, line, *addr1, cur_sp, Ghost((f - 1) as nat))? || eval_depth(
                    inst,
                    line,
                    *addr2,
                    cur_sp,
                    Ghost((f - 1) as nat),
                )? {
                    return Ok(true);
                } else {
                    return Ok(false);
                }
            },
        }
    }
}

/// How one thread of the breadth-first run ends.
pub enum ThreadEnd {
    /// A character did not match: the thread dies.
    Dead,
    /// The thread reached `Match`.
    Matched,
    /// The thread stopped on an error.
    Failed(EvalError),
    /// The thread reached a split at the given addresses, at the given position.
    Forked(usize, usize, usize),
}

/// Runs one thread from `(pc, sp)` until it dies, matches, fails or splits;
/// `None` when it takes `fuel` steps or more.
pub open spec fn run_thread(inst: Seq<Instruction>, line: Seq<char>, pc: int, sp: int, fuel: nat) -> Option<
    ThreadEnd,
>
    decreases fuel,
{
    if fuel == 0 {
        None
    } else if !(0 <= pc < inst.len()) {
        Some(ThreadEnd::Failed(EvalError::InvalidPC))
    } else {
        match inst[pc] {
            Instruction::Char(c) => {
                if 0 <= sp < line.len() && line[sp] == c {
                    run_thread(inst, line, pc + 1, sp + 1, (fuel - 1) as nat)
                } else {
                    Some(ThreadEnd::Dead)
                }
            },
            Instruction::Match => Some(ThreadEnd::Matched),
            Instruction::Jump(addr) => run_thread(inst, line, addr as int, sp, (fuel - 1) as nat),
            Instruction::Split(addr1, addr2) => Some(ThreadEnd::Forked(addr1, addr2, sp as usize)),
        }
    }
}

/// Breadth-first run over a queue of threads `(pc, sp)`: the front thread runs
/// until it ends, and a split puts both of its branches at the back. `None`
/// when more than `fuel` threads, or a thread of `fuel` steps, would be needed.
pub open spec fn bfs(inst: Seq<Instruction>, line: Seq<char>, queue: Seq<(usize, usize)>, fuel: nat) -> Option<
    Result<bool, EvalError>,
>
    decreases fuel,
{
    if fuel == 0 {
        None
    } else if queue.len() == 0 {
        Some(Ok(false))
    } else {
        match run_thread(inst, line, queue[0].0 as int, queue[0].1 as int, fuel) {
            None => None,
            Some(ThreadEnd::Matched) => Some(Ok(true)),
            Some(ThreadEnd::Failed(e)) => Some(Err(e)),
            Some(ThreadEnd::Dead) => bfs(inst, line, queue.drop_first(), (fuel - 1) as nat),
            Some(ThreadEnd::Forked(addr1, addr2, sp)) => bfs(
                inst,
                line,
                queue.drop_first().push((addr1, sp)).push((addr2, sp)),
                (fuel - 1) as nat,
            ),
        }
    }
}

/// The breadth-first run from the start ends.
pub open spec fn width_terminates(inst: Seq<Instruction>, line: Seq<char>) -> bool {
    exists|fuel: nat| #[trigger] bfs(inst, line, seq![(0usize, 0usize)], fuel) is Some
}

/// The result of the breadth-first run from the start.
pub open spec fn width_result(inst: Seq<Instruction>, line: Seq<char>) -> Result<bool, EvalError> {
    bfs(
        inst,
        line,
        seq![(0usize, 0usize)],
        choose|fuel: nat| #[trigger] bfs(inst, line, seq![(0usize, 0usize)], fuel) is Some,
    ).unwrap()
}

/// Breadth-first matching from the start of the program and of the line.
fn eval_width(inst: &[Instruction], line: &[char], Ghost(fuel): Ghost<nat>) -> (r: Result<
    bool,
    EvalError,
>)
    requires
        bfs(inst@, line@, seq![(0usize, 0usize)], fuel) is Some,
    ensures
        Some(r) == bfs(inst@, line@, seq![(0usize, 0usize)], fuel),
{
    let ghost outcome = bfs(inst@, line@, seq![(0usize, 0usize)], fuel);
    let mut queue: VecDeque<(usize, usize)> = VecDeque::new();
    queue.push_back((0, 0));
    assert(queue@ =~= seq![(0usize, 0usize)]);
    let ghost mut f = fuel;
    loop
        invariant
            bfs(inst@, line@, queue@, f) == outcome,
            outcome == bfs(inst@, line@, seq![(0usize, 0usize)], fuel),
            outcome is Some,
        decreases f,
    {
        let ghost q = queue@;
        let (mut pc, mut sp) = match queue.pop_front() {
            Some(t) => t,
            None => {
                return Ok(false);
            },
        };
        let ghost thread_end = run_thread(inst@, line@, pc as int, sp as int, f);
        let ghost mut g = f;
        loop
            invariant_except_break
                run_thread(inst@, line@, pc as int, sp as int, g) == thread_end,
                queue@ == q.drop_first(),
            invariant
                thread_end == run_thread(inst@, line@, q[0].0 as int, q[0].1 as int, f),
                thread_end is Some,
                bfs(inst@, line@, q, f) == outcome,
                outcome == bfs(inst@, line@, seq![(0usize, 0usize)], fuel),
                q.len() > 0,
                f > 0,
            ensures
                bfs(inst@, line@, queue@, (f - 1) as nat) == outcome,
            decreases g,
        {
            let next = inst.get(pc).ok_or(EvalError::InvalidPC)?;
            match next {
                Instruction::Char(c) => {
                    if let Some(sp_c) = line.get(sp) {
                        if c == sp_c {
                            safe_add(&mut pc, &1, || EvalError::PCOverFlow)?;
                            safe_add(&mut sp, &1, || EvalError::SPOverFlow)?;
                            proof {
                                g = (g - 1) as nat;
                            }
                        } else {
                            break ;
                        }
                    } else {
                        break ;
                    }
                },
                Instruction::Match => {
                    return Ok(true);
                },
                Instruction::Jump(addr) => {
                    pc = *addr;
                    proof {
                        g = (g - 1) as nat;
                    }
                },
                Instruction::Split(addr1, addr2) => {
                    queue.push_back((*addr1, sp));
                    queue.push_back((*addr2, sp));
                    break ;
                },
            }
        }
        proof {
            f = (f - 1) as nat;
        }
    }
}

/// The program accepts the line from `(pc, sp)` within `n` steps: some choice
/// at the splits leads to `Match`, every character read on the way equal to
/// the line's character at that point.
pub open spec fn accepts_within(inst: Seq<Instruction>, line: Seq<char>, pc: int, sp: int, n: nat) -> bool
    decreases n,
{
    if n == 0 || !(0 <= pc < inst.len()) {
        false
    } else {
        match inst[pc] {
            Instruction::Char(c) => 0 <= sp < line.len() && line[sp] == c && accepts_within(
                inst,
                line,
                pc + 1,
                sp + 1,
                (n - 1) as nat,
            ),
            Instruction::Match => true,
            Instruction::Jump(addr) => accepts_within(inst, line, addr as int, sp, (n - 1) as nat),
            Instruction::Split(addr1, addr2) => accepts_within(
                inst,
                line,
                addr1 as int,
                sp,
                (n - 1) as nat,
            ) || accepts_within(inst, line, addr2 as int, sp, (n - 1) as nat),
        }
    }
}

/// The program accepts the line from `(pc, sp)` in some number of steps.
pub open spec fn accepts_from(inst: Seq<Instruction>, line: Seq<char>, pc: int, sp: int) -> bool {
    exists|n: nat| #[trigger] accepts_within(inst, line, pc, sp, n)
}

/// The program accepts the line from the start of both.
pub open spec fn matches(inst: Seq<Instruction>, line: Seq<char>) -> bool {
    accepts_from(inst, line, 0, 0)
}

/// What the depth-first run answers is what the program accepts.
proof fn lemma_dfs_accepts(inst: Seq<Instruction>, line: Seq<char>, pc: int, sp: int, fuel: nat)
    ensures
        dfs(inst, line, pc, sp, fuel) == Some(Ok::<bool, EvalError>(true)) ==> accepts_within(
            inst,
            line,
            pc,
            sp,
            fuel,
        ),
        dfs(inst, line, pc, sp, fuel) == Some(Ok::<bool, EvalError>(false)) ==> forall|n: nat|
            !#[trigger] accepts_within(inst, line, pc, sp, n),
    decreases fuel,
{
    if fuel > 0 && 0 <= pc < inst.len() {
        let f1 = (fuel - 1) as nat;
        match inst[pc] {
            Instruction::Char(c) => {
                lemma_dfs_accepts(inst, line, pc + 1, sp + 1, f1);
                if dfs(inst, line, pc, sp, fuel) == Some(Ok::<bool, EvalError>(false)) {
                    assert forall|n: nat| !#[trigger] accepts_within(inst, line, pc, sp, n) by {
                        if n > 0 && 0 <= sp < line.len() && line[sp] == c {
                            assert(!accepts_within(inst, line, pc + 1, sp + 1, (n - 1) as nat));
                        }
                    }
                }
            },
            Instruction::Match => {},
            Instruction::Jump(addr) => {
                lemma_dfs_accepts(inst, line, addr as int, sp, f1);
                if dfs(inst, line, pc, sp, fuel) == Some(Ok::<bool, EvalError>(false)) {
                    assert forall|n: nat| !#[trigger] accepts_within(inst, line, pc, sp, n) by {
                        if n > 0 {
                            assert(!accepts_within(inst, line, addr as int, sp, (n - 1) as nat));
                        }
                    }
                }
            },
            Instruction::Split(addr1, addr2) => {
                lemma_dfs_accepts(inst, line, addr1 as int, sp, f1);
                lemma_dfs_accepts(inst, line, addr2 as int, sp, f1);
                if dfs(inst, line, pc, sp, fuel) == Some(Ok::<bool, EvalError>(false)) {
                    assert forall|n: nat| !#[trigger] accepts_within(inst, line, pc, sp, n) by {
                        if n > 0 {
                            assert(!accepts_within(inst, line, addr1 as int, sp, (n - 1) as nat));
                            assert(!accepts_within(inst, line, addr2 as int, sp, (n - 1) as nat));
                        }
                    }
                }
            },
        }
    }
}

/// A depth-first run that ends without error answers whether the program
/// accepts the line.
pub proof fn lemma_depth_result_matches(inst: Seq<Instruction>, line: Seq<char>)
    requires
        depth_terminates(inst, line),
    ensures
        depth_result(inst, line) matches Ok(b) ==> b == matches(inst, line),
{
    let fuel = choose|fuel: nat| #[trigger] dfs(inst, line, 0, 0, fuel) is Some;
    lemma_dfs_accepts(inst, line, 0, 0, fuel);
}

/// Stepping over a matching character or a jump keeps acceptance.
proof fn lemma_step(inst: Seq<Instruction>, line: Seq<char>, pc: int, sp: int, pc2: int, sp2: int)
    requires
        0 <= pc < inst.len(),
        match inst[pc] {
            Instruction::Char(c) => 0 <= sp < line.len() && line[sp] == c && pc2 == pc + 1 && sp2
                == sp + 1,
            Instruction::Jump(addr) => pc2 == addr && sp2 == sp,
            _ => false,
        },
    ensures
        accepts_from(inst, line, pc, sp) <==> accepts_from(inst, line, pc2, sp2),
{
    if accepts_from(inst, line, pc, sp) {
        let n = choose|n: nat| #[trigger] accepts_within(inst, line, pc, sp, n);
        assert(accepts_within(inst, line, pc2, sp2, (n - 1) as nat));
    }
    if accepts_from(inst, line, pc2, sp2) {
        let m = choose|m: nat| #[trigger] accepts_within(inst, line, pc2, sp2, m);
        assert(accepts_within(inst, line, pc, sp, m + 1));
    }
}

/// How a thread ends tells whether the program accepts from where it started.
proof fn lemma_thread_accepts(inst: Seq<Instruction>, line: Seq<char>, pc: int, sp: int, fuel: nat)
    requires
        0 <= sp <= usize::MAX,
        line.len() <= usize::MAX,
    ensures
        run_thread(inst, line, pc, sp, fuel) matches Some(ThreadEnd::Matched) ==> accepts_from(
            inst,
            line,
            pc,
            sp,
        ),
        run_thread(inst, line, pc, sp, fuel) matches Some(ThreadEnd::Dead) ==> !accepts_from(
            inst,
            line,
            pc,
            sp,
        ),
        run_thread(inst, line, pc, sp, fuel) matches Some(ThreadEnd::Forked(a1, a2, s)) ==> (
        accepts_from(inst, line, pc, sp) <==> (accepts_from(inst, line, a1 as int, s as int)
            || accepts_from(inst, line, a2 as int, s as int))),
    decreases fuel,
{
    if fuel > 0 && 0 <= pc < inst.len() {
        let f1 = (fuel - 1) as nat;
        match inst[pc] {
            Instruction::Char(c) => {
                if 0 <= sp < line.len() && line[sp] == c {
                    lemma_thread_accepts(inst, line, pc + 1, sp + 1, f1);
                    lemma_step(inst, line, pc, sp, pc + 1, sp + 1);
                } else {
                    if accepts_from(inst, line, pc, sp) {
                        let n = choose|n: nat| #[trigger] accepts_within(inst, line, pc, sp, n);
                        assert(!accepts_within(inst, line, pc, sp, n));
                    }
                }
            },
            Instruction::Match => {
                assert(accepts_within(inst, line, pc, sp, 1));
            },
            Instruction::Jump(addr) => {
                lemma_thread_accepts(inst, line, addr as int, sp, f1);
                lemma_step(inst, line, pc, sp, addr as int, sp);
            },
            Instruction::Split(addr1, addr2) => {
                let a1 = addr1;
                let a2 = addr2;
                if accepts_from(inst, line, pc, sp) {
                    let n = choose|n: nat| #[trigger] accepts_within(inst, line, pc, sp, n);
                    assert(accepts_within(inst, line, a1 as int, sp, (n - 1) as nat)
                        || accepts_within(inst, line, a2 as int, sp, (n - 1) as nat));
                }
                if accepts_from(inst, line, a1 as int, sp) {
                    let m = choose|m: nat| #[trigger] accepts_within(inst, line, a1 as int, sp, m);
                    assert(accepts_within(inst, line, pc, sp, m + 1));
                }
                if accepts_from(inst, line, a2 as int, sp) {
                    let m = choose|m: nat| #[trigger] accepts_within(inst, line, a2 as int, sp, m);
                    assert(accepts_within(inst, line, pc, sp, m + 1));
                }
            },
        }
    }
}

/// Some thread of the queue starts where the program accepts.
pub open spec fn some_thread_accepts(inst: Seq<Instruction>, line: Seq<char>, queue: Seq<(usize, usize)>) -> bool {
    exists|j: int| 0 <= j < queue.len() && #[trigger] accepts_from(inst, line, queue[j].0 as int, queue[j].1 as int)
}

/// What the breadth-first run answers is whether the program accepts from one
/// of the queued threads.
proof fn lemma_bfs_accepts(inst: Seq<Instruction>, line: Seq<char>, queue: Seq<(usize, usize)>, fuel: nat)
    requires
        line.len() <= usize::MAX,
    ensures
        bfs(inst, line, queue, fuel) == Some(Ok::<bool, EvalError>(true)) ==> some_thread_accepts(
            inst,
            line,
            queue,
        ),
        bfs(inst, line, queue, fuel) == Some(Ok::<bool, EvalError>(false)) ==> !some_thread_accepts(
            inst,
            line,
            queue,
        ),
    decreases fuel,
{
    if fuel > 0 && queue.len() > 0 {
        let f1 = (fuel - 1) as nat;
        let (pc, sp) = queue[0];
        lemma_thread_accepts(inst, line, pc as int, sp as int, fuel);
        let rest = queue.drop_first();
        match run_thread(inst, line, pc as int, sp as int, fuel) {
            Some(ThreadEnd::Matched) => {
                assert(accepts_from(inst, line, queue[0].0 as int, queue[0].1 as int));
            },
            Some(ThreadEnd::Dead) => {
                lemma_bfs_accepts(inst, line, rest, f1);
                if some_thread_accepts(inst, line, queue) {
                    let j = choose|j: int| 0 <= j < queue.len() && #[trigger] accepts_from(inst, line, queue[j].0 as int, queue[j].1 as int);
                    assert(rest[j - 1] == queue[j]);
                }
                if some_thread_accepts(inst, line, rest) {
                    let j = choose|j: int| 0 <= j < rest.len() && #[trigger] accepts_from(inst, line, rest[j].0 as int, rest[j].1 as int);
                    assert(rest[j] == queue[j + 1]);
                }
            },
            Some(ThreadEnd::Forked(a1, a2, s)) => {
                let next = rest.push((a1, s)).push((a2, s));
                lemma_bfs_accepts(inst, line, next, f1);
                if some_thread_accepts(inst, line, queue) {
                    let j = choose|j: int| 0 <= j < queue.len() && #[trigger] accepts_from(inst, line, queue[j].0 as int, queue[j].1 as int);
                    if j > 0 {
                        assert(next[j - 1] == queue[j]);
                        assert(accepts_from(inst, line, next[j - 1].0 as int, next[j - 1].1 as int));
                    } else if accepts_from(inst, line, a1 as int, s as int) {
                        assert(next[next.len() - 2] == (a1, s));
                        assert(accepts_from(inst, line, next[next.len() - 2].0 as int, next[next.len() - 2].1 as int));
                    } else {
                        assert(accepts_from(inst, line, a2 as int, s as int));
                        assert(next[next.len() - 1] == (a2, s));
                        assert(accepts_from(inst, line, next[next.len() - 1].0 as int, next[next.len() - 1].1 as int));
                    }
                    assert(some_thread_accepts(inst, line, next));
                }
                if some_thread_accepts(inst, line, next) {
                    let j = choose|j: int| 0 <= j < next.len() && #[trigger] accepts_from(inst, line, next[j].0 as int, next[j].1 as int);
                    if j < rest.len() {
                        assert(next[j] == queue[j + 1]);
                    } else {
                        assert(accepts_from(inst, line, queue[0].0 as int, queue[0].1 as int));
                    }
                }
            },
            _ => {},
        }
    }
}

/// A breadth-first run that ends without error answers whether the program
/// accepts the line.
pub proof fn lemma_width_result_matches(inst: Seq<Instruction>, line: Seq<char>)
    requires
        width_terminates(inst, line),
        line.len() <= usize::MAX,
    ensures
        width_result(inst, line) matches Ok(b) ==> b == matches(inst, line),
{
    let start = seq![(0usize, 0usize)];
    let fuel = choose|fuel: nat| #[trigger] bfs(inst, line, start, fuel) is Some;
    lemma_bfs_accepts(inst, line, start, fuel);
    if some_thread_accepts(inst, line, start) {
        let j = choose|j: int| 0 <= j < start.len() && #[trigger] accepts_from(inst, line, start[j].0 as int, start[j].1 as int);
        assert(j == 0);
    }
    if matches(inst, line) {
        assert(accepts_from(inst, line, start[0].0 as int, start[0].1 as int));
    }
}

/// Where both searches end without error, they give the same answer.
pub proof fn lemma_depth_width_agree(inst: Seq<Instruction>, line: Seq<char>)
    requires
        depth_terminates(inst, line),
        width_terminates(inst, line),
        line.len() <= usize::MAX,
        depth_result(inst, line) is Ok,
        width_result(inst, line) is Ok,
    ensures
        depth_result(inst, line) == width_result(inst, line),
{
    lemma_depth_result_matches(inst, line);
    lemma_width_result_matches(inst, line);
}

/// More fuel does not change a depth-first run that ends.
proof fn lemma_dfs_fuel(inst: Seq<Instruction>, line: Seq<char>, pc: int, sp: int, f1: nat, f2: nat)
    requires
        f1 <= f2,
        dfs(inst, line, pc, sp, f1) is Some,
    ensures
        dfs(inst, line, pc, sp, f2) == dfs(inst, line, pc, sp, f1),
    decreases f1,
{
    if 0 <= pc < inst.len() {
        let (g1, g2) = ((f1 - 1) as nat, (f2 - 1) as nat);
        match inst[pc] {
            Instruction::Char(c) => {
                if 0 <= sp < line.len() && line[sp] == c {
                    lemma_dfs_fuel(inst, line, pc + 1, sp + 1, g1, g2);
                }
            },
            Instruction::Match => {},
            Instruction::Jump(addr) => {
                lemma_dfs_fuel(inst, line, addr as int, sp, g1, g2);
            },
            Instruction::Split(addr1, addr2) => {
                lemma_dfs_fuel(inst, line, addr1 as int, sp, g1, g2);
                if dfs(inst, line, addr1 as int, sp, g1) == Some(Ok::<bool, EvalError>(false)) {
                    lemma_dfs_fuel(inst, line, addr2 as int, sp, g1, g2);
                }
            },
        }
    }
}

/// More fuel does not change how a thread that ends, ends.
proof fn lemma_thread_fuel(inst: Seq<Instruction>, line: Seq<char>, pc: int, sp: int, f1: nat, f2: nat)
    requires
        f1 <= f2,
        run_thread(inst, line, pc, sp, f1) is Some,
    ensures
        run_thread(inst, line, pc, sp, f2) == run_thread(inst, line, pc, sp, f1),
    decreases f1,
{
    if 0 <= pc < inst.len() {
        let (g1, g2) = ((f1 - 1) as nat, (f2 - 1) as nat);
        match inst[pc] {
            Instruction::Char(c) => {
                if 0 <= sp < line.len() && line[sp] == c {
                    lemma_thread_fuel(inst, line, pc + 1, sp + 1, g1, g2);
                }
            },
            Instruction::Jump(addr) => {
                lemma_thread_fuel(inst, line, addr as int, sp, g1, g2);
            },
            _ => {},
        }
    }
}

/// More fuel does not change a breadth-first run that ends.
proof fn lemma_bfs_fuel(inst: Seq<Instruction>, line: Seq<char>, queue: Seq<(usize, usize)>, f1: nat, f2: nat)
    requires
        f1 <= f2,
        bfs(inst, line, queue, f1) is Some,
    ensures
        bfs(inst, line, queue, f2) == bfs(inst, line, queue, f1),
    decreases f1,
{
    if queue.len() > 0 {
        let (g1, g2) = ((f1 - 1) as nat, (f2 - 1) as nat);
        lemma_thread_fuel(inst, line, queue[0].0 as int, queue[0].1 as int, f1, f2);
        match run_thread(inst, line, queue[0].0 as int, queue[0].1 as int, f1) {
            Some(ThreadEnd::Dead) => {
                lemma_bfs_fuel(inst, line, queue.drop_first(), g1, g2);
            },
            Some(ThreadEnd::Forked(addr1, addr2, sp)) => {
                lemma_bfs_fuel(inst, line, queue.drop_first().push((addr1, sp)).push((addr2, sp)), g1, g2);
            },
            _ => {},
        }
    }
}

/// The depth-first result does not depend on the fuel: any run that ends
/// gives it.
pub proof fn lemma_depth_result_any_fuel(inst: Seq<Instruction>, line: Seq<char>, fuel: nat)
    requires
        dfs(inst, line, 0, 0, fuel) is Some,
    ensures
        depth_terminates(inst, line),
        depth_result(inst, line) == dfs(inst, line, 0, 0, fuel).unwrap(),
{
    let f0 = choose|f: nat| #[trigger] dfs(inst, line, 0, 0, f) is Some;
    if f0 <= fuel {
        lemma_dfs_fuel(inst, line, 0, 0, f0, fuel);
    } else {
        lemma_dfs_fuel(inst, line, 0, 0, fuel, f0);
    }
}

/// The breadth-first result does not depend on the fuel: any run that ends
/// gives it.
pub proof fn lemma_width_result_any_fuel(inst: Seq<Instruction>, line: Seq<char>, fuel: nat)
    requires
        bfs(inst, line, seq![(0usize, 0usize)], fuel) is Some,
    ensures
        width_terminates(inst, line),
        width_result(inst, line) == bfs(inst, line, seq![(0usize, 0usize)], fuel).unwrap(),
{
    let start = seq![(0usize, 0usize)];
    let f0 = choose|f: nat| #[trigger] bfs(inst, line, start, f) is Some;
    if f0 <= fuel {
        lemma_bfs_fuel(inst, line, start, f0, fuel);
    } else {
        lemma_bfs_fuel(inst, line, start, fuel, f0);
    }
}

/// Matches `line` against the program `inst`, depth first when `is_depth`
/// holds and breadth first otherwise. `Ok(true)` when the line matches,
/// `Ok(false)` when it does not, `Err` on an error while running.
pub fn eval(inst: &[Instruction], line: &[char], is_depth: bool) -> (r: Result<bool, EvalError>)
    requires
        is_depth ==> depth_terminates(inst@, line@),
        !is_depth ==> width_terminates(inst@, line@),
    ensures
        is_depth ==> r == depth_result(inst@, line@),
        !is_depth ==> r == width_result(inst@, line@),
        r matches Ok(b) ==> b == matches(inst@, line@),
{
    if is_depth {
        let ghost fuel = choose|fuel: nat| #[trigger] dfs(inst@, line@, 0, 0, fuel) is Some;
        proof {
            lemma_depth_result_matches(inst@, line@);
        }
        eval_depth(inst, line, 0, 0, Ghost(fuel))
    } else {
        let ghost fuel = choose|fuel: nat| #[trigger] bfs(inst@, line@, seq![(0usize, 0usize)], fuel) is Some;
        let line_len = line.len();
        proof {
            assert(line@.len() == line_len);
            lemma_width_result_matches(inst@, line@);
        }
        eval_width(inst, line, Ghost(fuel))
    }
}

} // verus!
