//! What compiled code does when it runs.

use crate::bpf::{AluOp, Helper, Insn, Reg};
use crate::lowering::{alu, builtin, builtin_width, helper, keep_low, Gen};
use crate::machine::{
    lemma_alu, lemma_call, lemma_helper_numbers, lemma_keep_low, run, step, word, Cpu, Kernel,
};
use vstd::prelude::*;

verus! {

// ----------------------------------------------------------------- builtins

/// The instructions that a step added.
pub open spec fn added(g: Gen, h: Gen) -> Seq<Insn> {
    h.out.code.skip(g.out.code.len() as int)
}

/// The process that a probe runs in, and the time.
pub struct Current {
    pub tgid: u32,
    pub tid: u32,
    pub uid: u32,
    pub gid: u32,
    pub ktime: u64,
}

/// A call that only answers: R6 to R10, the memory and what was done are as they
/// were.
pub open spec fn only_answers(c: Cpu, d: Cpu) -> bool {
    &&& d.mem == c.mem
    &&& d.deeds == c.deeds
    &&& forall|r: int| 6 <= r <= 10 ==> #[trigger] d.regs[r] == c.regs[r]
}

/// The kernel's helpers tell the process: two ids in one register, the group's
/// in the high half.
pub open spec fn tells(k: Kernel, now: Current) -> bool {
    &&& forall|c: Cpu|
        {
            &&& (#[trigger] (k.acts)(14, c)).regs[0] == now.tgid as int * 0x1_0000_0000 + now.tid
            &&& only_answers(c, (k.acts)(14, c))
        }
    &&& forall|c: Cpu|
        {
            &&& (#[trigger] (k.acts)(15, c)).regs[0] == now.gid as int * 0x1_0000_0000 + now.uid
            &&& only_answers(c, (k.acts)(15, c))
        }
    &&& forall|c: Cpu|
        {
            &&& (#[trigger] (k.acts)(5, c)).regs[0] == now.ktime
            &&& only_answers(c, (k.acts)(5, c))
        }
}

/// What a builtin without arguments is worth. A process is known to its user by
/// the id of its thread group.
pub open spec fn builtin_value(now: Current, name: Seq<char>) -> u64 {
    if name == "pid"@ || name == "tgid"@ {
        now.tgid as u64
    } else if name == "tid"@ {
        now.tid as u64
    } else if name == "uid"@ {
        now.uid as u64
    } else if name == "gid"@ {
        now.gid as u64
    } else {
        now.ktime
    }
}

proof fn lemma_halves_of(x: u64, high: u32, low: u32)
    requires
        x == high as int * 0x1_0000_0000 + low,
    ensures
        x >> 32u64 == high as u64,
        x % 0x1_0000_0000 == low,
{
    assert(x >> 32u64 == x / 0x1_0000_0000u64) by (bit_vector);
    assert(x as int / 0x1_0000_0000 == high);
}

pub proof fn lemma_names_differ()
    ensures
        "pid"@ != "tid"@,
        "pid"@ != "uid"@,
        "pid"@ != "gid"@,
        "tgid"@ != "tid"@,
        "tgid"@ != "uid"@,
        "tgid"@ != "gid"@,
        "tid"@ != "uid"@,
        "tid"@ != "gid"@,
        "uid"@ != "gid"@,
        "ktime"@ != "pid"@,
        "ktime"@ != "tgid"@,
        "ktime"@ != "tid"@,
        "ktime"@ != "uid"@,
        "ktime"@ != "gid"@,
{
    reveal_strlit("pid");
    reveal_strlit("tgid");
    reveal_strlit("tid");
    reveal_strlit("uid");
    reveal_strlit("gid");
    reveal_strlit("ktime");
    assert("pid"@[0] == 'p' && "tid"@[0] == 't' && "uid"@[0] == 'u' && "gid"@[0] == 'g');
    assert("tgid"@.len() == 4 && "ktime"@.len() == 5);
}

/// Running the code of a builtin leaves what it is worth in R0, and R6 to R10, the
/// memory and what was done as they were.
pub proof fn lemma_builtins_run(k: Kernel, now: Current, c: Cpu, g: Gen, name: Seq<char>)
    requires
        tells(k, now),
        builtin_width(name) is Some,
    ensures
        ({
            let h = builtin(g, name);
            let d = run(k, c, added(g, h));
            &&& h.out.code == g.out.code + added(g, h)
            &&& h == (Gen { out: h.out, ..g })
            &&& h.out.jumps == g.out.jumps
            &&& h.out.labels == g.out.labels
            &&& forall|i: int|
                0 <= i < added(g, h).len() ==> (#[trigger] added(g, h)[i]).opcode % 8 != 5
                    || added(g, h)[i].opcode == 0x85
            &&& d.regs[0] == builtin_value(now, name)
            &&& only_answers(c, d)
        }),
{
    reveal(builtin);
    reveal_with_fuel(run, 3);
    lemma_helper_numbers();
    lemma_names_differ();
    let h = builtin(g, name);
    let code = added(g, h);
    assert(h.out.code =~= g.out.code + code);
    let shift = alu(AluOp::Rsh, Reg::R0, 32);
    let low = keep_low(Reg::R0);
    let call = if name == "pid"@ || name == "tgid"@ || name == "tid"@ {
        helper(Helper::GetCurrentPidTgid)
    } else if name == "uid"@ || name == "gid"@ {
        helper(Helper::GetCurrentUidGid)
    } else {
        helper(Helper::KtimeGetNs)
    };
    let c1 = step(k, c, call);
    lemma_call(k, c, Helper::GetCurrentPidTgid);
    lemma_call(k, c, Helper::GetCurrentUidGid);
    lemma_call(k, c, Helper::KtimeGetNs);
    if name == "ktime"@ {
        assert(code =~= seq![call]);
        assert(code.drop_last() =~= Seq::empty());
        assert(run(k, c, code) == c1);
    } else {
        lemma_halves_of((k.acts)(14, c).regs[0], now.tgid, now.tid);
        lemma_halves_of((k.acts)(15, c).regs[0], now.gid, now.uid);
        lemma_alu(k, c1, AluOp::Rsh, Reg::R0, 32);
        lemma_keep_low(k, c1, Reg::R0);
        assert(word(32) % 64 == 32u64);
        let last = if name == "tid"@ || name == "uid"@ {
            low
        } else {
            shift
        };
        assert(code =~= seq![call, last]);
        assert(code.drop_last() =~= seq![call]);
        assert(seq![call].drop_last() =~= Seq::empty());
        assert(run(k, c, seq![call]) == c1);
        assert(run(k, c, code) == step(k, c1, last));
    }
}

} // verus!
