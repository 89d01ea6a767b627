//! Stacks that ran over, and how close the others came.
//!
//! A pattern at the bottom of the boot stack tells whether anything was written past it. Paint tells
//! how deep a stack has been: the first word that is no longer painted, from below.
use vstd::prelude::*;

verus! {

/// The pattern at the bottom of the boot stack.
pub const CANARY_0: u64 = 0x57ac_c0de_57ac_c0de;

pub const CANARY_1: u64 = 0xc0ff_ee00_1eaf_babe;

pub const CANARY_2: u64 = 0xdead_c0de_5111_c0de;

pub const CANARY_3: u64 = 0xfeed_face_cafe_f00d;

/// How many bytes the pattern takes.
pub const CANARY_SIZE: u64 = 32;

/// The word a stack is painted with.
pub const PAINT: u64 = 0x5afe_57ac_5afe_57ac;

/// How far below its stack pointer a running stack is left alone.
pub const PAINT_MARGIN: u64 = 512;

/// The pattern.
pub open spec fn canary() -> Seq<u64> {
    seq![CANARY_0, CANARY_1, CANARY_2, CANARY_3]
}

/// The pattern, to be written at the bottom of the boot stack.
pub fn init() -> (words: [u64; 4])
    ensures
        words@ == canary(),
{
    let words: [u64; 4] = [CANARY_0, CANARY_1, CANARY_2, CANARY_3];
    assert(words@ =~= canary());
    words
}

/// Is the pattern still there, `words` being what is at the bottom of the boot stack?
pub fn intact(words: &[u64; 4]) -> (r: bool)
    ensures
        r == (words@ == canary()),
{
    let r = words[0] == CANARY_0 && words[1] == CANARY_1 && words[2] == CANARY_2 && words[3]
        == CANARY_3;
    assert(r ==> words@ =~= canary());
    r
}

/// How far `sp` is above `bottom`, in words of 64 bits: a distance that does not fit wraps round.
pub open spec fn distance(sp: u64, bottom: u64) -> int {
    let d = (sp - bottom) % 0x1_0000_0000_0000_0000;
    if d <= i64::MAX {
        d
    } else {
        d - 0x1_0000_0000_0000_0000
    }
}

/// **How many bytes are left** between the stack pointer and the bottom of the stack. Less than none
/// means that the stack has run over.
pub fn headroom(sp: u64, bottom: u64) -> (left: i64)
    ensures
        left == distance(sp, bottom),
        i64::MIN <= sp - bottom <= i64::MAX ==> left == sp - bottom,
{
    let d: u64 = sp.wrapping_sub(bottom);
    assert(d <= 0x7fff_ffff_ffff_ffff ==> d as i64 == d) by (bit_vector);
    assert(d >= 0x8000_0000_0000_0000 ==> d as i64 == d - 0x1_0000_0000_0000_0000) by (bit_vector);
    d as i64
}

/// Has the stack run over? If it has, how much is left of it.
pub fn warn_if_smashed(words: &[u64; 4], sp: u64, bottom: u64) -> (r: Option<i64>)
    ensures
        r is None <==> words@ == canary(),
        r matches Some(left) ==> left == distance(sp, bottom),
{
    if intact(words) {
        None
    } else {
        Some(headroom(sp, bottom))
    }
}

/// Paint a stack that nothing has used yet.
pub fn paint(words: &mut Vec<u64>)
    ensures
        final(words)@.len() == old(words)@.len(),
        forall|i: int| 0 <= i < final(words)@.len() ==> final(words)@[i] == PAINT,
{
    let n: usize = words.len();
    let mut i: usize = 0;
    while i < n
        invariant
            i <= n,
            words@.len() == n,
            n == old(words)@.len(),
            forall|j: int| 0 <= j < i ==> words@[j] == PAINT,
        decreases n - i,
    {
        words.set(i, PAINT);
        i += 1;
    }
}

/// The first word from `i` on that is not painted; the length if there is none.
pub open spec fn first_used(words: Seq<u64>, i: int) -> int
    decreases words.len() - i,
{
    if i >= words.len() {
        words.len() as int
    } else if words[i] != PAINT {
        i
    } else {
        first_used(words, i + 1)
    }
}

/// **The deepest a painted stack has been**, in bytes from its top, `words` being the stack from its
/// bottom up.
pub fn high_water(words: &Vec<u64>) -> (used: u64)
    requires
        words@.len() * 8 <= u64::MAX,
    ensures
        used == (words@.len() - first_used(words@, 0)) * 8,
{
    let n: usize = words.len();
    let mut i: usize = 0;
    while i < n
        invariant
            i <= n,
            n == words@.len(),
            n * 8 <= u64::MAX,
            first_used(words@, 0) == first_used(words@, i as int),
        decreases n - i,
    {
        if words[i] != PAINT {
            return (n - i) as u64 * 8;
        }
        i += 1;
    }
    0
}

/// **The mark is the deepest use.** Every word below it is painted still, and the one at it is not;
/// a stack that was never used shows none.
pub proof fn law_the_mark_is_the_deepest_use(words: Seq<u64>, i: int)
    requires
        0 <= i <= words.len(),
    ensures
        i <= first_used(words, i) <= words.len(),
        forall|j: int| i <= j < first_used(words, i) ==> words[j] == PAINT,
        first_used(words, i) < words.len() ==> words[first_used(words, i)] != PAINT,
    decreases words.len() - i,
{
    if i < words.len() && words[i] == PAINT {
        law_the_mark_is_the_deepest_use(words, i + 1);
    }
}

/// Which part of the boot stack is painted while it is in use: above the pattern, and well below the
/// stack pointer.
pub fn paint_boot_stack(sp: u64, bottom: u64) -> (span: (u64, u64))
    requires
        sp >= PAINT_MARGIN,
        bottom + CANARY_SIZE <= u64::MAX,
    ensures
        span.0 == bottom + CANARY_SIZE,
        span.1 == sp - PAINT_MARGIN,
{
    (bottom + CANARY_SIZE, sp - PAINT_MARGIN)
}

/// The deepest use of any thread's stack, and how many stacks that was measured on.
#[derive(Debug, Clone, Copy, PartialEq, Eq, Structural)]
pub struct ThreadStacks {
    pub deepest: u64,
    pub scans: u64,
}

/// One more thread's stack was measured.
pub fn note_thread_stack_use(t: &mut ThreadStacks, used: u64)
    ensures
        final(t).deepest == (if used > old(t).deepest {
            used
        } else {
            old(t).deepest
        }),
        final(t).scans == crate::arch::heartbeat::bump(old(t).scans),
{
    if used > t.deepest {
        t.deepest = used;
    }
    t.scans = t.scans.wrapping_add(1);
}

/// A line of the report: how much of how much, and what percentage that is.
#[derive(Debug, Clone, Copy, PartialEq, Eq, Structural)]
pub struct HighWater {
    pub used: u64,
    pub size: u64,
    pub percent: u64,
}

/// A line of the report.
pub fn usage_line(used: u64, size: u64) -> (l: HighWater)
    requires
        size > 0,
        used * 100 <= u64::MAX,
    ensures
        l.used == used,
        l.size == size,
        l.percent == (used * 100) / size as int,
{
    HighWater { used, size, percent: used * 100 / size }
}

/// The whole report: the boot stack with the depth below which its paint began, each other core's
/// stack, and the threads'.
pub struct Report {
    pub boot: HighWater,
    pub floor: u64,
    pub cores: Vec<(usize, HighWater)>,
    pub threads: HighWater,
    pub scans: u64,
}

/// The cores whose stacks are reported: those that are up, but for the one the kernel booted on,
/// whose stack is the boot stack.
pub open spec fn reported(boot_core: int, mask: usize, id: int) -> bool {
    id != boot_core && mask & (1usize << (id as usize)) != 0
}

/// What is reported of the cores below `n`, in order.
pub open spec fn core_lines(boot_core: int, mask: usize, used: Seq<u64>, size: u64, n: int) -> Seq<
    (usize, HighWater),
>
    decreases n,
{
    if n <= 0 {
        Seq::empty()
    } else {
        let rest = core_lines(boot_core, mask, used, size, n - 1);
        if reported(boot_core, mask, n - 1) {
            rest.push(
                (
                    (n - 1) as usize,
                    HighWater {
                        used: used[n - 1],
                        size,
                        percent: ((used[n - 1] * 100) / size as int) as u64,
                    },
                ),
            )
        } else {
            rest
        }
    }
}

/// **Put the report together**: `boot` is the boot stack above its pattern, `top` where it ends and
/// `ceiling` where its paint ended; `used` is the depth of each core's stack and `core_size` their
/// size; `thread_size` is the size of every thread's.
pub fn report_high_water(
    boot: &Vec<u64>,
    top: u64,
    ceiling: u64,
    boot_core: usize,
    mask: usize,
    used: &Vec<u64>,
    core_size: u64,
    threads: &ThreadStacks,
    thread_size: u64,
) -> (r: Report)
    requires
        0 < boot@.len(),
        boot@.len() * 800 <= u64::MAX,
        ceiling <= top,
        used@.len() <= 32,
        core_size > 0,
        thread_size > 0,
        forall|i: int| 0 <= i < used@.len() ==> #[trigger] used@[i] * 100 <= u64::MAX,
        threads.deepest * 100 <= u64::MAX,
    ensures
        r.boot.used == (boot@.len() - first_used(boot@, 0)) * 8,
        r.boot.size == boot@.len() * 8,
        r.boot.percent == (r.boot.used * 100) / r.boot.size as int,
        r.floor == top - ceiling,
        r.cores@ == core_lines(boot_core as int, mask, used@, core_size, used@.len() as int),
        r.threads.used == threads.deepest,
        r.threads.size == thread_size,
        r.threads.percent == (threads.deepest * 100) / thread_size as int,
        r.scans == threads.scans,
{
    proof {
        law_the_mark_is_the_deepest_use(boot@, 0);
    }
    let depth: u64 = high_water(boot);
    let mut cores: Vec<(usize, HighWater)> = Vec::new();
    let mut id: usize = 0;
    while id < used.len()
        invariant
            id <= used@.len(),
            used@.len() <= 32,
            core_size > 0,
            forall|i: int| 0 <= i < used@.len() ==> #[trigger] used@[i] * 100 <= u64::MAX,
            cores@ == core_lines(boot_core as int, mask, used@, core_size, id as int),
        decreases used@.len() - id,
    {
        assert(used@[id as int] * 100 <= u64::MAX);
        if id != boot_core && mask & (1usize << id) != 0 {
            let line = usage_line(used[id], core_size);
            cores.push((id, line));
        }
        id += 1;
    }
    Report {
        boot: usage_line(depth, boot.len() as u64 * 8),
        floor: top - ceiling,
        cores,
        threads: usage_line(threads.deepest, thread_size),
        scans: threads.scans,
    }
}

/// **Which cores are reported**: each once, in order, if it is up and is not the one the kernel booted
/// on. A line says how deep the core's own stack has been, and what percentage of the size that is,
/// rounded down.
pub proof fn law_which_cores_are_reported(
    boot_core: int,
    mask: usize,
    used: Seq<u64>,
    size: u64,
    n: int,
    id: int,
    k: int,
)
    requires
        0 <= n <= used.len(),
        n <= 32,
        size > 0,
        forall|i: int| 0 <= i < used.len() ==> #[trigger] used[i] * 100 <= u64::MAX,
        0 <= id < n,
    ensures
        ({
            let lines = core_lines(boot_core, mask, used, size, n);
            &&& lines.len() <= n
            &&& id != boot_core && mask & (1usize << (id as usize)) != 0 <==> exists|j: int|
                0 <= j < lines.len() && (#[trigger] lines[j]).0 == id
            &&& 0 <= k < lines.len() ==> {
                let (core, line) = lines[k];
                &&& core < n
                &&& line.used == used[core as int]
                &&& line.size == size
                &&& line.percent * size <= line.used * 100
                &&& line.used * 100 < (line.percent + 1) * size
                &&& k + 1 < lines.len() ==> core < lines[k + 1].0
            }
        }),
    decreases n,
{
    let lines = core_lines(boot_core, mask, used, size, n);
    let rest = core_lines(boot_core, mask, used, size, n - 1);
    let last = n - 1;
    assert(used[last] * 100 <= u64::MAX);
    if reported(boot_core, mask, last) {
        assert(lines[rest.len() as int].0 == last);
    }
    assert forall|j: int| 0 <= j < rest.len() implies lines[j] == rest[j] by {}
    if n > 1 {
        let below = if id < last {
            id
        } else {
            0
        };
        law_which_cores_are_reported(boot_core, mask, used, size, n - 1, below, k);
        if 0 < rest.len() && k + 1 == rest.len() {
            assert(rest[k].0 < last);
        }
        assert forall|j: int| 0 <= j < rest.len() implies (#[trigger] rest[j]).0 < last by {
            law_which_cores_are_reported(boot_core, mask, used, size, n - 1, below, j);
        }
        if id < last && exists|j: int| 0 <= j < lines.len() && (#[trigger] lines[j]).0 == id {
            let j = choose|j: int| 0 <= j < lines.len() && (#[trigger] lines[j]).0 == id;
            if j < rest.len() {
                assert(rest[j].0 == id);
            }
        }
        if id < last && exists|j: int| 0 <= j < rest.len() && (#[trigger] rest[j]).0 == id {
            let j = choose|j: int| 0 <= j < rest.len() && (#[trigger] rest[j]).0 == id;
            assert(lines[j].0 == id);
        }
        if id == last && !reported(boot_core, mask, last) {
            assert forall|j: int| 0 <= j < lines.len() implies (#[trigger] lines[j]).0 != id by {
                assert(rest[j].0 < last);
            }
        }
    } else {
        assert(rest.len() == 0);
    }
    if 0 <= k < lines.len() && k == rest.len() {
        let u = used[last] * 100;
        let z = size as int;
        let p = u / z;
        vstd::arithmetic::div_mod::lemma_fundamental_div_mod(u, z);
        assert(0 <= p <= u && p * z <= u && u < (p + 1) * z) by (nonlinear_arith)
            requires
                u == z * p + u % z,
                0 <= u % z < z,
                z > 0,
                u >= 0,
        ;
    }
}

/// **The room left is a signed distance.** It is the distance itself wherever one of 64 bits can hold
/// it, and nothing but a whole turn away from it elsewhere.
pub proof fn law_the_room_left_is_a_distance(sp: u64, bottom: u64)
    ensures
        i64::MIN <= distance(sp, bottom) <= i64::MAX,
        distance(sp, bottom) == sp - bottom || distance(sp, bottom) == sp - bottom
            + 0x1_0000_0000_0000_0000 || distance(sp, bottom) == sp - bottom
            - 0x1_0000_0000_0000_0000,
{
}

/// **The pattern is four words that are not paint, and no two of them are equal.**
pub proof fn law_the_pattern_is_no_paint(i: int, j: int)
    requires
        0 <= i < j < 4,
    ensures
        canary().len() == 4,
        canary()[i] != canary()[j],
        canary()[i] != PAINT,
        canary()[j] != PAINT,
{
}

} // verus!
