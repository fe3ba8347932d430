//! Process management system calls.
use vstd::prelude::*;
use crate::config::{MAX_SYSCALL_NUM, PAGE_SIZE};
use crate::mm::FrameAllocator;
use crate::task::{
    TaskManager, TaskStatus, TaskSwitch, brk_clear, brk_effect, brk_step, change_program_brk,
    exit_current_and_run_next, mmap_current_area, mmap_effect, munmap_current_area,
    munmap_effect, none_ready, run_next_effect, suspend_current_and_run_next, with_status,
};

verus! {

/// A clock reading split into seconds and microseconds.
#[derive(Clone, Copy, PartialEq, Eq, Structural, Debug)]
pub struct TimeVal {
    pub sec: usize,
    pub usec: usize,
}

/// Task information
pub struct TaskInfo {
    /// Task status in its life cycle
    pub status: TaskStatus,
    /// The numbers of syscall called by task
    pub syscall_times: [u32; MAX_SYSCALL_NUM],
    /// Total running time of task, in milliseconds
    pub time: usize,
}

/// The `n` bytes of `x`, least significant first.
pub open spec fn le_bytes(x: nat, n: nat) -> Seq<u8>
    decreases n,
{
    if n == 0 {
        Seq::<u8>::empty()
    } else {
        seq![(x % 256) as u8] + le_bytes(x / 256, (n - 1) as nat)
    }
}

/// The number that `bytes` stand for, least significant byte first.
pub open spec fn le_value(bytes: Seq<u8>) -> int
    decreases bytes.len(),
{
    if bytes.len() == 0 {
        0
    } else {
        bytes[0] + 256 * le_value(bytes.skip(1))
    }
}

/// `le_bytes(x, n)` are `n` bytes that stand for `x` modulo `256^n`: reading them back,
/// least significant first, gives `x % 256^n`.
pub proof fn lemma_le_bytes_value(x: nat, n: nat)
    ensures
        le_bytes(x, n).len() == n,
        le_value(le_bytes(x, n)) == (x as int) % vstd::arithmetic::power::pow(256, n),
    decreases n,
{
    reveal(vstd::arithmetic::power::pow);
    if n > 0 {
        lemma_le_bytes_value(x / 256, (n - 1) as nat);
        let rest = le_bytes(x / 256, (n - 1) as nat);
        let b = le_bytes(x, n);
        assert(b.skip(1) =~= rest);
        vstd::arithmetic::power::lemma_pow_positive(256, (n - 1) as nat);
        vstd::arithmetic::div_mod::lemma_mod_breakdown(
            x as int,
            256,
            vstd::arithmetic::power::pow(256, (n - 1) as nat),
        );
        assert(vstd::arithmetic::power::pow(256, n) == 256 * vstd::arithmetic::power::pow(
            256,
            (n - 1) as nat,
        ));
    }
}

/// Byte `i` of `le_bytes(x, n)` is digit `i` of `x` in base 256: `(x / 256^i) % 256`.
pub proof fn lemma_le_bytes_index(x: nat, n: nat, i: int)
    requires
        0 <= i < n,
    ensures
        le_bytes(x, n).len() == n,
        le_bytes(x, n)[i] == (x as int / vstd::arithmetic::power::pow(256, i as nat)) % 256,
    decreases n,
{
    reveal(vstd::arithmetic::power::pow);
    lemma_le_bytes_value(x, n);
    if i > 0 {
        lemma_le_bytes_index(x / 256, (n - 1) as nat, i - 1);
        lemma_le_bytes_value(x / 256, (n - 1) as nat);
        vstd::arithmetic::power::lemma_pow_positive(256, (i - 1) as nat);
        vstd::arithmetic::div_mod::lemma_div_denominator(
            x as int,
            256,
            vstd::arithmetic::power::pow(256, (i - 1) as nat),
        );
        assert(vstd::arithmetic::power::pow(256, i as nat) == 256 * vstd::arithmetic::power::pow(
            256,
            (i - 1) as nat,
        ));
    }
}

/// The bytes of a `TimeVal` are sixteen: the first eight stand for `sec` and the last
/// eight for `usec`, least significant first.
pub proof fn lemma_time_val_bytes(tv: TimeVal)
    ensures
        time_val_bytes(tv).len() == 16,
        le_value(time_val_bytes(tv).take(8)) == tv.sec,
        le_value(time_val_bytes(tv).skip(8)) == tv.usec,
{
    lemma_le_bytes_value(tv.sec as nat, 8);
    lemma_le_bytes_value(tv.usec as nat, 8);
    vstd::arithmetic::power::lemma_pow_positive(256, 8);
    assert(vstd::arithmetic::power::pow(256, 8) == 0x1_0000_0000_0000_0000) by {
        reveal_with_fuel(vstd::arithmetic::power::pow, 9);
    }
    assert(time_val_bytes(tv).take(8) =~= le_bytes(tv.sec as nat, 8));
    assert(time_val_bytes(tv).skip(8) =~= le_bytes(tv.usec as nat, 8));
}

/// The bytes of a `TimeVal` as it lies in memory: `sec`, then `usec`, each as eight
/// little-endian bytes.
pub open spec fn time_val_bytes(tv: TimeVal) -> Seq<u8> {
    le_bytes(tv.sec as nat, 8) + le_bytes(tv.usec as nat, 8)
}

/// Appends the eight little-endian bytes of `x` to `out`.
fn push_le_bytes(out: &mut Vec<u8>, x: usize)
    ensures
        final(out)@ == old(out)@ + le_bytes(x as nat, 8),
{
    let mut v = x;
    let mut i: usize = 0;
    while i < 8
        invariant
            i <= 8,
            out@ + le_bytes(v as nat, (8 - i) as nat) == old(out)@ + le_bytes(x as nat, 8),
        decreases 8 - i,
    {
        let ghost before = out@;
        assert(le_bytes(v as nat, (8 - i) as nat) == seq![(v % 256) as u8] + le_bytes(
            (v / 256) as nat,
            (8 - i - 1) as nat,
        ));
        out.push((v % 256) as u8);
        assert(out@ + le_bytes((v / 256) as nat, (8 - i - 1) as nat) =~= before + le_bytes(
            v as nat,
            (8 - i) as nat,
        ));
        v = v / 256;
        i = i + 1;
    }
    assert(le_bytes(v as nat, 0) =~= Seq::<u8>::empty());
    assert(out@ =~= out@ + le_bytes(v as nat, 0));
}

impl TimeVal {
    /// The clock reading `us` microseconds, split into seconds and microseconds.
    pub fn from_us(us: usize) -> (tv: Self)
        ensures
            tv.sec == us / 1_000_000,
            tv.usec == us % 1_000_000,
            tv.sec * 1_000_000 + tv.usec == us,
            tv.usec < 1_000_000,
    {
        TimeVal { sec: us / 1_000_000, usec: us % 1_000_000 }
    }

    /// The bytes of this value as it lies in memory (see `time_val_bytes`).
    pub fn as_bytes(&self) -> (bytes: Vec<u8>)
        ensures
            bytes@ == time_val_bytes(*self),
            bytes@.len() == 16,
            le_value(bytes@.take(8)) == self.sec,
            le_value(bytes@.skip(8)) == self.usec,
    {
        proof {
            lemma_time_val_bytes(*self);
        }
        let mut bytes: Vec<u8> = Vec::new();
        push_le_bytes(&mut bytes, self.sec);
        push_le_bytes(&mut bytes, self.usec);
        assert(bytes@ =~= time_val_bytes(*self));
        bytes
    }
}

/// How many bytes go into the buffers before buffer `i` when `total` bytes are written
/// across `buffers` in turn, each filled as far as the bytes reach.
pub open spec fn written_before(buffers: Seq<Seq<u8>>, total: int, i: int) -> int
    decreases i,
{
    if i <= 0 {
        0
    } else {
        let w = written_before(buffers, total, i - 1) + buffers[i - 1].len();
        if w < total {
            w
        } else {
            total
        }
    }
}

/// How many bytes go into buffer `i` when `total` bytes are written across `buffers`.
pub open spec fn chunk_len(buffers: Seq<Seq<u8>>, total: int, i: int) -> int {
    let left = total - written_before(buffers, total, i);
    if buffers[i].len() < left {
        buffers[i].len() as int
    } else {
        left
    }
}

/// Buffer `i` once `bytes` are written across `buffers`: its chunk of the bytes, then
/// what it held before past that chunk.
pub open spec fn filled_buffer(buffers: Seq<Seq<u8>>, bytes: Seq<u8>, i: int) -> Seq<u8> {
    let w = written_before(buffers, bytes.len() as int, i);
    let n = chunk_len(buffers, bytes.len() as int, i);
    bytes.subrange(w, w + n) + buffers[i].skip(n)
}

/// `written_before` never passes the number of bytes.
proof fn lemma_written_before(buffers: Seq<Seq<u8>>, total: int, i: int)
    requires
        total >= 0,
        0 <= i <= buffers.len(),
    ensures
        0 <= written_before(buffers, total, i) <= total,
    decreases i,
{
    if i > 0 {
        lemma_written_before(buffers, total, i - 1);
    }
}

/// The buffers' bytes one after the other.
pub open spec fn flatten(buffers: Seq<Seq<u8>>) -> Seq<u8>
    decreases buffers.len(),
{
    if buffers.len() == 0 {
        Seq::<u8>::empty()
    } else {
        flatten(buffers.drop_last()) + buffers.last()
    }
}

/// How many of `total` bytes fit in `buffers`.
pub open spec fn bytes_written(buffers: Seq<Seq<u8>>, total: int) -> int {
    if flatten(buffers).len() < total {
        flatten(buffers).len() as int
    } else {
        total
    }
}

proof fn lemma_flatten_take(s: Seq<Seq<u8>>, k: int)
    requires
        0 <= k < s.len(),
    ensures
        flatten(s.take(k + 1)) == flatten(s.take(k)) + s[k],
{
    assert(s.take(k + 1).drop_last() =~= s.take(k));
}

proof fn lemma_copy_prefix(orig: Seq<Seq<u8>>, bytes: Seq<u8>, result: Seq<Seq<u8>>, k: int)
    requires
        result.len() == orig.len(),
        forall|i: int| 0 <= i < orig.len() ==> #[trigger] result[i] == filled_buffer(orig, bytes, i),
        0 <= k <= orig.len(),
    ensures
        written_before(orig, bytes.len() as int, k) == bytes_written(orig.take(k), bytes.len() as int),
        flatten(result.take(k)) == bytes.take(written_before(orig, bytes.len() as int, k)) + flatten(
            orig.take(k),
        ).skip(written_before(orig, bytes.len() as int, k)),
    decreases k,
{
    let total = bytes.len() as int;
    if k == 0 {
        assert(orig.take(0) =~= Seq::<Seq<u8>>::empty());
        assert(result.take(0) =~= Seq::<Seq<u8>>::empty());
        assert(bytes.take(0) =~= Seq::<u8>::empty());
        assert(flatten(orig.take(0)).skip(0) =~= Seq::<u8>::empty());
    } else {
        lemma_copy_prefix(orig, bytes, result, k - 1);
        lemma_flatten_take(orig, k - 1);
        lemma_flatten_take(result, k - 1);
        lemma_written_before(orig, total, k - 1);
        let w = written_before(orig, total, k - 1);
        let n = chunk_len(orig, total, k - 1);
        let f = flatten(orig.take(k - 1));
        let o = orig[k - 1];
        assert(result[k - 1] == bytes.subrange(w, w + n) + o.skip(n));
        if w < f.len() {
            assert(w == total);
            assert(n == 0);
            assert(bytes.subrange(w, w + n) + o.skip(n) =~= o);
            assert(f.skip(w) + o =~= (f + o).skip(w));
        } else {
            assert(w == f.len());
            assert(bytes.take(w) + bytes.subrange(w, w + n) =~= bytes.take(w + n));
            assert(f.skip(w) =~= Seq::<u8>::empty());
            assert((f + o).skip(w + n) =~= o.skip(n));
        }
    }
}

/// Writing bytes across buffers overwrites the front of their concatenation: each buffer
/// keeps its length, and the buffers together hold the first `m` bytes followed by what
/// they held before past `m`, where `m` is as many bytes as fit. In particular, when the
/// buffers have room for all the bytes, their concatenation starts with the bytes.
pub proof fn lemma_copy_concatenates(orig: Seq<Seq<u8>>, bytes: Seq<u8>, result: Seq<Seq<u8>>)
    requires
        result.len() == orig.len(),
        forall|i: int| 0 <= i < orig.len() ==> #[trigger] result[i] == filled_buffer(orig, bytes, i),
    ensures
        forall|i: int| 0 <= i < orig.len() ==> (#[trigger] result[i]).len() == orig[i].len(),
        flatten(result) == bytes.take(bytes_written(orig, bytes.len() as int)) + flatten(orig).skip(
            bytes_written(orig, bytes.len() as int),
        ),
        flatten(orig).len() >= bytes.len() ==> flatten(result).take(bytes.len() as int) == bytes,
{
    assert forall|i: int| 0 <= i < orig.len() implies (#[trigger] result[i]).len() == orig[i].len() by {
        lemma_written_before(orig, bytes.len() as int, i);
    }
    lemma_copy_prefix(orig, bytes, result, orig.len() as int);
    assert(orig.take(orig.len() as int) =~= orig);
    assert(result.take(result.len() as int) =~= result);
    if flatten(orig).len() >= bytes.len() {
        assert(flatten(result).take(bytes.len() as int) =~= bytes);
    }
}

/// Writes `bytes` across the buffers in turn, filling each as far as the bytes reach
/// (see `filled_buffer`); bytes that do not fit are dropped.
pub fn copy_to_user_buffers(buffers: &mut Vec<Vec<u8>>, bytes: &Vec<u8>)
    ensures
        final(buffers)@.len() == old(buffers)@.len(),
        forall|i: int|
            0 <= i < old(buffers)@.len() ==> (#[trigger] final(buffers)@[i])@ == filled_buffer(
                old(buffers).deep_view(),
                bytes@,
                i,
            ),
        flatten(final(buffers).deep_view()) == bytes@.take(
            bytes_written(old(buffers).deep_view(), bytes@.len() as int),
        ) + flatten(old(buffers).deep_view()).skip(
            bytes_written(old(buffers).deep_view(), bytes@.len() as int),
        ),
{
    let ghost orig = old(buffers).deep_view();
    let mut write_size: usize = 0;
    let mut i: usize = 0;
    while i < buffers.len()
        invariant
            i <= buffers@.len(),
            buffers@.len() == orig.len(),
            orig == old(buffers).deep_view(),
            write_size as int == written_before(orig, bytes@.len() as int, i as int),
            write_size <= bytes@.len(),
            forall|k: int| 0 <= k < i ==> (#[trigger] buffers@[k])@ == filled_buffer(orig, bytes@, k),
            forall|k: int| i <= k < buffers@.len() ==> (#[trigger] buffers@[k])@ == orig[k],
        decreases buffers@.len() - i,
    {
        let ghost start = buffers@[i as int]@;
        let blen = buffers[i].len();
        let left = bytes.len() - write_size;
        let len = if blen < left {
            blen
        } else {
            left
        };
        assert(len == chunk_len(orig, bytes@.len() as int, i as int));
        let mut j: usize = 0;
        while j < len
            invariant
                i < buffers@.len(),
                buffers@.len() == orig.len(),
                j <= len,
                len <= blen,
                blen == start.len(),
                write_size + len <= bytes@.len(),
                bytes@.len() == bytes.len(),
                buffers@[i as int]@.len() == start.len(),
                forall|m: int| 0 <= m < j ==> buffers@[i as int]@[m] == bytes@[write_size + m],
                forall|m: int| j <= m < start.len() ==> buffers@[i as int]@[m] == start[m],
                forall|k: int| 0 <= k < i ==> (#[trigger] buffers@[k])@ == filled_buffer(orig, bytes@, k),
                forall|k: int| i < k < buffers@.len() ==> (#[trigger] buffers@[k])@ == orig[k],
            decreases len - j,
        {
            buffers[i][j] = bytes[write_size + j];
            j = j + 1;
        }
        assert(buffers@[i as int]@ =~= filled_buffer(orig, bytes@, i as int));
        write_size = write_size + len;
        i = i + 1;
    }
    proof {
        let result = buffers.deep_view();
        assert forall|k: int| 0 <= k < orig.len() implies #[trigger] result[k] == filled_buffer(
            orig,
            bytes@,
            k,
        ) by {
            assert(result[k] =~= buffers@[k]@);
        }
        lemma_copy_concatenates(orig, bytes@, result);
    }
}

/// The current task exits with `exit_code`; the kernel switches to the next `Ready` task
/// (see `exit_current_and_run_next`), which must exist: when no other task is `Ready`,
/// every application has completed and the kernel stops.
pub fn sys_exit(manager: &mut TaskManager, _exit_code: i32, now: usize) -> (switch: TaskSwitch)
    requires
        old(manager).wf(),
        old(manager).num_app > 0,
        !none_ready(
            with_status(old(manager).tasks@, old(manager).current_task as int, TaskStatus::Exited),
        ),
    ensures
        final(manager).wf(),
        final(manager).num_app == old(manager).num_app,
        final(manager).current().task_status == TaskStatus::Running,
        run_next_effect(
            with_status(old(manager).tasks@, old(manager).current_task as int, TaskStatus::Exited),
            old(manager).current_task as int,
            now,
            switch,
            *final(manager),
        ),
{
    exit_current_and_run_next(manager, now)
}

/// The current task gives up the processor to the next `Ready` task (see
/// `suspend_current_and_run_next`); the call returns 0, with the switch to perform.
pub fn sys_yield(manager: &mut TaskManager, now: usize) -> (res: (isize, TaskSwitch))
    requires
        old(manager).wf(),
        old(manager).num_app > 0,
    ensures
        final(manager).wf(),
        final(manager).num_app == old(manager).num_app,
        final(manager).current().task_status == TaskStatus::Running,
        res.0 == 0,
        run_next_effect(
            with_status(old(manager).tasks@, old(manager).current_task as int, TaskStatus::Ready),
            old(manager).current_task as int,
            now,
            res.1,
            *final(manager),
        ),
{
    let switch = suspend_current_and_run_next(manager, now);
    (0, switch)
}

/// Writes the time `now_us` (microseconds), as a `TimeVal` of seconds and microseconds,
/// across the user buffers that hold the caller's `TimeVal`; returns 0.
pub fn sys_get_time(buffers: &mut Vec<Vec<u8>>, _tz: usize, now_us: usize) -> (res: isize)
    ensures
        res == 0,
        final(buffers)@.len() == old(buffers)@.len(),
        forall|i: int|
            0 <= i < old(buffers)@.len() ==> (#[trigger] final(buffers)@[i])@ == filled_buffer(
                old(buffers).deep_view(),
                time_val_bytes(TimeVal { sec: now_us / 1_000_000, usec: now_us % 1_000_000 }),
                i,
            ),
        flatten(final(buffers).deep_view()) == time_val_bytes(
            TimeVal { sec: now_us / 1_000_000, usec: now_us % 1_000_000 },
        ).take(bytes_written(old(buffers).deep_view(), 16)) + flatten(old(buffers).deep_view()).skip(
            bytes_written(old(buffers).deep_view(), 16),
        ),
{
    let time_val = TimeVal::from_us(now_us);
    let bytes = time_val.as_bytes();
    copy_to_user_buffers(buffers, &bytes);
    0
}

/// Information about the current task, which makes the call and so is `Running`, at
/// clock reading `now_us` (microseconds): its status, its system call counts, and the
/// milliseconds since it was first scheduled.
pub fn sys_task_info(manager: &TaskManager, now_us: usize) -> (info: TaskInfo)
    requires
        manager.wf(),
        manager.num_app > 0,
        manager.current().task_status == TaskStatus::Running,
        now_us >= manager.current().start_time,
    ensures
        info.status == TaskStatus::Running,
        info.syscall_times == manager.current().sys_calls,
        info.time == (now_us - manager.current().start_time) / 1000,
{
    let current_task = crate::task::get_current_task(manager);
    TaskInfo {
        syscall_times: current_task.sys_calls,
        status: current_task.task_status,
        time: (now_us - current_task.start_time) / 1000,
    }
}

/// Maps `[start, start + len)` into the current task's address space with the rights
/// `port` asks for (see `mmap_effect`); 0 on success, -1 on refusal.
pub fn sys_mmap(
    manager: &mut TaskManager,
    frames: &mut FrameAllocator,
    start: usize,
    len: usize,
    port: usize,
) -> (res: isize)
    requires
        old(manager).wf(),
        old(manager).num_app > 0,
        start % PAGE_SIZE == 0 && 1 <= port <= 7 ==> start + len <= usize::MAX,
    ensures
        mmap_effect(
            *old(manager),
            old(frames).available as int,
            start as int,
            len as int,
            port,
            res,
            *final(manager),
            final(frames).available as int,
        ),
{
    mmap_current_area(manager, frames, start, len, port)
}

/// Unmaps `[start, start + len)` from the current task's address space (see
/// `munmap_effect`); 0 on success, -1 on refusal.
pub fn sys_munmap(
    manager: &mut TaskManager,
    frames: &mut FrameAllocator,
    start: usize,
    len: usize,
) -> (res: isize)
    requires
        old(manager).wf(),
        old(manager).num_app > 0,
        start % PAGE_SIZE == 0 ==> start + len <= usize::MAX,
    ensures
        munmap_effect(
            *old(manager),
            old(frames).available as int,
            start as int,
            len as int,
            res,
            *final(manager),
            final(frames).available as int,
        ),
{
    munmap_current_area(manager, frames, start, len)
}

/// Changes the data segment size by `size` bytes (see `brk_effect`); gives the old
/// program break, or -1 where the change is refused.
pub fn sys_sbrk(manager: &mut TaskManager, size: i32) -> (res: isize)
    requires
        old(manager).wf(),
        old(manager).num_app > 0,
        old(manager).current().program_brk + size <= isize::MAX,
        brk_clear(
            old(manager).current().program_brk as int,
            old(manager).current().heap_bottom as int,
            old(manager).current().memory_set@,
            size as int,
        ),
    ensures
        brk_step(
            old(manager).current().program_brk as int,
            old(manager).current().heap_bottom as int,
            old(manager).current().memory_set@,
            size as int,
        ) is Some ==> {
            &&& res == old(manager).current().program_brk as isize
            &&& brk_effect(
                *old(manager),
                size as int,
                Some(old(manager).current().program_brk),
                *final(manager),
            )
        },
        brk_step(
            old(manager).current().program_brk as int,
            old(manager).current().heap_bottom as int,
            old(manager).current().memory_set@,
            size as int,
        ) is None ==> {
            &&& res == -1
            &&& brk_effect(*old(manager), size as int, None, *final(manager))
        },
{
    match change_program_brk(manager, size) {
        Some(old_brk) => old_brk as isize,
        None => -1,
    }
}

} // verus!
