//! Per-process GPU memory on NVIDIA cards, from the process lists NVML
//! reports.

use vstd::prelude::*;

verus! {

/// One process as NVML lists it: the pid and its GPU memory in bytes,
/// `None` where NVML reports the figure as unavailable.
#[derive(Clone, Copy, Debug)]
pub struct NvmlProcess {
    pub pid: u32,
    pub used_gpu_memory: Option<u64>,
}

/// Memory of a listed process; unavailable counts as 0.
pub open spec fn memory_of(p: NvmlProcess) -> u64 {
    match p.used_gpu_memory {
        Some(b) => b,
        None => 0,
    }
}

/// Adds the graphics processes whose pid is not listed yet, in order.
pub open spec fn add_graphics(acc: Seq<(u32, u64)>, gs: Seq<NvmlProcess>) -> Seq<(u32, u64)>
    decreases gs.len(),
{
    if gs.len() == 0 {
        acc
    } else {
        let next = if exists|k: int| 0 <= k < acc.len() && (#[trigger] acc[k]).0 == gs[0].pid {
            acc
        } else {
            acc.push((gs[0].pid, memory_of(gs[0])))
        };
        add_graphics(next, gs.drop_first())
    }
}

/// Every compute process, then the graphics processes not listed already.
pub open spec fn combined_processes(compute: Seq<NvmlProcess>, graphics: Seq<NvmlProcess>) -> Seq<(u32, u64)> {
    add_graphics(compute.map_values(|p: NvmlProcess| (p.pid, memory_of(p))), graphics)
}

/// One step of `add_graphics`: the list after the first graphics process.
pub open spec fn graphics_step(acc: Seq<(u32, u64)>, g: NvmlProcess) -> Seq<(u32, u64)> {
    if exists|k: int| 0 <= k < acc.len() && (#[trigger] acc[k]).0 == g.pid {
        acc
    } else {
        acc.push((g.pid, memory_of(g)))
    }
}

proof fn lemma_add_graphics_unfold(acc: Seq<(u32, u64)>, gs: Seq<NvmlProcess>)
    requires
        gs.len() > 0,
    ensures
        add_graphics(acc, gs) == add_graphics(graphics_step(acc, gs[0]), gs.drop_first()),
{
}

proof fn lemma_add_graphics_keeps_prefix(acc: Seq<(u32, u64)>, gs: Seq<NvmlProcess>)
    ensures
        add_graphics(acc, gs).len() >= acc.len(),
        forall|k: int| 0 <= k < acc.len() ==> #[trigger] add_graphics(acc, gs)[k] == acc[k],
    decreases gs.len(),
{
    if gs.len() > 0 {
        let next = graphics_step(acc, gs[0]);
        lemma_add_graphics_unfold(acc, gs);
        lemma_add_graphics_keeps_prefix(next, gs.drop_first());
        assert forall|k: int| 0 <= k < acc.len() implies #[trigger] add_graphics(acc, gs)[k] == acc[k] by {
            assert(add_graphics(next, gs.drop_first())[k] == next[k]);
        }
    }
}

proof fn lemma_add_graphics_lists_each(acc: Seq<(u32, u64)>, gs: Seq<NvmlProcess>, j: int)
    requires
        0 <= j < gs.len(),
    ensures
        exists|k: int| 0 <= k < add_graphics(acc, gs).len() && add_graphics(acc, gs)[k].0 == gs[j].pid,
    decreases gs.len(),
{
    let g = gs[0];
    let next = graphics_step(acc, g);
    let rest = gs.drop_first();
    lemma_add_graphics_unfold(acc, gs);
    let res = add_graphics(acc, gs);
    if j == 0 {
        lemma_add_graphics_keeps_prefix(next, rest);
        if exists|k: int| 0 <= k < acc.len() && (#[trigger] acc[k]).0 == g.pid {
            let k = choose|k: int| 0 <= k < acc.len() && (#[trigger] acc[k]).0 == g.pid;
            assert(res[k] == next[k]);
        } else {
            assert(res[acc.len() as int] == next[acc.len() as int]);
        }
    } else {
        lemma_add_graphics_lists_each(next, rest, j - 1);
        assert(rest[j - 1] == gs[j]);
    }
}

proof fn lemma_add_graphics_new_pids(acc: Seq<(u32, u64)>, gs: Seq<NvmlProcess>, k: int, m: int)
    requires
        0 <= m < k < add_graphics(acc, gs).len(),
        acc.len() <= k,
    ensures
        add_graphics(acc, gs)[m].0 != add_graphics(acc, gs)[k].0,
    decreases gs.len(),
{
    if gs.len() == 0 {
    } else {
        let g = gs[0];
        let next = graphics_step(acc, g);
        let rest = gs.drop_first();
        lemma_add_graphics_unfold(acc, gs);
        lemma_add_graphics_keeps_prefix(next, rest);
        let res = add_graphics(acc, gs);
        if k >= next.len() {
            lemma_add_graphics_new_pids(next, rest, k, m);
        } else {
            assert(k == acc.len() && next.len() == acc.len() + 1);
            assert(res[k] == next[k]);
            assert(res[m] == next[m]);
            assert(next[m] == acc[m]);
            assert(next[k].0 == g.pid);
        }
    }
}

proof fn lemma_add_graphics_new_entries(acc: Seq<(u32, u64)>, gs: Seq<NvmlProcess>, k: int)
    requires
        acc.len() <= k < add_graphics(acc, gs).len(),
    ensures
        exists|j: int| 0 <= j < gs.len() && add_graphics(acc, gs)[k] == (gs[j].pid, memory_of(gs[j])),
    decreases gs.len(),
{
    if gs.len() > 0 {
        let g = gs[0];
        let next = graphics_step(acc, g);
        let rest = gs.drop_first();
        lemma_add_graphics_unfold(acc, gs);
        lemma_add_graphics_keeps_prefix(next, rest);
        let res = add_graphics(acc, gs);
        if k >= next.len() {
            lemma_add_graphics_new_entries(next, rest, k);
            let j = choose|j: int| 0 <= j < rest.len() && add_graphics(next, rest)[k] == (rest[j].pid, memory_of(rest[j]));
            assert(rest[j] == gs[j + 1]);
        } else {
            assert(res[k] == next[k]);
            assert(res[k] == (gs[0].pid, memory_of(gs[0])));
        }
    }
}

/// Listing law: the combined list holds every compute process first, in
/// order and with its memory, then each graphics process whose pid is not
/// listed yet; every pid NVML lists, in either list, appears in it, and
/// no graphics entry repeats a pid listed before it.
pub proof fn lemma_combined_lists_every_pid(compute: Seq<NvmlProcess>, graphics: Seq<NvmlProcess>)
    ensures
        combined_processes(compute, graphics).len() >= compute.len(),
        forall|k: int|
            0 <= k < compute.len() ==> #[trigger] combined_processes(compute, graphics)[k] == (
                compute[k].pid,
                memory_of(compute[k]),
            ),
        forall|j: int|
            0 <= j < graphics.len() ==> exists|k: int|
                0 <= k < combined_processes(compute, graphics).len() && combined_processes(compute, graphics)[k].0
                    == (#[trigger] graphics[j]).pid,
        forall|k: int, m: int|
            0 <= m < k < combined_processes(compute, graphics).len() && compute.len() <= k
                ==> #[trigger] combined_processes(compute, graphics)[m].0 != #[trigger] combined_processes(
                compute,
                graphics,
            )[k].0,
        forall|k: int|
            compute.len() <= k < combined_processes(compute, graphics).len() ==> exists|j: int|
                0 <= j < graphics.len() && #[trigger] combined_processes(compute, graphics)[k] == (
                    graphics[j].pid,
                    memory_of(graphics[j]),
                ),
{
    let base = compute.map_values(|p: NvmlProcess| (p.pid, memory_of(p)));
    let res = combined_processes(compute, graphics);
    assert(res == add_graphics(base, graphics));
    lemma_add_graphics_keeps_prefix(base, graphics);
    assert forall|k: int| 0 <= k < compute.len() implies #[trigger] res[k] == (
        compute[k].pid,
        memory_of(compute[k]),
    ) by {
        assert(res[k] == base[k]);
    }
    assert forall|j: int| 0 <= j < graphics.len() implies exists|k: int|
        0 <= k < res.len() && res[k].0 == (#[trigger] graphics[j]).pid by {
        lemma_add_graphics_lists_each(base, graphics, j);
    }
    assert forall|k: int, m: int| 0 <= m < k < res.len() && compute.len() <= k implies #[trigger] res[m].0
        != #[trigger] res[k].0 by {
        lemma_add_graphics_new_pids(base, graphics, k, m);
    }
    assert forall|k: int| compute.len() <= k < res.len() implies exists|j: int|
        0 <= j < graphics.len() && #[trigger] res[k] == (graphics[j].pid, memory_of(graphics[j])) by {
        lemma_add_graphics_new_entries(base, graphics, k);
    }
}

/// `output` is `input` reordered by `perm` (output position to input
/// position) so that memory never increases and entries of equal memory
/// keep their input order: a stable sort by descending memory.
pub open spec fn stable_by_memory_desc(input: Seq<(u32, u64)>, output: Seq<(u32, u64)>, perm: Seq<int>) -> bool {
    &&& perm.len() == input.len()
    &&& output.len() == input.len()
    &&& forall|k: int| 0 <= k < output.len() ==> 0 <= #[trigger] perm[k] < input.len() && output[k] == input[perm[k]]
    &&& forall|a: int, b: int| 0 <= a < b < output.len() ==> perm[a] != perm[b]
    &&& forall|a: int, b: int| 0 <= a < b < output.len() ==> output[a].1 >= output[b].1
    &&& forall|a: int, b: int| 0 <= a < b < output.len() && output[a].1 == output[b].1 ==> perm[a] < perm[b]
}

/// `output` is `input` stably sorted by descending memory.
pub open spec fn sorted_by_memory_desc(input: Seq<(u32, u64)>, output: Seq<(u32, u64)>) -> bool {
    exists|perm: Seq<int>| stable_by_memory_desc(input, output, perm)
}

fn sort_by_memory_desc(input: &Vec<(u32, u64)>) -> (r: Vec<(u32, u64)>)
    ensures
        sorted_by_memory_desc(input@, r@),
{
    let mut out: Vec<(u32, u64)> = Vec::new();
    let ghost mut perm: Seq<int> = Seq::empty();
    let mut i: usize = 0;
    while i < input.len()
        invariant
            i <= input@.len(),
            stable_by_memory_desc(input@.subrange(0, i as int), out@, perm),
        decreases input@.len() - i,
    {
        let x = input[i];
        let mut pos: usize = 0;
        while pos < out.len() && out[pos].1 >= x.1
            invariant
                pos <= out@.len(),
                forall|k: int| 0 <= k < pos ==> out@[k].1 >= x.1,
            decreases out@.len() - pos,
        {
            pos = pos + 1;
        }
        let ghost old_out = out@;
        let ghost old_perm = perm;
        let ghost pre = input@.subrange(0, i as int);
        let ghost post = input@.subrange(0, i + 1);
        out.insert(pos, x);
        proof {
            perm = old_perm.insert(pos as int, i as int);
            assert(post[i as int] == x);
            assert forall|k: int| 0 <= k < pre.len() implies post[k] == pre[k] by {}
            assert forall|k: int| pos <= k < old_out.len() implies old_out[k].1 < x.1 by {
                if old_out[k].1 >= x.1 {
                    assert(old_out[pos as int].1 >= old_out[k].1);
                }
            }
            assert forall|k: int| 0 <= k < out@.len() implies 0 <= #[trigger] perm[k] < post.len()
                && out@[k] == post[perm[k]] by {
                if k < pos {
                    assert(out@[k] == old_out[k]);
                    assert(perm[k] == old_perm[k]);
                } else if k > pos {
                    assert(out@[k] == old_out[k - 1]);
                    assert(perm[k] == old_perm[k - 1]);
                }
            }
            assert forall|a: int, b: int| 0 <= a < b < out@.len() implies perm[a] != perm[b] by {
                if a != pos && b != pos {
                    let a0 = if a < pos { a } else { a - 1 };
                    let b0 = if b < pos { b } else { b - 1 };
                    assert(perm[a] == old_perm[a0]);
                    assert(perm[b] == old_perm[b0]);
                } else if a == pos {
                    let b0 = b - 1;
                    assert(perm[b] == old_perm[b0]);
                    assert(0 <= old_perm[b0] < pre.len());
                } else {
                    assert(perm[a] == old_perm[a]);
                    assert(0 <= old_perm[a] < pre.len());
                }
            }
            assert forall|a: int, b: int| 0 <= a < b < out@.len() implies out@[a].1 >= out@[b].1 by {
                if a != pos && b != pos {
                    let a0 = if a < pos { a } else { a - 1 };
                    let b0 = if b < pos { b } else { b - 1 };
                    assert(out@[a] == old_out[a0]);
                    assert(out@[b] == old_out[b0]);
                } else if a == pos {
                    assert(out@[b] == old_out[b - 1]);
                } else {
                    assert(out@[a] == old_out[a]);
                }
            }
            assert forall|a: int, b: int|
                0 <= a < b < out@.len() && out@[a].1 == out@[b].1 implies perm[a] < perm[b] by {
                if a != pos && b != pos {
                    let a0 = if a < pos { a } else { a - 1 };
                    let b0 = if b < pos { b } else { b - 1 };
                    assert(out@[a] == old_out[a0]);
                    assert(out@[b] == old_out[b0]);
                    assert(perm[a] == old_perm[a0]);
                    assert(perm[b] == old_perm[b0]);
                } else if a == pos {
                    assert(out@[b] == old_out[b - 1]);
                } else {
                    assert(out@[a] == old_out[a]);
                    assert(perm[a] == old_perm[a]);
                    assert(0 <= old_perm[a] < pre.len());
                }
            }
        }
        i = i + 1;
    }
    proof {
        assert(input@.subrange(0, input@.len() as int) =~= input@);
    }
    out
}

/// The processes NVML lists for one device, without duplicate pids
/// from the graphics list, the `n` with the most GPU memory first (ties
/// keep the listing order); unavailable memory counts as 0.
pub fn top_memory_processes(compute: &[NvmlProcess], graphics: &[NvmlProcess], n: usize) -> (r: Vec<(u32, u64)>)
    ensures
        exists|sorted: Seq<(u32, u64)>|
            sorted_by_memory_desc(combined_processes(compute@, graphics@), sorted) && r@ == (if n
                <= sorted.len() {
                sorted.subrange(0, n as int)
            } else {
                sorted
            }),
{
    let mut combined: Vec<(u32, u64)> = Vec::new();
    let mut i: usize = 0;
    while i < compute.len()
        invariant
            i <= compute@.len(),
            combined@ == compute@.subrange(0, i as int).map_values(|p: NvmlProcess| (p.pid, memory_of(p))),
        decreases compute@.len() - i,
    {
        let p = compute[i];
        let mem = match p.used_gpu_memory {
            Some(b) => b,
            None => 0,
        };
        combined.push((p.pid, mem));
        proof {
            assert(compute@.subrange(0, i + 1).map_values(|p: NvmlProcess| (p.pid, memory_of(p)))
                =~= compute@.subrange(0, i as int).map_values(|p: NvmlProcess| (p.pid, memory_of(p))).push((p.pid, mem)));
        }
        i = i + 1;
    }
    proof {
        assert(compute@.subrange(0, compute@.len() as int) =~= compute@);
        assert(graphics@.subrange(0, graphics@.len() as int) =~= graphics@);
    }
    let mut j: usize = 0;
    while j < graphics.len()
        invariant
            j <= graphics@.len(),
            add_graphics(combined@, graphics@.subrange(j as int, graphics@.len() as int))
                == combined_processes(compute@, graphics@),
        decreases graphics@.len() - j,
    {
        let g = graphics[j];
        let ghost acc = combined@;
        proof {
            let rest = graphics@.subrange(j as int, graphics@.len() as int);
            assert(rest[0] == g);
            assert(rest.drop_first() =~= graphics@.subrange(j + 1, graphics@.len() as int));
        }
        let mut k: usize = 0;
        while k < combined.len() && combined[k].0 != g.pid
            invariant
                k <= combined@.len(),
                forall|m: int| 0 <= m < k ==> combined@[m].0 != g.pid,
            decreases combined@.len() - k,
        {
            k = k + 1;
        }
        if k == combined.len() {
            let mem = match g.used_gpu_memory {
                Some(b) => b,
                None => 0,
            };
            combined.push((g.pid, mem));
        } else {
            proof {
                assert(acc[k as int].0 == g.pid);
            }
        }
        j = j + 1;
    }
    proof {
        assert(graphics@.subrange(j as int, graphics@.len() as int) =~= Seq::<NvmlProcess>::empty());
    }
    let mut sorted = sort_by_memory_desc(&combined);
    sorted.truncate(n);
    sorted
}

} // verus!
