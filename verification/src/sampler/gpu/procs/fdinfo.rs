//! DRM fdinfo per-process GPU statistics. Works for any DRM-scheduler
//! driver (amdgpu, i915, xe, panfrost…); NVIDIA's proprietary driver does
//! not populate these fields.

use std::collections::HashMap;

use vstd::prelude::*;

use crate::sampler::{busy_delta, sat_add, sat_sub};
use crate::text::{
    chars_of, find_char_in, line_ranges, lines, parse_unsigned, parse_unsigned_range, range_eq,
    range_ends_with, range_starts_with, split_once, starts_with, str_starts_with, string_of_range,
    strip_suffix, trim, trim_range,
};

verus! {

/// The KiB count that a `drm-memory-*` value spells: a number followed by
/// ` KiB` or ` kB`, surrounding whitespace allowed.
pub open spec fn kib_count(value: Seq<char>) -> Option<nat> {
    let t = trim(value);
    let k = match strip_suffix(t, " KiB"@) {
        Some(k) => Some(k),
        None => strip_suffix(t, " kB"@),
    };
    match k {
        Some(k) => parse_unsigned(trim(k), u64::MAX as nat),
        None => None,
    }
}

/// A memory value in bytes, as `parse_kib` reads it.
pub open spec fn kib_bytes(value: Seq<char>) -> Option<nat> {
    match kib_count(value) {
        Some(k) => Some(k * 1024),
        None => None,
    }
}

/// The byte count of `value` fits in a `u64` (otherwise scaling overflows).
pub open spec fn kib_fits(value: Seq<char>) -> bool {
    match kib_count(value) {
        Some(k) => k * 1024 <= u64::MAX,
        None => true,
    }
}

/// What one fdinfo line contributes: `(pdev, busy_ns, vram_bytes)`.
pub open spec fn fdinfo_step(acc: (Option<Seq<char>>, u64, u64), line: Seq<char>) -> (
    Option<Seq<char>>,
    u64,
    u64,
) {
    match split_once(line, ':') {
        None => acc,
        Some((k, v)) => {
            let key = trim(k);
            let value = trim(v);
            if key == "drm-pdev"@ {
                (Some(value), acc.1, acc.2)
            } else if starts_with(key, "drm-engine-"@) {
                match strip_suffix(value, " ns"@) {
                    Some(n) => match parse_unsigned(n, u64::MAX as nat) {
                        Some(ns) => (acc.0, sat_add(acc.1, ns as u64), acc.2),
                        None => acc,
                    },
                    None => acc,
                }
            } else if key == "drm-memory-vram"@ {
                (
                    acc.0,
                    acc.1,
                    match kib_bytes(value) {
                        Some(b) => b as u64,
                        None => 0,
                    },
                )
            } else {
                acc
            }
        },
    }
}

/// Folds `fdinfo_step` over `ls`, first line first.
pub open spec fn fdinfo_fold(acc: (Option<Seq<char>>, u64, u64), ls: Seq<Seq<char>>) -> (
    Option<Seq<char>>,
    u64,
    u64,
)
    decreases ls.len(),
{
    if ls.len() == 0 {
        acc
    } else {
        fdinfo_fold(fdinfo_step(acc, ls[0]), ls.drop_first())
    }
}

/// What an fdinfo file says: its `drm-pdev`, the sum of its
/// `drm-engine-*` busy times, and its `drm-memory-vram` in bytes.
pub open spec fn fdinfo_fields(content: Seq<char>) -> (Option<Seq<char>>, u64, u64) {
    fdinfo_fold((None, 0, 0), lines(content))
}

/// A line the fdinfo reader skips: no `key: value` shape, or a key other
/// than `drm-pdev`, `drm-engine-*` and `drm-memory-vram`.
pub open spec fn ignored_line(line: Seq<char>) -> bool {
    match split_once(line, ':') {
        None => true,
        Some((k, _)) => {
            let key = trim(k);
            key != "drm-pdev"@ && !starts_with(key, "drm-engine-"@) && key != "drm-memory-vram"@
        },
    }
}

/// Parser law: inserting a line that is not a DRM statistic anywhere in an
/// fdinfo text leaves what is read from it unchanged.
pub proof fn lemma_ignored_line_changes_nothing(
    acc: (Option<Seq<char>>, u64, u64),
    before: Seq<Seq<char>>,
    line: Seq<char>,
    after: Seq<Seq<char>>,
)
    requires
        ignored_line(line),
    ensures
        fdinfo_fold(acc, before + seq![line] + after) == fdinfo_fold(acc, before + after),
    decreases before.len(),
{
    if before.len() == 0 {
        assert(before + seq![line] + after =~= seq![line] + after);
        assert(before + after =~= after);
        assert((seq![line] + after).drop_first() =~= after);
        assert(fdinfo_step(acc, line) == acc);
    } else {
        let rest = before.drop_first();
        lemma_ignored_line_changes_nothing(fdinfo_step(acc, before[0]), rest, line, after);
        assert((before + seq![line] + after).drop_first() =~= rest + seq![line] + after);
        assert((before + after).drop_first() =~= rest + after);
        assert((before + seq![line] + after)[0] == before[0]);
        assert((before + after)[0] == before[0]);
    }
}

/// A `drm-pdev` line.
pub open spec fn pdev_line(line: Seq<char>) -> bool {
    match split_once(line, ':') {
        Some((k, _)) => trim(k) == "drm-pdev"@,
        None => false,
    }
}

/// The trimmed value of a `key: value` line.
pub open spec fn line_value(line: Seq<char>) -> Seq<char> {
    match split_once(line, ':') {
        Some((_, v)) => trim(v),
        None => line,
    }
}

/// The nanoseconds a `drm-engine-*` line reports, 0 for any other line or
/// a value that is not `<number> ns`.
pub open spec fn engine_ns(line: Seq<char>) -> int {
    match split_once(line, ':') {
        Some((k, v)) => if starts_with(trim(k), "drm-engine-"@) {
            match strip_suffix(trim(v), " ns"@) {
                Some(n) => match parse_unsigned(n, u64::MAX as nat) {
                    Some(ns) => ns as int,
                    None => 0,
                },
                None => 0,
            }
        } else {
            0
        },
        None => 0,
    }
}

proof fn lemma_keys_differ()
    ensures
        !starts_with("drm-pdev"@, "drm-engine-"@),
        !starts_with("drm-memory-vram"@, "drm-engine-"@),
        "drm-memory-vram"@ != "drm-pdev"@,
{
    reveal_strlit("drm-pdev");
    reveal_strlit("drm-engine-");
    reveal_strlit("drm-memory-vram");
    assert("drm-memory-vram"@.subrange(0, 11)[4] != "drm-engine-"@[4]);
    assert("drm-memory-vram"@.len() != "drm-pdev"@.len());
}

proof fn lemma_fold_reads_last_vram(acc: (Option<Seq<char>>, u64, u64), ls: Seq<Seq<char>>)
    ensures
        forall|k: int|
            0 <= k < ls.len() && vram_key_line(#[trigger] ls[k]) && (forall|m: int|
                k < m < ls.len() ==> !vram_key_line(ls[m])) ==> fdinfo_fold(acc, ls).2 == (match kib_bytes(
                line_value(ls[k]),
            ) {
                Some(b) => b as u64,
                None => 0u64,
            }),
    decreases ls.len(),
{
    if ls.len() > 0 {
        let next = fdinfo_step(acc, ls[0]);
        let rest = ls.drop_first();
        lemma_fold_reads_last_vram(next, rest);
        lemma_keys_differ();
        assert(vram_key_line(ls[0]) ==> next.2 == (match kib_bytes(line_value(ls[0])) {
            Some(b) => b as u64,
            None => 0u64,
        }));
        assert forall|k: int|
            0 <= k < ls.len() && vram_key_line(#[trigger] ls[k]) && (forall|m: int|
                k < m < ls.len() ==> !vram_key_line(ls[m])) implies fdinfo_fold(acc, ls).2 == (match kib_bytes(
                line_value(ls[k]),
            ) {
                Some(b) => b as u64,
                None => 0u64,
            }) by {
            if k == 0 {
                assert forall|m: int| 0 <= m < rest.len() implies !vram_key_line(#[trigger] rest[m]) by {
                    assert(rest[m] == ls[m + 1]);
                }
                lemma_fold_keeps_vram(next, rest);
            } else {
                assert(rest[k - 1] == ls[k]);
                assert forall|m: int| k - 1 < m < rest.len() implies !vram_key_line(rest[m]) by {
                    assert(rest[m] == ls[m + 1]);
                }
            }
        }
    }
}

proof fn lemma_fold_reads_lines(acc: (Option<Seq<char>>, u64, u64), ls: Seq<Seq<char>>)
    ensures
        fdinfo_fold(acc, ls).1 == cap_u64(acc.1 + int_sum(Seq::new(ls.len(), |k: int| engine_ns(ls[k])))),
        int_sum(Seq::new(ls.len(), |k: int| engine_ns(ls[k]))) >= 0,
        (forall|k: int| 0 <= k < ls.len() ==> !pdev_line(#[trigger] ls[k])) ==> fdinfo_fold(acc, ls).0 == acc.0,
        forall|k: int|
            0 <= k < ls.len() && pdev_line(#[trigger] ls[k]) && (forall|m: int| k < m < ls.len() ==> !pdev_line(ls[m]))
                ==> fdinfo_fold(acc, ls).0 == Some(line_value(ls[k])),
    decreases ls.len(),
{
    if ls.len() > 0 {
        let next = fdinfo_step(acc, ls[0]);
        let rest = ls.drop_first();
        lemma_fold_reads_lines(next, rest);
        assert(Seq::new(ls.len(), |k: int| engine_ns(ls[k])).drop_first() =~= Seq::new(
            rest.len(),
            |k: int| engine_ns(rest[k]),
        ));
        lemma_keys_differ();
        assert(next.1 == cap_u64(acc.1 + engine_ns(ls[0])));
        assert(engine_ns(ls[0]) >= 0);
        assert(pdev_line(ls[0]) ==> next.0 == Some(line_value(ls[0])));
        assert(!pdev_line(ls[0]) ==> next.0 == acc.0);
        assert forall|k: int|
            0 <= k < ls.len() && pdev_line(#[trigger] ls[k]) && (forall|m: int| k < m < ls.len() ==> !pdev_line(ls[m]))
                implies fdinfo_fold(acc, ls).0 == Some(line_value(ls[k])) by {
            if k == 0 {
                assert forall|m: int| 0 <= m < rest.len() implies !pdev_line(#[trigger] rest[m]) by {
                    assert(rest[m] == ls[m + 1]);
                }
            } else {
                assert(rest[k - 1] == ls[k]);
                assert forall|m: int| k - 1 < m < rest.len() implies !pdev_line(rest[m]) by {
                    assert(rest[m] == ls[m + 1]);
                }
            }
        }
        if forall|k: int| 0 <= k < ls.len() ==> !pdev_line(#[trigger] ls[k]) {
            assert forall|m: int| 0 <= m < rest.len() implies !pdev_line(#[trigger] rest[m]) by {
                assert(rest[m] == ls[m + 1]);
            }
        }
    }
}

/// Parser law: the card of an fdinfo text is the value of its last
/// `drm-pdev` line (none without one), its busy time is the sum of the
/// nanoseconds of all its `drm-engine-*` lines, capped at `u64::MAX`, and
/// its VRAM is what its last `drm-memory-vram` line reads (0 when that value
/// is unreadable or there is no such line).
pub proof fn lemma_fdinfo_reads_last_pdev_and_sums_engines(content: Seq<char>)
    ensures
        fdinfo_fields(content).1 == cap_u64(
            int_sum(Seq::new(lines(content).len(), |k: int| engine_ns(lines(content)[k]))),
        ),
        (forall|k: int| 0 <= k < lines(content).len() ==> !pdev_line(#[trigger] lines(content)[k]))
            ==> fdinfo_fields(content).0 is None,
        forall|k: int|
            0 <= k < lines(content).len() && pdev_line(#[trigger] lines(content)[k]) && (forall|m: int|
                k < m < lines(content).len() ==> !pdev_line(lines(content)[m])) ==> fdinfo_fields(content).0
                == Some(line_value(lines(content)[k])),
        forall|k: int|
            0 <= k < lines(content).len() && vram_key_line(#[trigger] lines(content)[k]) && (forall|m: int|
                k < m < lines(content).len() ==> !vram_key_line(lines(content)[m])) ==> fdinfo_fields(content).2
                == (match kib_bytes(line_value(lines(content)[k])) {
                Some(b) => b as u64,
                None => 0u64,
            }),
        !reports_vram(content) ==> fdinfo_fields(content).2 == 0,
{
    lemma_fold_reads_lines((None, 0, 0), lines(content));
    lemma_fold_reads_last_vram((None, 0, 0), lines(content));
    if !reports_vram(content) {
        assert forall|k: int| 0 <= k < lines(content).len() implies !vram_key_line(#[trigger] lines(content)[k]) by {}
        lemma_fold_keeps_vram((None, 0, 0), lines(content));
    }
}

/// A `drm-memory-vram` line's value fits in `u64` bytes; other lines
/// always pass.
pub open spec fn vram_line_fits(line: Seq<char>) -> bool {
    match split_once(line, ':') {
        Some((k, v)) => trim(k) == "drm-memory-vram"@ ==> kib_fits(trim(v)),
        None => true,
    }
}

/// Every `drm-memory-vram` value of an fdinfo text fits in `u64` bytes.
pub open spec fn fdinfo_fits(content: Seq<char>) -> bool {
    forall|k: int| 0 <= k < lines(content).len() ==> vram_line_fits(#[trigger] lines(content)[k])
}

/// The fields of one DRM fdinfo file that the per-process view uses.
pub struct ParsedFd {
    pub pdev: Option<String>,
    pub busy_ns: u64,
    pub vram_bytes: u64,
}

impl View for ParsedFd {
    type V = (Option<Seq<char>>, u64, u64);

    open spec fn view(&self) -> (Option<Seq<char>>, u64, u64) {
        (
            match self.pdev {
                Some(p) => Some(p@),
                None => None,
            },
            self.busy_ns,
            self.vram_bytes,
        )
    }
}

fn kib_count_range(s: &[char], lo: usize, hi: usize) -> (r: Option<u64>)
    requires
        lo <= hi <= s@.len(),
    ensures
        r == (match kib_count(s@.subrange(lo as int, hi as int)) {
            Some(k) => Some(k as u64),
            None => None::<u64>,
        }),
{
    let ghost v = s@.subrange(lo as int, hi as int);
    let kib_sfx = chars_of(" KiB");
    let kb_sfx = chars_of(" kB");
    let (a, b) = trim_range(s, lo, hi);
    let ghost t = s@.subrange(a as int, b as int);
    let end = if range_ends_with(s, a, b, kib_sfx.as_slice()) {
        proof {
            assert(t.subrange(0, t.len() - kib_sfx@.len()) =~= s@.subrange(a as int, b - kib_sfx@.len()));
        }
        b - kib_sfx.len()
    } else if range_ends_with(s, a, b, kb_sfx.as_slice()) {
        proof {
            assert(t.subrange(0, t.len() - kb_sfx@.len()) =~= s@.subrange(a as int, b - kb_sfx@.len()));
        }
        b - kb_sfx.len()
    } else {
        return None;
    };
    let (c, d) = trim_range(s, a, end);
    parse_unsigned_range(s, c, d, u64::MAX)
}

fn kib_range(s: &[char], lo: usize, hi: usize) -> (r: Option<u64>)
    requires
        lo <= hi <= s@.len(),
        kib_fits(s@.subrange(lo as int, hi as int)),
    ensures
        r == (match kib_bytes(s@.subrange(lo as int, hi as int)) {
            Some(b) => Some(b as u64),
            None => None::<u64>,
        }),
{
    match kib_count_range(s, lo, hi) {
        Some(k) => Some(k * 1024),
        None => None,
    }
}

/// Whether every `drm-memory-vram` value of an fdinfo text fits in `u64`
/// bytes, so that `parse_fdinfo` can read it.
pub fn fdinfo_values_fit(content: &str) -> (r: bool)
    ensures
        r == fdinfo_fits(content@),
{
    let cs = chars_of(content);
    let s = cs.as_slice();
    let ls = line_ranges(s);
    let vram_key = chars_of("drm-memory-vram");
    let ghost all = lines(content@);
    let mut i: usize = 0;
    while i < ls.len()
        invariant
            s@ == content@,
            all == lines(s@),
            vram_key@ == "drm-memory-vram"@,
            ls@.len() == all.len(),
            forall|k: int| #![trigger ls@[k]] 0 <= k < ls@.len() ==> ls@[k].0 <= ls@[k].1 && ls@[k].1 <= s@.len(),
            forall|k: int|
                0 <= k < ls@.len() ==> s@.subrange(ls@[k].0 as int, ls@[k].1 as int) == #[trigger] all[k],
            i <= ls@.len(),
            forall|k: int| 0 <= k < i ==> vram_line_fits(#[trigger] all[k]),
        decreases ls@.len() - i,
    {
        let (lo, hi) = ls[i];
        let ghost line = all[i as int];
        proof {
            assert(ls@[i as int].0 <= ls@[i as int].1);
            assert(s@.subrange(lo as int, hi as int) == line);
        }
        let colon = find_char_in(s, lo, hi, ':');
        if colon < hi {
            let (ka, kb) = trim_range(s, lo, colon);
            let (va, vb) = trim_range(s, colon + 1, hi);
            proof {
                assert(line.subrange(0, colon - lo) =~= s@.subrange(lo as int, colon as int));
                assert(line.subrange(colon - lo + 1, line.len() as int) =~= s@.subrange(colon + 1, hi as int));
            }
            if range_eq(s, ka, kb, vram_key.as_slice()) {
                match kib_count_range(s, va, vb) {
                    Some(k) => {
                        if k > 18014398509481983 {
                            return false;
                        }
                    },
                    None => {},
                }
            }
        }
        i = i + 1;
    }
    true
}

/// Bytes in a `"<n> KiB"` or `"<n> kB"` value; `None` for anything else.
pub fn parse_kib(value: &str) -> (r: Option<u64>)
    requires
        kib_fits(value@),
    ensures
        r == (match kib_bytes(value@) {
            Some(b) => Some(b as u64),
            None => None::<u64>,
        }),
{
    let cs = chars_of(value);
    proof {
        assert(cs@.subrange(0, cs@.len() as int) =~= value@);
    }
    kib_range(cs.as_slice(), 0, cs.len())
}


/// Reads the `drm-pdev`, summed `drm-engine-*` busy nanoseconds and
/// `drm-memory-vram` bytes from the text of one `/proc/<pid>/fdinfo/<fd>`.
pub fn parse_fdinfo(content: &str) -> (r: ParsedFd)
    requires
        fdinfo_fits(content@),
    ensures
        r@ == fdinfo_fields(content@),
{
    let cs = chars_of(content);
    let s = cs.as_slice();
    let ls = line_ranges(s);
    let pdev_key = chars_of("drm-pdev");
    let engine_key = chars_of("drm-engine-");
    let ns_sfx = chars_of(" ns");
    let vram_key = chars_of("drm-memory-vram");
    let ghost all = lines(content@);
    let mut out = ParsedFd { pdev: None, busy_ns: 0, vram_bytes: 0 };
    let mut i: usize = 0;
    proof {
        assert(all.subrange(0, all.len() as int) =~= all);
    }
    while i < ls.len()
        invariant
            s@ == content@,
            all == lines(s@),
            pdev_key@ == "drm-pdev"@,
            engine_key@ == "drm-engine-"@,
            ns_sfx@ == " ns"@,
            vram_key@ == "drm-memory-vram"@,
            fdinfo_fits(content@),
            ls@.len() == all.len(),
            forall|k: int| #![trigger ls@[k]] 0 <= k < ls@.len() ==> ls@[k].0 <= ls@[k].1 && ls@[k].1 <= s@.len(),
            forall|k: int|
                0 <= k < ls@.len() ==> s@.subrange(ls@[k].0 as int, ls@[k].1 as int) == #[trigger] all[k],
            i <= ls@.len(),
            fdinfo_fold(out@, all.subrange(i as int, all.len() as int)) == fdinfo_fields(content@),
        decreases ls@.len() - i,
    {
        let (lo, hi) = ls[i];
        let ghost line = all[i as int];
        let ghost before = out@;
        proof {
            assert(ls@[i as int].0 <= ls@[i as int].1);
            assert(s@.subrange(lo as int, hi as int) == line);
            assert(vram_line_fits(line));
            let rest = all.subrange(i as int, all.len() as int);
            assert(rest[0] == line);
            assert(rest.drop_first() =~= all.subrange(i + 1, all.len() as int));
        }
        let colon = find_char_in(s, lo, hi, ':');
        if colon < hi {
            let (ka, kb) = trim_range(s, lo, colon);
            let (va, vb) = trim_range(s, colon + 1, hi);
            proof {
                assert(line.subrange(0, colon - lo) =~= s@.subrange(lo as int, colon as int));
                assert(line.subrange(colon - lo + 1, line.len() as int) =~= s@.subrange(colon + 1, hi as int));
            }
            let ghost key = s@.subrange(ka as int, kb as int);
            let ghost value = s@.subrange(va as int, vb as int);
            if range_eq(s, ka, kb, pdev_key.as_slice()) {
                out.pdev = Some(string_of_range(s, va, vb));
            } else if range_starts_with(s, ka, kb, engine_key.as_slice()) {
                if range_ends_with(s, va, vb, ns_sfx.as_slice()) {
                    let end = vb - ns_sfx.len();
                    proof {
                        assert(value.subrange(0, value.len() - ns_sfx@.len()) =~= s@.subrange(va as int, end as int));
                    }
                    match parse_unsigned_range(s, va, end, u64::MAX) {
                        Some(ns) => {
                            out.busy_ns = out.busy_ns.saturating_add(ns);
                        },
                        None => {},
                    }
                }
            } else if range_eq(s, ka, kb, vram_key.as_slice()) {
                out.vram_bytes = match kib_range(s, va, vb) {
                    Some(b) => b,
                    None => 0,
                };
            }
        }
        proof {
            assert(out@ == fdinfo_step(before, line));
        }
        i = i + 1;
    }
    proof {
        assert(all.subrange(i as int, all.len() as int) =~= Seq::<Seq<char>>::empty());
    }
    out
}


/// One DRM file descriptor of one process: the pid and the text of its
/// `fdinfo` entry.
pub struct FdRecord {
    pub pid: u32,
    pub fdinfo: String,
}

/// Per-process totals over all of a process's DRM file descriptors that
/// belong to the watched card.
#[derive(Clone, Copy, Debug)]
pub struct PidAggregate {
    pub pid: u32,
    /// Sum of `drm-engine-*` across all fds of this pid.
    pub busy_ns: u64,
    /// Sum of `drm-memory-vram` across all fds of this pid.
    pub vram_bytes: u64,
}

impl View for PidAggregate {
    type V = (u32, u64, u64);

    open spec fn view(&self) -> (u32, u64, u64) {
        (self.pid, self.busy_ns, self.vram_bytes)
    }
}

/// Index of the first entry for `pid`, or `acc.len()`.
pub open spec fn index_of_pid(acc: Seq<(u32, u64, u64)>, pid: u32) -> int
    decreases acc.len(),
{
    if acc.len() == 0 {
        0
    } else if acc[0].0 == pid {
        0
    } else {
        1 + index_of_pid(acc.drop_first(), pid)
    }
}

/// `index_of_pid` is the first index holding `pid`.
pub proof fn lemma_index_of_pid_is(acc: Seq<(u32, u64, u64)>, pid: u32, i: int)
    requires
        0 <= i <= acc.len(),
        forall|k: int| 0 <= k < i ==> acc[k].0 != pid,
        i == acc.len() || acc[i].0 == pid,
    ensures
        index_of_pid(acc, pid) == i,
    decreases i,
{
    if i > 0 {
        lemma_index_of_pid_is(acc.drop_first(), pid, i - 1);
    }
}

/// Adds one fd's figures to the per-pid totals when it is on `target`.
pub open spec fn aggregate_step(
    acc: Seq<(u32, u64, u64)>,
    rec: (u32, Seq<char>),
    target: Seq<char>,
) -> Seq<(u32, u64, u64)> {
    let f = fdinfo_fields(rec.1);
    if f.0 == Some(target) {
        let i = index_of_pid(acc, rec.0);
        if 0 <= i < acc.len() {
            acc.update(i, (rec.0, sat_add(acc[i].1, f.1), sat_add(acc[i].2, f.2)))
        } else {
            acc.push((rec.0, f.1, f.2))
        }
    } else {
        acc
    }
}

/// Folds `aggregate_step` over `recs`, first record first.
pub open spec fn aggregate_fold(
    acc: Seq<(u32, u64, u64)>,
    recs: Seq<(u32, Seq<char>)>,
    target: Seq<char>,
) -> Seq<(u32, u64, u64)>
    decreases recs.len(),
{
    if recs.len() == 0 {
        acc
    } else {
        aggregate_fold(aggregate_step(acc, recs[0], target), recs.drop_first(), target)
    }
}

/// The records by `(pid, fdinfo text)`.
pub open spec fn record_views(recs: Seq<FdRecord>) -> Seq<(u32, Seq<char>)> {
    recs.map_values(|r: FdRecord| (r.pid, r.fdinfo@))
}

/// No pid occurs twice.
pub open spec fn distinct_pids(a: Seq<(u32, u64, u64)>) -> bool {
    forall|i: int, j: int| 0 <= i < j < a.len() ==> a[i].0 != a[j].0
}

fn same_chars(a: &str, b: &str) -> (r: bool)
    ensures
        r == (a@ == b@),
{
    let x = chars_of(a);
    let y = chars_of(b);
    let r = range_eq(x.as_slice(), 0, x.len(), y.as_slice());
    proof {
        assert(x@.subrange(0, x@.len() as int) =~= x@);
    }
    r
}

/// Sums the busy time and VRAM of the fds that are on the card
/// `target_pdev`, one entry per pid, pids in the order they first appear.
pub fn aggregate_fdinfo(records: &[FdRecord], target_pdev: &str) -> (r: Vec<PidAggregate>)
    requires
        forall|k: int| 0 <= k < records@.len() ==> fdinfo_fits(#[trigger] records@[k].fdinfo@),
    ensures
        r@.map_values(|a: PidAggregate| a@) == aggregate_fold(
            Seq::empty(),
            record_views(records@),
            target_pdev@,
        ),
        distinct_pids(r@.map_values(|a: PidAggregate| a@)),
        forall|i: int|
            0 <= i < r@.len() ==> (#[trigger] r@[i]).busy_ns == cap_u64(
                pid_total(record_views(records@), target_pdev@, r@[i].pid, true),
            ) && r@[i].vram_bytes == cap_u64(pid_total(record_views(records@), target_pdev@, r@[i].pid, false)),
        forall|pid: u32|
            has_fd_on(record_views(records@), target_pdev@, pid) <==> exists|i: int|
                0 <= i < r@.len() && (#[trigger] r@[i]).pid == pid,
{
    let out = aggregate_records(records, target_pdev);
    proof {
        let recs = record_views(records@);
        let v = out@.map_values(|a: PidAggregate| a@);
        assert forall|i: int| 0 <= i < out@.len() implies (#[trigger] out@[i]).busy_ns == cap_u64(
            pid_total(recs, target_pdev@, out@[i].pid, true),
        ) && out@[i].vram_bytes == cap_u64(pid_total(recs, target_pdev@, out@[i].pid, false)) by {
            lemma_aggregate_sums_per_pid(recs, target_pdev@, out@[i].pid);
            assert(v[i] == out@[i]@);
        }
        assert forall|pid: u32| has_fd_on(recs, target_pdev@, pid) <==> exists|i: int|
            0 <= i < out@.len() && (#[trigger] out@[i]).pid == pid by {
            lemma_aggregate_sums_per_pid(recs, target_pdev@, pid);
            if has_fd_on(recs, target_pdev@, pid) {
                let i = choose|i: int| 0 <= i < v.len() && (#[trigger] v[i]).0 == pid;
                assert(out@[i].pid == pid);
            }
            if exists|i: int| 0 <= i < out@.len() && (#[trigger] out@[i]).pid == pid {
                let i = choose|i: int| 0 <= i < out@.len() && (#[trigger] out@[i]).pid == pid;
                assert(v[i].0 == pid);
            }
        }
    }
    out
}

fn aggregate_records(records: &[FdRecord], target_pdev: &str) -> (r: Vec<PidAggregate>)
    requires
        forall|k: int| 0 <= k < records@.len() ==> fdinfo_fits(#[trigger] records@[k].fdinfo@),
    ensures
        r@.map_values(|a: PidAggregate| a@) == aggregate_fold(
            Seq::empty(),
            record_views(records@),
            target_pdev@,
        ),
        distinct_pids(r@.map_values(|a: PidAggregate| a@)),
{
    let ghost recs = record_views(records@);
    let ghost target = target_pdev@;
    let mut out: Vec<PidAggregate> = Vec::new();
    let mut i: usize = 0;
    proof {
        assert(recs.subrange(0, recs.len() as int) =~= recs);
        assert(out@.map_values(|a: PidAggregate| a@) =~= Seq::<(u32, u64, u64)>::empty());
    }
    while i < records.len()
        invariant
            recs == record_views(records@),
            target == target_pdev@,
            forall|k: int| 0 <= k < records@.len() ==> fdinfo_fits(#[trigger] records@[k].fdinfo@),
            i <= records@.len(),
            recs.len() == records@.len(),
            aggregate_fold(out@.map_values(|a: PidAggregate| a@), recs.subrange(i as int, recs.len() as int), target)
                == aggregate_fold(Seq::empty(), recs, target),
            distinct_pids(out@.map_values(|a: PidAggregate| a@)),
        decreases records@.len() - i,
    {
        let rec = &records[i];
        let ghost acc = out@.map_values(|a: PidAggregate| a@);
        proof {
            assert(fdinfo_fits(records@[i as int].fdinfo@));
            let rest = recs.subrange(i as int, recs.len() as int);
            assert(rest[0] == (rec.pid, rec.fdinfo@));
            assert(rest.drop_first() =~= recs.subrange(i + 1, recs.len() as int));
        }
        let parsed = parse_fdinfo(rec.fdinfo.as_str());
        let on_target = match &parsed.pdev {
            Some(p) => same_chars(p.as_str(), target_pdev),
            None => false,
        };
        if on_target {
            let mut j: usize = 0;
            while j < out.len() && out[j].pid != rec.pid
                invariant
                    j <= out@.len(),
                    forall|k: int| 0 <= k < j ==> out@[k].pid != rec.pid,
                decreases out@.len() - j,
            {
                j = j + 1;
            }
            proof {
                lemma_index_of_pid_is(acc, rec.pid, j as int);
            }
            if j < out.len() {
                let cur = out[j];
                out.set(j, PidAggregate {
                    pid: rec.pid,
                    busy_ns: cur.busy_ns.saturating_add(parsed.busy_ns),
                    vram_bytes: cur.vram_bytes.saturating_add(parsed.vram_bytes),
                });
            } else {
                out.push(PidAggregate {
                    pid: rec.pid,
                    busy_ns: parsed.busy_ns,
                    vram_bytes: parsed.vram_bytes,
                });
            }
        }
        proof {
            let new_acc = out@.map_values(|a: PidAggregate| a@);
            assert(new_acc =~= aggregate_step(acc, (rec.pid, rec.fdinfo@), target));
        }
        i = i + 1;
    }
    proof {
        assert(recs.subrange(i as int, recs.len() as int) =~= Seq::<(u32, Seq<char>)>::empty());
    }
    out
}

/// A line whose key is `drm-memory-vram`, whatever its value.
pub open spec fn vram_key_line(line: Seq<char>) -> bool {
    match split_once(line, ':') {
        Some((k, _)) => trim(k) == "drm-memory-vram"@,
        None => false,
    }
}

/// The fdinfo text has a `drm-memory-vram` key.
pub open spec fn reports_vram(content: Seq<char>) -> bool {
    exists|k: int| 0 <= k < lines(content).len() && vram_key_line(#[trigger] lines(content)[k])
}

/// Some fd of `pid` on the card `target` has a `drm-memory-vram` key.
pub open spec fn pid_reports_vram(recs: Seq<(u32, Seq<char>)>, target: Seq<char>, pid: u32) -> bool {
    exists|k: int|
        0 <= k < recs.len() && recs[k].0 == pid && fdinfo_fields(#[trigger] recs[k].1).0 == Some(target)
            && reports_vram(recs[k].1)
}

/// Lines without a `drm-memory-vram` key leave the VRAM figure as it was.
proof fn lemma_fold_keeps_vram(acc: (Option<Seq<char>>, u64, u64), ls: Seq<Seq<char>>)
    requires
        forall|k: int| 0 <= k < ls.len() ==> !vram_key_line(#[trigger] ls[k]),
    ensures
        fdinfo_fold(acc, ls).2 == acc.2,
    decreases ls.len(),
{
    if ls.len() > 0 {
        assert(!vram_key_line(ls[0]));
        assert(fdinfo_step(acc, ls[0]).2 == acc.2);
        assert forall|k: int| 0 <= k < ls.drop_first().len() implies !vram_key_line(#[trigger] ls.drop_first()[k]) by {
            assert(ls.drop_first()[k] == ls[k + 1]);
        }
        lemma_fold_keeps_vram(fdinfo_step(acc, ls[0]), ls.drop_first());
    }
}

/// Memory law: a process none of whose fds on the card has a
/// `drm-memory-vram` key gets a VRAM total of zero from aggregation, so
/// its zero means "not reported", which `pid_reports_vram` tells apart.
pub proof fn lemma_unreported_vram_is_zero(recs: Seq<(u32, Seq<char>)>, target: Seq<char>, pid: u32)
    requires
        !pid_reports_vram(recs, target, pid),
    ensures
        forall|i: int|
            0 <= i < aggregate_fold(Seq::empty(), recs, target).len() && (#[trigger] aggregate_fold(
                Seq::empty(),
                recs,
                target,
            )[i]).0 == pid ==> aggregate_fold(Seq::empty(), recs, target)[i].2 == 0,
{
    lemma_aggregate_keeps_zero_vram(Seq::empty(), recs, target, pid);
}

proof fn lemma_aggregate_keeps_zero_vram(
    acc: Seq<(u32, u64, u64)>,
    recs: Seq<(u32, Seq<char>)>,
    target: Seq<char>,
    pid: u32,
)
    requires
        !pid_reports_vram(recs, target, pid),
        forall|i: int| 0 <= i < acc.len() && (#[trigger] acc[i]).0 == pid ==> acc[i].2 == 0,
    ensures
        forall|i: int|
            0 <= i < aggregate_fold(acc, recs, target).len() && (#[trigger] aggregate_fold(acc, recs, target)[i]).0
                == pid ==> aggregate_fold(acc, recs, target)[i].2 == 0,
    decreases recs.len(),
{
    if recs.len() > 0 {
        let rec = recs[0];
        let next = aggregate_step(acc, rec, target);
        let f = fdinfo_fields(rec.1);
        if rec.0 == pid && f.0 == Some(target) {
            assert(!reports_vram(rec.1));
            assert forall|k: int| 0 <= k < lines(rec.1).len() implies !vram_key_line(#[trigger] lines(rec.1)[k]) by {}
            lemma_fold_keeps_vram((None, 0, 0), lines(rec.1));
        }
        assert forall|i: int| 0 <= i < next.len() && (#[trigger] next[i]).0 == pid implies next[i].2 == 0 by {
            if f.0 == Some(target) {
                let j = index_of_pid(acc, rec.0);
                lemma_index_of_pid_found(acc, rec.0);
                if 0 <= j < acc.len() {
                    if i != j {
                        assert(next[i] == acc[i]);
                    }
                } else if i < acc.len() {
                    assert(next[i] == acc[i]);
                }
            }
        }
        assert forall|k: int|
            0 <= k < recs.drop_first().len() && recs.drop_first()[k].0 == pid && fdinfo_fields(
                #[trigger] recs.drop_first()[k].1,
            ).0 == Some(target) implies !reports_vram(recs.drop_first()[k].1) by {
            assert(recs.drop_first()[k] == recs[k + 1]);
        }
        lemma_aggregate_keeps_zero_vram(next, recs.drop_first(), target, pid);
        assert(aggregate_fold(acc, recs, target) == aggregate_fold(next, recs.drop_first(), target));
    }
}

proof fn lemma_index_of_pid_found(acc: Seq<(u32, u64, u64)>, pid: u32)
    ensures
        0 <= index_of_pid(acc, pid) <= acc.len(),
        index_of_pid(acc, pid) < acc.len() ==> acc[index_of_pid(acc, pid)].0 == pid,
    decreases acc.len(),
{
    if acc.len() > 0 && acc[0].0 != pid {
        lemma_index_of_pid_found(acc.drop_first(), pid);
    }
}

proof fn lemma_index_of_pid_first(acc: Seq<(u32, u64, u64)>, pid: u32)
    ensures
        forall|k: int| 0 <= k < index_of_pid(acc, pid) ==> acc[k].0 != pid,
    decreases acc.len(),
{
    lemma_index_of_pid_found(acc, pid);
    if acc.len() > 0 && acc[0].0 != pid {
        lemma_index_of_pid_first(acc.drop_first(), pid);
        assert forall|k: int| 0 <= k < index_of_pid(acc, pid) implies acc[k].0 != pid by {
            if k > 0 {
                assert(acc[k] == acc.drop_first()[k - 1]);
            }
        }
    }
}

/// The sum of a sequence of integers.
pub open spec fn int_sum(s: Seq<int>) -> int
    decreases s.len(),
{
    if s.len() == 0 {
        0
    } else {
        s[0] + int_sum(s.drop_first())
    }
}

/// `x` capped at `u64::MAX`.
pub open spec fn cap_u64(x: int) -> int {
    if x > u64::MAX {
        u64::MAX as int
    } else {
        x
    }
}

/// What one fd record adds to `pid`'s busy time (`busy`) or VRAM on the
/// card `target`: its own figure when it is `pid`'s and on `target`,
/// nothing otherwise.
pub open spec fn record_share(rec: (u32, Seq<char>), target: Seq<char>, pid: u32, busy: bool) -> int {
    let f = fdinfo_fields(rec.1);
    if rec.0 == pid && f.0 == Some(target) {
        if busy {
            f.1 as int
        } else {
            f.2 as int
        }
    } else {
        0
    }
}

/// The exact total of `pid`'s busy time (`busy`) or VRAM over its fds on
/// `target`.
pub open spec fn pid_total(recs: Seq<(u32, Seq<char>)>, target: Seq<char>, pid: u32, busy: bool) -> int {
    int_sum(Seq::new(recs.len(), |k: int| record_share(recs[k], target, pid, busy)))
}

/// Some fd of `pid` is on the card `target`.
pub open spec fn has_fd_on(recs: Seq<(u32, Seq<char>)>, target: Seq<char>, pid: u32) -> bool {
    exists|k: int| 0 <= k < recs.len() && recs[k].0 == pid && fdinfo_fields(#[trigger] recs[k].1).0 == Some(target)
}

/// The figure `acc` holds for `pid` (0 when it holds none).
spec fn held(acc: Seq<(u32, u64, u64)>, pid: u32, busy: bool) -> int {
    let i = index_of_pid(acc, pid);
    if 0 <= i < acc.len() {
        if busy {
            acc[i].1 as int
        } else {
            acc[i].2 as int
        }
    } else {
        0
    }
}

spec fn listed(acc: Seq<(u32, u64, u64)>, pid: u32) -> bool {
    exists|i: int| 0 <= i < acc.len() && (#[trigger] acc[i]).0 == pid
}

proof fn lemma_listed_iff_index(acc: Seq<(u32, u64, u64)>, pid: u32)
    ensures
        listed(acc, pid) <==> index_of_pid(acc, pid) < acc.len(),
        0 <= index_of_pid(acc, pid) <= acc.len(),
        index_of_pid(acc, pid) < acc.len() ==> acc[index_of_pid(acc, pid)].0 == pid,
        forall|k: int| 0 <= k < index_of_pid(acc, pid) ==> acc[k].0 != pid,
{
    lemma_index_of_pid_found(acc, pid);
    lemma_index_of_pid_first(acc, pid);
    if listed(acc, pid) {
        let i = choose|i: int| 0 <= i < acc.len() && (#[trigger] acc[i]).0 == pid;
        assert(!(index_of_pid(acc, pid) > i));
    }
    if index_of_pid(acc, pid) < acc.len() {
        assert(acc[index_of_pid(acc, pid)].0 == pid);
    }
}

proof fn lemma_step_totals(acc: Seq<(u32, u64, u64)>, rec: (u32, Seq<char>), target: Seq<char>, pid: u32, busy: bool)
    requires
        distinct_pids(acc),
    ensures
        distinct_pids(aggregate_step(acc, rec, target)),
        held(aggregate_step(acc, rec, target), pid, busy) == cap_u64(held(acc, pid, busy) + record_share(rec, target, pid, busy)),
        listed(aggregate_step(acc, rec, target), pid) <==> (listed(acc, pid) || (rec.0 == pid && fdinfo_fields(rec.1).0
            == Some(target))),
{
    let next = aggregate_step(acc, rec, target);
    let f = fdinfo_fields(rec.1);
    lemma_listed_iff_index(acc, pid);
    lemma_listed_iff_index(acc, rec.0);
    if f.0 == Some(target) {
        let i = index_of_pid(acc, rec.0);
        let j = index_of_pid(acc, pid);
        if i < acc.len() {
            assert(next == acc.update(i, (rec.0, sat_add(acc[i].1, f.1), sat_add(acc[i].2, f.2))));
            assert forall|a: int, b: int| 0 <= a < b < next.len() implies next[a].0 != next[b].0 by {
                assert(next[a].0 == acc[a].0);
                assert(next[b].0 == acc[b].0);
            }
            if pid == rec.0 {
                lemma_index_of_pid_is(next, pid, i);
            } else {
                assert forall|k: int| 0 <= k < j implies next[k].0 != pid by {
                    assert(next[k].0 == acc[k].0);
                }
                if j < acc.len() {
                    assert(next[j] == acc[j]);
                }
                lemma_index_of_pid_is(next, pid, j);
                assert(listed(next, pid) ==> listed(acc, pid)) by {
                    if listed(next, pid) {
                        let k = choose|k: int| 0 <= k < next.len() && (#[trigger] next[k]).0 == pid;
                        assert(acc[k].0 == next[k].0);
                    }
                }
            }
        } else {
            assert(next == acc.push((rec.0, f.1, f.2)));
            assert forall|a: int, b: int| 0 <= a < b < next.len() implies next[a].0 != next[b].0 by {
                if b == acc.len() {
                    assert(next[a] == acc[a]);
                } else {
                    assert(next[a] == acc[a]);
                    assert(next[b] == acc[b]);
                }
            }
            if pid == rec.0 {
                lemma_index_of_pid_is(next, pid, i);
                assert(next[acc.len() as int].0 == pid);
            } else {
                assert forall|k: int| 0 <= k < j implies next[k].0 != pid by {
                    if k < acc.len() {
                        assert(next[k] == acc[k]);
                    }
                }
                if j < acc.len() {
                    assert(next[j] == acc[j]);
                    lemma_index_of_pid_is(next, pid, j);
                } else {
                    assert(next[acc.len() as int].0 == rec.0);
                    lemma_index_of_pid_is(next, pid, next.len() as int);
                }
                assert(listed(next, pid) ==> listed(acc, pid)) by {
                    if listed(next, pid) {
                        let k = choose|k: int| 0 <= k < next.len() && (#[trigger] next[k]).0 == pid;
                        assert(k < acc.len());
                        assert(acc[k].0 == next[k].0);
                    }
                }
            }
            assert(listed(next, pid) <== listed(acc, pid)) by {
                if listed(acc, pid) {
                    let k = choose|k: int| 0 <= k < acc.len() && (#[trigger] acc[k]).0 == pid;
                    assert(next[k] == acc[k]);
                }
            }
            if pid == rec.0 {
                assert(listed(next, pid)) by {
                    assert(next[acc.len() as int].0 == pid);
                }
            }
        }
    }
}

proof fn lemma_fold_totals(acc: Seq<(u32, u64, u64)>, recs: Seq<(u32, Seq<char>)>, target: Seq<char>, pid: u32, busy: bool)
    requires
        distinct_pids(acc),
    ensures
        distinct_pids(aggregate_fold(acc, recs, target)),
        pid_total(recs, target, pid, busy) >= 0,
        held(aggregate_fold(acc, recs, target), pid, busy) == cap_u64(held(acc, pid, busy) + pid_total(recs, target, pid, busy)),
        listed(aggregate_fold(acc, recs, target), pid) <==> (listed(acc, pid) || has_fd_on(recs, target, pid)),
    decreases recs.len(),
{
    let shares = Seq::new(recs.len(), |k: int| record_share(recs[k], target, pid, busy));
    if recs.len() == 0 {
        lemma_listed_iff_index(acc, pid);
    } else {
        let next = aggregate_step(acc, recs[0], target);
        let rest = recs.drop_first();
        lemma_step_totals(acc, recs[0], target, pid, busy);
        lemma_fold_totals(next, rest, target, pid, busy);
        assert(shares.drop_first() =~= Seq::new(rest.len(), |k: int| record_share(rest[k], target, pid, busy)));
        assert(pid_total(recs, target, pid, busy) == record_share(recs[0], target, pid, busy) + pid_total(rest, target, pid, busy));
        assert(record_share(recs[0], target, pid, busy) >= 0);
        assert(aggregate_fold(acc, recs, target) == aggregate_fold(next, rest, target));
        lemma_listed_iff_index(acc, pid);
        assert(held(acc, pid, busy) <= u64::MAX);
        assert(has_fd_on(recs, target, pid) <==> (recs[0].0 == pid && fdinfo_fields(recs[0].1).0 == Some(target))
            || has_fd_on(rest, target, pid)) by {
            if has_fd_on(rest, target, pid) {
                let k = choose|k: int| 0 <= k < rest.len() && rest[k].0 == pid && fdinfo_fields(#[trigger] rest[k].1).0 == Some(target);
                assert(recs[k + 1] == rest[k]);
            }
            if has_fd_on(recs, target, pid) {
                let k = choose|k: int| 0 <= k < recs.len() && recs[k].0 == pid && fdinfo_fields(#[trigger] recs[k].1).0 == Some(target);
                if k > 0 {
                    assert(rest[k - 1] == recs[k]);
                }
            }
        }
    }
}

/// Aggregation law: the result lists exactly the pids that have an fd on
/// the card, and each entry holds that pid's busy time and VRAM summed
/// over all its fds on the card, capped at `u64::MAX`.
pub proof fn lemma_aggregate_sums_per_pid(recs: Seq<(u32, Seq<char>)>, target: Seq<char>, pid: u32)
    ensures
        (exists|i: int|
            0 <= i < aggregate_fold(Seq::empty(), recs, target).len() && (#[trigger] aggregate_fold(
                Seq::empty(),
                recs,
                target,
            )[i]).0 == pid) <==> has_fd_on(recs, target, pid),
        forall|i: int|
            0 <= i < aggregate_fold(Seq::empty(), recs, target).len() && (#[trigger] aggregate_fold(
                Seq::empty(),
                recs,
                target,
            )[i]).0 == pid ==> aggregate_fold(Seq::empty(), recs, target)[i].1 == cap_u64(
                pid_total(recs, target, pid, true),
            ) && aggregate_fold(Seq::empty(), recs, target)[i].2 == cap_u64(pid_total(recs, target, pid, false)),
{
    let e = Seq::<(u32, u64, u64)>::empty();
    let res = aggregate_fold(e, recs, target);
    lemma_fold_totals(e, recs, target, pid, true);
    lemma_fold_totals(e, recs, target, pid, false);
    lemma_listed_iff_index(e, pid);
    lemma_listed_iff_index(res, pid);
    assert forall|i: int| 0 <= i < res.len() && (#[trigger] res[i]).0 == pid implies res[i].1 == cap_u64(
        pid_total(recs, target, pid, true),
    ) && res[i].2 == cap_u64(pid_total(recs, target, pid, false)) by {
        let j = index_of_pid(res, pid);
        if i != j {
            assert(!(i < j));
            assert(res[j].0 == res[i].0);
        }
    }
}

/// Whether the fdinfo text has a `drm-memory-vram` key.
pub fn fdinfo_reports_vram(content: &str) -> (r: bool)
    ensures
        r == reports_vram(content@),
{
    let cs = chars_of(content);
    let s = cs.as_slice();
    let ls = line_ranges(s);
    let vram_key = chars_of("drm-memory-vram");
    let ghost all = lines(content@);
    let mut i: usize = 0;
    while i < ls.len()
        invariant
            s@ == content@,
            all == lines(s@),
            vram_key@ == "drm-memory-vram"@,
            ls@.len() == all.len(),
            forall|k: int| #![trigger ls@[k]] 0 <= k < ls@.len() ==> ls@[k].0 <= ls@[k].1 && ls@[k].1 <= s@.len(),
            forall|k: int|
                0 <= k < ls@.len() ==> s@.subrange(ls@[k].0 as int, ls@[k].1 as int) == #[trigger] all[k],
            i <= ls@.len(),
            forall|k: int| 0 <= k < i ==> !vram_key_line(#[trigger] all[k]),
        decreases ls@.len() - i,
    {
        let (lo, hi) = ls[i];
        let ghost line = all[i as int];
        proof {
            assert(ls@[i as int].0 <= ls@[i as int].1);
            assert(s@.subrange(lo as int, hi as int) == line);
        }
        let colon = find_char_in(s, lo, hi, ':');
        if colon < hi {
            let (ka, kb) = trim_range(s, lo, colon);
            proof {
                assert(line.subrange(0, colon - lo) =~= s@.subrange(lo as int, colon as int));
            }
            if range_eq(s, ka, kb, vram_key.as_slice()) {
                proof {
                    assert(vram_key_line(all[i as int]));
                }
                return true;
            }
        }
        proof {
            assert(!vram_key_line(line));
        }
        i = i + 1;
    }
    false
}

/// Whether some fd of `pid` on the card `target_pdev` has a
/// `drm-memory-vram` key; when none has, the card reports no memory for
/// that process.
pub fn pid_reports_vram_in(records: &[FdRecord], target_pdev: &str, pid: u32) -> (r: bool)
    requires
        forall|k: int| 0 <= k < records@.len() ==> fdinfo_fits(#[trigger] records@[k].fdinfo@),
    ensures
        r == pid_reports_vram(record_views(records@), target_pdev@, pid),
{
    let ghost recs = record_views(records@);
    let mut i: usize = 0;
    while i < records.len()
        invariant
            recs == record_views(records@),
            recs.len() == records@.len(),
            forall|k: int| 0 <= k < records@.len() ==> fdinfo_fits(#[trigger] records@[k].fdinfo@),
            i <= records@.len(),
            forall|k: int|
                0 <= k < i ==> !(recs[k].0 == pid && fdinfo_fields(#[trigger] recs[k].1).0 == Some(target_pdev@)
                    && reports_vram(recs[k].1)),
        decreases records@.len() - i,
    {
        let rec = &records[i];
        proof {
            assert(recs[i as int] == (rec.pid, rec.fdinfo@));
            assert(fdinfo_fits(records@[i as int].fdinfo@));
        }
        if rec.pid == pid {
            let parsed = parse_fdinfo(rec.fdinfo.as_str());
            let on_target = match &parsed.pdev {
                Some(p) => same_chars(p.as_str(), target_pdev),
                None => false,
            };
            if on_target && fdinfo_reports_vram(rec.fdinfo.as_str()) {
                proof {
                    assert(fdinfo_fields(recs[i as int].1).0 == Some(target_pdev@));
                }
                return true;
            }
        }
        i = i + 1;
    }
    false
}


/// The readings kept after a scan at `now_ns`: one per live process,
/// holding the time and the process's busy total.
pub open spec fn baselines_after(scan: Seq<PidAggregate>, now_ns: u64) -> Map<u32, (u64, u64)> {
    Map::new(
        |pid: u32| exists|k: int| 0 <= k < scan.len() && scan[k].pid == pid,
        |pid: u32| (now_ns, scan[choose|k: int| 0 <= k < scan.len() && scan[k].pid == pid].busy_ns),
    )
}

/// Baseline law: a process seen in one scan and again in a later one
/// (with distinct pids per scan) gets a utilization reading from the
/// second: the time between the scans and the busy time it added.
pub proof fn lemma_live_process_keeps_baseline(
    first: Seq<PidAggregate>,
    t1: u64,
    i: int,
    t2: u64,
    busy2: u64,
)
    requires
        distinct_pids(first.map_values(|a: PidAggregate| a@)),
        0 <= i < first.len(),
        t1 < t2,
    ensures
        busy_delta(
            if baselines_after(first, t1).contains_key(first[i].pid) {
                Some(baselines_after(first, t1)[first[i].pid])
            } else {
                None
            },
            t2,
            busy2,
        ) == Some(((t2 - t1) as u64, sat_sub(busy2, first[i].busy_ns))),
{
    let m = baselines_after(first, t1);
    let pid = first[i].pid;
    assert(m.contains_key(pid));
    let k = choose|k: int| 0 <= k < first.len() && first[k].pid == pid;
    if k != i {
        let v = first.map_values(|a: PidAggregate| a@);
        assert(v[k].0 == first[k].pid);
        assert(v[i].0 == first[i].pid);
        if k < i {
            assert(v[k].0 != v[i].0);
        } else {
            assert(v[i].0 != v[k].0);
        }
    }
}

/// Baseline law: after a scan, exactly the processes in that scan have a
/// baseline, whatever part of the result a caller keeps; a process missing
/// from the scan gets no utilization reading from the next one.
pub proof fn lemma_missing_process_restarts(first: Seq<PidAggregate>, t1: u64, pid: u32, t2: u64, busy2: u64)
    ensures
        baselines_after(first, t1).contains_key(pid) <==> exists|k: int| 0 <= k < first.len() && first[k].pid == pid,
        !(exists|k: int| 0 <= k < first.len() && first[k].pid == pid) ==> busy_delta(
            if baselines_after(first, t1).contains_key(pid) {
                Some(baselines_after(first, t1)[pid])
            } else {
                None
            },
            t2,
            busy2,
        ) is None,
{
}

/// Per-process GPU statistics of one DRM card, read from `/proc/*/fdinfo`.
pub struct FdinfoProcs {
    target_pdev: String,
    /// pid -> (time of the last reading in ns, cumulative busy ns then)
    last: HashMap<u32, (u64, u64)>,
}

impl FdinfoProcs {
    /// The card whose processes are watched.
    pub closed spec fn pdev(&self) -> Seq<char> {
        self.target_pdev@
    }

    /// The last reading kept for each process.
    pub closed spec fn baselines(&self) -> Map<u32, (u64, u64)> {
        self.last@
    }

    /// A reader for the card at `pdev`; `None` for an empty pdev (no card).
    pub fn new(pdev: String) -> (r: Option<Self>)
        ensures
            r is Some <==> pdev@.len() > 0,
            r matches Some(p) ==> p.pdev() == pdev@ && p.baselines() == Map::<u32, (u64, u64)>::empty(),
    {
        if pdev.as_str().is_empty() {
            return None;
        }
        let last: HashMap<u32, (u64, u64)> = HashMap::new();
        Some(Self { target_pdev: pdev, last })
    }

    /// The watched card's PCI address.
    pub fn target_pdev(&self) -> (r: &str)
        ensures
            r@ == self.pdev(),
    {
        self.target_pdev.as_str()
    }

    /// Records a new reading of every live process taken at `now_ns` and
    /// returns, for each, the time and busy deltas since its previous
    /// reading. Processes that are no longer live lose their baseline.
    pub fn observe(&mut self, scan: &[PidAggregate], now_ns: u64) -> (r: Vec<Option<(u64, u64)>>)
        requires
            distinct_pids(scan@.map_values(|a: PidAggregate| a@)),
        ensures
            final(self).pdev() == old(self).pdev(),
            r@.len() == scan@.len(),
            forall|i: int|
                0 <= i < scan@.len() ==> #[trigger] r@[i] == busy_delta(
                    if old(self).baselines().contains_key(scan@[i].pid) {
                        Some(old(self).baselines()[scan@[i].pid])
                    } else {
                        None
                    },
                    now_ns,
                    scan@[i].busy_ns,
                ),
            final(self).baselines() == baselines_after(scan@, now_ns),
    {
        broadcast use vstd::std_specs::hash::group_hash_axioms;

        let ghost old_map = self.last@;
        let mut fresh: HashMap<u32, (u64, u64)> = HashMap::new();
        let mut out: Vec<Option<(u64, u64)>> = Vec::new();
        let mut i: usize = 0;
        while i < scan.len()
            invariant
                i <= scan@.len(),
                self.last@ == old_map,
                distinct_pids(scan@.map_values(|a: PidAggregate| a@)),
                out@.len() == i,
                forall|k: int|
                    0 <= k < i ==> #[trigger] out@[k] == busy_delta(
                        if old_map.contains_key(scan@[k].pid) {
                            Some(old_map[scan@[k].pid])
                        } else {
                            None
                        },
                        now_ns,
                        scan@[k].busy_ns,
                    ),
                forall|pid: u32|
                    fresh@.contains_key(pid) <==> exists|k: int|
                        0 <= k < i && #[trigger] scan@[k].pid == pid,
                forall|k: int| 0 <= k < i ==> #[trigger] fresh@[scan@[k].pid] == (now_ns, scan@[k].busy_ns),
            decreases scan@.len() - i,
        {
            let agg = scan[i];
            let delta = match self.last.get(&agg.pid) {
                Some(prev) => {
                    let (t, b) = *prev;
                    let dt = now_ns.saturating_sub(t);
                    if dt == 0 {
                        None
                    } else {
                        Some((dt, agg.busy_ns.saturating_sub(b)))
                    }
                },
                None => None,
            };
            out.push(delta);
            fresh.insert(agg.pid, (now_ns, agg.busy_ns));
            proof {
                assert forall|k: int| 0 <= k < i implies scan@[k].pid != agg.pid by {
                    let v = scan@.map_values(|a: PidAggregate| a@);
                    assert(v[k].0 == scan@[k].pid);
                    assert(v[i as int].0 == agg.pid);
                }
                assert forall|pid: u32|
                    fresh@.contains_key(pid) implies exists|k: int|
                        0 <= k < i + 1 && #[trigger] scan@[k].pid == pid by {
                    if pid == agg.pid {
                        assert(scan@[i as int].pid == pid);
                    }
                }
            }
            i = i + 1;
        }
        proof {
            assert(fresh@ =~= baselines_after(scan@, now_ns)) by {
                assert forall|pid: u32| #[trigger] fresh@.contains_key(pid) implies fresh@[pid] == baselines_after(scan@, now_ns)[pid] by {
                    let k = choose|k: int| 0 <= k < scan@.len() && scan@[k].pid == pid;
                    let v = scan@.map_values(|a: PidAggregate| a@);
                    assert forall|m: int| 0 <= m < scan@.len() && scan@[m].pid == pid implies m == k by {
                        if m != k {
                            assert(v[m].0 == scan@[m].pid);
                            assert(v[k].0 == scan@[k].pid);
                            if m < k {
                                assert(v[m].0 != v[k].0);
                            } else {
                                assert(v[k].0 != v[m].0);
                            }
                        }
                    }
                    assert(fresh@[scan@[k].pid] == (now_ns, scan@[k].busy_ns));
                }
            }
        }
        self.last = fresh;
        out
    }
}


/// The pid named by a `/proc` entry, if the name is a `u32`.
pub fn pid_of(name: &str) -> (r: Option<u32>)
    ensures
        r == (match parse_unsigned(name@, u32::MAX as nat) {
            Some(v) => Some(v as u32),
            None => None::<u32>,
        }),
{
    let cs = chars_of(name);
    proof {
        assert(cs@.subrange(0, cs@.len() as int) =~= name@);
    }
    match parse_unsigned_range(cs.as_slice(), 0, cs.len(), 0xffff_ffff) {
        Some(v) => Some(v as u32),
        None => None,
    }
}

/// Whether an fd link target is a DRM card or render node.
pub fn is_drm_node(target: &str) -> (r: bool)
    ensures
        r == (starts_with(target@, "/dev/dri/card"@) || starts_with(target@, "/dev/dri/render"@)),
{
    str_starts_with(target, "/dev/dri/card") || str_starts_with(target, "/dev/dri/render")
}

} // verus!
