//! GPU discovery and backend selection over what `/sys/class/drm` and
//! NVML report.

pub mod amd;
pub mod intel;
pub mod none;
pub mod procs;

use vstd::prelude::*;

use crate::text::{
    append_range, chars_of, contains_char, decimal, first_prefixed, first_prefixed_in, lines,
    range_contains, range_eq, range_starts_with, starts_with, string_of_range,
};

verus! {

/// What the library reads of one entry of `/sys/class/drm`.
pub struct DrmCard {
    /// Entry name such as `card0` or `card0-DP-1` (empty if not UTF-8).
    pub name: String,
    /// File name of the `device` link target, i.e. the PCI address
    /// (empty when the link cannot be read).
    pub pdev: String,
    /// Contents of `device/uevent`, when readable.
    pub uevent: Option<String>,
    /// Whether `device/gpu_busy_percent` is a file.
    pub has_gpu_busy_percent: bool,
    /// Names of the entries of `engine/` that hold a `busy` file.
    pub busy_engines: Vec<String>,
}

/// The text of an optional file, `""` when it is missing.
pub open spec fn text_or_empty(t: Option<String>) -> Seq<char> {
    match t {
        Some(s) => s@,
        None => Seq::empty(),
    }
}

/// True for `cardN` entries; connector entries like `card0-DP-1` hold a `-`.
pub open spec fn is_card_name(name: Seq<char>) -> bool {
    starts_with(name, "card"@) && !contains_char(name, '-')
}

/// True for `/sys/class/drm/cardN` directories. Excludes the connector
/// subdirectories like `card0-DP-1` which contain a hyphen.
pub fn is_card_dir(name: &str) -> (r: bool)
    ensures
        r == is_card_name(name@),
{
    let cs = chars_of(name);
    let card = chars_of("card");
    proof {
        assert(cs@.subrange(0, cs@.len() as int) =~= name@);
    }
    range_starts_with(cs.as_slice(), 0, cs.len(), card.as_slice()) && !range_contains(
        cs.as_slice(),
        0,
        cs.len(),
        '-',
    )
}

/// The card directory whose `device` link names `pdev`.
pub open spec fn card_has_pdev(card: DrmCard, pdev: Seq<char>) -> bool {
    is_card_name(card.name@) && card.pdev@ == pdev
}

/// Finds the `cardN` entry whose `device` link resolves to `pdev`.
/// Returns `None` if no card matches or `pdev` is empty (the no-GPU
/// sentinel).
pub fn resolve_card_by_pdev(pdev: &str, cards: &[DrmCard]) -> (r: Option<usize>)
    ensures
        r is None ==> pdev@.len() == 0 || forall|k: int|
            0 <= k < cards@.len() ==> !card_has_pdev(#[trigger] cards@[k], pdev@),
        r matches Some(i) ==> pdev@.len() > 0 && i < cards@.len() && card_has_pdev(cards@[i as int], pdev@)
            && forall|k: int| 0 <= k < i ==> !card_has_pdev(#[trigger] cards@[k], pdev@),
{
    let want = chars_of(pdev);
    if want.len() == 0 {
        return None;
    }
    let mut i: usize = 0;
    while i < cards.len()
        invariant
            want@ == pdev@,
            pdev@.len() > 0,
            i <= cards@.len(),
            forall|k: int| 0 <= k < i ==> !card_has_pdev(#[trigger] cards@[k], pdev@),
        decreases cards@.len() - i,
    {
        let card = &cards[i];
        if is_card_dir(card.name.as_str()) {
            let have = chars_of(card.pdev.as_str());
            let same = range_eq(have.as_slice(), 0, have.len(), want.as_slice());
            proof {
                assert(have@.subrange(0, have@.len() as int) =~= have@);
            }
            if same {
                return Some(i);
            }
        }
        i = i + 1;
    }
    None
}

/// One GPU as offered for selection.
#[derive(Debug, Clone)]
pub struct GpuInfo {
    pub index: usize,
    pub name: String,
    pub pdev: String,
    pub is_nvidia: bool,
}

impl View for GpuInfo {
    type V = (usize, Seq<char>, Seq<char>, bool);

    open spec fn view(&self) -> (usize, Seq<char>, Seq<char>, bool) {
        (self.index, self.name@, self.pdev@, self.is_nvidia)
    }
}

/// The result of `str::to_lowercase` on a string with the characters `s`.
pub uninterp spec fn lowercase(s: Seq<char>) -> Seq<char>;

/// `str::to_lowercase`: the Unicode lowercase mapping of `s`. Its result is
/// named, not described.
#[verifier::external_body]
fn to_lowercase(s: &str) -> (r: String)
    ensures
        r@ == lowercase(s@),
{
    s.to_lowercase()
}

/// What NVML reported for one device that it could open.
pub struct NvmlDevice {
    /// The NVML device index.
    pub index: u32,
    /// `Device::name`, when it succeeded.
    pub model: Option<String>,
    /// `PciInfo::bus_id`, when `Device::pci_info` succeeded.
    pub bus_id: Option<String>,
}

/// The model name of an NVIDIA device: the reported name, or
/// `NVIDIA GPU <index>`.
pub open spec fn nvml_model(index: u32, model: Option<Seq<char>>) -> Seq<char> {
    match model {
        Some(m) => m,
        None => "NVIDIA GPU "@ + decimal(index as nat),
    }
}

/// The PCI address of an NVIDIA device: its bus id in lower case, or empty.
pub open spec fn nvml_pdev(bus_id: Option<Seq<char>>) -> Seq<char> {
    match bus_id {
        Some(b) => lowercase(b),
        None => Seq::empty(),
    }
}

/// An optional string by its characters.
pub open spec fn opt_view(o: Option<String>) -> Option<Seq<char>> {
    match o {
        Some(s) => Some(s@),
        None => None,
    }
}

/// One NVML sample's warning decision: `(warn now, warned after)`. A
/// failed sample warns only when the previous one did not fail with a
/// warning already given; a good sample clears the flag.
pub open spec fn sample_warning_step(already_warned: bool, sample_ok: bool) -> (bool, bool) {
    if sample_ok {
        (false, false)
    } else {
        (!already_warned, true)
    }
}

/// Decides whether a failed NVML sample is worth a warning: each run of
/// failed samples warns once, at its first failure.
pub fn sample_warning(already_warned: bool, sample_ok: bool) -> (r: (bool, bool))
    ensures
        r == sample_warning_step(already_warned, sample_ok),
{
    if sample_ok {
        (false, false)
    } else {
        (!already_warned, true)
    }
}

/// The number of warnings given over a series of sample outcomes,
/// starting with the flag `warned`.
pub open spec fn warnings_given(warned: bool, oks: Seq<bool>) -> nat
    decreases oks.len(),
{
    if oks.len() == 0 {
        0
    } else {
        let (now, after) = sample_warning_step(warned, oks[0]);
        (if now { 1nat } else { 0nat }) + warnings_given(after, oks.drop_first())
    }
}

/// Warning law: a run of `n >= 1` failed samples gives exactly one warning
/// after a good sample (or at start), and none when its warning was
/// already given.
pub proof fn lemma_one_warning_per_failure_run(warned: bool, n: nat)
    requires
        n >= 1,
    ensures
        warnings_given(warned, Seq::new(n, |i: int| false)) == (if warned { 0nat } else { 1nat }),
    decreases n,
{
    let oks = Seq::new(n, |i: int| false);
    assert(oks[0] == false);
    assert(warnings_given(warned, oks) == (if warned { 0nat } else { 1nat }) + warnings_given(true, oks.drop_first()));
    if n > 1 {
        lemma_one_warning_per_failure_run(true, (n - 1) as nat);
        assert(oks.drop_first() =~= Seq::new((n - 1) as nat, |i: int| false));
    } else {
        assert(oks.drop_first() =~= Seq::<bool>::empty());
        assert(warnings_given(true, oks.drop_first()) == 0);
    }
}

/// The model name of an NVIDIA device: the reported name, or
/// `NVIDIA GPU <index>` when NVML could not tell.
pub fn nvml_model_name(index: u32, model: &Option<String>) -> (r: String)
    ensures
        r@ == nvml_model(index, opt_view(*model)),
{
    match model {
        Some(m) => {
            let cs = chars_of(m.as_str());
            string_of_range(cs.as_slice(), 0, cs.len())
        },
        None => {
            let mut out = String::from_str("NVIDIA GPU ");
            crate::text::append_decimal(&mut out, index as u64);
            out
        },
    }
}

/// The PCI address of an NVIDIA device: its bus id in lower case (as the
/// kernel writes it in fdinfo), or empty when NVML could not tell.
pub fn nvml_pci_address(bus_id: &Option<String>) -> (r: String)
    ensures
        r@ == nvml_pdev(opt_view(*bus_id)),
{
    match bus_id {
        Some(b) => to_lowercase(b.as_str()),
        None => String::new(),
    }
}


/// The driver a card's uevent names (`DRIVER=`), or `unknown`.
pub open spec fn card_driver(uevent: Seq<char>) -> Seq<char> {
    match first_prefixed(lines(uevent), "DRIVER="@) {
        Some(d) => d,
        None => "unknown"@,
    }
}

/// Adds one `/sys/class/drm` entry to the GPU list: `cardN` entries whose
/// PCI address is not listed yet, named `<driver> (<entry>)`.
pub open spec fn enumerate_step(out: Seq<(usize, Seq<char>, Seq<char>, bool)>, card: DrmCard) -> Seq<
    (usize, Seq<char>, Seq<char>, bool),
> {
    if !is_card_name(card.name@) {
        out
    } else if exists|k: int| 0 <= k < out.len() && (#[trigger] out[k]).2 == card.pdev@ {
        out
    } else {
        out.push(
            (
                out.len() as usize,
                card_driver(text_or_empty(card.uevent)) + " ("@ + card.name@ + ")"@,
                card.pdev@,
                false,
            ),
        )
    }
}

/// Adds `cards` to the GPU list `out`, first card first.
pub open spec fn enumerate_fold(out: Seq<(usize, Seq<char>, Seq<char>, bool)>, cards: Seq<DrmCard>) -> Seq<
    (usize, Seq<char>, Seq<char>, bool),
>
    decreases cards.len(),
{
    if cards.len() == 0 {
        out
    } else {
        enumerate_fold(enumerate_step(out, cards[0]), cards.drop_first())
    }
}

/// The NVIDIA entries of the GPU list, in NVML order.
pub open spec fn nvml_entries(devs: Seq<NvmlDevice>) -> Seq<(usize, Seq<char>, Seq<char>, bool)> {
    Seq::new(
        devs.len(),
        |k: int|
            (
                k as usize,
                "NVIDIA "@ + nvml_model(devs[k].index, opt_view(devs[k].model)),
                nvml_pdev(opt_view(devs[k].bus_id)),
                true,
            ),
    )
}

/// The GPU list by its entries' views.
pub open spec fn info_views(v: Seq<GpuInfo>) -> Seq<(usize, Seq<char>, Seq<char>, bool)> {
    v.map_values(|g: GpuInfo| g@)
}

/// Lists every GPU: first the NVIDIA devices NVML opened, then each
/// `/sys/class/drm/cardN` whose PCI address is not listed yet.
pub fn enumerate(nvml: &[NvmlDevice], cards: &[DrmCard]) -> (r: Vec<GpuInfo>)
    ensures
        info_views(r@) == enumerate_fold(nvml_entries(nvml@), cards@),
        forall|k: int| 0 <= k < r@.len() ==> (#[trigger] r@[k]).index == k,
        forall|i: int, j: int|
            0 <= i < j < r@.len() && j >= nvml@.len() ==> (#[trigger] r@[i]).pdev@ != (#[trigger] r@[j]).pdev@,
{
    let mut out: Vec<GpuInfo> = Vec::new();
    let mut i: usize = 0;
    while i < nvml.len()
        invariant
            i <= nvml@.len(),
            info_views(out@) == nvml_entries(nvml@).subrange(0, i as int),
            forall|k: int| 0 <= k < out@.len() ==> (#[trigger] out@[k]).index == k,
        decreases nvml@.len() - i,
    {
        let d = &nvml[i];
        let model = nvml_model_name(d.index, &d.model);
        let mut name = String::from_str("NVIDIA ");
        name.append(model.as_str());
        let pdev = nvml_pci_address(&d.bus_id);
        let ghost before = info_views(out@);
        out.push(GpuInfo { index: i, name, pdev, is_nvidia: true });
        proof {
            assert(info_views(out@) =~= before.push(nvml_entries(nvml@)[i as int]));
            assert(nvml_entries(nvml@).subrange(0, i + 1) =~= nvml_entries(nvml@).subrange(0, i as int).push(nvml_entries(nvml@)[i as int]));
        }
        i = i + 1;
    }
    let ghost start = info_views(out@);
    proof {
        assert(nvml_entries(nvml@).subrange(0, nvml@.len() as int) =~= nvml_entries(nvml@));
        assert(cards@.subrange(0, cards@.len() as int) =~= cards@);
    }
    let mut j: usize = 0;
    while j < cards.len()
        invariant
            j <= cards@.len(),
            start == nvml_entries(nvml@),
            enumerate_fold(info_views(out@), cards@.subrange(j as int, cards@.len() as int))
                == enumerate_fold(start, cards@),
            forall|k: int| 0 <= k < out@.len() ==> (#[trigger] out@[k]).index == k,
            out@.len() >= nvml@.len(),
            forall|a: int, b: int|
                0 <= a < b < out@.len() && b >= nvml@.len() ==> (#[trigger] out@[a]).pdev@ != (#[trigger] out@[b]).pdev@,
        decreases cards@.len() - j,
    {
        let card = &cards[j];
        let ghost acc = info_views(out@);
        proof {
            let rest = cards@.subrange(j as int, cards@.len() as int);
            assert(rest[0] == cards@[j as int]);
            assert(rest.drop_first() =~= cards@.subrange(j + 1, cards@.len() as int));
        }
        if is_card_dir(card.name.as_str()) {
            let want = chars_of(card.pdev.as_str());
            let mut k: usize = 0;
            let mut seen = false;
            while k < out.len()
                invariant
                    k <= out@.len(),
                    acc == info_views(out@),
                    forall|k: int| 0 <= k < out@.len() ==> (#[trigger] out@[k]).index == k,
                    out@.len() >= nvml@.len(),
                    forall|a: int, b: int|
                        0 <= a < b < out@.len() && b >= nvml@.len() ==> (#[trigger] out@[a]).pdev@ != (#[trigger] out@[b]).pdev@,
                    want@ == card.pdev@,
                    seen == exists|m: int| 0 <= m < k && (#[trigger] acc[m]).2 == card.pdev@,
                decreases out@.len() - k,
            {
                let have = chars_of(out[k].pdev.as_str());
                let same = range_eq(have.as_slice(), 0, have.len(), want.as_slice());
                proof {
                    assert(have@.subrange(0, have@.len() as int) =~= have@);
                    assert(acc[k as int].2 == out@[k as int].pdev@);
                    if same {
                        assert(acc[k as int].2 == card.pdev@);
                    }
                }
                seen = seen || same;
                k = k + 1;
            }
            if !seen {
                let uevent_chars = match &card.uevent {
                    Some(u) => chars_of(u.as_str()),
                    None => Vec::new(),
                };
                let driver_key = chars_of("DRIVER=");
                let mut name = String::new();
                match first_prefixed_in(uevent_chars.as_slice(), driver_key.as_slice()) {
                    Some((a, b)) => append_range(&mut name, uevent_chars.as_slice(), a, b),
                    None => name.append("unknown"),
                }
                name.append(" (");
                name.append(card.name.as_str());
                name.append(")");
                let idx = out.len();
                let ghost old_out = out@;
                out.push(GpuInfo { index: idx, name, pdev: card.pdev.clone(), is_nvidia: false });
                proof {
                    assert forall|a: int| 0 <= a < old_out.len() implies old_out[a].pdev@ != card.pdev@ by {
                        assert(acc[a].2 == old_out[a].pdev@);
                    }
                    assert forall|a: int, b: int|
                        0 <= a < b < out@.len() && b >= nvml@.len() implies (#[trigger] out@[a]).pdev@ != (#[trigger] out@[b]).pdev@ by {
                        if b < old_out.len() {
                            assert(out@[a] == old_out[a]);
                            assert(out@[b] == old_out[b]);
                        } else {
                            assert(out@[a] == old_out[a]);
                        }
                    }
                    assert(uevent_chars@ == text_or_empty(card.uevent));
                    assert(info_views(out@) =~= enumerate_step(acc, *card));
                }
            } else {
                proof {
                    assert(info_views(out@) == enumerate_step(acc, *card));
                }
            }
        }
        j = j + 1;
    }
    proof {
        assert(cards@.subrange(j as int, cards@.len() as int) =~= Seq::<DrmCard>::empty());
    }
    out
}

/// The list position that `probe_index` uses for `index`: the requested
/// one, else the first, else none.
pub open spec fn selected_position(len: nat, index: usize) -> Option<int> {
    if index < len {
        Some(index as int)
    } else if len > 0 {
        Some(0)
    } else {
        None
    }
}

/// Number of NVIDIA entries in `v`.
pub open spec fn count_nvidia(v: Seq<GpuInfo>) -> nat
    decreases v.len(),
{
    if v.len() == 0 {
        0
    } else {
        count_nvidia(v.drop_last()) + if v.last().is_nvidia { 1nat } else { 0nat }
    }
}

/// NVIDIA-count law: `count_nvidia` is the number of entries whose
/// NVIDIA flag is set, and a list of only NVIDIA entries counts its length.
pub proof fn lemma_count_nvidia_counts_flags(v: Seq<GpuInfo>)
    ensures
        count_nvidia(v) == v.filter(|g: GpuInfo| g.is_nvidia).len(),
        (forall|k: int| 0 <= k < v.len() ==> (#[trigger] v[k]).is_nvidia) ==> count_nvidia(v) == v.len(),
        (forall|k: int| 0 <= k < v.len() ==> !(#[trigger] v[k]).is_nvidia) ==> count_nvidia(v) == 0,
    decreases v.len(),
{
    let f = |g: GpuInfo| g.is_nvidia;
    reveal(Seq::filter);
    if v.len() > 0 {
        lemma_count_nvidia_counts_flags(v.drop_last());
        assert(v.filter(f) == (if f(v.last()) {
            v.drop_last().filter(f).push(v.last())
        } else {
            v.drop_last().filter(f)
        }));
        assert((forall|k: int| 0 <= k < v.len() ==> (#[trigger] v[k]).is_nvidia) ==> (forall|k: int|
            0 <= k < v.drop_last().len() ==> (#[trigger] v.drop_last()[k]).is_nvidia));
        assert((forall|k: int| 0 <= k < v.len() ==> !(#[trigger] v[k]).is_nvidia) ==> (forall|k: int|
            0 <= k < v.drop_last().len() ==> !(#[trigger] v.drop_last()[k]).is_nvidia));
    }
}

/// The GPU that the sampler is built for.
pub struct GpuTarget {
    pub pdev: String,
    pub is_nvidia: bool,
    /// NVML device index: how many NVIDIA entries precede it in the list.
    pub nvml_index: u32,
}

/// Picks the GPU for `index` in `infos` (falling back to the first) and
/// the NVML index it has when it is an NVIDIA device; `None` when no GPU
/// was found.
pub fn select_gpu(infos: &[GpuInfo], index: usize) -> (r: Option<GpuTarget>)
    requires
        selected_position(infos@.len(), index) matches Some(t) ==> infos@[t].index <= infos@.len(),
    ensures
        r is None <==> selected_position(infos@.len(), index) is None,
        r matches Some(g) ==> {
            let t = selected_position(infos@.len(), index)->Some_0;
            &&& g.pdev@ == infos@[t].pdev@
            &&& g.is_nvidia == infos@[t].is_nvidia
            &&& g.nvml_index == count_nvidia(infos@.subrange(0, infos@[t].index as int)) as u32
            &&& g.nvml_index == infos@.subrange(0, infos@[t].index as int).filter(|e: GpuInfo| e.is_nvidia).len() as u32
        },
{
    proof {
        let t = selected_position(infos@.len(), index);
        if t is Some {
            lemma_count_nvidia_counts_flags(infos@.subrange(0, infos@[t->Some_0].index as int));
        }
    }
    let t = if index < infos.len() {
        index
    } else if infos.len() > 0 {
        0
    } else {
        return None;
    };
    let info = &infos[t];
    let mut count: usize = 0;
    let mut k: usize = 0;
    while k < info.index
        invariant
            info.index <= infos@.len(),
            k <= info.index,
            count <= k,
            count == count_nvidia(infos@.subrange(0, k as int)),
        decreases info.index - k,
    {
        proof {
            assert(infos@.subrange(0, k + 1).drop_last() =~= infos@.subrange(0, k as int));
        }
        if infos[k].is_nvidia {
            count = count + 1;
        }
        k = k + 1;
    }
    let pdev = chars_of(info.pdev.as_str());
    Some(GpuTarget {
        pdev: string_of_range(pdev.as_slice(), 0, pdev.len()),
        is_nvidia: info.is_nvidia,
        nvml_index: count as u32,
    })
}

} // verus!
