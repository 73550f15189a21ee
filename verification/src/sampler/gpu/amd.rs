//! AMD GPUs driven by `amdgpu`, as `/sys/class/drm` describes them.

use vstd::prelude::*;

use super::{card_has_pdev, is_card_dir, is_card_name, resolve_card_by_pdev, DrmCard};
use crate::text::{
    append_range, chars_of, first_prefixed, first_prefixed_in, has_trimmed_line,
    has_trimmed_line_in, lines, trim, trimmed,
};

verus! {

/// A uevent of the `amdgpu` driver: after trimming the file, some line,
/// trimmed, reads `DRIVER=amdgpu`. An unreadable uevent is no AMD GPU.
pub open spec fn amdgpu_uevent(uevent: Option<Seq<char>>) -> bool {
    match uevent {
        Some(c) => has_trimmed_line(lines(trim(c)), "DRIVER=amdgpu"@),
        None => false,
    }
}

/// The name shown for an AMD GPU: the kernel exposes no model string, so
/// `AMD GPU (<PCI_ID>)` from the uevent, else `AMD GPU`.
pub open spec fn amdgpu_name(uevent: Option<Seq<char>>) -> Seq<char> {
    match uevent {
        Some(c) => match first_prefixed(lines(trim(c)), "PCI_ID="@) {
            Some(id) => "AMD GPU ("@ + id + ")"@,
            None => "AMD GPU"@,
        },
        None => "AMD GPU"@,
    }
}

/// The card's uevent text, when it was readable.
pub open spec fn uevent_of(card: DrmCard) -> Option<Seq<char>> {
    match card.uevent {
        Some(u) => Some(u@),
        None => None,
    }
}

/// A card the AMD backend serves: an `amdgpu` device with a
/// `gpu_busy_percent` file.
pub open spec fn amd_serves(card: DrmCard) -> bool {
    amdgpu_uevent(uevent_of(card)) && card.has_gpu_busy_percent
}

/// The backend state for `card`: `(entry, name, pdev)`.
pub open spec fn amd_view_of(card: DrmCard) -> (Seq<char>, Seq<char>, Seq<char>) {
    (card.name@, amdgpu_name(uevent_of(card)), card.pdev@)
}

/// An AMD GPU read through sysfs.
pub struct AmdSysfs {
    card: String,
    name: String,
    pdev: String,
}

impl View for AmdSysfs {
    type V = (Seq<char>, Seq<char>, Seq<char>);

    closed spec fn view(&self) -> (Seq<char>, Seq<char>, Seq<char>) {
        (self.card@, self.name@, self.pdev@)
    }
}

/// Whether the uevent text names the `amdgpu` driver.
pub fn is_amdgpu(uevent: &Option<String>) -> (r: bool)
    ensures
        r == amdgpu_uevent(match uevent {
            Some(u) => Some(u@),
            None => None,
        }),
{
    match uevent {
        Some(u) => {
            let t = trimmed(u.as_str());
            let cs = chars_of(t.as_str());
            let p = chars_of("DRIVER=amdgpu");
            has_trimmed_line_in(cs.as_slice(), p.as_slice(), p.as_slice())
        },
        None => false,
    }
}

/// `AMD GPU (<PCI_ID>)` from the uevent text, when it has a `PCI_ID=` line.
pub fn read_amdgpu_name(uevent: &Option<String>) -> (r: Option<String>)
    ensures
        match uevent {
            Some(u) => match first_prefixed(lines(trim(u@)), "PCI_ID="@) {
                Some(id) => r matches Some(n) && n@ == "AMD GPU ("@ + id + ")"@,
                None => r is None,
            },
            None => r is None,
        },
{
    match uevent {
        Some(u) => {
            let t = trimmed(u.as_str());
            let cs = chars_of(t.as_str());
            let p = chars_of("PCI_ID=");
            match first_prefixed_in(cs.as_slice(), p.as_slice()) {
                Some((a, b)) => {
                    let mut name = String::from_str("AMD GPU (");
                    append_range(&mut name, cs.as_slice(), a, b);
                    name.append(")");
                    Some(name)
                },
                None => None,
            }
        },
        None => None,
    }
}

impl AmdSysfs {
    /// The backend for `card` when the AMD backend serves it.
    pub fn probe_specific(card: &DrmCard) -> (r: Option<Self>)
        ensures
            r is Some <==> amd_serves(*card),
            r matches Some(b) ==> b@ == amd_view_of(*card),
    {
        if !is_amdgpu(&card.uevent) {
            return None;
        }
        if !card.has_gpu_busy_percent {
            return None;
        }
        let name = match read_amdgpu_name(&card.uevent) {
            Some(n) => n,
            None => String::from_str("AMD GPU"),
        };
        Some(AmdSysfs { card: card.name.clone(), name, pdev: card.pdev.clone() })
    }

    /// The first `cardN` entry, in listing order, that the AMD backend serves.
    pub fn probe_in(cards: &[DrmCard]) -> (r: Option<Self>)
        ensures
            r is None ==> forall|k: int|
                0 <= k < cards@.len() ==> !(is_card_name((#[trigger] cards@[k]).name@) && amd_serves(
                    cards@[k],
                )),
            r matches Some(b) ==> exists|k: int|
                0 <= k < cards@.len() && is_card_name((#[trigger] cards@[k]).name@) && amd_serves(
                    cards@[k],
                ) && b@ == amd_view_of(cards@[k]) && forall|j: int|
                    0 <= j < k ==> !(is_card_name((#[trigger] cards@[j]).name@) && amd_serves(
                        cards@[j],
                    )),
    {
        let mut i: usize = 0;
        while i < cards.len()
            invariant
                i <= cards@.len(),
                forall|j: int|
                    0 <= j < i ==> !(is_card_name((#[trigger] cards@[j]).name@) && amd_serves(
                        cards@[j],
                    )),
            decreases cards@.len() - i,
        {
            if is_card_dir(cards[i].name.as_str()) {
                if let Some(b) = Self::probe_specific(&cards[i]) {
                    return Some(b);
                }
            }
            i = i + 1;
        }
        None
    }

    /// The AMD backend for the card at PCI address `pdev`, if it is one.
    pub fn probe_pdev(pdev: &str, cards: &[DrmCard]) -> (r: Option<Self>)
        ensures
            r matches Some(b) ==> exists|k: int|
                0 <= k < cards@.len() && card_has_pdev(#[trigger] cards@[k], pdev@) && amd_serves(
                    cards@[k],
                ) && b@ == amd_view_of(cards@[k]) && pdev@.len() > 0 && forall|j: int|
                    0 <= j < k ==> !card_has_pdev(#[trigger] cards@[j], pdev@),
            r is None ==> pdev@.len() == 0 || forall|k: int|
                0 <= k < cards@.len() && card_has_pdev(#[trigger] cards@[k], pdev@) ==> (forall|j: int|
                    0 <= j < k ==> !card_has_pdev(#[trigger] cards@[j], pdev@)) ==> !amd_serves(
                    cards@[k],
                ),
    {
        match resolve_card_by_pdev(pdev, cards) {
            Some(i) => Self::probe_specific(&cards[i]),
            None => None,
        }
    }

    /// Human-readable model name shown in the popup.
    pub fn name(&self) -> (r: &str)
        ensures
            r@ == self@.1,
    {
        self.name.as_str()
    }

    /// PCI device address like `0000:2b:00.0`.
    pub fn pdev(&self) -> (r: &str)
        ensures
            r@ == self@.2,
    {
        self.pdev.as_str()
    }

    /// The `/sys/class/drm` entry of this card, e.g. `card0`.
    pub fn card(&self) -> (r: &str)
        ensures
            r@ == self@.0,
    {
        self.card.as_str()
    }
}

} // verus!
