//! Intel GPUs driven by `i915` or `xe`, as `/sys/class/drm` describes them.

use vstd::prelude::*;

use super::{card_has_pdev, is_card_dir, is_card_name, resolve_card_by_pdev, DrmCard};
use super::amd::uevent_of;
use crate::sampler::busy_delta;
use crate::text::{
    append_range, chars_of, first_prefixed, first_prefixed_in, has_trimmed_line,
    has_trimmed_line_in, lines, range_eq, string_of_range,
};

verus! {

/// A uevent of the `i915` or `xe` driver: some line, trimmed, reads
/// `DRIVER=i915` or `DRIVER=xe`. An unreadable uevent is no Intel GPU.
pub open spec fn intel_uevent(uevent: Option<Seq<char>>) -> bool {
    match uevent {
        Some(c) => has_trimmed_line(lines(c), "DRIVER=i915"@) || has_trimmed_line(lines(c), "DRIVER=xe"@),
        None => false,
    }
}

/// The name shown for an Intel GPU: `Intel GPU (<PCI_ID>)`, or `Intel GPU`
/// when the uevent is unreadable or its first `PCI_ID=` line is empty or
/// missing.
pub open spec fn intel_name(uevent: Option<Seq<char>>) -> Seq<char> {
    let id = match uevent {
        Some(c) => match first_prefixed(lines(c), "PCI_ID="@) {
            Some(v) => v,
            None => Seq::empty(),
        },
        None => Seq::empty(),
    };
    if id.len() == 0 {
        "Intel GPU"@
    } else {
        "Intel GPU ("@ + id + ")"@
    }
}

/// Lexicographic order of names by character code, as paths compare.
pub open spec fn lex_lt(a: Seq<char>, b: Seq<char>) -> bool
    decreases a.len(),
{
    if a.len() == 0 {
        b.len() > 0
    } else if b.len() == 0 {
        false
    } else if a[0] != b[0] {
        (a[0] as u32) < (b[0] as u32)
    } else {
        lex_lt(a.drop_first(), b.drop_first())
    }
}

/// No name sorts before itself.
pub proof fn lemma_lex_lt_irreflexive(a: Seq<char>)
    ensures
        !lex_lt(a, a),
    decreases a.len(),
{
    if a.len() > 0 {
        lemma_lex_lt_irreflexive(a.drop_first());
    }
}

/// Name order is transitive.
pub proof fn lemma_lex_lt_transitive(a: Seq<char>, b: Seq<char>, c: Seq<char>)
    requires
        lex_lt(a, b),
        lex_lt(b, c),
    ensures
        lex_lt(a, c),
    decreases a.len(),
{
    if a.len() > 0 && b.len() > 0 && c.len() > 0 && a[0] == b[0] && b[0] == c[0] {
        lemma_lex_lt_transitive(a.drop_first(), b.drop_first(), c.drop_first());
    }
}

proof fn lemma_lex_lt_skip(a: Seq<char>, b: Seq<char>, k: int)
    requires
        0 <= k <= a.len(),
        k <= b.len(),
        forall|m: int| 0 <= m < k ==> a[m] == b[m],
    ensures
        lex_lt(a, b) == lex_lt(a.subrange(k, a.len() as int), b.subrange(k, b.len() as int)),
    decreases k,
{
    if k > 0 {
        lemma_lex_lt_skip(a.drop_first(), b.drop_first(), k - 1);
        assert(a.drop_first().subrange(k - 1, a.len() - 1) =~= a.subrange(k, a.len() as int));
        assert(b.drop_first().subrange(k - 1, b.len() - 1) =~= b.subrange(k, b.len() as int));
    } else {
        assert(a.subrange(0, a.len() as int) =~= a);
        assert(b.subrange(0, b.len() as int) =~= b);
    }
}

/// Name-order law: two names compare at their first differing character,
/// by character code, and a proper prefix sorts before the longer name.
pub proof fn lemma_lex_lt_first_difference(a: Seq<char>, b: Seq<char>, k: int)
    requires
        0 <= k <= a.len(),
        k <= b.len(),
        forall|m: int| 0 <= m < k ==> a[m] == b[m],
    ensures
        k < a.len() && k < b.len() && a[k] != b[k] ==> (lex_lt(a, b) <==> (a[k] as u32) < (b[k] as u32)),
        k == a.len() && k < b.len() ==> lex_lt(a, b),
        k == b.len() ==> !lex_lt(a, b),
{
    lemma_lex_lt_skip(a, b, k);
}

fn lex_less(a: &[char], b: &[char]) -> (r: bool)
    ensures
        r == lex_lt(a@, b@),
{
    let mut k: usize = 0;
    while k < a.len() && k < b.len() && a[k] == b[k]
        invariant
            k <= a@.len(),
            k <= b@.len(),
            forall|m: int| 0 <= m < k ==> a@[m] == b@[m],
        decreases a@.len() - k,
    {
        k = k + 1;
    }
    proof {
        lemma_lex_lt_skip(a@, b@, k as int);
    }
    if k < a.len() && k < b.len() {
        (a[k] as u32) < (b[k] as u32)
    } else {
        k == a.len() && k < b.len()
    }
}

/// The engine an Intel GPU is measured on: `rcs0` (render) when present,
/// otherwise the first in name order; `None` when no engine has a `busy`
/// file.
pub open spec fn render_engine_choice(engines: Seq<Seq<char>>, r: Option<Seq<char>>) -> bool {
    if exists|k: int| 0 <= k < engines.len() && engines[k] == "rcs0"@ {
        r == Some("rcs0"@)
    } else if engines.len() == 0 {
        r is None
    } else {
        r matches Some(e) && (exists|k: int| 0 <= k < engines.len() && #[trigger] engines[k] == e)
            && forall|j: int| 0 <= j < engines.len() ==> !lex_lt(#[trigger] engines[j], e)
    }
}

/// The names held by `v`.
pub open spec fn names_of(v: Seq<String>) -> Seq<Seq<char>> {
    v.map_values(|s: String| s@)
}

/// Picks the engine whose `busy` counter measures utilization.
pub fn find_render_engine(engines: &[String]) -> (r: Option<String>)
    ensures
        render_engine_choice(
            names_of(engines@),
            match r {
                Some(s) => Some(s@),
                None => None,
            },
        ),
{
    let ghost names = names_of(engines@);
    let rcs0 = chars_of("rcs0");
    let mut best: Option<usize> = None;
    let mut best_chars: Vec<char> = Vec::new();
    let mut i: usize = 0;
    while i < engines.len()
        invariant
            names == names_of(engines@),
            rcs0@ == "rcs0"@,
            i <= engines@.len(),
            forall|k: int| 0 <= k < i ==> names[k] != "rcs0"@,
            best is None <==> i == 0,
            best matches Some(b) ==> b < i && best_chars@ == names[b as int] && forall|j: int|
                0 <= j < i ==> !lex_lt(#[trigger] names[j], best_chars@),
        decreases engines@.len() - i,
    {
        let e = chars_of(engines[i].as_str());
        proof {
            assert(e@ == names[i as int]);
            assert(e@.subrange(0, e@.len() as int) =~= e@);
        }
        if range_eq(e.as_slice(), 0, e.len(), rcs0.as_slice()) {
            return Some(string_of_range(rcs0.as_slice(), 0, rcs0.len()));
        }
        let take = match best {
            None => true,
            Some(_) => lex_less(e.as_slice(), best_chars.as_slice()),
        };
        if take {
            proof {
                lemma_lex_lt_irreflexive(e@);
                if i > 0 {
                    assert forall|j: int| 0 <= j < i implies !lex_lt(#[trigger] names[j], e@) by {
                        if lex_lt(names[j], e@) {
                            lemma_lex_lt_transitive(names[j], e@, best_chars@);
                        }
                    }
                }
            }
            best = Some(i);
            best_chars = e;
        }
        i = i + 1;
    }
    proof {
        assert(rcs0@.subrange(0, rcs0@.len() as int) =~= rcs0@);
    }
    match best {
        Some(b) => {
            let r = string_of_range(best_chars.as_slice(), 0, best_chars.len());
            proof {
                assert(best_chars@.subrange(0, best_chars@.len() as int) =~= best_chars@);
                assert(names[b as int] == r@);
                assert(!exists|k: int| 0 <= k < names.len() && names[k] == "rcs0"@);
            }
            Some(r)
        },
        None => None,
    }
}

/// Whether the uevent text names the `i915` or `xe` driver.
pub fn is_intel(uevent: &Option<String>) -> (r: bool)
    ensures
        r == intel_uevent(match uevent {
            Some(u) => Some(u@),
            None => None,
        }),
{
    match uevent {
        Some(u) => {
            let cs = chars_of(u.as_str());
            let p = chars_of("DRIVER=i915");
            let q = chars_of("DRIVER=xe");
            has_trimmed_line_in(cs.as_slice(), p.as_slice(), q.as_slice())
        },
        None => false,
    }
}

/// The name shown for an Intel GPU with this uevent text.
pub fn read_intel_name(uevent: &Option<String>) -> (r: String)
    ensures
        r@ == intel_name(match uevent {
            Some(u) => Some(u@),
            None => None,
        }),
{
    let cs = match uevent {
        Some(u) => chars_of(u.as_str()),
        None => Vec::new(),
    };
    let p = chars_of("PCI_ID=");
    let found = match uevent {
        Some(_) => first_prefixed_in(cs.as_slice(), p.as_slice()),
        None => None,
    };
    match found {
        Some((a, b)) => {
            if a == b {
                String::from_str("Intel GPU")
            } else {
                let mut name = String::from_str("Intel GPU (");
                append_range(&mut name, cs.as_slice(), a, b);
                name.append(")");
                name
            }
        },
        None => String::from_str("Intel GPU"),
    }
}

/// A card the Intel backend serves: an `i915`/`xe` device with an engine
/// that has a `busy` counter.
pub open spec fn intel_serves(card: DrmCard) -> bool {
    intel_uevent(uevent_of(card)) && card.busy_engines@.len() > 0
}

/// The backend state for `card`: `(entry, name, pdev)`.
pub open spec fn intel_view_of(card: DrmCard) -> (Seq<char>, Seq<char>, Seq<char>) {
    (card.name@, intel_name(uevent_of(card)), card.pdev@)
}

/// An Intel GPU read through sysfs.
pub struct IntelSysfs {
    card: String,
    name: String,
    pdev: String,
    /// (time in µs, busy µs) of the previous utilization reading.
    last: Option<(u64, u64)>,
}

impl View for IntelSysfs {
    type V = (Seq<char>, Seq<char>, Seq<char>);

    closed spec fn view(&self) -> (Seq<char>, Seq<char>, Seq<char>) {
        (self.card@, self.name@, self.pdev@)
    }
}

impl IntelSysfs {
    /// The previous `(time µs, busy µs)` reading, if any.
    pub closed spec fn last_reading(&self) -> Option<(u64, u64)> {
        self.last
    }

    /// The backend for `card` when the Intel backend serves it.
    pub fn probe_specific(card: &DrmCard) -> (r: Option<Self>)
        ensures
            r is Some <==> intel_serves(*card),
            r matches Some(b) ==> b@ == intel_view_of(*card) && b.last_reading() is None,
    {
        if !is_intel(&card.uevent) {
            return None;
        }
        match find_render_engine(card.busy_engines.as_slice()) {
            None => {
                return None;
            },
            Some(_) => {},
        }
        let name = read_intel_name(&card.uevent);
        Some(IntelSysfs { card: card.name.clone(), name, pdev: card.pdev.clone(), last: None })
    }

    /// The first `cardN` entry, in listing order, that the Intel backend
    /// serves.
    pub fn probe_in(cards: &[DrmCard]) -> (r: Option<Self>)
        ensures
            r is None ==> forall|k: int|
                0 <= k < cards@.len() ==> !(is_card_name((#[trigger] cards@[k]).name@)
                    && intel_serves(cards@[k])),
            r matches Some(b) ==> exists|k: int|
                0 <= k < cards@.len() && is_card_name((#[trigger] cards@[k]).name@) && intel_serves(
                    cards@[k],
                ) && b@ == intel_view_of(cards@[k]) && forall|j: int|
                    0 <= j < k ==> !(is_card_name((#[trigger] cards@[j]).name@) && intel_serves(
                        cards@[j],
                    )),
    {
        let mut i: usize = 0;
        while i < cards.len()
            invariant
                i <= cards@.len(),
                forall|j: int|
                    0 <= j < i ==> !(is_card_name((#[trigger] cards@[j]).name@) && intel_serves(
                        cards@[j],
                    )),
            decreases cards@.len() - i,
        {
            if is_card_dir(cards[i].name.as_str()) {
                if let Some(b) = Self::probe_specific(&cards[i]) {
                    return Some(b);
                }
            }
            i = i + 1;
        }
        None
    }

    /// The Intel backend for the card at PCI address `pdev`, if it is one.
    pub fn probe_pdev(pdev: &str, cards: &[DrmCard]) -> (r: Option<Self>)
        ensures
            r matches Some(b) ==> exists|k: int|
                0 <= k < cards@.len() && card_has_pdev(#[trigger] cards@[k], pdev@) && intel_serves(
                    cards@[k],
                ) && b@ == intel_view_of(cards@[k]) && pdev@.len() > 0 && forall|j: int|
                    0 <= j < k ==> !card_has_pdev(#[trigger] cards@[j], pdev@),
            r is None ==> pdev@.len() == 0 || forall|k: int|
                0 <= k < cards@.len() && card_has_pdev(#[trigger] cards@[k], pdev@) ==> (forall|j: int|
                    0 <= j < k ==> !card_has_pdev(#[trigger] cards@[j], pdev@)) ==> !intel_serves(
                    cards@[k],
                ),
    {
        match resolve_card_by_pdev(pdev, cards) {
            Some(i) => Self::probe_specific(&cards[i]),
            None => None,
        }
    }

    /// Records the busy counter read at `now_us` and returns the elapsed
    /// µs and the busy µs added since the previous reading; `None` on the
    /// first reading or when no time has passed.
    pub fn observe_busy(&mut self, now_us: u64, busy_us: u64) -> (r: Option<(u64, u64)>)
        ensures
            final(self)@ == old(self)@,
            final(self).last_reading() == Some((now_us, busy_us)),
            r == busy_delta(old(self).last_reading(), now_us, busy_us),
    {
        let prev = self.last;
        self.last = Some((now_us, busy_us));
        match prev {
            Some((t, b)) => {
                let dt = now_us.saturating_sub(t);
                if dt == 0 {
                    None
                } else {
                    Some((dt, busy_us.saturating_sub(b)))
                }
            },
            None => None,
        }
    }

    /// Human-readable model name shown in the popup.
    pub fn name(&self) -> (r: &str)
        ensures
            r@ == self@.1,
    {
        self.name.as_str()
    }

    /// PCI device address like `0000:00:02.0`.
    pub fn pdev(&self) -> (r: &str)
        ensures
            r@ == self@.2,
    {
        self.pdev.as_str()
    }

    /// The `/sys/class/drm` entry of this card, e.g. `card0`.
    pub fn card(&self) -> (r: &str)
        ensures
            r@ == self@.0,
    {
        self.card.as_str()
    }
}

} // verus!
