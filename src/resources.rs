use vstd::prelude::*;

use crate::grid::Localization;
use crate::id_generator::IDGenerator;

verus! {

/// Quantity a gatherer asks for in one extraction.
pub const EXTRACTION_QUANTITY: u16 = 10;

/// Extraction rate, in percent, that gatherers work at.
pub const EXTRACTION_RATE_PERCENT: u16 = 100;

#[derive(Clone, Copy, Debug, PartialEq, Eq, Structural)]
pub enum ResourceKind {
    Crystal,
    Energy,
}

/// A deposit of material on the grid.
#[derive(Clone, Copy, Debug, PartialEq, Eq, Structural)]
pub struct Resource {
    pub id: u32,
    pub loc: Localization,
    pub kind: ResourceKind,
    pub initial_quantity: u16,
    pub remaining_quantity: u16,
}

/// `requested x rate` rounded to the nearest unit, halves upwards; the rate is
/// given in percent.
pub open spec fn max_extractable(requested: int, rate_percent: int) -> int {
    (requested * rate_percent + 50) / 100
}

/// What an extraction of `requested` at `rate_percent` takes from a deposit
/// holding `remaining`.
pub open spec fn extracted_from(remaining: int, requested: int, rate_percent: int) -> int {
    if remaining < max_extractable(requested, rate_percent) {
        remaining
    } else {
        max_extractable(requested, rate_percent)
    }
}

/// An amount split by kind: `(crystal, energy)`.
pub open spec fn split_by_kind(kind: ResourceKind, qty: u16) -> (u16, u16) {
    match kind {
        ResourceKind::Crystal => (qty, 0),
        ResourceKind::Energy => (0, qty),
    }
}

impl ResourceKind {
    /// Parses a kind label, ignoring ASCII case.
    pub fn from_str(label: &str) -> (r: Option<ResourceKind>)
        ensures
            r == kind_of_label(label@),
    {
        if ascii_eq_ignore_case(label, "crystal") {
            Some(ResourceKind::Crystal)
        } else if ascii_eq_ignore_case(label, "energy") {
            Some(ResourceKind::Energy)
        } else {
            None
        }
    }

    /// The glyph that draws a deposit of this kind.
    pub fn glyph(&self) -> (c: char)
        ensures
            c == kind_glyph(*self),
    {
        match self {
            ResourceKind::Crystal => 'C',
            ResourceKind::Energy => 'E',
        }
    }
}

pub open spec fn kind_glyph(k: ResourceKind) -> char {
    match k {
        ResourceKind::Crystal => 'C',
        ResourceKind::Energy => 'E',
    }
}

/// A character folded to lower case, for ASCII letters only.
pub open spec fn ascii_lower(c: char) -> char {
    if 'A' <= c && c <= 'Z' {
        (((c as u8) + 32) as u8) as char
    } else {
        c
    }
}

/// Two strings that are equal once ASCII letters are folded to lower case.
pub open spec fn same_ignoring_case(a: Seq<char>, b: Seq<char>) -> bool {
    a.len() == b.len() && forall|i: int| 0 <= i < a.len() ==> ascii_lower(#[trigger] a[i]) == ascii_lower(b[i])
}

pub open spec fn kind_of_label(s: Seq<char>) -> Option<ResourceKind> {
    if same_ignoring_case(s, "crystal"@) {
        Some(ResourceKind::Crystal)
    } else if same_ignoring_case(s, "energy"@) {
        Some(ResourceKind::Energy)
    } else {
        None
    }
}

fn lower_char(c: char) -> (r: char)
    ensures
        r == ascii_lower(c),
{
    if 'A' <= c && c <= 'Z' {
        (((c as u8) + 32) as u8) as char
    } else {
        c
    }
}

/// Compares two strings character by character, folding ASCII letters.
pub fn ascii_eq_ignore_case(a: &str, b: &str) -> (r: bool)
    ensures
        r == same_ignoring_case(a@, b@),
{
    let n = a.unicode_len();
    if n != b.unicode_len() {
        return false;
    }
    let mut i: usize = 0;
    while i < n
        invariant
            n == a@.len(),
            n == b@.len(),
            i <= n,
            forall|k: int| 0 <= k < i ==> ascii_lower(#[trigger] a@[k]) == ascii_lower(b@[k]),
        decreases n - i,
    {
        if lower_char(a.get_char(i)) != lower_char(b.get_char(i)) {
            return false;
        }
        i = i + 1;
    }
    true
}

impl Resource {
    /// Quantities stay within what the deposit started with.
    pub open spec fn wf(&self) -> bool {
        self.remaining_quantity <= self.initial_quantity
    }

    /// A fresh, full deposit with the next identifier.
    pub fn new_resource(
        loc: Localization,
        kind: ResourceKind,
        initial_quantity: u16,
        id_generator: &mut IDGenerator,
    ) -> (r: Self)
        requires
            old(id_generator).can_issue(),
        ensures
            r.id == old(id_generator).last() + 1,
            final(id_generator).last() == r.id,
            r.loc == loc,
            r.kind == kind,
            r.initial_quantity == initial_quantity,
            r.remaining_quantity == initial_quantity,
            r.wf(),
    {
        let id = id_generator.generate_id();
        Resource { id, loc, kind, initial_quantity, remaining_quantity: initial_quantity }
    }

    /// Takes at most `round(qt x rate)` out of the deposit, never more than it
    /// holds, and returns the amount taken.
    pub fn calculate_gather(&mut self, qt: u16, rate_percent: u16) -> (taken: u16)
        ensures
            taken == extracted_from(
                old(self).remaining_quantity as int,
                qt as int,
                rate_percent as int,
            ),
            final(self).remaining_quantity == old(self).remaining_quantity - taken,
            final(self).id == old(self).id,
            final(self).loc == old(self).loc,
            final(self).kind == old(self).kind,
            final(self).initial_quantity == old(self).initial_quantity,
    {
        assert((qt as u64) * (rate_percent as u64) <= 0xffff * 0xffff) by (nonlinear_arith)
            requires
                qt <= 0xffff,
                rate_percent <= 0xffff,
        ;
        let product: u64 = qt as u64 * rate_percent as u64;
        let max_extractable: u64 = (product + 50) / 100;
        if (self.remaining_quantity as u64) < max_extractable {
            let taken = self.remaining_quantity;
            self.remaining_quantity = 0;
            taken
        } else {
            let taken = max_extractable as u16;
            self.remaining_quantity = self.remaining_quantity - taken;
            taken
        }
    }

    /// Extracts as `calculate_gather` does and returns the amount as
    /// `(crystal, energy)` according to the deposit's kind.
    pub fn gather(&mut self, qt: u16, rate_percent: u16) -> (r: (u16, u16))
        ensures
            r == split_by_kind(
                old(self).kind,
                extracted_from(
                    old(self).remaining_quantity as int,
                    qt as int,
                    rate_percent as int,
                ) as u16,
            ),
            final(self).remaining_quantity == old(self).remaining_quantity - extracted_from(
                old(self).remaining_quantity as int,
                qt as int,
                rate_percent as int,
            ),
            final(self).id == old(self).id,
            final(self).loc == old(self).loc,
            final(self).kind == old(self).kind,
            final(self).initial_quantity == old(self).initial_quantity,
    {
        let qty = self.calculate_gather(qt, rate_percent);
        match self.kind {
            ResourceKind::Crystal => (qty, 0),
            ResourceKind::Energy => (0, qty),
        }
    }
}

} // verus!
