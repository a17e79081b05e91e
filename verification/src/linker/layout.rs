//! The layout of sections in memory.
//!
//! Sections of the same name and type, from whatever object, form one output
//! section: their bytes follow one another in input order. The output
//! sections follow one another in the order in which each first occurs,
//! every one starting on a page boundary, the first at the base address
//! rounded up to a page.

use vstd::prelude::*;
use crate::elf::section::Section;
use crate::elf::segment::PAGE_SIZE;
use crate::error::{LayoutError, LinkerError};

verus! {

/// The sections that `sections` refers to.
pub open spec fn contents(sections: Seq<&Section>) -> Seq<Section> {
    sections.map_values(|s: &Section| *s)
}

/// Whether two sections belong to one output section.
pub open spec fn same_key(a: Section, b: Section) -> bool {
    a.name@ == b.name@ && a.sh_type == b.sh_type
}

/// `x` rounded up to a multiple of the page size.
pub open spec fn align_up(x: int) -> int {
    if x % 0x1000 == 0 {
        x
    } else {
        x + 0x1000 - x % 0x1000
    }
}

/// The first section from `from` on, and before `i`, that belongs to the
/// output section of section `i`; `i` itself if there is none.
pub open spec fn leader_from(sections: Seq<Section>, i: int, from: int) -> int
    decreases i - from,
{
    if from >= i {
        i
    } else if same_key(sections[from], sections[i]) {
        from
    } else {
        leader_from(sections, i, from + 1)
    }
}

/// The first section that belongs to the output section of section `i`.
pub open spec fn leader(sections: Seq<Section>, i: int) -> int {
    leader_from(sections, i, 0)
}

/// The number of bytes that the first `n` sections bring to the output
/// section of section `i`.
pub open spec fn gathered(sections: Seq<Section>, i: int, n: int) -> int
    decreases n,
{
    if n <= 0 {
        0
    } else if same_key(sections[n - 1], sections[i]) {
        gathered(sections, i, n - 1) + sections[n - 1].data@.len()
    } else {
        gathered(sections, i, n - 1)
    }
}

/// The address behind the output sections that begin among the first `n`
/// sections, or `base` if there are none.
pub open spec fn end_address(sections: Seq<Section>, base: int, n: int) -> int
    decreases n,
{
    if n <= 0 {
        base
    } else if leader(sections, n - 1) == n - 1 {
        align_up(end_address(sections, base, n - 1)) + gathered(
            sections,
            n - 1,
            sections.len() as int,
        )
    } else {
        end_address(sections, base, n - 1)
    }
}

/// The address of the first byte of section `i`: the start of its output
/// section, plus the bytes of the sections that precede it there.
pub open spec fn section_address(sections: Seq<Section>, base: int, i: int) -> int {
    align_up(end_address(sections, base, leader(sections, i))) + gathered(sections, i, i)
}

/// Whether the image of `sections` at `base` ends within the address space.
pub open spec fn layout_fits(sections: Seq<Section>, base: int) -> bool {
    align_up(base) <= u64::MAX && end_address(sections, base, sections.len() as int) <= u64::MAX
}

/// The number of bytes of the image: from the base address, rounded up to a
/// page, to the end of the last output section.
pub open spec fn image_len(sections: Seq<Section>, base: int) -> int {
    let end = end_address(sections, base, sections.len() as int);
    if end > align_up(base) {
        end - align_up(base)
    } else {
        0
    }
}

/// A leader is a section of the same output section, not behind it, and the
/// first of them.
pub proof fn lemma_leader(sections: Seq<Section>, i: int, from: int)
    requires
        0 <= from <= i < sections.len(),
    ensures
        from <= leader_from(sections, i, from) <= i,
        same_key(sections[leader_from(sections, i, from)], sections[i]),
        forall|k: int|
            from <= k < leader_from(sections, i, from) ==> !same_key(
                #[trigger] sections[k],
                sections[i],
            ),
    decreases i - from,
{
    if from < i && !same_key(sections[from], sections[i]) {
        lemma_leader(sections, i, from + 1);
    }
}

/// A leader leads itself.
pub proof fn lemma_leader_leads_itself(sections: Seq<Section>, i: int)
    requires
        0 <= i < sections.len(),
    ensures
        leader(sections, leader(sections, i)) == leader(sections, i),
{
    let l = leader(sections, i);
    lemma_leader(sections, i, 0);
    lemma_leader(sections, l, 0);
    let m = leader(sections, l);
    if m < l {
        assert(same_key(sections[m], sections[i]));
    }
}

/// Sections of one output section gather the same bytes.
pub proof fn lemma_gathered_same_key(sections: Seq<Section>, i: int, j: int, n: int)
    requires
        0 <= i < sections.len(),
        0 <= j < sections.len(),
        same_key(sections[i], sections[j]),
    ensures
        gathered(sections, i, n) == gathered(sections, j, n),
    decreases n,
{
    if n > 0 {
        lemma_gathered_same_key(sections, i, j, n - 1);
    }
}

/// What is gathered grows with the number of sections looked at.
pub proof fn lemma_gathered_grows(sections: Seq<Section>, i: int, m: int, n: int)
    requires
        m <= n,
    ensures
        0 <= gathered(sections, i, m) <= gathered(sections, i, n),
    decreases n,
{
    if n > 0 {
        if m < n {
            lemma_gathered_grows(sections, i, m, n - 1);
        } else {
            lemma_gathered_grows(sections, i, m - 1, n - 1);
        }
    }
}

/// The end address grows with the number of sections looked at.
pub proof fn lemma_end_address_grows(sections: Seq<Section>, base: int, m: int, n: int)
    requires
        0 <= base,
        m <= n,
    ensures
        base <= end_address(sections, base, m) <= end_address(sections, base, n),
    decreases n,
{
    if n > 0 {
        if m < n {
            lemma_end_address_grows(sections, base, m, n - 1);
        } else {
            lemma_end_address_grows(sections, base, m - 1, n - 1);
        }
        lemma_gathered_grows(sections, n - 1, 0, sections.len() as int);
        lemma_end_address_grows(sections, base, 0, n - 1);
    }
}

/// Every section lies within the image: it begins at or behind the rounded
/// base and ends at or before the end of the image.
pub proof fn lemma_section_within_image(sections: Seq<Section>, base: int, i: int)
    requires
        0 <= base,
        0 <= i < sections.len(),
    ensures
        align_up(base) <= section_address(sections, base, i),
        section_address(sections, base, i) + sections[i].data@.len() <= end_address(
            sections,
            base,
            sections.len() as int,
        ),
{
    let n = sections.len() as int;
    let l = leader(sections, i);
    lemma_leader(sections, i, 0);
    lemma_leader_leads_itself(sections, i);
    lemma_end_address_grows(sections, base, 0, l);
    lemma_end_address_grows(sections, base, l + 1, n);
    lemma_gathered_grows(sections, i, 0, i);
    lemma_gathered_grows(sections, i, i + 1, n);
    lemma_gathered_same_key(sections, l, i, n);
    assert(gathered(sections, i, i + 1) == gathered(sections, i, i) + sections[i].data@.len());
    assert(end_address(sections, base, l + 1) == align_up(end_address(sections, base, l))
        + gathered(sections, l, n));
}

/// Two sections never share a byte of the image: one ends where the other
/// begins, or before.
pub proof fn lemma_sections_do_not_overlap(sections: Seq<Section>, base: int, i: int, j: int)
    requires
        0 <= base,
        0 <= i < j < sections.len(),
    ensures
        section_address(sections, base, i) + sections[i].data@.len() <= section_address(
            sections,
            base,
            j,
        ) || section_address(sections, base, j) + sections[j].data@.len() <= section_address(
            sections,
            base,
            i,
        ),
{
    let n = sections.len() as int;
    let li = leader(sections, i);
    let lj = leader(sections, j);
    lemma_leader(sections, i, 0);
    lemma_leader(sections, j, 0);
    if same_key(sections[i], sections[j]) {
        // one output section: the later section lies behind the earlier one
        lemma_leader(sections, li, 0);
        lemma_leader(sections, lj, 0);
        lemma_leader_leads_itself(sections, i);
        lemma_leader_leads_itself(sections, j);
        if li < lj {
            assert(same_key(sections[li], sections[j]));
        }
        if lj < li {
            assert(same_key(sections[lj], sections[i]));
        }
        assert(li == lj);
        lemma_gathered_same_key(sections, i, j, j);
        lemma_gathered_grows(sections, i, i + 1, j);
        assert(gathered(sections, i, i + 1) == gathered(sections, i, i) + sections[i].data@.len());
    } else {
        // two output sections: the one that begins later lies behind the other
        lemma_leader_leads_itself(sections, i);
        lemma_leader_leads_itself(sections, j);
        lemma_gathered_same_key(sections, li, i, n);
        lemma_gathered_same_key(sections, lj, j, n);
        lemma_gathered_grows(sections, i, i + 1, n);
        lemma_gathered_grows(sections, j, j + 1, n);
        lemma_gathered_grows(sections, i, 0, i);
        lemma_gathered_grows(sections, j, 0, j);
        assert(gathered(sections, i, i + 1) == gathered(sections, i, i) + sections[i].data@.len());
        assert(gathered(sections, j, j + 1) == gathered(sections, j, j) + sections[j].data@.len());
        assert(end_address(sections, base, li + 1) == align_up(end_address(sections, base, li))
            + gathered(sections, li, n));
        assert(end_address(sections, base, lj + 1) == align_up(end_address(sections, base, lj))
            + gathered(sections, lj, n));
        assert(li != lj);
        if li < lj {
            lemma_end_address_grows(sections, base, li + 1, lj);
        } else {
            lemma_end_address_grows(sections, base, lj + 1, li);
        }
    }
}

/// `x` rounded up to a page, unless that passes the end of the address space.
fn page_align(x: u64) -> (aligned: Option<u64>)
    ensures
        match aligned {
            Some(a) => a == align_up(x as int),
            None => align_up(x as int) > u64::MAX,
        },
{
    let rest = x % PAGE_SIZE;
    if rest == 0 {
        Some(x)
    } else {
        x.checked_add(PAGE_SIZE - rest)
    }
}

/// Whether two sections belong to one output section.
fn keys_match(a: &Section, b: &Section) -> (same: bool)
    ensures
        same == same_key(*a, *b),
{
    a.sh_type == b.sh_type && a.name == b.name
}

/// The first section that belongs to the output section of section `i`.
fn find_leader(sections: &Vec<&Section>, i: usize) -> (found: usize)
    requires
        i < sections.len(),
    ensures
        found == leader(contents(sections@), i as int),
{
    let ghost all = contents(sections@);
    let mut j: usize = 0;
    while j < i && !keys_match(sections[j], sections[i])
        invariant
            j <= i < sections.len(),
            all == contents(sections@),
            leader(all, i as int) == leader_from(all, i as int, j as int),
        decreases i - j,
    {
        j += 1;
    }
    j
}

/// The number of bytes that the first `n` sections bring to the output
/// section of section `i`, unless it passes the end of the address space.
fn gather(sections: &Vec<&Section>, i: usize, n: usize) -> (sum: Option<u64>)
    requires
        i < sections.len(),
        n <= sections.len(),
    ensures
        match sum {
            Some(s) => s == gathered(contents(sections@), i as int, n as int),
            None => gathered(contents(sections@), i as int, n as int)
                > u64::MAX,
        },
{
    let ghost all = contents(sections@);
    let mut sum: u64 = 0;
    let mut j: usize = 0;
    while j < n
        invariant
            j <= n <= sections.len(),
            i < sections.len(),
            all == contents(sections@),
            sum == gathered(all, i as int, j as int),
        decreases n - j,
    {
        if keys_match(sections[j], sections[i]) {
            match sum.checked_add(sections[j].data.len() as u64) {
                Some(next) => {
                    sum = next;
                },
                None => {
                    proof {
                        lemma_gathered_grows(all, i as int, j + 1, n as int);
                    }
                    return None;
                },
            }
        }
        j += 1;
    }
    Some(sum)
}

/// Where the image and each of its sections lie.
pub struct Layout {
    /// The address of the first byte of each section, in order.
    pub addresses: Vec<u64>,
    /// The address at which the image begins.
    pub origin: u64,
    /// The address behind the last output section.
    pub end: u64,
}

/// The address of every section, in order, and the extent of the image; or
/// an error where the image passes the end of the address space.
pub fn layout(sections: &Vec<&Section>, base_address: u64) -> (result: Result<Layout, LinkerError>)
    ensures
        match result {
            Ok(placed) => {
                &&& layout_fits(contents(sections@), base_address as int)
                &&& placed.origin == align_up(base_address as int)
                &&& placed.end == end_address(
                    contents(sections@),
                    base_address as int,
                    sections@.len() as int,
                )
                &&& placed.addresses@.len() == sections@.len()
                &&& forall|i: int|
                    0 <= i < placed.addresses@.len() ==> #[trigger] placed.addresses@[i]
                        == section_address(contents(sections@), base_address as int, i)
            },
            Err(e) => {
                &&& !layout_fits(contents(sections@), base_address as int)
                &&& e == LinkerError::Section(LayoutError::AddressOverflow)
            },
        },
{
    let ghost all = contents(sections@);
    let ghost base = base_address as int;
    let n = sections.len();
    let origin = match page_align(base_address) {
        Some(aligned) => aligned,
        None => {
            return Err(LinkerError::Section(LayoutError::AddressOverflow));
        },
    };
    // The start of each output section, held at the index of its leader.
    let mut starts: Vec<u64> = Vec::new();
    let mut addresses: Vec<u64> = Vec::new();
    let mut end: u64 = base_address;
    let mut i: usize = 0;
    while i < n
        invariant
            i <= n,
            n == sections.len(),
            all == contents(sections@),
            base == base_address as int,
            end == end_address(all, base, i as int),
            starts@.len() == i,
            addresses@.len() == i,
            forall|k: int|
                0 <= k < i ==> #[trigger] starts@[k] == align_up(
                    end_address(all, base, leader(all, k)),
                ),
            forall|k: int|
                0 <= k < i ==> #[trigger] addresses@[k] == section_address(all, base, k),
        decreases n - i,
    {
        let lead = find_leader(sections, i);
        proof {
            lemma_leader(all, i as int, 0);
            lemma_end_address_grows(all, base, i + 1, n as int);
            lemma_section_within_image(all, base, i as int);
        }
        let start = if lead == i {
            let aligned = match page_align(end) {
                Some(a) => a,
                None => {
                    proof {
                        lemma_gathered_grows(all, i as int, 0, n as int);
                    }
                    return Err(LinkerError::Section(LayoutError::AddressOverflow));
                },
            };
            let size = match gather(sections, i, n) {
                Some(s) => s,
                None => {
                    proof {
                        lemma_end_address_grows(all, base, 0, i as int);
                    }
                    return Err(LinkerError::Section(LayoutError::AddressOverflow));
                },
            };
            match aligned.checked_add(size) {
                Some(e) => {
                    end = e;
                },
                None => {
                    return Err(LinkerError::Section(LayoutError::AddressOverflow));
                },
            }
            aligned
        } else {
            starts[lead]
        };
        proof {
            lemma_leader_leads_itself(all, i as int);
            lemma_end_address_grows(all, base, 0, lead as int);
            assert(start == align_up(end_address(all, base, lead as int)));
        }
        let offset = match gather(sections, i, i) {
            Some(o) => o,
            None => {
                return Err(LinkerError::Section(LayoutError::AddressOverflow));
            },
        };
        let address = match start.checked_add(offset) {
            Some(a) => a,
            None => {
                return Err(LinkerError::Section(LayoutError::AddressOverflow));
            },
        };
        starts.push(start);
        addresses.push(address);
        i += 1;
    }
    Ok(Layout { addresses, origin, end })
}

} // verus!
