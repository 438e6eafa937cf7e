//! Named-color (spot-color) lists: a root name, a PCS Lab triple and the
//! device colorants of each color, with a shared prefix and suffix.

use vstd::prelude::*;
use crate::text::{ci_eq, str_ci_eq, tb};

verus! {

/// The device-colorant channel cap.
pub const MAX_CHANNELS: usize = 16;

/// The root-name buffer size; names keep at most one byte less.
pub const MAX_PATH: usize = 256;

/// One spot color.
pub struct NamedColor {
    pub name: String,
    pub pcs: [u16; 3],
    pub device: Vec<u16>,
}

/// An ordered table of spot colors.
pub struct NamedColorList {
    pub vendor_flag: u32,
    pub prefix: String,
    pub suffix: String,
    pub colors: Vec<NamedColor>,
    pub colorant_count: usize,
}

/// The first NUL of a byte string, or its length.
pub open spec fn first_nul(b: Seq<u8>) -> int
    decreases b.len(),
{
    if b.len() == 0 {
        0
    } else if b[0] == 0 {
        0
    } else {
        1 + first_nul(b.drop_first())
    }
}

/// The last character boundary at or before `e`.
pub open spec fn boundary_at_or_before(b: Seq<u8>, e: int) -> int
    decreases e,
{
    if e > 0 && !vstd::utf8::is_char_boundary(b, e) {
        boundary_at_or_before(b, e - 1)
    } else {
        e
    }
}

/// `strncpy` into a buffer of `max + 1` bytes: the bytes before the first
/// NUL, at most `max` of them, cut back to a character boundary.
pub open spec fn clamp_len(b: Seq<u8>, max: int) -> int {
    let n = first_nul(b);
    boundary_at_or_before(b, if n < max { n } else { max })
}

proof fn lemma_first_nul(b: Seq<u8>, i: int)
    requires
        0 <= i <= b.len(),
        forall|k: int| 0 <= k < i ==> b[k] != 0,
        i == b.len() || b[i] == 0,
    ensures
        first_nul(b) == i,
    decreases i,
{
    if i > 0 {
        lemma_first_nul(b.drop_first(), i - 1);
    }
}

proof fn lemma_boundary_range(b: Seq<u8>, e: int)
    requires
        0 <= e,
    ensures
        0 <= boundary_at_or_before(b, e) <= e,
    decreases e,
{
    if e > 0 && !vstd::utf8::is_char_boundary(b, e) {
        lemma_boundary_range(b, e - 1);
    }
}

/// The stored form of `s` in a `max + 1` byte C buffer.
fn clamp_cstr(s: &str, max: usize) -> (r: String)
    ensures
        tb(r@) == tb(s@).subrange(0, clamp_len(tb(s@), max as int)),
{
    let bytes = s.as_bytes();
    let mut nul: usize = 0;
    while nul < bytes.len() && bytes[nul] != 0
        invariant
            nul <= bytes@.len(),
            bytes@ == tb(s@),
            forall|k: int| 0 <= k < nul ==> bytes@[k] != 0,
        decreases bytes.len() - nul,
    {
        nul += 1;
    }
    proof {
        lemma_first_nul(bytes@, nul as int);
    }
    let mut end = if nul < max {
        nul
    } else {
        max
    };
    let ghost e0 = end as int;
    while end > 0 && !s.is_char_boundary(end)
        invariant
            end <= e0,
            e0 <= bytes@.len(),
            bytes@ == tb(s@),
            boundary_at_or_before(bytes@, e0) == boundary_at_or_before(bytes@, end as int),
        decreases end,
    {
        end -= 1;
    }
    proof {
        vstd::utf8::encode_utf8_valid_utf8(s@);
    }
    let (a, _b) = s.split_at(end);
    a.to_owned()
}

/// A prefix or suffix keeps at most 32 bytes.
fn clamp_affix(s: &str) -> (r: String)
    ensures
        tb(r@) == tb(s@).subrange(0, clamp_len(tb(s@), 32)),
{
    clamp_cstr(s, 32)
}

/// A name keeps at most `MAX_PATH - 1` bytes.
fn clamp_name(s: &str) -> (r: String)
    ensures
        tb(r@) == tb(s@).subrange(0, clamp_len(tb(s@), MAX_PATH - 1)),
{
    clamp_cstr(s, MAX_PATH - 1)
}

/// The device colorants stored for a color: the given ones, zero-padded or
/// cut to `n`.
pub open spec fn device_of(colorant: Option<Seq<u16>>, n: int) -> Seq<u16> {
    Seq::new(
        n as nat,
        |i: int|
            match colorant {
                Some(c) => if i < c.len() {
                    c[i]
                } else {
                    0u16
                },
                None => 0u16,
            },
    )
}

pub open spec fn opt_slice(o: Option<&[u16]>) -> Option<Seq<u16>> {
    match o {
        Some(c) => Some(c@),
        None => None,
    }
}

/// The first color at or after `i` whose name equals `name`, ignoring
/// ASCII case.
pub open spec fn index_from(colors: Seq<NamedColor>, name: Seq<u8>, i: int) -> Option<int>
    decreases colors.len() - i,
{
    if i < 0 || i >= colors.len() {
        None
    } else if ci_eq(tb(colors[i].name@), name) {
        Some(i)
    } else {
        index_from(colors, name, i + 1)
    }
}

impl NamedColorList {
    /// Every color has exactly `colorant_count` colorants, at most the cap.
    pub open spec fn wf(&self) -> bool {
        &&& self.colorant_count <= MAX_CHANNELS
        &&& forall|i: int| 0 <= i < self.colors@.len() ==> #[trigger] self.colors@[i].device@.len()
            == self.colorant_count
    }

    /// An empty list; more colorants than the cap
    /// are refused.
    pub fn allocate(colorant_count: usize, prefix: &str, suffix: &str) -> (r: Option<NamedColorList>)
        ensures
            colorant_count > MAX_CHANNELS ==> r is None,
            colorant_count <= MAX_CHANNELS ==> (r matches Some(l) && l.wf() && l.vendor_flag == 0
                && l.colors@.len() == 0 && l.colorant_count == colorant_count && tb(l.prefix@)
                == tb(prefix@).subrange(0, clamp_len(tb(prefix@), 32)) && tb(l.suffix@) == tb(
                suffix@,
            ).subrange(0, clamp_len(tb(suffix@), 32))),
    {
        if colorant_count > MAX_CHANNELS {
            return None;
        }
        Some(
            NamedColorList {
                vendor_flag: 0,
                prefix: clamp_affix(prefix),
                suffix: clamp_affix(suffix),
                colors: Vec::new(),
                colorant_count,
            },
        )
    }

    /// Add a color; a missing PCS triple is zeros,
    /// missing or short colorants are zero-padded, and the name keeps at
    /// most 255 bytes.
    pub fn append(&mut self, name: &str, pcs: Option<[u16; 3]>, colorant: Option<&[u16]>)
        requires
            old(self).wf(),
        ensures
            final(self).wf(),
            final(self).vendor_flag == old(self).vendor_flag,
            final(self).prefix == old(self).prefix,
            final(self).suffix == old(self).suffix,
            final(self).colorant_count == old(self).colorant_count,
            final(self).colors@.len() == old(self).colors@.len() + 1,
            final(self).colors@.subrange(0, old(self).colors@.len() as int) == old(self).colors@,
            ({
                let c = final(self).colors@.last();
                &&& tb(c.name@) == tb(name@).subrange(0, clamp_len(tb(name@), MAX_PATH - 1))
                &&& c.pcs == match pcs {
                    Some(p) => p,
                    None => [0u16, 0u16, 0u16],
                }
                &&& c.device@ == device_of(opt_slice(colorant), old(self).colorant_count as int)
            }),
    {
        let n = self.colorant_count;
        let mut device: Vec<u16> = Vec::new();
        let mut i: usize = 0;
        while i < n
            invariant
                i <= n,
                device@ == device_of(opt_slice(colorant), n as int).subrange(0, i as int),
            decreases n - i,
        {
            let d: u16 = match colorant {
                Some(c) => if i < c.len() {
                    c[i]
                } else {
                    0
                },
                None => 0,
            };
            device.push(d);
            i += 1;
            assert(device@ =~= device_of(opt_slice(colorant), n as int).subrange(0, i as int));
        }
        assert(device@ =~= device_of(opt_slice(colorant), n as int));
        let p = match pcs {
            Some(p) => p,
            None => [0u16, 0u16, 0u16],
        };
        let nm = clamp_name(name);
        let ghost before = self.colors@;
        self.colors.push(NamedColor { name: nm, pcs: p, device });
        assert(self.colors@.subrange(0, before.len() as int) =~= before);
        assert forall|k: int| 0 <= k < self.colors@.len() implies #[trigger] self.colors@[k].device@.len()
            == self.colorant_count by {
            if k < before.len() {
                assert(self.colors@[k] == before[k]);
            }
        }
    }

    /// The number of colors.
    pub fn count(&self) -> (n: usize)
        ensures
            n == self.colors@.len(),
    {
        self.colors.len()
    }

    /// The number of device colorants of each color.
    pub fn colorant_count(&self) -> (n: usize)
        ensures
            n == self.colorant_count,
    {
        self.colorant_count
    }

    /// The first color named `name`, ignoring ASCII
    /// case.
    pub fn index(&self, name: &str) -> (r: Option<usize>)
        ensures
            r == match index_from(self.colors@, tb(name@), 0) {
                Some(i) => Some(i as usize),
                None => None::<usize>,
            },
    {
        let mut i: usize = 0;
        while i < self.colors.len()
            invariant
                i <= self.colors@.len(),
                index_from(self.colors@, tb(name@), 0) == index_from(self.colors@, tb(name@), i as int),
            decreases self.colors.len() - i,
        {
            if str_ci_eq(self.colors[i].name.as_str(), name) {
                return Some(i);
            }
            i += 1;
        }
        None
    }
}

} // verus!
