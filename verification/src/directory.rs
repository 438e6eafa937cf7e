//! The ICC tag directory: the tag count and the 12-byte entries after the
//! header, with the sanity skips, link detection and duplicate check of the
//! header reader, and the tag descriptors its link test compares.

use vstd::prelude::*;
use crate::error::Error;
use crate::header::be32_at;
use crate::io::{truncated, MemReader};
use crate::sig::Signature;

verus! {

/// The most tags a directory may list.
pub const MAX_TABLE_TAG: u32 = 100;

/// How a tag is stored: its element count and the types it may use.
pub struct TagDescriptor {
    pub elem_count: u32,
    pub supported_types: Vec<Signature>,
}

pub open spec fn sigs_view(v: Seq<Signature>) -> Seq<u32> {
    v.map_values(|s: Signature| s.0)
}

/// The descriptor of each known tag: how many elements it holds and
/// the types it may be stored as, in order.
pub open spec fn known_descriptor(sig: u32) -> Option<(u32, Seq<u32>)> {
    match sig {
        // Lut16, LutAtoB, Lut8
        0x4132_4230 | 0x4132_4231 | 0x4132_4232 => Some((1, seq![0x6D66_7432, 0x6D41_4220, 0x6D66_7431])),
        // Lut16, LutBtoA, Lut8
        0x4232_4130 | 0x4232_4131 | 0x4232_4132 | 0x6761_6D74 | 0x7072_6530 | 0x7072_6531 | 0x7072_6532 => Some((1, seq![0x6D66_7432, 0x6D42_4120, 0x6D66_7431])),
        // XYZ, the broken XYZ some writers emit
        0x7258_595A | 0x6758_595A | 0x6258_595A | 0x626B_7074 | 0x7774_7074 => Some((1, seq![0x5859_5A20, 0x17A5_05B8])),
        // curve, parametric, the broken curve some writers emit
        0x7254_5243 | 0x6754_5243 | 0x6254_5243 => Some((1, seq![0x6375_7276, 0x7061_7261, 0x9478_EE00])),
        // curve, parametric
        0x6B54_5243 => Some((1, seq![0x6375_7276, 0x7061_7261])),
        // date
        0x6361_6C74 | 0x6474_696D => Some((1, seq![0x6474_696D])),
        // text
        0x7461_7267 => Some((1, seq![0x7465_7874])),
        // nine s15.16 numbers
        0x6368_6164 | 0x6172_7473 => Some((9, seq![0x7366_3332])),
        // chromaticity
        0x6368_726D => Some((1, seq![0x6368_726D])),
        // colorant order
        0x636C_726F => Some((1, seq![0x636C_726F])),
        // colorant table
        0x636C_7274 | 0x636C_6F74 => Some((1, seq![0x636C_7274])),
        // text, localized, description
        0x6370_7274 => Some((1, seq![0x7465_7874, 0x6D6C_7563, 0x6465_7363])),
        // description, localized, text
        0x646D_6E64 | 0x646D_6464 | 0x6465_7363 | 0x7675_6564 => Some((1, seq![0x6465_7363, 0x6D6C_7563, 0x7465_7874])),
        // XYZ
        0x6C75_6D69 => Some((1, seq![0x5859_5A20])),
        // named colors
        0x6E63_6C32 => Some((1, seq![0x6E63_6C32])),
        // profile sequence
        0x7073_6571 => Some((1, seq![0x7073_6571])),
        // signature
        0x7465_6368 | 0x6369_6973 | 0x7269_6730 | 0x7269_6732 => Some((1, seq![0x7369_6720])),
        // measurement
        0x6D65_6173 => Some((1, seq![0x6D65_6173])),
        // data
        0x7073_6430 | 0x7073_6431 | 0x7073_6432 | 0x7073_6433 | 0x7073_3273 | 0x7073_3269 => Some((1, seq![0x6461_7461])),
        // UCR/BG
        0x6266_6420 => Some((1, seq![0x6266_6420])),
        // CRD info
        0x6372_6469 => Some((1, seq![0x6372_6469])),
        // multi-process elements
        0x4432_4230 | 0x4432_4231 | 0x4432_4232 | 0x4432_4233 | 0x4232_4430 | 0x4232_4431 | 0x4232_4432 | 0x4232_4433 => Some((1, seq![0x6D70_6574])),
        // description
        0x7363_7264 => Some((1, seq![0x6465_7363])),
        // viewing conditions
        0x7669_6577 => Some((1, seq![0x7669_6577])),
        // screening
        0x7363_726E => Some((1, seq![0x7363_726E])),
        // video card gamma
        0x7663_6774 => Some((1, seq![0x7663_6774])),
        // dictionary
        0x6D65_7461 => Some((1, seq![0x6469_6374])),
        // profile sequence id
        0x7073_6964 => Some((1, seq![0x7073_6964])),
        // localized
        0x6473_636D => Some((1, seq![0x6D6C_7563])),
        // cicp
        0x6369_6370 => Some((1, seq![0x6369_6370])),
        // MHC2
        0x4D48_4332 => Some((1, seq![0x4D48_4332])),
        _ => None,
    }
}

/// The descriptor of tag `sig`, if it is a known tag.
pub fn tag_descriptor(sig: Signature) -> (r: Option<TagDescriptor>)
    ensures
        match known_descriptor(sig.0) {
            Some((n, ts)) => (r matches Some(d) && d.elem_count == n && sigs_view(d.supported_types@) == ts),
            None => r is None,
        },
{
    let (n, ts): (u32, Vec<u32>) = match sig.0 {
        0x4132_4230 | 0x4132_4231 | 0x4132_4232 => (1, vec![0x6D66_7432, 0x6D41_4220, 0x6D66_7431]),
        0x4232_4130 | 0x4232_4131 | 0x4232_4132 | 0x6761_6D74 | 0x7072_6530 | 0x7072_6531 | 0x7072_6532 => (1, vec![0x6D66_7432, 0x6D42_4120, 0x6D66_7431]),
        0x7258_595A | 0x6758_595A | 0x6258_595A | 0x626B_7074 | 0x7774_7074 => (1, vec![0x5859_5A20, 0x17A5_05B8]),
        0x7254_5243 | 0x6754_5243 | 0x6254_5243 => (1, vec![0x6375_7276, 0x7061_7261, 0x9478_EE00]),
        0x6B54_5243 => (1, vec![0x6375_7276, 0x7061_7261]),
        0x6361_6C74 | 0x6474_696D => (1, vec![0x6474_696D]),
        0x7461_7267 => (1, vec![0x7465_7874]),
        0x6368_6164 | 0x6172_7473 => (9, vec![0x7366_3332]),
        0x6368_726D => (1, vec![0x6368_726D]),
        0x636C_726F => (1, vec![0x636C_726F]),
        0x636C_7274 | 0x636C_6F74 => (1, vec![0x636C_7274]),
        0x6370_7274 => (1, vec![0x7465_7874, 0x6D6C_7563, 0x6465_7363]),
        0x646D_6E64 | 0x646D_6464 | 0x6465_7363 | 0x7675_6564 => (1, vec![0x6465_7363, 0x6D6C_7563, 0x7465_7874]),
        0x6C75_6D69 => (1, vec![0x5859_5A20]),
        0x6E63_6C32 => (1, vec![0x6E63_6C32]),
        0x7073_6571 => (1, vec![0x7073_6571]),
        0x7465_6368 | 0x6369_6973 | 0x7269_6730 | 0x7269_6732 => (1, vec![0x7369_6720]),
        0x6D65_6173 => (1, vec![0x6D65_6173]),
        0x7073_6430 | 0x7073_6431 | 0x7073_6432 | 0x7073_6433 | 0x7073_3273 | 0x7073_3269 => (1, vec![0x6461_7461]),
        0x6266_6420 => (1, vec![0x6266_6420]),
        0x6372_6469 => (1, vec![0x6372_6469]),
        0x4432_4230 | 0x4432_4231 | 0x4432_4232 | 0x4432_4233 | 0x4232_4430 | 0x4232_4431 | 0x4232_4432 | 0x4232_4433 => (1, vec![0x6D70_6574]),
        0x7363_7264 => (1, vec![0x6465_7363]),
        0x7669_6577 => (1, vec![0x7669_6577]),
        0x7363_726E => (1, vec![0x7363_726E]),
        0x7663_6774 => (1, vec![0x7663_6774]),
        0x6D65_7461 => (1, vec![0x6469_6374]),
        0x7073_6964 => (1, vec![0x7073_6964]),
        0x6473_636D => (1, vec![0x6D6C_7563]),
        0x6369_6370 => (1, vec![0x6369_6370]),
        0x4D48_4332 => (1, vec![0x4D48_4332]),
        _ => {
            return None;
        },
    };
    let mut types: Vec<Signature> = Vec::new();
    let mut i: usize = 0;
    while i < ts.len()
        invariant
            i <= ts@.len(),
            types@.len() == i,
            forall|k: int| 0 <= k < i ==> #[trigger] types@[k].0 == ts@[k],
        decreases ts.len() - i,
    {
        types.push(Signature::from_raw(ts[i]));
        i += 1;
    }
    assert(sigs_view(types@) =~= ts@);
    Some(TagDescriptor { elem_count: n, supported_types: types })
}

/// Whether two tags may share data: both known, with the same element
/// count and the same list of types.
pub open spec fn compatible(a: u32, b: u32) -> bool {
    known_descriptor(a) is Some && known_descriptor(a) == known_descriptor(b)
}

/// Whether two tags may share their data.
pub fn compatible_types(a: Signature, b: Signature) -> (r: bool)
    ensures
        r == compatible(a.0, b.0),
{
    let da = match tag_descriptor(a) {
        Some(d) => d,
        None => {
            return false;
        },
    };
    let db = match tag_descriptor(b) {
        Some(d) => d,
        None => {
            return false;
        },
    };
    if da.elem_count != db.elem_count || da.supported_types.len() != db.supported_types.len() {
        assert(sigs_view(da.supported_types@).len() == da.supported_types@.len());
        assert(sigs_view(db.supported_types@).len() == db.supported_types@.len());
        return false;
    }
    let mut i: usize = 0;
    while i < da.supported_types.len()
        invariant
            i <= da.supported_types@.len(),
            da.supported_types@.len() == db.supported_types@.len(),
            known_descriptor(a.0) == Some((da.elem_count, sigs_view(da.supported_types@))),
            known_descriptor(b.0) == Some((db.elem_count, sigs_view(db.supported_types@))),
            forall|k: int| 0 <= k < i ==> #[trigger] sigs_view(da.supported_types@)[k] == sigs_view(
                db.supported_types@,
            )[k],
        decreases da.supported_types.len() - i,
    {
        if da.supported_types[i].0 != db.supported_types[i].0 {
            let ghost x = sigs_view(da.supported_types@);
            let ghost y = sigs_view(db.supported_types@);
            assert(x[i as int] != y[i as int]);
            assert(x != y);
            return false;
        }
        i += 1;
    }
    assert(sigs_view(da.supported_types@) =~= sigs_view(db.supported_types@));
    true
}

/// One accepted directory entry; `linked` names the earlier entry whose data
/// it shares.
#[derive(Clone, Copy, Debug, PartialEq, Eq, Structural)]
pub struct TagEntry {
    pub sig: Signature,
    pub offset: u32,
    pub size: u32,
    pub linked: Option<Signature>,
}

/// An entry's data lies inside the first `limit` bytes, is not empty and
/// does not start at 0.
pub open spec fn sane(offset: u32, size: u32, limit: u32) -> bool {
    size != 0 && offset != 0 && offset + size <= limit && offset + size <= u32::MAX
}

/// The last of the first `j` entries with the same data place and a
/// compatible descriptor.
pub open spec fn last_link(prev: Seq<TagEntry>, sig: u32, offset: u32, size: u32, j: int) -> Option<
    Signature,
>
    decreases j,
{
    if j <= 0 {
        None
    } else if prev[j - 1].offset == offset && prev[j - 1].size == size && compatible(
        prev[j - 1].sig.0,
        sig,
    ) {
        Some(prev[j - 1].sig)
    } else {
        last_link(prev, sig, offset, size, j - 1)
    }
}

/// The entries accepted among the first `k` of the directory at `at`.
pub open spec fn accepted(d: Seq<u8>, at: int, limit: u32, k: nat) -> Seq<TagEntry>
    decreases k,
{
    if k == 0 {
        Seq::empty()
    } else {
        let prev = accepted(d, at, limit, (k - 1) as nat);
        let base = at + 4 + 12 * (k - 1);
        let s = be32_at(d, base);
        let o = be32_at(d, base + 4);
        let z = be32_at(d, base + 8);
        if sane(o, z, limit) {
            prev.push(
                TagEntry {
                    sig: Signature(s),
                    offset: o,
                    size: z,
                    linked: last_link(prev, s, o, z, prev.len() as int),
                },
            )
        } else {
            prev
        }
    }
}

/// Two entries share a signature.
pub open spec fn has_dup(es: Seq<TagEntry>) -> bool {
    exists|i: int, j: int| 0 <= i < es.len() && 0 <= j < es.len() && i != j && #[trigger] es[i].sig == #[trigger] es[j].sig
}

/// What a directory read at `at` gives.
pub open spec fn directory_result(d: Seq<u8>, at: int, limit: u32) -> Result<Seq<TagEntry>, Error> {
    let avail = d.len() - at;
    if avail < 4 {
        Err(truncated(4, avail))
    } else if be32_at(d, at) > MAX_TABLE_TAG {
        Err(Error::Range)
    } else if avail < 4 + 12 * be32_at(d, at) {
        Err(truncated(4, (avail - 4) % 4))
    } else {
        let es = accepted(d, at, limit, be32_at(d, at) as nat);
        if has_dup(es) {
            Err(Error::Corrupt("duplicate tag"))
        } else {
            Ok(es)
        }
    }
}

/// The size data may not run past: the header's size, cut to the length of
/// the profile.
pub open spec fn dir_limit(header_size: u32, slice_len: usize) -> u32 {
    let reported: u32 = if slice_len > u32::MAX {
        u32::MAX
    } else {
        slice_len as u32
    };
    if header_size < reported {
        header_size
    } else {
        reported
    }
}


/// The last entry the new one may link to.
fn find_link(entries: &Vec<TagEntry>, sig: Signature, offset: u32, size: u32) -> (r: Option<Signature>)
    ensures
        r == last_link(entries@, sig.0, offset, size, entries@.len() as int),
{
    let mut j = entries.len();
    while j > 0
        invariant
            j <= entries@.len(),
            last_link(entries@, sig.0, offset, size, entries@.len() as int) == last_link(
                entries@,
                sig.0,
                offset,
                size,
                j as int,
            ),
        decreases j,
    {
        let p = entries[j - 1];
        if p.offset == offset && p.size == size && compatible_types(p.sig, sig) {
            return Some(p.sig);
        }
        j -= 1;
    }
    None
}

/// Whether two entries share a signature.
fn has_duplicate(entries: &Vec<TagEntry>) -> (r: bool)
    ensures
        r == has_dup(entries@),
{
    let n = entries.len();
    let mut i: usize = 0;
    while i < n
        invariant
            i <= n,
            n == entries@.len(),
            forall|x: int, y: int|
                0 <= x < i && 0 <= y < n && x != y ==> #[trigger] entries@[x].sig != #[trigger] entries@[y].sig,
        decreases n - i,
    {
        let mut j: usize = 0;
        while j < n
            invariant
                i < n,
                j <= n,
                n == entries@.len(),
                forall|x: int, y: int|
                    0 <= x < i && 0 <= y < n && x != y ==> #[trigger] entries@[x].sig != #[trigger] entries@[y].sig,
                forall|y: int| 0 <= y < j && y != i ==> entries@[i as int].sig != #[trigger] entries@[y].sig,
            decreases n - j,
        {
            if i != j && entries[i].sig.0 == entries[j].sig.0 {
                assert(entries@[i as int].sig == entries@[j as int].sig);
                return true;
            }
            j += 1;
        }
        i += 1;
    }
    false
}

/// Parse the tag directory at the reader's position (just after the
/// header). `header_size` is the header's size field and `slice_len` the
/// profile's length; entries whose data falls outside the smaller of the
/// two, is empty or starts at 0 are dropped, an entry sharing the data of
/// an earlier one with a compatible descriptor is marked as linked to the
/// last such one, and two entries with one signature refuse the profile.
pub fn parse_directory(r: &mut MemReader, header_size: u32, slice_len: usize) -> (res: Result<
    Vec<TagEntry>,
    Error,
>)
    requires
        old(r).wf(),
    ensures
        final(r).wf(),
        final(r).data() == old(r).data(),
        match directory_result(old(r).data(), old(r).at(), dir_limit(header_size, slice_len)) {
            Ok(es) => (res matches Ok(v) && v@ == es),
            Err(e) => res == Err::<Vec<TagEntry>, Error>(e),
        },
{
    let ghost d = r.data();
    let ghost a = r.at();
    let reported: u32 = if (slice_len as u64) > 0xffff_ffffu64 {
        0xffff_ffff
    } else {
        slice_len as u32
    };
    let limit = if header_size < reported {
        header_size
    } else {
        reported
    };
    assert(limit == dir_limit(header_size, slice_len));
    let tag_count = match r.read_u32() {
        Ok(v) => v,
        Err(e) => {
            return Err(e);
        },
    };
    if tag_count > MAX_TABLE_TAG {
        return Err(Error::Range);
    }
    let ghost avail = d.len() - a;
    let mut entries: Vec<TagEntry> = Vec::new();
    let mut k: u32 = 0;
    while k < tag_count
        invariant
            r.wf(),
            r.data() == d,
            d == old(r).data(),
            a == old(r).at(),
            avail == d.len() - a,
            tag_count == be32_at(d, a),
            tag_count <= MAX_TABLE_TAG,
            k <= tag_count,
            r.at() == a + 4 + 12 * k,
            avail >= 4 + 12 * k,
            limit == dir_limit(header_size, slice_len),
            entries@ == accepted(d, a, limit, k as nat),
        decreases tag_count - k,
    {
        let ghost base = a + 4 + 12 * k;
        let sig = match r.read_u32() {
            Ok(v) => Signature::from_raw(v),
            Err(e) => {
                assert((avail - 4) % 4 == avail - 4 - 12 * k) by (nonlinear_arith)
                    requires
                        0 <= avail - 4 - 12 * k < 4,
                        0 <= k,
                ;
                return Err(e);
            },
        };
        let offset = match r.read_u32() {
            Ok(v) => v,
            Err(e) => {
                assert((avail - 4) % 4 == avail - 8 - 12 * k) by (nonlinear_arith)
                    requires
                        0 <= avail - 8 - 12 * k < 4,
                        0 <= k,
                ;
                return Err(e);
            },
        };
        let size = match r.read_u32() {
            Ok(v) => v,
            Err(e) => {
                assert((avail - 4) % 4 == avail - 12 - 12 * k) by (nonlinear_arith)
                    requires
                        0 <= avail - 12 - 12 * k < 4,
                        0 <= k,
                ;
                return Err(e);
            },
        };
        assert(sig.0 == be32_at(d, base));
        assert(offset == be32_at(d, base + 4));
        assert(size == be32_at(d, base + 8));
        let end = (offset as u64) + (size as u64);
        if size != 0 && offset != 0 && end <= (limit as u64) {
            let linked = find_link(&entries, sig, offset, size);
            entries.push(TagEntry { sig, offset, size, linked });
        }
        k += 1;
    }
    if has_duplicate(&entries) {
        return Err(Error::Corrupt("duplicate tag"));
    }
    Ok(entries)
}

} // verus!
