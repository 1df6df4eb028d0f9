use vstd::prelude::*;
use crate::bytes::{
    biased, bias, get_u16, get_u32, get_u64, le16, le32, le64, lemma_le16_injective, lemma_le32_injective,
    lemma_le64_injective, push_u16, push_u32, push_u64, unbias,
};

verus! {

/// Calibration of one absolute axis.
#[derive(Clone, Copy, Debug, PartialEq, Eq, Structural)]
pub struct AbsInfoData {
    pub value: i32,
    pub minimum: i32,
    pub maximum: i32,
    pub fuzz: i32,
    pub flat: i32,
    pub resolution: i32,
}

/// Everything needed to recreate the feature set that a device advertises.
#[derive(Debug)]
pub struct Capabilities {
    pub properties: Vec<u16>,
    pub keys: Vec<u16>,
    pub relative_axes: Vec<u16>,
    pub absolute_axes: Vec<(u16, AbsInfoData)>,
    pub switches: Vec<u16>,
    pub ff: Vec<u16>,
    pub max_ff_effects: usize,
    pub msc: Vec<u16>,
}

/// The mathematical value of a capability descriptor.
pub struct CapabilitiesView {
    pub properties: Seq<u16>,
    pub keys: Seq<u16>,
    pub relative_axes: Seq<u16>,
    pub absolute_axes: Seq<(u16, AbsInfoData)>,
    pub switches: Seq<u16>,
    pub ff: Seq<u16>,
    pub max_ff_effects: usize,
    pub msc: Seq<u16>,
}

impl View for Capabilities {
    type V = CapabilitiesView;

    open spec fn view(&self) -> CapabilitiesView {
        CapabilitiesView {
            properties: self.properties@,
            keys: self.keys@,
            relative_axes: self.relative_axes@,
            absolute_axes: self.absolute_axes@,
            switches: self.switches@,
            ff: self.ff@,
            max_ff_effects: self.max_ff_effects,
            msc: self.msc@,
        }
    }
}

/// No two axes share a code.
pub open spec fn axis_codes_distinct(s: Seq<(u16, AbsInfoData)>) -> bool {
    forall|a: int, b: int| 0 <= a < s.len() && 0 <= b < s.len() && a != b ==> s[a].0 != s[b].0
}

impl CapabilitiesView {
    /// Codes are unique within each group, and among the axes.
    pub open spec fn valid(self) -> bool {
        &&& self.properties.no_duplicates()
        &&& self.keys.no_duplicates()
        &&& self.relative_axes.no_duplicates()
        &&& self.switches.no_duplicates()
        &&& self.ff.no_duplicates()
        &&& self.msc.no_duplicates()
        &&& axis_codes_distinct(self.absolute_axes)
    }

    /// Every group is short enough for its length to be written as a 64-bit count.
    pub open spec fn fits(self) -> bool {
        &&& self.properties.len() <= u64::MAX
        &&& self.keys.len() <= u64::MAX
        &&& self.relative_axes.len() <= u64::MAX
        &&& self.absolute_axes.len() <= u64::MAX
        &&& self.switches.len() <= u64::MAX
        &&& self.ff.len() <= u64::MAX
        &&& self.msc.len() <= u64::MAX
    }
}

/// Why a cache entry could not be turned into a descriptor.
#[derive(Clone, Copy, Debug, PartialEq, Eq, Structural)]
pub enum CodecError {
    /// No cache entry exists for the name.
    NotFound,
    /// The bytes are not the encoding of any descriptor.
    MalformedCache,
    /// The bytes carry the cache signature with a schema version this reader does not know.
    UnsupportedSchema,
}

/// Schema version written in every cache entry.
pub const SCHEMA_VERSION: u8 = 2;

/// Leading bytes of every cache entry: a four-byte signature, then the schema version.
pub open spec fn header() -> Seq<u8> {
    seq![0x50u8, 0x45u8, 0x56u8, 0x43u8, SCHEMA_VERSION]
}

pub open spec fn items16(s: Seq<u16>) -> Seq<u8>
    decreases s.len(),
{
    if s.len() == 0 {
        Seq::empty()
    } else {
        items16(s.drop_last()) + le16(s.last())
    }
}

/// A group of codes: its count, then each code.
#[verifier::opaque]
pub open spec fn list16(s: Seq<u16>) -> Seq<u8> {
    le64(s.len() as u64) + items16(s)
}

/// One absolute axis: its code, then the six calibration values.
#[verifier::opaque]
pub open spec fn axis_bytes(a: (u16, AbsInfoData)) -> Seq<u8> {
    le16(a.0) + le32(biased(a.1.value)) + le32(biased(a.1.minimum)) + le32(biased(a.1.maximum))
        + le32(biased(a.1.fuzz)) + le32(biased(a.1.flat)) + le32(biased(a.1.resolution))
}

pub open spec fn items_abs(s: Seq<(u16, AbsInfoData)>) -> Seq<u8>
    decreases s.len(),
{
    if s.len() == 0 {
        Seq::empty()
    } else {
        items_abs(s.drop_last()) + axis_bytes(s.last())
    }
}

/// The absolute axes: their count, then each axis in order.
#[verifier::opaque]
pub open spec fn list_abs(s: Seq<(u16, AbsInfoData)>) -> Seq<u8> {
    le64(s.len() as u64) + items_abs(s)
}

/// Tag of the group holding the maximum number of force-feedback effects.
pub const TAG_EFFECTS: u8 = 1;
pub const TAG_PROPERTIES: u8 = 2;
pub const TAG_KEYS: u8 = 3;
pub const TAG_RELATIVE: u8 = 4;
pub const TAG_SWITCHES: u8 = 5;
pub const TAG_FF: u8 = 6;
pub const TAG_MSC: u8 = 7;
pub const TAG_ABSOLUTE: u8 = 8;

/// Which groups an entry holds. Groups appear in increasing tag order; one that is
/// left out reads as empty.
pub struct Presence {
    pub effects: bool,
    pub properties: bool,
    pub keys: bool,
    pub relative_axes: bool,
    pub switches: bool,
    pub ff: bool,
    pub msc: bool,
    pub absolute_axes: bool,
}

pub open spec fn all_present() -> Presence {
    Presence {
        effects: true,
        properties: true,
        keys: true,
        relative_axes: true,
        switches: true,
        ff: true,
        msc: true,
        absolute_axes: true,
    }
}

/// Every group that `p` leaves out is empty in `c`.
pub open spec fn omits_only_empty(c: CapabilitiesView, p: Presence) -> bool {
    &&& !p.effects ==> c.max_ff_effects == 0
    &&& !p.properties ==> c.properties.len() == 0
    &&& !p.keys ==> c.keys.len() == 0
    &&& !p.relative_axes ==> c.relative_axes.len() == 0
    &&& !p.switches ==> c.switches.len() == 0
    &&& !p.ff ==> c.ff.len() == 0
    &&& !p.msc ==> c.msc.len() == 0
    &&& !p.absolute_axes ==> c.absolute_axes.len() == 0
}

/// The bytes `t` are empty or do not start with `tag`.
pub open spec fn untagged(t: Seq<u8>, tag: u8) -> bool {
    t.len() == 0 || t[0] != tag
}

/// The bytes `t` are empty or start with a tag greater than `tag`.
pub open spec fn after(t: Seq<u8>, tag: u8) -> bool {
    t.len() == 0 || t[0] > tag
}

pub open spec fn slot64(tag: u8, present: bool, x: u64) -> Seq<u8> {
    if present {
        seq![tag] + le64(x)
    } else {
        Seq::empty()
    }
}

pub open spec fn slot16(tag: u8, present: bool, s: Seq<u16>) -> Seq<u8> {
    if present {
        seq![tag] + list16(s)
    } else {
        Seq::empty()
    }
}

pub open spec fn slot_abs(tag: u8, present: bool, s: Seq<(u16, AbsInfoData)>) -> Seq<u8> {
    if present {
        seq![tag] + list_abs(s)
    } else {
        Seq::empty()
    }
}

#[verifier::opaque]
pub open spec fn tail_absolute(c: CapabilitiesView, p: Presence) -> Seq<u8> {
    slot_abs(TAG_ABSOLUTE, p.absolute_axes, c.absolute_axes)
}

#[verifier::opaque]
pub open spec fn tail_msc(c: CapabilitiesView, p: Presence) -> Seq<u8> {
    slot16(TAG_MSC, p.msc, c.msc) + tail_absolute(c, p)
}

#[verifier::opaque]
pub open spec fn tail_ff(c: CapabilitiesView, p: Presence) -> Seq<u8> {
    slot16(TAG_FF, p.ff, c.ff) + tail_msc(c, p)
}

#[verifier::opaque]
pub open spec fn tail_switches(c: CapabilitiesView, p: Presence) -> Seq<u8> {
    slot16(TAG_SWITCHES, p.switches, c.switches) + tail_ff(c, p)
}

#[verifier::opaque]
pub open spec fn tail_relative(c: CapabilitiesView, p: Presence) -> Seq<u8> {
    slot16(TAG_RELATIVE, p.relative_axes, c.relative_axes) + tail_switches(c, p)
}

#[verifier::opaque]
pub open spec fn tail_keys(c: CapabilitiesView, p: Presence) -> Seq<u8> {
    slot16(TAG_KEYS, p.keys, c.keys) + tail_relative(c, p)
}

#[verifier::opaque]
pub open spec fn tail_properties(c: CapabilitiesView, p: Presence) -> Seq<u8> {
    slot16(TAG_PROPERTIES, p.properties, c.properties) + tail_keys(c, p)
}

/// The tagged groups of an entry, in tag order.
#[verifier::opaque]
pub open spec fn groups(c: CapabilitiesView, p: Presence) -> Seq<u8> {
    slot64(TAG_EFFECTS, p.effects, c.max_ff_effects as u64) + tail_properties(c, p)
}

/// A cache entry holding the groups of `c` that `p` names: the header, the length of
/// what follows, then the tagged groups. The length lets a torn write be told apart
/// from an entry that leaves groups out.
#[verifier::opaque]
pub open spec fn entry(c: CapabilitiesView, p: Presence) -> Seq<u8> {
    header() + le64(groups(c, p).len() as u64) + groups(c, p)
}

/// The cache entry that `encode` writes: every group present.
pub open spec fn encoded(c: CapabilitiesView) -> Seq<u8> {
    entry(c, all_present())
}

/// The bytes hold the groups of `c`, some empty ones possibly left out.
pub open spec fn entry_of(c: CapabilitiesView, b: Seq<u8>) -> bool {
    &&& c.fits()
    &&& exists|p: Presence| omits_only_empty(c, p) && entry(c, p) == b
}

/// The bytes carry the cache signature but another schema version.
pub open spec fn foreign_schema(b: Seq<u8>) -> bool {
    &&& b.len() >= 5
    &&& b.subrange(0, 4) == header().subrange(0, 4)
    &&& b[4] != SCHEMA_VERSION
}

/// What a cache entry decodes to: groups left out read as empty.
pub open spec fn spec_decode(b: Seq<u8>) -> Result<CapabilitiesView, CodecError> {
    if foreign_schema(b) {
        Err(CodecError::UnsupportedSchema)
    } else if exists|c: CapabilitiesView| entry_of(c, b) {
        Ok(choose|c: CapabilitiesView| entry_of(c, b))
    } else {
        Err(CodecError::MalformedCache)
    }
}

proof fn lemma_items16(s: Seq<u16>)
    ensures
        items16(s).len() == 2 * s.len(),
        forall|j: int|
            0 <= j < s.len() ==> #[trigger] items16(s).subrange(2 * j, 2 * j + 2) == le16(s[j]),
    decreases s.len(),
{
    if s.len() > 0 {
        let d = s.drop_last();
        lemma_items16(d);
        assert forall|j: int| 0 <= j < s.len() implies #[trigger] items16(s).subrange(
            2 * j,
            2 * j + 2,
        ) == le16(s[j]) by {
            if j < d.len() {
                assert(items16(s).subrange(2 * j, 2 * j + 2) =~= items16(d).subrange(2 * j, 2 * j + 2));
            } else {
                assert(items16(s).subrange(2 * j, 2 * j + 2) =~= le16(s.last()));
            }
        }
    }
}

proof fn lemma_items16_injective(s1: Seq<u16>, s2: Seq<u16>)
    requires
        s1.len() == s2.len(),
        items16(s1) == items16(s2),
    ensures
        s1 == s2,
{
    lemma_items16(s1);
    lemma_items16(s2);
    assert forall|j: int| 0 <= j < s1.len() implies s1[j] == s2[j] by {
        assert(items16(s1).subrange(2 * j, 2 * j + 2) == le16(s1[j]));
        assert(items16(s2).subrange(2 * j, 2 * j + 2) == le16(s2[j]));
        lemma_le16_injective(s1[j], s2[j]);
    }
    assert(s1 =~= s2);
}

proof fn lemma_list16_prefix_free(s1: Seq<u16>, t1: Seq<u8>, s2: Seq<u16>, t2: Seq<u8>)
    requires
        s1.len() <= u64::MAX,
        s2.len() <= u64::MAX,
        list16(s1) + t1 == list16(s2) + t2,
    ensures
        s1 == s2,
        t1 == t2,
{
    reveal(list16);
    let w1 = list16(s1) + t1;
    let w2 = list16(s2) + t2;
    assert(w1.subrange(0, 8) =~= le64(s1.len() as u64));
    assert(w2.subrange(0, 8) =~= le64(s2.len() as u64));
    lemma_le64_injective(s1.len() as u64, s2.len() as u64);
    lemma_items16(s1);
    lemma_items16(s2);
    let n = 8 + 2 * s1.len() as int;
    assert(w1.subrange(8, n) =~= items16(s1));
    assert(w2.subrange(8, n) =~= items16(s2));
    lemma_items16_injective(s1, s2);
    assert(w1.subrange(n, w1.len() as int) =~= t1);
    assert(w2.subrange(n, w2.len() as int) =~= t2);
}

proof fn lemma_axis_bytes(a: (u16, AbsInfoData))
    ensures
        axis_bytes(a).len() == 26,
{
    reveal(axis_bytes);
}

proof fn lemma_axis_injective(a: (u16, AbsInfoData), b: (u16, AbsInfoData))
    requires
        axis_bytes(a) == axis_bytes(b),
    ensures
        a == b,
{
    reveal(axis_bytes);
    let x = axis_bytes(a);
    let y = axis_bytes(b);
    assert(x.subrange(0, 2) =~= le16(a.0));
    assert(y.subrange(0, 2) =~= le16(b.0));
    lemma_le16_injective(a.0, b.0);
    assert(x.subrange(2, 6) =~= le32(biased(a.1.value)));
    assert(y.subrange(2, 6) =~= le32(biased(b.1.value)));
    lemma_le32_injective(biased(a.1.value), biased(b.1.value));
    assert(x.subrange(6, 10) =~= le32(biased(a.1.minimum)));
    assert(y.subrange(6, 10) =~= le32(biased(b.1.minimum)));
    lemma_le32_injective(biased(a.1.minimum), biased(b.1.minimum));
    assert(x.subrange(10, 14) =~= le32(biased(a.1.maximum)));
    assert(y.subrange(10, 14) =~= le32(biased(b.1.maximum)));
    lemma_le32_injective(biased(a.1.maximum), biased(b.1.maximum));
    assert(x.subrange(14, 18) =~= le32(biased(a.1.fuzz)));
    assert(y.subrange(14, 18) =~= le32(biased(b.1.fuzz)));
    lemma_le32_injective(biased(a.1.fuzz), biased(b.1.fuzz));
    assert(x.subrange(18, 22) =~= le32(biased(a.1.flat)));
    assert(y.subrange(18, 22) =~= le32(biased(b.1.flat)));
    lemma_le32_injective(biased(a.1.flat), biased(b.1.flat));
    assert(x.subrange(22, 26) =~= le32(biased(a.1.resolution)));
    assert(y.subrange(22, 26) =~= le32(biased(b.1.resolution)));
    lemma_le32_injective(biased(a.1.resolution), biased(b.1.resolution));
}

proof fn lemma_items_abs(s: Seq<(u16, AbsInfoData)>)
    ensures
        items_abs(s).len() == 26 * s.len(),
        forall|j: int|
            0 <= j < s.len() ==> #[trigger] items_abs(s).subrange(26 * j, 26 * j + 26)
                == axis_bytes(s[j]),
    decreases s.len(),
{
    if s.len() > 0 {
        let d = s.drop_last();
        lemma_items_abs(d);
        lemma_axis_bytes(s.last());
        assert forall|j: int| 0 <= j < s.len() implies #[trigger] items_abs(s).subrange(
            26 * j,
            26 * j + 26,
        ) == axis_bytes(s[j]) by {
            if j < d.len() {
                assert(items_abs(s).subrange(26 * j, 26 * j + 26) =~= items_abs(d).subrange(
                    26 * j,
                    26 * j + 26,
                ));
            } else {
                assert(items_abs(s).subrange(26 * j, 26 * j + 26) =~= axis_bytes(s.last()));
            }
        }
    }
}

proof fn lemma_list_abs_prefix_free(
    s1: Seq<(u16, AbsInfoData)>,
    t1: Seq<u8>,
    s2: Seq<(u16, AbsInfoData)>,
    t2: Seq<u8>,
)
    requires
        s1.len() <= u64::MAX,
        s2.len() <= u64::MAX,
        list_abs(s1) + t1 == list_abs(s2) + t2,
    ensures
        s1 == s2,
        t1 == t2,
{
    reveal(list_abs);
    let w1 = list_abs(s1) + t1;
    let w2 = list_abs(s2) + t2;
    assert(w1.subrange(0, 8) =~= le64(s1.len() as u64));
    assert(w2.subrange(0, 8) =~= le64(s2.len() as u64));
    lemma_le64_injective(s1.len() as u64, s2.len() as u64);
    lemma_items_abs(s1);
    lemma_items_abs(s2);
    let n = 8 + 26 * s1.len() as int;
    assert(w1.subrange(8, n) =~= items_abs(s1));
    assert(w2.subrange(8, n) =~= items_abs(s2));
    assert forall|j: int| 0 <= j < s1.len() implies s1[j] == s2[j] by {
        assert(items_abs(s1).subrange(26 * j, 26 * j + 26) == axis_bytes(s1[j]));
        assert(items_abs(s2).subrange(26 * j, 26 * j + 26) == axis_bytes(s2[j]));
        lemma_axis_injective(s1[j], s2[j]);
    }
    assert(s1 =~= s2);
    assert(w1.subrange(n, w1.len() as int) =~= t1);
    assert(w2.subrange(n, w2.len() as int) =~= t2);
}


fn push_list16(out: &mut Vec<u8>, s: &Vec<u16>)
    ensures
        final(out)@ == old(out)@ + list16(s@),
{
    reveal(list16);
    push_u64(out, s.len() as u64);
    let ghost start = out@;
    let mut i: usize = 0;
    while i < s.len()
        invariant
            i <= s@.len(),
            out@ == start + items16(s@.subrange(0, i as int)),
        decreases s@.len() - i,
    {
        push_u16(out, s[i]);
        assert(s@.subrange(0, i + 1).drop_last() =~= s@.subrange(0, i as int));
        i += 1;
    }
    assert(s@.subrange(0, s@.len() as int) =~= s@);
    assert(out@ =~= old(out)@ + list16(s@));
}

fn push_axis(out: &mut Vec<u8>, a: (u16, AbsInfoData))
    ensures
        final(out)@ == old(out)@ + axis_bytes(a),
{
    reveal(axis_bytes);
    push_u16(out, a.0);
    push_u32(out, bias(a.1.value));
    push_u32(out, bias(a.1.minimum));
    push_u32(out, bias(a.1.maximum));
    push_u32(out, bias(a.1.fuzz));
    push_u32(out, bias(a.1.flat));
    push_u32(out, bias(a.1.resolution));
    assert(final(out)@ =~= old(out)@ + axis_bytes(a));
}

fn push_list_abs(out: &mut Vec<u8>, s: &Vec<(u16, AbsInfoData)>)
    ensures
        final(out)@ == old(out)@ + list_abs(s@),
{
    reveal(list_abs);
    push_u64(out, s.len() as u64);
    let ghost start = out@;
    let mut i: usize = 0;
    while i < s.len()
        invariant
            i <= s@.len(),
            out@ == start + items_abs(s@.subrange(0, i as int)),
        decreases s@.len() - i,
    {
        push_axis(out, s[i]);
        assert(s@.subrange(0, i + 1).drop_last() =~= s@.subrange(0, i as int));
        i += 1;
    }
    assert(s@.subrange(0, s@.len() as int) =~= s@);
    assert(out@ =~= old(out)@ + list_abs(s@));
}

proof fn lemma_list16_head(s: Seq<u16>, t: Seq<u8>)
    ensures
        (list16(s) + t).len() == 8 + 2 * s.len() + t.len(),
        (list16(s) + t).subrange(0, 8) == le64(s.len() as u64),
{
    reveal(list16);
    lemma_items16(s);
    assert((list16(s) + t).subrange(0, 8) =~= le64(s.len() as u64));
}

proof fn lemma_list_abs_head(s: Seq<(u16, AbsInfoData)>, t: Seq<u8>)
    ensures
        (list_abs(s) + t).len() == 8 + 26 * s.len() + t.len(),
        (list_abs(s) + t).subrange(0, 8) == le64(s.len() as u64),
{
    reveal(list_abs);
    lemma_items_abs(s);
    assert((list_abs(s) + t).subrange(0, 8) =~= le64(s.len() as u64));
}

proof fn lemma_div_bound(k: int, n: int, w: int)
    requires
        w > 0,
        k >= w * n,
        n >= 0,
    ensures
        k / w >= n,
{
    assert(k / w >= n) by (nonlinear_arith)
        requires w > 0, k >= w * n, n >= 0;
}

fn read_list16(b: &Vec<u8>, pos: usize) -> (r: Option<(Vec<u16>, usize)>)
    requires
        pos <= b.len(),
    ensures
        match r {
            Some((v, q)) => {
                &&& pos <= q <= b@.len()
                &&& v@.len() <= u64::MAX
                &&& b@.subrange(pos as int, b@.len() as int) == list16(v@) + b@.subrange(
                    q as int,
                    b@.len() as int,
                )
            },
            None => forall|s: Seq<u16>, t: Seq<u8>|
                s.len() <= u64::MAX ==> b@.subrange(pos as int, b@.len() as int) != #[trigger] (
                list16(s) + t),
        },
{
    reveal(list16);
    let ghost rest = b@.subrange(pos as int, b@.len() as int);
    if b.len() - pos < 8 {
        assert forall|s: Seq<u16>, t: Seq<u8>| s.len() <= u64::MAX implies rest != #[trigger] (
        list16(s) + t) by {
            lemma_list16_head(s, t);
        }
        return None;
    }
    let n = get_u64(b, pos);
    let start = pos + 8;
    if n > ((b.len() - start) / 2) as u64 {
        assert forall|s: Seq<u16>, t: Seq<u8>| s.len() <= u64::MAX implies rest != #[trigger] (
        list16(s) + t) by {
            lemma_list16_head(s, t);
            if rest == list16(s) + t {
                assert(rest.subrange(0, 8) =~= b@.subrange(pos as int, pos + 8));
                lemma_le64_injective(n, s.len() as u64);
                lemma_div_bound(b.len() - start, n as int, 2);
            }
        }
        return None;
    }
    let n = n as usize;
    let mut v: Vec<u16> = Vec::new();
    let mut p = start;
    let mut i: usize = 0;
    while i < n
        invariant
            i <= n,
            p == start + 2 * i,
            start + 2 * n <= b.len(),
            v@.len() == i,
            b@.subrange(start as int, p as int) == items16(v@),
        decreases n - i,
    {
        let x = get_u16(b, p);
        let ghost before = v@;
        v.push(x);
        assert(v@.drop_last() =~= before);
        assert(b@.subrange(start as int, p + 2) =~= b@.subrange(start as int, p as int)
            + b@.subrange(p as int, p + 2));
        p = p + 2;
        i += 1;
    }
    assert(rest =~= le64(v@.len() as u64) + b@.subrange(start as int, p as int) + b@.subrange(
        p as int,
        b@.len() as int,
    ));
    Some((v, p))
}

fn get_axis(b: &Vec<u8>, p: usize) -> (r: (u16, AbsInfoData))
    requires
        p + 26 <= b.len(),
    ensures
        axis_bytes(r) == b@.subrange(p as int, p + 26),
{
    reveal(axis_bytes);
    let code = get_u16(b, p);
    let value = unbias(get_u32(b, p + 2));
    let minimum = unbias(get_u32(b, p + 6));
    let maximum = unbias(get_u32(b, p + 10));
    let fuzz = unbias(get_u32(b, p + 14));
    let flat = unbias(get_u32(b, p + 18));
    let resolution = unbias(get_u32(b, p + 22));
    let r = (code, AbsInfoData { value, minimum, maximum, fuzz, flat, resolution });
    assert(axis_bytes(r) =~= b@.subrange(p as int, p + 26));
    r
}

fn read_list_abs(b: &Vec<u8>, pos: usize) -> (r: Option<(Vec<(u16, AbsInfoData)>, usize)>)
    requires
        pos <= b.len(),
    ensures
        match r {
            Some((v, q)) => {
                &&& pos <= q <= b@.len()
                &&& v@.len() <= u64::MAX
                &&& b@.subrange(pos as int, b@.len() as int) == list_abs(v@) + b@.subrange(
                    q as int,
                    b@.len() as int,
                )
            },
            None => forall|s: Seq<(u16, AbsInfoData)>, t: Seq<u8>|
                s.len() <= u64::MAX ==> b@.subrange(pos as int, b@.len() as int) != #[trigger] (
                list_abs(s) + t),
        },
{
    reveal(list_abs);
    let ghost rest = b@.subrange(pos as int, b@.len() as int);
    if b.len() - pos < 8 {
        assert forall|s: Seq<(u16, AbsInfoData)>, t: Seq<u8>| s.len() <= u64::MAX implies rest
            != #[trigger] (list_abs(s) + t) by {
            lemma_list_abs_head(s, t);
        }
        return None;
    }
    let n = get_u64(b, pos);
    let start = pos + 8;
    if n > ((b.len() - start) / 26) as u64 {
        assert forall|s: Seq<(u16, AbsInfoData)>, t: Seq<u8>| s.len() <= u64::MAX implies rest
            != #[trigger] (list_abs(s) + t) by {
            lemma_list_abs_head(s, t);
            if rest == list_abs(s) + t {
                assert(rest.subrange(0, 8) =~= b@.subrange(pos as int, pos + 8));
                lemma_le64_injective(n, s.len() as u64);
                lemma_div_bound(b.len() - start, n as int, 26);
            }
        }
        return None;
    }
    let n = n as usize;
    assert(start + 26 * n <= b.len()) by (nonlinear_arith)
        requires n <= (b.len() - start) / 26, start <= b.len();
    let mut v: Vec<(u16, AbsInfoData)> = Vec::new();
    let mut p = start;
    let mut i: usize = 0;
    while i < n
        invariant
            i <= n,
            p == start + 26 * i,
            start + 26 * n <= b.len(),
            v@.len() == i,
            b@.subrange(start as int, p as int) == items_abs(v@),
        decreases n - i,
    {
        let x = get_axis(b, p);
        let ghost before = v@;
        v.push(x);
        assert(v@.drop_last() =~= before);
        assert(b@.subrange(start as int, p + 26) =~= b@.subrange(start as int, p as int)
            + b@.subrange(p as int, p + 26));
        p = p + 26;
        i += 1;
    }
    assert(rest =~= le64(v@.len() as u64) + b@.subrange(start as int, p as int) + b@.subrange(
        p as int,
        b@.len() as int,
    ));
    Some((v, p))
}

proof fn lemma_slot64_prefix_free(tag: u8, p1: bool, x1: u64, t1: Seq<u8>, p2: bool, x2: u64, t2: Seq<u8>)
    requires
        !p1 ==> x1 == 0,
        !p2 ==> x2 == 0,
        !p1 ==> untagged(t1, tag),
        after(t2, tag),
        slot64(tag, p1, x1) + t1 == slot64(tag, p2, x2) + t2,
    ensures
        p1 == p2,
        x1 == x2,
        t1 == t2,
{
    let w1 = slot64(tag, p1, x1) + t1;
    let w2 = slot64(tag, p2, x2) + t2;
    if p1 && p2 {
        assert(w1.subrange(1, 9) =~= le64(x1));
        assert(w2.subrange(1, 9) =~= le64(x2));
        lemma_le64_injective(x1, x2);
        assert(w1.subrange(9, w1.len() as int) =~= t1);
        assert(w2.subrange(9, w2.len() as int) =~= t2);
    } else if p1 {
        assert(w1[0] == tag);
        assert(w2 =~= t2);
    } else if p2 {
        assert(w2[0] == tag);
        assert(w1 =~= t1);
    } else {
        assert(w1 =~= t1);
        assert(w2 =~= t2);
    }
}

proof fn lemma_slot16_prefix_free(
    tag: u8,
    p1: bool,
    s1: Seq<u16>,
    t1: Seq<u8>,
    p2: bool,
    s2: Seq<u16>,
    t2: Seq<u8>,
)
    requires
        s1.len() <= u64::MAX,
        s2.len() <= u64::MAX,
        !p1 ==> s1.len() == 0,
        !p2 ==> s2.len() == 0,
        !p1 ==> untagged(t1, tag),
        after(t2, tag),
        slot16(tag, p1, s1) + t1 == slot16(tag, p2, s2) + t2,
    ensures
        p1 == p2,
        s1 == s2,
        t1 == t2,
{
    let w1 = slot16(tag, p1, s1) + t1;
    let w2 = slot16(tag, p2, s2) + t2;
    if p1 && p2 {
        assert(w1.subrange(1, w1.len() as int) =~= list16(s1) + t1);
        assert(w2.subrange(1, w2.len() as int) =~= list16(s2) + t2);
        lemma_list16_prefix_free(s1, t1, s2, t2);
    } else if p1 {
        assert(w1[0] == tag);
        assert(w2 =~= t2);
    } else if p2 {
        assert(w2[0] == tag);
        assert(w1 =~= t1);
    } else {
        assert(w1 =~= t1);
        assert(w2 =~= t2);
        assert(s1 =~= s2);
    }
}

proof fn lemma_slot_abs_prefix_free(
    tag: u8,
    p1: bool,
    s1: Seq<(u16, AbsInfoData)>,
    t1: Seq<u8>,
    p2: bool,
    s2: Seq<(u16, AbsInfoData)>,
    t2: Seq<u8>,
)
    requires
        s1.len() <= u64::MAX,
        s2.len() <= u64::MAX,
        !p1 ==> s1.len() == 0,
        !p2 ==> s2.len() == 0,
        !p1 ==> untagged(t1, tag),
        after(t2, tag),
        slot_abs(tag, p1, s1) + t1 == slot_abs(tag, p2, s2) + t2,
    ensures
        p1 == p2,
        s1 == s2,
        t1 == t2,
{
    let w1 = slot_abs(tag, p1, s1) + t1;
    let w2 = slot_abs(tag, p2, s2) + t2;
    if p1 && p2 {
        assert(w1.subrange(1, w1.len() as int) =~= list_abs(s1) + t1);
        assert(w2.subrange(1, w2.len() as int) =~= list_abs(s2) + t2);
        lemma_list_abs_prefix_free(s1, t1, s2, t2);
    } else if p1 {
        assert(w1[0] == tag);
        assert(w2 =~= t2);
    } else if p2 {
        assert(w2[0] == tag);
        assert(w1 =~= t1);
    } else {
        assert(w1 =~= t1);
        assert(w2 =~= t2);
        assert(s1 =~= s2);
    }
}

proof fn lemma_slot16_after(tag: u8, p: bool, s: Seq<u16>, t: Seq<u8>, prev: u8)
    requires
        prev < tag,
        after(t, prev),
    ensures
        after(slot16(tag, p, s) + t, prev),
{
    if p {
        assert((slot16(tag, p, s) + t)[0] == tag);
    } else {
        assert(slot16(tag, p, s) + t =~= t);
    }
}

/// What follows each group starts with a later tag, or is empty.
proof fn lemma_tails_after(c: CapabilitiesView, p: Presence)
    ensures
        after(tail_properties(c, p), TAG_EFFECTS),
        after(tail_keys(c, p), TAG_PROPERTIES),
        after(tail_relative(c, p), TAG_KEYS),
        after(tail_switches(c, p), TAG_RELATIVE),
        after(tail_ff(c, p), TAG_SWITCHES),
        after(tail_msc(c, p), TAG_FF),
        after(tail_absolute(c, p), TAG_MSC),
{
    reveal(tail_absolute);
    reveal(tail_msc);
    reveal(tail_ff);
    reveal(tail_switches);
    reveal(tail_relative);
    reveal(tail_keys);
    reveal(tail_properties);
    reveal(groups);
    if p.absolute_axes {
        assert(tail_absolute(c, p)[0] == TAG_ABSOLUTE);
    }
    lemma_slot16_after(TAG_MSC, p.msc, c.msc, tail_absolute(c, p), TAG_FF);
    lemma_slot16_after(TAG_FF, p.ff, c.ff, tail_msc(c, p), TAG_SWITCHES);
    lemma_slot16_after(TAG_SWITCHES, p.switches, c.switches, tail_ff(c, p), TAG_RELATIVE);
    lemma_slot16_after(
        TAG_RELATIVE,
        p.relative_axes,
        c.relative_axes,
        tail_switches(c, p),
        TAG_KEYS,
    );
    lemma_slot16_after(TAG_KEYS, p.keys, c.keys, tail_relative(c, p), TAG_PROPERTIES);
    lemma_slot16_after(TAG_PROPERTIES, p.properties, c.properties, tail_keys(c, p), TAG_EFFECTS);
}

proof fn lemma_le64_len(x: u64)
    ensures
        le64(x).len() == 8,
{
}

proof fn lemma_entry_parts(c: CapabilitiesView, p: Presence)
    ensures
        entry(c, p).len() == 13 + groups(c, p).len(),
        entry(c, p).subrange(0, 5) == header(),
        entry(c, p).subrange(5, 13) == le64(groups(c, p).len() as u64),
        entry(c, p).subrange(13, entry(c, p).len() as int) == groups(c, p),
{
    reveal(entry);
    lemma_le64_len(groups(c, p).len() as u64);
    let e = entry(c, p);
    assert(e.subrange(0, 5) =~= header());
    assert(e.subrange(5, 13) =~= le64(groups(c, p).len() as u64));
    assert(e.subrange(13, e.len() as int) =~= groups(c, p));
}

proof fn lemma_entry_from_parts(c: CapabilitiesView, p: Presence, b: Seq<u8>)
    requires
        b.len() >= 13,
        b.subrange(0, 5) == header(),
        b.subrange(5, 13) == le64(groups(c, p).len() as u64),
        b.subrange(13, b.len() as int) == groups(c, p),
    ensures
        entry(c, p) == b,
{
    reveal(entry);
    assert(b =~= b.subrange(0, 5) + b.subrange(5, 13) + b.subrange(13, b.len() as int));
}

proof fn lemma_unfold(c: CapabilitiesView, p: Presence)
    ensures
        groups(c, p) == slot64(TAG_EFFECTS, p.effects, c.max_ff_effects as u64) + tail_properties(c, p),
        tail_properties(c, p) == slot16(TAG_PROPERTIES, p.properties, c.properties) + tail_keys(c, p),
        tail_keys(c, p) == slot16(TAG_KEYS, p.keys, c.keys) + tail_relative(c, p),
        tail_relative(c, p) == slot16(TAG_RELATIVE, p.relative_axes, c.relative_axes) + tail_switches(c, p),
        tail_switches(c, p) == slot16(TAG_SWITCHES, p.switches, c.switches) + tail_ff(c, p),
        tail_ff(c, p) == slot16(TAG_FF, p.ff, c.ff) + tail_msc(c, p),
        tail_msc(c, p) == slot16(TAG_MSC, p.msc, c.msc) + tail_absolute(c, p),
        tail_absolute(c, p) == slot_abs(TAG_ABSOLUTE, p.absolute_axes, c.absolute_axes),
{
    reveal(tail_absolute);
    reveal(tail_msc);
    reveal(tail_ff);
    reveal(tail_switches);
    reveal(tail_relative);
    reveal(tail_keys);
    reveal(tail_properties);
    reveal(groups);
}

proof fn lemma_entry_injective(c1: CapabilitiesView, p1: Presence, c2: CapabilitiesView, p2: Presence)
    requires
        c1.fits(),
        c2.fits(),
        omits_only_empty(c1, p1),
        omits_only_empty(c2, p2),
        entry(c1, p1) == entry(c2, p2),
    ensures
        c1 == c2,
{
    lemma_unfold(c1, p1);
    lemma_unfold(c2, p2);
    lemma_entry_parts(c1, p1);
    lemma_entry_parts(c2, p2);
    lemma_tails_after(c1, p1);
    lemma_tails_after(c2, p2);
    lemma_slot64_prefix_free(
        TAG_EFFECTS,
        p1.effects,
        c1.max_ff_effects as u64,
        tail_properties(c1, p1),
        p2.effects,
        c2.max_ff_effects as u64,
        tail_properties(c2, p2),
    );
    lemma_slot16_prefix_free(
        TAG_PROPERTIES,
        p1.properties,
        c1.properties,
        tail_keys(c1, p1),
        p2.properties,
        c2.properties,
        tail_keys(c2, p2),
    );
    lemma_slot16_prefix_free(
        TAG_KEYS,
        p1.keys,
        c1.keys,
        tail_relative(c1, p1),
        p2.keys,
        c2.keys,
        tail_relative(c2, p2),
    );
    lemma_slot16_prefix_free(
        TAG_RELATIVE,
        p1.relative_axes,
        c1.relative_axes,
        tail_switches(c1, p1),
        p2.relative_axes,
        c2.relative_axes,
        tail_switches(c2, p2),
    );
    lemma_slot16_prefix_free(
        TAG_SWITCHES,
        p1.switches,
        c1.switches,
        tail_ff(c1, p1),
        p2.switches,
        c2.switches,
        tail_ff(c2, p2),
    );
    lemma_slot16_prefix_free(
        TAG_FF,
        p1.ff,
        c1.ff,
        tail_msc(c1, p1),
        p2.ff,
        c2.ff,
        tail_msc(c2, p2),
    );
    lemma_slot16_prefix_free(
        TAG_MSC,
        p1.msc,
        c1.msc,
        tail_absolute(c1, p1),
        p2.msc,
        c2.msc,
        tail_absolute(c2, p2),
    );
    assert(tail_absolute(c1, p1) + Seq::empty() =~= tail_absolute(c1, p1));
    assert(tail_absolute(c2, p2) + Seq::empty() =~= tail_absolute(c2, p2));
    lemma_slot_abs_prefix_free(
        TAG_ABSOLUTE,
        p1.absolute_axes,
        c1.absolute_axes,
        Seq::empty(),
        p2.absolute_axes,
        c2.absolute_axes,
        Seq::empty(),
    );
}

/// An entry that leaves out some empty groups decodes to the descriptor whose left-out
/// groups are empty.
pub proof fn lemma_missing_groups_read_as_empty(c: CapabilitiesView, p: Presence)
    requires
        c.fits(),
        omits_only_empty(c, p),
    ensures
        spec_decode(entry(c, p)) == Ok::<CapabilitiesView, CodecError>(c),
{
    let b = entry(c, p);
    lemma_entry_parts(c, p);
    assert(b.subrange(0, 4) =~= header().subrange(0, 4));
    assert(b[4] == b.subrange(0, 5)[4]);
    assert(entry_of(c, b));
    let d = choose|d: CapabilitiesView| entry_of(d, b);
    let q = choose|q: Presence| omits_only_empty(d, q) && entry(d, q) == b;
    lemma_entry_injective(d, q, c, p);
}

/// Decoding the encoding of any descriptor gives that descriptor back, whatever
/// its groups hold, empty ones and axes in any code order included.
pub proof fn lemma_round_trip(d: CapabilitiesView)
    requires
        d.fits(),
    ensures
        spec_decode(encoded(d)) == Ok::<CapabilitiesView, CodecError>(d),
{
    lemma_missing_groups_read_as_empty(d, all_present());
}

proof fn lemma_tagged(tag: u8, x: Seq<u8>, t: Seq<u8>, rest: Seq<u8>)
    requires
        rest.len() >= 1,
        rest[0] == tag,
        rest.subrange(1, rest.len() as int) == x + t,
    ensures
        rest == seq![tag] + x + t,
{
    let r2 = seq![tag] + (x + t);
    assert(seq![tag] + x + t =~= r2);
    assert forall|i: int| 0 <= i < rest.len() implies rest[i] == r2[i] by {
        if i > 0 {
            assert(rest.subrange(1, rest.len() as int)[i - 1] == rest[i]);
        }
    }
    assert(rest =~= r2);
}

proof fn lemma_untag(tag: u8, x: Seq<u8>, t: Seq<u8>)
    ensures
        (seq![tag] + x + t).len() == 1 + x.len() + t.len(),
        (seq![tag] + x + t)[0] == tag,
        (seq![tag] + x + t).subrange(1, 1 + x.len() + t.len() as int) == x + t,
{
    assert((seq![tag] + x + t).subrange(1, 1 + x.len() + t.len() as int) =~= x + t);
}

fn read_slot64(b: &Vec<u8>, pos: usize, tag: u8) -> (r: Option<(u64, usize, bool)>)
    requires
        pos <= b.len(),
    ensures
        match r {
            Some((x, q, pr)) => {
                &&& pos <= q <= b@.len()
                &&& !pr ==> x == 0
                &&& !pr ==> untagged(b@.subrange(q as int, b@.len() as int), tag)
                &&& b@.subrange(pos as int, b@.len() as int) == slot64(tag, pr, x) + b@.subrange(
                    q as int,
                    b@.len() as int,
                )
            },
            None => forall|pr: bool, x: u64, t: Seq<u8>|
                (!pr ==> x == 0) && after(t, tag) ==> b@.subrange(pos as int, b@.len() as int)
                    != #[trigger] (slot64(tag, pr, x) + t),
        },
{
    let ghost rest = b@.subrange(pos as int, b@.len() as int);
    if pos < b.len() && b[pos] == tag {
        if b.len() - pos < 9 {
            assert forall|pr: bool, x: u64, t: Seq<u8>| (!pr ==> x == 0) && after(t, tag) implies rest
                != #[trigger] (slot64(tag, pr, x) + t) by {
                if rest == slot64(tag, pr, x) + t {
                    if pr {
                        lemma_untag(tag, le64(x), t);
                    } else {
                        assert(slot64(tag, pr, x) + t =~= t);
                        assert(rest[0] == tag);
                    }
                }
            }
            return None;
        }
        let x = get_u64(b, pos + 1);
        assert(rest =~= seq![tag] + le64(x) + b@.subrange(pos + 9, b@.len() as int));
        Some((x, pos + 9, true))
    } else {
        assert(rest =~= slot64(tag, false, 0) + b@.subrange(pos as int, b@.len() as int));
        Some((0, pos, false))
    }
}

fn read_slot16(b: &Vec<u8>, pos: usize, tag: u8) -> (r: Option<(Vec<u16>, usize, bool)>)
    requires
        pos <= b.len(),
    ensures
        match r {
            Some((v, q, pr)) => {
                &&& pos <= q <= b@.len()
                &&& v@.len() <= u64::MAX
                &&& !pr ==> v@.len() == 0
                &&& !pr ==> untagged(b@.subrange(q as int, b@.len() as int), tag)
                &&& b@.subrange(pos as int, b@.len() as int) == slot16(tag, pr, v@) + b@.subrange(
                    q as int,
                    b@.len() as int,
                )
            },
            None => forall|pr: bool, s: Seq<u16>, t: Seq<u8>|
                s.len() <= u64::MAX && (!pr ==> s.len() == 0) && after(t, tag) ==> b@.subrange(
                    pos as int,
                    b@.len() as int,
                ) != #[trigger] (slot16(tag, pr, s) + t),
        },
{
    let ghost rest = b@.subrange(pos as int, b@.len() as int);
    if pos < b.len() && b[pos] == tag {
        match read_list16(b, pos + 1) {
            None => {
                assert forall|pr: bool, s: Seq<u16>, t: Seq<u8>|
                    s.len() <= u64::MAX && (!pr ==> s.len() == 0) && after(t, tag) implies rest
                    != #[trigger] (slot16(tag, pr, s) + t) by {
                    if rest == slot16(tag, pr, s) + t {
                        if pr {
                            lemma_untag(tag, list16(s), t);
                            assert(b@.subrange(pos + 1, b@.len() as int) =~= rest.subrange(
                                1,
                                rest.len() as int,
                            ));
                        } else {
                            assert(slot16(tag, pr, s) + t =~= t);
                            assert(rest[0] == tag);
                        }
                    }
                }
                None
            },
            Some((v, q)) => {
                assert(b@.subrange(pos + 1, b@.len() as int) =~= rest.subrange(1, rest.len() as int));
                proof {
                    lemma_tagged(tag, list16(v@), b@.subrange(q as int, b@.len() as int), rest);
                }
                assert(rest == slot16(tag, true, v@) + b@.subrange(q as int, b@.len() as int));
                Some((v, q, true))
            },
        }
    } else {
        let v: Vec<u16> = Vec::new();
        assert(rest =~= slot16(tag, false, v@) + b@.subrange(pos as int, b@.len() as int));
        Some((v, pos, false))
    }
}

fn read_slot_abs(b: &Vec<u8>, pos: usize, tag: u8) -> (r: Option<(Vec<(u16, AbsInfoData)>, usize, bool)>)
    requires
        pos <= b.len(),
    ensures
        match r {
            Some((v, q, pr)) => {
                &&& pos <= q <= b@.len()
                &&& v@.len() <= u64::MAX
                &&& !pr ==> v@.len() == 0
                &&& !pr ==> untagged(b@.subrange(q as int, b@.len() as int), tag)
                &&& b@.subrange(pos as int, b@.len() as int) == slot_abs(tag, pr, v@)
                    + b@.subrange(q as int, b@.len() as int)
            },
            None => forall|pr: bool, s: Seq<(u16, AbsInfoData)>, t: Seq<u8>|
                s.len() <= u64::MAX && (!pr ==> s.len() == 0) && after(t, tag) ==> b@.subrange(
                    pos as int,
                    b@.len() as int,
                ) != #[trigger] (slot_abs(tag, pr, s) + t),
        },
{
    let ghost rest = b@.subrange(pos as int, b@.len() as int);
    if pos < b.len() && b[pos] == tag {
        match read_list_abs(b, pos + 1) {
            None => {
                assert forall|pr: bool, s: Seq<(u16, AbsInfoData)>, t: Seq<u8>|
                    s.len() <= u64::MAX && (!pr ==> s.len() == 0) && after(t, tag) implies rest
                    != #[trigger] (slot_abs(tag, pr, s) + t) by {
                    if rest == slot_abs(tag, pr, s) + t {
                        if pr {
                            lemma_untag(tag, list_abs(s), t);
                            assert(b@.subrange(pos + 1, b@.len() as int) =~= rest.subrange(
                                1,
                                rest.len() as int,
                            ));
                        } else {
                            assert(slot_abs(tag, pr, s) + t =~= t);
                            assert(rest[0] == tag);
                        }
                    }
                }
                None
            },
            Some((v, q)) => {
                assert(b@.subrange(pos + 1, b@.len() as int) =~= rest.subrange(1, rest.len() as int));
                proof {
                    lemma_tagged(tag, list_abs(v@), b@.subrange(q as int, b@.len() as int), rest);
                }
                assert(rest == slot_abs(tag, true, v@) + b@.subrange(q as int, b@.len() as int));
                Some((v, q, true))
            },
        }
    } else {
        let v: Vec<(u16, AbsInfoData)> = Vec::new();
        assert(rest =~= slot_abs(tag, false, v@) + b@.subrange(pos as int, b@.len() as int));
        Some((v, pos, false))
    }
}

fn push_slot16(out: &mut Vec<u8>, tag: u8, s: &Vec<u16>)
    ensures
        final(out)@ == old(out)@ + slot16(tag, true, s@),
{
    out.push(tag);
    push_list16(out, s);
    assert(final(out)@ =~= old(out)@ + slot16(tag, true, s@));
}

/// Reads the code groups and the axes that start at `pos` and run to the end. When
/// the bytes there are the groups of `tc` as `tp` lays them out, they are read back.
#[verifier::rlimit(100)]
#[verifier::spinoff_prover]
fn read_groups(
    b: &Vec<u8>,
    pos: usize,
    Ghost(valid): Ghost<bool>,
    Ghost(tc): Ghost<CapabilitiesView>,
    Ghost(tp): Ghost<Presence>,
) -> (r: Option<(Capabilities, Ghost<Presence>)>)
    requires
        pos <= b.len(),
        valid ==> tc.fits() && omits_only_empty(tc, tp) && b@.subrange(pos as int, b@.len() as int)
            == tail_properties(tc, tp),
    ensures
        match r {
            Some((c, gp)) => {
                &&& c@.fits()
                &&& c.max_ff_effects == 0
                &&& gp@.effects
                &&& omits_only_empty(c@, gp@)
                &&& b@.subrange(pos as int, b@.len() as int) == tail_properties(c@, gp@)
                &&& valid ==> (c@.properties == tc.properties && c@.keys == tc.keys
                    && c@.relative_axes == tc.relative_axes && c@.switches == tc.switches && c@.ff
                    == tc.ff && c@.msc == tc.msc && c@.absolute_axes == tc.absolute_axes)
            },
            None => !valid,
        },
{
    let ghost len = b@.len() as int;
    proof {
        if valid {
            lemma_unfold(tc, tp);
            lemma_tails_after(tc, tp);
        }
    }
    let (properties, q2, has_properties) = match read_slot16(b, pos, TAG_PROPERTIES) {
        Some(x) => x,
        None => {
            return None;
        },
    };
    proof {
        if valid {
            lemma_slot16_prefix_free(
                TAG_PROPERTIES,
                has_properties,
                properties@,
                b@.subrange(q2 as int, len),
                tp.properties,
                tc.properties,
                tail_keys(tc, tp),
            );
        }
    }
    let (keys, q3, has_keys) = match read_slot16(b, q2, TAG_KEYS) {
        Some(x) => x,
        None => {
            return None;
        },
    };
    proof {
        if valid {
            lemma_slot16_prefix_free(
                TAG_KEYS,
                has_keys,
                keys@,
                b@.subrange(q3 as int, len),
                tp.keys,
                tc.keys,
                tail_relative(tc, tp),
            );
        }
    }
    let (relative_axes, q4, has_relative_axes) = match read_slot16(b, q3, TAG_RELATIVE) {
        Some(x) => x,
        None => {
            return None;
        },
    };
    proof {
        if valid {
            lemma_slot16_prefix_free(
                TAG_RELATIVE,
                has_relative_axes,
                relative_axes@,
                b@.subrange(q4 as int, len),
                tp.relative_axes,
                tc.relative_axes,
                tail_switches(tc, tp),
            );
        }
    }
    let (switches, q5, has_switches) = match read_slot16(b, q4, TAG_SWITCHES) {
        Some(x) => x,
        None => {
            return None;
        },
    };
    proof {
        if valid {
            lemma_slot16_prefix_free(
                TAG_SWITCHES,
                has_switches,
                switches@,
                b@.subrange(q5 as int, len),
                tp.switches,
                tc.switches,
                tail_ff(tc, tp),
            );
        }
    }
    let (ff, q6, has_ff) = match read_slot16(b, q5, TAG_FF) {
        Some(x) => x,
        None => {
            return None;
        },
    };
    proof {
        if valid {
            lemma_slot16_prefix_free(
                TAG_FF,
                has_ff,
                ff@,
                b@.subrange(q6 as int, len),
                tp.ff,
                tc.ff,
                tail_msc(tc, tp),
            );
        }
    }
    let (msc, q7, has_msc) = match read_slot16(b, q6, TAG_MSC) {
        Some(x) => x,
        None => {
            return None;
        },
    };
    proof {
        if valid {
            lemma_slot16_prefix_free(
                TAG_MSC,
                has_msc,
                msc@,
                b@.subrange(q7 as int, len),
                tp.msc,
                tc.msc,
                tail_absolute(tc, tp),
            );
        }
    }
    let (absolute_axes, q8, has_absolute_axes) = match read_slot_abs(b, q7, TAG_ABSOLUTE) {
        Some(x) => x,
        None => {
            proof {
                if valid {
                    assert(tail_absolute(tc, tp) + Seq::<u8>::empty() =~= tail_absolute(tc, tp));
                }
            }
            return None;
        },
    };
    if q8 != b.len() {
        proof {
            if valid {
                assert(tail_absolute(tc, tp) + Seq::<u8>::empty() =~= tail_absolute(tc, tp));
                lemma_slot_abs_prefix_free(
                    TAG_ABSOLUTE,
                    has_absolute_axes,
                    absolute_axes@,
                    b@.subrange(q8 as int, len),
                    tp.absolute_axes,
                    tc.absolute_axes,
                    Seq::empty(),
                );
            }
        }
        return None;
    }
    proof {
        if valid {
            assert(tail_absolute(tc, tp) + Seq::<u8>::empty() =~= tail_absolute(tc, tp));
            lemma_slot_abs_prefix_free(
                TAG_ABSOLUTE,
                has_absolute_axes,
                absolute_axes@,
                b@.subrange(q8 as int, len),
                tp.absolute_axes,
                tc.absolute_axes,
                Seq::empty(),
            );
        }
    }
    let c = Capabilities {
        properties,
        keys,
        relative_axes,
        absolute_axes,
        switches,
        ff,
        max_ff_effects: 0,
        msc,
    };
    let ghost gp = Presence {
        effects: true,
        properties: has_properties,
        keys: has_keys,
        relative_axes: has_relative_axes,
        switches: has_switches,
        ff: has_ff,
        msc: has_msc,
        absolute_axes: has_absolute_axes,
    };
    proof {
        lemma_view_fits(&c);
        lemma_unfold(c@, gp);
        assert(b@.subrange(q8 as int, len) =~= Seq::<u8>::empty());
        assert(slot_abs(TAG_ABSOLUTE, gp.absolute_axes, c@.absolute_axes) + Seq::<u8>::empty()
            =~= slot_abs(TAG_ABSOLUTE, gp.absolute_axes, c@.absolute_axes));
    }
    Some((c, Ghost(gp)))
}

proof fn lemma_same_tail(c1: CapabilitiesView, p1: Presence, c2: CapabilitiesView, p2: Presence)
    requires
        c1.properties == c2.properties,
        c1.keys == c2.keys,
        c1.relative_axes == c2.relative_axes,
        c1.switches == c2.switches,
        c1.ff == c2.ff,
        c1.msc == c2.msc,
        c1.absolute_axes == c2.absolute_axes,
        p1.properties == p2.properties,
        p1.keys == p2.keys,
        p1.relative_axes == p2.relative_axes,
        p1.switches == p2.switches,
        p1.ff == p2.ff,
        p1.msc == p2.msc,
        p1.absolute_axes == p2.absolute_axes,
    ensures
        tail_properties(c1, p1) == tail_properties(c2, p2),
{
    lemma_unfold(c1, p1);
    lemma_unfold(c2, p2);
}

proof fn lemma_view_fits(c: &Capabilities)
    ensures
        c@.fits(),
{
    assert(c.properties@.len() == c.properties.len());
    assert(c.keys@.len() == c.keys.len());
    assert(c.relative_axes@.len() == c.relative_axes.len());
    assert(c.absolute_axes@.len() == c.absolute_axes.len());
    assert(c.switches@.len() == c.switches.len());
    assert(c.ff@.len() == c.ff.len());
    assert(c.msc@.len() == c.msc.len());
}

impl Capabilities {
    /// The cache entry of this descriptor, with every group present.
    pub fn encode(&self) -> (r: Vec<u8>)
        ensures
            r@ == encoded(self@),
            spec_decode(r@) == Ok::<CapabilitiesView, CodecError>(self@),
    {
        let mut g: Vec<u8> = Vec::new();
        g.push(TAG_EFFECTS);
        push_u64(&mut g, self.max_ff_effects as u64);
        push_slot16(&mut g, TAG_PROPERTIES, &self.properties);
        push_slot16(&mut g, TAG_KEYS, &self.keys);
        push_slot16(&mut g, TAG_RELATIVE, &self.relative_axes);
        push_slot16(&mut g, TAG_SWITCHES, &self.switches);
        push_slot16(&mut g, TAG_FF, &self.ff);
        push_slot16(&mut g, TAG_MSC, &self.msc);
        g.push(TAG_ABSOLUTE);
        push_list_abs(&mut g, &self.absolute_axes);
        assert(g@ =~= groups(self@, all_present())) by {
            reveal(tail_absolute);
            reveal(tail_msc);
            reveal(tail_ff);
            reveal(tail_switches);
            reveal(tail_relative);
            reveal(tail_keys);
            reveal(tail_properties);
            reveal(groups);
        }
        let mut out: Vec<u8> = Vec::new();
        out.push(0x50u8);
        out.push(0x45u8);
        out.push(0x56u8);
        out.push(0x43u8);
        out.push(SCHEMA_VERSION);
        assert(out@ =~= header());
        push_u64(&mut out, g.len() as u64);
        out.append(&mut g);
        proof {
            lemma_le64_len(groups(self@, all_present()).len() as u64);
            assert(out@.subrange(0, 5) =~= header());
            assert(out@.subrange(5, 13) =~= le64(groups(self@, all_present()).len() as u64));
            assert(out@.subrange(13, out@.len() as int) =~= groups(self@, all_present()));
            lemma_entry_from_parts(self@, all_present(), out@);
        }
        proof {
            lemma_view_fits(self);
            lemma_round_trip(self@);
        }
        out
    }

    /// The descriptor held in a cache entry. A group the entry leaves out reads as empty.
    #[verifier::rlimit(100)]
    #[verifier::spinoff_prover]
    pub fn decode(b: &Vec<u8>) -> (r: Result<Capabilities, CodecError>)
        ensures
            match r {
                Ok(c) => spec_decode(b@) == Ok::<CapabilitiesView, CodecError>(c@),
                Err(e) => spec_decode(b@) == Err::<CapabilitiesView, CodecError>(e),
            },
    {
        let ghost valid = exists|c: CapabilitiesView| entry_of(c, b@);
        let ghost tc = choose|c: CapabilitiesView| entry_of(c, b@);
        let ghost tp = choose|p: Presence| omits_only_empty(tc, p) && entry(tc, p) == b@;
        let ghost len = b@.len() as int;
        if b.len() < 5 || b[0] != 0x50u8 || b[1] != 0x45u8 || b[2] != 0x56u8 || b[3] != 0x43u8 {
            proof {
                if valid {
                    lemma_entry_parts(tc, tp);
                    assert(b@[0] == b@.subrange(0, 5)[0] && b@[1] == b@.subrange(0, 5)[1]);
                    assert(b@[2] == b@.subrange(0, 5)[2] && b@[3] == b@.subrange(0, 5)[3]);
                }
                if b@.len() >= 5 && b@.subrange(0, 4) == header().subrange(0, 4) {
                    assert(b@[0] == b@.subrange(0, 4)[0] && b@[1] == b@.subrange(0, 4)[1]);
                    assert(b@[2] == b@.subrange(0, 4)[2] && b@[3] == b@.subrange(0, 4)[3]);
                }
            }
            return Err(CodecError::MalformedCache);
        }
        assert(b@.subrange(0, 4) =~= header().subrange(0, 4));
        if b[4] != SCHEMA_VERSION {
            proof {
                if valid {
                    lemma_entry_parts(tc, tp);
                    assert(b@[4] == b@.subrange(0, 5)[4]);
                }
            }
            return Err(CodecError::UnsupportedSchema);
        }
        if b.len() < 13 {
            proof {
                if valid {
                    lemma_entry_parts(tc, tp);
                }
            }
            return Err(CodecError::MalformedCache);
        }
        let total = get_u64(b, 5);
        proof {
            if valid {
                lemma_entry_parts(tc, tp);
                lemma_le64_injective(total, groups(tc, tp).len() as u64);
                lemma_unfold(tc, tp);
                lemma_tails_after(tc, tp);
            }
        }
        if total != (b.len() - 13) as u64 {
            return Err(CodecError::MalformedCache);
        }
        let (m, q0, has_effects) = match read_slot64(b, 13, TAG_EFFECTS) {
            Some(x) => x,
            None => {
                return Err(CodecError::MalformedCache);
            },
        };
        proof {
            if valid {
                lemma_slot64_prefix_free(
                    TAG_EFFECTS,
                    has_effects,
                    m,
                    b@.subrange(q0 as int, len),
                    tp.effects,
                    tc.max_ff_effects as u64,
                    tail_properties(tc, tp),
                );
            }
        }
        if m > usize::MAX as u64 {
            return Err(CodecError::MalformedCache);
        }
        let (rest, Ghost(gp)) = match read_groups(b, q0, Ghost(valid), Ghost(tc), Ghost(tp)) {
            Some(x) => x,
            None => {
                return Err(CodecError::MalformedCache);
            },
        };
        let c = Capabilities {
            properties: rest.properties,
            keys: rest.keys,
            relative_axes: rest.relative_axes,
            absolute_axes: rest.absolute_axes,
            switches: rest.switches,
            ff: rest.ff,
            max_ff_effects: m as usize,
            msc: rest.msc,
        };
        let ghost p = Presence { effects: has_effects, ..gp };
        proof {
            lemma_view_fits(&c);
            lemma_same_tail(c@, p, rest@, gp);
            lemma_unfold(c@, p);
            assert(b@.subrange(13, len) == groups(c@, p));
            assert(groups(c@, p).len() == total);
            assert(b@.subrange(0, 5) =~= header());
            lemma_entry_from_parts(c@, p, b@);
            lemma_missing_groups_read_as_empty(c@, p);
        }
        Ok(c)
    }

    /// The bytes stored as the cache entry of this descriptor.
    pub fn save(&self) -> (r: Vec<u8>)
        ensures
            r@ == encoded(self@),
    {
        self.encode()
    }

    /// The descriptor held in a cache entry, given the entry's contents if it exists.
    pub fn load(contents: Option<Vec<u8>>) -> (r: Result<Capabilities, CodecError>)
        ensures
            contents is None ==> r == Err::<Capabilities, CodecError>(CodecError::NotFound),
            contents matches Some(b) ==> match r {
                Ok(c) => spec_decode(b@) == Ok::<CapabilitiesView, CodecError>(c@),
                Err(e) => spec_decode(b@) == Err::<CapabilitiesView, CodecError>(e),
            },
    {
        match contents {
            None => Err(CodecError::NotFound),
            Some(b) => Capabilities::decode(&b),
        }
    }
}


fn distinct16(v: &Vec<u16>) -> (r: bool)
    ensures
        r == v@.no_duplicates(),
{
    let n = v.len();
    let mut i: usize = 0;
    while i < n
        invariant
            n == v@.len(),
            i <= n,
            forall|a: int, b: int| 0 <= a < b < n && a < i ==> v@[a] != v@[b],
        decreases n - i,
    {
        let mut j: usize = i + 1;
        while j < n
            invariant
                n == v@.len(),
                i < n,
                i + 1 <= j <= n,
                forall|a: int, b: int| 0 <= a < b < n && a < i ==> v@[a] != v@[b],
                forall|b: int| i < b < j ==> v@[i as int] != v@[b],
            decreases n - j,
        {
            if v[i] == v[j] {
                assert(!v@.no_duplicates()) by {
                    assert(v@[i as int] == v@[j as int]);
                }
                return false;
            }
            j += 1;
        }
        i += 1;
    }
    assert(v@.no_duplicates()) by {
        assert forall|a: int, b: int| 0 <= a < v@.len() && 0 <= b < v@.len() && a != b implies v@[a]
            != v@[b] by {
            if a > b {
                assert(v@[b] != v@[a]);
            }
        }
    }
    true
}

fn distinct_axes(v: &Vec<(u16, AbsInfoData)>) -> (r: bool)
    ensures
        r == axis_codes_distinct(v@),
{
    let n = v.len();
    let mut i: usize = 0;
    while i < n
        invariant
            n == v@.len(),
            i <= n,
            forall|a: int, b: int| 0 <= a < b < n && a < i ==> v@[a].0 != v@[b].0,
        decreases n - i,
    {
        let mut j: usize = i + 1;
        while j < n
            invariant
                n == v@.len(),
                i < n,
                i + 1 <= j <= n,
                forall|a: int, b: int| 0 <= a < b < n && a < i ==> v@[a].0 != v@[b].0,
                forall|b: int| i < b < j ==> v@[i as int].0 != v@[b].0,
            decreases n - j,
        {
            if v[i].0 == v[j].0 {
                assert(!axis_codes_distinct(v@)) by {
                    assert(v@[i as int].0 == v@[j as int].0);
                }
                return false;
            }
            j += 1;
        }
        i += 1;
    }
    assert(axis_codes_distinct(v@)) by {
        assert forall|a: int, b: int| 0 <= a < v@.len() && 0 <= b < v@.len() && a != b implies v@[a].0
            != v@[b].0 by {
            if a > b {
                assert(v@[b].0 != v@[a].0);
            }
        }
    }
    true
}

impl Capabilities {
    /// Whether codes are unique within each group and among the axes.
    pub fn is_valid(&self) -> (r: bool)
        ensures
            r == self@.valid(),
    {
        distinct16(&self.properties) && distinct16(&self.keys) && distinct16(&self.relative_axes)
            && distinct16(&self.switches) && distinct16(&self.ff) && distinct16(&self.msc)
            && distinct_axes(&self.absolute_axes)
    }
}

} // verus!
