//! Parsing, mutation and byte-exact re-serialization of Apple-style NVRAM
//! images.
//!
//! An image is a fixed-size byte region divided into redundant banks of
//! `0x10000` bytes.  Two on-device layouts are supported: the CHRP-style
//! v1/v2 layout (two banks, generation counter, Adler-32 integrity word)
//! and the journal-style v3 layout (up to 16 banks, append-only record log
//! with tombstoning and bank rotation on overflow).  A uniform variable
//! surface exposes both behind one type, and a writer trait abstracts the
//! persistent medium.

use vstd::prelude::*;

pub mod laws;
pub mod sums;
pub mod writer;
pub mod v1v2;
pub mod v3;

verus! {
/// Errors surfaced to callers.
#[derive(Debug)]
pub enum Error {
    /// Any failure during byte-level decode: bad signature, bad checksum,
    /// bad CRC, bad Adler-32, missing required section, length overflow.
    ParseError,
    /// Serialized output would exceed a section or bank quota.
    SectionTooBig,
    /// The persistent writer failed; wraps the underlying I/O failure.
    ApplyError(std::io::Error),
}

/// The two variable namespaces.
#[derive(Clone, Copy, Debug, PartialEq, Eq, Structural)]
pub enum VarType {
    Common,
    System,
}

/// Byte addition with end-around carry, the primitive of the CHRP header
/// checksum.
pub open spec fn spec_chrp_checksum_add(lhs: u8, rhs: u8) -> u8 {
    if lhs + rhs < 256 {
        (lhs + rhs) as u8
    } else {
        (lhs + rhs - 255) as u8
    }
}

/// Adds one byte into a CHRP checksum accumulator with end-around carry.
pub fn chrp_checksum_add(lhs: u8, rhs: u8) -> (r: u8)
    ensures
        r == spec_chrp_checksum_add(lhs, rhs),
{
    let s: u16 = lhs as u16 + rhs as u16;
    if s >= 256 {
        (s - 255) as u8
    } else {
        s as u8
    }
}

/// `s` with every trailing occurrence of `t` removed.
pub open spec fn spec_rstrip(s: Seq<u8>, t: u8) -> Seq<u8>
    decreases s.len(),
{
    if s.len() > 0 && s.last() == t {
        spec_rstrip(s.drop_last(), t)
    } else {
        s
    }
}

/// Strips trailing occurrences of `t` from a byte slice.
pub fn slice_rstrip<'a>(ts: &'a [u8], t: u8) -> (r: &'a [u8])
    ensures
        r@ == spec_rstrip(ts@, t),
{
    let mut end: usize = ts.len();
    proof {
        assert(ts@.subrange(0, ts@.len() as int) =~= ts@);
    }
    while end > 0 && ts[end - 1] == t
        invariant
            end <= ts@.len(),
            spec_rstrip(ts@, t) == spec_rstrip(ts@.subrange(0, end as int), t),
        decreases end,
    {
        proof {
            assert(ts@.subrange(0, end as int).drop_last() =~= ts@.subrange(0, end - 1));
        }
        end = end - 1;
    }
    proof {
        if end > 0 {
            assert(ts@.subrange(0, end as int).last() != t);
        }
        assert(spec_rstrip(ts@.subrange(0, end as int), t) == ts@.subrange(0, end as int));
    }
    vstd::slice::slice_subrange(ts, 0, end)
}

/// The two little-endian bytes of a `u16`.
pub open spec fn spec_le16_bytes(x: u16) -> Seq<u8> {
    seq![(x & 0xFF) as u8, ((x >> 8) & 0xFF) as u8]
}

/// The `u16` read from two little-endian bytes.
pub open spec fn spec_le16_val(s: Seq<u8>) -> u16
    recommends
        s.len() == 2,
{
    (s[0] as u16) | ((s[1] as u16) << 8)
}

/// The four little-endian bytes of a `u32`.
pub open spec fn spec_le32_bytes(x: u32) -> Seq<u8> {
    seq![
        (x & 0xFF) as u8,
        ((x >> 8) & 0xFF) as u8,
        ((x >> 16) & 0xFF) as u8,
        ((x >> 24) & 0xFF) as u8,
    ]
}

/// The `u32` read from four little-endian bytes.
pub open spec fn spec_le32_val(s: Seq<u8>) -> u32
    recommends
        s.len() == 4,
{
    (s[0] as u32) | ((s[1] as u32) << 8) | ((s[2] as u32) << 16) | ((s[3] as u32) << 24)
}

/// Encoding then decoding a `u16` gives it back.
pub proof fn lemma_le16_roundtrip(x: u16)
    ensures
        spec_le16_val(spec_le16_bytes(x)) == x,
{
    let b0 = (x & 0xFF) as u8;
    let b1 = ((x >> 8) & 0xFF) as u8;
    assert((b0 as u16) | ((b1 as u16) << 8) == x) by {
        let y = x;
        assert(((((y & 0xFF) as u8) as u16) | ((((y >> 8) & 0xFF) as u8) as u16) << 8) == y)
            by (bit_vector);
    }
}

/// Encoding then decoding a `u32` gives it back.
pub proof fn lemma_le32_roundtrip(x: u32)
    ensures
        spec_le32_val(spec_le32_bytes(x)) == x,
{
    let b0 = (x & 0xFF) as u8;
    let b1 = ((x >> 8) & 0xFF) as u8;
    let b2 = ((x >> 16) & 0xFF) as u8;
    let b3 = ((x >> 24) & 0xFF) as u8;
    assert((b0 as u32) | ((b1 as u32) << 8) | ((b2 as u32) << 16) | ((b3 as u32) << 24) == x) by {
        let y = x;
        assert(((((y & 0xFF) as u8) as u32) | ((((y >> 8) & 0xFF) as u8) as u32) << 8 | ((((y
            >> 16) & 0xFF) as u8) as u32) << 16 | ((((y >> 24) & 0xFF) as u8) as u32) << 24)
            == y) by (bit_vector);
    }
}

/// Reads the little-endian `u16` at `off`.
pub fn read_le16(b: &[u8], off: usize) -> (r: u16)
    requires
        off + 2 <= b@.len(),
    ensures
        r == spec_le16_val(b@.subrange(off as int, off + 2)),
{
    let lo = b[off];
    let hi = b[off + 1];
    (lo as u16) | ((hi as u16) << 8)
}

/// Reads the little-endian `u32` at `off`.
pub fn read_le32(b: &[u8], off: usize) -> (r: u32)
    requires
        off + 4 <= b@.len(),
    ensures
        r == spec_le32_val(b@.subrange(off as int, off + 4)),
{
    let b0 = b[off];
    let b1 = b[off + 1];
    let b2 = b[off + 2];
    let b3 = b[off + 3];
    (b0 as u32) | ((b1 as u32) << 8) | ((b2 as u32) << 16) | ((b3 as u32) << 24)
}

/// Appends `x` to `v` as two little-endian bytes.
pub fn push_le16(v: &mut Vec<u8>, x: u16)
    ensures
        final(v)@ == old(v)@ + spec_le16_bytes(x),
{
    v.push((x & 0xFF) as u8);
    v.push(((x >> 8) & 0xFF) as u8);
    proof {
        assert(v@ =~= old(v)@ + spec_le16_bytes(x));
    }
}

/// Appends `x` to `v` as four little-endian bytes.
pub fn push_le32(v: &mut Vec<u8>, x: u32)
    ensures
        final(v)@ == old(v)@ + spec_le32_bytes(x),
{
    v.push((x & 0xFF) as u8);
    v.push(((x >> 8) & 0xFF) as u8);
    v.push(((x >> 16) & 0xFF) as u8);
    v.push(((x >> 24) & 0xFF) as u8);
    proof {
        assert(v@ =~= old(v)@ + spec_le32_bytes(x));
    }
}

/// True exactly when the two byte slices hold the same bytes.
pub fn bytes_eq(a: &[u8], b: &[u8]) -> (r: bool)
    ensures
        r == (a@ == b@),
{
    if a.len() != b.len() {
        return false;
    }
    let mut i: usize = 0;
    while i < a.len()
        invariant
            i <= a@.len(),
            a@.len() == b@.len(),
            forall|j: int| 0 <= j < i ==> a@[j] == b@[j],
        decreases a@.len() - i,
    {
        if a[i] != b[i] {
            return false;
        }
        i = i + 1;
    }
    proof {
        assert(a@ =~= b@);
    }
    true
}

/// Index of the first occurrence of `t` in `s` at or after `from`.
pub open spec fn spec_find(s: Seq<u8>, from: int, t: u8) -> Option<int>
    decreases s.len() - from,
{
    if from < 0 || from >= s.len() {
        None
    } else if s[from] == t {
        Some(from)
    } else {
        spec_find(s, from + 1, t)
    }
}

/// Finds the first occurrence of `t` in `ts` at or after index `from`.
pub fn slice_find(ts: &[u8], from: usize, t: u8) -> (r: Option<usize>)
    requires
        from <= ts@.len(),
    ensures
        match r {
            Some(i) => from <= i < ts@.len() && spec_find(ts@, from as int, t) == Some(i as int),
            None => spec_find(ts@, from as int, t).is_none(),
        },
{
    let mut i: usize = from;
    while i < ts.len()
        invariant
            from <= i <= ts@.len(),
            spec_find(ts@, from as int, t) == spec_find(ts@, i as int, t),
        decreases ts@.len() - i,
    {
        if ts[i] == t {
            return Some(i);
        }
        i = i + 1;
    }
    None
}

/// An NVRAM image of either on-device format.  Parsing yields one of the
/// two concrete containers; every operation dispatches on the variant.
#[derive(Debug)]
pub enum Nvram {
    V1V2(v1v2::Nvram),
    V3(v3::Nvram),
}

/// A read view of one bank of either format.
pub enum Partition<'a> {
    V1V2(&'a v1v2::Partition),
    V3(&'a v3::Partition),
}

/// A read view of one variable record of either format.
pub enum Variable<'a> {
    V1V2(&'a v1v2::Variable),
    V3(&'a v3::Variable),
}

impl<'a> Variable<'a> {
    /// The record's key bytes.
    pub fn key(&self) -> (r: &'a [u8])
        ensures
            match *self {
                Variable::V1V2(v) => r@ == v@.key,
                Variable::V3(v) => r@ == v@.key,
            },
    {
        match self {
            Variable::V1V2(v) => v.key.as_slice(),
            Variable::V3(v) => v.key.as_slice(),
        }
    }

    /// The record's value bytes: decoded from the run-length escape for
    /// the CHRP format, raw for the journal format.
    pub fn value(&self) -> (r: Vec<u8>)
        ensures
            match *self {
                Variable::V1V2(v) => r@ == v1v2::spec_unescape(v@.value, 0),
                Variable::V3(v) => r@ == v@.value,
            },
    {
        match self {
            Variable::V1V2(v) => v.value(),
            Variable::V3(v) => vstd::slice::slice_to_vec(v.value.as_slice()),
        }
    }
}

impl<'a> Partition<'a> {
    /// The record for `(key, typ)`: the live journal record, or the
    /// section entry.
    pub fn get_variable(&self, key: &[u8], typ: VarType) -> (r: Option<Variable<'a>>)
        ensures
            match *self {
                Partition::V3(p) => match r {
                    Some(Variable::V3(v)) => v3::spec_get_live(p@.vars, key@, typ) == Some(v@),
                    Some(Variable::V1V2(_)) => false,
                    None => v3::spec_get_live(p@.vars, key@, typ) is None,
                },
                Partition::V1V2(p) => match r {
                    Some(Variable::V1V2(v)) => match v1v2::find_key(p.section_vars(typ), key@) {
                        Some(i) => v@ == p.section_vars(typ)[i],
                        None => false,
                    },
                    Some(Variable::V3(_)) => false,
                    None => v1v2::find_key(p.section_vars(typ), key@) is None,
                },
            },
    {
        match self {
            Partition::V1V2(p) => match p.get_variable(key, typ) {
                Some(v) => Some(Variable::V1V2(v)),
                None => None,
            },
            Partition::V3(p) => match p.get_variable(key, typ) {
                Some(v) => Some(Variable::V3(v)),
                None => None,
            },
        }
    }

    /// Views of every record of the bank: both sections' entries, or the
    /// whole journal in log order.
    pub fn variables(&self) -> (r: Vec<Variable<'a>>)
        ensures
            match *self {
                Partition::V1V2(p) => {
                    &&& r@.len() == p@.common.vars.len() + p@.system.vars.len()
                    &&& forall|i: int|
                        0 <= i < r@.len() ==> (#[trigger] r@[i] matches Variable::V1V2(v) && v@
                            == (p@.common.vars + p@.system.vars)[i])
                },
                Partition::V3(p) => {
                    &&& r@.len() == p@.vars.len()
                    &&& forall|i: int|
                        0 <= i < r@.len() ==> (#[trigger] r@[i] matches Variable::V3(v) && v@
                            == p@.vars[i])
                },
            },
    {
        let mut out: Vec<Variable<'a>> = Vec::new();
        match self {
            Partition::V1V2(p) => {
                let vars = p.variables();
                let ghost all = p@.common.vars + p@.system.vars;
                let mut i: usize = 0;
                while i < vars.len()
                    invariant
                        i <= vars@.len(),
                        out@.len() == i,
                        v1v2::views_ref(vars@) == all,
                        forall|j: int|
                            0 <= j < i ==> (#[trigger] out@[j] matches Variable::V1V2(v) && v@
                                == all[j]),
                    decreases vars@.len() - i,
                {
                    proof {
                        assert(v1v2::views_ref(vars@)[i as int] == vars@[i as int]@);
                    }
                    out.push(Variable::V1V2(vars[i]));
                    i = i + 1;
                }
                proof {
                    assert(v1v2::views_ref(vars@).len() == vars@.len());
                }
            },
            Partition::V3(p) => {
                let mut i: usize = 0;
                while i < p.values.len()
                    invariant
                        i <= p.values@.len(),
                        out@.len() == i,
                        forall|j: int|
                            0 <= j < i ==> (#[trigger] out@[j] matches Variable::V3(v) && v@
                                == p@.vars[j]),
                    decreases p.values@.len() - i,
                {
                    proof {
                        assert(p@.vars[i as int] == p.values@[i as int]@);
                    }
                    out.push(Variable::V3(&p.values[i]));
                    i = i + 1;
                }
                proof {
                    assert(v3::views_of(p.values@).len() == p.values@.len());
                }
            },
        }
        out
    }
}

impl Nvram {
    /// The container invariant of the underlying format.
    pub open spec fn wf(&self) -> bool {
        match self {
            Nvram::V1V2(nv) => nv.wf(),
            Nvram::V3(nv) => nv.wf(),
        }
    }

    /// A read view of the active bank.
    pub fn active_part(&self) -> (r: Partition<'_>)
        requires
            self.wf(),
        ensures
            match (self, r) {
                (Nvram::V1V2(nv), Partition::V1V2(p)) => p@ == nv.active_view(),
                (Nvram::V3(nv), Partition::V3(p)) => p@ == nv.active_view(),
                _ => false,
            },
    {
        match self {
            Nvram::V1V2(nv) => Partition::V1V2(nv.active_part()),
            Nvram::V3(nv) => Partition::V3(nv.active_part()),
        }
    }

    /// Read views of the banks: both banks, or the valid journal banks in
    /// order.
    pub fn partitions(&self) -> (r: Vec<Partition<'_>>)
        requires
            self.wf(),
        ensures
            match self {
                Nvram::V1V2(nv) => {
                    &&& r@.len() == 2
                    &&& forall|i: int|
                        0 <= i < 2 ==> (#[trigger] r@[i] matches Partition::V1V2(p) && p@
                            == nv.partitions@[i]@)
                },
                Nvram::V3(nv) => {
                    &&& r@.len() == v3::valid_parts(nv.banks()).len()
                    &&& forall|i: int|
                        0 <= i < r@.len() ==> (#[trigger] r@[i] matches Partition::V3(p) && p@
                            == v3::valid_parts(nv.banks())[i])
                },
            },
    {
        let mut out: Vec<Partition<'_>> = Vec::new();
        match self {
            Nvram::V1V2(nv) => {
                let ps = nv.partitions();
                out.push(Partition::V1V2(ps[0]));
                out.push(Partition::V1V2(ps[1]));
            },
            Nvram::V3(nv) => {
                let ps = nv.partitions();
                let ghost views = v3::valid_parts(nv.banks());
                let mut i: usize = 0;
                proof {
                    assert(ps@.map_values(|p: &v3::Partition| p@).len() == ps@.len());
                }
                while i < ps.len()
                    invariant
                        i <= ps@.len(),
                        out@.len() == i,
                        views == v3::valid_parts(nv.banks()),
                        ps@.map_values(|p: &v3::Partition| p@) == views,
                        forall|j: int|
                            0 <= j < i ==> (#[trigger] out@[j] matches Partition::V3(p) && p@
                                == views[j]),
                    decreases ps@.len() - i,
                {
                    proof {
                        assert(ps@.map_values(|p: &v3::Partition| p@)[i as int]
                            == ps@[i as int]@);
                    }
                    out.push(Partition::V3(ps[i]));
                    i = i + 1;
                }
            },
        }
        out
    }

    /// Tombstones or replaces the previous record for `(key, typ)` in the
    /// active bank and records `value` as its live value.
    pub fn insert_variable(&mut self, key: &[u8], value: &[u8], typ: VarType)
        requires
            old(self).wf(),
            key@.len() + 1 <= u32::MAX,
            value@.len() <= u32::MAX,
        ensures
            final(self).wf(),
            match (&*old(self), &*final(self)) {
                (Nvram::V3(o), Nvram::V3(f)) => {
                    &&& f.active == o.active
                    &&& f.banks() == o.banks().update(
                        o.active as int,
                        v3::BankState::Valid(
                            v3::PartV {
                                header: o.active_view().header,
                                vars: v3::spec_tombstone(o.active_view().vars, key@, typ).push(
                                    v3::spec_new_var(key@, value@, typ),
                                ),
                            },
                        ),
                    )
                },
                (Nvram::V1V2(o), Nvram::V1V2(f)) => {
                    &&& f.active == o.active
                    &&& f.partitions@.len() == 2
                    &&& f.partitions@[o.active as int].section_vars(typ) == v1v2::upsert(
                        o.partitions@[o.active as int].section_vars(typ),
                        v1v2::V1VarV { key: key@, value: value@, typ },
                    )
                    &&& f.partitions@[1 - o.active as int] == o.partitions@[1 - o.active as int]
                },
                _ => false,
            },
    {
        match self {
            Nvram::V1V2(nv) => {
                let ghost pre = *nv;
                let p = nv.active_part_mut();
                p.insert_variable(key, value, typ);
                proof {
                    v1v2::lemma_upsert_unique(
                        pre.partitions@[pre.active as int].section_vars(typ),
                        v1v2::V1VarV { key: key@, value: value@, typ },
                    );
                }
            },
            Nvram::V3(nv) => {
                let p = nv.active_part_mut();
                p.insert_variable(key, value, typ);
                proof {
                    assert(nv.banks() =~= old(self)->V3_0.banks().update(
                        old(self)->V3_0.active as int,
                        v3::BankState::Valid(
                            v3::PartV {
                                header: old(self)->V3_0.active_view().header,
                                vars: v3::spec_tombstone(
                                    old(self)->V3_0.active_view().vars,
                                    key@,
                                    typ,
                                ).push(v3::spec_new_var(key@, value@, typ)),
                            },
                        ),
                    ));
                }
            },
        }
    }

    /// Tombstones or drops the record for `(key, typ)` in the active bank.
    pub fn remove_variable(&mut self, key: &[u8], typ: VarType)
        requires
            old(self).wf(),
        ensures
            final(self).wf(),
            match (&*old(self), &*final(self)) {
                (Nvram::V3(o), Nvram::V3(f)) => {
                    &&& f.active == o.active
                    &&& f.banks() == o.banks().update(
                        o.active as int,
                        v3::BankState::Valid(
                            v3::PartV {
                                header: o.active_view().header,
                                vars: v3::spec_tombstone(o.active_view().vars, key@, typ),
                            },
                        ),
                    )
                },
                (Nvram::V1V2(o), Nvram::V1V2(f)) => {
                    &&& f.active == o.active
                    &&& f.partitions@.len() == 2
                    &&& f.partitions@[o.active as int].section_vars(typ) == v1v2::remove_key(
                        o.partitions@[o.active as int].section_vars(typ),
                        key@,
                    )
                    &&& f.partitions@[1 - o.active as int] == o.partitions@[1 - o.active as int]
                },
                _ => false,
            },
    {
        match self {
            Nvram::V1V2(nv) => {
                let ghost pre = *nv;
                let p = nv.active_part_mut();
                p.remove_variable(key, typ);
                proof {
                    v1v2::lemma_remove_key_unique(
                        pre.partitions@[pre.active as int].section_vars(typ),
                        key@,
                    );
                }
            },
            Nvram::V3(nv) => {
                let p = nv.active_part_mut();
                p.remove_variable(key, typ);
                proof {
                    assert(nv.banks() =~= old(self)->V3_0.banks().update(
                        old(self)->V3_0.active as int,
                        v3::BankState::Valid(
                            v3::PartV {
                                header: old(self)->V3_0.active_view().header,
                                vars: v3::spec_tombstone(
                                    old(self)->V3_0.active_view().vars,
                                    key@,
                                    typ,
                                ),
                            },
                        ),
                    ));
                }
            },
        }
    }

    /// Readies the image for writing: the CHRP format copies the active
    /// bank over the other one with the generation advanced; the journal
    /// format needs nothing.
    pub fn prepare_for_write(&mut self)
        requires
            old(self).wf(),
            (*old(self)) matches Nvram::V1V2(nv) ==> nv.active_view().generation < u32::MAX,
        ensures
            final(self).wf(),
            match (&*old(self), &*final(self)) {
                (Nvram::V3(o), Nvram::V3(f)) => f == o,
                (Nvram::V1V2(o), Nvram::V1V2(f)) => {
                    &&& f.active == 1 - o.active
                    &&& f.partitions@[f.active as int]@ == (v1v2::PartV1 {
                        generation: (o.active_view().generation + 1) as u32,
                        ..o.active_view()
                    })
                    &&& f.partitions@[o.active as int] == o.partitions@[o.active as int]
                },
                _ => false,
            },
    {
        match self {
            Nvram::V1V2(nv) => nv.prepare_for_write(),
            Nvram::V3(nv) => nv.prepare_for_write(),
        }
    }

    /// The serialized image of the underlying format.
    pub fn serialize(&self) -> (r: Result<Vec<u8>, Error>)
        requires
            self.wf(),
        ensures
            match self {
                Nvram::V1V2(nv) => match r {
                    Ok(v) => v1v2::sections_fit(nv.partitions@[0]@) && v1v2::sections_fit(
                        nv.partitions@[1]@,
                    ) && v@ == v1v2::spec_part_v1_bytes(nv.partitions@[0]@)
                        + v1v2::spec_part_v1_bytes(nv.partitions@[1]@),
                    Err(e) => e is SectionTooBig && !(v1v2::sections_fit(nv.partitions@[0]@)
                        && v1v2::sections_fit(nv.partitions@[1]@)),
                },
                Nvram::V3(nv) => match r {
                    Ok(v) => v@ == v3::parts_bytes(v3::valid_parts(nv.banks())),
                    Err(_) => false,
                },
            },
    {
        match self {
            Nvram::V1V2(nv) => nv.serialize(),
            Nvram::V3(nv) => nv.serialize(),
        }
    }

    /// Writes the image to the medium: the CHRP format writes the whole
    /// image at offset zero; the journal format writes only the affected
    /// bank, rotating and erasing as its rules demand.
    pub fn apply<W: writer::NvramWriter>(&mut self, w: &mut W) -> (r: Result<(), Error>)
        requires
            old(self).wf(),
            (*old(self)) matches Nvram::V3(nv) ==> v3::spec_total_used(nv.active_view())
                <= usize::MAX,
            (*old(self)) matches Nvram::V3(nv) ==> (v3::spec_total_used(nv.active_view())
                > v3::PARTITION_SIZE ==> nv.active_view().header.generation < u32::MAX),
        ensures
            final(self).wf(),
            match (&*old(self), &*final(self)) {
                (Nvram::V3(o), Nvram::V3(f)) => v3::apply_post(
                    *o,
                    *f,
                    old(w).log(),
                    final(w).log(),
                    r,
                ),
                (Nvram::V1V2(o), Nvram::V1V2(f)) => {
                    &&& f == o
                    &&& if v1v2::sections_fit(o.partitions@[0]@) && v1v2::sections_fit(
                        o.partitions@[1]@,
                    ) {
                        &&& final(w).log() == old(w).log().push(
                            writer::MediumOp::Write {
                                offset: 0,
                                data: v1v2::spec_part_v1_bytes(o.partitions@[0]@)
                                    + v1v2::spec_part_v1_bytes(o.partitions@[1]@),
                            },
                        )
                        &&& (r is Ok || r matches Err(Error::ApplyError(_)))
                    } else {
                        &&& r matches Err(Error::SectionTooBig)
                        &&& final(w).log() == old(w).log()
                    }
                },
                _ => false,
            },
    {
        match self {
            Nvram::V1V2(nv) => {
                let data = match nv.serialize() {
                    Ok(d) => d,
                    Err(e) => {
                        return Err(e);
                    },
                };
                match w.write_all(0, data.as_slice()) {
                    Ok(()) => Ok(()),
                    Err(e) => Err(Error::ApplyError(e)),
                }
            },
            Nvram::V3(nv) => nv.apply(w),
        }
    }
}

/// Auto-detecting parse: an image that decodes as a v3 journal store is
/// served as one; otherwise the v1/v2 CHRP decode is tried; an image that
/// fits neither format is rejected.
pub fn nvram_parse(nvr: &[u8]) -> (r: Result<Nvram, Error>)
    ensures
        match r {
            Ok(nv) => nv.wf() && match nv {
                Nvram::V3(v) => {
                    &&& v.banks() == v3::spec_parse_banks(nvr@)
                    &&& match v3::spec_pick_active(v3::spec_parse_banks(nvr@)) {
                        Some(pair) => pair.0 == v.active as int,
                        None => false,
                    }
                },
                Nvram::V1V2(v) => {
                    &&& v3::spec_pick_active(v3::spec_parse_banks(nvr@)) is None
                    &&& match v1v2::spec_parse_nvram(nvr@) {
                        Some(t) => v.partitions@[0]@ == t.0 && v.partitions@[1]@ == t.1
                            && v.active as int == t.2,
                        None => false,
                    }
                },
            },
            Err(e) => {
                &&& e is ParseError
                &&& v3::spec_pick_active(v3::spec_parse_banks(nvr@)) is None
                &&& v1v2::spec_parse_nvram(nvr@) is None
            },
        },
{
    match v3::Nvram::parse(nvr) {
        Ok(nv) => Ok(Nvram::V3(nv)),
        Err(_) => match v1v2::Nvram::parse(nvr) {
            Ok(nv) => Ok(Nvram::V1V2(nv)),
            Err(_) => Err(Error::ParseError),
        },
    }
}

} // verus!
