//! The v1/v2 CHRP-style codec.
//!
//! A v1/v2 image is exactly two `0x10000`-byte banks.  Each bank is a
//! partition: a 16-byte CHRP header named `nvram`, an Adler-32 word, a
//! generation counter, and two sections (`common` and `system`) holding
//! `key=value\0` records.  The bank with the greater generation is active;
//! `prepare_for_write` copies it over the other bank with the generation
//! advanced by one.  Values are compressed with a run-length escape for
//! `0x00`/`0xFF` runs; the decoder lives here too.

use vstd::prelude::*;

use crate::sums::{adler32_of, adler32_sum};
use crate::{
    bytes_eq, chrp_checksum_add, read_le16, read_le32, slice_find, slice_rstrip, spec_chrp_checksum_add,
    spec_find, spec_rstrip, Error, VarType,
};

verus! {
/// Bytes of one bank.
pub const BANK_SIZE: usize = 0x10000;

/// Bytes of a whole two-bank image.
pub const IMAGE_SIZE: usize = 0x20000;

/// The decoded form of an escaped value: every byte other than `0xFF`
/// passes through; `0xFF` starts an escape whose count byte selects the
/// fill (`0x00` for a clear high bit, else `0xFF`) in its high bit and the
/// run length in its low seven bits.  A trailing lone `0xFF` ends the
/// stream.
pub open spec fn spec_unescape(s: Seq<u8>, i: int) -> Seq<u8>
    decreases s.len() - i
        when 0 <= i
{
    if i >= s.len() {
        Seq::empty()
    } else if s[i] != 0xFF {
        seq![s[i]] + spec_unescape(s, i + 1)
    } else if i + 1 >= s.len() {
        Seq::empty()
    } else {
        let c = s[i + 1];
        let fill: u8 = if c & 0x80 == 0 {
            0x00
        } else {
            0xFF
        };
        Seq::new((c & 0x7F) as nat, |j: int| fill) + spec_unescape(s, i + 2)
    }
}

/// Decodes a whole escaped byte sequence.
pub fn unescape_bytes(s: &[u8]) -> (r: Vec<u8>)
    ensures
        r@ == spec_unescape(s@, 0),
{
    let n = s.len();
    let mut out: Vec<u8> = Vec::new();
    let mut i: usize = 0;
    proof {
        assert(out@ + spec_unescape(s@, 0) =~= spec_unescape(s@, 0));
    }
    while i < n
        invariant
            i <= n,
            n == s@.len(),
            spec_unescape(s@, 0) == out@ + spec_unescape(s@, i as int),
        decreases n - i,
    {
        let b = s[i];
        if b != 0xFF {
            out.push(b);
            i = i + 1;
            proof {
                assert(spec_unescape(s@, 0) =~= out@ + spec_unescape(s@, i as int));
            }
        } else if i + 1 >= n {
            proof {
                assert(spec_unescape(s@, i as int) =~= Seq::<u8>::empty());
                assert(spec_unescape(s@, 0) =~= out@);
            }
            return out;
        } else {
            let c = s[i + 1];
            let fill: u8 = if c & 0x80 == 0 {
                0x00
            } else {
                0xFF
            };
            let cnt = (c & 0x7F) as usize;
            proof {
                assert(c & 0x7F < 0x80) by (bit_vector);
            }
            let mut k: usize = 0;
            while k < cnt
                invariant
                    k <= cnt,
                    i + 1 < n <= s@.len(),
                    n == s@.len(),
                    s@[i as int] == 0xFF,
                    c == s@[i + 1],
                    cnt == (c & 0x7F) as usize,
                    fill == (if c & 0x80 == 0 {
                        0x00u8
                    } else {
                        0xFFu8
                    }),
                    spec_unescape(s@, 0) == out@.subrange(0, out@.len() - k) + spec_unescape(
                        s@,
                        i as int,
                    ),
                    out@.len() >= k,
                    forall|j: int| out@.len() - k <= j < out@.len() ==> out@[j] == fill,
                decreases cnt - k,
            {
                out.push(fill);
                k = k + 1;
            }
            proof {
                assert(spec_unescape(s@, i as int) =~= Seq::new((c & 0x7F) as nat, |j: int| fill)
                    + spec_unescape(s@, i + 2));
                assert(out@ + spec_unescape(s@, i + 2) =~= out@.subrange(0, out@.len() - cnt)
                    + spec_unescape(s@, i as int));
            }
            i = i + 2;
        }
    }
    proof {
        assert(spec_unescape(s@, i as int) =~= Seq::<u8>::empty());
        assert(spec_unescape(s@, 0) =~= out@);
    }
    out
}

/// A streaming decoder over an escaped byte slice: repeated `next` calls
/// yield the decoded bytes one at a time.
pub struct UnescapeVal<'a> {
    inner: &'a [u8],
    pos: usize,
    esc_out: u8,
    remaining: u8,
}

impl<'a> UnescapeVal<'a> {
    /// The decoder's position stays within its input.
    pub closed spec fn wf(&self) -> bool {
        self.pos <= self.inner@.len()
    }

    /// The bytes this decoder has yet to yield.
    pub closed spec fn remaining_out(&self) -> Seq<u8> {
        Seq::new(self.remaining as nat, |j: int| self.esc_out) + spec_unescape(
            self.inner@,
            self.pos as int,
        )
    }

    /// A decoder positioned at the start of `inner`.
    pub fn new(inner: &'a [u8]) -> (r: UnescapeVal<'a>)
        ensures
            r.wf(),
            r.remaining_out() == spec_unescape(inner@, 0),
    {
        let r = UnescapeVal { inner, pos: 0, esc_out: 0, remaining: 0 };
        proof {
            assert(r.remaining_out() =~= spec_unescape(inner@, 0));
        }
        r
    }

    /// The next decoded byte, or `None` at the end of the stream.
    pub fn next(&mut self) -> (r: Option<u8>)
        requires
            old(self).wf(),
        ensures
            final(self).wf(),
            match r {
                Some(b) => old(self).remaining_out().len() > 0 && b == old(self).remaining_out()[0]
                    && final(self).remaining_out() == old(self).remaining_out().drop_first(),
                None => old(self).remaining_out().len() == 0 && final(self).remaining_out().len()
                    == 0,
            },
    {
        if self.remaining != 0 {
            self.remaining = self.remaining - 1;
            proof {
                assert(final(self).remaining_out() =~= old(self).remaining_out().drop_first());
            }
            return Some(self.esc_out);
        }
        let n = self.inner.len();
        while self.pos < n
            invariant
                self.inner == old(self).inner,
                self.remaining == 0,
                old(self).remaining == 0,
                old(self).pos <= old(self).inner@.len(),
                self.pos <= n,
                n == self.inner@.len(),
                self.esc_out == old(self).esc_out,
                spec_unescape(self.inner@, self.pos as int) == spec_unescape(
                    old(self).inner@,
                    old(self).pos as int,
                ),
            decreases n - self.pos,
        {
            let b = self.inner[self.pos];
            proof {
                assert(old(self).remaining_out() =~= spec_unescape(self.inner@, self.pos as int));
            }
            if b != 0xFF {
                self.pos = self.pos + 1;
                proof {
                    assert(old(self).remaining_out() =~= seq![b] + spec_unescape(
                        self.inner@,
                        self.pos as int,
                    ));
                    assert(final(self).remaining_out() =~= old(self).remaining_out().drop_first());
                }
                return Some(b);
            }
            if self.pos + 1 >= n {
                self.pos = n;
                proof {
                    assert(old(self).remaining_out() =~= Seq::<u8>::empty());
                    assert(final(self).remaining_out() =~= Seq::<u8>::empty());
                }
                return None;
            }
            let count = self.inner[self.pos + 1];
            let fill: u8 = if count & 0x80 == 0 {
                0x00
            } else {
                0xFF
            };
            let cnt = count & 0x7F;
            proof {
                assert(count & 0x7F < 0x80) by (bit_vector);
            }
            if cnt == 0 {
                self.pos = self.pos + 2;
                proof {
                    assert(spec_unescape(self.inner@, self.pos - 2) =~= spec_unescape(
                        self.inner@,
                        self.pos as int,
                    ));
                }
            } else {
                self.esc_out = fill;
                self.remaining = cnt - 1;
                self.pos = self.pos + 2;
                proof {
                    assert(spec_unescape(self.inner@, self.pos - 2) =~= Seq::new(
                        cnt as nat,
                        |j: int| fill,
                    ) + spec_unescape(self.inner@, self.pos as int));
                    assert(old(self).remaining_out() =~= Seq::new(cnt as nat, |j: int| fill)
                        + spec_unescape(self.inner@, self.pos as int));
                    assert(final(self).remaining_out() =~= old(self).remaining_out().drop_first());
                }
                return Some(fill);
            }
        }
        proof {
            assert(old(self).remaining_out() =~= Seq::<u8>::empty());
            assert(final(self).remaining_out() =~= Seq::<u8>::empty());
        }
        None
    }
}

/// Folds a byte sequence into a CHRP checksum accumulator.
pub open spec fn chrp_fold(acc: u8, s: Seq<u8>) -> u8
    decreases s.len(),
{
    if s.len() == 0 {
        acc
    } else {
        chrp_fold(spec_chrp_checksum_add(acc, s[0]), s.drop_first())
    }
}

pub proof fn lemma_chrp_fold_push(acc: u8, s: Seq<u8>, b: u8)
    ensures
        chrp_fold(acc, s.push(b)) == spec_chrp_checksum_add(chrp_fold(acc, s), b),
    decreases s.len(),
{
    reveal_with_fuel(chrp_fold, 3);
    if s.len() == 0 {
        assert(s.push(b)[0] == b);
        assert(s.push(b).drop_first() =~= Seq::<u8>::empty());
    } else {
        assert(s.push(b)[0] == s[0]);
        assert(s.push(b).drop_first() =~= s.drop_first().push(b));
        lemma_chrp_fold_push(spec_chrp_checksum_add(acc, s[0]), s.drop_first(), b);
    }
}

/// The CHRP header checksum: end-around-carry addition over the name, the
/// signature, and the two size bytes, in that order.
pub open spec fn spec_chrp_sum(name: Seq<u8>, signature: u8, size: u16) -> u8 {
    spec_chrp_checksum_add(
        spec_chrp_checksum_add(
            spec_chrp_checksum_add(chrp_fold(0, name), signature),
            (size & 0xFF) as u8,
        ),
        (size >> 8) as u8,
    )
}

/// The 16-byte CHRP header of a partition or a section.  The checksum is
/// derived from the other fields, so it is not stored.
#[derive(Debug)]
pub struct CHRPHeader {
    /// The name, at most 12 bytes, stored zero-padded on the medium.
    pub name: Vec<u8>,
    /// Size of the enclosing partition or section in 16-byte units.
    pub size: u16,
    pub signature: u8,
}

/// The mathematical content of a CHRP header.
#[verifier::ext_equal]
pub struct ChrpV {
    pub name: Seq<u8>,
    pub size: u16,
    pub signature: u8,
}

impl View for CHRPHeader {
    type V = ChrpV;

    open spec fn view(&self) -> ChrpV {
        ChrpV { name: self.name@, size: self.size, signature: self.signature }
    }
}

/// A header name fits the 12 name bytes and carries no trailing zero, so
/// that padding round-trips.
pub open spec fn chrp_wf(h: ChrpV) -> bool {
    &&& h.name.len() <= 12
    &&& (h.name.len() > 0 ==> h.name.last() != 0)
}

/// The 16 serialized header bytes: signature, derived checksum,
/// little-endian size, and the name zero-padded to 12 bytes.
pub open spec fn spec_chrp_bytes(h: ChrpV) -> Seq<u8> {
    seq![h.signature, spec_chrp_sum(h.name, h.signature, h.size)]
        + crate::spec_le16_bytes(h.size) + h.name + Seq::new(
        (12 - h.name.len()) as nat,
        |j: int| 0u8,
    )
}

/// Decode of a CHRP header from the start of `b`: the stored checksum
/// must equal the one recomputed from the decoded fields.
pub open spec fn spec_parse_chrp(b: Seq<u8>) -> Option<ChrpV> {
    if b.len() < 16 {
        None
    } else {
        let h = ChrpV {
            name: spec_rstrip(b.subrange(4, 16), 0),
            size: crate::spec_le16_val(b.subrange(2, 4)),
            signature: b[0],
        };
        if spec_chrp_sum(h.name, h.signature, h.size) == b[1] {
            Some(h)
        } else {
            None
        }
    }
}

impl CHRPHeader {
    /// The checksum of this header's fields.
    pub fn checksum(&self) -> (r: u8)
        ensures
            r == spec_chrp_sum(self@.name, self@.signature, self@.size),
    {
        let mut cksum: u8 = 0;
        let mut i: usize = 0;
        proof {
            assert(self.name@.take(0) =~= Seq::<u8>::empty());
        }
        while i < self.name.len()
            invariant
                i <= self.name@.len(),
                cksum == chrp_fold(0, self.name@.take(i as int)),
            decreases self.name@.len() - i,
        {
            cksum = chrp_checksum_add(cksum, self.name[i]);
            proof {
                assert(self.name@.take(i + 1) =~= self.name@.take(i as int).push(
                    self.name@[i as int],
                ));
                lemma_chrp_fold_push(0, self.name@.take(i as int), self.name@[i as int]);
            }
            i = i + 1;
        }
        proof {
            assert(self.name@.take(self.name@.len() as int) =~= self.name@);
        }
        cksum = chrp_checksum_add(cksum, self.signature);
        cksum = chrp_checksum_add(cksum, (self.size & 0xFF) as u8);
        chrp_checksum_add(cksum, (self.size >> 8) as u8)
    }

    /// Decodes the header at the start of `nvr` and rejects it when the
    /// recomputed checksum differs from the stored byte.
    pub fn parse(nvr: &[u8]) -> (r: Result<CHRPHeader, Error>)
        requires
            nvr@.len() >= 16,
        ensures
            match r {
                Ok(h) => spec_parse_chrp(nvr@) == Some(h@) && chrp_wf(h@),
                Err(e) => e is ParseError && spec_parse_chrp(nvr@) is None,
            },
    {
        let n = nvr.len();
        let signature = nvr[0];
        let cksum = nvr[1];
        let size = read_le16(nvr, 2);
        let name_field = vstd::slice::slice_subrange(nvr, 4, 16);
        let name = slice_rstrip(name_field, 0);
        let cand = CHRPHeader { name: vstd::slice::slice_to_vec(name), size, signature };
        proof {
            lemma_rstrip_shape(name_field@, 0);
        }
        if cand.checksum() != cksum {
            return Err(Error::ParseError);
        }
        Ok(cand)
    }

    /// Appends the 16 serialized header bytes, checksum recomputed, to
    /// `v`.
    pub fn serialize(&self, v: &mut Vec<u8>)
        requires
            self@.name.len() <= 12,
        ensures
            final(v)@ == old(v)@ + spec_chrp_bytes(self@),
    {
        v.push(self.signature);
        let ck = self.checksum();
        v.push(ck);
        crate::push_le16(v, self.size);
        v.extend_from_slice(self.name.as_slice());
        let pad: usize = 12 - self.name.len();
        let mut k: usize = 0;
        while k < pad
            invariant
                k <= pad,
                pad == 12 - self@.name.len(),
                v@ == old(v)@ + seq![self@.signature, spec_chrp_sum(
                    self@.name,
                    self@.signature,
                    self@.size,
                )] + crate::spec_le16_bytes(self@.size) + self@.name + Seq::new(
                    k as nat,
                    |j: int| 0u8,
                ),
            decreases pad - k,
        {
            v.push(0);
            k = k + 1;
            proof {
                assert(Seq::new(k as nat, |j: int| 0u8) =~= Seq::new(
                    (k - 1) as nat,
                    |j: int| 0u8,
                ).push(0u8));
                assert(v@ =~= old(v)@ + seq![self@.signature, spec_chrp_sum(
                    self@.name,
                    self@.signature,
                    self@.size,
                )] + crate::spec_le16_bytes(self@.size) + self@.name + Seq::new(
                    k as nat,
                    |j: int| 0u8,
                ));
            }
        }
        proof {
            assert(v@ =~= old(v)@ + spec_chrp_bytes(self@));
        }
    }

    /// An owned copy of this header.
    pub fn duplicate(&self) -> (r: CHRPHeader)
        ensures
            r@ == self@,
    {
        CHRPHeader {
            name: vstd::slice::slice_to_vec(self.name.as_slice()),
            size: self.size,
            signature: self.signature,
        }
    }
}

/// What stripping trailing zeros leaves: a prefix with no trailing zero.
pub proof fn lemma_rstrip_shape(s: Seq<u8>, t: u8)
    ensures
        spec_rstrip(s, t).len() <= s.len(),
        spec_rstrip(s, t).len() > 0 ==> spec_rstrip(s, t).last() != t,
    decreases s.len(),
{
    if s.len() > 0 && s.last() == t {
        lemma_rstrip_shape(s.drop_last(), t);
    }
}

/// One `key=value` record of a section.  The value bytes are stored as
/// read from the medium; `value()` yields the run-length-decoded form.
#[derive(Debug)]
pub struct Variable {
    pub key: Vec<u8>,
    pub value: Vec<u8>,
    pub typ: VarType,
}

/// The mathematical content of one record.
#[verifier::ext_equal]
pub struct V1VarV {
    pub key: Seq<u8>,
    pub value: Seq<u8>,
    pub typ: VarType,
}

impl View for Variable {
    type V = V1VarV;

    open spec fn view(&self) -> V1VarV {
        V1VarV { key: self.key@, value: self.value@, typ: self.typ }
    }
}

impl Variable {
    /// A record holding copies of `key` and `value`.
    pub fn new(key: &[u8], value: &[u8], typ: VarType) -> (r: Variable)
        ensures
            r@ == (V1VarV { key: key@, value: value@, typ }),
    {
        let r = Variable {
            key: vstd::slice::slice_to_vec(key),
            value: vstd::slice::slice_to_vec(value),
            typ,
        };
        proof {
            assert(r@ =~= (V1VarV { key: key@, value: value@, typ }));
        }
        r
    }

    /// The decoded value bytes, with the `0x00`/`0xFF` escape expanded.
    pub fn value(&self) -> (r: Vec<u8>)
        ensures
            r@ == spec_unescape(self@.value, 0),
    {
        unescape_bytes(self.value.as_slice())
    }

    /// An owned copy of this record.
    pub fn duplicate(&self) -> (r: Variable)
        ensures
            r@ == self@,
    {
        let r = Variable {
            key: vstd::slice::slice_to_vec(self.key.as_slice()),
            value: vstd::slice::slice_to_vec(self.value.as_slice()),
            typ: self.typ,
        };
        proof {
            assert(r@ =~= self@);
        }
        r
    }
}

/// The name of the common section, `"common"` in ASCII.
pub open spec fn common_name() -> Seq<u8> {
    seq![0x63u8, 0x6Fu8, 0x6Du8, 0x6Du8, 0x6Fu8, 0x6Eu8]
}

/// The name of the system section, `"system"` in ASCII.
pub open spec fn system_name() -> Seq<u8> {
    seq![0x73u8, 0x79u8, 0x73u8, 0x74u8, 0x65u8, 0x6Du8]
}

/// The namespace a section name denotes; every name but `common` reads as
/// system.
pub open spec fn section_kind(name: Seq<u8>) -> VarType {
    if name == common_name() {
        VarType::Common
    } else {
        VarType::System
    }
}

/// The common section name as owned bytes.
pub fn common_name_bytes() -> (r: Vec<u8>)
    ensures
        r@ == common_name(),
{
    let mut v: Vec<u8> = Vec::new();
    v.push(0x63);
    v.push(0x6F);
    v.push(0x6D);
    v.push(0x6D);
    v.push(0x6F);
    v.push(0x6E);
    proof {
        assert(v@ =~= common_name());
    }
    v
}

/// The system section name as owned bytes.
pub fn system_name_bytes() -> (r: Vec<u8>)
    ensures
        r@ == system_name(),
{
    let mut v: Vec<u8> = Vec::new();
    v.push(0x73);
    v.push(0x79);
    v.push(0x73);
    v.push(0x74);
    v.push(0x65);
    v.push(0x6D);
    proof {
        assert(v@ =~= system_name());
    }
    v
}

/// Wherever `spec_find` finds `t`, that index holds `t` and nothing before
/// it does; where it finds nothing, no index from `from` on holds `t`.
pub proof fn lemma_find_props(s: Seq<u8>, from: int, t: u8)
    requires
        0 <= from,
    ensures
        match spec_find(s, from, t) {
            Option::Some(i) => from <= i < s.len() && s[i] == t && (forall|j: int|
                from <= j < i ==> #[trigger] s[j] != t),
            Option::None => forall|j: int| from <= j < s.len() ==> #[trigger] s[j] != t,
        },
    decreases s.len() - from,
{
    if from < 0 || from >= s.len() {
    } else if s[from] == t {
    } else {
        lemma_find_props(s, from + 1, t);
        assert(s[from] != t);
    }
}

/// The `key=value\0` records readable from `pos`: the walk ends at the
/// first zero-terminated span without an `=` or when no zero byte is
/// left.
pub open spec fn spec_parse_entries(b: Seq<u8>, pos: int) -> Seq<(Seq<u8>, Seq<u8>)>
    decreases b.len() - pos
        when 0 <= pos <= b.len()
        via spec_parse_entries_decreases
{
    match spec_find(b, pos, 0) {
        Option::None => Seq::empty(),
        Option::Some(z) => {
            let cand = b.subrange(pos, z);
            match spec_find(cand, 0, 0x3D) {
                Option::None => Seq::empty(),
                Option::Some(eq) => seq![
                    (cand.subrange(0, eq), cand.subrange(eq + 1, cand.len() as int)),
                ] + spec_parse_entries(b, z + 1),
            }
        },
    }
}

#[via_fn]
proof fn spec_parse_entries_decreases(b: Seq<u8>, pos: int) {
    lemma_find_props(b, pos, 0);
}

/// True when no two records share a key.
pub open spec fn unique_keys(vs: Seq<V1VarV>) -> bool {
    forall|i: int, j: int|
        0 <= i < j < vs.len() ==> (#[trigger] vs[i]).key != (#[trigger] vs[j]).key
}

/// The index of the record holding `key`, if any.
pub open spec fn find_key(vs: Seq<V1VarV>, key: Seq<u8>) -> Option<int>
    decreases vs.len(),
{
    if vs.len() == 0 {
        None
    } else if vs[0].key == key {
        Some(0)
    } else {
        match find_key(vs.drop_first(), key) {
            Option::Some(i) => Some(i + 1),
            Option::None => None,
        }
    }
}

/// `find_key` names the first record with the key; `None` means no record
/// has it.
pub proof fn lemma_find_key_props(vs: Seq<V1VarV>, key: Seq<u8>)
    ensures
        match find_key(vs, key) {
            Option::Some(i) => 0 <= i < vs.len() && vs[i].key == key && (forall|j: int|
                0 <= j < i ==> (#[trigger] vs[j]).key != key),
            Option::None => forall|j: int| 0 <= j < vs.len() ==> (#[trigger] vs[j]).key != key,
        },
    decreases vs.len(),
{
    if vs.len() == 0 {
    } else if vs[0].key == key {
    } else {
        lemma_find_key_props(vs.drop_first(), key);
        assert(forall|j: int|
            1 <= j < vs.len() ==> (#[trigger] vs[j]) == vs.drop_first()[j - 1]);
    }
}

/// Last-writer-wins map update: replaces the record holding the key in
/// place, or appends a new one.
pub open spec fn upsert(vs: Seq<V1VarV>, v: V1VarV) -> Seq<V1VarV> {
    match find_key(vs, v.key) {
        Option::Some(i) => vs.update(i, v),
        Option::None => vs.push(v),
    }
}

/// Upserting keeps keys unique.
pub proof fn lemma_upsert_unique(vs: Seq<V1VarV>, v: V1VarV)
    requires
        unique_keys(vs),
    ensures
        unique_keys(upsert(vs, v)),
{
    lemma_find_key_props(vs, v.key);
}

/// The records of a section: the entries folded into a key-unique list,
/// later entries superseding earlier ones in place.
pub open spec fn fold_entries(
    acc: Seq<V1VarV>,
    es: Seq<(Seq<u8>, Seq<u8>)>,
    t: VarType,
) -> Seq<V1VarV>
    decreases es.len(),
{
    if es.len() == 0 {
        acc
    } else {
        fold_entries(upsert(acc, V1VarV { key: es[0].0, value: es[0].1, typ: t }), es.drop_first(), t)
    }
}

/// Folding entries keeps keys unique.
pub proof fn lemma_fold_entries_unique(acc: Seq<V1VarV>, es: Seq<(Seq<u8>, Seq<u8>)>, t: VarType)
    requires
        unique_keys(acc),
    ensures
        unique_keys(fold_entries(acc, es, t)),
    decreases es.len(),
{
    if es.len() > 0 {
        let v = V1VarV { key: es[0].0, value: es[0].1, typ: t };
        lemma_upsert_unique(acc, v);
        lemma_fold_entries_unique(upsert(acc, v), es.drop_first(), t);
    }
}

/// One section: a CHRP header and the records keyed by name.
#[derive(Debug)]
pub struct Section {
    pub header: CHRPHeader,
    pub values: Vec<Variable>,
}

/// The mathematical content of one section.
#[verifier::ext_equal]
pub struct SecV {
    pub header: ChrpV,
    pub vars: Seq<V1VarV>,
}

impl View for Section {
    type V = SecV;

    open spec fn view(&self) -> SecV {
        SecV { header: self.header@, vars: views1(self.values@) }
    }
}

/// The views of a sequence of records.
pub open spec fn views1(s: Seq<Variable>) -> Seq<V1VarV> {
    s.map_values(|v: Variable| v@)
}

/// Decode of a section from the start of `b`: its header, then the
/// entries from byte 16 folded into a key-unique record list.
pub open spec fn spec_parse_section(b: Seq<u8>) -> Option<SecV> {
    match spec_parse_chrp(b) {
        Option::None => None,
        Option::Some(h) => Some(
            SecV {
                header: h,
                vars: fold_entries(Seq::empty(), spec_parse_entries(b, 16), section_kind(h.name)),
            },
        ),
    }
}

/// The serialized records: `key=value\0`, one after another.
pub open spec fn entries_bytes(vs: Seq<V1VarV>) -> Seq<u8>
    decreases vs.len(),
{
    if vs.len() == 0 {
        Seq::empty()
    } else {
        (vs[0].key + seq![0x3Du8] + vs[0].value + seq![0u8]) + entries_bytes(vs.drop_first())
    }
}

pub proof fn lemma_entries_bytes_push(vs: Seq<V1VarV>, v: V1VarV)
    ensures
        entries_bytes(vs.push(v)) == entries_bytes(vs) + (v.key + seq![0x3Du8] + v.value
            + seq![0u8]),
    decreases vs.len(),
{
    reveal_with_fuel(entries_bytes, 3);
    if vs.len() == 0 {
        assert(vs.push(v)[0] == v);
        assert(vs.push(v).drop_first() =~= Seq::<V1VarV>::empty());
        assert(entries_bytes(vs.push(v)) =~= entries_bytes(vs) + (v.key + seq![0x3Du8] + v.value
            + seq![0u8]));
    } else {
        assert(vs.push(v)[0] == vs[0]);
        assert(vs.push(v).drop_first() =~= vs.drop_first().push(v));
        lemma_entries_bytes_push(vs.drop_first(), v);
        assert(entries_bytes(vs.push(v)) =~= entries_bytes(vs) + (v.key + seq![0x3Du8] + v.value
            + seq![0u8]));
    }
}

/// The serialized section before padding: header then records.
pub open spec fn sec_content(s: SecV) -> Seq<u8> {
    spec_chrp_bytes(s.header) + entries_bytes(s.vars)
}

/// The declared section size in bytes.
pub open spec fn spec_sec_size_bytes(s: SecV) -> int {
    s.header.size * 16
}

/// The full serialized section: content zero-padded to the declared size.
pub open spec fn sec_bytes(s: SecV) -> Seq<u8>
    recommends
        sec_content(s).len() <= spec_sec_size_bytes(s),
{
    sec_content(s) + Seq::new((spec_sec_size_bytes(s) - sec_content(s).len()) as nat, |j: int| 0u8)
}

impl Section {
    /// Header name fits, keys are unique.
    pub open spec fn wf(&self) -> bool {
        &&& chrp_wf(self@.header)
        &&& unique_keys(self@.vars)
    }

    /// The declared section size in bytes: the header's 16-byte units.
    pub fn size_bytes(&self) -> (r: usize)
        ensures
            r == spec_sec_size_bytes(self@),
    {
        self.header.size as usize * 16
    }

    /// Decodes a section from the start of `nvr`, reading records until a
    /// zero-terminated span without `=` or the end of the window.
    pub fn parse(nvr: &[u8]) -> (r: Result<Section, Error>)
        requires
            nvr@.len() >= 16,
        ensures
            match r {
                Ok(s) => spec_parse_section(nvr@) == Some(s@) && s.wf(),
                Err(e) => e is ParseError && spec_parse_section(nvr@) is None,
            },
    {
        let n = nvr.len();
        let header = match CHRPHeader::parse(nvr) {
            Ok(h) => h,
            Err(_) => {
                return Err(Error::ParseError);
            },
        };
        let ghost kind = section_kind(header@.name);
        let ghost target = fold_entries(Seq::empty(), spec_parse_entries(nvr@, 16), kind);
        let common = common_name_bytes();
        let typ = if bytes_eq(header.name.as_slice(), common.as_slice()) {
            VarType::Common
        } else {
            VarType::System
        };
        let mut values: Vec<Variable> = Vec::new();
        let mut pos: usize = 16;
        proof {
            assert(views1(values@) =~= Seq::<V1VarV>::empty());
        }
        while pos < n
            invariant
                16 <= pos <= n,
                n == nvr@.len(),
                typ == kind,
                spec_parse_chrp(nvr@) == Some(header@),
                chrp_wf(header@),
                kind == section_kind(header@.name),
                target == fold_entries(Seq::empty(), spec_parse_entries(nvr@, 16), kind),
                fold_entries(views1(values@), spec_parse_entries(nvr@, pos as int), kind)
                    == target,
                unique_keys(views1(values@)),
            decreases n - pos,
        {
            proof {
                lemma_find_props(nvr@, pos as int, 0);
            }
            let z = match slice_find(nvr, pos, 0) {
                Some(z) => z,
                None => {
                    proof {
                        assert(spec_parse_entries(nvr@, pos as int) =~= Seq::<(
                            Seq<u8>,
                            Seq<u8>,
                        )>::empty());
                        assert(fold_entries(
                            views1(values@),
                            spec_parse_entries(nvr@, pos as int),
                            kind,
                        ) == views1(values@));
                        assert(spec_parse_section(nvr@) == Some(
                            SecV { header: header@, vars: views1(values@) },
                        ));
                    }
                    return Ok(Section { header, values });
                },
            };
            let cand = vstd::slice::slice_subrange(nvr, pos, z);
            let eq = match slice_find(cand, 0, 0x3D) {
                Some(eq) => eq,
                None => {
                    proof {
                        assert(spec_parse_entries(nvr@, pos as int) =~= Seq::<(
                            Seq<u8>,
                            Seq<u8>,
                        )>::empty());
                        assert(fold_entries(
                            views1(values@),
                            spec_parse_entries(nvr@, pos as int),
                            kind,
                        ) == views1(values@));
                        assert(spec_parse_section(nvr@) == Some(
                            SecV { header: header@, vars: views1(values@) },
                        ));
                    }
                    return Ok(Section { header, values });
                },
            };
            proof {
                lemma_find_props(cand@, 0, 0x3D);
            }
            let key = vstd::slice::slice_subrange(cand, 0, eq);
            let value = vstd::slice::slice_subrange(cand, eq + 1, cand.len());
            let ghost entry = V1VarV { key: key@, value: value@, typ: kind };
            proof {
                assert(spec_parse_entries(nvr@, pos as int) =~= seq![(key@, value@)]
                    + spec_parse_entries(nvr@, z + 1));
                assert(spec_parse_entries(nvr@, pos as int).drop_first() =~= spec_parse_entries(
                    nvr@,
                    z + 1,
                ));
            }
            let ghost prev = views1(values@);
            self_upsert(&mut values, key, value, typ);
            proof {
                lemma_upsert_unique(prev, entry);
                assert(fold_entries(prev, spec_parse_entries(nvr@, pos as int), kind)
                    == fold_entries(upsert(prev, entry), spec_parse_entries(nvr@, z + 1), kind));
            }
            pos = z + 1;
        }
        proof {
            lemma_find_props(nvr@, pos as int, 0);
            assert(spec_parse_entries(nvr@, pos as int) =~= Seq::<(Seq<u8>, Seq<u8>)>::empty());
            assert(fold_entries(views1(values@), spec_parse_entries(nvr@, pos as int), kind)
                == views1(values@));
            assert(spec_parse_section(nvr@) == Some(
                SecV { header: header@, vars: views1(values@) },
            ));
        }
        Ok(Section { header, values })
    }
}

/// Replaces the record holding `key` in place, or appends a new one:
/// the executable form of [`upsert`].
fn self_upsert(values: &mut Vec<Variable>, key: &[u8], value: &[u8], typ: VarType)
    ensures
        views1(final(values)@) == upsert(
            views1(old(values)@),
            V1VarV { key: key@, value: value@, typ },
        ),
{
    let ghost vs = views1(old(values)@);
    let ghost v = V1VarV { key: key@, value: value@, typ };
    let mut i: usize = 0;
    proof {
        lemma_find_key_props(vs, key@);
    }
    while i < values.len()
        invariant
            i <= values@.len(),
            values@ == old(values)@,
            vs == views1(old(values)@),
            v == (V1VarV { key: key@, value: value@, typ }),
            forall|j: int| 0 <= j < i ==> (#[trigger] vs[j]).key != key@,
        decreases values@.len() - i,
    {
        let hit = bytes_eq(values[i].key.as_slice(), key);
        if hit {
            proof {
                assert(vs[i as int] == values@[i as int]@);
                lemma_find_key_props(vs, key@);
                assert(find_key(vs, key@) == Some(i as int));
            }
            let nv = Variable::new(key, value, typ);
            proof {
                assert(nv@ =~= v);
            }
            *vstd::std_specs::vec::vec_index_mut(values, i) = nv;
            proof {
                assert(values@.len() == vs.len());
                assert forall|j: int| 0 <= j < vs.len() implies #[trigger] views1(values@)[j]
                    == vs.update(i as int, v)[j] by {
                    assert(views1(values@)[j] == values@[j]@);
                }
                assert(views1(values@) =~= vs.update(i as int, v));
            }
            return ;
        }
        proof {
            assert(vs[i as int] == values@[i as int]@);
        }
        i = i + 1;
    }
    proof {
        lemma_find_key_props(vs, key@);
        assert(find_key(vs, key@) is None);
    }
    values.push(Variable::new(key, value, typ));
    proof {
        assert(views1(values@) =~= vs.push(v));
    }
}

impl Section {
    /// Appends the serialized section — header, records, zero padding to
    /// the declared size — to `v`.  When the content exceeds the declared
    /// size, fails with `SectionTooBig`, leaving the partial content in
    /// `v`.
    pub fn serialize(&self, v: &mut Vec<u8>) -> (r: Result<(), Error>)
        requires
            self@.header.name.len() <= 12,
        ensures
            match r {
                Ok(()) => sec_content(self@).len() <= spec_sec_size_bytes(self@) && final(v)@
                    == old(v)@ + sec_bytes(self@),
                Err(e) => e is SectionTooBig && sec_content(self@).len() > spec_sec_size_bytes(
                    self@,
                ) && final(v)@ == old(v)@ + sec_content(self@),
            },
    {
        let ghost vs = self@.vars;
        let start_size = v.len();
        self.header.serialize(v);
        let mut i: usize = 0;
        proof {
            assert(vs.take(0) =~= Seq::<V1VarV>::empty());
            assert(v@ =~= old(v)@ + spec_chrp_bytes(self@.header) + entries_bytes(vs.take(0)));
        }
        while i < self.values.len()
            invariant
                i <= self.values@.len(),
                vs == self@.vars,
                v@ == old(v)@ + spec_chrp_bytes(self@.header) + entries_bytes(vs.take(i as int)),
            decreases self.values@.len() - i,
        {
            let var = &self.values[i];
            v.extend_from_slice(var.key.as_slice());
            v.push(0x3D);
            v.extend_from_slice(var.value.as_slice());
            v.push(0);
            proof {
                assert(vs.take(i + 1) =~= vs.take(i as int).push(vs[i as int]));
                lemma_entries_bytes_push(vs.take(i as int), vs[i as int]);
                assert(v@ =~= old(v)@ + spec_chrp_bytes(self@.header) + entries_bytes(
                    vs.take(i + 1),
                ));
            }
            i = i + 1;
        }
        proof {
            assert(vs.take(vs.len() as int) =~= vs);
            assert(v@ =~= old(v)@ + sec_content(self@));
        }
        let my_size = v.len() - start_size;
        let size = self.size_bytes();
        if my_size > size {
            return Err(Error::SectionTooBig);
        }
        let mut written = my_size;
        proof {
            assert(v@ =~= old(v)@ + sec_content(self@) + Seq::new(
                (written - sec_content(self@).len()) as nat,
                |j: int| 0u8,
            ));
        }
        while written < size
            invariant
                sec_content(self@).len() <= written <= size,
                size == spec_sec_size_bytes(self@),
                v@ == old(v)@ + sec_content(self@) + Seq::new(
                    (written - sec_content(self@).len()) as nat,
                    |j: int| 0u8,
                ),
            decreases size - written,
        {
            v.push(0);
            written = written + 1;
            proof {
                assert(v@ =~= old(v)@ + sec_content(self@) + Seq::new(
                    (written - sec_content(self@).len()) as nat,
                    |j: int| 0u8,
                ));
            }
        }
        proof {
            assert(v@ =~= old(v)@ + sec_bytes(self@));
        }
        Ok(())
    }

    /// An owned copy of this section.
    pub fn duplicate(&self) -> (r: Section)
        ensures
            r@ == self@,
    {
        let header = self.header.duplicate();
        let mut values: Vec<Variable> = Vec::new();
        let mut i: usize = 0;
        proof {
            assert(views1(values@) =~= self@.vars.take(0));
        }
        while i < self.values.len()
            invariant
                i <= self.values@.len(),
                views1(values@) == self@.vars.take(i as int),
            decreases self.values@.len() - i,
        {
            let var = &self.values[i];
            values.push(var.duplicate());
            proof {
                assert(self@.vars.take(i + 1) =~= self@.vars.take(i as int).push(
                    self@.vars[i as int],
                ));
                assert(views1(values@) =~= self@.vars.take(i + 1));
            }
            i = i + 1;
        }
        proof {
            assert(self@.vars.take(self@.vars.len() as int) =~= self@.vars);
        }
        let r = Section { header, values };
        proof {
            assert(r@ =~= self@);
        }
        r
    }
}

/// The name a partition header must carry, `"nvram"` in ASCII.
pub open spec fn nvram_name() -> Seq<u8> {
    seq![0x6Eu8, 0x76u8, 0x72u8, 0x61u8, 0x6Du8]
}

/// The partition name as owned bytes.
pub fn nvram_name_bytes() -> (r: Vec<u8>)
    ensures
        r@ == nvram_name(),
{
    let mut v: Vec<u8> = Vec::new();
    v.push(0x6E);
    v.push(0x76);
    v.push(0x72);
    v.push(0x61);
    v.push(0x6D);
    proof {
        assert(v@ =~= nvram_name());
    }
    v
}

/// One bank: the `nvram` header, a generation counter and the two
/// sections.  The Adler-32 word is derived on serialization, so it is not
/// stored.
#[derive(Debug)]
pub struct Partition {
    pub header: CHRPHeader,
    pub generation: u32,
    pub common: Section,
    pub system: Section,
}

/// The mathematical content of one bank.
#[verifier::ext_equal]
pub struct PartV1 {
    pub header: ChrpV,
    pub generation: u32,
    pub common: SecV,
    pub system: SecV,
}

impl View for Partition {
    type V = PartV1;

    open spec fn view(&self) -> PartV1 {
        PartV1 {
            header: self.header@,
            generation: self.generation,
            common: self.common@,
            system: self.system@,
        }
    }
}

/// Decode of one bank: CHRP header named `nvram`, stored Adler-32 and
/// generation, the two sections, and the Adler-32 check over the bytes
/// from the generation to the end of the second section.
pub open spec fn spec_parse_partition(b: Seq<u8>) -> Option<PartV1> {
    if b.len() < 48 {
        None
    } else {
        match spec_parse_chrp(b) {
            Option::None => None,
            Option::Some(h) => {
                if h.name != nvram_name() {
                    None
                } else {
                    let adler = crate::spec_le32_val(b.subrange(16, 20));
                    let gen = crate::spec_le32_val(b.subrange(20, 24));
                    match spec_parse_section(b.subrange(32, b.len() as int)) {
                        Option::None => None,
                        Option::Some(s1) => {
                            let s1e = 32 + spec_sec_size_bytes(s1);
                            if s1e > b.len() {
                                None
                            } else {
                                match spec_parse_section(b.subrange(s1e, b.len() as int)) {
                                    Option::None => None,
                                    Option::Some(s2) => {
                                        let end = s1e + spec_sec_size_bytes(s2);
                                        if end > b.len() {
                                            None
                                        } else if adler != adler32_of(b.subrange(20, end)) {
                                            None
                                        } else {
                                            let com1: Option<SecV> = if s1.header.name
                                                == common_name() {
                                                Some(s1)
                                            } else {
                                                None
                                            };
                                            let sys1: Option<SecV> = if s1.header.name
                                                == system_name() {
                                                Some(s1)
                                            } else {
                                                None
                                            };
                                            let com: Option<SecV> = if s2.header.name
                                                == common_name() {
                                                Some(s2)
                                            } else {
                                                com1
                                            };
                                            let sys: Option<SecV> = if s2.header.name
                                                == system_name() {
                                                Some(s2)
                                            } else {
                                                sys1
                                            };
                                            match (com, sys) {
                                                (
                                                    Option::Some(c),
                                                    Option::Some(sy),
                                                ) => Some(
                                                    PartV1 {
                                                        header: h,
                                                        generation: gen,
                                                        common: c,
                                                        system: sy,
                                                    },
                                                ),
                                                _ => None,
                                            }
                                        }
                                    },
                                }
                            }
                        },
                    }
                }
            },
        }
    }
}

/// The serialized bytes covered by the Adler-32 word: generation, eight
/// reserved zero bytes, then the two sections.
pub open spec fn body_bytes(p: PartV1) -> Seq<u8> {
    crate::spec_le32_bytes(p.generation) + Seq::new(8, |j: int| 0u8) + sec_bytes(
        p.common,
    ) + sec_bytes(p.system)
}

/// The full serialized bank: header, derived Adler-32, then the covered
/// body.
pub open spec fn spec_part_v1_bytes(p: PartV1) -> Seq<u8> {
    spec_chrp_bytes(p.header) + crate::spec_le32_bytes(adler32_of(body_bytes(p)))
        + body_bytes(p)
}

/// Both sections' content fits their declared sizes.
pub open spec fn sections_fit(p: PartV1) -> bool {
    &&& sec_content(p.common).len() <= spec_sec_size_bytes(p.common)
    &&& sec_content(p.system).len() <= spec_sec_size_bytes(p.system)
}

/// The views of a sequence of record references.
pub open spec fn views_ref(s: Seq<&Variable>) -> Seq<V1VarV> {
    s.map_values(|v: &Variable| v@)
}

/// References to the records of one section, in order.
fn section_refs(sec: &Section) -> (r: Vec<&Variable>)
    ensures
        views_ref(r@) == sec@.vars,
{
    let mut out: Vec<&Variable> = Vec::new();
    let mut i: usize = 0;
    proof {
        assert(views_ref(out@) =~= sec@.vars.take(0));
    }
    while i < sec.values.len()
        invariant
            i <= sec.values@.len(),
            views_ref(out@) == sec@.vars.take(i as int),
        decreases sec.values@.len() - i,
    {
        out.push(&sec.values[i]);
        proof {
            assert(sec@.vars[i as int] == sec.values@[i as int]@);
            assert(sec@.vars.take(i + 1) =~= sec@.vars.take(i as int).push(sec@.vars[i as int]));
            assert(views_ref(out@) =~= sec@.vars.take(i + 1));
        }
        i = i + 1;
    }
    proof {
        assert(sec@.vars.take(sec@.vars.len() as int) =~= sec@.vars);
    }
    out
}

/// Mapping to views distributes over concatenation.
pub proof fn lemma_views_ref_concat(a: Seq<&Variable>, b: Seq<&Variable>)
    ensures
        views_ref(a + b) == views_ref(a) + views_ref(b),
{
    assert(views_ref(a + b) =~= views_ref(a) + views_ref(b));
}

impl Partition {
    /// Headers fit and each section's keys are unique.
    pub open spec fn wf(&self) -> bool {
        &&& chrp_wf(self@.header)
        &&& chrp_wf(self@.common.header)
        &&& unique_keys(self@.common.vars)
        &&& chrp_wf(self@.system.header)
        &&& unique_keys(self@.system.vars)
    }

    /// Bytes the serialized bank occupies: the fixed prefix and the two
    /// sections' declared sizes.
    pub fn size_bytes(&self) -> (r: usize)
        ensures
            r == 32 + spec_sec_size_bytes(self@.common) + spec_sec_size_bytes(self@.system),
    {
        32 + self.common.size_bytes() + self.system.size_bytes()
    }

    /// Decodes one bank from the start of `nvr`.
    pub fn parse(nvr: &[u8]) -> (r: Result<Partition, Error>)
        ensures
            match r {
                Ok(p) => spec_parse_partition(nvr@) == Some(p@) && p.wf(),
                Err(e) => e is ParseError && spec_parse_partition(nvr@) is None,
            },
    {
        let n = nvr.len();
        if n < 48 {
            return Err(Error::ParseError);
        }
        let header = match CHRPHeader::parse(nvr) {
            Ok(h) => h,
            Err(_) => {
                return Err(Error::ParseError);
            },
        };
        let nvname = nvram_name_bytes();
        if !bytes_eq(header.name.as_slice(), nvname.as_slice()) {
            return Err(Error::ParseError);
        }
        let adler = read_le32(nvr, 16);
        let generation = read_le32(nvr, 20);
        let w1 = vstd::slice::slice_subrange(nvr, 32, n);
        let sec1 = match Section::parse(w1) {
            Ok(s) => s,
            Err(_) => {
                return Err(Error::ParseError);
            },
        };
        let s1b = sec1.size_bytes();
        if 32 + s1b > n {
            return Err(Error::ParseError);
        }
        let w2 = vstd::slice::slice_subrange(nvr, 32 + s1b, n);
        if w2.len() < 16 {
            proof {
                assert(spec_parse_section(nvr@.subrange(32 + s1b as int, nvr@.len() as int))
                    is None);
            }
            return Err(Error::ParseError);
        }
        let sec2 = match Section::parse(w2) {
            Ok(s) => s,
            Err(_) => {
                return Err(Error::ParseError);
            },
        };
        let s2b = sec2.size_bytes();
        if s2b > n - (32 + s1b) {
            return Err(Error::ParseError);
        }
        let end: usize = 32 + s1b + s2b;
        let calc = adler32_sum(vstd::slice::slice_subrange(nvr, 20, end));
        if adler != calc {
            return Err(Error::ParseError);
        }
        let common = common_name_bytes();
        let system = system_name_bytes();
        let mut com: Option<Section> = None;
        let mut sys: Option<Section> = None;
        if bytes_eq(sec1.header.name.as_slice(), common.as_slice()) {
            com = Some(sec1);
        } else if bytes_eq(sec1.header.name.as_slice(), system.as_slice()) {
            sys = Some(sec1);
        }
        if bytes_eq(sec2.header.name.as_slice(), common.as_slice()) {
            com = Some(sec2);
        } else if bytes_eq(sec2.header.name.as_slice(), system.as_slice()) {
            sys = Some(sec2);
        }
        match (com, sys) {
            (Some(c), Some(sy)) => {
                let p = Partition { header, generation, common: c, system: sy };
                proof {
                    assert(spec_parse_partition(nvr@) == Some(p@));
                }
                Ok(p)
            },
            _ => Err(Error::ParseError),
        }
    }

    /// Appends the serialized bank to `v`: header, Adler-32 recomputed
    /// over the body, generation, reserved zeros and the two sections.  On
    /// `SectionTooBig` nothing is appended.
    pub fn serialize(&self, v: &mut Vec<u8>) -> (r: Result<(), Error>)
        requires
            self@.header.name.len() <= 12,
            self@.common.header.name.len() <= 12,
            self@.system.header.name.len() <= 12,
        ensures
            match r {
                Ok(()) => sections_fit(self@) && final(v)@ == old(v)@ + spec_part_v1_bytes(self@),
                Err(e) => e is SectionTooBig && !sections_fit(self@) && final(v)@ == old(v)@,
            },
    {
        let mut body: Vec<u8> = Vec::new();
        crate::push_le32(&mut body, self.generation);
        let mut k: usize = 0;
        while k < 8
            invariant
                k <= 8,
                body@ == crate::spec_le32_bytes(self@.generation) + Seq::new(
                    k as nat,
                    |j: int| 0u8,
                ),
            decreases 8 - k,
        {
            body.push(0);
            k = k + 1;
            proof {
                assert(body@ =~= crate::spec_le32_bytes(self@.generation) + Seq::new(
                    k as nat,
                    |j: int| 0u8,
                ));
            }
        }
        match self.common.serialize(&mut body) {
            Ok(()) => {},
            Err(_) => {
                return Err(Error::SectionTooBig);
            },
        }
        match self.system.serialize(&mut body) {
            Ok(()) => {},
            Err(_) => {
                return Err(Error::SectionTooBig);
            },
        }
        proof {
            assert(body@ =~= body_bytes(self@));
        }
        let adler = adler32_sum(body.as_slice());
        self.header.serialize(v);
        crate::push_le32(v, adler);
        v.append(&mut body);
        proof {
            assert(v@ =~= old(v)@ + spec_part_v1_bytes(self@));
        }
        Ok(())
    }

    /// References to the records of both sections, common first.
    pub fn variables(&self) -> (r: Vec<&Variable>)
        ensures
            views_ref(r@) == self@.common.vars + self@.system.vars,
    {
        let mut out = section_refs(&self.common);
        let mut rest = section_refs(&self.system);
        let ghost a = out@;
        let ghost b = rest@;
        out.append(&mut rest);
        proof {
            lemma_views_ref_concat(a, b);
        }
        out
    }

    /// The record list of the section holding `typ`.
    pub open spec fn section_vars(&self, typ: VarType) -> Seq<V1VarV> {
        match typ {
            VarType::Common => self@.common.vars,
            VarType::System => self@.system.vars,
        }
    }

    /// The record holding `key` in the section of `typ`, if any.
    pub fn get_variable(&self, key: &[u8], typ: VarType) -> (r: Option<&Variable>)
        ensures
            match r {
                Some(var) => match find_key(self.section_vars(typ), key@) {
                    Option::Some(i) => var@ == self.section_vars(typ)[i],
                    Option::None => false,
                },
                None => find_key(self.section_vars(typ), key@) is None,
            },
    {
        let sec = match typ {
            VarType::Common => &self.common,
            VarType::System => &self.system,
        };
        let ghost vs = self.section_vars(typ);
        let mut i: usize = 0;
        proof {
            lemma_find_key_props(vs, key@);
        }
        while i < sec.values.len()
            invariant
                i <= sec.values@.len(),
                vs == views1(sec.values@),
                vs == self.section_vars(typ),
                forall|j: int| 0 <= j < i ==> (#[trigger] vs[j]).key != key@,
            decreases sec.values@.len() - i,
        {
            let var = &sec.values[i];
            if bytes_eq(var.key.as_slice(), key) {
                proof {
                    assert(vs[i as int] == sec.values@[i as int]@);
                    lemma_find_key_props(vs, key@);
                    assert(find_key(vs, key@) == Some(i as int));
                }
                return Some(var);
            }
            proof {
                assert(vs[i as int] == sec.values@[i as int]@);
            }
            i = i + 1;
        }
        proof {
            lemma_find_key_props(vs, key@);
        }
        None
    }

    /// Replaces or appends the record for `key` in the section of `typ`;
    /// the other section and the header are untouched.
    pub fn insert_variable(&mut self, key: &[u8], value: &[u8], typ: VarType)
        ensures
            final(self).section_vars(typ) == upsert(
                old(self).section_vars(typ),
                V1VarV { key: key@, value: value@, typ },
            ),
            final(self)@.header == old(self)@.header,
            final(self)@.generation == old(self)@.generation,
            final(self)@.common.header == old(self)@.common.header,
            final(self)@.system.header == old(self)@.system.header,
            match typ {
                VarType::Common => final(self)@.system == old(self)@.system,
                VarType::System => final(self)@.common == old(self)@.common,
            },
    {
        match typ {
            VarType::Common => self_upsert(&mut self.common.values, key, value, typ),
            VarType::System => self_upsert(&mut self.system.values, key, value, typ),
        }
    }

    /// Drops the record for `key` from the section of `typ`; everything
    /// else is untouched.
    pub fn remove_variable(&mut self, key: &[u8], typ: VarType)
        ensures
            final(self).section_vars(typ) == remove_key(old(self).section_vars(typ), key@),
            final(self)@.header == old(self)@.header,
            final(self)@.generation == old(self)@.generation,
            final(self)@.common.header == old(self)@.common.header,
            final(self)@.system.header == old(self)@.system.header,
            match typ {
                VarType::Common => final(self)@.system == old(self)@.system,
                VarType::System => final(self)@.common == old(self)@.common,
            },
    {
        match typ {
            VarType::Common => self_remove(&mut self.common.values, key),
            VarType::System => self_remove(&mut self.system.values, key),
        }
    }

    /// An owned copy of this bank.
    pub fn duplicate(&self) -> (r: Partition)
        ensures
            r@ == self@,
    {
        let r = Partition {
            header: self.header.duplicate(),
            generation: self.generation,
            common: self.common.duplicate(),
            system: self.system.duplicate(),
        };
        proof {
            assert(r@ =~= self@);
        }
        r
    }
}

/// The record list with the record for `key` dropped, if it was there.
pub open spec fn remove_key(vs: Seq<V1VarV>, key: Seq<u8>) -> Seq<V1VarV> {
    match find_key(vs, key) {
        Option::Some(i) => vs.remove(i),
        Option::None => vs,
    }
}

/// Drops the record holding `key`: the executable form of [`remove_key`].
fn self_remove(values: &mut Vec<Variable>, key: &[u8])
    ensures
        views1(final(values)@) == remove_key(views1(old(values)@), key@),
{
    let ghost vs = views1(old(values)@);
    let mut i: usize = 0;
    proof {
        lemma_find_key_props(vs, key@);
    }
    while i < values.len()
        invariant
            i <= values@.len(),
            values@ == old(values)@,
            vs == views1(old(values)@),
            forall|j: int| 0 <= j < i ==> (#[trigger] vs[j]).key != key@,
        decreases values@.len() - i,
    {
        let hit = bytes_eq(values[i].key.as_slice(), key);
        if hit {
            proof {
                assert(vs[i as int] == values@[i as int]@);
                lemma_find_key_props(vs, key@);
                assert(find_key(vs, key@) == Some(i as int));
            }
            values.remove(i);
            proof {
                assert(views1(values@) =~= vs.remove(i as int));
            }
            return ;
        }
        proof {
            assert(vs[i as int] == values@[i as int]@);
        }
        i = i + 1;
    }
    proof {
        lemma_find_key_props(vs, key@);
        assert(find_key(vs, key@) is None);
    }
}

/// Decode of a whole two-bank image: both windows parsed, a lone
/// surviving bank cloned over the other, and the bank with the greater
/// generation active (ties go to the second bank).
pub open spec fn spec_parse_nvram(b: Seq<u8>) -> Option<(PartV1, PartV1, int)> {
    if b.len() < IMAGE_SIZE {
        None
    } else {
        let r0 = spec_parse_partition(b.subrange(0, BANK_SIZE as int));
        let r1 = spec_parse_partition(b.subrange(BANK_SIZE as int, IMAGE_SIZE as int));
        match (r0, r1) {
            (Option::None, Option::None) => None,
            (Option::Some(p0), Option::None) => Some((p0, p0, pick_active_v1(p0, p0))),
            (Option::None, Option::Some(p1)) => Some((p1, p1, pick_active_v1(p1, p1))),
            (Option::Some(p0), Option::Some(p1)) => Some((p0, p1, pick_active_v1(p0, p1))),
        }
    }
}

/// The active bank of a two-bank image: the greater generation wins, a tie
/// goes to the second bank.
pub open spec fn pick_active_v1(p0: PartV1, p1: PartV1) -> int {
    if p0.generation > p1.generation {
        0
    } else {
        1
    }
}

/// A v1/v2 image: exactly two banks and the index of the active one.
#[derive(Debug)]
pub struct Nvram {
    pub partitions: Vec<Partition>,
    pub active: usize,
}

impl Nvram {
    /// The container invariant: two banks, the active index naming one.
    pub open spec fn wf(&self) -> bool {
        &&& self.partitions@.len() == 2
        &&& self.active < 2
        &&& self.partitions@[0].wf()
        &&& self.partitions@[1].wf()
    }

    /// The content of the active bank.
    pub open spec fn active_view(&self) -> PartV1
        recommends
            self.wf(),
    {
        self.partitions@[self.active as int]@
    }

    /// Decodes a two-bank image.  If exactly one bank parses, it is cloned
    /// over the other; if both fail, the image is rejected.
    pub fn parse(nvr: &[u8]) -> (r: Result<Nvram, Error>)
        ensures
            match r {
                Ok(nv) => {
                    &&& nv.wf()
                    &&& match spec_parse_nvram(nvr@) {
                        Option::Some(t) => nv.partitions@[0]@ == t.0 && nv.partitions@[1]@ == t.1
                            && nv.active as int == t.2,
                        Option::None => false,
                    }
                },
                Err(e) => e is ParseError && spec_parse_nvram(nvr@) is None,
            },
    {
        let n = nvr.len();
        if n < IMAGE_SIZE {
            return Err(Error::ParseError);
        }
        let w0 = vstd::slice::slice_subrange(nvr, 0, BANK_SIZE);
        let w1 = vstd::slice::slice_subrange(nvr, BANK_SIZE, IMAGE_SIZE);
        let p0;
        let p1;
        match (Partition::parse(w0), Partition::parse(w1)) {
            (Err(e), Err(_)) => {
                return Err(e);
            },
            (Ok(p0r), Err(_)) => {
                p1 = p0r.duplicate();
                p0 = p0r;
            },
            (Err(_), Ok(p1r)) => {
                p0 = p1r.duplicate();
                p1 = p1r;
            },
            (Ok(p0r), Ok(p1r)) => {
                p0 = p0r;
                p1 = p1r;
            },
        }
        let active: usize = if p0.generation > p1.generation {
            0
        } else {
            1
        };
        let mut partitions: Vec<Partition> = Vec::new();
        partitions.push(p0);
        partitions.push(p1);
        Ok(Nvram { partitions, active })
    }

    /// References to both banks, in order.
    pub fn partitions(&self) -> (r: Vec<&Partition>)
        requires
            self.wf(),
        ensures
            r@.len() == 2,
            r@[0]@ == self.partitions@[0]@,
            r@[1]@ == self.partitions@[1]@,
    {
        let mut out: Vec<&Partition> = Vec::new();
        out.push(&self.partitions[0]);
        out.push(&self.partitions[1]);
        out
    }

    /// A reference to the active bank.
    pub fn active_part(&self) -> (r: &Partition)
        requires
            self.wf(),
        ensures
            r@ == self.active_view(),
            r.wf(),
    {
        &self.partitions[self.active]
    }

    /// A mutable reference to the active bank.
    pub fn active_part_mut(&mut self) -> (r: &mut Partition)
        requires
            old(self).wf(),
        ensures
            *r == old(self).partitions@[old(self).active as int],
            final(self).partitions@ == old(self).partitions@.update(
                old(self).active as int,
                *final(r),
            ),
            final(self).active == old(self).active,
    {
        let a = self.active;
        vstd::std_specs::vec::vec_index_mut(&mut self.partitions, a)
    }

    /// The serialized image: both banks, in order.
    pub fn serialize(&self) -> (r: Result<Vec<u8>, Error>)
        requires
            self.wf(),
        ensures
            match r {
                Ok(v) => sections_fit(self.partitions@[0]@) && sections_fit(self.partitions@[1]@)
                    && v@ == spec_part_v1_bytes(self.partitions@[0]@) + spec_part_v1_bytes(
                    self.partitions@[1]@,
                ),
                Err(e) => e is SectionTooBig && !(sections_fit(self.partitions@[0]@)
                    && sections_fit(self.partitions@[1]@)),
            },
    {
        let mut v: Vec<u8> = Vec::new();
        match self.partitions[0].serialize(&mut v) {
            Ok(()) => {},
            Err(_) => {
                return Err(Error::SectionTooBig);
            },
        }
        match self.partitions[1].serialize(&mut v) {
            Ok(()) => {},
            Err(_) => {
                return Err(Error::SectionTooBig);
            },
        }
        Ok(v)
    }

    /// Copies the active bank over the inactive one with the generation
    /// advanced by one, and makes that copy active: the previous
    /// generation stays intact on its own bank until the new one is safely
    /// on the medium.
    pub fn prepare_for_write(&mut self)
        requires
            old(self).wf(),
            old(self).active_view().generation < u32::MAX,
        ensures
            final(self).wf(),
            final(self).active == 1 - old(self).active,
            final(self).partitions@[final(self).active as int]@ == (PartV1 {
                generation: (old(self).active_view().generation + 1) as u32,
                ..old(self).active_view()
            }),
            final(self).partitions@[old(self).active as int]
                == old(self).partitions@[old(self).active as int],
    {
        let inactive: usize = 1 - self.active;
        let mut copy = self.partitions[self.active].duplicate();
        copy.generation = copy.generation + 1;
        proof {
            assert(copy@ =~= (PartV1 {
                generation: (old(self).active_view().generation + 1) as u32,
                ..old(self).active_view()
            }));
        }
        *vstd::std_specs::vec::vec_index_mut(&mut self.partitions, inactive) = copy;
        self.active = inactive;
    }
}

/// Dropping a key keeps the remaining keys unique.
pub proof fn lemma_remove_key_unique(vs: Seq<V1VarV>, key: Seq<u8>)
    requires
        unique_keys(vs),
    ensures
        unique_keys(remove_key(vs, key)),
{
    lemma_find_key_props(vs, key);
    match find_key(vs, key) {
        Option::Some(i) => {
            let r = vs.remove(i);
            assert forall|a: int, b: int| 0 <= a < b < r.len() implies (#[trigger] r[a]).key != (
            #[trigger] r[b]).key by {
                assert(r[a] == if a < i {
                    vs[a]
                } else {
                    vs[a + 1]
                });
                assert(r[b] == if b < i {
                    vs[b]
                } else {
                    vs[b + 1]
                });
            }
        },
        Option::None => {},
    }
}

} // verus!
