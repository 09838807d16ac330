//! The library's laws: properties that hold across operations, stated
//! over the same spec functions the operations' own contracts use.

use vstd::prelude::*;

use crate::v1v2;
use crate::v1v2::{
    body_bytes, chrp_wf, common_name, entries_bytes, find_key, fold_entries, nvram_name,
    sec_bytes, sec_content, section_kind, spec_chrp_bytes, spec_chrp_sum, spec_parse_chrp,
    spec_parse_entries, spec_parse_section, spec_part_v1_bytes, spec_sec_size_bytes, system_name,
    unique_keys, upsert, ChrpV, PartV1, SecV, V1VarV,
};
use crate::sums::adler32_of;
use crate::v3;
use crate::v3::{
    common_guid, guid_of, is_live_match, kind_of, live_only, parts_bytes, spec_bank_count,
    spec_bank_window,
    spec_get_live, spec_new_var, spec_parse_banks, spec_parse_partition, spec_part_bytes,
    spec_part_content, spec_pick_active, spec_tombstone, spec_tombstoned, spec_total_used,
    spec_var_bytes, spec_var_size, store_signature, sum_sizes, system_guid, var_wf, vars_bytes,
    BankState, PartV, VarV, PARTITION_SIZE, VAR_ADDED, VARIABLE_DATA, VARIABLE_STORE_VERSION,
};
use crate::sums::crc32_of;
use crate::VarType;

verus! {
/// The two namespace GUIDs differ, so a record's namespace is read back
/// exactly as it was written.
pub proof fn lemma_guid_kind(t: VarType)
    ensures
        kind_of(guid_of(t)) == t,
{
    assert(common_guid()[0] == 0x7C);
    assert(system_guid()[0] == 0x40);
    assert(common_guid() != system_guid());
}

/// Tombstoning clears exactly the live records for the key and namespace
/// to the superseded state `0x7C`, and touches nothing else.
pub proof fn lemma_tombstone_states(vs: Seq<VarV>, key: Seq<u8>, t: VarType)
    ensures
        spec_tombstone(vs, key, t).len() == vs.len(),
        forall|i: int|
            0 <= i < vs.len() && is_live_match(#[trigger] vs[i], key, t) ==> spec_tombstone(
                vs,
                key,
                t,
            )[i].state == 0x7C,
        forall|i: int|
            0 <= i < vs.len() && !is_live_match(#[trigger] vs[i], key, t) ==> spec_tombstone(
                vs,
                key,
                t,
            )[i] == vs[i],
        forall|i: int|
            0 <= i < vs.len() ==> !is_live_match(#[trigger] spec_tombstone(vs, key, t)[i], key, t),
{
    assert(0x7Fu8 & 0xFDu8 & 0xFEu8 == 0x7Cu8) by (bit_vector);
    assert forall|i: int|
        0 <= i < vs.len() && is_live_match(#[trigger] vs[i], key, t) implies spec_tombstone(
        vs,
        key,
        t,
    )[i].state == 0x7C by {
        assert(vs[i].state == VAR_ADDED);
    }
}

/// The first live record of a log whose only live match sits at the end.
proof fn lemma_get_live_last(l: Seq<VarV>, key: Seq<u8>, t: VarType)
    requires
        l.len() > 0,
        forall|i: int| 0 <= i < l.len() - 1 ==> !is_live_match(#[trigger] l[i], key, t),
        is_live_match(l[l.len() - 1], key, t),
    ensures
        spec_get_live(l, key, t) == Some(l[l.len() - 1]),
    decreases l.len(),
{
    if l.len() == 1 {
    } else {
        assert(!is_live_match(l[0], key, t));
        lemma_get_live_last(l.drop_first(), key, t);
        assert(l.drop_first()[l.len() - 2] == l[l.len() - 1]);
    }
}

/// After an insert, reading the same key and namespace yields exactly the
/// inserted value, and the new record is the only live one for that pair.
pub proof fn lemma_insert_then_get(vs: Seq<VarV>, key: Seq<u8>, value: Seq<u8>, t: VarType)
    ensures
        ({
            let l = spec_tombstone(vs, key, t).push(spec_new_var(key, value, t));
            &&& spec_get_live(l, key, t) == Some(spec_new_var(key, value, t))
            &&& spec_new_var(key, value, t).value == value
            &&& forall|i: int| 0 <= i < l.len() - 1 ==> !is_live_match(#[trigger] l[i], key, t)
        }),
{
    let nv = spec_new_var(key, value, t);
    let l = spec_tombstone(vs, key, t).push(nv);
    lemma_guid_kind(t);
    lemma_tombstone_states(vs, key, t);
    assert(is_live_match(nv, key, t));
    assert forall|i: int| 0 <= i < l.len() - 1 implies !is_live_match(#[trigger] l[i], key, t) by {
        assert(l[i] == spec_tombstone(vs, key, t)[i]);
    }
    lemma_get_live_last(l, key, t);
}

/// Inserting twice for one key and namespace: the read yields the second
/// value, the once-live first record now carries the superseded state
/// `0x7C`, and no record but the last is live for that pair.
pub proof fn lemma_supersede(
    vs: Seq<VarV>,
    key: Seq<u8>,
    value1: Seq<u8>,
    value2: Seq<u8>,
    t: VarType,
)
    ensures
        ({
            let l1 = spec_tombstone(vs, key, t).push(spec_new_var(key, value1, t));
            let l2 = spec_tombstone(l1, key, t).push(spec_new_var(key, value2, t));
            &&& spec_get_live(l2, key, t) == Some(spec_new_var(key, value2, t))
            &&& l2[l1.len() - 1].state == 0x7C
            &&& l2[l1.len() - 1].value == value1
            &&& forall|i: int| 0 <= i < l2.len() - 1 ==> !is_live_match(#[trigger] l2[i], key, t)
        }),
{
    let n1 = spec_new_var(key, value1, t);
    let n2 = spec_new_var(key, value2, t);
    let l1 = spec_tombstone(vs, key, t).push(n1);
    let l2 = spec_tombstone(l1, key, t).push(n2);
    lemma_guid_kind(t);
    lemma_insert_then_get(vs, key, value1, t);
    lemma_insert_then_get(l1, key, value2, t);
    lemma_tombstone_states(l1, key, t);
    assert(l1[l1.len() - 1] == n1);
    assert(is_live_match(n1, key, t));
    assert(l2[l1.len() - 1] == spec_tombstone(l1, key, t)[l1.len() - 1]);
    assert(spec_tombstone(l1, key, t)[l1.len() - 1].state == 0x7C);
    assert(spec_tombstoned(n1).value == value1);
}

/// Upserting into a key-unique record list leaves the upserted record
/// findable under its key, holding exactly the new value.
pub proof fn lemma_upsert_then_find(vs: Seq<V1VarV>, v: V1VarV)
    requires
        unique_keys(vs),
    ensures
        match find_key(upsert(vs, v), v.key) {
            Option::Some(i) => upsert(vs, v)[i] == v,
            Option::None => false,
        },
{
    v1v2::lemma_find_key_props(vs, v.key);
    match find_key(vs, v.key) {
        Option::Some(i) => {
            let u = vs.update(i, v);
            v1v2::lemma_find_key_props(u, v.key);
            match find_key(u, v.key) {
                Option::Some(j) => {
                    if j != i {
                        assert(u[j] == vs[j]);
                        assert(vs[j].key == vs[i].key);
                        assert(false);
                    }
                },
                Option::None => {
                    assert(u[i].key == v.key);
                    assert(false);
                },
            }
        },
        Option::None => {
            let u = vs.push(v);
            v1v2::lemma_find_key_props(u, v.key);
            match find_key(u, v.key) {
                Option::Some(j) => {
                    if j != vs.len() {
                        assert(u[j] == vs[j]);
                        assert(false);
                    }
                },
                Option::None => {
                    assert(u[vs.len() as int].key == v.key);
                    assert(false);
                },
            }
        },
    }
}

/// A decoded CHRP header always re-sums to its stored checksum byte.
pub proof fn lemma_chrp_checksum_verifies(b: Seq<u8>)
    requires
        v1v2::spec_parse_chrp(b) is Some,
    ensures
        b.len() >= 16,
        v1v2::spec_chrp_sum(
            v1v2::spec_parse_chrp(b)->Some_0.name,
            v1v2::spec_parse_chrp(b)->Some_0.signature,
            v1v2::spec_parse_chrp(b)->Some_0.size,
        ) == b[1],
{
}

/// What stripping trailing `t` bytes leaves and drops.
proof fn lemma_rstrip_full(s: Seq<u8>, t: u8)
    ensures
        crate::spec_rstrip(s, t).len() <= s.len(),
        forall|i: int|
            0 <= i < crate::spec_rstrip(s, t).len() ==> crate::spec_rstrip(s, t)[i] == s[i],
        forall|i: int| crate::spec_rstrip(s, t).len() <= i < s.len() ==> s[i] == t,
    decreases s.len(),
{
    if s.len() > 0 && s.last() == t {
        lemma_rstrip_full(s.drop_last(), t);
        assert(forall|i: int| 0 <= i < s.len() - 1 ==> s.drop_last()[i] == s[i]);
    }
}

/// No window can satisfy both formats: a v3 store header fixes the
/// version byte at offset 14 to one, while a v1/v2 partition needs its
/// CHRP name to read `nvram`, which forces that byte to zero.  Format
/// auto-detection is therefore unambiguous on every bank.
pub proof fn lemma_formats_exclusive(w: Seq<u8>)
    requires
        v3::spec_parse_store_header(w) is Some,
    ensures
        v1v2::spec_parse_partition(w) is None,
{
    assert(w[14] == v3::VARIABLE_STORE_VERSION);
    if v1v2::spec_parse_partition(w) is Some {
        let h = v1v2::spec_parse_chrp(w)->Some_0;
        assert(h.name == v1v2::nvram_name());
        assert(h.name.len() == 5);
        let field = w.subrange(4, 16);
        lemma_rstrip_full(field, 0);
        assert(field[10] == 0);
        assert(w[14] == 0);
        assert(false);
    }
}

/// The serialized record's length and the position of each field in it.
proof fn lemma_var_bytes_shape(v: VarV)
    requires
        var_wf(v),
    ensures
        spec_var_bytes(v).len() == spec_var_size(v),
        spec_var_bytes(v).subrange(0, 2) == crate::spec_le16_bytes(VARIABLE_DATA),
        spec_var_bytes(v)[2] == v.state,
        spec_var_bytes(v).subrange(4, 8) == crate::spec_le32_bytes(v.attrs),
        spec_var_bytes(v).subrange(8, 12) == crate::spec_le32_bytes(v.name_size),
        spec_var_bytes(v).subrange(12, 16) == crate::spec_le32_bytes(v.data_size),
        spec_var_bytes(v).subrange(16, 32) == v.guid,
        spec_var_bytes(v).subrange(32, 36) == crate::spec_le32_bytes(
            crc32_of(v.value),
        ),
        spec_var_bytes(v).subrange(36, 36 + v.name_size - 1) == v.key,
        spec_var_bytes(v).subrange(
            36 + v.name_size as int,
            36 + v.name_size + v.data_size,
        ) == v.value,
{
    
    let b = spec_var_bytes(v);
    assert(b.len() == spec_var_size(v));
    assert(b.subrange(0, 2) =~= crate::spec_le16_bytes(VARIABLE_DATA));
    assert(b.subrange(4, 8) =~= crate::spec_le32_bytes(v.attrs));
    assert(b.subrange(8, 12) =~= crate::spec_le32_bytes(v.name_size));
    assert(b.subrange(12, 16) =~= crate::spec_le32_bytes(v.data_size));
    assert(b.subrange(16, 32) =~= v.guid);
    assert(b.subrange(32, 36) =~= crate::spec_le32_bytes(crc32_of(v.value)));
    assert(b.subrange(36, 36 + v.name_size - 1) =~= v.key);
    assert(b.subrange(36 + v.name_size as int, 36 + v.name_size + v.data_size) =~= v.value);
}

/// A serialized record decodes back to itself wherever its bytes sit.
proof fn lemma_var_roundtrip(b: Seq<u8>, offset: int, v: VarV)
    requires
        var_wf(v),
        0 <= offset,
        offset + spec_var_size(v) <= b.len(),
        b.subrange(offset, offset + spec_var_size(v)) == spec_var_bytes(v),
    ensures
        v3::spec_parse_var(b, offset) == Some(v),
{
    
    lemma_var_bytes_shape(v);
    crate::lemma_le16_roundtrip(VARIABLE_DATA);
    crate::lemma_le32_roundtrip(v.attrs);
    crate::lemma_le32_roundtrip(v.name_size);
    crate::lemma_le32_roundtrip(v.data_size);
    crate::lemma_le32_roundtrip(crc32_of(v.value));
    let sv = spec_var_bytes(v);
    let sz = spec_var_size(v);
    assert(b.subrange(offset, offset + 2) =~= sv.subrange(0, 2));
    assert(b[offset + 2] == sv[2]);
    assert(b.subrange(offset + 4, offset + 8) =~= sv.subrange(4, 8));
    assert(b.subrange(offset + 8, offset + 12) =~= sv.subrange(8, 12));
    assert(b.subrange(offset + 12, offset + 16) =~= sv.subrange(12, 16));
    assert(b.subrange(offset + 16, offset + 32) =~= sv.subrange(16, 32));
    assert(b.subrange(offset + 32, offset + 36) =~= sv.subrange(32, 36));
    assert(b.subrange(offset + 36, offset + 36 + v.name_size - 1) =~= sv.subrange(
        36,
        36 + v.name_size - 1,
    ));
    assert(b.subrange(
        offset + 36 + v.name_size as int,
        offset + 36 + v.name_size + v.data_size,
    ) =~= sv.subrange(36 + v.name_size as int, 36 + v.name_size + v.data_size));
    assert(crate::spec_le16_val(b.subrange(offset, offset + 2))
        == VARIABLE_DATA);
    assert(crate::spec_le32_val(b.subrange(offset + 8, offset + 12))
        == v.name_size);
    assert(v.name_size != 0);
    assert(offset + 36 + v.name_size + v.data_size <= b.len());
    assert(crate::spec_le32_val(b.subrange(offset + 32, offset + 36))
        == crc32_of(v.value));
    match v3::spec_parse_var(b, offset) {
        Option::Some(p) => {
            assert(p =~= v);
        },
        Option::None => {
            assert(false);
        },
    }
}

/// The serialized log length is the summed record sizes.
proof fn lemma_vars_bytes_len(vs: Seq<VarV>)
    requires
        forall|i: int| 0 <= i < vs.len() ==> var_wf(#[trigger] vs[i]),
    ensures
        vars_bytes(vs).len() == sum_sizes(vs),
    decreases vs.len(),
{
    
    if vs.len() > 0 {
        lemma_var_bytes_shape(vs[0]);
        assert(forall|i: int|
            0 <= i < vs.drop_first().len() ==> var_wf(#[trigger] vs.drop_first()[i]));
        lemma_vars_bytes_len(vs.drop_first());
    }
}

/// A serialized log followed by `0xFF` padding decodes back to itself.
#[verifier::rlimit(50)]
#[verifier::spinoff_prover]
proof fn lemma_records_roundtrip(b: Seq<u8>, offset: int, vs: Seq<VarV>, end: int)
    requires
        forall|i: int| 0 <= i < vs.len() ==> var_wf(#[trigger] vs[i]),
        0 <= offset,
        offset + sum_sizes(vs) <= end <= b.len(),
        b.subrange(offset, offset + sum_sizes(vs)) == vars_bytes(vs),
        forall|i: int| offset + sum_sizes(vs) <= i < end ==> b[i] == 0xFF,
    ensures
        v3::spec_parse_records(b, offset, end) == Some(vs),
    decreases vs.len(),
{
    if vs.len() == 0 {
        if offset + 36 < end {
            assert forall|j: int|
                0 <= j < 36 implies (#[trigger] b[offset + j] == 0 || b[offset + j] == 0xFF) by {
                assert(b[offset + j] == 0xFF);
            }
            assert(v3::is_end_marker(b, offset));
        }
        assert(v3::spec_parse_records(b, offset, end) == Some(Seq::<VarV>::empty()));
        assert(Seq::<VarV>::empty() =~= vs);
    } else {
        let v = vs[0];
        let rest = vs.drop_first();
        let sz = spec_var_size(v);
        lemma_var_bytes_shape(v);
        lemma_vars_bytes_len(vs);
        assert(forall|i: int| 0 <= i < rest.len() ==> var_wf(#[trigger] rest[i]));
        lemma_vars_bytes_len(rest);
        crate::v3::lemma_sums_bounds(rest, Seq::empty());
        // the first record's bytes
        assert(b.subrange(offset, offset + sz) =~= spec_var_bytes(v)) by {
            assert(forall|j: int|
                0 <= j < sum_sizes(vs) ==> #[trigger] b[offset + j] == vars_bytes(vs)[j]);
            assert(forall|j: int| 0 <= j < sz ==> #[trigger] vars_bytes(vs)[j] == spec_var_bytes(
                v,
            )[j]);
        }
        lemma_var_roundtrip(b, offset, v);
        // the record header begins with 0xAA, so this is no end marker
        assert((VARIABLE_DATA & 0xFF) as u8 == 0xAAu8) by (bit_vector);

        assert(spec_var_bytes(v)[0] == 0xAAu8);
        assert(b[offset + 0] == 0xAAu8);
        assert(!v3::is_end_marker(b, offset));
        assert(offset + 36 < end);
        // the rest of the log
        assert(b.subrange(offset + sz, offset + sz + sum_sizes(rest)) =~= vars_bytes(rest)) by {
            assert(forall|j: int|
                0 <= j < sum_sizes(vs) ==> #[trigger] b[offset + j] == vars_bytes(vs)[j]);
            assert(forall|j: int|
                0 <= j < sum_sizes(rest) ==> #[trigger] vars_bytes(rest)[j] == vars_bytes(
                    vs,
                )[sz + j]);
        }
        lemma_records_roundtrip(b, offset + sz, rest, end);
        assert(v3::spec_parse_records(b, offset, end) == Some(seq![v] + rest));
        assert(seq![v] + rest =~= vs);
    }
}

/// Serializing a bank and decoding the bytes yields the bank back,
/// byte-exactly: the journal codec is byte-stable given record order.
/// Holds for every structurally well-formed bank whose content fits its
/// declared store size.
pub proof fn lemma_v3_partition_roundtrip(p: PartV)
    requires
        forall|i: int| 0 <= i < p.vars.len() ==> var_wf(#[trigger] p.vars[i]),
        spec_total_used(p) <= p.header.size,
    ensures
        spec_parse_partition(spec_part_bytes(p)) == BankState::Valid(p),
{
    
    lemma_vars_bytes_len(p.vars);
    crate::v3::lemma_sums_bounds(p.vars, Seq::empty());
    crate::lemma_le32_roundtrip(p.header.size);
    crate::lemma_le32_roundtrip(p.header.generation);
    crate::lemma_le32_roundtrip(p.header.system_size);
    crate::lemma_le32_roundtrip(p.header.common_size);
    let content = spec_part_content(p);
    let b = spec_part_bytes(p);
    assert(content.len() == spec_total_used(p));
    assert(b.len() == p.header.size);
    // the store header decodes to the header
    assert(b.subrange(0, 4) =~= store_signature());
    assert(b[14] == VARIABLE_STORE_VERSION);
    assert(b.subrange(4, 8) =~= crate::spec_le32_bytes(p.header.size));
    assert(b.subrange(8, 12) =~= crate::spec_le32_bytes(p.header.generation));
    assert(b[12] == p.header.state);
    assert(b[13] == p.header.flags);
    assert(b.subrange(16, 20) =~= crate::spec_le32_bytes(p.header.system_size));
    assert(b.subrange(20, 24) =~= crate::spec_le32_bytes(p.header.common_size));
    match v3::spec_parse_store_header(b) {
        Option::Some(h) => {
            assert(h == p.header);
        },
        Option::None => {
            assert(false);
        },
    }
    // the record log decodes to the records
    assert(v3::spec_store_end(p.header, b) == p.header.size as int);
    assert(b.subrange(24, 24 + sum_sizes(p.vars)) =~= vars_bytes(p.vars));
    assert(forall|i: int| 24 + sum_sizes(p.vars) <= i < b.len() ==> #[trigger] b[i] == 0xFF);
    lemma_records_roundtrip(b, 24, p.vars, p.header.size as int);
    match spec_parse_partition(b) {
        BankState::Valid(q) => {
            assert(q =~= p);
        },
        _ => {
            assert(false);
        },
    }
}

/// Stripping the zero padding after a name that carries no trailing zero
/// gives the name back.
proof fn lemma_rstrip_pad(name: Seq<u8>, k: nat)
    requires
        name.len() == 0 || name.last() != 0,
    ensures
        crate::spec_rstrip(name + Seq::new(k, |j: int| 0u8), 0) == name,
    decreases k,
{
    let padded = name + Seq::new(k, |j: int| 0u8);
    if k == 0 {
        assert(padded =~= name);
        if name.len() > 0 {
            assert(crate::spec_rstrip(name, 0) == name);
        } else {
            assert(crate::spec_rstrip(name, 0) == name);
        }
    } else {
        assert(padded.last() == 0);
        assert(padded.drop_last() =~= name + Seq::new((k - 1) as nat, |j: int| 0u8));
        lemma_rstrip_pad(name, (k - 1) as nat);
    }
}

/// A serialized CHRP header decodes back to itself at the start of any
/// window holding it.
proof fn lemma_chrp_roundtrip(b: Seq<u8>, h: ChrpV)
    requires
        chrp_wf(h),
        b.len() >= 16,
        b.subrange(0, 16) == spec_chrp_bytes(h),
    ensures
        spec_parse_chrp(b) == Some(h),
{
    crate::lemma_le16_roundtrip(h.size);
    let c = spec_chrp_bytes(h);
    assert(c.len() == 16);
    assert forall|j: int| 0 <= j < 16 implies #[trigger] b[j] == c[j] by {
        assert(b.subrange(0, 16)[j] == b[j]);
    }
    assert(b[0] == c[0]);
    assert(b[1] == c[1]);
    assert(c.subrange(2, 4) =~= crate::spec_le16_bytes(h.size));
    assert(b.subrange(2, 4) =~= c.subrange(2, 4));
    assert(c.subrange(4, 16) =~= h.name + Seq::new((12 - h.name.len()) as nat, |j: int| 0u8));
    assert(b.subrange(4, 16) =~= c.subrange(4, 16));
    lemma_rstrip_pad(h.name, (12 - h.name.len()) as nat);
    match spec_parse_chrp(b) {
        Option::Some(got) => {
            assert(got =~= h);
        },
        Option::None => {
            assert(false);
        },
    }
}

/// A record the section codec can round-trip: no zero byte in key or
/// value, and no `=` in the key.
pub open spec fn clean_var(v: V1VarV) -> bool {
    &&& forall|i: int| 0 <= i < v.key.len() ==> #[trigger] v.key[i] != 0 && v.key[i] != 0x3D
    &&& forall|i: int| 0 <= i < v.value.len() ==> #[trigger] v.value[i] != 0
}

/// The key/value pairs of a record list, as the entry walk yields them.
pub open spec fn pairs_of(vs: Seq<V1VarV>) -> Seq<(Seq<u8>, Seq<u8>)> {
    vs.map_values(|v: V1VarV| (v.key, v.value))
}

/// Serialized records followed by a zero byte walk back to exactly their
/// key/value pairs.
#[verifier::rlimit(50)]
#[verifier::spinoff_prover]
proof fn lemma_entries_roundtrip(w: Seq<u8>, pos: int, vs: Seq<V1VarV>)
    requires
        forall|i: int| 0 <= i < vs.len() ==> clean_var(#[trigger] vs[i]),
        0 <= pos,
        pos + entries_bytes(vs).len() < w.len(),
        w.subrange(pos, pos + entries_bytes(vs).len()) == entries_bytes(vs),
        w[pos + entries_bytes(vs).len()] == 0,
    ensures
        spec_parse_entries(w, pos) == pairs_of(vs),
    decreases vs.len(),
{
    v1v2::lemma_find_props(w, pos, 0);
    if vs.len() == 0 {
        assert(w[pos] == 0);
        match crate::spec_find(w, pos, 0) {
            Option::Some(z) => {
                assert(z == pos);
                let cand = w.subrange(pos, z);
                assert(cand.len() == 0);
                v1v2::lemma_find_props(cand, 0, 0x3D);
                assert(crate::spec_find(cand, 0, 0x3D) is None);
                assert(spec_parse_entries(w, pos) =~= pairs_of(vs));
            },
            Option::None => {
                assert(false);
            },
        }
    } else {
        let v = vs[0];
        let rest = vs.drop_first();
        let rec = v.key + seq![0x3Du8] + v.value + seq![0u8];
        let e = entries_bytes(vs);
        let z0 = pos + v.key.len() + 1 + v.value.len();
        assert(e =~= rec + entries_bytes(rest));
        assert(forall|j: int| 0 <= j < e.len() ==> #[trigger] w[pos + j] == e[j]);
        // no zero before the record's own terminator, which sits at z0
        assert forall|j: int| pos <= j < z0 implies #[trigger] w[j] != 0 by {
            assert(w[j] == e[j - pos]);
            assert(e[j - pos] == rec[j - pos]);
        }
        assert(w[z0] == e[v.key.len() as int + 1 + v.value.len() as int]);
        assert(e[v.key.len() as int + 1 + v.value.len() as int] == rec[v.key.len() as int + 1
            + v.value.len() as int]);
        assert(rec[v.key.len() as int + 1 + v.value.len() as int] == 0);
        assert(w[z0] == 0);
        match crate::spec_find(w, pos, 0) {
            Option::Some(z) => {
                assert(z == z0);
                let cand = w.subrange(pos, z);
                assert(cand =~= v.key + seq![0x3Du8] + v.value);
                v1v2::lemma_find_props(cand, 0, 0x3D);
                // the first '=' sits right after the key
                assert(cand[v.key.len() as int] == 0x3D);
                assert(forall|j: int| 0 <= j < v.key.len() ==> #[trigger] cand[j] != 0x3D);
                match crate::spec_find(cand, 0, 0x3D) {
                    Option::Some(eq) => {
                        assert(eq == v.key.len());
                        assert(cand.subrange(0, eq) =~= v.key);
                        assert(cand.subrange(eq + 1, cand.len() as int) =~= v.value);
                        // the remaining records
                        assert(forall|i: int|
                            0 <= i < rest.len() ==> clean_var(#[trigger] rest[i]));
                        assert(w.subrange(z0 + 1, z0 + 1 + entries_bytes(rest).len())
                            =~= entries_bytes(rest)) by {
                            assert(forall|j: int|
                                0 <= j < entries_bytes(rest).len()
                                    ==> #[trigger] entries_bytes(rest)[j] == e[rec.len() + j]);
                        }
                        assert(w[z0 + 1 + entries_bytes(rest).len()] == 0);
                        lemma_entries_roundtrip(w, z0 + 1, rest);
                        assert(spec_parse_entries(w, pos) =~= seq![(v.key, v.value)] + pairs_of(
                            rest,
                        ));
                        assert(seq![(v.key, v.value)] + pairs_of(rest) =~= pairs_of(vs));
                    },
                    Option::None => {
                        assert(false);
                    },
                }
            },
            Option::None => {
                assert(false);
            },
        }
    }
}

/// Folding pairs with pairwise-distinct keys into a key-unique list just
/// appends them in order.
proof fn lemma_fold_pairs(acc: Seq<V1VarV>, vs: Seq<V1VarV>, t: VarType)
    requires
        unique_keys(acc + vs),
        forall|i: int| 0 <= i < vs.len() ==> (#[trigger] vs[i]).typ == t,
    ensures
        fold_entries(acc, pairs_of(vs), t) == acc + vs,
    decreases vs.len(),
{
    if vs.len() == 0 {
        assert(pairs_of(vs).len() == 0);
        assert(acc + vs =~= acc);
    } else {
        let v = vs[0];
        let rest = vs.drop_first();
        assert(pairs_of(vs)[0] == (v.key, v.value));
        let built = V1VarV { key: v.key, value: v.value, typ: t };
        assert(built =~= v);
        v1v2::lemma_find_key_props(acc, v.key);
        match find_key(acc, v.key) {
            Option::Some(i) => {
                assert((acc + vs)[i].key == (acc + vs)[acc.len() as int].key);
                assert(false);
            },
            Option::None => {},
        }
        assert(upsert(acc, built) =~= acc.push(v));
        assert(pairs_of(vs).drop_first() =~= pairs_of(rest));
        assert(acc.push(v) + rest =~= acc + vs);
        lemma_fold_pairs(acc.push(v), rest, t);
        assert(fold_entries(acc, pairs_of(vs), t) == fold_entries(
            acc.push(v),
            pairs_of(rest),
            t,
        ));
    }
}

/// A serialized section decodes back to itself: its header round-trips,
/// and the entry walk stops at the first padding byte.  The window may
/// extend past the section.
proof fn lemma_section_roundtrip(w: Seq<u8>, s: SecV)
    requires
        chrp_wf(s.header),
        unique_keys(s.vars),
        forall|i: int| 0 <= i < s.vars.len() ==> clean_var(#[trigger] s.vars[i]),
        forall|i: int|
            0 <= i < s.vars.len() ==> (#[trigger] s.vars[i]).typ == section_kind(s.header.name),
        sec_content(s).len() < spec_sec_size_bytes(s),
        sec_content(s).len() < w.len(),
        w.subrange(0, sec_content(s).len() as int) == sec_content(s),
        w[sec_content(s).len() as int] == 0,
    ensures
        spec_parse_section(w) == Some(s),
{
    let content = sec_content(s);
    assert(w.len() >= 16);
    assert(w.subrange(0, 16) =~= spec_chrp_bytes(s.header)) by {
        assert(forall|j: int| 0 <= j < content.len() ==> #[trigger] w[j] == content[j]);
        assert(spec_chrp_bytes(s.header).len() == 16);
    }
    lemma_chrp_roundtrip(w, s.header);
    assert(w.subrange(16, 16 + entries_bytes(s.vars).len() as int) =~= entries_bytes(s.vars)) by {
        assert(forall|j: int| 0 <= j < content.len() ==> #[trigger] w[j] == content[j]);
        assert(forall|j: int|
            0 <= j < entries_bytes(s.vars).len() ==> #[trigger] entries_bytes(s.vars)[j]
                == content[16 + j]);
    }
    lemma_entries_roundtrip(w, 16, s.vars);
    assert(Seq::<V1VarV>::empty() + s.vars =~= s.vars);
    lemma_fold_pairs(Seq::empty(), s.vars, section_kind(s.header.name));
    match spec_parse_section(w) {
        Option::Some(got) => {
            assert(got =~= s);
        },
        Option::None => {
            assert(false);
        },
    }
}

/// Serializing a bank and decoding the bytes yields the bank back: the
/// CHRP codec round-trips every bank whose headers are named as the format
/// demands, whose record keys are unique and free of `=` and zero bytes,
/// whose values are free of zero bytes, and whose sections leave at least
/// one byte of padding.
pub proof fn lemma_v1v2_partition_roundtrip(p: PartV1)
    requires
        v1v2_bank_canonical(p),
    ensures
        v1v2::spec_parse_partition(spec_part_v1_bytes(p)) == Some(p),
{
    let body = body_bytes(p);
    let hb = spec_chrp_bytes(p.header);
    let ab = crate::spec_le32_bytes(adler32_of(body));
    let gb = crate::spec_le32_bytes(p.generation);
    let z8 = Seq::new(8, |j: int| 0u8);
    let sc = sec_bytes(p.common);
    let ss = sec_bytes(p.system);
    let b = spec_part_v1_bytes(p);
    let s1b = spec_sec_size_bytes(p.common);
    let s2b = spec_sec_size_bytes(p.system);
    crate::lemma_le32_roundtrip(adler32_of(body));
    crate::lemma_le32_roundtrip(p.generation);
    assert(sc.len() == s1b);
    assert(ss.len() == s2b);
    assert(sec_content(p.common).len() >= 16);
    assert(sec_content(p.system).len() >= 16);
    assert(hb.len() == 16);
    assert(b =~= hb + ab + gb + z8 + sc + ss);
    assert(b.len() == 32 + s1b + s2b);
    // the partition header
    assert(b.subrange(0, 16) =~= hb);
    lemma_chrp_roundtrip(b, p.header);
    // the stored integrity word and the generation
    assert(b.subrange(16, 20) =~= ab);
    assert(b.subrange(20, 24) =~= gb);
    // the first section
    let wa = b.subrange(32, b.len() as int);
    assert(wa =~= sc + ss);
    assert(wa.subrange(0, sec_content(p.common).len() as int) =~= sec_content(p.common)) by {
        assert(forall|j: int| 0 <= j < sc.len() ==> #[trigger] wa[j] == sc[j]);
        assert(forall|j: int|
            0 <= j < sec_content(p.common).len() ==> #[trigger] sc[j] == sec_content(p.common)[j]);
    }
    assert(wa[sec_content(p.common).len() as int] == sc[sec_content(p.common).len() as int]);
    assert(sc[sec_content(p.common).len() as int] == 0);
    lemma_section_roundtrip(wa, p.common);
    // the second section
    let wb = b.subrange(32 + s1b, b.len() as int);
    assert(wb =~= ss);
    assert(wb.subrange(0, sec_content(p.system).len() as int) =~= sec_content(p.system)) by {
        assert(forall|j: int|
            0 <= j < sec_content(p.system).len() ==> #[trigger] ss[j] == sec_content(
                p.system,
            )[j]);
    }
    assert(wb[sec_content(p.system).len() as int] == 0);
    lemma_section_roundtrip(wb, p.system);
    // the integrity word covers the generation up to the second section's
    // end, which is the whole serialized body
    assert(b.subrange(20, 32 + s1b + s2b) =~= body);
    // the sections are told apart by their names
    assert(common_name() != system_name()) by {
        assert(common_name()[0] == 0x63);
        assert(system_name()[0] == 0x73);
    }
    match v1v2::spec_parse_partition(b) {
        Option::Some(got) => {
            assert(got =~= p);
        },
        Option::None => {
            assert(false);
        },
    }
}

/// A journal bank that serializing and re-decoding keeps byte-exactly:
/// well-formed records that fit the declared store size.
pub open spec fn v3_bank_canonical(p: PartV) -> bool {
    &&& forall|i: int| 0 <= i < p.vars.len() ==> var_wf(#[trigger] p.vars[i])
    &&& spec_total_used(p) <= p.header.size
}

/// The length of a concatenated image whose banks all declare the bank
/// size, and the window each bank occupies in it.
proof fn lemma_parts_bytes_windows(ps: Seq<PartV>)
    requires
        forall|i: int| 0 <= i < ps.len() ==> v3_bank_canonical(#[trigger] ps[i]),
        forall|i: int|
            0 <= i < ps.len() ==> (#[trigger] ps[i]).header.size == PARTITION_SIZE as u32,
    ensures
        parts_bytes(ps).len() == ps.len() * PARTITION_SIZE,
        forall|i: int|
            0 <= i < ps.len() ==> parts_bytes(ps).subrange(
                i * PARTITION_SIZE,
                (i + 1) * PARTITION_SIZE,
            ) == spec_part_bytes(#[trigger] ps[i]),
    decreases ps.len(),
{
    if ps.len() == 0 {
    } else {
        let head = ps[0];
        let rest = ps.drop_first();
        lemma_vars_bytes_len(head.vars);
        crate::v3::lemma_sums_bounds(head.vars, Seq::empty());
        assert(spec_part_bytes(head).len() == PARTITION_SIZE);
        assert(forall|i: int| 0 <= i < rest.len() ==> v3_bank_canonical(#[trigger] rest[i]));
        assert(forall|i: int|
            0 <= i < rest.len() ==> (#[trigger] rest[i]).header.size == PARTITION_SIZE as u32);
        lemma_parts_bytes_windows(rest);
        assert(parts_bytes(ps) == spec_part_bytes(head) + parts_bytes(rest));
        assert forall|i: int| 0 <= i < ps.len() implies parts_bytes(ps).subrange(
            i * PARTITION_SIZE,
            (i + 1) * PARTITION_SIZE,
        ) == spec_part_bytes(#[trigger] ps[i]) by {
            if i == 0 {
                assert(parts_bytes(ps).subrange(0, PARTITION_SIZE as int) =~= spec_part_bytes(
                    head,
                ));
            } else {
                vstd::arithmetic::mul::lemma_mul_inequality(1, i, PARTITION_SIZE as int);
                assert(parts_bytes(ps).subrange(i * PARTITION_SIZE, (i + 1) * PARTITION_SIZE)
                    =~= parts_bytes(rest).subrange(
                    (i - 1) * PARTITION_SIZE,
                    i * PARTITION_SIZE,
                )) by {
                    assert((i - 1) * PARTITION_SIZE == i * PARTITION_SIZE - PARTITION_SIZE)
                        by (nonlinear_arith);
                    assert(forall|j: int|
                        0 <= j < parts_bytes(rest).len() ==> #[trigger] parts_bytes(rest)[j]
                            == parts_bytes(ps)[PARTITION_SIZE + j]);
                }
                assert(rest[i - 1] == ps[i]);
            }
        }
    }
}

/// Serializing a whole journal image whose banks are all valid, canonical
/// and full-bank-sized, then decoding the bytes, yields the same banks and
/// elects the same active bank.
pub proof fn lemma_v3_image_roundtrip(ps: Seq<PartV>)
    requires
        1 <= ps.len() <= 16,
        forall|i: int| 0 <= i < ps.len() ==> v3_bank_canonical(#[trigger] ps[i]),
        forall|i: int|
            0 <= i < ps.len() ==> (#[trigger] ps[i]).header.size == PARTITION_SIZE as u32,
    ensures
        spec_parse_banks(parts_bytes(ps)) == ps.map_values(|p: PartV| BankState::Valid(p)),
        spec_pick_active(spec_parse_banks(parts_bytes(ps))) == spec_pick_active(
            ps.map_values(|p: PartV| BankState::Valid(p)),
        ),
{
    let b = parts_bytes(ps);
    lemma_parts_bytes_windows(ps);
    assert(b.len() == ps.len() * PARTITION_SIZE);
    vstd::arithmetic::div_mod::lemma_div_multiples_vanish(ps.len() as int, PARTITION_SIZE as int);
    assert((PARTITION_SIZE * ps.len()) / PARTITION_SIZE as int == ps.len());
    assert(ps.len() * PARTITION_SIZE == PARTITION_SIZE * ps.len()) by (nonlinear_arith);
    assert(spec_bank_count(b) == ps.len());
    assert forall|i: int| 0 <= i < ps.len() implies #[trigger] spec_parse_banks(b)[i]
        == BankState::Valid(ps[i]) by {
        assert(spec_bank_window(b, i) == spec_part_bytes(ps[i]));
        lemma_v3_partition_roundtrip(ps[i]);
    }
    assert(spec_parse_banks(b) =~= ps.map_values(|p: PartV| BankState::Valid(p)));
}

/// Serializing a whole two-bank CHRP image whose banks both round-trip and
/// fill their bank exactly, then decoding the bytes, yields the same two
/// banks and elects the same active bank.
pub proof fn lemma_v1v2_image_roundtrip(p0: PartV1, p1: PartV1)
    requires
        v1v2_bank_canonical(p0),
        v1v2_bank_canonical(p1),
        32 + spec_sec_size_bytes(p0.common) + spec_sec_size_bytes(p0.system) == crate::v1v2::BANK_SIZE,
        32 + spec_sec_size_bytes(p1.common) + spec_sec_size_bytes(p1.system) == crate::v1v2::BANK_SIZE,
    ensures
        v1v2::spec_parse_nvram(spec_part_v1_bytes(p0) + spec_part_v1_bytes(p1)) == Some(
            (p0, p1, v1v2::pick_active_v1(p0, p1)),
        ),
{
    let b0 = spec_part_v1_bytes(p0);
    let b1 = spec_part_v1_bytes(p1);
    let b = b0 + b1;
    assert(b0.len() == crate::v1v2::BANK_SIZE);
    assert(b1.len() == crate::v1v2::BANK_SIZE);
    assert(b.subrange(0, crate::v1v2::BANK_SIZE as int) =~= b0);
    assert(b.subrange(crate::v1v2::BANK_SIZE as int, crate::v1v2::IMAGE_SIZE as int) =~= b1);
    lemma_v1v2_partition_roundtrip(p0);
    lemma_v1v2_partition_roundtrip(p1);
}

/// A CHRP bank that serializing and re-decoding keeps: headers named as
/// the format demands, keys unique and clean, and both sections leaving at
/// least one byte of padding.
pub open spec fn v1v2_bank_canonical(p: PartV1) -> bool {
    &&& chrp_wf(p.header)
    &&& p.header.name == nvram_name()
    &&& chrp_wf(p.common.header)
    &&& p.common.header.name == common_name()
    &&& unique_keys(p.common.vars)
    &&& (forall|i: int| 0 <= i < p.common.vars.len() ==> clean_var(#[trigger] p.common.vars[i]))
    &&& (forall|i: int|
        0 <= i < p.common.vars.len() ==> (#[trigger] p.common.vars[i]).typ == VarType::Common)
    &&& sec_content(p.common).len() < spec_sec_size_bytes(p.common)
    &&& chrp_wf(p.system.header)
    &&& p.system.header.name == system_name()
    &&& unique_keys(p.system.vars)
    &&& (forall|i: int| 0 <= i < p.system.vars.len() ==> clean_var(#[trigger] p.system.vars[i]))
    &&& (forall|i: int|
        0 <= i < p.system.vars.len() ==> (#[trigger] p.system.vars[i]).typ == VarType::System)
    &&& sec_content(p.system).len() < spec_sec_size_bytes(p.system)
}

/// Compacting a log to its live records, as a bank rotation does, changes
/// no read: every key and namespace resolves to the same record before and
/// after.
pub proof fn lemma_compaction_preserves_reads(vs: Seq<VarV>, key: Seq<u8>, t: VarType)
    ensures
        spec_get_live(live_only(vs), key, t) == spec_get_live(vs, key, t),
    decreases vs.len(),
{
    if vs.len() == 0 {
    } else {
        let v0 = vs[0];
        let rest = vs.drop_first();
        lemma_compaction_preserves_reads(rest, key, t);
        if v0.state == VAR_ADDED {
            assert(live_only(vs) == seq![v0] + live_only(rest));
            assert((seq![v0] + live_only(rest))[0] == v0);
            assert((seq![v0] + live_only(rest)).drop_first() =~= live_only(rest));
        } else {
            assert(!is_live_match(v0, key, t));
            assert(live_only(vs) == live_only(rest));
        }
    }
}

} // verus!
