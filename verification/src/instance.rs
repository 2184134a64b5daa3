//! Instance names of the per-process GPU counters.
//!
//! An instance of `GPU Process Memory(*)` or `GPU Engine(*)` is named
//! `pid_1234_luid_0x00000000_0x00019F66_phys_0`, engine instances carry a
//! further `_eng_0_engtype_3D`. The name gives the process id and the LUID
//! (high part, low part) of the adapter that the value belongs to.
use vstd::prelude::*;

use crate::text::{
    chars_of, chars_equal, has_prefix, parse_u32, parse_unsigned, split, split_fields,
    starts_with, suffix_from, lemma_split_fields_nonempty,
};

verus! {

/// The LUID of an adapter: (high 32 bits, low 32 bits).
pub type Luid = (u32, u32);

/// `pid_`
pub open spec fn pid_tag() -> Seq<char> {
    seq!['p', 'i', 'd', '_']
}

/// `luid`
pub open spec fn luid_tag() -> Seq<char> {
    seq!['l', 'u', 'i', 'd']
}

/// `0x`
pub open spec fn hex_tag() -> Seq<char> {
    seq!['0', 'x']
}

/// A field `0x` followed by a hexadecimal `u32`.
pub open spec fn hex_field(f: Seq<char>) -> Option<u32> {
    if starts_with(f, hex_tag()) {
        parse_unsigned(f.skip(2), 16)
    } else {
        None
    }
}

/// What an instance name says: `None` unless it is `pid_` followed by a
/// decimal process id; then, when the next `_`-separated field is `luid`, the
/// two fields after it must both be `0x` and a hexadecimal `u32` (else `None`)
/// and give the LUID; without a `luid` field the LUID is absent.
pub open spec fn instance_of(s: Seq<char>) -> Option<(u32, Option<Luid>)> {
    if !starts_with(s, pid_tag()) {
        None
    } else {
        let fs = split_fields(s.skip(4), '_');
        match parse_unsigned(fs[0], 10) {
            None => None,
            Some(pid) => {
                if fs.len() >= 2 && fs[1] == luid_tag() {
                    if fs.len() >= 4 && hex_field(fs[2]) is Some && hex_field(fs[3]) is Some {
                        Some((pid, Some((hex_field(fs[2])->0, hex_field(fs[3])->0))))
                    } else {
                        None
                    }
                } else {
                    Some((pid, None))
                }
            },
        }
    }
}

/// Parses a field `0x` followed by hexadecimal digits.
fn parse_hex_field(f: &Vec<char>) -> (r: Option<u32>)
    ensures
        r == hex_field(f@),
{
    let tag: Vec<char> = vec!['0', 'x'];
    assert(tag@ == hex_tag());
    if !has_prefix(f, &tag) {
        return None;
    }
    let digits = suffix_from(f, 2);
    parse_u32(&digits, 16)
}

/// Splits a counter instance name into process id and adapter LUID.
///
/// `pid_1234_luid_0x00000000_0x00019F66_phys_0_eng_0_engtype_3D` gives
/// `Some((1234, Some((0x0, 0x19F66))))`; a name without a `luid` field gives
/// the process id and no LUID.
pub fn parse_instance(instance: &str) -> (r: Option<(u32, Option<(u32, u32)>)>)
    ensures
        r == instance_of(instance@),
{
    let s = chars_of(instance);
    let tag: Vec<char> = vec!['p', 'i', 'd', '_'];
    assert(tag@ == pid_tag());
    if !has_prefix(&s, &tag) {
        return None;
    }
    let rest = suffix_from(&s, 4);
    let fields = split(&rest, '_');
    let ghost fs = split_fields(s@.skip(4), '_');
    proof {
        lemma_split_fields_nonempty(s@.skip(4), '_');
    }
    let pid = match parse_u32(&fields[0], 10) {
        None => {
            return None;
        },
        Some(p) => p,
    };
    let luid_word: Vec<char> = vec!['l', 'u', 'i', 'd'];
    assert(luid_word@ == luid_tag());
    if fields.len() >= 2 && chars_equal(&fields[1], &luid_word) {
        if fields.len() < 4 {
            return None;
        }
        let high = match parse_hex_field(&fields[2]) {
            None => {
                return None;
            },
            Some(h) => h,
        };
        let low = match parse_hex_field(&fields[3]) {
            None => {
                return None;
            },
            Some(l) => l,
        };
        assert(fs.len() >= 4 && fs[1] == luid_tag());
        Some((pid, Some((high, low))))
    } else {
        Some((pid, None))
    }
}

} // verus!
