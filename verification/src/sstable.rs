//! Immutable on-disk sorted tables.
//!
//! An SSTable carries its file's bytes together with the monotonic index that
//! named the file. The file holds length-prefixed records sorted by key with
//! no duplicates; point lookup is a scan. File names are the eight-digit
//! zero-padded decimal index followed by `.sstable`, so a lexicographic
//! directory listing recovers install order.

use vstd::prelude::*;
use vstd::arithmetic::div_mod::lemma_div_denominator;
use vstd::arithmetic::div_mod::lemma_fundamental_div_mod;
use vstd::arithmetic::div_mod::lemma_fundamental_div_mod_converse;

use crate::codec::check_table_entries;
use crate::codec::decode_entries;
use crate::codec::entries_map;
use crate::codec::entries_sorted;
use crate::codec::entry_views;
use crate::codec::find_value;
use crate::codec::first_match;
use crate::codec::keys_nonempty;
use crate::codec::lemma_first_match_is_map_get;
use crate::codec::lemma_sorted_keys_distinct;
use crate::codec::map_get;
use crate::codec::parse_entries;
use crate::errors::StoreError;
use crate::keys::lex_lt;
use crate::keys::lemma_lex_lt_skip;

verus! {

/// File indices must fit in eight decimal digits for the zero-padded name to
/// sort correctly.
pub const MAX_SSTABLE_INDEX: u32 = 100_000_000;

/// The decimal digit of `i` at place value `p`, as an ASCII byte.
pub open spec fn digit_of(i: int, p: int) -> u8 {
    ((i / p) % 10 + 48) as u8
}

/// The file name of table index `i`: eight zero-padded decimal digits and the
/// `.sstable` suffix.
pub open spec fn name_of_index(i: int) -> Seq<u8> {
    seq![
        digit_of(i, 10_000_000),
        digit_of(i, 1_000_000),
        digit_of(i, 100_000),
        digit_of(i, 10_000),
        digit_of(i, 1_000),
        digit_of(i, 100),
        digit_of(i, 10),
        digit_of(i, 1),
        46u8,
        115u8,
        115u8,
        116u8,
        97u8,
        98u8,
        108u8,
        101u8,
    ]
}

/// An ASCII decimal digit.
pub open spec fn is_ascii_digit(b: u8) -> bool {
    48 <= b <= 57
}

/// The index a file name denotes, if the name is well-formed.
pub open spec fn index_of_name(s: Seq<u8>) -> Option<int> {
    if s.len() == 16 && is_ascii_digit(s[0]) && is_ascii_digit(s[1]) && is_ascii_digit(s[2])
        && is_ascii_digit(s[3]) && is_ascii_digit(s[4]) && is_ascii_digit(s[5]) && is_ascii_digit(
        s[6],
    ) && is_ascii_digit(s[7]) && s[8] == 46 && s[9] == 115 && s[10] == 115 && s[11] == 116 && s[12]
        == 97 && s[13] == 98 && s[14] == 108 && s[15] == 101 {
        Some(
            (s[0] - 48) * 10_000_000 + (s[1] - 48) * 1_000_000 + (s[2] - 48) * 100_000 + (s[3] - 48)
                * 10_000 + (s[4] - 48) * 1_000 + (s[5] - 48) * 100 + (s[6] - 48) * 10 + (s[7] - 48),
        )
    } else {
        None
    }
}

/// Splitting off the decimal digit of `x` at place value `p`: the remainder
/// modulo `10 * p` is that digit's contribution plus the lower places.
proof fn lemma_digit_split(x: int, p: int)
    requires
        x >= 0,
        p > 0,
    ensures
        x % (10 * p) == ((x / p) % 10) * p + x % p,
{
    let q = x / p;
    let r = x % p;
    lemma_fundamental_div_mod(x, p);
    lemma_fundamental_div_mod(q, 10);
    assert(x == (q / 10) * (10 * p) + ((q % 10) * p + r)) by (nonlinear_arith)
        requires
            x == p * q + r,
            q == 10 * (q / 10) + q % 10,
    ;
    assert(0 <= (q % 10) * p + r < 10 * p) by (nonlinear_arith)
        requires
            p > 0,
            0 <= q % 10 < 10,
            0 <= r < p,
    ;
    lemma_fundamental_div_mod_converse(x, 10 * p, q / 10, (q % 10) * p + r);
}

/// A file name built from a legal index parses back to that index.
pub proof fn lemma_name_round_trip(i: int)
    requires
        0 <= i < MAX_SSTABLE_INDEX,
    ensures
        index_of_name(name_of_index(i)) == Some(i),
{
    let s = name_of_index(i);
    lemma_digit_split(i, 10_000_000);
    lemma_digit_split(i, 1_000_000);
    lemma_digit_split(i, 100_000);
    lemma_digit_split(i, 10_000);
    lemma_digit_split(i, 1_000);
    lemma_digit_split(i, 100);
    lemma_digit_split(i, 10);
    lemma_digit_split(i, 1);
    assert(i % 100_000_000 == i) by {
        vstd::arithmetic::div_mod::lemma_small_mod(i as nat, 100_000_000 as nat);
    }
    assert(i % 1 == 0) by {
        lemma_fundamental_div_mod_converse(i, 1, i, 0);
    }
    assert(index_of_name(s) == Some(i));
}

/// Splits the digit at place value `p` off the prefixes of two ordered
/// numbers that agree above that digit: the digits are ordered, and equal
/// digits extend the agreement one place down.
proof fn lemma_prefix_digit(x: int, y: int, p: int)
    requires
        0 <= x <= y,
        p > 0,
        x / (p * 10) == y / (p * 10),
    ensures
        (x / p) % 10 <= (y / p) % 10,
        (x / p) % 10 == (y / p) % 10 ==> x / p == y / p,
{
    lemma_div_denominator(x, p, 10);
    lemma_div_denominator(y, p, 10);
    lemma_fundamental_div_mod(x / p, 10);
    lemma_fundamental_div_mod(y / p, 10);
    vstd::arithmetic::div_mod::lemma_div_is_ordered(x, y, p);
}

/// Zero-padded decimal names sort like their indices: a smaller index gives
/// a lexicographically smaller name, so a directory listing in name order is
/// a listing in install order.
/// Two names that agree before position `k` and are ordered at `k` are
/// ordered lexicographically.
proof fn lemma_name_lt_at(i: int, j: int, k: int)
    requires
        0 <= k < 8,
        forall|m: int| 0 <= m < k ==> name_of_index(i)[m] == name_of_index(j)[m],
        name_of_index(i)[k] < name_of_index(j)[k],
    ensures
        lex_lt(name_of_index(i), name_of_index(j)),
{
    let sa = name_of_index(i);
    let sb = name_of_index(j);
    lemma_lex_lt_skip(sa, sb, k);
    assert(sa.skip(k)[0] == sa[k] && sb.skip(k)[0] == sb[k]);
    assert(lex_lt(sa.skip(k), sb.skip(k)));
}

/// Zero-padded decimal names sort like their indices: a smaller index gives
/// a lexicographically smaller name, so a directory listing in name order is
/// a listing in install order.
pub proof fn lemma_name_order(i: int, j: int)
    requires
        0 <= i < j < MAX_SSTABLE_INDEX,
    ensures
        lex_lt(name_of_index(i), name_of_index(j)),
{
    assert(i / 100_000_000 == 0 && j / 100_000_000 == 0);
    lemma_prefix_digit(i, j, 10_000_000);
    if digit_of(i, 10_000_000) != digit_of(j, 10_000_000) {
        lemma_name_lt_at(i, j, 0);
    } else {
        lemma_prefix_digit(i, j, 1_000_000);
        if digit_of(i, 1_000_000) != digit_of(j, 1_000_000) {
            lemma_name_lt_at(i, j, 1);
        } else {
            lemma_prefix_digit(i, j, 100_000);
            if digit_of(i, 100_000) != digit_of(j, 100_000) {
                lemma_name_lt_at(i, j, 2);
            } else {
                lemma_prefix_digit(i, j, 10_000);
                if digit_of(i, 10_000) != digit_of(j, 10_000) {
                    lemma_name_lt_at(i, j, 3);
                } else {
                    lemma_prefix_digit(i, j, 1_000);
                    if digit_of(i, 1_000) != digit_of(j, 1_000) {
                        lemma_name_lt_at(i, j, 4);
                    } else {
                        lemma_prefix_digit(i, j, 100);
                        if digit_of(i, 100) != digit_of(j, 100) {
                            lemma_name_lt_at(i, j, 5);
                        } else {
                            lemma_prefix_digit(i, j, 10);
                            if digit_of(i, 10) != digit_of(j, 10) {
                                lemma_name_lt_at(i, j, 6);
                            } else {
                                lemma_prefix_digit(i, j, 1);
                                assert(i / 1 == i && j / 1 == j);
                                assert(digit_of(i, 1) != digit_of(j, 1));
                                lemma_name_lt_at(i, j, 7);
                            }
                        }
                    }
                }
            }
        }
    }
}

/// Formats a table index as its file name.
pub fn format_sstable_name(index: u32) -> (r: Vec<u8>)
    requires
        index < MAX_SSTABLE_INDEX,
    ensures
        r@ == name_of_index(index as int),
{
    let mut out: Vec<u8> = Vec::new();
    out.push(((index / 10_000_000) % 10) as u8 + 48);
    out.push(((index / 1_000_000) % 10) as u8 + 48);
    out.push(((index / 100_000) % 10) as u8 + 48);
    out.push(((index / 10_000) % 10) as u8 + 48);
    out.push(((index / 1_000) % 10) as u8 + 48);
    out.push(((index / 100) % 10) as u8 + 48);
    out.push(((index / 10) % 10) as u8 + 48);
    out.push((index % 10) as u8 + 48);
    out.push(46);
    out.push(115);
    out.push(115);
    out.push(116);
    out.push(97);
    out.push(98);
    out.push(108);
    out.push(101);
    proof {
        assert(out@ =~= name_of_index(index as int));
    }
    out
}

/// Parses a file name; `None` when it is not an eight-digit zero-padded index
/// followed by `.sstable`.
pub fn parse_sstable_name(name: &Vec<u8>) -> (r: Option<u32>)
    ensures
        match r {
            Some(i) => i < MAX_SSTABLE_INDEX && index_of_name(name@) == Some(i as int),
            None => index_of_name(name@) is None,
        },
{
    if name.len() != 16 {
        return None;
    }
    if name[8] != 46 || name[9] != 115 || name[10] != 115 || name[11] != 116 || name[12] != 97
        || name[13] != 98 || name[14] != 108 || name[15] != 101 {
        return None;
    }
    let mut j: usize = 0;
    while j < 8
        invariant
            j <= 8,
            name@.len() == 16,
            forall|m: int| 0 <= m < j ==> is_ascii_digit(name@[m]),
        decreases 8 - j,
    {
        if name[j] < 48 || name[j] > 57 {
            return None;
        }
        j = j + 1;
    }
    let index: u32 = ((name[0] - 48) as u32) * 10_000_000 + ((name[1] - 48) as u32) * 1_000_000 + ((
    name[2] - 48) as u32) * 100_000 + ((name[3] - 48) as u32) * 10_000 + ((name[4] - 48) as u32)
        * 1_000 + ((name[5] - 48) as u32) * 100 + ((name[6] - 48) as u32) * 10 + ((name[7]
        - 48) as u32);
    Some(index)
}

/// Well-formed contents for an SSTable file: the bytes parse as records whose
/// keys are non-empty and strictly ascending.
pub open spec fn table_bytes_wf(b: Seq<u8>) -> bool {
    &&& parse_entries(b) is Some
    &&& entries_sorted(parse_entries(b).unwrap())
    &&& keys_nonempty(parse_entries(b).unwrap())
}

/// An immutable sorted table: the contents of one file, and the monotonic
/// index that named it. A higher index holds logically newer versions.
pub struct SSTable {
    /// The index encoded in the file's name.
    pub index: u32,
    /// The file's bytes.
    pub data: Vec<u8>,
}

impl SSTable {
    /// The records the table holds, in file order.
    pub open spec fn entries(&self) -> Seq<(Seq<u8>, Seq<u8>)> {
        parse_entries(self.data@).unwrap()
    }

    /// Well-formedness: the bytes parse, keys non-empty and strictly
    /// ascending, and the index small enough for its file name.
    pub open spec fn wf(&self) -> bool {
        &&& table_bytes_wf(self.data@)
        &&& self.index < MAX_SSTABLE_INDEX
    }

    /// The mapping from keys to values that the table holds.
    pub open spec fn as_map(&self) -> Map<Seq<u8>, Seq<u8>> {
        entries_map(self.entries())
    }

    /// Validates file contents and wraps them as a table. Rejects bytes that
    /// do not parse, or whose keys are empty, unsorted or duplicated.
    pub fn new(index: u32, data: Vec<u8>) -> (r: Result<SSTable, StoreError>)
        requires
            index < MAX_SSTABLE_INDEX,
        ensures
            match r {
                Ok(t) => {
                    &&& table_bytes_wf(data@)
                    &&& t.wf()
                    &&& t.index == index
                    &&& t.data@ == data@
                },
                Err(e) => e == StoreError::MalformedFile && !table_bytes_wf(data@),
            },
    {
        let entries = match decode_entries(&data) {
            Ok(entries) => entries,
            Err(e) => {
                return Err(e);
            },
        };
        if !check_table_entries(&entries) {
            return Err(StoreError::MalformedFile);
        }
        Ok(SSTable { index, data })
    }

    /// Point lookup: scans the file for `key` and returns its value, or
    /// absent when no record carries the key.
    pub fn get(&self, key: &Vec<u8>) -> (r: Option<Vec<u8>>)
        requires
            self.wf(),
        ensures
            r.deep_view() == map_get(self.as_map(), key@),
    {
        match find_value(&self.data, key) {
            Ok(r) => {
                proof {
                    lemma_sorted_keys_distinct(self.entries());
                    lemma_first_match_is_map_get(self.entries(), key@);
                }
                r
            },
            Err(_) => {
                proof {
                    assert(false);
                }
                None
            },
        }
    }
}

} // verus!
