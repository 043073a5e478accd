//! The record codec.
//!
//! A record is `key_len : u16 big-endian | key | value_len : u16 big-endian |
//! value`; an SSTable file is a plain concatenation of records. Lengths are
//! unsigned, so an empty value is legal. This module defines the byte format
//! once, as spec functions (`encode_entry`, `encode_entries`, `parse_entries`),
//! and proves the executable writer and scanner against them.

use vstd::prelude::*;

use crate::errors::StoreError;
use crate::keys::lex_lt;
use crate::keys::lemma_lex_lt_asymmetric;
use crate::keys::lemma_lex_lt_transitive;
use crate::keys::key_compare;
use crate::keys::KeyOrder;

verus! {

/// The largest legal key or value length.
pub const MAX_FIELD_LEN: usize = 65535;

/// The value of a big-endian two-byte length prefix.
pub open spec fn be16(hi: u8, lo: u8) -> int {
    hi * 256 + lo
}

/// The two-byte big-endian encoding of a length.
pub open spec fn len_bytes(n: int) -> Seq<u8>
    recommends
        0 <= n <= MAX_FIELD_LEN,
{
    seq![(n / 256) as u8, (n % 256) as u8]
}

/// A key/value pair small enough to serialize.
pub open spec fn entry_fits(key: Seq<u8>, value: Seq<u8>) -> bool {
    key.len() <= MAX_FIELD_LEN && value.len() <= MAX_FIELD_LEN
}

/// Every pair of the sequence is small enough to serialize.
pub open spec fn entries_fit(es: Seq<(Seq<u8>, Seq<u8>)>) -> bool {
    forall|i: int| 0 <= i < es.len() ==> entry_fits(#[trigger] es[i].0, es[i].1)
}

/// The byte encoding of one record.
pub open spec fn encode_entry(key: Seq<u8>, value: Seq<u8>) -> Seq<u8>
    recommends
        entry_fits(key, value),
{
    len_bytes(key.len() as int) + key + len_bytes(value.len() as int) + value
}

/// The byte encoding of a sequence of records, in order.
pub open spec fn encode_entries(es: Seq<(Seq<u8>, Seq<u8>)>) -> Seq<u8>
    decreases es.len(),
{
    if es.len() == 0 {
        Seq::empty()
    } else {
        encode_entry(es[0].0, es[0].1) + encode_entries(es.skip(1))
    }
}

/// Parses a byte string as a concatenation of records. `None` when the bytes
/// end in the middle of a record.
pub open spec fn parse_entries(b: Seq<u8>) -> Option<Seq<(Seq<u8>, Seq<u8>)>>
    decreases b.len(),
{
    if b.len() == 0 {
        Some(Seq::empty())
    } else if b.len() < 2 {
        None
    } else {
        let kl = be16(b[0], b[1]);
        if 2 + kl + 2 > b.len() {
            None
        } else {
            let vl = be16(b[2 + kl], b[3 + kl]);
            if 2 + kl + 2 + vl > b.len() {
                None
            } else {
                let key = b.subrange(2, 2 + kl);
                let value = b.subrange(4 + kl, 4 + kl + vl);
                match parse_entries(b.skip(4 + kl + vl)) {
                    Some(rest) => Some(seq![(key, value)] + rest),
                    None => None,
                }
            }
        }
    }
}

/// The value of the first record whose key is `key`, scanning from the front.
pub open spec fn first_match(es: Seq<(Seq<u8>, Seq<u8>)>, key: Seq<u8>) -> Option<Seq<u8>>
    decreases es.len(),
{
    if es.len() == 0 {
        None
    } else if es[0].0 == key {
        Some(es[0].1)
    } else {
        first_match(es.skip(1), key)
    }
}

/// The mapping a sequence of records denotes, later records overriding
/// earlier ones with the same key.
pub open spec fn entries_map(es: Seq<(Seq<u8>, Seq<u8>)>) -> Map<Seq<u8>, Seq<u8>>
    decreases es.len(),
{
    if es.len() == 0 {
        Map::empty()
    } else {
        entries_map(es.drop_last()).insert(es.last().0, es.last().1)
    }
}

/// Looks a key up in a map, as an option.
pub open spec fn map_get(m: Map<Seq<u8>, Seq<u8>>, key: Seq<u8>) -> Option<Seq<u8>> {
    if m.dom().contains(key) {
        Some(m[key])
    } else {
        None
    }
}

/// Keys are strictly ascending in byte-lexicographic order.
pub open spec fn entries_sorted(es: Seq<(Seq<u8>, Seq<u8>)>) -> bool {
    forall|i: int, j: int| 0 <= i < j < es.len() ==> lex_lt(#[trigger] es[i].0, #[trigger] es[j].0)
}

/// No two records share a key.
pub open spec fn keys_distinct(es: Seq<(Seq<u8>, Seq<u8>)>) -> bool {
    forall|i: int, j: int| 0 <= i < j < es.len() ==> (#[trigger] es[i].0) != (#[trigger] es[j].0)
}

/// Every key has at least one byte.
pub open spec fn keys_nonempty(es: Seq<(Seq<u8>, Seq<u8>)>) -> bool {
    forall|i: int| 0 <= i < es.len() ==> (#[trigger] es[i].0).len() >= 1
}

/// The mathematical contents of a vector of owned pairs.
pub open spec fn entry_views(es: Seq<(Vec<u8>, Vec<u8>)>) -> Seq<(Seq<u8>, Seq<u8>)> {
    es.map_values(|p: (Vec<u8>, Vec<u8>)| (p.0@, p.1@))
}

/// The two length-prefix bytes of a legal length decode back to it.
pub proof fn lemma_len_bytes(n: int)
    requires
        0 <= n <= MAX_FIELD_LEN,
    ensures
        len_bytes(n).len() == 2,
        0 <= n / 256 < 256,
        0 <= n % 256 < 256,
        be16(len_bytes(n)[0], len_bytes(n)[1]) == n,
{
    assert(0 <= n / 256 < 256);
    assert(0 <= n % 256 < 256);
    assert(256 * (n / 256) + n % 256 == n);
}

/// Encoding distributes over concatenation of record sequences.
pub proof fn lemma_encode_entries_app(a: Seq<(Seq<u8>, Seq<u8>)>, b: Seq<(Seq<u8>, Seq<u8>)>)
    ensures
        encode_entries(a + b) == encode_entries(a) + encode_entries(b),
    decreases a.len(),
{
    if a.len() == 0 {
        assert(a + b =~= b);
        assert(encode_entries(a) + encode_entries(b) =~= encode_entries(b));
    } else {
        assert((a + b).skip(1) =~= a.skip(1) + b);
        lemma_encode_entries_app(a.skip(1), b);
        assert(encode_entry((a + b)[0].0, (a + b)[0].1) == encode_entry(a[0].0, a[0].1));
        assert(encode_entry(a[0].0, a[0].1) + (encode_entries(a.skip(1)) + encode_entries(b))
            =~= (encode_entry(a[0].0, a[0].1) + encode_entries(a.skip(1))) + encode_entries(b));
    }
}

/// A record sequence round-trips through the codec: parsing its encoding
/// yields it back.
pub proof fn lemma_parse_encode_entries(es: Seq<(Seq<u8>, Seq<u8>)>)
    requires
        entries_fit(es),
    ensures
        parse_entries(encode_entries(es)) == Some(es),
    decreases es.len(),
{
    if es.len() == 0 {
        assert(encode_entries(es) =~= Seq::<u8>::empty());
        assert(parse_entries(encode_entries(es)) == Some(Seq::<(Seq<u8>, Seq<u8>)>::empty()));
        assert(es =~= Seq::<(Seq<u8>, Seq<u8>)>::empty());
    } else {
        let key = es[0].0;
        let value = es[0].1;
        let kl = key.len() as int;
        let vl = value.len() as int;
        let head = encode_entry(key, value);
        let rest = encode_entries(es.skip(1));
        let b = encode_entries(es);
        assert(b == head + rest);
        lemma_len_bytes(kl);
        lemma_len_bytes(vl);
        assert(head.len() == 4 + kl + vl);
        assert(b[0] == len_bytes(kl)[0] && b[1] == len_bytes(kl)[1]);
        assert(be16(b[0], b[1]) == kl);
        assert(b.len() >= 4 + kl + vl);
        assert(b[2 + kl] == len_bytes(vl)[0]) by {
            assert(head[2 + kl] == len_bytes(vl)[0]);
        }
        assert(b[3 + kl] == len_bytes(vl)[1]) by {
            assert(head[3 + kl] == len_bytes(vl)[1]);
        }
        assert(be16(b[2 + kl], b[3 + kl]) == vl);
        assert(b.subrange(2, 2 + kl) =~= key);
        assert(b.subrange(4 + kl, 4 + kl + vl) =~= value);
        assert(b.skip(4 + kl + vl) =~= rest);
        assert(entries_fit(es.skip(1)));
        lemma_parse_encode_entries(es.skip(1));
        assert(parse_entries(b) == Some(seq![(key, value)] + es.skip(1)));
        assert(seq![(key, value)] + es.skip(1) =~= es);
    }
}

/// Records obtained by parsing always fit: a two-byte length prefix cannot
/// name a longer field.
pub proof fn lemma_parse_entries_fit(b: Seq<u8>)
    requires
        parse_entries(b) is Some,
    ensures
        entries_fit(parse_entries(b).unwrap()),
    decreases b.len(),
{
    if b.len() > 0 {
        let kl = be16(b[0], b[1]);
        let vl = be16(b[2 + kl], b[3 + kl]);
        let es = parse_entries(b).unwrap();
        let rest = parse_entries(b.skip(4 + kl + vl));
        lemma_parse_entries_fit(b.skip(4 + kl + vl));
        assert(es == seq![(b.subrange(2, 2 + kl), b.subrange(4 + kl, 4 + kl + vl))]
            + rest.unwrap());
        assert forall|i: int| 0 <= i < es.len() implies entry_fits(
            (#[trigger] es[i]).0,
            es[i].1,
        ) by {
            if i > 0 {
                assert(es[i] == rest.unwrap()[i - 1]);
                assert(entry_fits(rest.unwrap()[i - 1].0, rest.unwrap()[i - 1].1));
            }
        }
    }
}

/// A key is in the denoted map exactly when some record carries it.
pub proof fn lemma_entries_map_dom(es: Seq<(Seq<u8>, Seq<u8>)>, key: Seq<u8>)
    ensures
        entries_map(es).dom().contains(key) <==> (exists|i: int|
            0 <= i < es.len() && (#[trigger] es[i].0) == key),
    decreases es.len(),
{
    if es.len() > 0 {
        lemma_entries_map_dom(es.drop_last(), key);
        if entries_map(es).dom().contains(key) {
            if key == es.last().0 {
                assert(es[es.len() - 1].0 == key);
            } else {
                let i = choose|i: int|
                    0 <= i < es.drop_last().len() && (#[trigger] es.drop_last()[i].0) == key;
                assert(es[i].0 == key);
            }
        }
        if exists|i: int| 0 <= i < es.len() && (#[trigger] es[i].0) == key {
            let i = choose|i: int| 0 <= i < es.len() && (#[trigger] es[i].0) == key;
            if i < es.len() - 1 {
                assert(es.drop_last()[i].0 == key);
            }
        }
    }
}

/// With distinct keys, the denoted map sends each record's key to its value.
pub proof fn lemma_entries_map_value(es: Seq<(Seq<u8>, Seq<u8>)>, i: int)
    requires
        keys_distinct(es),
        0 <= i < es.len(),
    ensures
        entries_map(es).dom().contains(es[i].0),
        entries_map(es)[es[i].0] == es[i].1,
    decreases es.len(),
{
    if i == es.len() - 1 {
    } else {
        assert(keys_distinct(es.drop_last()));
        lemma_entries_map_value(es.drop_last(), i);
        assert(es[i].0 != es.last().0);
    }
}

/// The denoted map is finite, and with distinct keys it has exactly one
/// element per record.
pub proof fn lemma_entries_map_len(es: Seq<(Seq<u8>, Seq<u8>)>)
    requires
        keys_distinct(es),
    ensures
        entries_map(es).dom().finite(),
        entries_map(es).dom().len() == es.len(),
    decreases es.len(),
{
    if es.len() > 0 {
        assert(keys_distinct(es.drop_last()));
        lemma_entries_map_len(es.drop_last());
        lemma_entries_map_dom(es.drop_last(), es.last().0);
        assert(!entries_map(es.drop_last()).dom().contains(es.last().0));
    }
}

/// Strictly ascending keys are distinct.
pub proof fn lemma_sorted_keys_distinct(es: Seq<(Seq<u8>, Seq<u8>)>)
    requires
        entries_sorted(es),
    ensures
        keys_distinct(es),
{
    assert forall|i: int, j: int| 0 <= i < j < es.len() implies (#[trigger] es[i].0)
        != (#[trigger] es[j].0) by {
        lemma_lex_lt_asymmetric(es[i].0, es[j].0);
    }
}

/// Appends a copy of `src` to `dst`.
fn push_all(dst: &mut Vec<u8>, src: &Vec<u8>)
    ensures
        final(dst)@ == old(dst)@ + src@,
{
    let mut j: usize = 0;
    while j < src.len()
        invariant
            j <= src@.len(),
            dst@ == old(dst)@ + src@.take(j as int),
        decreases src@.len() - j,
    {
        let byte = src[j];
        dst.push(byte);
        proof {
            assert(old(dst)@ + src@.take(j + 1) =~= (old(dst)@ + src@.take(j as int)).push(
                src@[j as int],
            ));
        }
        j = j + 1;
    }
    proof {
        assert(src@.take(src@.len() as int) =~= src@);
    }
}

/// Appends the two-byte big-endian encoding of `n` to `dst`.
fn write_len(dst: &mut Vec<u8>, n: usize)
    requires
        n <= MAX_FIELD_LEN,
    ensures
        final(dst)@ == old(dst)@ + len_bytes(n as int),
{
    proof {
        lemma_len_bytes(n as int);
    }
    dst.push((n / 256) as u8);
    dst.push((n % 256) as u8);
    proof {
        assert(old(dst)@ + len_bytes(n as int) =~= old(dst)@.push((n as int / 256) as u8).push(
            (n as int % 256) as u8,
        ));
    }
}

/// Serializes one record. Rejects a key or value longer than 65 535 bytes;
/// nothing is produced then.
pub fn serialize_entry(key: &Vec<u8>, value: &Vec<u8>) -> (r: Result<Vec<u8>, StoreError>)
    ensures
        match r {
            Ok(bytes) => entry_fits(key@, value@) && bytes@ == encode_entry(key@, value@),
            Err(e) => e == StoreError::OversizedField && !entry_fits(key@, value@),
        },
{
    if key.len() > MAX_FIELD_LEN || value.len() > MAX_FIELD_LEN {
        return Err(StoreError::OversizedField);
    }
    let mut out: Vec<u8> = Vec::new();
    write_len(&mut out, key.len());
    push_all(&mut out, key);
    write_len(&mut out, value.len());
    push_all(&mut out, value);
    proof {
        assert(out@ =~= encode_entry(key@, value@));
    }
    Ok(out)
}

/// Serializes a sequence of records, in order. Rejects the first record whose
/// key or value is longer than 65 535 bytes.
pub fn serialize_values(values: &Vec<(Vec<u8>, Vec<u8>)>) -> (r: Result<Vec<u8>, StoreError>)
    ensures
        match r {
            Ok(bytes) => entries_fit(entry_views(values@)) && bytes@ == encode_entries(
                entry_views(values@),
            ),
            Err(e) => e == StoreError::OversizedField && !entries_fit(entry_views(values@)),
        },
{
    let ghost es = entry_views(values@);
    let mut out: Vec<u8> = Vec::new();
    let mut i: usize = 0;
    while i < values.len()
        invariant
            i <= values@.len(),
            es == entry_views(values@),
            entries_fit(es.take(i as int)),
            out@ == encode_entries(es.take(i as int)),
        decreases values@.len() - i,
    {
        let mut piece = match serialize_entry(&values[i].0, &values[i].1) {
            Ok(piece) => piece,
            Err(e) => {
                proof {
                    assert(es[i as int] == (values@[i as int].0@, values@[i as int].1@));
                    assert(!entry_fits(es[i as int].0, es[i as int].1));
                }
                return Err(e);
            },
        };
        out.append(&mut piece);
        proof {
            let e = es[i as int];
            assert(e == (values@[i as int].0@, values@[i as int].1@));
            assert(es.take(i + 1) =~= es.take(i as int) + seq![e]);
            lemma_encode_entries_app(es.take(i as int), seq![e]);
            assert(seq![e].skip(1) =~= Seq::<(Seq<u8>, Seq<u8>)>::empty());
            assert(encode_entries(seq![e].skip(1)) == Seq::<u8>::empty());
            assert(seq![e][0] == e);
            assert(encode_entries(seq![e]) == encode_entry(e.0, e.1) + encode_entries(
                seq![e].skip(1),
            ));
            assert(encode_entries(seq![e]) =~= encode_entry(e.0, e.1));
        }
        i = i + 1;
    }
    proof {
        assert(es.take(values@.len() as int) =~= es);
    }
    Ok(out)
}

/// The datum whose length prefix starts at `pos` lies entirely within `b`.
pub open spec fn datum_fits(b: Seq<u8>, pos: int) -> bool {
    pos + 2 <= b.len() && pos + 2 + be16(b[pos], b[pos + 1]) <= b.len()
}

/// Reads the next length-prefixed datum: decodes the `u16` prefix at `*pos`,
/// fills `buffer[..length]` with the datum, advances `*pos` past it and
/// returns the length. The scratch buffer only ever grows, and only to the
/// length needed. Fails with `UnexpectedEof` at a clean end of input on the
/// prefix, and with `TruncatedRecord` when the prefix or the body extends
/// past the end.
pub fn read_next_datum(data: &Vec<u8>, pos: &mut usize, buffer: &mut Vec<u8>) -> (r: Result<
    usize,
    StoreError,
>)
    requires
        *old(pos) <= data@.len(),
    ensures
        r is Ok <==> datum_fits(data@, *old(pos) as int),
        match r {
            Ok(n) => {
                &&& n == be16(data@[*old(pos) as int], data@[*old(pos) + 1])
                &&& *final(pos) == *old(pos) + 2 + n
                &&& *final(pos) <= data@.len()
                &&& final(buffer)@.len() == if old(buffer)@.len() >= n {
                    old(buffer)@.len() as int
                } else {
                    n as int
                }
                &&& final(buffer)@.subrange(0, n as int) == data@.subrange(
                    *old(pos) + 2,
                    *old(pos) + 2 + n,
                )
            },
            Err(e) => {
                &&& *final(pos) == *old(pos)
                &&& final(buffer)@ == old(buffer)@
                &&& (e == StoreError::UnexpectedEof <==> *old(pos) == data@.len())
                &&& (e == StoreError::UnexpectedEof || e == StoreError::TruncatedRecord)
            },
        },
{
    let start = *pos;
    let remaining = data.len() - start;
    if remaining == 0 {
        return Err(StoreError::UnexpectedEof);
    }
    if remaining == 1 {
        return Err(StoreError::TruncatedRecord);
    }
    let n = (data[start] as usize) * 256 + (data[start + 1] as usize);
    assert(n == be16(data@[start as int], data@[start + 1]));
    if n > remaining - 2 {
        return Err(StoreError::TruncatedRecord);
    }
    while buffer.len() < n
        invariant
            start + 2 + n <= data@.len(),
            if old(buffer)@.len() >= n {
                buffer@.len() == old(buffer)@.len()
            } else {
                old(buffer)@.len() <= buffer@.len() <= n
            },
        decreases n - buffer@.len(),
    {
        buffer.push(0);
    }
    let mut j: usize = 0;
    while j < n
        invariant
            j <= n,
            n <= buffer@.len(),
            data@.len() <= usize::MAX,
            start + 2 + n <= data@.len(),
            buffer@.len() == if old(buffer)@.len() >= n {
                old(buffer)@.len() as int
            } else {
                n as int
            },
            n == be16(data@[start as int], data@[start + 1]),
            forall|k: int| 0 <= k < j ==> buffer@[k] == data@[start + 2 + k],
        decreases n - j,
    {
        let byte = data[start + 2 + j];
        buffer.set(j, byte);
        j = j + 1;
    }
    *pos = start + 2 + n;
    proof {
        assert(buffer@.subrange(0, n as int) =~= data@.subrange(
            start + 2,
            start + 2 + n,
        ));
    }
    Ok(n)
}

/// Reads the next length prefix and advances `*pos` past the datum without
/// buffering its body. Same error taxonomy as `read_next_datum`.
pub fn skip_next_datum(data: &Vec<u8>, pos: &mut usize) -> (r: Result<usize, StoreError>)
    requires
        *old(pos) <= data@.len(),
    ensures
        r is Ok <==> datum_fits(data@, *old(pos) as int),
        match r {
            Ok(n) => {
                &&& n == be16(data@[*old(pos) as int], data@[*old(pos) + 1])
                &&& *final(pos) == *old(pos) + 2 + n
                &&& *final(pos) <= data@.len()
            },
            Err(e) => {
                &&& *final(pos) == *old(pos)
                &&& (e == StoreError::UnexpectedEof <==> *old(pos) == data@.len())
                &&& (e == StoreError::UnexpectedEof || e == StoreError::TruncatedRecord)
            },
        },
{
    let start = *pos;
    let remaining = data.len() - start;
    if remaining == 0 {
        return Err(StoreError::UnexpectedEof);
    }
    if remaining == 1 {
        return Err(StoreError::TruncatedRecord);
    }
    let n = (data[start] as usize) * 256 + (data[start + 1] as usize);
    assert(n == be16(data@[start as int], data@[start + 1]));
    if n > remaining - 2 {
        return Err(StoreError::TruncatedRecord);
    }
    *pos = start + 2 + n;
    Ok(n)
}

/// Copies the first `n` bytes of `buffer` into a fresh vector.
fn prefix_to_vec(buffer: &Vec<u8>, n: usize) -> (r: Vec<u8>)
    requires
        n <= buffer@.len(),
    ensures
        r@ == buffer@.subrange(0, n as int),
{
    let mut out: Vec<u8> = Vec::new();
    let mut j: usize = 0;
    while j < n
        invariant
            j <= n,
            n <= buffer@.len(),
            out@ == buffer@.subrange(0, j as int),
        decreases n - j,
    {
        let byte = buffer[j];
        out.push(byte);
        proof {
            assert(buffer@.subrange(0, j + 1) =~= buffer@.subrange(0, j as int).push(
                buffer@[j as int],
            ));
        }
        j = j + 1;
    }
    out
}

/// A byte vector's deep view is its view.
pub proof fn lemma_bytes_deep_view(v: Vec<u8>)
    ensures
        v.deep_view() == v@,
{
    assert(v.deep_view() =~= v@);
}

/// Copies a byte string.
pub fn copy_bytes(src: &Vec<u8>) -> (r: Vec<u8>)
    ensures
        r@ == src@,
{
    let r = prefix_to_vec(src, src.len());
    proof {
        assert(src@.subrange(0, src@.len() as int) =~= src@);
    }
    r
}

/// Reports whether the first `n` bytes of `buffer` equal `key`.
fn prefix_matches(buffer: &Vec<u8>, n: usize, key: &Vec<u8>) -> (r: bool)
    requires
        n <= buffer@.len(),
    ensures
        r == (buffer@.subrange(0, n as int) == key@),
{
    if n != key.len() {
        return false;
    }
    let mut j: usize = 0;
    while j < n
        invariant
            j <= n,
            n <= buffer@.len(),
            n == key@.len(),
            forall|k: int| 0 <= k < j ==> buffer@[k] == key@[k],
        decreases n - j,
    {
        if buffer[j] != key[j] {
            return false;
        }
        j = j + 1;
    }
    proof {
        assert(buffer@.subrange(0, n as int) =~= key@);
    }
    true
}

/// When the suffix of `b` at `pos` parses to a non-empty record sequence, the
/// head record lies right at `pos`: its key datum and value datum both fit,
/// their bytes are the head's key and value, and the bytes past them parse to
/// the remaining records.
pub proof fn lemma_parse_head(b: Seq<u8>, pos: int, sfx: Seq<(Seq<u8>, Seq<u8>)>)
    requires
        0 <= pos <= b.len(),
        parse_entries(b.skip(pos)) == Some(sfx),
        sfx.len() > 0,
    ensures
        datum_fits(b, pos),
        ({
            let kl = be16(b[pos], b[pos + 1]);
            &&& kl == sfx[0].0.len()
            &&& b.subrange(pos + 2, pos + 2 + kl) == sfx[0].0
            &&& datum_fits(b, pos + 2 + kl)
            &&& ({
                let vl = be16(b[pos + 2 + kl], b[pos + 3 + kl]);
                &&& vl == sfx[0].1.len()
                &&& b.subrange(pos + 4 + kl, pos + 4 + kl + vl) == sfx[0].1
                &&& pos + 4 + kl + vl <= b.len()
                &&& parse_entries(b.skip(pos + 4 + kl + vl)) == Some(sfx.skip(1))
            })
        }),
{
    let s = b.skip(pos);
    assert(s.len() == b.len() - pos);
    assert(s.len() > 0);
    assert(s.len() >= 2);
    assert(s[0] == b[pos] && s[1] == b[pos + 1]);
    let kl = be16(s[0], s[1]);
    assert(2 + kl + 2 <= s.len());
    assert(s[2 + kl] == b[pos + 2 + kl] && s[3 + kl] == b[pos + 3 + kl]);
    let vl = be16(s[2 + kl], s[3 + kl]);
    assert(2 + kl + 2 + vl <= s.len());
    let key = s.subrange(2, 2 + kl);
    let value = s.subrange(4 + kl, 4 + kl + vl);
    let rest = parse_entries(s.skip(4 + kl + vl));
    assert(rest is Some);
    assert(Some(seq![(key, value)] + rest.unwrap()) == Some(sfx));
    assert(sfx[0] == (seq![(key, value)] + rest.unwrap())[0]);
    assert(sfx[0].0 == key && sfx[0].1 == value);
    assert(key.len() == kl && value.len() == vl);
    assert(key =~= b.subrange(pos + 2, pos + 2 + kl));
    assert(value =~= b.subrange(pos + 4 + kl, pos + 4 + kl + vl));
    assert(s.skip(4 + kl + vl) =~= b.skip(pos + 4 + kl + vl));
    assert(rest.unwrap() =~= sfx.skip(1));
}

/// When the suffix of `b` at `pos` does not parse although a whole record
/// lies at `pos`, the bytes past that record do not parse either.
pub proof fn lemma_parse_none_step(b: Seq<u8>, pos: int)
    requires
        0 <= pos <= b.len(),
        parse_entries(b.skip(pos)) is None,
        datum_fits(b, pos),
        datum_fits(b, pos + 2 + be16(b[pos], b[pos + 1])),
    ensures
        ({
            let kl = be16(b[pos], b[pos + 1]);
            let vl = be16(b[pos + 2 + kl], b[pos + 3 + kl]);
            &&& pos + 4 + kl + vl <= b.len()
            &&& parse_entries(b.skip(pos + 4 + kl + vl)) is None
        }),
{
    let s = b.skip(pos);
    let kl = be16(b[pos], b[pos + 1]);
    let vl = be16(b[pos + 2 + kl], b[pos + 3 + kl]);
    assert(s.len() == b.len() - pos);
    assert(s[0] == b[pos] && s[1] == b[pos + 1]);
    assert(s[2 + kl] == b[pos + 2 + kl] && s[3 + kl] == b[pos + 3 + kl]);
    assert(be16(s[0], s[1]) == kl);
    assert(2 + kl + 2 <= s.len());
    assert(be16(s[2 + kl], s[3 + kl]) == vl);
    assert(2 + kl + 2 + vl <= s.len());
    assert(parse_entries(s.skip(4 + kl + vl)) is None);
    assert(s.skip(4 + kl + vl) =~= b.skip(pos + 4 + kl + vl));
}

/// When the suffix of `b` at `pos` parses to the empty record sequence, `pos`
/// is exactly the end of `b`; and conversely.
pub proof fn lemma_parse_end(b: Seq<u8>, pos: int, sfx: Seq<(Seq<u8>, Seq<u8>)>)
    requires
        0 <= pos <= b.len(),
        parse_entries(b.skip(pos)) == Some(sfx),
    ensures
        sfx.len() == 0 <==> pos == b.len(),
{
    let s = b.skip(pos);
    if s.len() == 0 {
        assert(sfx.len() == 0);
    } else {
        assert(parse_entries(s) == Some(sfx));
        if sfx.len() == 0 {
            let kl = be16(s[0], s[1]);
            if 2 + kl + 2 <= s.len() {
                let vl = be16(s[2 + kl], s[3 + kl]);
                if 2 + kl + 2 + vl <= s.len() {
                    let rest = parse_entries(s.skip(4 + kl + vl));
                    assert(rest is Some);
                    let key = s.subrange(2, 2 + kl);
                    let value = s.subrange(4 + kl, 4 + kl + vl);
                    assert(sfx == seq![(key, value)] + rest.unwrap());
                    assert(sfx.len() >= 1);
                }
            }
            assert(false);
        }
    }
}

/// Walks a file's bytes looking for `key`: reads each record's key, and on a
/// match reads and returns the value; otherwise skips the value and goes on.
/// A clean end of input on a key prefix is the only normal exit and yields
/// `None`. On well-formed bytes the scan returns the first record with the
/// key; a truncated record is fatal to the call.
pub fn find_value(data: &Vec<u8>, key: &Vec<u8>) -> (r: Result<Option<Vec<u8>>, StoreError>)
    ensures
        parse_entries(data@) matches Some(es) ==> r matches Ok(v) && v.deep_view()
            == first_match(es, key@),
{
    let mut pos: usize = 0;
    let mut buffer: Vec<u8> = Vec::new();
    let ghost mut sfx: Seq<(Seq<u8>, Seq<u8>)> = match parse_entries(data@) {
        Some(es) => es,
        None => Seq::empty(),
    };
    proof {
        assert(data@.skip(0) =~= data@);
        assert(data@.len() == data.len());
    }
    loop
        invariant
            pos <= data@.len(),
            data@.len() <= usize::MAX,
            parse_entries(data@) is Some ==> {
                &&& parse_entries(data@.skip(pos as int)) == Some(sfx)
                &&& first_match(parse_entries(data@).unwrap(), key@) == first_match(sfx, key@)
            },
        decreases data@.len() - pos,
    {
        let ghost pos0 = pos as int;
        let klen = match read_next_datum(data, &mut pos, &mut buffer) {
            Ok(klen) => klen,
            Err(e) => {
                if matches!(e, StoreError::UnexpectedEof) {
                    proof {
                        if parse_entries(data@) is Some {
                            lemma_parse_end(data@, pos0, sfx);
                        }
                    }
                    return Ok(None);
                } else {
                    proof {
                        if parse_entries(data@) is Some {
                            lemma_parse_end(data@, pos0, sfx);
                            lemma_parse_head(data@, pos0, sfx);
                            assert(false);
                        }
                    }
                    return Err(e);
                }
            },
        };
        proof {
            if parse_entries(data@) is Some {
                lemma_parse_end(data@, pos0, sfx);
                lemma_parse_head(data@, pos0, sfx);
                assert(buffer@.subrange(0, klen as int) == sfx[0].0);
            }
        }
        let matched = prefix_matches(&buffer, klen, key);
        let ghost pos1 = pos as int;
        if matched {
            match read_next_datum(data, &mut pos, &mut buffer) {
                Ok(vlen) => {
                    let value = prefix_to_vec(&buffer, vlen);
                    proof {
                        if parse_entries(data@) is Some {
                            lemma_parse_head(data@, pos0, sfx);
                            assert(value@ == sfx[0].1);
                            assert(sfx[0].0 == key@);
                            assert(first_match(sfx, key@) == Some(sfx[0].1));
                        }
                    }
                    return Ok(Some(value));
                },
                Err(e) => {
                    proof {
                        if parse_entries(data@) is Some {
                            lemma_parse_head(data@, pos0, sfx);
                            assert(datum_fits(data@, pos1));
                            assert(false);
                        }
                    }
                    return Err(e);
                },
            }
        } else {
            match skip_next_datum(data, &mut pos) {
                Ok(_) => {
                    proof {
                        if parse_entries(data@) is Some {
                            lemma_parse_head(data@, pos0, sfx);
                            assert(sfx[0].0 != key@);
                            assert(first_match(sfx, key@) == first_match(sfx.skip(1), key@));
                            sfx = sfx.skip(1);
                        }
                    }
                },
                Err(e) => {
                    proof {
                        if parse_entries(data@) is Some {
                            lemma_parse_head(data@, pos0, sfx);
                            assert(datum_fits(data@, pos1));
                            assert(false);
                        }
                    }
                    return Err(e);
                },
            }
        }
    }
}

/// Decodes a whole file into its records. Succeeds exactly on bytes that
/// parse; any byte string that ends mid-record is reported as malformed.
pub fn decode_entries(data: &Vec<u8>) -> (r: Result<Vec<(Vec<u8>, Vec<u8>)>, StoreError>)
    ensures
        match r {
            Ok(es) => parse_entries(data@) == Some(entry_views(es@)),
            Err(e) => e == StoreError::MalformedFile && parse_entries(data@) is None,
        },
{
    let mut pos: usize = 0;
    let mut buffer: Vec<u8> = Vec::new();
    let mut acc: Vec<(Vec<u8>, Vec<u8>)> = Vec::new();
    proof {
        assert(data@.skip(0) =~= data@);
        assert(data@.len() == data.len());
        if parse_entries(data@) is Some {
            assert(entry_views(acc@) + parse_entries(data@).unwrap() =~= parse_entries(
                data@,
            ).unwrap());
        }
    }
    loop
        invariant
            pos <= data@.len(),
            data@.len() <= usize::MAX,
            parse_entries(data@) == (match parse_entries(data@.skip(pos as int)) {
                Some(sfx) => Some(entry_views(acc@) + sfx),
                None => None::<Seq<(Seq<u8>, Seq<u8>)>>,
            }),
        decreases data@.len() - pos,
    {
        let ghost pos0 = pos as int;
        let ghost sfx0 = parse_entries(data@.skip(pos as int));
        let klen = match read_next_datum(data, &mut pos, &mut buffer) {
            Ok(klen) => klen,
            Err(e) => {
                if matches!(e, StoreError::UnexpectedEof) {
                    proof {
                        assert(data@.skip(pos as int) =~= Seq::<u8>::empty());
                        assert(parse_entries(data@.skip(pos as int)) == Some(
                            Seq::<(Seq<u8>, Seq<u8>)>::empty(),
                        ));
                        assert(entry_views(acc@) + Seq::<(Seq<u8>, Seq<u8>)>::empty()
                            =~= entry_views(acc@));
                    }
                    return Ok(acc);
                } else {
                    proof {
                        if sfx0 is Some {
                            lemma_parse_end(data@, pos0, sfx0.unwrap());
                            lemma_parse_head(data@, pos0, sfx0.unwrap());
                            assert(false);
                        }
                    }
                    return Err(StoreError::MalformedFile);
                }
            },
        };
        let record_key = prefix_to_vec(&buffer, klen);
        let vlen = match read_next_datum(data, &mut pos, &mut buffer) {
            Ok(vlen) => vlen,
            Err(_) => {
                proof {
                    if sfx0 is Some {
                        lemma_parse_end(data@, pos0, sfx0.unwrap());
                        lemma_parse_head(data@, pos0, sfx0.unwrap());
                        assert(false);
                    }
                }
                return Err(StoreError::MalformedFile);
            },
        };
        let record_value = prefix_to_vec(&buffer, vlen);
        proof {
            if sfx0 is Some {
                lemma_parse_end(data@, pos0, sfx0.unwrap());
                lemma_parse_head(data@, pos0, sfx0.unwrap());
                let sfx = sfx0.unwrap();
                assert(record_key@ == sfx[0].0 && record_value@ == sfx[0].1);
                assert(parse_entries(data@.skip(pos as int)) == Some(sfx.skip(1)));
                assert(entry_views(acc@.push((record_key, record_value))) =~= entry_views(acc@)
                    + seq![(record_key@, record_value@)]);
                assert(entry_views(acc@) + sfx =~= (entry_views(acc@) + seq![sfx[0]])
                    + sfx.skip(1));
            } else {
                lemma_parse_none_step(data@, pos0);
            }
        }
        acc.push((record_key, record_value));
    }
}

/// A chain of adjacent orderings yields ordering between any two positions.
proof fn lemma_lex_chain(ks: Seq<Seq<u8>>, i: int, j: int)
    requires
        forall|m: int| 0 <= m < ks.len() - 1 ==> lex_lt(#[trigger] ks[m], ks[m + 1]),
        0 <= i < j < ks.len(),
    ensures
        lex_lt(ks[i], ks[j]),
    decreases j - i,
{
    if j > i + 1 {
        lemma_lex_chain(ks, i, j - 1);
        lemma_lex_lt_transitive(ks[i], ks[j - 1], ks[j]);
    }
}

/// Checks that a record sequence is fit to be an SSTable's contents: keys
/// strictly ascending and non-empty.
pub fn check_table_entries(es: &Vec<(Vec<u8>, Vec<u8>)>) -> (r: bool)
    ensures
        r == (entries_sorted(entry_views(es@)) && keys_nonempty(entry_views(es@))),
{
    let ghost vs = entry_views(es@);
    if es.len() == 0 {
        return true;
    }
    if es[0].0.len() == 0 {
        proof {
            assert(vs[0].0.len() == 0);
        }
        return false;
    }
    let mut i: usize = 0;
    proof {
        assert(es@.len() == es.len());
    }
    while i + 1 < es.len()
        invariant
            vs == entry_views(es@),
            es@.len() <= usize::MAX,
            i < vs.len(),
            forall|m: int| 0 <= m < i ==> lex_lt(#[trigger] vs[m].0, vs[m + 1].0),
            forall|m: int| 0 <= m <= i ==> (#[trigger] vs[m].0).len() >= 1,
        decreases es@.len() - i,
    {
        if es[i + 1].0.len() == 0 {
            proof {
                assert(vs[i + 1].0.len() == 0);
            }
            return false;
        }
        let o = key_compare(&es[i].0, &es[i + 1].0);
        if !matches!(o, KeyOrder::Less) {
            proof {
                assert(!lex_lt(vs[i as int].0, vs[i + 1].0));
            }
            return false;
        }
        i = i + 1;
    }
    proof {
        let ks = Seq::new(vs.len(), |m: int| vs[m].0);
        assert forall|a: int, b: int| 0 <= a < b < vs.len() implies lex_lt(
            #[trigger] vs[a].0,
            #[trigger] vs[b].0,
        ) by {
            assert(forall|m: int| 0 <= m < ks.len() - 1 ==> lex_lt(#[trigger] ks[m], ks[m + 1]));
            lemma_lex_chain(ks, a, b);
        }
    }
    true
}

/// With distinct keys, scanning for the first match agrees with looking the
/// key up in the denoted map.
pub proof fn lemma_first_match_is_map_get(es: Seq<(Seq<u8>, Seq<u8>)>, key: Seq<u8>)
    requires
        keys_distinct(es),
    ensures
        first_match(es, key) == map_get(entries_map(es), key),
    decreases es.len(),
{
    lemma_entries_map_dom(es, key);
    if es.len() == 0 {
    } else if es[0].0 == key {
        lemma_entries_map_value(es, 0);
    } else {
        assert(keys_distinct(es.skip(1)));
        lemma_first_match_is_map_get(es.skip(1), key);
        lemma_entries_map_dom(es.skip(1), key);
        if entries_map(es).dom().contains(key) {
            let i = choose|i: int| 0 <= i < es.len() && (#[trigger] es[i].0) == key;
            assert(i >= 1);
            assert(es.skip(1)[i - 1].0 == key);
            lemma_entries_map_value(es, i);
            lemma_entries_map_value(es.skip(1), i - 1);
        }
    }
}

} // verus!
