//! The persisted artifact format: a deterministic, versioned binary encoding
//! of a forward adjacency map.
//!
//! Layout, all words little-endian 32-bit unsigned: a format tag, the number
//! of key/list pairs, then for each pair its key, the length of its list,
//! and the list's values. Decoding fails loudly on a mismatched tag, on
//! truncated or trailing bytes, and on a repeated key; it never returns
//! partial data.

use std::collections::HashMap;

use vstd::prelude::*;

use crate::adjacency::AdjacencyMap;
use crate::adjacency::lemma_pairs_map_props;

verus! {

broadcast use vstd::std_specs::hash::group_hash_axioms;

/// The format tag; decoding any artifact whose first word differs fails.
pub const FORMAT_TAG: u32 = 0x574B4731;

/// The value of four bytes read as one little-endian 32-bit word.
pub open spec fn word_of(b0: u8, b1: u8, b2: u8, b3: u8) -> int {
    b0 + 0x100 * b1 + 0x10000 * b2 + 0x1000000 * b3
}

/// The four little-endian bytes of a 32-bit word.
pub open spec fn u32_le(x: u32) -> Seq<u8> {
    seq![
        (x & 0xff) as u8,
        ((x >> 8) & 0xff) as u8,
        ((x >> 16) & 0xff) as u8,
        ((x >> 24) & 0xff) as u8,
    ]
}

/// Splitting a word into bytes and reading them back is the identity.
pub proof fn lemma_word_roundtrip(x: u32)
    ensures
        word_of(u32_le(x)[0], u32_le(x)[1], u32_le(x)[2], u32_le(x)[3]) == x,
{
    assert(x & 0xff < 0x100 && (x >> 8) & 0xff < 0x100 && (x >> 16) & 0xff < 0x100 && (x >> 24)
        & 0xff < 0x100) by (bit_vector);
    assert((x & 0xff) as int + 0x100 * (((x >> 8) & 0xff) as int) + 0x10000 * (((x >> 16)
        & 0xff) as int) + 0x1000000 * (((x >> 24) & 0xff) as int) == x) by (bit_vector);
}

/// The concatenated little-endian encodings of a sequence of words.
pub open spec fn encode_values(vs: Seq<u32>) -> Seq<u8>
    decreases vs.len(),
{
    if vs.len() == 0 {
        Seq::empty()
    } else {
        u32_le(vs[0]) + encode_values(vs.drop_first())
    }
}

/// The encoding of a sequence of key/list pairs: for each pair its key, its
/// list length, then its values.
pub open spec fn encode_entries(ps: Seq<(u32, Seq<u32>)>) -> Seq<u8>
    decreases ps.len(),
{
    if ps.len() == 0 {
        Seq::empty()
    } else {
        u32_le(ps[0].0) + u32_le(ps[0].1.len() as u32) + encode_values(ps[0].1) + encode_entries(
            ps.drop_first(),
        )
    }
}

/// The pairs fit the format's 32-bit counters.
pub open spec fn encodable(ps: Seq<(u32, Seq<u32>)>) -> bool {
    &&& ps.len() <= u32::MAX
    &&& forall|i: int| 0 <= i < ps.len() ==> (#[trigger] ps[i].1).len() <= u32::MAX
}

/// No key occurs twice.
pub open spec fn keys_distinct(ps: Seq<(u32, Seq<u32>)>) -> bool {
    forall|i: int, j: int| 0 <= i < j < ps.len() ==> #[trigger] ps[i].0 != #[trigger] ps[j].0
}

/// The complete artifact: tag, pair count, then the encoded pairs.
pub open spec fn spec_encode(ps: Seq<(u32, Seq<u32>)>) -> Seq<u8> {
    u32_le(FORMAT_TAG) + u32_le(ps.len() as u32) + encode_entries(ps)
}

/// Reads `n` words; yields the words and the remaining bytes, or nothing if
/// the bytes run out.
pub open spec fn decode_values(b: Seq<u8>, n: nat) -> Option<(Seq<u32>, Seq<u8>)>
    decreases n,
{
    if n == 0 {
        Some((Seq::empty(), b))
    } else if b.len() < 4 {
        None
    } else {
        match decode_values(b.skip(4), (n - 1) as nat) {
            Some((vs, rest)) => Some(
                (seq![word_of(b[0], b[1], b[2], b[3]) as u32] + vs, rest),
            ),
            None => None,
        }
    }
}

/// Reads `n` key/list pairs; yields the pairs and the remaining bytes, or
/// nothing if the bytes run out.
pub open spec fn decode_entries(b: Seq<u8>, n: nat) -> Option<(Seq<(u32, Seq<u32>)>, Seq<u8>)>
    decreases n,
{
    if n == 0 {
        Some((Seq::empty(), b))
    } else if b.len() < 8 {
        None
    } else {
        let key = word_of(b[0], b[1], b[2], b[3]) as u32;
        let cnt = word_of(b[4], b[5], b[6], b[7]) as u32;
        match decode_values(b.skip(8), cnt as nat) {
            Some((vs, rest)) => match decode_entries(rest, (n - 1) as nat) {
                Some((ps, rest2)) => Some((seq![(key, vs)] + ps, rest2)),
                None => None,
            },
            None => None,
        }
    }
}

/// What a whole artifact stands for: the decoded pairs, or nothing if the
/// tag mismatches, bytes are missing or left over, or a key repeats.
pub open spec fn spec_decode(b: Seq<u8>) -> Option<Seq<(u32, Seq<u32>)>> {
    if b.len() < 8 {
        None
    } else if word_of(b[0], b[1], b[2], b[3]) != FORMAT_TAG {
        None
    } else {
        let cnt = word_of(b[4], b[5], b[6], b[7]) as u32;
        match decode_entries(b.skip(8), cnt as nat) {
            Some((ps, rest)) => if rest.len() == 0 && keys_distinct(ps) {
                Some(ps)
            } else {
                None
            },
            None => None,
        }
    }
}

/// Reading back the words just encoded yields them unchanged and leaves the
/// trailing bytes alone.
proof fn lemma_decode_values_of_encode(vs: Seq<u32>, rest: Seq<u8>)
    ensures
        decode_values(encode_values(vs) + rest, vs.len()) == Some((vs, rest)),
    decreases vs.len(),
{
    if vs.len() == 0 {
        assert(encode_values(vs) + rest =~= rest);
    } else {
        let b = encode_values(vs) + rest;
        let tail = vs.drop_first();
        lemma_decode_values_of_encode(tail, rest);
        assert(b.skip(4) =~= encode_values(tail) + rest);
        lemma_word_roundtrip(vs[0]);
        assert(b[0] == u32_le(vs[0])[0] && b[1] == u32_le(vs[0])[1] && b[2] == u32_le(vs[0])[2]
            && b[3] == u32_le(vs[0])[3]);
        assert(word_of(b[0], b[1], b[2], b[3]) as u32 == vs[0]);
        assert(seq![vs[0]] + tail =~= vs);
    }
}

/// Reading back the pairs just encoded yields them unchanged and leaves the
/// trailing bytes alone.
proof fn lemma_decode_entries_of_encode(ps: Seq<(u32, Seq<u32>)>, rest: Seq<u8>)
    requires
        forall|i: int| 0 <= i < ps.len() ==> (#[trigger] ps[i].1).len() <= u32::MAX,
    ensures
        decode_entries(encode_entries(ps) + rest, ps.len()) == Some((ps, rest)),
    decreases ps.len(),
{
    if ps.len() == 0 {
        assert(encode_entries(ps) + rest =~= rest);
    } else {
        let b = encode_entries(ps) + rest;
        let key = ps[0].0;
        let vs = ps[0].1;
        let tail = ps.drop_first();
        assert(b.len() >= 8);
        lemma_word_roundtrip(key);
        lemma_word_roundtrip(vs.len() as u32);
        assert(b[0] == u32_le(key)[0] && b[1] == u32_le(key)[1] && b[2] == u32_le(key)[2] && b[3]
            == u32_le(key)[3]);
        assert(b[4] == u32_le(vs.len() as u32)[0] && b[5] == u32_le(vs.len() as u32)[1] && b[6]
            == u32_le(vs.len() as u32)[2] && b[7] == u32_le(vs.len() as u32)[3]);
        assert(word_of(b[0], b[1], b[2], b[3]) as u32 == key);
        assert(word_of(b[4], b[5], b[6], b[7]) as u32 == vs.len() as u32);
        assert(b.skip(8) =~= encode_values(vs) + (encode_entries(tail) + rest));
        lemma_decode_values_of_encode(vs, encode_entries(tail) + rest);
        lemma_decode_entries_of_encode(tail, rest);
        assert(seq![(key, vs)] + tail =~= ps);
    }
}

/// Encoding then decoding an adjacency map's pairs gives them back exactly:
/// same keys, same per-key sequences, order and duplicates preserved.
pub proof fn lemma_encode_decode(ps: Seq<(u32, Seq<u32>)>)
    requires
        encodable(ps),
        keys_distinct(ps),
    ensures
        spec_decode(spec_encode(ps)) == Some(ps),
{
    let b = spec_encode(ps);
    lemma_word_roundtrip(FORMAT_TAG);
    lemma_word_roundtrip(ps.len() as u32);
    assert(b[0] == u32_le(FORMAT_TAG)[0] && b[1] == u32_le(FORMAT_TAG)[1] && b[2] == u32_le(
        FORMAT_TAG,
    )[2] && b[3] == u32_le(FORMAT_TAG)[3]);
    assert(b[4] == u32_le(ps.len() as u32)[0] && b[5] == u32_le(ps.len() as u32)[1] && b[6]
        == u32_le(ps.len() as u32)[2] && b[7] == u32_le(ps.len() as u32)[3]);
    assert(word_of(b[0], b[1], b[2], b[3]) == FORMAT_TAG);
    assert(word_of(b[4], b[5], b[6], b[7]) as u32 == ps.len() as u32);
    assert(b.skip(8) =~= encode_entries(ps) + Seq::<u8>::empty());
    lemma_decode_entries_of_encode(ps, Seq::<u8>::empty());
}

/// Appends the four little-endian bytes of one word.
fn push_u32_le(out: &mut Vec<u8>, x: u32)
    ensures
        final(out)@ == old(out)@ + u32_le(x),
{
    out.push((x & 0xff) as u8);
    out.push(((x >> 8) & 0xff) as u8);
    out.push(((x >> 16) & 0xff) as u8);
    out.push(((x >> 24) & 0xff) as u8);
    proof {
        assert(out@ =~= old(out)@ + u32_le(x));
    }
}

/// Reads the little-endian word at an offset.
fn read_u32_le(b: &Vec<u8>, i: usize) -> (x: u32)
    requires
        i + 4 <= b@.len(),
    ensures
        x as int == word_of(b@[i as int], b@[i as int + 1], b@[i as int + 2], b@[i as int + 3]),
{
    proof {
        assert(b@.len() == vstd::std_specs::vec::spec_vec_len(b));
    }
    let b0 = b[i];
    let b1 = b[i + 1];
    let b2 = b[i + 2];
    let b3 = b[i + 3];
    let x = b0 as u32 | (b1 as u32) << 8 | (b2 as u32) << 16 | (b3 as u32) << 24;
    proof {
        let c0 = b0 as u32;
        let c1 = b1 as u32;
        let c2 = b2 as u32;
        let c3 = b3 as u32;
        assert(c0 < 0x100 && c1 < 0x100 && c2 < 0x100 && c3 < 0x100);
        assert((c0 | c1 << 8 | c2 << 16 | c3 << 24) == c0 + 0x100 * c1 + 0x10000 * c2 + 0x1000000
            * c3 || !(c0 < 0x100 && c1 < 0x100 && c2 < 0x100 && c3 < 0x100)) by (bit_vector);
    }
    x
}

/// Encodes a forward adjacency map as a complete artifact.
pub fn encode_links(links: &AdjacencyMap) -> (out: Vec<u8>)
    requires
        encodable(links.pairs()),
    ensures
        out@ == spec_encode(links.pairs()),
{
    let ghost ps = links.pairs();
    let mut out: Vec<u8> = Vec::new();
    push_u32_le(&mut out, FORMAT_TAG);
    let n = links.len();
    push_u32_le(&mut out, n as u32);
    proof {
        assert(out@ =~= u32_le(FORMAT_TAG) + u32_le(ps.len() as u32) + encode_entries(
            ps.take(0),
        ));
        assert(encode_entries(ps.take(0)) =~= Seq::<u8>::empty());
    }
    let mut i: usize = 0;
    while i < n
        invariant
            encodable(ps),
            ps == links.pairs(),
            n == ps.len(),
            i <= n,
            out@ == u32_le(FORMAT_TAG) + u32_le(ps.len() as u32) + encode_entries(
                ps.take(i as int),
            ),
        decreases n - i,
    {
        let key = links.key_at(i);
        let targets = links.targets_at(i);
        let m = targets.len();
        push_u32_le(&mut out, key);
        push_u32_le(&mut out, m as u32);
        let ghost head = out@;
        let mut j: usize = 0;
        proof {
            assert(encode_values(targets@.take(0)) =~= Seq::<u8>::empty());
            assert(head + encode_values(targets@.take(0)) =~= head);
        }
        while j < m
            invariant
                m == targets@.len(),
                j <= m,
                out@ == head + encode_values(targets@.take(j as int)),
            decreases m - j,
        {
            push_u32_le(&mut out, targets[j]);
            proof {
                lemma_encode_values_snoc(targets@.take(j as int), targets@[j as int]);
                assert(targets@.take(j as int).push(targets@[j as int]) =~= targets@.take(
                    j as int + 1,
                ));
            }
            j += 1;
        }
        proof {
            assert(targets@.take(m as int) =~= targets@);
            lemma_encode_entries_snoc(ps.take(i as int), (key, targets@));
            assert(ps.take(i as int).push((key, targets@)) =~= ps.take(i as int + 1));
            assert(out@ =~= u32_le(FORMAT_TAG) + u32_le(ps.len() as u32) + encode_entries(
                ps.take(i as int + 1),
            ));
        }
        i += 1;
    }
    proof {
        assert(ps.take(n as int) =~= ps);
    }
    out
}

/// How `decode_values` behaves on arbitrary bytes: it fails exactly when
/// fewer than `4 * n` bytes remain, and otherwise reads `n` words in order.
proof fn lemma_decode_values_shape(b: Seq<u8>, n: nat)
    ensures
        b.len() < 4 * n ==> decode_values(b, n) is None,
        b.len() >= 4 * n ==> {
            &&& decode_values(b, n) is Some
            &&& (decode_values(b, n)->Some_0).0.len() == n
            &&& (decode_values(b, n)->Some_0).1 == b.skip(4 * (n as int))
            &&& forall|q: int|
                0 <= q < n ==> (decode_values(b, n)->Some_0).0[q] as int == word_of(
                    b[4 * q],
                    b[4 * q + 1],
                    b[4 * q + 2],
                    b[4 * q + 3],
                )
        },
    decreases n,
{
    if n > 0 && b.len() >= 4 {
        lemma_decode_values_shape(b.skip(4), (n - 1) as nat);
        if b.len() >= 4 * n {
            let tail = (decode_values(b.skip(4), (n - 1) as nat)->Some_0).0;
            let vs = (decode_values(b, n)->Some_0).0;
            assert(b.skip(4).skip(4 * (n - 1)) =~= b.skip(4 * (n as int)));
            assert(vs == seq![word_of(b[0], b[1], b[2], b[3]) as u32] + tail);
            assert forall|q: int| 0 <= q < n implies vs[q] as int == word_of(
                b[4 * q],
                b[4 * q + 1],
                b[4 * q + 2],
                b[4 * q + 3],
            ) by {
                if q > 0 {
                    assert(vs[q] == tail[q - 1]);
                    assert(tail[q - 1] as int == word_of(
                        b.skip(4)[4 * (q - 1)],
                        b.skip(4)[4 * (q - 1) + 1],
                        b.skip(4)[4 * (q - 1) + 2],
                        b.skip(4)[4 * (q - 1) + 3],
                    ));
                    assert(b.skip(4)[4 * (q - 1)] == b[4 * q]);
                }
            }
        }
    }
}

/// A decoding failure: the artifact is not a complete, well-formed encoding
/// of this format and version.
#[derive(Debug, PartialEq, Eq)]
pub struct DecodeError;

/// The list-length word of the entry at an offset.
pub open spec fn entry_cnt(b: Seq<u8>, pos: int) -> nat {
    (word_of(b[pos + 4], b[pos + 5], b[pos + 6], b[pos + 7]) as u32) as nat
}

/// Reads one key/list pair at an offset: the key word, the length word,
/// then that many value words. Yields the key, the values and the offset
/// just past them, or nothing if the bytes run out.
fn decode_entry(bytes: &Vec<u8>, pos: usize) -> (r: Option<(u32, Vec<u32>, usize)>)
    requires
        pos <= bytes@.len(),
    ensures
        match r {
            Some(t) => {
                &&& bytes@.len() - pos >= 8
                &&& t.0 as int == word_of(
                    bytes@[pos as int],
                    bytes@[pos as int + 1],
                    bytes@[pos as int + 2],
                    bytes@[pos as int + 3],
                )
                &&& decode_values(bytes@.skip(pos as int + 8), entry_cnt(bytes@, pos as int))
                    == Some((t.1@, bytes@.skip(t.2 as int)))
                &&& pos + 8 <= t.2 <= bytes@.len()
            },
            None => bytes@.len() - pos < 8 || decode_values(
                bytes@.skip(pos as int + 8),
                entry_cnt(bytes@, pos as int),
            ) is None,
        },
{
    let len = bytes.len();
    if len - pos < 8 {
        return None;
    }
    let key = read_u32_le(bytes, pos);
    let cnt = read_u32_le(bytes, pos + 4);
    proof {
        lemma_decode_values_shape(bytes@.skip(pos as int + 8), cnt as nat);
        assert(bytes@.skip(pos as int + 8).len() == len - pos - 8);
    }
    let avail = (len - pos - 8) / 4;
    if (cnt as usize) > avail {
        proof {
            assert(4 * ((len - pos - 8) / 4) <= len - pos - 8);
        }
        return None;
    }
    proof {
        assert(4 * (cnt as int) <= 4 * ((len - pos - 8) / 4));
        assert(4 * ((len - pos - 8) / 4) <= len - pos - 8);
    }
    let ghost pos0 = pos as int;
    let cntu = cnt as usize;
    let mut vals: Vec<u32> = Vec::new();
    let mut j: usize = 0;
    while j < cntu
        invariant
            bytes@.len() == len,
            pos0 == pos,
            pos0 + 8 + 4 * cntu <= len,
            vals@.len() == j,
            j <= cntu,
            forall|q: int|
                0 <= q < j ==> #[trigger] vals@[q] as int == word_of(
                    bytes@[pos0 + 8 + 4 * q],
                    bytes@[pos0 + 8 + 4 * q + 1],
                    bytes@[pos0 + 8 + 4 * q + 2],
                    bytes@[pos0 + 8 + 4 * q + 3],
                ),
        decreases cntu - j,
    {
        let v = read_u32_le(bytes, pos + 8 + 4 * j);
        vals.push(v);
        j += 1;
    }
    let newpos = pos + 8 + 4 * cntu;
    proof {
        let tail = bytes@.skip(pos0 + 8);
        let vr = decode_values(tail, cnt as nat)->Some_0;
        assert(vals@.len() == vr.0.len());
        assert forall|q: int| 0 <= q < cnt as int implies vals@[q] == vr.0[q] by {
            assert(tail[4 * q] == bytes@[pos0 + 8 + 4 * q]);
            assert(tail[4 * q + 1] == bytes@[pos0 + 8 + 4 * q + 1]);
            assert(tail[4 * q + 2] == bytes@[pos0 + 8 + 4 * q + 2]);
            assert(tail[4 * q + 3] == bytes@[pos0 + 8 + 4 * q + 3]);
        }
        assert(vals@ =~= vr.0);
        assert(tail.skip(4 * (cnt as int)) =~= bytes@.skip(newpos as int));
    }
    Some((key, vals, newpos))
}

/// Decodes a complete artifact back into an adjacency map, failing loudly
/// on a mismatched tag, missing or trailing bytes, or a repeated key.
pub fn decode_links(bytes: &Vec<u8>) -> (r: Result<AdjacencyMap, DecodeError>)
    ensures
        match r {
            Ok(m) => m.wf() && spec_decode(bytes@) == Some(m.pairs()),
            Err(e) => spec_decode(bytes@) is None,
        },
{
    let len = bytes.len();
    if len < 8 {
        return Err(DecodeError);
    }
    let tag = read_u32_le(bytes, 0);
    if tag != FORMAT_TAG {
        return Err(DecodeError);
    }
    let count = read_u32_le(bytes, 4);
    let mut links = AdjacencyMap::new();
    let mut seen_keys: HashMap<u32, u32> = HashMap::new();
    let mut pos: usize = 8;
    let mut i: u32 = 0;
    proof {
        assert(word_of(bytes@[0], bytes@[1], bytes@[2], bytes@[3]) == FORMAT_TAG);
        assert(links.pairs() + (decode_entries(bytes@.skip(8), count as nat)->Some_0).0 =~= (
        decode_entries(bytes@.skip(8), count as nat)->Some_0).0);
    }
    while i < count
        invariant
            bytes@.len() == len,
            len >= 8,
            i <= count,
            8 <= pos <= len,
            links.wf(),
            word_of(bytes@[0], bytes@[1], bytes@[2], bytes@[3]) == FORMAT_TAG,
            word_of(bytes@[4], bytes@[5], bytes@[6], bytes@[7]) == count,
            forall|x: u32| #[trigger] seen_keys@.contains_key(x) <==> links@.contains_key(x),
            match decode_entries(bytes@.skip(pos as int), (count - i) as nat) {
                Some(pr) => decode_entries(bytes@.skip(8), count as nat) == Some(
                    (links.pairs() + pr.0, pr.1),
                ),
                None => decode_entries(bytes@.skip(8), count as nat) is None,
            },
        decreases count - i,
    {
        let ghost pos0 = pos as int;
        let ghost rem = (count - i) as nat;
        let ghost bs = bytes@.skip(pos0);
        proof {
            assert(bs.len() == len - pos0);
            if bs.len() >= 8 {
                assert(bs[0] == bytes@[pos0] && bs[1] == bytes@[pos0 + 1] && bs[2] == bytes@[pos0
                    + 2] && bs[3] == bytes@[pos0 + 3]);
                assert(bs[4] == bytes@[pos0 + 4] && bs[5] == bytes@[pos0 + 5] && bs[6]
                    == bytes@[pos0 + 6] && bs[7] == bytes@[pos0 + 7]);
                assert(bs.skip(8) =~= bytes@.skip(pos0 + 8));
            }
        }
        match decode_entry(bytes, pos) {
            None => {
                proof {
                    assert(decode_entries(bs, rem) is None);
                }
                return Err(DecodeError);
            },
            Some((key, vals, newpos)) => {
                proof {
                    assert(decode_values(bs.skip(8), entry_cnt(bytes@, pos0)) == Some(
                        (vals@, bytes@.skip(newpos as int)),
                    ));
                }
                if seen_keys.contains_key(&key) {
                    proof {
                        lemma_pairs_map_props(links.pairs());
                        assert(links@.contains_key(key));
                        lemma_dup_key(bs, rem, links.pairs(), key, vals@, bytes@.skip(
                            newpos as int,
                        ));
                        match decode_entries(bs, rem) {
                            Some(pr) => {
                                assert(!keys_distinct(links.pairs() + pr.0));
                                assert(decode_entries(bytes@.skip(8), count as nat) == Some(
                                    (links.pairs() + pr.0, pr.1),
                                ));
                            },
                            None => {},
                        }
                    }
                    return Err(DecodeError);
                }
                seen_keys.insert(key, 0);
                let ghost prev_pairs = links.pairs();
                links.push_entry(key, vals);
                pos = newpos;
                i += 1;
                proof {
                    match decode_entries(bytes@.skip(pos as int), (count - i) as nat) {
                        Some(pr) => {
                            assert(decode_entries(bs, rem) == Some(
                                (seq![(key, vals@)] + pr.0, pr.1),
                            ));
                            assert(links.pairs() + pr.0 =~= prev_pairs + (seq![(key, vals@)]
                                + pr.0));
                        },
                        None => {
                            assert(decode_entries(bs, rem) is None);
                        },
                    }
                }
            },
        }
    }
    proof {
        assert(decode_entries(bytes@.skip(pos as int), 0) == Some(
            (Seq::<(u32, Seq<u32>)>::empty(), bytes@.skip(pos as int)),
        ));
        assert(links.pairs() + Seq::<(u32, Seq<u32>)>::empty() =~= links.pairs());
    }
    if pos != len {
        proof {
            assert(bytes@.skip(pos as int).len() > 0);
        }
        return Err(DecodeError);
    }
    proof {
        assert(bytes@.skip(pos as int).len() == 0);
        assert(keys_distinct(links.pairs()));
    }
    Ok(links)
}

/// A key already present among the decoded pairs makes the whole artifact
/// fail the distinct-keys check.
proof fn lemma_dup_key(
    bs: Seq<u8>,
    rem: nat,
    prefix: Seq<(u32, Seq<u32>)>,
    key: u32,
    vs: Seq<u32>,
    rest: Seq<u8>,
)
    requires
        rem > 0,
        bs.len() >= 8,
        key as int == word_of(bs[0], bs[1], bs[2], bs[3]),
        decode_values(bs.skip(8), (word_of(bs[4], bs[5], bs[6], bs[7]) as u32) as nat) == Some(
            (vs, rest),
        ),
        exists|a: int| 0 <= a < prefix.len() && #[trigger] prefix[a].0 == key,
    ensures
        decode_entries(bs, rem) matches Some(pr) ==> !keys_distinct(prefix + pr.0),
{
    match decode_entries(bs, rem) {
        Some(pr) => {
            assert(pr.0 == seq![(key, vs)] + (decode_entries(rest, (rem - 1) as nat)->Some_0).0);
            let total = prefix + pr.0;
            let a = choose|a: int| 0 <= a < prefix.len() && #[trigger] prefix[a].0 == key;
            assert(total[a].0 == key);
            assert(total[prefix.len() as int].0 == key);
        },
        None => {},
    }
}

/// Appending one word extends the encoding by that word's bytes.
proof fn lemma_encode_values_snoc(vs: Seq<u32>, x: u32)
    ensures
        encode_values(vs.push(x)) == encode_values(vs) + u32_le(x),
    decreases vs.len(),
{
    if vs.len() == 0 {
        assert(vs.push(x).drop_first() =~= Seq::<u32>::empty());
        assert(encode_values(vs.push(x)) == u32_le(x) + encode_values(Seq::<u32>::empty()));
        assert(u32_le(x) + Seq::<u8>::empty() =~= u32_le(x));
        assert(Seq::<u8>::empty() + u32_le(x) =~= u32_le(x));
    } else {
        lemma_encode_values_snoc(vs.drop_first(), x);
        let h = u32_le(vs[0]);
        let a = encode_values(vs.drop_first());
        let b = u32_le(x);
        assert(vs.push(x)[0] == vs[0]);
        assert(vs.push(x).drop_first() =~= vs.drop_first().push(x));
        assert(encode_values(vs.push(x)) == h + (a + b));
        assert(h + (a + b) =~= (h + a) + b);
        assert(encode_values(vs) == h + a);
    }
}

/// Appending one pair extends the encoding by that pair's bytes.
proof fn lemma_encode_entries_snoc(ps: Seq<(u32, Seq<u32>)>, e: (u32, Seq<u32>))
    ensures
        encode_entries(ps.push(e)) == encode_entries(ps) + u32_le(e.0) + u32_le(
            e.1.len() as u32,
        ) + encode_values(e.1),
    decreases ps.len(),
{
    let eb = u32_le(e.0) + u32_le(e.1.len() as u32) + encode_values(e.1);
    if ps.len() == 0 {
        assert(ps.push(e).drop_first() =~= Seq::<(u32, Seq<u32>)>::empty());
        assert(encode_entries(ps.push(e)) == u32_le(e.0) + u32_le(e.1.len() as u32)
            + encode_values(e.1) + encode_entries(Seq::<(u32, Seq<u32>)>::empty()));
        assert(eb + Seq::<u8>::empty() =~= eb);
        assert(Seq::<u8>::empty() + u32_le(e.0) =~= u32_le(e.0));
        assert(encode_entries(ps) + u32_le(e.0) + u32_le(e.1.len() as u32) + encode_values(e.1)
            =~= eb);
    } else {
        lemma_encode_entries_snoc(ps.drop_first(), e);
        let h = u32_le(ps[0].0) + u32_le(ps[0].1.len() as u32) + encode_values(ps[0].1);
        let a = encode_entries(ps.drop_first());
        assert(ps.push(e)[0] == ps[0]);
        assert(ps.push(e).drop_first() =~= ps.drop_first().push(e));
        assert(encode_entries(ps.drop_first().push(e)) == a + u32_le(e.0) + u32_le(
            e.1.len() as u32,
        ) + encode_values(e.1));
        assert(encode_entries(ps.push(e)) == h + (a + u32_le(e.0) + u32_le(e.1.len() as u32)
            + encode_values(e.1)));
        assert(encode_entries(ps) == h + a);
        assert(h + (a + u32_le(e.0) + u32_le(e.1.len() as u32) + encode_values(e.1)) =~= (h + a)
            + u32_le(e.0) + u32_le(e.1.len() as u32) + encode_values(e.1));
    }
}

} // verus!
