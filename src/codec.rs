//! The compressed stream: its layout, the encoder that writes it, the decoder
//! that reads it back, and the round trip between them.
//!
//! Layout, every integer most significant bit first:
//! a 32-bit pair count; for each pair a symbol byte, a 32-bit code length and
//! the code bits; a 64-bit count of encoded symbols; then the code of each
//! symbol in turn. The last byte is filled with zero bits. The symbol count
//! ends the payload, so the fill bits are never read as codes. A table with an
//! empty code, or with a code that is a prefix of another, is malformed.

use crate::bits::bits_value;
use crate::bits::lemma_bits_value_bound;
use crate::bits::lemma_uint_bits_len;
use crate::bits::lemma_uint_bits_value;
use crate::bits::pack_bits;
use crate::bits::padded;
use crate::bits::uint_bits;
use crate::bits::unpack;
use crate::bits::unpack_bytes;
use crate::huffmann::build_huffman_tree;
use crate::huffmann::codes_follow_tree;
use crate::huffmann::count;
use crate::huffmann::forest_has;
use crate::huffmann::leaf_symbol;
use crate::huffmann::node_weight;
use crate::huffmann::nodes_wf;
use crate::huffmann::sum;
use crate::huffmann::weights_wf;
use crate::huffmann::TreeNode;
use crate::huffmann::construct_min_heap_with_nodes;
use crate::huffmann::count_frequencies;
use crate::huffmann::encode_symbol_table;
use crate::huffmann::has_leaf;
use crate::huffmann::is_internal;
use crate::huffmann::lemma_count_pos;
use crate::huffmann::lemma_leaf_in_arena;
use crate::huffmann::is_leaf_of;
use crate::huffmann::leaf_at;
use crate::huffmann::table_view;
use crate::huffmann::CodeEntry;
use crate::huffmann::codes_nonempty;
use crate::huffmann::distinct_symbols;
use crate::huffmann::has_symbol;
use crate::huffmann::is_prefix;
use crate::huffmann::prefix_free;
use vstd::arithmetic::power2::pow2;
use vstd::prelude::*;

verus! {

/// The bits of one table pair: symbol, code length, code.
pub open spec fn entry_bits(e: (u8, Seq<bool>)) -> Seq<bool> {
    uint_bits(e.0 as nat, 8) + uint_bits(e.1.len(), 32) + e.1
}

pub open spec fn table_bits(t: Seq<(u8, Seq<bool>)>) -> Seq<bool>
    decreases t.len(),
{
    if t.len() == 0 {
        Seq::empty()
    } else {
        table_bits(t.drop_last()) + entry_bits(t.last())
    }
}

/// The code that the table gives symbol `s`.
pub open spec fn code_of(t: Seq<(u8, Seq<bool>)>, s: u8) -> Seq<bool> {
    t[symbol_index(t, s)].1
}

/// An index of the table pair for symbol `s`.
pub open spec fn symbol_index(t: Seq<(u8, Seq<bool>)>, s: u8) -> int {
    choose|i: int| 0 <= i < t.len() && t[i].0 == s
}

/// The codes of the symbols of `data`, one after another.
pub open spec fn payload_bits(t: Seq<(u8, Seq<bool>)>, data: Seq<u8>) -> Seq<bool>
    decreases data.len(),
{
    if data.len() == 0 {
        Seq::empty()
    } else {
        payload_bits(t, data.drop_last()) + code_of(t, data.last())
    }
}

/// The whole stream for `data` under table `t`, before the fill bits.
pub open spec fn stream_bits(t: Seq<(u8, Seq<bool>)>, data: Seq<u8>) -> Seq<bool> {
    uint_bits(t.len() as nat, 32) + table_bits(t) + uint_bits(data.len() as nat, 64) + payload_bits(
        t,
        data,
    )
}

/// The unsigned integer of `width` bits at `pos`, and the position after it.
pub open spec fn read_uint(bits: Seq<bool>, pos: int, width: nat) -> Option<(nat, int)> {
    if 0 <= pos && pos + width <= bits.len() {
        Some((bits_value(bits.subrange(pos, pos + width)), pos + width))
    } else {
        None
    }
}

/// The table pair at `pos`; a pair with an empty code is malformed.
pub open spec fn parse_entry(bits: Seq<bool>, pos: int) -> Option<((u8, Seq<bool>), int)> {
    match read_uint(bits, pos, 8) {
        None => None,
        Some((sym, at1)) => match read_uint(bits, at1, 32) {
            None => None,
            Some((len, at2)) => if len == 0 || at2 + len > bits.len() {
                None
            } else {
                Some(((sym as u8, bits.subrange(at2, at2 + len)), at2 + len))
            },
        },
    }
}

/// `n` table pairs from `pos`, and the position after them.
pub open spec fn parse_table(bits: Seq<bool>, pos: int, n: nat) -> Option<(Seq<(u8, Seq<bool>)>, int)>
    decreases n,
{
    if n == 0 {
        Some((Seq::empty(), pos))
    } else {
        match parse_table(bits, pos, (n - 1) as nat) {
            None => None,
            Some((t, p)) => match parse_entry(bits, p) {
                None => None,
                Some((e, q)) => Some((t.push(e), q)),
            },
        }
    }
}

pub open spec fn matches_at(bits: Seq<bool>, pos: int, c: Seq<bool>) -> bool {
    0 <= pos && pos + c.len() <= bits.len() && bits.subrange(pos, pos + c.len()) == c
}

/// The first pair from index `j` on whose code the bits at `pos` start with.
pub open spec fn first_match(t: Seq<(u8, Seq<bool>)>, bits: Seq<bool>, pos: int, j: int) -> Option<int>
    decreases t.len() - j,
{
    if j < 0 || j >= t.len() {
        None
    } else if matches_at(bits, pos, t[j].1) {
        Some(j)
    } else {
        first_match(t, bits, pos, j + 1)
    }
}

/// `k` symbols decoded from `pos`, and the position after them.
pub open spec fn decode_payload(t: Seq<(u8, Seq<bool>)>, bits: Seq<bool>, pos: int, k: nat) -> Option<
    (Seq<u8>, int),
>
    decreases k,
{
    if k == 0 {
        Some((Seq::empty(), pos))
    } else {
        match decode_payload(t, bits, pos, (k - 1) as nat) {
            None => None,
            Some((d, p)) => match first_match(t, bits, p, 0) {
                None => None,
                Some(j) => Some((d.push(t[j].0), p + t[j].1.len())),
            },
        }
    }
}

/// What a stream decodes to, or `None` where it is malformed: cut short, or
/// with a table that holds an empty code or a code that is a prefix of
/// another. Bits after the last symbol are ignored.
pub open spec fn decode_stream(bits: Seq<bool>) -> Option<Seq<u8>> {
    match read_uint(bits, 0, 32) {
        None => None,
        Some((n, at1)) => match parse_table(bits, at1, n) {
            None => None,
            Some((t, at2)) => if !prefix_free(t) {
                None
            } else {
                match read_uint(bits, at2, 64) {
                    None => None,
                    Some((count, at3)) => match decode_payload(t, bits, at3, count) {
                        None => None,
                        Some((d, _)) => Some(d),
                    },
                }
            },
        },
    }
}

/// A table that can encode `data` and be written in the stream.
pub open spec fn table_fits(t: Seq<(u8, Seq<bool>)>, data: Seq<u8>) -> bool {
    &&& prefix_free(t)
    &&& codes_nonempty(t)
    &&& t.len() <= u32::MAX
    &&& forall|i: int| 0 <= i < t.len() ==> (#[trigger] t[i]).1.len() <= u32::MAX
    &&& forall|k: int| 0 <= k < data.len() ==> has_symbol(t, #[trigger] data[k])
    &&& data.len() <= u64::MAX
}

proof fn lemma_subrange_split(bits: Seq<bool>, start: int, x: Seq<bool>, y: Seq<bool>)
    requires
        0 <= start,
        start + x.len() + y.len() <= bits.len(),
        bits.subrange(start, start + x.len() + y.len()) == x + y,
    ensures
        bits.subrange(start, start + x.len()) == x,
        bits.subrange(start + x.len(), start + x.len() + y.len()) == y,
{
    assert forall|k: int| 0 <= k < x.len() implies bits.subrange(start, start + x.len())[k] == x[k] by {
        assert(bits.subrange(start, start + x.len() + y.len())[k] == (x + y)[k]);
    }
    assert forall|k: int| 0 <= k < y.len() implies bits.subrange(
        start + x.len(),
        start + x.len() + y.len(),
    )[k] == y[k] by {
        assert(bits.subrange(start, start + x.len() + y.len())[x.len() + k] == (x + y)[x.len() + k]);
        assert(bits.subrange(start, start + x.len() + y.len())[x.len() + k] == bits[start + x.len() + k]);
        assert(bits.subrange(start + x.len(), start + x.len() + y.len())[k] == bits[start + x.len() + k]);
    }
    assert(bits.subrange(start, start + x.len()) =~= x);
    assert(bits.subrange(start + x.len(), start + x.len() + y.len()) =~= y);
}

proof fn lemma_read_uint_at(bits: Seq<bool>, pos: int, v: nat, width: nat)
    requires
        0 <= pos,
        pos + width <= bits.len(),
        v < pow2(width),
        bits.subrange(pos, pos + width) == uint_bits(v, width),
    ensures
        read_uint(bits, pos, width) == Some((v, pos + width)),
{
    lemma_uint_bits_value(v, width);
}

proof fn lemma_parse_entry(bits: Seq<bool>, pos: int, e: (u8, Seq<bool>))
    requires
        0 <= pos,
        pos + entry_bits(e).len() <= bits.len(),
        bits.subrange(pos, pos + entry_bits(e).len()) == entry_bits(e),
        e.1.len() > 0,
        e.1.len() <= u32::MAX,
    ensures
        parse_entry(bits, pos) == Some((e, pos + entry_bits(e).len())),
{
    let a = uint_bits(e.0 as nat, 8);
    let b = uint_bits(e.1.len(), 32);
    lemma_uint_bits_len(e.0 as nat, 8);
    lemma_uint_bits_len(e.1.len(), 32);
    vstd::arithmetic::power2::lemma2_to64();
    lemma_subrange_split(bits, pos, a + b, e.1);
    lemma_subrange_split(bits, pos, a, b);
    lemma_read_uint_at(bits, pos, e.0 as nat, 8);
    lemma_read_uint_at(bits, pos + 8, e.1.len(), 32);
}

proof fn lemma_parse_table(bits: Seq<bool>, start: int, t: Seq<(u8, Seq<bool>)>)
    requires
        0 <= start,
        start + table_bits(t).len() <= bits.len(),
        bits.subrange(start, start + table_bits(t).len()) == table_bits(t),
        codes_nonempty(t),
        forall|i: int| 0 <= i < t.len() ==> (#[trigger] t[i]).1.len() <= u32::MAX,
    ensures
        parse_table(bits, start, t.len()) == Some((t, start + table_bits(t).len())),
    decreases t.len(),
{
    if t.len() > 0 {
        let t1 = t.drop_last();
        lemma_subrange_split(bits, start, table_bits(t1), entry_bits(t.last()));
        assert forall|i: int| 0 <= i < t1.len() implies (#[trigger] t1[i]).1.len() > 0 by {
            assert(t1[i] == t[i]);
        }
        assert forall|i: int| 0 <= i < t1.len() implies (#[trigger] t1[i]).1.len() <= u32::MAX by {
            assert(t1[i] == t[i]);
        }
        lemma_parse_table(bits, start, t1);
        assert(t.last() == t[t.len() - 1]);
        lemma_parse_entry(bits, start + table_bits(t1).len(), t.last());
        assert(t1.push(t.last()) == t);
    }
}

proof fn lemma_first_match(t: Seq<(u8, Seq<bool>)>, bits: Seq<bool>, pos: int, j: int, i: int)
    requires
        0 <= j <= i < t.len(),
        matches_at(bits, pos, t[i].1),
    ensures
        first_match(t, bits, pos, j) matches Some(m) && j <= m <= i && matches_at(bits, pos, t[m].1),
    decreases i - j,
{
    if !matches_at(bits, pos, t[j].1) {
        lemma_first_match(t, bits, pos, j + 1, i);
    }
}

proof fn lemma_matches_prefix(bits: Seq<bool>, pos: int, a: Seq<bool>, b: Seq<bool>)
    requires
        matches_at(bits, pos, a),
        matches_at(bits, pos, b),
        a.len() <= b.len(),
    ensures
        is_prefix(a, b),
{
    assert forall|k: int| 0 <= k < a.len() implies b.subrange(0, a.len() as int)[k] == a[k] by {
        assert(bits.subrange(pos, pos + b.len())[k] == bits.subrange(pos, pos + a.len())[k]);
    }
    assert(b.subrange(0, a.len() as int) =~= a);
}

proof fn lemma_decode_payload(bits: Seq<bool>, start: int, t: Seq<(u8, Seq<bool>)>, data: Seq<u8>)
    requires
        0 <= start,
        start + payload_bits(t, data).len() <= bits.len(),
        bits.subrange(start, start + payload_bits(t, data).len()) == payload_bits(t, data),
        prefix_free(t),
        forall|k: int| 0 <= k < data.len() ==> has_symbol(t, #[trigger] data[k]),
    ensures
        decode_payload(t, bits, start, data.len()) == Some((data, start + payload_bits(t, data).len())),
    decreases data.len(),
{
    if data.len() > 0 {
        let d1 = data.drop_last();
        let s = data.last();
        let c = code_of(t, s);
        lemma_subrange_split(bits, start, payload_bits(t, d1), c);
        assert forall|k: int| 0 <= k < d1.len() implies has_symbol(t, #[trigger] d1[k]) by {
            assert(d1[k] == data[k]);
        }
        lemma_decode_payload(bits, start, t, d1);
        let p = start + payload_bits(t, d1).len();
        assert(has_symbol(t, data[data.len() - 1]));
        let i = symbol_index(t, s);
        lemma_first_match(t, bits, p, 0, i);
        let m = first_match(t, bits, p, 0).unwrap();
        if m != i {
            if t[m].1.len() <= t[i].1.len() {
                lemma_matches_prefix(bits, p, t[m].1, t[i].1);
            } else {
                lemma_matches_prefix(bits, p, t[i].1, t[m].1);
            }
        }
        assert(d1.push(s) == data);
    }
}

/// A stream written with a table that fits the data decodes to that data,
/// whatever bits follow it.
pub proof fn lemma_decode_stream(t: Seq<(u8, Seq<bool>)>, data: Seq<u8>, extra: Seq<bool>)
    requires
        table_fits(t, data),
    ensures
        decode_stream(stream_bits(t, data) + extra) == Some(data),
{
    let bits = stream_bits(t, data) + extra;
    let a = uint_bits(t.len() as nat, 32);
    let b = table_bits(t);
    let c = uint_bits(data.len() as nat, 64);
    let d = payload_bits(t, data);
    lemma_uint_bits_len(t.len() as nat, 32);
    lemma_uint_bits_len(data.len() as nat, 64);
    vstd::arithmetic::power2::lemma2_to64();
    vstd::arithmetic::power2::lemma2_to64_rest();
    assert(bits.subrange(0, (a + b + c + d).len() as int) =~= a + b + c + d);
    lemma_subrange_split(bits, 0, a + b + c, d);
    lemma_subrange_split(bits, 0, a + b, c);
    lemma_subrange_split(bits, 0, a, b);
    lemma_read_uint_at(bits, 0, t.len() as nat, 32);
    lemma_parse_table(bits, 32, t);
    lemma_read_uint_at(bits, 32 + b.len() as int, data.len() as nat, 64);
    lemma_decode_payload(bits, 32 + b.len() as int + 64, t, data);
}

proof fn lemma_payload_prefix(t: Seq<(u8, Seq<bool>)>, d: Seq<u8>, j: int)
    requires
        0 <= j <= d.len(),
    ensures
        payload_bits(t, d.take(j)).len() <= payload_bits(t, d).len(),
        payload_bits(t, d).subrange(0, payload_bits(t, d.take(j)).len() as int) == payload_bits(
            t,
            d.take(j),
        ),
    decreases d.len(),
{
    if j == d.len() {
        assert(d.take(j) == d);
        assert(payload_bits(t, d).subrange(0, payload_bits(t, d).len() as int) =~= payload_bits(t, d));
    } else {
        let d1 = d.drop_last();
        assert(d.take(j) == d1.take(j));
        lemma_payload_prefix(t, d1, j);
        let x = payload_bits(t, d1.take(j)).len() as int;
        assert(payload_bits(t, d).subrange(0, x) =~= payload_bits(t, d1).subrange(0, x));
    }
}

proof fn lemma_find_cut(t: Seq<(u8, Seq<bool>)>, d: Seq<u8>, m: int) -> (k: int)
    requires
        0 <= m < payload_bits(t, d).len(),
    ensures
        0 <= k < d.len(),
        payload_bits(t, d.take(k)).len() <= m < payload_bits(t, d.take(k + 1)).len(),
    decreases d.len(),
{
    if d.len() == 0 {
        assert(false);
        0
    } else {
        let d1 = d.drop_last();
        if m < payload_bits(t, d1).len() {
            let k = lemma_find_cut(t, d1, m);
            assert(d.take(k) == d1.take(k));
            assert(d.take(k + 1) == d1.take(k + 1));
            k
        } else {
            let k = d.len() - 1;
            assert(d.take(k) == d1);
            assert(d.take(k + 1) == d);
            k
        }
    }
}

proof fn lemma_first_match_sound(t: Seq<(u8, Seq<bool>)>, bits: Seq<bool>, pos: int, j: int)
    ensures
        first_match(t, bits, pos, j) matches Some(m) ==> 0 <= m < t.len() && matches_at(
            bits,
            pos,
            t[m].1,
        ),
    decreases t.len() - j,
{
    if 0 <= j < t.len() && !matches_at(bits, pos, t[j].1) {
        lemma_first_match_sound(t, bits, pos, j + 1);
    }
}

/// A stream cut short anywhere after its symbol count, before its end, is
/// malformed: the last symbol that does not fit in full is never decoded
/// from the bits that are left.
pub proof fn lemma_truncated_stream(t: Seq<(u8, Seq<bool>)>, data: Seq<u8>, len: int)
    requires
        table_fits(t, data),
        32 + table_bits(t).len() + 64 <= len < stream_bits(t, data).len(),
    ensures
        decode_stream(stream_bits(t, data).subrange(0, len)) is None,
{
    let bits = stream_bits(t, data);
    let cut = bits.subrange(0, len);
    let a = uint_bits(t.len() as nat, 32);
    let b = table_bits(t);
    let c = uint_bits(data.len() as nat, 64);
    let pl = payload_bits(t, data);
    lemma_uint_bits_len(t.len() as nat, 32);
    lemma_uint_bits_len(data.len() as nat, 64);
    vstd::arithmetic::power2::lemma2_to64();
    vstd::arithmetic::power2::lemma2_to64_rest();
    assert(bits.subrange(0, (a + b + c + pl).len() as int) =~= a + b + c + pl);
    lemma_subrange_split(bits, 0, a + b + c, pl);
    lemma_subrange_split(bits, 0, a + b, c);
    lemma_subrange_split(bits, 0, a, b);
    let h = 32 + b.len() as int;
    let start = h + 64;
    assert(cut.subrange(0, 32) =~= bits.subrange(0, 32));
    assert(cut.subrange(32, h) =~= bits.subrange(32, h));
    assert(cut.subrange(h, start) =~= bits.subrange(h, start));
    lemma_read_uint_at(cut, 0, t.len() as nat, 32);
    lemma_parse_table(cut, 32, t);
    lemma_read_uint_at(cut, h, data.len() as nat, 64);
    let m = len - start;
    let k = lemma_find_cut(t, data, m);
    let dk = data.take(k);
    let pk = payload_bits(t, dk);
    let e = start + pk.len();
    let s = data[k];
    let i = symbol_index(t, s);
    assert(has_symbol(t, data[k]));
    let code = code_of(t, s);
    assert(data.take(k + 1).drop_last() == dk);
    assert(data.take(k + 1).last() == s);
    let pk1 = payload_bits(t, data.take(k + 1));
    assert(pk1 == pk + code);
    lemma_payload_prefix(t, data, k + 1);
    assert forall|x: int| 0 <= x < pk1.len() implies bits[start + x] == pk1[x] by {
        assert(bits.subrange(start, start + pl.len())[x] == pl[x]);
        assert(pl.subrange(0, pk1.len() as int)[x] == pk1[x]);
    }
    assert(cut.subrange(start, e) =~= pk) by {
        assert forall|x: int| 0 <= x < pk.len() implies cut.subrange(start, e)[x] == pk[x] by {
            assert(pk1[x] == pk[x]);
        }
    }
    assert forall|x: int| 0 <= x < dk.len() implies has_symbol(t, #[trigger] dk[x]) by {
        assert(dk[x] == data[x]);
    }
    lemma_decode_payload(cut, start, t, dk);
    lemma_first_match_sound(t, cut, e, 0);
    if first_match(t, cut, e, 0) is Some {
        let j = first_match(t, cut, e, 0).unwrap();
        let cj = t[j].1;
        assert(cj.len() < code.len());
        assert(code.subrange(0, cj.len() as int) =~= cj) by {
            assert forall|x: int| 0 <= x < cj.len() implies code[x] == cj[x] by {
                assert(pk1[pk.len() + x] == code[x]);
                assert(cut.subrange(e, e + cj.len())[x] == cj[x]);
            }
        }
        assert(is_prefix(t[j].1, t[i].1));
        assert(false);
    }
    assert(decode_payload(t, cut, start, (k + 1) as nat) is None);
    lemma_decode_payload_none(t, cut, start, (k + 1) as nat, data.len());
}

proof fn lemma_parse_table_codes(bits: Seq<bool>, pos: int, n: nat)
    ensures
        parse_table(bits, pos, n) matches Some((t, q)) ==> codes_nonempty(t),
    decreases n,
{
    if n > 0 {
        lemma_parse_table_codes(bits, pos, (n - 1) as nat);
        if let Some((t, q)) = parse_table(bits, pos, n) {
            let (t1, p1) = parse_table(bits, pos, (n - 1) as nat).unwrap();
            assert(t == t1.push(parse_entry(bits, p1).unwrap().0));
            assert forall|i: int| 0 <= i < t.len() implies (#[trigger] t[i]).1.len() > 0 by {
                if i < t1.len() {
                    assert(t[i] == t1[i]);
                }
            }
        }
    }
}

proof fn lemma_payload_progress(t: Seq<(u8, Seq<bool>)>, bits: Seq<bool>, pos: int, k: nat)
    requires
        codes_nonempty(t),
    ensures
        decode_payload(t, bits, pos, k) matches Some((d, q)) ==> d.len() == k && q >= pos + k && (k
            > 0 ==> q <= bits.len()),
    decreases k,
{
    if k > 0 {
        lemma_payload_progress(t, bits, pos, (k - 1) as nat);
        if let Some((d1, p1)) = decode_payload(t, bits, pos, (k - 1) as nat) {
            lemma_first_match_sound(t, bits, p1, 0);
        }
    }
}

/// Every decoded symbol takes at least one bit of the stream, so a stream of
/// `n` bytes decodes to at most `8 * n` symbols.
pub proof fn lemma_decoded_len_bound(bits: Seq<bool>)
    ensures
        decode_stream(bits) matches Some(d) ==> d.len() <= bits.len(),
{
    if let Some((n, at1)) = read_uint(bits, 0, 32) {
        lemma_parse_table_codes(bits, at1, n);
        if let Some((t, at2)) = parse_table(bits, at1, n) {
            if let Some((count, at3)) = read_uint(bits, at2, 64) {
                lemma_payload_progress(t, bits, at3, count);
            }
        }
    }
}

/// Why a stream could not be made or read.
#[derive(PartialEq, Eq, Structural, Debug, Clone, Copy)]
pub enum CodecError {
    /// There is nothing to compress.
    EmptyInput,
    /// The stream is cut short, or its table holds an empty code or a code
    /// that is a prefix of another.
    Malformed,
}

/// Appends the `width` low bits of `v`, most significant first.
fn push_uint(out: &mut Vec<bool>, v: u64, width: usize)
    ensures
        final(out)@ == old(out)@ + uint_bits(v as nat, width as nat),
    decreases width,
{
    if width > 0 {
        push_uint(out, v / 2, width - 1);
        out.push(v % 2 == 1);
        assert(out@ =~= old(out)@ + uint_bits(v as nat, width as nat));
    } else {
        assert(out@ =~= old(out)@ + uint_bits(v as nat, width as nat));
    }
}

fn append_bits(out: &mut Vec<bool>, c: &Vec<bool>)
    ensures
        final(out)@ == old(out)@ + c@,
{
    let mut i: usize = 0;
    while i < c.len()
        invariant
            i <= c.len(),
            out@ == old(out)@ + c@.subrange(0, i as int),
        decreases c.len() - i,
    {
        out.push(c[i]);
        i = i + 1;
        assert(out@ =~= old(out)@ + c@.subrange(0, i as int));
    }
    assert(c@.subrange(0, i as int) =~= c@);
}

fn slice_bits(bits: &Vec<bool>, from: usize, to: usize) -> (r: Vec<bool>)
    requires
        from <= to <= bits.len(),
    ensures
        r@ == bits@.subrange(from as int, to as int),
{
    let mut r: Vec<bool> = Vec::new();
    let mut i: usize = from;
    while i < to
        invariant
            from <= i <= to,
            to <= bits.len(),
            r@ == bits@.subrange(from as int, i as int),
        decreases to - i,
    {
        r.push(bits[i]);
        i = i + 1;
        assert(r@ =~= bits@.subrange(from as int, i as int));
    }
    r
}

/// The bits of the stream for `data` under `table`, before the fill bits.
pub fn encode_bits(table: &Vec<CodeEntry>, data: &Vec<u8>) -> (r: Vec<bool>)
    requires
        table_fits(table_view(table@), data@),
        distinct_symbols(table_view(table@)),
    ensures
        r@ == stream_bits(table_view(table@), data@),
{
    let ghost tv = table_view(table@);
    let mut out: Vec<bool> = Vec::new();
    push_uint(&mut out, table.len() as u64, 32);
    let ghost head = out@;
    let mut k: usize = 0;
    while k < table.len()
        invariant
            k <= table.len(),
            tv == table_view(table@),
            head == uint_bits(tv.len() as nat, 32),
            out@ == head + table_bits(tv.subrange(0, k as int)),
        decreases table.len() - k,
    {
        let e = &table[k];
        let ghost before = out@;
        push_uint(&mut out, e.symbol as u64, 8);
        push_uint(&mut out, e.code.len() as u64, 32);
        append_bits(&mut out, &e.code);
        proof {
            assert(tv.subrange(0, k + 1).drop_last() =~= tv.subrange(0, k as int));
            assert(tv[k as int] == (e.symbol, e.code@));
            assert(out@ =~= before + entry_bits(tv[k as int]));
        }
        k = k + 1;
        assert(out@ =~= head + table_bits(tv.subrange(0, k as int)));
    }
    assert(tv.subrange(0, k as int) =~= tv);
    push_uint(&mut out, data.len() as u64, 64);
    let ghost body = out@;
    let mut idx: Vec<usize> = Vec::new();
    let mut s: usize = 0;
    while s < 256
        invariant
            s <= 256,
            idx.len() == s,
            forall|j: int| 0 <= j < s ==> idx@[j] == table.len(),
        decreases 256 - s,
    {
        idx.push(table.len());
        s = s + 1;
    }
    k = 0;
    while k < table.len()
        invariant
            k <= table.len(),
            tv == table_view(table@),
            distinct_symbols(tv),
            idx.len() == 256,
            forall|t: int| 0 <= t < 256 ==> #[trigger] idx@[t] == table.len() || (idx@[t] < k && tv[idx@[t] as int].0 == t),
            forall|j: int| 0 <= j < k ==> idx@[(#[trigger] tv[j]).0 as int] == j,
        decreases table.len() - k,
    {
        let ghost old_idx = idx@;
        idx.set(table[k].symbol as usize, k);
        assert(tv[k as int].0 == table@[k as int].symbol);
        assert forall|j: int| 0 <= j < k + 1 implies idx@[(#[trigger] tv[j]).0 as int] == j by {
            if j < k {
                assert(tv[j].0 != tv[k as int].0);
                assert(idx@[tv[j].0 as int] == old_idx[tv[j].0 as int]);
            }
        }
        k = k + 1;
    }
    let mut i: usize = 0;
    while i < data.len()
        invariant
            i <= data.len(),
            tv == table_view(table@),
            table_fits(tv, data@),
            distinct_symbols(tv),
            idx.len() == 256,
            forall|j: int| 0 <= j < tv.len() ==> idx@[(#[trigger] tv[j]).0 as int] == j,
            out@ == body + payload_bits(tv, data@.subrange(0, i as int)),
        decreases data.len() - i,
    {
        let d = data[i];
        let j = idx[d as usize];
        proof {
            assert(has_symbol(tv, data@[i as int]));
            let w = choose|w: int| 0 <= w < tv.len() && (#[trigger] tv[w]).0 == d;
            assert(idx@[tv[w].0 as int] == w);
            let c = symbol_index(tv, d);
            assert(c == w);
            assert(code_of(tv, d) == table@[j as int].code@);
            assert(data@.subrange(0, i + 1).drop_last() =~= data@.subrange(0, i as int));
        }
        append_bits(&mut out, &table[j].code);
        i = i + 1;
        assert(out@ =~= body + payload_bits(tv, data@.subrange(0, i as int)));
    }
    assert(data@.subrange(0, i as int) =~= data@);
    assert(out@ =~= stream_bits(tv, data@));
    out
}

/// The unsigned integer of `width` bits at `pos`, and the position after it.
fn read_uint_at(bits: &Vec<bool>, pos: usize, width: usize) -> (r: Option<(u64, usize)>)
    requires
        width <= 64,
    ensures
        read_uint(bits@, pos as int, width as nat) is None <==> r is None,
        r matches Some((v, p)) ==> read_uint(bits@, pos as int, width as nat) == Some(
            (v as nat, p as int),
        ),
{
    if pos > bits.len() || width > bits.len() - pos {
        return None;
    }
    let mut acc: u64 = 0;
    let mut i: usize = 0;
    proof {
        vstd::arithmetic::power2::lemma2_to64();
    }
    while i < width
        invariant
            i <= width <= 64,
            pos + width <= bits.len(),
            acc as nat == bits_value(bits@.subrange(pos as int, pos + i)),
            acc < pow2(i as nat),
        decreases width - i,
    {
        proof {
            vstd::arithmetic::power2::lemma_pow2_unfold((i + 1) as nat);
            vstd::arithmetic::power2::lemma2_to64_rest();
            if i + 1 < 64 {
                vstd::arithmetic::power2::lemma_pow2_strictly_increases((i + 1) as nat, 64);
            }
            assert(bits@.subrange(pos as int, pos + i + 1).drop_last() =~= bits@.subrange(
                pos as int,
                pos + i,
            ));
        }
        acc = acc * 2 + if bits[pos + i] {
            1
        } else {
            0
        };
        i = i + 1;
    }
    Some((acc, pos + width))
}

fn matches_at_pos(bits: &Vec<bool>, pos: usize, c: &Vec<bool>) -> (r: bool)
    ensures
        r == matches_at(bits@, pos as int, c@),
{
    if pos > bits.len() || c.len() > bits.len() - pos {
        return false;
    }
    let mut k: usize = 0;
    while k < c.len()
        invariant
            k <= c.len(),
            pos + c.len() <= bits.len(),
            bits@.subrange(pos as int, pos + k) =~= c@.subrange(0, k as int),
        decreases c.len() - k,
    {
        if bits[pos + k] != c[k] {
            assert(bits@.subrange(pos as int, pos + c.len())[k as int] != c@[k as int]);
            return false;
        }
        k = k + 1;
        assert(bits@.subrange(pos as int, pos + k) =~= c@.subrange(0, k as int));
    }
    assert(c@.subrange(0, k as int) =~= c@);
    true
}

/// The first pair of the table whose code the bits at `pos` start with.
fn find_code(table: &Vec<CodeEntry>, bits: &Vec<bool>, pos: usize) -> (r: Option<usize>)
    ensures
        first_match(table_view(table@), bits@, pos as int, 0) == match r {
            Some(j) => Some(j as int),
            None => None,
        },
        r matches Some(j) ==> j < table.len() && matches_at(bits@, pos as int, table@[j as int].code@),
{
    let ghost tv = table_view(table@);
    let mut j: usize = 0;
    while j < table.len()
        invariant
            j <= table.len(),
            tv == table_view(table@),
            first_match(tv, bits@, pos as int, 0) == first_match(tv, bits@, pos as int, j as int),
        decreases table.len() - j,
    {
        assert(tv[j as int].1 == table@[j as int].code@);
        if matches_at_pos(bits, pos, &table[j].code) {
            return Some(j);
        }
        j = j + 1;
    }
    None
}

fn parse_entry_at(bits: &Vec<bool>, pos: usize) -> (r: Option<(CodeEntry, usize)>)
    ensures
        parse_entry(bits@, pos as int) is None <==> r is None,
        r matches Some((e, p)) ==> parse_entry(bits@, pos as int) == Some(
            ((e.symbol, e.code@), p as int),
        ),
{
    let (sym, at1) = match read_uint_at(bits, pos, 8) {
        Some(x) => x,
        None => {
            return None;
        },
    };
    let (len, at2) = match read_uint_at(bits, at1, 32) {
        Some(x) => x,
        None => {
            return None;
        },
    };
    proof {
        lemma_bits_value_bound(bits@.subrange(pos as int, pos + 8));
        vstd::arithmetic::power2::lemma2_to64();
    }
    if len == 0 || len > (bits.len() - at2) as u64 {
        return None;
    }
    let end = at2 + len as usize;
    let code = slice_bits(bits, at2, end);
    Some((CodeEntry { symbol: sym as u8, code }, end))
}

proof fn lemma_parse_table_none(bits: Seq<bool>, pos: int, k: nat, n: nat)
    requires
        k <= n,
        parse_table(bits, pos, k) is None,
    ensures
        parse_table(bits, pos, n) is None,
    decreases n,
{
    if k < n {
        lemma_parse_table_none(bits, pos, k, (n - 1) as nat);
    }
}

proof fn lemma_decode_payload_none(
    t: Seq<(u8, Seq<bool>)>,
    bits: Seq<bool>,
    pos: int,
    k: nat,
    n: nat,
)
    requires
        k <= n,
        decode_payload(t, bits, pos, k) is None,
    ensures
        decode_payload(t, bits, pos, n) is None,
    decreases n,
{
    if k < n {
        lemma_decode_payload_none(t, bits, pos, k, (n - 1) as nat);
    }
}

fn is_prefix_of(a: &Vec<bool>, b: &Vec<bool>) -> (r: bool)
    ensures
        r == is_prefix(a@, b@),
{
    if a.len() > b.len() {
        return false;
    }
    let mut k: usize = 0;
    while k < a.len()
        invariant
            k <= a.len() <= b.len(),
            b@.subrange(0, k as int) =~= a@.subrange(0, k as int),
        decreases a.len() - k,
    {
        if a[k] != b[k] {
            assert(b@.subrange(0, a.len() as int)[k as int] != a@[k as int]);
            return false;
        }
        k = k + 1;
        assert(b@.subrange(0, k as int) =~= a@.subrange(0, k as int));
    }
    assert(a@.subrange(0, k as int) =~= a@);
    true
}

/// Whether no code of the table is a prefix of another code of it.
fn table_is_prefix_free(table: &Vec<CodeEntry>) -> (r: bool)
    ensures
        r == prefix_free(table_view(table@)),
{
    let ghost tv = table_view(table@);
    let mut i: usize = 0;
    while i < table.len()
        invariant
            i <= table.len(),
            tv == table_view(table@),
            forall|a: int, b: int|
                0 <= a < i && 0 <= b < tv.len() && a != b ==> !is_prefix(
                    #[trigger] tv[a].1,
                    #[trigger] tv[b].1,
                ),
        decreases table.len() - i,
    {
        let mut j: usize = 0;
        while j < table.len()
            invariant
                i < table.len(),
                j <= table.len(),
                tv == table_view(table@),
                forall|a: int, b: int|
                    0 <= a < i && 0 <= b < tv.len() && a != b ==> !is_prefix(
                        #[trigger] tv[a].1,
                        #[trigger] tv[b].1,
                    ),
                forall|b: int| 0 <= b < j && b != i ==> !is_prefix(tv[i as int].1, #[trigger] tv[b].1),
            decreases table.len() - j,
        {
            assert(tv[i as int].1 == table@[i as int].code@);
            assert(tv[j as int].1 == table@[j as int].code@);
            if j != i && is_prefix_of(&table[i].code, &table[j].code) {
                assert(!prefix_free(tv)) by {
                    assert(is_prefix(tv[i as int].1, tv[j as int].1));
                }
                return false;
            }
            j = j + 1;
        }
        i = i + 1;
    }
    true
}

/// Decodes a stream given as bits: the symbols it holds, or `Malformed`.
pub fn decode_bits(bits: &Vec<bool>) -> (r: Result<Vec<u8>, CodecError>)
    ensures
        decode_stream(bits@) is None <==> r is Err,
        r matches Ok(v) ==> decode_stream(bits@) == Some(v@),
        r matches Err(e) ==> e == CodecError::Malformed,
{
    let (n, at1) = match read_uint_at(bits, 0, 32) {
        Some(x) => x,
        None => {
            return Err(CodecError::Malformed);
        },
    };
    let mut table: Vec<CodeEntry> = Vec::new();
    let mut pos = at1;
    let mut i: u64 = 0;
    while i < n
        invariant
            i <= n,
            read_uint(bits@, 0, 32) == Some((n as nat, at1 as int)),
            parse_table(bits@, at1 as int, i as nat) == Some((table_view(table@), pos as int)),
        decreases n - i,
    {
        match parse_entry_at(bits, pos) {
            Some((e, q)) => {
                let ghost e_view = (e.symbol, e.code@);
                table.push(e);
                pos = q;
                assert(table_view(table@) =~= table_view(table@.drop_last()).push(e_view));
            },
            None => {
                proof {
                    assert(parse_table(bits@, at1 as int, (i + 1) as nat) is None);
                    lemma_parse_table_none(bits@, at1 as int, (i + 1) as nat, n as nat);
                }
                return Err(CodecError::Malformed);
            },
        }
        i = i + 1;
    }
    let ghost tv = table_view(table@);
    if !table_is_prefix_free(&table) {
        return Err(CodecError::Malformed);
    }
    let at2 = pos;
    let (count, at3) = match read_uint_at(bits, pos, 64) {
        Some(x) => x,
        None => {
            return Err(CodecError::Malformed);
        },
    };
    let mut out: Vec<u8> = Vec::new();
    pos = at3;
    let mut k: u64 = 0;
    while k < count
        invariant
            k <= count,
            tv == table_view(table@),
            read_uint(bits@, 0, 32) == Some((n as nat, at1 as int)),
            parse_table(bits@, at1 as int, n as nat) == Some((tv, at2 as int)),
            read_uint(bits@, at2 as int, 64) == Some((count as nat, at3 as int)),
            decode_payload(tv, bits@, at3 as int, k as nat) == Some((out@, pos as int)),
        decreases count - k,
    {
        match find_code(&table, bits, pos) {
            Some(j) => {
                assert(tv[j as int] == (table@[j as int].symbol, table@[j as int].code@));
                out.push(table[j].symbol);
                assert(pos + table@[j as int].code@.len() <= bits.len());
                pos = pos + table[j].code.len();
            },
            None => {
                proof {
                    assert(decode_payload(tv, bits@, at3 as int, (k + 1) as nat) is None);
                    lemma_decode_payload_none(tv, bits@, at3 as int, (k + 1) as nat, count as nat);
                }
                return Err(CodecError::Malformed);
            },
        }
        k = k + 1;
    }
    Ok(out)
}

/// `out` is a compressed form of `data`: the stream of `data` under the code
/// table of a Huffman tree of `data`, with one pair for each distinct symbol
/// of `data`, packed into bytes.
/// A Huffman tree of `data`: each leaf weighs the count of its symbol, each
/// internal node the sum of its children, the root the length of `data`, and
/// the internal nodes, in the order they were made, weigh no less than those
/// made before them.
#[verifier::opaque]
pub open spec fn huffman_tree_of(nodes: Seq<TreeNode>, root: int, data: Seq<u8>) -> bool {
    &&& nodes_wf(nodes)
    &&& weights_wf(nodes)
    &&& 0 <= root < nodes.len()
    &&& node_weight(nodes[root]) == data.len()
    &&& forall|k: int|
        0 <= k < nodes.len() ==> match #[trigger] nodes[k] {
            TreeNode::Leaf { symbol, weight } => weight == count(data, symbol),
            TreeNode::Internal { .. } => true,
        }
    &&& forall|a: int, b: int|
        0 <= a < b < nodes.len() && is_internal(#[trigger] nodes[a]) && is_internal(
            #[trigger] nodes[b],
        ) ==> node_weight(nodes[a]) <= node_weight(nodes[b])
}

/// The code table `t` is read off a Huffman tree of `data` that has one leaf
/// per pair of `t` and one internal node per merge.
pub open spec fn huffman_table_of(t: Seq<(u8, Seq<bool>)>, data: Seq<u8>) -> bool {
    exists|nodes: Seq<TreeNode>, root: int|
        huffman_tree_of(nodes, root, data) && #[trigger] codes_follow_tree(t, nodes, root)
            && nodes.len() + 1 == 2 * t.len()
}

pub open spec fn compressed_form(out: Seq<u8>, data: Seq<u8>) -> bool {
    exists|t: Seq<(u8, Seq<bool>)>|
        {
            &&& huffman_table_of(t, data)
            &&& table_fits(t, data)
            &&& distinct_symbols(t)
            &&& forall|s: u8| has_symbol(t, s) <==> data.contains(s)
            &&& unpack(out) == padded(#[trigger] stream_bits(t, data))
        }
}

/// Decompressing a compressed form of `data` gives back `data`.
pub proof fn lemma_round_trip(data: Seq<u8>, out: Seq<u8>)
    requires
        compressed_form(out, data),
    ensures
        decode_stream(unpack(out)) == Some(data),
{
    let t = choose|t: Seq<(u8, Seq<bool>)>|
        {
            &&& huffman_table_of(t, data)
            &&& table_fits(t, data)
            &&& distinct_symbols(t)
            &&& forall|s: u8| has_symbol(t, s) <==> data.contains(s)
            &&& unpack(out) == padded(#[trigger] stream_bits(t, data))
        };
    let sb = stream_bits(t, data);
    lemma_decode_stream(t, data, padded(sb).subrange(sb.len() as int, padded(sb).len() as int));
    assert(padded(sb) =~= sb + padded(sb).subrange(sb.len() as int, padded(sb).len() as int));
}

/// Two sequences of distinct symbols, one of leaves and one of table pairs,
/// that both hold exactly the symbols of `data` have the same length.
proof fn lemma_same_symbol_count(qn: Seq<TreeNode>, tv: Seq<(u8, Seq<bool>)>, data: Seq<u8>)
    requires
        forall|k: int|
            0 <= k < qn.len() ==> match #[trigger] qn[k] {
                TreeNode::Leaf { symbol, .. } => data.contains(symbol),
                TreeNode::Internal { .. } => false,
            },
        forall|a: int, b: int|
            0 <= a < b < qn.len() ==> !is_leaf_of(#[trigger] qn[a], leaf_symbol(#[trigger] qn[b])),
        forall|x: u8| data.contains(x) ==> exists|k: int| 0 <= k < qn.len() && is_leaf_of(#[trigger] qn[k], x),
        distinct_symbols(tv),
        forall|x: u8| has_symbol(tv, x) <==> data.contains(x),
    ensures
        qn.len() == tv.len(),
{
    let sa = Seq::new(qn.len(), |k: int| leaf_symbol(qn[k]));
    let sb = Seq::new(tv.len(), |k: int| tv[k].0);
    assert(sa.no_duplicates()) by {
        assert forall|x: int, y: int| 0 <= x < sa.len() && 0 <= y < sa.len() && x != y implies sa[x]
            != sa[y] by {
            if x < y {
                assert(!is_leaf_of(qn[x], leaf_symbol(qn[y])));
            } else {
                assert(!is_leaf_of(qn[y], leaf_symbol(qn[x])));
            }
            assert(qn[x] is Leaf);
            assert(qn[y] is Leaf);
        }
    }
    assert(sb.no_duplicates()) by {
        assert forall|x: int, y: int| 0 <= x < sb.len() && 0 <= y < sb.len() && x != y implies sb[x]
            != sb[y] by {
            assert(tv[x].0 != tv[y].0);
        }
    }
    assert(sa.to_set() =~= sb.to_set()) by {
        assert forall|x: u8| sa.to_set().contains(x) implies sb.to_set().contains(x) by {
            let k = choose|k: int| 0 <= k < sa.len() && sa[k] == x;
            assert(qn[k] is Leaf);
            assert(has_symbol(tv, x));
            let i = choose|i: int| 0 <= i < tv.len() && (#[trigger] tv[i]).0 == x;
            assert(sb[i] == x);
        }
        assert forall|x: u8| sb.to_set().contains(x) implies sa.to_set().contains(x) by {
            let i = choose|i: int| 0 <= i < sb.len() && sb[i] == x;
            assert(has_symbol(tv, x));
            let k = choose|k: int| 0 <= k < qn.len() && is_leaf_of(#[trigger] qn[k], x);
            assert(sa[k] == x);
        }
    }
    sa.unique_seq_to_set();
    sb.unique_seq_to_set();
}

/// Compresses `data`: counts its bytes, builds a Huffman tree, reads the code
/// table off it and writes the stream. Empty input is refused.
pub fn compress(data: &Vec<u8>) -> (r: Result<Vec<u8>, CodecError>)
    ensures
        data.len() == 0 <==> r is Err,
        r matches Err(e) ==> e == CodecError::EmptyInput,
        r matches Ok(out) ==> compressed_form(out@, data@),
{
    if data.len() == 0 {
        return Err(CodecError::EmptyInput);
    }
    let freqs = count_frequencies(data);
    proof {
        lemma_count_pos(data@, data@[0]);
        assert(data@.contains(data@[0]));
    }
    let queue = construct_min_heap_with_nodes(&freqs);
    let ghost qn = queue.nodes@;
    let ghost qw = queue.weights@;
    let ghost qr = queue.roots@;
    let tree = build_huffman_tree(queue);
    let table = encode_symbol_table(&tree);
    let ghost tv = table_view(table@);
    assert(huffman_tree_of(tree.nodes@, tree.root as int, data@)) by {
        reveal(huffman_tree_of);
        assert forall|k: int| 0 <= k < tree.nodes@.len() implies match #[trigger] tree.nodes@[k] {
            TreeNode::Leaf { symbol, weight } => weight == count(data@, symbol),
            TreeNode::Internal { .. } => true,
        } by {
            if k < qn.len() {
                assert(tree.nodes@[k] == tree.nodes@.subrange(0, qn.len() as int)[k]);
                assert(qn[k] is Leaf);
            } else {
                assert(is_internal(tree.nodes@[k]));
            }
        }
        assert forall|a: int, b: int|
            0 <= a < b < tree.nodes@.len() && is_internal(#[trigger] tree.nodes@[a]) && is_internal(
                #[trigger] tree.nodes@[b],
            ) implies node_weight(tree.nodes@[a]) <= node_weight(tree.nodes@[b]) by {
            if a < qn.len() {
                assert(tree.nodes@[a] == tree.nodes@.subrange(0, qn.len() as int)[a]);
                assert(qn[a] is Leaf);
            }
        }
    }
    assert forall|s: u8| has_symbol(tv, s) <==> data@.contains(s) by {
        lemma_count_pos(data@, s);
        if has_leaf(tree.nodes@, tree.root as int, s) {
            let p = choose|p: Seq<bool>| leaf_at(tree.nodes@, tree.root as int, p) == Some(s);
            lemma_leaf_in_arena(tree.nodes@, tree.root as int, p, s);
            let k = choose|k: int| 0 <= k < tree.nodes@.len() && is_leaf_of(#[trigger] tree.nodes@[k], s);
            if k >= qn.len() {
                assert(is_internal(tree.nodes@[k]));
            }
            assert(tree.nodes@[k] == tree.nodes@.subrange(0, qn.len() as int)[k]);
        }
    }
    assert forall|k: int| 0 <= k < data@.len() implies has_symbol(tv, #[trigger] data@[k]) by {
        assert(data@.contains(data@[k]));
    }
    assert forall|k: int| 0 <= k < qn.len() implies match #[trigger] qn[k] {
        TreeNode::Leaf { symbol, .. } => data@.contains(symbol),
        TreeNode::Internal { .. } => false,
    } by {
        if let TreeNode::Leaf { symbol, .. } = qn[k] {
            lemma_count_pos(data@, symbol);
        }
    }
    assert forall|x: u8| data@.contains(x) implies exists|k: int|
        0 <= k < qn.len() && is_leaf_of(#[trigger] qn[k], x) by {
        lemma_count_pos(data@, x);
        assert(forest_has(qn, qr, x));
        let r = choose|r: usize| qr.contains(r) && has_leaf(qn, r as int, x);
        let p = choose|p: Seq<bool>| leaf_at(qn, r as int, p) == Some(x);
        lemma_leaf_in_arena(qn, r as int, p, x);
    }
    proof {
        lemma_same_symbol_count(qn, tv, data@);
    }
    assert(tree.nodes@.len() + 1 == 2 * tv.len());
    assert(huffman_table_of(tv, data@));
    assert forall|i: int| 0 <= i < tv.len() implies (#[trigger] tv[i]).1.len() <= u32::MAX by {
        assert(tv[i].1 == table@[i].code@);
    }
    let bits = encode_bits(&table, data);
    let out = pack_bits(&bits);
    Ok(out)
}

/// Decompresses a stream made by `compress`: the bytes it holds, or
/// `Malformed` where the stream is cut short or its table is not a prefix code.
pub fn decompress(bytes: &Vec<u8>) -> (r: Result<Vec<u8>, CodecError>)
    ensures
        decode_stream(unpack(bytes@)) is None <==> r is Err,
        r matches Ok(v) ==> decode_stream(unpack(bytes@)) == Some(v@),
        r matches Err(e) ==> e == CodecError::Malformed,
{
    let bits = unpack_bytes(bytes);
    decode_bits(&bits)
}

} // verus!
