//! The archive format: a plain concatenation of named files, no compression.
//!
//! Layout, every integer as eight big-endian bytes: the file count; then for
//! each file the length of its name, the name, the length of its contents and
//! the contents. Bytes after the last file are ignored.

use vstd::arithmetic::power2::pow2;
use vstd::prelude::*;

verus! {

/// One file of an archive: its name and its contents, as bytes.
pub struct ArchiveEntry {
    pub name: Vec<u8>,
    pub contents: Vec<u8>,
}

pub open spec fn entries_view(es: Seq<ArchiveEntry>) -> Seq<(Seq<u8>, Seq<u8>)> {
    Seq::new(es.len(), |i: int| (es[i].name@, es[i].contents@))
}

/// The `n` low bytes of `v`, most significant first.
pub open spec fn be_bytes(v: nat, n: nat) -> Seq<u8>
    decreases n,
{
    if n == 0 {
        Seq::empty()
    } else {
        be_bytes(v / 256, (n - 1) as nat).push((v % 256) as u8)
    }
}

/// The number whose big-endian bytes are `s`.
pub open spec fn be_value(s: Seq<u8>) -> nat
    decreases s.len(),
{
    if s.len() == 0 {
        0
    } else {
        256 * be_value(s.drop_last()) + s.last() as nat
    }
}

pub open spec fn record_bytes(e: (Seq<u8>, Seq<u8>)) -> Seq<u8> {
    be_bytes(e.0.len(), 8) + e.0 + be_bytes(e.1.len(), 8) + e.1
}

pub open spec fn records_bytes(es: Seq<(Seq<u8>, Seq<u8>)>) -> Seq<u8>
    decreases es.len(),
{
    if es.len() == 0 {
        Seq::empty()
    } else {
        records_bytes(es.drop_last()) + record_bytes(es.last())
    }
}

/// The bytes of an archive of `es`.
pub open spec fn archive_layout(es: Seq<(Seq<u8>, Seq<u8>)>) -> Seq<u8> {
    be_bytes(es.len(), 8) + records_bytes(es)
}

/// The eight-byte integer at `pos`, and the position after it.
pub open spec fn read_be(bytes: Seq<u8>, pos: int) -> Option<(nat, int)> {
    if 0 <= pos && pos + 8 <= bytes.len() {
        Some((be_value(bytes.subrange(pos, pos + 8)), pos + 8))
    } else {
        None
    }
}

/// `len` bytes at `pos`, and the position after them.
pub open spec fn read_run(bytes: Seq<u8>, pos: int, len: nat) -> Option<(Seq<u8>, int)> {
    if 0 <= pos && pos + len <= bytes.len() {
        Some((bytes.subrange(pos, pos + len), pos + len))
    } else {
        None
    }
}

pub open spec fn parse_record(bytes: Seq<u8>, pos: int) -> Option<((Seq<u8>, Seq<u8>), int)> {
    match read_be(bytes, pos) {
        None => None,
        Some((nl, at1)) => match read_run(bytes, at1, nl) {
            None => None,
            Some((name, at2)) => match read_be(bytes, at2) {
                None => None,
                Some((cl, at3)) => match read_run(bytes, at3, cl) {
                    None => None,
                    Some((contents, at4)) => Some(((name, contents), at4)),
                },
            },
        },
    }
}

pub open spec fn parse_records(bytes: Seq<u8>, pos: int, n: nat) -> Option<
    (Seq<(Seq<u8>, Seq<u8>)>, int),
>
    decreases n,
{
    if n == 0 {
        Some((Seq::empty(), pos))
    } else {
        match parse_records(bytes, pos, (n - 1) as nat) {
            None => None,
            Some((es, p)) => match parse_record(bytes, p) {
                None => None,
                Some((e, q)) => Some((es.push(e), q)),
            },
        }
    }
}

/// The files of an archive, or `None` where it is cut short.
pub open spec fn parse_archive(bytes: Seq<u8>) -> Option<Seq<(Seq<u8>, Seq<u8>)>> {
    match read_be(bytes, 0) {
        None => None,
        Some((n, p)) => match parse_records(bytes, p, n) {
            None => None,
            Some((es, _)) => Some(es),
        },
    }
}

pub proof fn lemma_be_bytes_len(v: nat, n: nat)
    ensures
        be_bytes(v, n).len() == n,
    decreases n,
{
    if n > 0 {
        lemma_be_bytes_len(v / 256, (n - 1) as nat);
    }
}

pub proof fn lemma_be_round_trip(v: nat, n: nat)
    requires
        v < pow2(8 * n),
    ensures
        be_value(be_bytes(v, n)) == v,
    decreases n,
{
    if n > 0 {
        let m = (n - 1) as nat;
        vstd::arithmetic::power2::lemma_pow2_adds(8 * m, 8);
        vstd::arithmetic::power2::lemma2_to64();
        assert(8 * n == 8 * m + 8);
        assert(v / 256 < pow2(8 * m));
        lemma_be_round_trip(v / 256, m);
        assert(be_bytes(v, n).drop_last() == be_bytes(v / 256, m));
        assert(be_bytes(v, n).last() as nat == v % 256);
        vstd::arithmetic::div_mod::lemma_fundamental_div_mod(v as int, 256);
    } else {
        vstd::arithmetic::power2::lemma2_to64();
    }
}

pub proof fn lemma_be_value_bound(s: Seq<u8>)
    ensures
        be_value(s) < pow2(8 * s.len()),
    decreases s.len(),
{
    if s.len() == 0 {
        vstd::arithmetic::power2::lemma2_to64();
    } else {
        let m = (s.len() - 1) as nat;
        lemma_be_value_bound(s.drop_last());
        vstd::arithmetic::power2::lemma_pow2_adds(8 * m, 8);
        vstd::arithmetic::power2::lemma2_to64();
        assert(8 * s.len() == 8 * m + 8);
    }
}

proof fn lemma_split(bytes: Seq<u8>, start: int, x: Seq<u8>, y: Seq<u8>)
    requires
        0 <= start,
        start + x.len() + y.len() <= bytes.len(),
        bytes.subrange(start, start + x.len() + y.len()) == x + y,
    ensures
        bytes.subrange(start, start + x.len()) == x,
        bytes.subrange(start + x.len(), start + x.len() + y.len()) == y,
{
    assert forall|k: int| 0 <= k < x.len() implies bytes.subrange(start, start + x.len())[k] == x[k] by {
        assert(bytes.subrange(start, start + x.len() + y.len())[k] == (x + y)[k]);
    }
    assert forall|k: int| 0 <= k < y.len() implies bytes.subrange(
        start + x.len(),
        start + x.len() + y.len(),
    )[k] == y[k] by {
        assert(bytes.subrange(start, start + x.len() + y.len())[x.len() + k] == (x + y)[x.len() + k]);
        assert(bytes.subrange(start, start + x.len() + y.len())[x.len() + k] == bytes[start + x.len() + k]);
        assert(bytes.subrange(start + x.len(), start + x.len() + y.len())[k] == bytes[start + x.len() + k]);
    }
    assert(bytes.subrange(start, start + x.len()) =~= x);
    assert(bytes.subrange(start + x.len(), start + x.len() + y.len()) =~= y);
}

proof fn lemma_read_be_at(bytes: Seq<u8>, pos: int, v: nat)
    requires
        0 <= pos,
        pos + 8 <= bytes.len(),
        v <= u64::MAX,
        bytes.subrange(pos, pos + 8) == be_bytes(v, 8),
    ensures
        read_be(bytes, pos) == Some((v, pos + 8)),
{
    vstd::arithmetic::power2::lemma2_to64_rest();
    lemma_be_round_trip(v, 8);
}

proof fn lemma_parse_record(bytes: Seq<u8>, pos: int, e: (Seq<u8>, Seq<u8>))
    requires
        0 <= pos,
        pos + record_bytes(e).len() <= bytes.len(),
        bytes.subrange(pos, pos + record_bytes(e).len()) == record_bytes(e),
        e.0.len() <= u64::MAX,
        e.1.len() <= u64::MAX,
    ensures
        parse_record(bytes, pos) == Some((e, pos + record_bytes(e).len())),
{
    let a = be_bytes(e.0.len(), 8);
    let c = be_bytes(e.1.len(), 8);
    lemma_be_bytes_len(e.0.len(), 8);
    lemma_be_bytes_len(e.1.len(), 8);
    lemma_split(bytes, pos, a + e.0 + c, e.1);
    lemma_split(bytes, pos, a + e.0, c);
    lemma_split(bytes, pos, a, e.0);
    lemma_read_be_at(bytes, pos, e.0.len());
    lemma_read_be_at(bytes, pos + 8 + e.0.len(), e.1.len());
}

proof fn lemma_parse_records(bytes: Seq<u8>, start: int, es: Seq<(Seq<u8>, Seq<u8>)>)
    requires
        0 <= start,
        start + records_bytes(es).len() <= bytes.len(),
        bytes.subrange(start, start + records_bytes(es).len()) == records_bytes(es),
        forall|i: int| 0 <= i < es.len() ==> (#[trigger] es[i]).0.len() <= u64::MAX && es[i].1.len() <= u64::MAX,
    ensures
        parse_records(bytes, start, es.len()) == Some((es, start + records_bytes(es).len())),
    decreases es.len(),
{
    if es.len() > 0 {
        let e1 = es.drop_last();
        lemma_split(bytes, start, records_bytes(e1), record_bytes(es.last()));
        assert forall|i: int| 0 <= i < e1.len() implies (#[trigger] e1[i]).0.len() <= u64::MAX
            && e1[i].1.len() <= u64::MAX by {
            assert(e1[i] == es[i]);
        }
        lemma_parse_records(bytes, start, e1);
        assert(es.last() == es[es.len() - 1]);
        lemma_parse_record(bytes, start + records_bytes(e1).len(), es.last());
        assert(e1.push(es.last()) == es);
    }
}

/// An archive of files read back gives the same files, whatever bytes follow it.
pub proof fn lemma_archive_round_trip(es: Seq<(Seq<u8>, Seq<u8>)>, extra: Seq<u8>)
    requires
        es.len() <= u64::MAX,
        forall|i: int| 0 <= i < es.len() ==> (#[trigger] es[i]).0.len() <= u64::MAX && es[i].1.len() <= u64::MAX,
    ensures
        parse_archive(archive_layout(es) + extra) == Some(es),
{
    let bytes = archive_layout(es) + extra;
    let a = be_bytes(es.len(), 8);
    let b = records_bytes(es);
    lemma_be_bytes_len(es.len(), 8);
    assert(bytes.subrange(0, (a + b).len() as int) =~= a + b);
    lemma_split(bytes, 0, a, b);
    lemma_read_be_at(bytes, 0, es.len());
    lemma_parse_records(bytes, 8, es);
}

/// Appends the `n` low bytes of `v`, most significant first.
fn push_be(out: &mut Vec<u8>, v: u64, n: usize)
    ensures
        final(out)@ == old(out)@ + be_bytes(v as nat, n as nat),
    decreases n,
{
    if n > 0 {
        push_be(out, v / 256, n - 1);
        out.push((v % 256) as u8);
        assert(out@ =~= old(out)@ + be_bytes(v as nat, n as nat));
    } else {
        assert(out@ =~= old(out)@ + be_bytes(v as nat, n as nat));
    }
}

fn append_bytes(out: &mut Vec<u8>, b: &Vec<u8>)
    ensures
        final(out)@ == old(out)@ + b@,
{
    let mut i: usize = 0;
    while i < b.len()
        invariant
            i <= b.len(),
            out@ == old(out)@ + b@.subrange(0, i as int),
        decreases b.len() - i,
    {
        out.push(b[i]);
        i = i + 1;
        assert(out@ =~= old(out)@ + b@.subrange(0, i as int));
    }
    assert(b@.subrange(0, i as int) =~= b@);
}

/// The bytes of an archive holding `entries`, in order.
pub fn archive_bytes(entries: &Vec<ArchiveEntry>) -> (r: Vec<u8>)
    ensures
        r@ == archive_layout(entries_view(entries@)),
{
    let ghost ev = entries_view(entries@);
    let mut out: Vec<u8> = Vec::new();
    push_be(&mut out, entries.len() as u64, 8);
    let ghost head = out@;
    let mut k: usize = 0;
    while k < entries.len()
        invariant
            k <= entries.len(),
            ev == entries_view(entries@),
            head == be_bytes(ev.len(), 8),
            out@ == head + records_bytes(ev.subrange(0, k as int)),
        decreases entries.len() - k,
    {
        let e = &entries[k];
        let ghost before = out@;
        push_be(&mut out, e.name.len() as u64, 8);
        append_bytes(&mut out, &e.name);
        push_be(&mut out, e.contents.len() as u64, 8);
        append_bytes(&mut out, &e.contents);
        proof {
            assert(ev.subrange(0, k + 1).drop_last() =~= ev.subrange(0, k as int));
            assert(ev[k as int] == (e.name@, e.contents@));
            assert(out@ =~= before + record_bytes(ev[k as int]));
        }
        k = k + 1;
        assert(out@ =~= head + records_bytes(ev.subrange(0, k as int)));
    }
    assert(ev.subrange(0, k as int) =~= ev);
    out
}

fn read_be_at(bytes: &Vec<u8>, pos: usize) -> (r: Option<(u64, usize)>)
    ensures
        read_be(bytes@, pos as int) is None <==> r is None,
        r matches Some((v, p)) ==> read_be(bytes@, pos as int) == Some((v as nat, p as int)),
{
    if pos > bytes.len() || 8 > bytes.len() - pos {
        return None;
    }
    let mut acc: u64 = 0;
    let mut i: usize = 0;
    while i < 8
        invariant
            i <= 8,
            pos + 8 <= bytes.len(),
            acc as nat == be_value(bytes@.subrange(pos as int, pos + i)),
        decreases 8 - i,
    {
        proof {
            lemma_be_value_bound(bytes@.subrange(pos as int, pos + i));
            vstd::arithmetic::power2::lemma2_to64();
            vstd::arithmetic::power2::lemma2_to64_rest();
            if i < 7 {
                vstd::arithmetic::power2::lemma_pow2_strictly_increases(8 * i as nat, 56);
            }
            assert(bytes@.subrange(pos as int, pos + i + 1).drop_last() =~= bytes@.subrange(
                pos as int,
                pos + i,
            ));
        }
        acc = acc * 256 + bytes[pos + i] as u64;
        i = i + 1;
    }
    Some((acc, pos + 8))
}

fn slice_bytes(bytes: &Vec<u8>, from: usize, to: usize) -> (r: Vec<u8>)
    requires
        from <= to <= bytes.len(),
    ensures
        r@ == bytes@.subrange(from as int, to as int),
{
    let mut r: Vec<u8> = Vec::new();
    let mut i: usize = from;
    while i < to
        invariant
            from <= i <= to,
            to <= bytes.len(),
            r@ == bytes@.subrange(from as int, i as int),
        decreases to - i,
    {
        r.push(bytes[i]);
        i = i + 1;
        assert(r@ =~= bytes@.subrange(from as int, i as int));
    }
    r
}

fn read_run_at(bytes: &Vec<u8>, pos: usize, len: u64) -> (r: Option<(Vec<u8>, usize)>)
    ensures
        read_run(bytes@, pos as int, len as nat) is None <==> r is None,
        r matches Some((v, p)) ==> read_run(bytes@, pos as int, len as nat) == Some((v@, p as int)),
{
    if pos > bytes.len() || len > (bytes.len() - pos) as u64 {
        return None;
    }
    let end = pos + len as usize;
    Some((slice_bytes(bytes, pos, end), end))
}

fn parse_record_at(bytes: &Vec<u8>, pos: usize) -> (r: Option<(ArchiveEntry, usize)>)
    ensures
        parse_record(bytes@, pos as int) is None <==> r is None,
        r matches Some((e, p)) ==> parse_record(bytes@, pos as int) == Some(
            ((e.name@, e.contents@), p as int),
        ),
{
    let (nl, at1) = match read_be_at(bytes, pos) {
        Some(x) => x,
        None => {
            return None;
        },
    };
    let (name, at2) = match read_run_at(bytes, at1, nl) {
        Some(x) => x,
        None => {
            return None;
        },
    };
    let (cl, at3) = match read_be_at(bytes, at2) {
        Some(x) => x,
        None => {
            return None;
        },
    };
    let (contents, at4) = match read_run_at(bytes, at3, cl) {
        Some(x) => x,
        None => {
            return None;
        },
    };
    Some((ArchiveEntry { name, contents }, at4))
}

proof fn lemma_parse_records_none(bytes: Seq<u8>, pos: int, k: nat, n: nat)
    requires
        k <= n,
        parse_records(bytes, pos, k) is None,
    ensures
        parse_records(bytes, pos, n) is None,
    decreases n,
{
    if k < n {
        lemma_parse_records_none(bytes, pos, k, (n - 1) as nat);
    }
}

/// The files of an archive, in order, or `None` where it is cut short.
pub fn unarchive_bytes(bytes: &Vec<u8>) -> (r: Option<Vec<ArchiveEntry>>)
    ensures
        parse_archive(bytes@) is None <==> r is None,
        r matches Some(es) ==> parse_archive(bytes@) == Some(entries_view(es@)),
{
    let (n, at1) = match read_be_at(bytes, 0) {
        Some(x) => x,
        None => {
            return None;
        },
    };
    let mut entries: Vec<ArchiveEntry> = Vec::new();
    let mut pos = at1;
    let mut i: u64 = 0;
    while i < n
        invariant
            i <= n,
            read_be(bytes@, 0) == Some((n as nat, at1 as int)),
            parse_records(bytes@, at1 as int, i as nat) == Some((entries_view(entries@), pos as int)),
        decreases n - i,
    {
        match parse_record_at(bytes, pos) {
            Some((e, q)) => {
                let ghost e_view = (e.name@, e.contents@);
                entries.push(e);
                pos = q;
                assert(entries_view(entries@) =~= entries_view(entries@.drop_last()).push(e_view));
            },
            None => {
                proof {
                    assert(parse_records(bytes@, at1 as int, (i + 1) as nat) is None);
                    lemma_parse_records_none(bytes@, at1 as int, (i + 1) as nat, n as nat);
                }
                return None;
            },
        }
        i = i + 1;
    }
    Some(entries)
}

} // verus!
