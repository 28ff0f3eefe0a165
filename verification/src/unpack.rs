use vstd::prelude::*;
use vstd::utf8::{decode_utf8, valid_utf8};
use crate::msgpack::{
    array_len_bytes, be32, bin_len_bytes, encoding, encoding_all, uint_bytes, MsgObject, U32_MAX,
};
use rmp::Marker;

verus! {

/// What a message object holds, as mathematical values.
pub enum MsgView {
    Array(Seq<MsgView>),
    Bin(Seq<u8>),
    Dict(Seq<(Seq<char>, MsgView)>),
    UInt(Seq<u8>),
    Bool(bool),
}

/// What the object holds.
pub open spec fn view_of(o: MsgObject) -> MsgView
    decreases o,
{
    match o {
        MsgObject::Array(v) => MsgView::Array(view_all(v@)),
        MsgObject::Bin(b) => MsgView::Bin(b@),
        MsgObject::Dict(es) => MsgView::Dict(view_entries(es@)),
        MsgObject::UInt(b) => MsgView::UInt(b@),
        MsgObject::Bool(x) => MsgView::Bool(x),
    }
}

/// What the objects of `s` hold, in order.
pub open spec fn view_all(s: Seq<Box<MsgObject>>) -> Seq<MsgView>
    decreases s,
{
    if s.len() == 0 {
        Seq::empty()
    } else {
        view_all(s.drop_last()).push(view_of(*s.last()))
    }
}

/// What the entries of a map hold, in order.
pub open spec fn view_entries(s: Seq<(String, Box<MsgObject>)>) -> Seq<(Seq<char>, MsgView)>
    decreases s,
{
    if s.len() == 0 {
        Seq::empty()
    } else {
        view_entries(s.drop_last()).push((s.last().0@, view_of(*s.last().1)))
    }
}

/// What the objects of `s` hold, in order.
pub open spec fn view_objects(s: Seq<MsgObject>) -> Seq<MsgView>
    decreases s.len(),
{
    if s.len() == 0 {
        Seq::empty()
    } else {
        view_objects(s.drop_last()).push(view_of(s.last()))
    }
}

/// The bytes from `p` on, none when `p` lies outside.
pub open spec fn room(b: Seq<u8>, p: int) -> nat {
    if 0 <= p <= b.len() {
        (b.len() - p) as nat
    } else {
        0
    }
}

/// The four bytes from `p`, read as a big-endian number.
pub open spec fn be_u32_at(b: Seq<u8>, p: int) -> int {
    b[p] * 0x1000000 + b[p + 1] * 0x10000 + b[p + 2] * 0x100 + b[p + 3]
}

/// The binary at `p` and where it ends: the marker 0xc4 with a one-byte length, or 0xc6
/// with a four-byte big-endian length, then that many bytes.
pub open spec fn parse_bin_at(b: Seq<u8>, p: int) -> Option<(Seq<u8>, int)> {
    if 0 <= p && p + 2 <= b.len() && b[p] == 0xc4 && p + 2 + b[p + 1] <= b.len() {
        Some((b.subrange(p + 2, p + 2 + b[p + 1]), p + 2 + b[p + 1]))
    } else if 0 <= p && p + 5 <= b.len() && b[p] == 0xc6 && p + 5 + be_u32_at(b, p + 1)
        <= b.len() {
        Some((b.subrange(p + 5, p + 5 + be_u32_at(b, p + 1)), p + 5 + be_u32_at(b, p + 1)))
    } else {
        None
    }
}

/// `es` with `k` bound to `v`: in place of the entry of `k` when there is one, else at the
/// end.
pub open spec fn put_entry(es: Seq<(Seq<char>, MsgView)>, k: Seq<char>, v: MsgView) -> Seq<
    (Seq<char>, MsgView),
> {
    if exists|i: int| 0 <= i < es.len() && (#[trigger] es[i]).0 == k {
        es.update(choose|i: int| 0 <= i < es.len() && (#[trigger] es[i]).0 == k, (k, v))
    } else {
        es.push((k, v))
    }
}

/// The map of the pairs `ps`, each binding its key in turn.
pub open spec fn dict_of(ps: Seq<(Seq<char>, MsgView)>) -> Seq<(Seq<char>, MsgView)>
    decreases ps.len(),
{
    if ps.len() == 0 {
        Seq::empty()
    } else {
        put_entry(dict_of(ps.drop_last()), ps.last().0, ps.last().1)
    }
}

/// The object the reader reads at `p` and where it ends: an array of up to 15 objects
/// (0x90 to 0x9f), a binary (0xc4 or 0xc6), a map of up to 15 pairs (0x80 to 0x8f), the
/// four or two bytes of an unsigned integer (0xce or 0xcd), or `true` (0xc3); none for any
/// other marker, or bytes that run out.
pub open spec fn parse_obj(b: Seq<u8>, p: int) -> Option<(MsgView, int)>
    decreases room(b, p), 0int, 0int,
{
    if !(0 <= p < b.len()) {
        None
    } else {
        let m = b[p];
        if 0x90 <= m <= 0x9f {
            match parse_arr(b, p + 1, (m - 0x90) as nat) {
                Some((vs, e)) => Some((MsgView::Array(vs), e)),
                None => None,
            }
        } else if m == 0xc4 || m == 0xc6 {
            match parse_bin_at(b, p) {
                Some((d, e)) => Some((MsgView::Bin(d), e)),
                None => None,
            }
        } else if 0x80 <= m <= 0x8f {
            match parse_pairs(b, p + 1, (m - 0x80) as nat) {
                Some((ps, e)) => Some((MsgView::Dict(dict_of(ps)), e)),
                None => None,
            }
        } else if m == 0xce {
            if p + 5 <= b.len() {
                Some((MsgView::UInt(b.subrange(p + 1, p + 5)), p + 5))
            } else {
                None
            }
        } else if m == 0xcd {
            if p + 3 <= b.len() {
                Some((MsgView::UInt(b.subrange(p + 1, p + 3)), p + 3))
            } else {
                None
            }
        } else if m == 0xc3 {
            Some((MsgView::Bool(true), p + 1))
        } else {
            None
        }
    }
}

/// The `n` objects the reader reads one after the other from `p`, and where they end.
pub open spec fn parse_arr(b: Seq<u8>, p: int, n: nat) -> Option<(Seq<MsgView>, int)>
    decreases room(b, p), 1int, n,
{
    if n == 0 {
        Some((Seq::empty(), p))
    } else if !(0 <= p < b.len()) {
        None
    } else {
        match parse_obj(b, p) {
            Some((v, q)) => if q > p {
                match parse_arr(b, q, (n - 1) as nat) {
                    Some((vs, e)) => Some((seq![v] + vs, e)),
                    None => None,
                }
            } else {
                None
            },
            None => None,
        }
    }
}

/// The `n` pairs the reader reads from `p`: each a binary holding the UTF-8 bytes of its
/// key, then the value; and where they end.
pub open spec fn parse_pairs(b: Seq<u8>, p: int, n: nat) -> Option<(Seq<(Seq<char>, MsgView)>, int)>
    decreases room(b, p), 1int, n,
{
    if n == 0 {
        Some((Seq::empty(), p))
    } else if !(0 <= p < b.len()) {
        None
    } else {
        match parse_obj(b, p) {
            Some((MsgView::Bin(kb), q1)) => if q1 > p && valid_utf8(kb) {
                match parse_obj(b, q1) {
                    Some((v, q2)) => if q2 > q1 {
                        match parse_pairs(b, q2, (n - 1) as nat) {
                            Some((ps, e)) => Some((seq![(decode_utf8(kb), v)] + ps, e)),
                            None => None,
                        }
                    } else {
                        None
                    },
                    None => None,
                }
            } else {
                None
            },
            _ => None,
        }
    }
}

/// The objects the reader reads from `p` to the end of the bytes.
pub open spec fn parse_all(b: Seq<u8>, p: int) -> Option<Seq<MsgView>>
    decreases room(b, p),
{
    if !(0 <= p < b.len()) {
        Some(Seq::empty())
    } else {
        match parse_obj(b, p) {
            Some((v, q)) => if q > p {
                match parse_all(b, q) {
                    Some(vs) => Some(seq![v] + vs),
                    None => None,
                }
            } else {
                None
            },
            None => None,
        }
    }
}

/// The markers the reader tells apart; any other is `Other`.
pub enum MarkerKind {
    FixArray(u8),
    FixMap(u8),
    Bin8,
    Bin32,
    U16,
    U32,
    True,
    Other,
}

/// The marker a byte stands for, as the msgpack format defines it.
pub open spec fn marker_kind(m: u8) -> MarkerKind {
    if 0x80 <= m <= 0x8f {
        MarkerKind::FixMap((m - 0x80) as u8)
    } else if 0x90 <= m <= 0x9f {
        MarkerKind::FixArray((m - 0x90) as u8)
    } else if m == 0xc3 {
        MarkerKind::True
    } else if m == 0xc4 {
        MarkerKind::Bin8
    } else if m == 0xc6 {
        MarkerKind::Bin32
    } else if m == 0xcd {
        MarkerKind::U16
    } else if m == 0xce {
        MarkerKind::U32
    } else {
        MarkerKind::Other
    }
}

/// The length of a binary whose marker is at `p`, and where the length ends: 0xc4 with one
/// byte, 0xc5 with two big-endian bytes, or 0xc6 with four.
pub open spec fn bin_len_at(b: Seq<u8>, p: int) -> Option<(u32, int)> {
    if 0 <= p && p + 2 <= b.len() && b[p] == 0xc4 {
        Some((b[p + 1] as u32, p + 2))
    } else if 0 <= p && p + 3 <= b.len() && b[p] == 0xc5 {
        Some(((b[p + 1] * 0x100 + b[p + 2]) as u32, p + 3))
    } else if 0 <= p && p + 5 <= b.len() && b[p] == 0xc6 {
        Some((be_u32_at(b, p + 1) as u32, p + 5))
    } else {
        None
    }
}

/// Calls `rmp::decode::read_marker` on the bytes from `pos`. rmp's source reads one byte,
/// which it names by `Marker::from_u8` as the msgpack format does, and fails when no byte is
/// left; the variants the reader tells apart keep their names and counts.
#[verifier::external_body]
fn rmp_read_marker(bytes: &[u8], pos: usize) -> (r: Option<MarkerKind>)
    requires
        pos <= bytes@.len(),
    ensures
        match r {
            Some(k) => pos < bytes@.len() && k == marker_kind(bytes@[pos as int]),
            None => pos == bytes@.len(),
        },
{
    let mut rd: &[u8] = &bytes[pos..];
    match rmp::decode::read_marker(&mut rd) {
        Ok(Marker::FixArray(n)) => Some(MarkerKind::FixArray(n)),
        Ok(Marker::FixMap(n)) => Some(MarkerKind::FixMap(n)),
        Ok(Marker::Bin8) => Some(MarkerKind::Bin8),
        Ok(Marker::Bin32) => Some(MarkerKind::Bin32),
        Ok(Marker::U16) => Some(MarkerKind::U16),
        Ok(Marker::U32) => Some(MarkerKind::U32),
        Ok(Marker::True) => Some(MarkerKind::True),
        Ok(_) => Some(MarkerKind::Other),
        Err(_) => None,
    }
}

/// Calls `rmp::decode::read_bin_len` on the bytes from `pos`. rmp's source reads a marker
/// and, for 0xc4, 0xc5 or 0xc6, a length of one, two or four big-endian bytes; it fails on
/// any other marker and when the bytes run out. Gives the length and the number of bytes
/// left after it.
#[verifier::external_body]
fn rmp_read_bin_len(bytes: &[u8], pos: usize) -> (r: Option<(u32, usize)>)
    requires
        pos <= bytes@.len(),
    ensures
        match r {
            Some((n, left)) => left <= bytes@.len() && bin_len_at(bytes@, pos as int) == Some(
                (n, bytes@.len() - left),
            ),
            None => bin_len_at(bytes@, pos as int) is None,
        },
{
    let mut rd: &[u8] = &bytes[pos..];
    match rmp::decode::read_bin_len(&mut rd) {
        Ok(n) => Some((n, rd.len())),
        Err(_) => None,
    }
}

/// Calls `std::str::from_utf8` and owns the result. std documents that it accepts exactly
/// the slices of valid UTF-8, whose string then holds the characters they encode.
#[verifier::external_body]
fn str_from_utf8(bytes: &[u8]) -> (r: Option<String>)
    ensures
        match r {
            Some(s) => valid_utf8(bytes@) && s@ == decode_utf8(bytes@),
            None => !valid_utf8(bytes@),
        },
{
    match std::str::from_utf8(bytes) {
        Ok(s) => Some(s.to_string()),
        Err(_) => None,
    }
}

/// A copy of the bytes from `start` to `end`.
fn copy_bytes(b: &[u8], start: usize, end: usize) -> (r: Vec<u8>)
    requires
        start <= end <= b@.len(),
    ensures
        r@ == b@.subrange(start as int, end as int),
{
    let mut r: Vec<u8> = Vec::new();
    let mut i: usize = start;
    while i < end
        invariant
            start <= i <= end,
            end <= b@.len(),
            r@ == b@.subrange(start as int, i as int),
        decreases end - i,
    {
        r.push(b[i]);
        i = i + 1;
        proof {
            assert(r@ =~= b@.subrange(start as int, i as int));
        }
    }
    r
}

/// The four bytes of an unsigned integer after its marker.
fn parse_u32(b: &[u8], pos: usize) -> (r: Option<(MsgObject, usize)>)
    requires
        pos <= b@.len(),
    ensures
        match r {
            Some((o, q)) => pos + 4 <= b@.len() && q == pos + 4 && view_of(o) == MsgView::UInt(
                b@.subrange(pos as int, pos + 4),
            ),
            None => pos + 4 > b@.len(),
        },
{
    if b.len() - pos < 4 {
        return None;
    }
    let bin = copy_bytes(b, pos, pos + 4);
    Some((MsgObject::UInt(bin), pos + 4))
}

/// The two bytes of an unsigned integer after its marker.
fn parse_u16(b: &[u8], pos: usize) -> (r: Option<(MsgObject, usize)>)
    requires
        pos <= b@.len(),
    ensures
        match r {
            Some((o, q)) => pos + 2 <= b@.len() && q == pos + 2 && view_of(o) == MsgView::UInt(
                b@.subrange(pos as int, pos + 2),
            ),
            None => pos + 2 > b@.len(),
        },
{
    if b.len() - pos < 2 {
        return None;
    }
    let bin = copy_bytes(b, pos, pos + 2);
    Some((MsgObject::UInt(bin), pos + 2))
}

/// The binary whose marker, 0xc4 or 0xc6, is at `pos`.
fn parse_bin(b: &[u8], pos: usize) -> (r: Option<(MsgObject, usize)>)
    requires
        pos < b@.len(),
        b@[pos as int] == 0xc4 || b@[pos as int] == 0xc6,
    ensures
        match r {
            Some((o, q)) => q <= b@.len() && view_of(o) is Bin && parse_bin_at(b@, pos as int)
                == Some((view_of(o)->Bin_0, q as int)),
            None => parse_bin_at(b@, pos as int) is None,
        },
{
    let (size, left) = match rmp_read_bin_len(b, pos) {
        Some(x) => x,
        None => {
            return None;
        },
    };
    let start = b.len() - left;
    if left < size as usize {
        return None;
    }
    let bin = copy_bytes(b, start, start + size as usize);
    proof {
        assert(b@[pos as int + 1] * 0x1000000 + b@[pos as int + 2] * 0x10000 + b@[pos as int + 3]
            * 0x100 + b@[pos as int + 4] <= u32::MAX) by (nonlinear_arith)
            requires
                b@[pos as int + 1] <= 255,
                b@[pos as int + 2] <= 255,
                b@[pos as int + 3] <= 255,
                b@[pos as int + 4] <= 255,
        ;
    }
    Some((MsgObject::Bin(bin), start + size as usize))
}

/// The view of a map's entries lists each entry's key and value, at its index.
proof fn lemma_view_entries(s: Seq<(String, Box<MsgObject>)>)
    ensures
        view_entries(s).len() == s.len(),
        forall|j: int|
            0 <= j < s.len() ==> #[trigger] view_entries(s)[j] == (s[j].0@, view_of(*s[j].1)),
    decreases s.len(),
{
    if s.len() > 0 {
        lemma_view_entries(s.drop_last());
    }
}

/// Binds `key` to `val` in the map's entries, whose keys differ.
fn put(entries: &mut Vec<(String, Box<MsgObject>)>, key: String, val: MsgObject)
    requires
        forall|a: int, b: int|
            #![trigger old(entries)@[a], old(entries)@[b]]
            0 <= a < b < old(entries)@.len() ==> old(entries)@[a].0@ != old(entries)@[b].0@,
    ensures
        forall|a: int, b: int|
            #![trigger final(entries)@[a], final(entries)@[b]]
            0 <= a < b < final(entries)@.len() ==> final(entries)@[a].0@ != final(entries)@[b].0@,
        view_entries(final(entries)@) == put_entry(view_entries(old(entries)@), key@, view_of(val)),
{
    let ghost e0 = entries@;
    let ghost k = key@;
    let ghost v = view_of(val);
    proof {
        lemma_view_entries(e0);
    }
    let mut i: usize = 0;
    while i < entries.len()
        invariant
            i <= entries.len(),
            entries@ == e0,
            e0 == old(entries)@,
            k == key@,
            v == view_of(val),
            view_entries(e0).len() == e0.len(),
            forall|j: int|
                0 <= j < e0.len() ==> #[trigger] view_entries(e0)[j] == (e0[j].0@, view_of(*e0[j].1)),
            forall|a: int, b: int|
                #![trigger e0[a], e0[b]]
                0 <= a < b < e0.len() ==> e0[a].0@ != e0[b].0@,
            forall|j: int| 0 <= j < i ==> (#[trigger] e0[j]).0@ != k,
        decreases entries.len() - i,
    {
        let same = entries[i].0.eq(&key);
        proof {
            assert(same == (entries@[i as int].0@ == key@));
        }
        if same {
            entries.set(i, (key, Box::new(val)));
            proof {
                lemma_view_entries(entries@);
                let ve = view_entries(e0);
                assert(ve[i as int].0 == k);
                let c = choose|c: int| 0 <= c < ve.len() && (#[trigger] ve[c]).0 == k;
                if c != i {
                    if c < i {
                        assert(e0[c].0@ == k);
                    } else {
                        assert(e0[i as int].0@ != e0[c].0@);
                    }
                }
                assert(c == i);
                assert(put_entry(ve, k, v) == ve.update(i as int, (k, v)));
                assert(view_entries(entries@) =~= ve.update(i as int, (k, v)));
                assert forall|a: int, b: int|
                    #![trigger entries@[a], entries@[b]]
                    0 <= a < b < entries@.len() implies entries@[a].0@ != entries@[b].0@ by {
                    if a != i && b != i {
                        assert(e0[a].0@ != e0[b].0@);
                    }
                }
            }
            return;
        }
        i = i + 1;
    }
    entries.push((key, Box::new(val)));
    proof {
        let ve = view_entries(e0);
        assert(!(exists|c: int| 0 <= c < ve.len() && (#[trigger] ve[c]).0 == k)) by {
            if exists|c: int| 0 <= c < ve.len() && (#[trigger] ve[c]).0 == k {
                let c = choose|c: int| 0 <= c < ve.len() && (#[trigger] ve[c]).0 == k;
                assert(e0[c].0@ == k);
            }
        }
        assert(entries@.drop_last() =~= e0);
        assert forall|a: int, b: int|
            #![trigger entries@[a], entries@[b]]
            0 <= a < b < entries@.len() implies entries@[a].0@ != entries@[b].0@ by {
            if b == e0.len() {
                assert(entries@[a] == e0[a]);
            } else {
                assert(e0[a].0@ != e0[b].0@);
            }
        }
    }
}

/// The object at `pos`, and where it ends; `None` where the reader meets a marker it does
/// not take or runs out of bytes.
fn parse_object(b: &[u8], pos: usize) -> (r: Option<(MsgObject, usize)>)
    requires
        pos <= b@.len(),
    ensures
        match r {
            Some((o, q)) => q <= b@.len() && parse_obj(b@, pos as int) == Some(
                (view_of(o), q as int),
            ),
            None => parse_obj(b@, pos as int) is None,
        },
    decreases room(b@, pos as int), 0int, 0int,
{
    if pos >= b.len() {
        return None;
    }
    match rmp_read_marker(b, pos) {
        Some(MarkerKind::FixArray(num)) => {
            match parse_array(num, b, pos + 1) {
                Some((v, e)) => Some((MsgObject::Array(v), e)),
                None => None,
            }
        },
        Some(MarkerKind::Bin8) => parse_bin(b, pos),
        Some(MarkerKind::Bin32) => parse_bin(b, pos),
        Some(MarkerKind::FixMap(num)) => parse_map(num, b, pos + 1),
        Some(MarkerKind::U32) => parse_u32(b, pos + 1),
        Some(MarkerKind::U16) => parse_u16(b, pos + 1),
        Some(MarkerKind::True) => Some((MsgObject::Bool(true), pos + 1)),
        _ => None,
    }
}

/// The `num` objects of an array, from `pos`, and where they end.
fn parse_array(num: u8, b: &[u8], pos: usize) -> (r: Option<(Vec<Box<MsgObject>>, usize)>)
    requires
        pos <= b@.len(),
    ensures
        match r {
            Some((v, e)) => e <= b@.len() && parse_arr(b@, pos as int, num as nat) == Some(
                (view_all(v@), e as int),
            ),
            None => parse_arr(b@, pos as int, num as nat) is None,
        },
    decreases room(b@, pos as int), 1int, num as nat,
{
    let mut ret: Vec<Box<MsgObject>> = Vec::new();
    let mut p: usize = pos;
    let mut i: u8 = 0;
    while i < num
        invariant
            pos <= p <= b@.len(),
            i <= num,
            parse_arr(b@, pos as int, num as nat) == match parse_arr(b@, p as int, (num - i) as nat) {
                Some((vs, e)) => Some((view_all(ret@) + vs, e)),
                None => None,
            },
        decreases num - i,
    {
        if p >= b.len() {
            return None;
        }
        match parse_object(b, p) {
            Some((o, q)) => {
                if q <= p {
                    return None;
                }
                let ghost prev = ret@;
                ret.push(Box::new(o));
                proof {
                    assert(ret@.drop_last() =~= prev);
                    assert(view_all(ret@) == view_all(prev).push(view_of(o)));
                    match parse_arr(b@, q as int, (num - i - 1) as nat) {
                        Some((vs, e)) => {
                            assert(view_all(prev) + (seq![view_of(o)] + vs) =~= view_all(ret@)
                                + vs);
                        },
                        None => {},
                    }
                }
                p = q;
            },
            None => {
                return None;
            },
        }
        i = i + 1;
    }
    proof {
        assert(view_all(ret@) + Seq::<MsgView>::empty() =~= view_all(ret@));
    }
    Some((ret, p))
}

/// The `num` pairs of a map, from `pos`, each key a binary of UTF-8 bytes; a later pair
/// binds its key again. Gives the map and where it ends.
fn parse_map(num: u8, b: &[u8], pos: usize) -> (r: Option<(MsgObject, usize)>)
    requires
        pos <= b@.len(),
    ensures
        match r {
            Some((o, e)) => e <= b@.len() && match parse_pairs(b@, pos as int, num as nat) {
                Some((ps, e2)) => view_of(o) == MsgView::Dict(dict_of(ps)) && e2 == e,
                None => false,
            },
            None => parse_pairs(b@, pos as int, num as nat) is None,
        },
    decreases room(b@, pos as int), 1int, num as nat,
{
    let mut ret: Vec<(String, Box<MsgObject>)> = Vec::new();
    let ghost mut done: Seq<(Seq<char>, MsgView)> = Seq::empty();
    let mut p: usize = pos;
    let mut i: u8 = 0;
    proof {
        assert(view_entries(ret@) =~= dict_of(done));
    }
    while i < num
        invariant
            pos <= p <= b@.len(),
            i <= num,
            view_entries(ret@) == dict_of(done),
            forall|x: int, y: int|
                #![trigger ret@[x], ret@[y]]
                0 <= x < y < ret@.len() ==> ret@[x].0@ != ret@[y].0@,
            parse_pairs(b@, pos as int, num as nat) == match parse_pairs(
                b@,
                p as int,
                (num - i) as nat,
            ) {
                Some((ps, e)) => Some((done + ps, e)),
                None => None,
            },
        decreases num - i,
    {
        if p >= b.len() {
            return None;
        }
        let (kb, q1) = match parse_object(b, p) {
            Some((MsgObject::Bin(kb), q1)) => (kb, q1),
            _ => {
                return None;
            },
        };
        if q1 <= p {
            return None;
        }
        let key = match str_from_utf8(kb.as_slice()) {
            Some(k) => k,
            None => {
                return None;
            },
        };
        let (val, q2) = match parse_object(b, q1) {
            Some(x) => x,
            None => {
                return None;
            },
        };
        if q2 <= q1 {
            return None;
        }
        let ghost pair = (key@, view_of(val));
        put(&mut ret, key, val);
        proof {
            let d2 = done.push(pair);
            assert(d2.drop_last() =~= done);
            match parse_pairs(b@, q2 as int, (num - i - 1) as nat) {
                Some((ps, e)) => {
                    assert(done + (seq![pair] + ps) =~= d2 + ps);
                },
                None => {},
            }
            done = d2;
        }
        p = q2;
        i = i + 1;
    }
    proof {
        assert(done + Seq::<(Seq<char>, MsgView)>::empty() =~= done);
    }
    Some((MsgObject::Dict(ret), p))
}

/// The objects of the bytes, read one after the other to the end; `None` where the reader
/// meets a marker it does not take, a key that is not a binary of UTF-8 bytes, or runs out of
/// bytes.
pub fn msg_unpack(bytes: &[u8]) -> (r: Option<Vec<MsgObject>>)
    ensures
        match r {
            Some(v) => parse_all(bytes@, 0) == Some(view_objects(v@)),
            None => parse_all(bytes@, 0) is None,
        },
{
    let mut ret: Vec<MsgObject> = Vec::new();
    let mut p: usize = 0;
    while p < bytes.len()
        invariant
            p <= bytes@.len(),
            parse_all(bytes@, 0) == match parse_all(bytes@, p as int) {
                Some(vs) => Some(view_objects(ret@) + vs),
                None => None,
            },
        decreases bytes@.len() - p,
    {
        match parse_object(bytes, p) {
            Some((o, q)) => {
                if q <= p {
                    return None;
                }
                let ghost prev = ret@;
                ret.push(o);
                proof {
                    assert(ret@.drop_last() =~= prev);
                    match parse_all(bytes@, q as int) {
                        Some(vs) => {
                            assert(view_objects(prev) + (seq![view_of(o)] + vs) =~= view_objects(
                                ret@,
                            ) + vs);
                        },
                        None => {},
                    }
                }
                p = q;
            },
            None => {
                return None;
            },
        }
    }
    proof {
        assert(view_objects(ret@) + Seq::<MsgView>::empty() =~= view_objects(ret@));
    }
    Some(ret)
}

/// An object that the reader reads back as written: arrays of at most 15 objects that are
/// so too, binaries of fewer than 256 bytes or of 65536 up to 2^32 - 1, and unsigned
/// integers of two or four bytes.
pub open spec fn readable(o: MsgObject) -> bool
    decreases o,
{
    match o {
        MsgObject::Array(v) => v@.len() <= 15 && readable_all(v@),
        MsgObject::Bin(b) => b@.len() <= 255 || 65536 <= b@.len() <= U32_MAX,
        MsgObject::UInt(b) => b@.len() == 2 || b@.len() == 4,
        _ => false,
    }
}

/// Every object of `s` is read back as written.
pub open spec fn readable_all(s: Seq<Box<MsgObject>>) -> bool
    decreases s,
{
    if s.len() == 0 {
        true
    } else {
        readable_all(s.drop_last()) && readable(*s.last())
    }
}

/// A sequence of objects splits into its first and the rest, for their encoding, their
/// views and their being readable.
proof fn lemma_first_rest(s: Seq<Box<MsgObject>>)
    requires
        s.len() > 0,
    ensures
        encoding_all(s) == encoding(*s[0]) + encoding_all(s.drop_first()),
        view_all(s) == seq![view_of(*s[0])] + view_all(s.drop_first()),
        readable_all(s) == (readable(*s[0]) && readable_all(s.drop_first())),
    decreases s.len(),
{
    if s.len() == 1 {
        assert(s.drop_last() =~= Seq::<Box<MsgObject>>::empty());
        assert(s.drop_first() =~= Seq::<Box<MsgObject>>::empty());
        assert(encoding_all(s.drop_last()) =~= Seq::<u8>::empty());
        assert(view_all(s.drop_last()) =~= Seq::<MsgView>::empty());
        assert(s.last() == s[0]);
        assert(encoding_all(s) =~= encoding(*s[0]));
        assert(view_all(s) =~= seq![view_of(*s[0])]);
    } else {
        let t = s.drop_last();
        lemma_first_rest(t);
        assert(t.drop_first() =~= s.drop_first().drop_last());
        assert(s.drop_first().last() == s.last());
        assert(t[0] == s[0]);
        assert(encoding_all(s) =~= encoding(*s[0]) + encoding_all(s.drop_first()));
        assert(view_all(s) =~= seq![view_of(*s[0])] + view_all(s.drop_first()));
    }
}

/// The written bytes of an object are never empty.
proof fn lemma_encoding_nonempty(o: MsgObject)
    requires
        readable(o),
    ensures
        encoding(o).len() > 0,
{
    match o {
        MsgObject::Array(v) => {
            assert(array_len_bytes(v@.len() as u32).len() == 1);
        },
        _ => {},
    }
}

/// What the writer writes of a readable object, the reader reads back from it, wherever the
/// bytes stand: the same object, ending right after them.
pub proof fn lemma_read_back(o: MsgObject, pre: Seq<u8>, rest: Seq<u8>)
    requires
        readable(o),
    ensures
        parse_obj(pre + encoding(o) + rest, pre.len() as int) == Some(
            (view_of(o), (pre.len() + encoding(o).len()) as int),
        ),
    decreases o,
{
    let b = pre + encoding(o) + rest;
    let p = pre.len() as int;
    match o {
        MsgObject::Array(v) => {
            let n = v@.len() as u32;
            assert((0x90u8 | n as u8) == 0x90 + n) by (bit_vector)
                requires
                    n <= 15,
            ;
            assert(b[p] == 0x90 + n);
            assert(b =~= (pre + array_len_bytes(n)) + encoding_all(v@) + rest);
            lemma_read_back_all(v@, pre + array_len_bytes(n), rest);
        },
        MsgObject::Bin(d) => {
            let n = d@.len() as u32;
            if d@.len() <= 255 {
                assert(b[p] == 0xc4 && b[p + 1] == n);
                assert(b.subrange(p + 2, p + 2 + n) =~= d@);
            } else {
                let x = n;
                assert(((x >> 24u32) as u8) * 0x1000000 + ((x >> 16u32) as u8) * 0x10000 + ((x
                    >> 8u32) as u8) * 0x100 + (x as u8) == x) by (bit_vector);
                assert(b[p] == 0xc6);
                assert(be_u32_at(b, p + 1) == n);
                assert(b.subrange(p + 5, p + 5 + n) =~= d@);
            }
        },
        MsgObject::UInt(d) => {
            if d@.len() == 2 {
                assert(b[p] == 0xcd);
                assert(b.subrange(p + 1, p + 3) =~= d@);
            } else {
                assert(b[p] == 0xce);
                assert(b.subrange(p + 1, p + 5) =~= d@);
            }
        },
        _ => {},
    }
}

/// What the writer writes of readable objects one after the other, the reader reads back
/// as that many objects, wherever the bytes stand.
pub proof fn lemma_read_back_all(s: Seq<Box<MsgObject>>, pre: Seq<u8>, rest: Seq<u8>)
    requires
        readable_all(s),
    ensures
        parse_arr(pre + encoding_all(s) + rest, pre.len() as int, s.len()) == Some(
            (view_all(s), (pre.len() + encoding_all(s).len()) as int),
        ),
    decreases s,
{
    let b = pre + encoding_all(s) + rest;
    if s.len() == 0 {
        assert(view_all(s) =~= Seq::<MsgView>::empty());
    } else {
        lemma_first_rest(s);
        let o = *s[0];
        let tail = s.drop_first();
        lemma_read_back(o, pre, encoding_all(tail) + rest);
        assert(b =~= pre + encoding(o) + (encoding_all(tail) + rest));
        lemma_encoding_nonempty(o);
        let pre2 = pre + encoding(o);
        lemma_read_back_all(tail, pre2, rest);
        assert(b =~= pre2 + encoding_all(tail) + rest);
        assert(tail.len() == (s.len() - 1) as nat);
        assert(seq![view_of(o)] + view_all(tail) =~= view_all(s));
    }
}

/// `msg_unpack` gives back exactly the object whose bytes `msgpack` wrote, for a readable
/// object.
pub proof fn lemma_unpack_of_pack(o: MsgObject)
    requires
        readable(o),
    ensures
        parse_all(encoding(o), 0) == Some(seq![view_of(o)]),
{
    let e = encoding(o);
    lemma_read_back(o, Seq::empty(), Seq::empty());
    assert(Seq::<u8>::empty() + e + Seq::<u8>::empty() =~= e);
    lemma_encoding_nonempty(o);
    assert(parse_all(e, e.len() as int) == Some(Seq::<MsgView>::empty()));
    assert(seq![view_of(o)] + Seq::<MsgView>::empty() =~= seq![view_of(o)]);
}

} // verus!
