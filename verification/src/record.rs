use vstd::prelude::*;
use crate::msgpack::{
    array_len_bytes, bin_len_bytes, get_array_head_size, get_bin_size_from_len, rmp_write_array_len,
    rmp_write_bin_len, rmp_write_uint, uint_encoding, MsgObject, U32_MAX,
};
use crate::cache::{no_usable_zone, Cache};
use crate::read_chains::reads_apart;
use crate::chain::read_chain;
use crate::head::HEAD_SIZE;
use crate::head_segment::REF_LEVELS;
use crate::unpack::{msg_unpack, parse_all, view_all, view_entries, view_objects, view_of, MsgView};

verus! {

/// The value of the last entry of the map `es` under `key`, if any: the one a map built
/// from the entries in order keeps.
pub open spec fn dict_get(es: Seq<(Seq<char>, MsgView)>, key: Seq<char>) -> Option<MsgView>
    decreases es.len(),
{
    if es.len() == 0 {
        None
    } else if es.last().0 == key {
        Some(es.last().1)
    } else {
        dict_get(es.drop_last(), key)
    }
}

/// The image bytes and the label bytes of a stored record: the first object is an array
/// whose first element is a map with a binary under `"data"` and whose second element is an
/// unsigned integer; `None` when the objects do not have that shape.
pub open spec fn record_of(vs: Seq<MsgView>) -> Option<(Seq<u8>, Seq<u8>)> {
    if vs.len() == 0 {
        None
    } else {
        match vs[0] {
            MsgView::Array(items) => if items.len() >= 2 {
                match (items[0], items[1]) {
                    (MsgView::Dict(es), MsgView::UInt(label)) => match dict_get(es, "data"@) {
                        Some(MsgView::Bin(image)) => Some((image, label)),
                        _ => None,
                    },
                    _ => None,
                }
            } else {
                None
            },
            _ => None,
        }
    }
}

/// The bytes of a decoded record: an array of four objects, the label, the width and the
/// height as unsigned integers in their shortest form, then the image as a binary.
pub open spec fn decoded_record(label: u64, w: u32, h: u32, image: Seq<u8>) -> Seq<u8> {
    array_len_bytes(4) + uint_encoding(label) + uint_encoding(w as u64) + uint_encoding(h as u64)
        + bin_len_bytes(image.len() as u32) + image
}

/// The number of bytes an unsigned integer takes in its shortest msgpack form.
pub fn get_int_size(v: u64) -> (r: usize)
    ensures
        r == uint_encoding(v).len(),
{
    if v < 128 {
        1
    } else if v < 256 {
        2
    } else if v < 65536 {
        3
    } else if v < 0x1_0000_0000 {
        5
    } else {
        9
    }
}

/// The number of bytes of the decoded record of a label, a width, a height and an image of
/// `img_size` bytes: the room to take in the cache before writing it.
pub fn decoded_record_len(label: u64, w: u32, h: u32, img_size: usize) -> (r: usize)
    requires
        1 <= img_size <= U32_MAX,
        img_size + 32 <= usize::MAX,
    ensures
        forall|image: Seq<u8>|
            image.len() == img_size ==> r == #[trigger] decoded_record(label, w, h, image).len(),
{
    let array_head = get_array_head_size(4);
    let label_len = get_int_size(label);
    let width_len = get_int_size(w as u64);
    let height_len = get_int_size(h as u64);
    let bin_len = get_bin_size_from_len(img_size);
    array_head + bin_len + label_len + width_len + height_len
}

/// Writes the decoded record of a label, a width, a height and the image bytes.
pub fn write_decoded_record(label: u64, w: u32, h: u32, image: &[u8]) -> (r: Vec<u8>)
    requires
        image@.len() <= U32_MAX,
    ensures
        r@ == decoded_record(label, w, h, image@),
{
    let mut r = rmp_write_array_len(4);
    let mut l = rmp_write_uint(label);
    r.append(&mut l);
    let mut wb = rmp_write_uint(w as u64);
    r.append(&mut wb);
    let mut hb = rmp_write_uint(h as u64);
    r.append(&mut hb);
    let mut b = rmp_write_bin_len(image.len() as u32);
    r.append(&mut b);
    let ghost head = r@;
    let mut i: usize = 0;
    while i < image.len()
        invariant
            i <= image@.len(),
            r@ == head + image@.subrange(0, i as int),
        decreases image@.len() - i,
    {
        r.push(image[i]);
        i = i + 1;
        proof {
            assert(r@ =~= head + image@.subrange(0, i as int));
        }
    }
    proof {
        assert(image@.subrange(0, image@.len() as int) =~= image@);
    }
    r
}

/// Writes the decoded record of a label, a width, a height and the image bytes into the
/// cache as the data of a new head at level `ref_cnt`; returns the head's index, or `None`
/// when no head or block is free yet. When the chains of the heads whose data was read are
/// apart, and the memory is no longer than `u32::MAX` bytes, reading the chain of that head
/// gives back the record.
pub fn cache_decoded_record(
    cache: &mut Cache,
    label: u64,
    w: u32,
    h: u32,
    image: &[u8],
    ref_cnt: usize,
) -> (r: Option<usize>)
    requires
        old(cache).wf(),
        ref_cnt < REF_LEVELS,
        image@.len() <= U32_MAX,
    ensures
        final(cache).wf(),
        r matches Some(idx) ==> idx < final(cache).heads().heads().len(),
        r is None ==> no_usable_zone(*final(cache)) || forall|j: int|
            0 <= j < final(cache).heads().heads().len() ==> !(
            #[trigger] final(cache).heads().heads()[j]).is_free_spec(),
        reads_apart(*old(cache)) && old(cache).spec_capacity() <= u32::MAX ==> (r matches Some(
            idx,
        ) ==> read_chain(
            final(cache).memory(),
            idx * HEAD_SIZE,
            decoded_record(label, w, h, image@).len(),
        ) == Some(decoded_record(label, w, h, image@))),
{
    let record = write_decoded_record(label, w, h, image);
    cache.write_data(record.as_slice(), ref_cnt)
}

/// Whether a map key is `"data"`.
fn is_data_key(key: &String) -> (r: bool)
    ensures
        r == (key@ == "data"@),
{
    let data_key = "data".to_owned();
    *key == data_key
}

/// The value of the last entry of `es` under `"data"`, if any.
fn data_entry(es: &Vec<(String, Box<MsgObject>)>) -> (r: Option<&MsgObject>)
    ensures
        match r {
            Some(o) => dict_get(view_entries(es@), "data"@) == Some(view_of(*o)),
            None => dict_get(view_entries(es@), "data"@) is None,
        },
{
    let mut i: usize = es.len();
    proof {
        assert(es@.subrange(0, es@.len() as int) =~= es@);
    }
    while i > 0
        invariant
            i <= es@.len(),
            dict_get(view_entries(es@), "data"@) == dict_get(view_entries(es@.subrange(0, i as int)), "data"@),
        decreases i,
    {
        let ghost sub = es@.subrange(0, i as int);
        proof {
            assert(sub.drop_last() =~= es@.subrange(0, i - 1));
        }
        if is_data_key(&es[i - 1].0) {
            return Some(&*es[i - 1].1);
        }
        proof {
            assert(sub.last() == es@[i - 1]);
            assert(view_entries(sub).last().0 == es@[i - 1].0@);
            assert(view_entries(sub).drop_last() == view_entries(es@.subrange(0, i - 1)));
        }
        i = i - 1;
    }
    proof {
        assert(view_entries(es@.subrange(0, 0)) =~= Seq::<(Seq<char>, MsgView)>::empty());
    }
    None
}

/// The image bytes and the label bytes of a stored record, `None` when the bytes are not
/// msgpack the reader takes or the record does not have the shape `record_of` names.
pub fn record_parts(bytes: &[u8]) -> (r: Option<(Vec<u8>, Vec<u8>)>)
    ensures
        match r {
            Some((image, label)) => parse_all(bytes@, 0) is Some && record_of(
                parse_all(bytes@, 0)->0,
            ) == Some((image@, label@)),
            None => parse_all(bytes@, 0) is None || record_of(parse_all(bytes@, 0)->0) is None,
        },
{
    let objs = match msg_unpack(bytes) {
        Some(objs) => objs,
        None => {
            return None;
        },
    };
    let ghost vs = parse_all(bytes@, 0)->0;
    proof {
        assert(vs == view_objects(objs@));
        lemma_view_objects_index(objs@);
    }
    if objs.len() == 0 {
        return None;
    }
    let items = match &objs[0] {
        MsgObject::Array(items) => items,
        _ => {
            return None;
        },
    };
    proof {
        lemma_view_all_index(items@);
    }
    if items.len() < 2 {
        return None;
    }
    let label = match &*items[1] {
        MsgObject::UInt(b) => b,
        _ => {
            return None;
        },
    };
    let es = match &*items[0] {
        MsgObject::Dict(es) => es,
        _ => {
            return None;
        },
    };
    match data_entry(es) {
        Some(MsgObject::Bin(image)) => Some((image.clone(), label.clone())),
        _ => None,
    }
}

/// The views of the objects of `s` are the objects' views, one for one.
proof fn lemma_view_objects_index(s: Seq<MsgObject>)
    ensures
        view_objects(s).len() == s.len(),
        forall|i: int| 0 <= i < s.len() ==> #[trigger] view_objects(s)[i] == view_of(s[i]),
    decreases s.len(),
{
    if s.len() > 0 {
        lemma_view_objects_index(s.drop_last());
        assert forall|i: int| 0 <= i < s.len() implies #[trigger] view_objects(s)[i] == view_of(
            s[i],
        ) by {
            if i < s.len() - 1 {
                assert(s.drop_last()[i] == s[i]);
            }
        }
    }
}

/// The views of the boxed objects of `s` are the objects' views, one for one.
proof fn lemma_view_all_index(s: Seq<Box<MsgObject>>)
    ensures
        view_all(s).len() == s.len(),
        forall|i: int| 0 <= i < s.len() ==> #[trigger] view_all(s)[i] == view_of(*s[i]),
    decreases s.len(),
{
    if s.len() > 0 {
        lemma_view_all_index(s.drop_last());
        assert forall|i: int| 0 <= i < s.len() implies #[trigger] view_all(s)[i] == view_of(*s[i]) by {
            if i < s.len() - 1 {
                assert(s.drop_last()[i] == s[i]);
            }
        }
    }
}


/// The unsigned integer that `bytes` write, most significant byte first, as msgpack writes
/// the bytes of an unsigned integer.
pub open spec fn be_value(bytes: Seq<u8>) -> nat
    decreases bytes.len(),
{
    if bytes.len() == 0 {
        0
    } else {
        be_value(bytes.drop_last()) * 256 + bytes.last() as nat
    }
}

/// `256` to the power `n`.
pub open spec fn pow256(n: nat) -> nat
    decreases n,
{
    if n == 0 {
        1
    } else {
        256 * pow256((n - 1) as nat)
    }
}

/// Powers of `256` grow with the exponent.
proof fn lemma_pow256_grows(i: nat, j: nat)
    requires
        i <= j,
    ensures
        pow256(i) <= pow256(j),
    decreases j,
{
    if i < j {
        lemma_pow256_grows(i, (j - 1) as nat);
    }
}

/// The label of a record: the unsigned integer that its bytes write, most significant first.
pub fn label_value(bytes: &[u8]) -> (r: u64)
    requires
        bytes@.len() <= 8,
    ensures
        r == be_value(bytes@),
{
    let mut r: u64 = 0;
    let mut i: usize = 0;
    proof {
        reveal_with_fuel(pow256, 9);
        assert(pow256(8) == 0x1_0000_0000_0000_0000);
        assert(bytes@.subrange(0, 0) =~= Seq::<u8>::empty());
    }
    while i < bytes.len()
        invariant
            i <= bytes@.len() <= 8,
            r == be_value(bytes@.subrange(0, i as int)),
            r < pow256(i as nat),
            pow256(8) == 0x1_0000_0000_0000_0000,
        decreases bytes@.len() - i,
    {
        proof {
            lemma_pow256_grows((i + 1) as nat, 8);
            let p = pow256(i as nat);
            assert(r * 256 + 255 < 256 * p) by (nonlinear_arith)
                requires
                    r < p,
            ;
            assert(bytes@.subrange(0, i + 1).drop_last() =~= bytes@.subrange(0, i as int));
        }
        r = r * 256 + bytes[i] as u64;
        i = i + 1;
    }
    proof {
        assert(bytes@.subrange(0, bytes@.len() as int) =~= bytes@);
    }
    r
}

/// The image and the label of the record that `bytes` store, when `bytes` are msgpack the
/// reader takes and the record has the shape `record_of` names.
pub open spec fn stored_record(bytes: Seq<u8>) -> Option<(Seq<u8>, Seq<u8>)> {
    if parse_all(bytes, 0) is Some {
        record_of(parse_all(bytes, 0)->0)
    } else {
        None
    }
}

/// Caches the decoded form of the record that `bytes` store, as the data of a new head at
/// level `ref_cnt`: its label is the unsigned integer that the record's label bytes write,
/// and `w`, `h` and `pixels` are what the image decoder gives for the record's image.
/// Returns the head's index; `None`, with the cache untouched, when `bytes` store no such
/// record or its label has more than eight bytes, and `None` when no head or block is free
/// yet. When the chains of the heads whose data was read are apart, and the memory is no
/// longer than `u32::MAX` bytes, reading the chain of that head gives back the decoded
/// record.
pub fn cache_stored_record(
    cache: &mut Cache,
    bytes: &[u8],
    w: u32,
    h: u32,
    pixels: &[u8],
    ref_cnt: usize,
) -> (r: Option<usize>)
    requires
        old(cache).wf(),
        ref_cnt < REF_LEVELS,
        pixels@.len() <= U32_MAX,
    ensures
        final(cache).wf(),
        match stored_record(bytes@) {
            Some((image, label)) => if label.len() <= 8 {
                let rec = decoded_record(be_value(label) as u64, w, h, pixels@);
                &&& r matches Some(idx) ==> idx < final(cache).heads().heads().len()
                &&& r is None ==> no_usable_zone(*final(cache)) || forall|j: int|
                    0 <= j < final(cache).heads().heads().len() ==> !(
                    #[trigger] final(cache).heads().heads()[j]).is_free_spec()
                &&& reads_apart(*old(cache)) && old(cache).spec_capacity() <= u32::MAX ==> (
                r matches Some(idx) ==> read_chain(final(cache).memory(), idx * HEAD_SIZE, rec.len())
                    == Some(rec))
            } else {
                r is None && *final(cache) == *old(cache)
            },
            None => r is None && *final(cache) == *old(cache),
        },
{
    let parts = record_parts(bytes);
    match parts {
        Some((_image, label_bytes)) => {
            if label_bytes.len() > 8 {
                return None;
            }
            let label = label_value(label_bytes.as_slice());
            cache_decoded_record(cache, label, w, h, pixels, ref_cnt)
        },
        None => None,
    }
}

} // verus!
