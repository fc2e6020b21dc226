//! The persistence format: a fixed binary encoding of a list, and its
//! decoder.
//!
//! A stored list is `le64(next_id) ++ le64(count)` followed by `count`
//! items, each `le64(id) ++ le64(created) ++ le64(n) ++ utf8`, where
//! `created` carries the two's-complement bits of the signed timestamp and
//! `utf8` is the `n`-byte UTF-8 encoding of the text. The decoder accepts
//! exactly the encodings of well-formed lists, so storing and loading a
//! list gives the same list back ([`lemma_store_load_round_trip`]).

use crate::todo::{items_model, ItemModel, ListModel, Todo, TodoError, TodoList};
use vstd::bytes::{
    lemma_auto_spec_u64_to_from_le_bytes, spec_u64_from_le_bytes, spec_u64_to_le_bytes,
    u64_from_le_bytes, u64_to_le_bytes,
};
use vstd::prelude::*;
use vstd::slice::{slice_subrange, slice_to_vec};
use vstd::string::StrSliceExecFns;
use vstd::utf8::{
    decode_utf8, encode_utf8, encode_utf8_decode_utf8, encode_utf8_valid_utf8, valid_utf8,
};

verus! {

/// Whether an item's content fits the machine: its id fits a `usize`, its
/// timestamp fits an `i64`, and its text's UTF-8 encoding fits a `usize`
/// length. Every item actually held in a [`Todo`] satisfies this.
pub open spec fn item_valid(t: ItemModel) -> bool {
    &&& 0 <= t.id <= usize::MAX
    &&& i64::MIN <= t.date <= i64::MAX
    &&& encode_utf8(t.content).len() <= usize::MAX
}

/// Machine-level validity of a whole list model.
pub open spec fn list_valid(m: ListModel) -> bool {
    &&& 0 <= m.next_id <= usize::MAX
    &&& forall|i: int| 0 <= i < m.items.len() ==> item_valid(#[trigger] m.items[i])
}

/// The dense-id invariant, stated of a list model: ids are `1..=len` in
/// order and `next_id` is one past the count.
pub open spec fn model_wf(m: ListModel) -> bool {
    &&& m.next_id == m.items.len() + 1
    &&& forall|i: int| 0 <= i < m.items.len() ==> (#[trigger] m.items[i]).id == i + 1
}

/// The encoding of one item.
pub open spec fn spec_encode_item(t: ItemModel) -> Seq<u8> {
    spec_u64_to_le_bytes(t.id as u64) + spec_u64_to_le_bytes((t.date as i64) as u64)
        + spec_u64_to_le_bytes(encode_utf8(t.content).len() as u64) + encode_utf8(t.content)
}

/// The encodings of the items, in order.
pub open spec fn spec_encode_items(items: Seq<ItemModel>) -> Seq<u8>
    decreases items.len(),
{
    if items.len() == 0 {
        Seq::empty()
    } else {
        spec_encode_item(items.first()) + spec_encode_items(items.drop_first())
    }
}

/// The encoding of a whole list.
pub open spec fn spec_encode_list(m: ListModel) -> Seq<u8> {
    spec_u64_to_le_bytes(m.next_id as u64) + spec_u64_to_le_bytes(m.items.len() as u64)
        + spec_encode_items(m.items)
}

/// Reading one little-endian `u64` off the front of a buffer.
pub open spec fn spec_take_u64(b: Seq<u8>) -> Option<(u64, Seq<u8>)> {
    if b.len() >= 8 {
        Some((spec_u64_from_le_bytes(b.take(8)), b.skip(8)))
    } else {
        None
    }
}

/// Reading one item off the front of a buffer.
pub open spec fn spec_take_item(b: Seq<u8>) -> Option<(ItemModel, Seq<u8>)> {
    match spec_take_u64(b) {
        None => None,
        Some((id, b1)) => match spec_take_u64(b1) {
            None => None,
            Some((bits, b2)) => match spec_take_u64(b2) {
                None => None,
                Some((n, b3)) => if id <= usize::MAX && n <= b3.len() && valid_utf8(
                    b3.take(n as int),
                ) {
                    Some(
                        (
                            ItemModel {
                                id: id as int,
                                date: (bits as i64) as int,
                                content: decode_utf8(b3.take(n as int)),
                            },
                            b3.skip(n as int),
                        ),
                    )
                } else {
                    None
                },
            },
        },
    }
}

/// Reading `n` items off the front of a buffer.
pub open spec fn spec_take_items(b: Seq<u8>, n: nat) -> Option<(Seq<ItemModel>, Seq<u8>)>
    decreases n,
{
    if n == 0 {
        Some((Seq::empty(), b))
    } else {
        match spec_take_item(b) {
            None => None,
            Some((t, rest)) => match spec_take_items(rest, (n - 1) as nat) {
                None => None,
                Some((ts, rest2)) => Some((seq![t] + ts, rest2)),
            },
        }
    }
}

/// What a buffer decodes to: the unique well-formed list it is the exact
/// encoding of, or nothing.
pub open spec fn spec_decode_list(b: Seq<u8>) -> Option<ListModel> {
    match spec_take_u64(b) {
        None => None,
        Some((next_id, b1)) => match spec_take_u64(b1) {
            None => None,
            Some((count, b2)) => if next_id <= usize::MAX {
                match spec_take_items(b2, count as nat) {
                    None => None,
                    Some((items, b3)) => {
                        let m = ListModel { items, next_id: next_id as int };
                        if b3.len() == 0 && model_wf(m) {
                            Some(m)
                        } else {
                            None
                        }
                    },
                }
            } else {
                None
            },
        },
    }
}

/// Relies on `String::from_utf8`: it succeeds exactly on valid UTF-8, and
/// the string it returns is the one whose UTF-8 encoding is the input.
#[verifier::external_body]
fn string_from_utf8(v: Vec<u8>) -> (r: Option<String>)
    ensures
        r is Some <==> valid_utf8(v@),
        r matches Some(s) ==> encode_utf8(s@) == v@,
{
    String::from_utf8(v).ok()
}

proof fn lemma_i64_bits_round_trip(x: i64)
    ensures
        ((x as u64) as i64) == x,
{
    assert(((x as u64) as i64) == x) by (bit_vector);
}

/// Appending one item to a batch appends its encoding.
proof fn lemma_encode_items_push(items: Seq<ItemModel>, t: ItemModel)
    ensures
        spec_encode_items(items.push(t)) == spec_encode_items(items) + spec_encode_item(t),
    decreases items.len(),
{
    assert(items.push(t).first() == if items.len() == 0 {
        t
    } else {
        items.first()
    });
    if items.len() == 0 {
        assert(items.push(t).drop_first() =~= Seq::<ItemModel>::empty());
        assert(spec_encode_items(items.push(t)) == spec_encode_item(t) + spec_encode_items(
            Seq::<ItemModel>::empty(),
        ));
        assert(spec_encode_items(items.push(t)) =~= spec_encode_items(items) + spec_encode_item(
            t,
        ));
    } else {
        assert(items.push(t).drop_first() =~= items.drop_first().push(t));
        lemma_encode_items_push(items.drop_first(), t);
        assert(spec_encode_items(items.push(t)) == spec_encode_item(items.first()) + (
        spec_encode_items(items.drop_first()) + spec_encode_item(t)));
        assert(spec_encode_items(items.push(t)) =~= spec_encode_items(items) + spec_encode_item(
            t,
        ));
    }
}

proof fn lemma_take_u64_prefix(x: u64, rest: Seq<u8>)
    ensures
        spec_take_u64(spec_u64_to_le_bytes(x) + rest) == Some((x, rest)),
{
    lemma_auto_spec_u64_to_from_le_bytes();
    let b = spec_u64_to_le_bytes(x) + rest;
    assert(b.take(8) =~= spec_u64_to_le_bytes(x));
    assert(b.skip(8) =~= rest);
}

proof fn lemma_take_item_prefix(t: ItemModel, rest: Seq<u8>)
    requires
        item_valid(t),
    ensures
        spec_take_item(spec_encode_item(t) + rest) == Some((t, rest)),
{
    lemma_auto_spec_u64_to_from_le_bytes();
    let utf8 = encode_utf8(t.content);
    let e_id = spec_u64_to_le_bytes(t.id as u64);
    let e_date = spec_u64_to_le_bytes((t.date as i64) as u64);
    let e_len = spec_u64_to_le_bytes(utf8.len() as u64);
    let b = spec_encode_item(t) + rest;
    assert(b =~= e_id + (e_date + (e_len + (utf8 + rest))));
    lemma_take_u64_prefix(t.id as u64, e_date + (e_len + (utf8 + rest)));
    lemma_take_u64_prefix((t.date as i64) as u64, e_len + (utf8 + rest));
    lemma_take_u64_prefix(utf8.len() as u64, utf8 + rest);
    let b3 = utf8 + rest;
    assert(b3.take(utf8.len() as int) =~= utf8);
    assert(b3.skip(utf8.len() as int) =~= rest);
    encode_utf8_valid_utf8(t.content);
    encode_utf8_decode_utf8(t.content);
    lemma_i64_bits_round_trip(t.date as i64);
    assert(spec_take_item(b) == Some((t, rest)));
}

proof fn lemma_take_items_prefix(items: Seq<ItemModel>, rest: Seq<u8>)
    requires
        forall|i: int| 0 <= i < items.len() ==> item_valid(#[trigger] items[i]),
    ensures
        spec_take_items(spec_encode_items(items) + rest, items.len()) == Some((items, rest)),
    decreases items.len(),
{
    if items.len() == 0 {
        assert(spec_encode_items(items) + rest =~= rest);
        assert(Seq::<ItemModel>::empty() =~= items);
    } else {
        let b = spec_encode_items(items) + rest;
        assert(b =~= spec_encode_item(items.first()) + (spec_encode_items(items.drop_first())
            + rest));
        lemma_take_item_prefix(items.first(), spec_encode_items(items.drop_first()) + rest);
        lemma_take_items_prefix(items.drop_first(), rest);
        assert(seq![items.first()] + items.drop_first() =~= items);
    }
}

/// Round-trip persistence law: storing a well-formed list and loading the
/// bytes back yields the same list — same items, same texts, same
/// `next_id`.
pub proof fn lemma_store_load_round_trip(l: TodoList)
    requires
        l.wf(),
        list_valid(l@),
    ensures
        spec_decode_list(spec_encode_list(l@)) == Some(l@),
{
    let m = l@;
    assert(model_wf(m));
    lemma_auto_spec_u64_to_from_le_bytes();
    let e_next = spec_u64_to_le_bytes(m.next_id as u64);
    let e_count = spec_u64_to_le_bytes(m.items.len() as u64);
    let e_items = spec_encode_items(m.items);
    let b = spec_encode_list(m);
    assert(b =~= e_next + (e_count + (e_items + Seq::<u8>::empty())));
    lemma_take_u64_prefix(m.next_id as u64, e_count + (e_items + Seq::<u8>::empty()));
    lemma_take_u64_prefix(m.items.len() as u64, e_items + Seq::<u8>::empty());
    lemma_take_items_prefix(m.items, Seq::<u8>::empty());
    assert((m.items.len() as u64) as nat == m.items.len());
    assert(spec_decode_list(b) == Some(m));
}

/// Serializes the full list in the stored format.
pub fn encode_list(l: &TodoList) -> (r: Vec<u8>)
    ensures
        r@ == spec_encode_list(l@),
        list_valid(l@),
{
    let mut out: Vec<u8> = Vec::new();
    let mut piece = u64_to_le_bytes(l.next_id as u64);
    out.append(&mut piece);
    let mut piece = u64_to_le_bytes(l.list.len() as u64);
    out.append(&mut piece);
    let ghost header = spec_u64_to_le_bytes(l@.next_id as u64) + spec_u64_to_le_bytes(
        l@.items.len() as u64,
    );
    assert(out@ =~= header);
    let mut i: usize = 0;
    while i < l.list.len()
        invariant
            i <= l.list@.len(),
            header == spec_u64_to_le_bytes(l@.next_id as u64) + spec_u64_to_le_bytes(
                l@.items.len() as u64,
            ),
            out@ =~= header + spec_encode_items(items_model(l.list@.take(i as int))),
            forall|k: int| 0 <= k < i ==> item_valid(#[trigger] items_model(l.list@)[k]),
        decreases l.list@.len() - i,
    {
        let t = &l.list[i];
        let mut piece = u64_to_le_bytes(t.item_id as u64);
        out.append(&mut piece);
        let bits = #[verifier::truncate] (t.date_time as u64);
        let mut piece = u64_to_le_bytes(bits);
        out.append(&mut piece);
        let content_bytes = t.item_content.as_str().as_bytes_vec();
        let mut piece = u64_to_le_bytes(content_bytes.len() as u64);
        out.append(&mut piece);
        let mut content_bytes = content_bytes;
        out.append(&mut content_bytes);
        proof {
            let tm = l.list@[i as int]@;
            assert(item_valid(tm));
            assert(items_model(l.list@)[i as int] == tm);
            assert(items_model(l.list@.take(i + 1)) =~= items_model(
                l.list@.take(i as int),
            ).push(tm));
            lemma_encode_items_push(items_model(l.list@.take(i as int)), tm);
        }
        i = i + 1;
    }
    proof {
        assert(l.list@.take(l.list@.len() as int) =~= l.list@);
        assert(list_valid(l@));
    }
    out
}

/// Reads one little-endian `u64` at `pos`, as [`spec_take_u64`] does on the
/// remaining bytes.
fn take_u64(bytes: &[u8], pos: usize) -> (r: Option<(u64, usize)>)
    requires
        pos <= bytes@.len(),
    ensures
        match r {
            Some(p) => {
                &&& spec_take_u64(bytes@.skip(pos as int)) == Some(
                    (p.0, bytes@.skip(p.1 as int)),
                )
                &&& p.1 == pos + 8 && p.1 <= bytes@.len()
            },
            None => spec_take_u64(bytes@.skip(pos as int)) is None,
        },
{
    if bytes.len() - pos >= 8 {
        let s = slice_subrange(bytes, pos, pos + 8);
        let x = u64_from_le_bytes(s);
        proof {
            assert(bytes@.skip(pos as int).take(8) =~= bytes@.subrange(pos as int, pos + 8));
            assert(bytes@.skip(pos as int).skip(8) =~= bytes@.skip(pos + 8));
        }
        Some((x, pos + 8))
    } else {
        None
    }
}

/// Reads one stored item at `pos`, as [`spec_take_item`] does on the
/// remaining bytes.
fn take_item(bytes: &[u8], pos: usize) -> (r: Option<(Todo, usize)>)
    requires
        pos <= bytes@.len(),
    ensures
        match r {
            Some(p) => {
                &&& spec_take_item(bytes@.skip(pos as int)) == Some(
                    (p.0@, bytes@.skip(p.1 as int)),
                )
                &&& pos <= p.1 <= bytes@.len()
            },
            None => spec_take_item(bytes@.skip(pos as int)) is None,
        },
{
    let (id_u, p1) = match take_u64(bytes, pos) {
        Some(v) => v,
        None => {
            return None;
        },
    };
    let (bits, p2) = match take_u64(bytes, p1) {
        Some(v) => v,
        None => {
            return None;
        },
    };
    let (n, p3) = match take_u64(bytes, p2) {
        Some(v) => v,
        None => {
            return None;
        },
    };
    if id_u > usize::MAX as u64 {
        return None;
    }
    if ((bytes.len() - p3) as u64) < n {
        return None;
    }
    let n_us = n as usize;
    let content_slice = slice_subrange(bytes, p3, p3 + n_us);
    let content_bytes = slice_to_vec(content_slice);
    proof {
        assert(bytes@.skip(p3 as int).take(n as int) =~= bytes@.subrange(
            p3 as int,
            p3 + n_us,
        ));
        assert(bytes@.skip(p3 as int).skip(n as int) =~= bytes@.skip(p3 + n_us));
    }
    let content = match string_from_utf8(content_bytes) {
        Some(s) => s,
        None => {
            return None;
        },
    };
    proof {
        encode_utf8_decode_utf8(content@);
    }
    let t = Todo {
        item_id: id_u as usize,
        date_time: #[verifier::truncate] (bits as i64),
        item_content: content,
    };
    Some((t, p3 + n_us))
}

/// Whether the entries carry the dense ids `1..=len` in order.
fn ids_dense(v: &Vec<Todo>) -> (r: bool)
    ensures
        r == (forall|i: int| 0 <= i < v@.len() ==> (#[trigger] v@[i]).item_id == i + 1),
{
    let mut i: usize = 0;
    while i < v.len()
        invariant
            i <= v@.len(),
            forall|k: int| 0 <= k < i ==> (#[trigger] v@[k]).item_id == k + 1,
        decreases v@.len() - i,
    {
        if v[i] .item_id != i + 1 {
            return false;
        }
        i = i + 1;
    }
    true
}

/// Deserializes the stored format, accepting exactly the encodings of
/// well-formed lists: it returns `Ok` on the buffers that
/// [`spec_decode_list`] accepts, with that list, and reports every other
/// buffer as malformed.
pub fn decode_list(bytes: &[u8]) -> (r: Result<TodoList, TodoError>)
    ensures
        match r {
            Ok(l) => spec_decode_list(bytes@) == Some(l@) && l.wf(),
            Err(e) => spec_decode_list(bytes@) is None && e == TodoError::MalformedData,
        },
{
    proof {
        assert(bytes@.skip(0) =~= bytes@);
    }
    let (next_u, p1) = match take_u64(bytes, 0) {
        Some(v) => v,
        None => {
            return Err(TodoError::MalformedData);
        },
    };
    let (count, p2) = match take_u64(bytes, p1) {
        Some(v) => v,
        None => {
            return Err(TodoError::MalformedData);
        },
    };
    if next_u > usize::MAX as u64 {
        return Err(TodoError::MalformedData);
    }
    let mut items: Vec<Todo> = Vec::new();
    let mut pos = p2;
    let mut k: u64 = 0;
    while k < count
        invariant
            k <= count,
            pos <= bytes@.len(),
            next_u <= usize::MAX,
            spec_take_u64(bytes@) == Some((next_u, bytes@.skip(p1 as int))),
            spec_take_u64(bytes@.skip(p1 as int)) == Some((count, bytes@.skip(p2 as int))),
            spec_take_items(bytes@.skip(p2 as int), count as nat) == match spec_take_items(
                bytes@.skip(pos as int),
                (count - k) as nat,
            ) {
                Some(q) => Some((items_model(items@) + q.0, q.1)),
                None => None::<(Seq<ItemModel>, Seq<u8>)>,
            },
        decreases count - k,
    {
        let ghost rest_before = bytes@.skip(pos as int);
        match take_item(bytes, pos) {
            None => {
                proof {
                    assert(spec_take_items(rest_before, (count - k) as nat) is None);
                }
                return Err(TodoError::MalformedData);
            },
            Some((t, np)) => {
                let ghost old_items = items@;
                items.push(t);
                proof {
                    let rest_after = bytes@.skip(np as int);
                    assert(spec_take_items(rest_before, (count - k) as nat) == match
                        spec_take_items(rest_after, (count - k - 1) as nat) {
                        Some(q) => Some((seq![t@] + q.0, q.1)),
                        None => None::<(Seq<ItemModel>, Seq<u8>)>,
                    });
                    assert(items_model(items@) =~= items_model(old_items).push(t@));
                    match spec_take_items(rest_after, (count - k - 1) as nat) {
                        Some(q) => {
                            assert(items_model(old_items) + (seq![t@] + q.0) =~= items_model(
                                items@,
                            ) + q.0);
                        },
                        None => {},
                    }
                }
                pos = np;
                k = k + 1;
            },
        }
    }
    proof {
        assert(spec_take_items(bytes@.skip(pos as int), 0) == Some(
            (Seq::<ItemModel>::empty(), bytes@.skip(pos as int)),
        ));
        assert(items_model(items@) + Seq::<ItemModel>::empty() =~= items_model(items@));
    }
    if pos != bytes.len() {
        proof {
            assert(bytes@.skip(pos as int).len() > 0);
        }
        return Err(TodoError::MalformedData);
    }
    proof {
        assert(bytes@.skip(pos as int).len() == 0);
    }
    if items.len() == usize::MAX {
        return Err(TodoError::MalformedData);
    }
    if next_u as usize != items.len() + 1 {
        proof {
            let m = ListModel { items: items_model(items@), next_id: next_u as int };
            assert(items_model(items@).len() == items@.len());
            assert(m.next_id != m.items.len() + 1);
            assert(!model_wf(m));
            assert(spec_take_items(bytes@.skip(p2 as int), count as nat) == Some(
                (items_model(items@), bytes@.skip(pos as int)),
            ));
            assert(spec_decode_list(bytes@) is None);
        }
        return Err(TodoError::MalformedData);
    }
    if !ids_dense(&items) {
        proof {
            let m = ListModel { items: items_model(items@), next_id: next_u as int };
            let i = choose|i: int|
                0 <= i < items@.len() && (#[trigger] items@[i]).item_id != i + 1;
            assert(m.items[i].id == items@[i].item_id as int);
            assert(!model_wf(m));
            assert(spec_decode_list(bytes@) is None);
        }
        return Err(TodoError::MalformedData);
    }
    let l = TodoList { list: items, next_id: next_u as usize };
    proof {
        assert(l@.items == items_model(items@));
        assert(model_wf(l@));
        assert(spec_decode_list(bytes@) == Some(l@));
    }
    Ok(l)
}

/// Loads a list from the bytes a file held: an empty file is the empty
/// list with `next_id` 1, anything else must be the stored format.
pub fn load_list(bytes: &[u8]) -> (r: Result<TodoList, TodoError>)
    ensures
        bytes@.len() == 0 ==> match r {
            Ok(l) => l.wf() && l@.items =~= Seq::<ItemModel>::empty() && l@.next_id == 1,
            Err(_) => false,
        },
        bytes@.len() > 0 ==> match r {
            Ok(l) => spec_decode_list(bytes@) == Some(l@) && l.wf(),
            Err(e) => spec_decode_list(bytes@) is None && e == TodoError::MalformedData,
        },
{
    if bytes.len() == 0 {
        Ok(TodoList::empty())
    } else {
        decode_list(bytes)
    }
}

} // verus!
