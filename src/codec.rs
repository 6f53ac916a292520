//! The binary encoding of a record: fixed-width little-endian integers,
//! one-byte flags and tags, and length-prefixed UTF-8 text, field after field.
use vstd::prelude::*;
use vstd::bytes::{spec_u64_to_le_bytes, u64_from_le_bytes, u64_to_le_bytes, lemma_auto_spec_u64_to_from_le_bytes};
use vstd::slice::{slice_subrange, slice_to_vec};
use vstd::string::*;
use vstd::utf8::{encode_utf8, decode_utf8, valid_utf8, encode_utf8_decode_utf8, encode_utf8_valid_utf8, decode_utf8_encode_utf8};
use crate::house::{House, HouseView, option_string_view};

verus! {

pub open spec fn u64_bytes(x: u64) -> Seq<u8> {
    spec_u64_to_le_bytes(x)
}

pub open spec fn text_bytes(s: Seq<char>) -> Seq<u8> {
    u64_bytes(encode_utf8(s).len() as u64) + encode_utf8(s)
}

pub open spec fn bool_bytes(b: bool) -> Seq<u8> {
    if b { seq![1u8] } else { seq![0u8] }
}

pub open spec fn opt_u64_bytes(o: Option<u64>) -> Seq<u8> {
    match o {
        None => seq![0u8],
        Some(x) => seq![1u8] + u64_bytes(x),
    }
}

pub open spec fn opt_text_bytes(o: Option<Seq<char>>) -> Seq<u8> {
    match o {
        None => seq![0u8],
        Some(s) => seq![1u8] + text_bytes(s),
    }
}

pub open spec fn texts_body(v: Seq<Seq<char>>) -> Seq<u8>
    decreases v.len(),
{
    if v.len() == 0 {
        Seq::empty()
    } else {
        texts_body(v.drop_last()) + text_bytes(v.last())
    }
}

pub open spec fn texts_bytes(v: Seq<Seq<char>>) -> Seq<u8> {
    u64_bytes(v.len() as u64) + texts_body(v)
}

/// The encoding of a record.
pub open spec fn house_bytes(h: HouseView) -> Seq<u8> {
    u64_bytes(h.id) + text_bytes(h.owners_name) + opt_text_bytes(h.realtor) + text_bytes(
        h.house_type,
    ) + text_bytes(h.location) + u64_bytes(h.created_at) + opt_u64_bytes(h.updated_at)
        + u64_bytes(h.price) + u64_bytes(h.available_units) + bool_bytes(h.availability)
        + texts_bytes(h.buyers)
}

/// `f` stands in `b` from position `pos` on.
pub open spec fn at(b: Seq<u8>, pos: int, f: Seq<u8>) -> bool {
    0 <= pos && pos + f.len() <= b.len() && b.subrange(pos, pos + f.len()) == f
}

proof fn lemma_at_join(b: Seq<u8>, pos: int, f: Seq<u8>, g: Seq<u8>)
    requires
        at(b, pos, f),
        at(b, pos + f.len(), g),
    ensures
        at(b, pos, f + g),
{
    assert(b.subrange(pos, pos + f.len() + g.len()) =~= f + g);
}

proof fn lemma_at_split(b: Seq<u8>, pos: int, f: Seq<u8>, g: Seq<u8>)
    requires
        at(b, pos, f + g),
    ensures
        at(b, pos, f),
        at(b, pos + f.len(), g),
{
    let w = b.subrange(pos, pos + f.len() + g.len());
    assert(w == f + g);
    assert(b.subrange(pos, pos + f.len()) =~= w.subrange(0, f.len() as int));
    assert(w.subrange(0, f.len() as int) =~= f);
    assert(b.subrange(pos + f.len(), pos + f.len() + g.len()) =~= w.subrange(
        f.len() as int,
        w.len() as int,
    ));
    assert(w.subrange(f.len() as int, w.len() as int) =~= g);
}

proof fn lemma_at_byte(b: Seq<u8>, pos: int, t: u8)
    requires
        at(b, pos, seq![t]),
    ensures
        pos < b.len(),
        b[pos] == t,
{
    assert(b.subrange(pos, pos + 1)[0] == b[pos]);
}

proof fn lemma_u64_bytes_len()
    ensures
        forall|x: u64| #[trigger] u64_bytes(x).len() == 8,
{
    lemma_auto_spec_u64_to_from_le_bytes();
}

/// Relies on `String::from_utf8`: it succeeds exactly on valid UTF-8 and
/// then holds the characters that the bytes encode.
#[verifier::external_body]
fn string_from_utf8(b: Vec<u8>) -> (r: Option<String>)
    ensures
        r is Some <==> valid_utf8(b@),
        r is Some ==> r->Some_0@ == decode_utf8(b@),
{
    String::from_utf8(b).ok()
}

fn read_u64(b: &[u8], pos: usize) -> (r: Option<(u64, usize)>)
    requires
        pos <= b@.len(),
    ensures
        r is Some ==> r->Some_0.1 <= b@.len(),
        r is Some ==> at(b@, pos as int, u64_bytes(r->Some_0.0)) && r->Some_0.1 == pos + 8,
        forall|v: u64| #[trigger] at(b@, pos as int, u64_bytes(v)) ==> r is Some && r->Some_0.0 == v,
{
    proof {
        lemma_auto_spec_u64_to_from_le_bytes();
    }
    if b.len() - pos < 8 {
        return None;
    }
    let s = slice_subrange(b, pos, pos + 8);
    let x = u64_from_le_bytes(s);
    assert(u64_bytes(x) == s@);
    Some((x, pos + 8))
}

fn read_byte(b: &[u8], pos: usize) -> (r: Option<(u8, usize)>)
    requires
        pos <= b@.len(),
    ensures
        r is Some <==> pos < b@.len(),
        r is Some ==> r->Some_0.0 == b@[pos as int] && r->Some_0.1 == pos + 1,
{
    if pos < b.len() {
        Some((b[pos], pos + 1))
    } else {
        None
    }
}

fn read_text(b: &[u8], pos: usize) -> (r: Option<(String, usize)>)
    requires
        pos <= b@.len(),
    ensures
        r is Some ==> r->Some_0.1 <= b@.len(),
        r is Some ==> at(b@, pos as int, text_bytes(r->Some_0.0@)) && r->Some_0.1 == pos + text_bytes(r->Some_0.0@).len(),
        forall|v: Seq<char>| #[trigger] at(b@, pos as int, text_bytes(v)) ==> r is Some && r->Some_0.0@ == v,
{
    proof {
        lemma_u64_bytes_len();
        assert forall|v: Seq<char>| #[trigger] at(b@, pos as int, text_bytes(v)) implies at(b@, pos as int, u64_bytes(encode_utf8(v).len() as u64)) && at(b@, pos + 8, encode_utf8(v)) by {
            lemma_at_split(b@, pos as int, u64_bytes(encode_utf8(v).len() as u64), encode_utf8(v));
        }
    }
    let (n, p) = match read_u64(b, pos) {
        Some(x) => x,
        None => return None,
    };
    if ((b.len() - p) as u64) < n {
        return None;
    }
    let e = p + n as usize;
    let bytes = slice_to_vec(slice_subrange(b, p, e));
    let ghost raw = bytes@;
    let s = match string_from_utf8(bytes) {
        Some(s) => s,
        None => {
            proof {
                assert forall|v: Seq<char>| !#[trigger] at(b@, pos as int, text_bytes(v)) by {
                    if at(b@, pos as int, text_bytes(v)) {
                        encode_utf8_valid_utf8(v);
                        assert(raw == encode_utf8(v));
                    }
                }
            }
            return None;
        },
    };
    proof {
        decode_utf8_encode_utf8(raw);
        assert(encode_utf8(s@) == raw);
        lemma_at_join(b@, pos as int, u64_bytes(n), raw);
        assert forall|v: Seq<char>| #[trigger] at(b@, pos as int, text_bytes(v)) implies s@ == v by {
            encode_utf8_decode_utf8(v);
            assert(raw == encode_utf8(v));
        }
    }
    Some((s, e))
}

fn read_bool(b: &[u8], pos: usize) -> (r: Option<(bool, usize)>)
    requires
        pos <= b@.len(),
    ensures
        r is Some ==> r->Some_0.1 <= b@.len(),
        r is Some ==> at(b@, pos as int, bool_bytes(r->Some_0.0)) && r->Some_0.1 == pos + 1,
        forall|v: bool| #[trigger] at(b@, pos as int, bool_bytes(v)) ==> r is Some && r->Some_0.0 == v,
{
    proof {
        assert forall|v: bool| #[trigger] at(b@, pos as int, bool_bytes(v)) implies pos < b@.len() && b@[pos as int] == (if v { 1u8 } else { 0u8 }) by {
            lemma_at_byte(b@, pos as int, if v { 1u8 } else { 0u8 });
        }
    }
    let (t, next) = match read_byte(b, pos) {
        Some(x) => x,
        None => return None,
    };
    proof {
        assert(b@.subrange(pos as int, pos + 1) =~= seq![t]);
    }
    if t == 0 {
        Some((false, next))
    } else if t == 1 {
        Some((true, next))
    } else {
        None
    }
}

fn read_opt_u64(b: &[u8], pos: usize) -> (r: Option<(Option<u64>, usize)>)
    requires
        pos <= b@.len(),
    ensures
        r is Some ==> r->Some_0.1 <= b@.len(),
        r is Some ==> at(b@, pos as int, opt_u64_bytes(r->Some_0.0)) && r->Some_0.1 == pos + opt_u64_bytes(r->Some_0.0).len(),
        forall|v: Option<u64>| #[trigger] at(b@, pos as int, opt_u64_bytes(v)) ==> r is Some && r->Some_0.0 == v,
{
    proof {
        lemma_u64_bytes_len();
        assert forall|v: Option<u64>| #[trigger] at(b@, pos as int, opt_u64_bytes(v)) implies pos < b@.len() && b@[pos as int] == (if v is Some { 1u8 } else { 0u8 }) && (v is Some ==> at(b@, pos + 1, u64_bytes(v->Some_0))) by {
            if v is Some {
                lemma_at_split(b@, pos as int, seq![1u8], u64_bytes(v->Some_0));
            }
            lemma_at_byte(b@, pos as int, if v is Some { 1u8 } else { 0u8 });
        }
    }
    let (t, next) = match read_byte(b, pos) {
        Some(x) => x,
        None => return None,
    };
    proof {
        assert(b@.subrange(pos as int, pos + 1) =~= seq![t]);
    }
    if t == 0 {
        Some((None, next))
    } else if t == 1 {
        match read_u64(b, next) {
            Some((x, p)) => {
                proof {
                    lemma_at_join(b@, pos as int, seq![1u8], u64_bytes(x));
                }
                Some((Some(x), p))
            },
            None => None,
        }
    } else {
        None
    }
}

fn read_opt_text(b: &[u8], pos: usize) -> (r: Option<(Option<String>, usize)>)
    requires
        pos <= b@.len(),
    ensures
        r is Some ==> r->Some_0.1 <= b@.len(),
        r is Some ==> at(b@, pos as int, opt_text_bytes(option_string_view(r->Some_0.0))) && r->Some_0.1 == pos + opt_text_bytes(option_string_view(r->Some_0.0)).len(),
        forall|v: Option<Seq<char>>| #[trigger] at(b@, pos as int, opt_text_bytes(v)) ==> r is Some && option_string_view(r->Some_0.0) == v,
{
    proof {
        assert forall|v: Option<Seq<char>>| #[trigger] at(b@, pos as int, opt_text_bytes(v)) implies pos < b@.len() && b@[pos as int] == (if v is Some { 1u8 } else { 0u8 }) && (v is Some ==> at(b@, pos + 1, text_bytes(v->Some_0))) by {
            if v is Some {
                lemma_at_split(b@, pos as int, seq![1u8], text_bytes(v->Some_0));
            }
            lemma_at_byte(b@, pos as int, if v is Some { 1u8 } else { 0u8 });
        }
    }
    let (t, next) = match read_byte(b, pos) {
        Some(x) => x,
        None => return None,
    };
    proof {
        assert(b@.subrange(pos as int, pos + 1) =~= seq![t]);
    }
    if t == 0 {
        Some((None, next))
    } else if t == 1 {
        match read_text(b, next) {
            Some((x, p)) => {
                proof {
                    lemma_at_join(b@, pos as int, seq![1u8], text_bytes(x@));
                }
                Some((Some(x), p))
            },
            None => None,
        }
    } else {
        None
    }
}

proof fn lemma_texts_body_concat(a: Seq<Seq<char>>, c: Seq<Seq<char>>)
    ensures
        texts_body(a + c) == texts_body(a) + texts_body(c),
    decreases c.len(),
{
    if c.len() == 0 {
        assert(a + c =~= a);
        assert(texts_body(a) + texts_body(c) =~= texts_body(a));
    } else {
        lemma_texts_body_concat(a, c.drop_last());
        assert((a + c).drop_last() =~= a + c.drop_last());
        assert(texts_body(a + c) =~= texts_body(a) + texts_body(c));
    }
}

proof fn lemma_texts_body_len(v: Seq<Seq<char>>)
    ensures
        texts_body(v).len() >= 8 * v.len(),
    decreases v.len(),
{
    if v.len() > 0 {
        lemma_texts_body_len(v.drop_last());
        lemma_u64_bytes_len();
    }
}

fn read_texts(b: &[u8], pos: usize) -> (r: Option<(Vec<String>, usize)>)
    requires
        pos <= b@.len(),
    ensures
        r is Some ==> r->Some_0.1 <= b@.len(),
        r is Some ==> at(b@, pos as int, texts_bytes(r->Some_0.0@.map_values(|x: String| x@))) && r->Some_0.1 == pos + texts_bytes(r->Some_0.0@.map_values(|x: String| x@)).len(),
        forall|v: Seq<Seq<char>>| #[trigger] at(b@, pos as int, texts_bytes(v)) ==> r is Some && r->Some_0.0@.map_values(|x: String| x@) == v,
{
    let len = b.len();
    assert(len == b@.len());
    proof {
        lemma_u64_bytes_len();
        assert forall|v: Seq<Seq<char>>| #[trigger] at(b@, pos as int, texts_bytes(v)) implies at(b@, pos as int, u64_bytes(v.len() as u64)) && at(b@, pos + 8, texts_body(v)) && v.len() < 0x1_0000_0000_0000_0000 by {
            lemma_at_split(b@, pos as int, u64_bytes(v.len() as u64), texts_body(v));
            lemma_texts_body_len(v);
        }
    }
    let (count, mut p) = match read_u64(b, pos) {
        Some(x) => x,
        None => return None,
    };
    let mut out: Vec<String> = Vec::new();
    let mut i: u64 = 0;
    proof {
        assert(texts_body(out@.map_values(|x: String| x@)) =~= Seq::<u8>::empty());
        assert(u64_bytes(count) + Seq::<u8>::empty() =~= u64_bytes(count));
        assert forall|v: Seq<Seq<char>>| #[trigger] at(b@, pos as int, texts_bytes(v)) implies v.subrange(0, 0) =~= out@.map_values(|x: String| x@) && v.subrange(0, v.len() as int) =~= v by {}
    }
    while i < count
        invariant
            pos <= b@.len(),
            p <= b@.len(),
            i <= count,
            out@.len() == i,
            forall|k: u64| #[trigger] u64_bytes(k).len() == 8,
            at(b@, pos as int, u64_bytes(count) + texts_body(out@.map_values(|x: String| x@))),
            p == pos + 8 + texts_body(out@.map_values(|x: String| x@)).len(),
            forall|v: Seq<Seq<char>>| #[trigger] at(b@, pos as int, texts_bytes(v)) ==> count == v.len() && v.len() < 0x1_0000_0000_0000_0000
                && out@.map_values(|x: String| x@) == v.subrange(0, i as int) && at(b@, p as int, texts_body(v.subrange(i as int, v.len() as int))),
        decreases count - i,
    {
        let ghost done = out@.map_values(|x: String| x@);
        proof {
            assert forall|v: Seq<Seq<char>>| #[trigger] at(b@, pos as int, texts_bytes(v)) implies at(b@, p as int, text_bytes(v[i as int])) && at(b@, p + text_bytes(v[i as int]).len(), texts_body(v.subrange(i + 1, v.len() as int))) by {
                let rest = v.subrange(i as int, v.len() as int);
                assert(rest =~= seq![v[i as int]] + v.subrange(i + 1, v.len() as int));
                lemma_texts_body_concat(seq![v[i as int]], v.subrange(i + 1, v.len() as int));
                assert(seq![v[i as int]].drop_last() =~= Seq::<Seq<char>>::empty());
                assert(texts_body(Seq::<Seq<char>>::empty()) =~= Seq::<u8>::empty());
                assert(seq![v[i as int]].last() == v[i as int]);
                assert(texts_body(seq![v[i as int]]) =~= text_bytes(v[i as int]));
                lemma_at_split(b@, p as int, text_bytes(v[i as int]), texts_body(v.subrange(i + 1, v.len() as int)));
            }
        }
        let (s, q) = match read_text(b, p) {
            Some(x) => x,
            None => return None,
        };
        proof {
            lemma_at_join(b@, pos as int, u64_bytes(count) + texts_body(done), text_bytes(s@));
        }
        out.push(s);
        proof {
            let now = out@.map_values(|x: String| x@);
            assert(now =~= done.push(s@));
            assert(now.drop_last() =~= done);
            assert(u64_bytes(count) + texts_body(done) + text_bytes(s@) =~= u64_bytes(count) + texts_body(now));
            assert forall|v: Seq<Seq<char>>| #[trigger] at(b@, pos as int, texts_bytes(v)) implies now == v.subrange(0, i + 1) by {
                assert(now =~= v.subrange(0, i + 1));
            }
        }
        p = q;
        i = i + 1;
    }
    proof {
        assert forall|v: Seq<Seq<char>>| #[trigger] at(b@, pos as int, texts_bytes(v)) implies out@.map_values(|x: String| x@) == v by {
            assert(v.subrange(0, i as int) =~= v);
        }
        assert(out@.map_values(|x: String| x@).len() == count);
    }
    Some((out, p))
}


fn write_u64(out: &mut Vec<u8>, x: u64)
    ensures
        final(out)@ == old(out)@ + u64_bytes(x),
{
    let mut t = u64_to_le_bytes(x);
    out.append(&mut t);
}

fn write_byte(out: &mut Vec<u8>, t: u8)
    ensures
        final(out)@ == old(out)@ + seq![t],
{
    out.push(t);
    assert(out@ =~= old(out)@ + seq![t]);
}

fn write_text(out: &mut Vec<u8>, s: &String)
    ensures
        final(out)@ == old(out)@ + text_bytes(s@),
{
    let st = s.as_str();
    let mut t = st.as_bytes_vec();
    let n = t.len();
    write_u64(out, n as u64);
    out.append(&mut t);
    assert(out@ =~= old(out)@ + text_bytes(s@));
}

fn write_bool(out: &mut Vec<u8>, v: bool)
    ensures
        final(out)@ == old(out)@ + bool_bytes(v),
{
    write_byte(out, if v { 1 } else { 0 });
}

fn write_opt_u64(out: &mut Vec<u8>, v: Option<u64>)
    ensures
        final(out)@ == old(out)@ + opt_u64_bytes(v),
{
    match v {
        None => write_byte(out, 0),
        Some(x) => {
            write_byte(out, 1);
            write_u64(out, x);
            assert(out@ =~= old(out)@ + opt_u64_bytes(v));
        },
    }
}

fn write_opt_text(out: &mut Vec<u8>, v: &Option<String>)
    ensures
        final(out)@ == old(out)@ + opt_text_bytes(option_string_view(*v)),
{
    match v {
        None => write_byte(out, 0),
        Some(x) => {
            write_byte(out, 1);
            write_text(out, x);
            assert(out@ =~= old(out)@ + opt_text_bytes(option_string_view(*v)));
        },
    }
}

fn write_texts(out: &mut Vec<u8>, v: &Vec<String>)
    ensures
        final(out)@ == old(out)@ + texts_bytes(v@.map_values(|x: String| x@)),
{
    let ghost start = out@;
    let ghost all = v@.map_values(|x: String| x@);
    write_u64(out, v.len() as u64);
    let mut i: usize = 0;
    assert(texts_body(all.subrange(0, 0)) =~= Seq::<u8>::empty());
    assert(out@ =~= start + u64_bytes(v.len() as u64) + texts_body(all.subrange(0, 0)));
    while i < v.len()
        invariant
            i <= v.len(),
            all == v@.map_values(|x: String| x@),
            out@ == start + u64_bytes(v.len() as u64) + texts_body(all.subrange(0, i as int)),
        decreases v.len() - i,
    {
        write_text(out, &v[i]);
        assert(all.subrange(0, i + 1).drop_last() =~= all.subrange(0, i as int));
        assert(out@ =~= start + u64_bytes(v.len() as u64) + texts_body(all.subrange(0, i + 1)));
        i = i + 1;
    }
    assert(all.subrange(0, v.len() as int) =~= all);
    assert(out@ =~= start + texts_bytes(all));
}

pub open spec fn head_bytes(id: u64, owners_name: Seq<char>, realtor: Option<Seq<char>>, house_type: Seq<char>, location: Seq<char>) -> Seq<u8> {
    u64_bytes(id) + text_bytes(owners_name) + opt_text_bytes(realtor) + text_bytes(house_type) + text_bytes(location)
}

pub open spec fn tail_bytes(created_at: u64, updated_at: Option<u64>, price: u64, available_units: u64, availability: bool, buyers: Seq<Seq<char>>) -> Seq<u8> {
    u64_bytes(created_at) + opt_u64_bytes(updated_at) + u64_bytes(price) + u64_bytes(available_units) + bool_bytes(availability) + texts_bytes(buyers)
}

proof fn lemma_head_layout(b: Seq<u8>, pos: int, id: u64, owners_name: Seq<char>, realtor: Option<Seq<char>>, house_type: Seq<char>, location: Seq<char>)
    requires
        at(b, pos, head_bytes(id, owners_name, realtor, house_type, location)),
    ensures
        at(b, pos, u64_bytes(id)),
        at(b, pos + u64_bytes(id).len(), text_bytes(owners_name)),
        at(b, pos + u64_bytes(id).len() + text_bytes(owners_name).len(), opt_text_bytes(realtor)),
        at(b, pos + u64_bytes(id).len() + text_bytes(owners_name).len() + opt_text_bytes(realtor).len(), text_bytes(house_type)),
        at(b, pos + u64_bytes(id).len() + text_bytes(owners_name).len() + opt_text_bytes(realtor).len() + text_bytes(house_type).len(), text_bytes(location)),
{
    lemma_at_split(b, pos, u64_bytes(id) + text_bytes(owners_name) + opt_text_bytes(realtor) + text_bytes(house_type), text_bytes(location));
    lemma_at_split(b, pos, u64_bytes(id) + text_bytes(owners_name) + opt_text_bytes(realtor), text_bytes(house_type));
    lemma_at_split(b, pos, u64_bytes(id) + text_bytes(owners_name), opt_text_bytes(realtor));
    lemma_at_split(b, pos, u64_bytes(id), text_bytes(owners_name));
}

proof fn lemma_tail_layout(b: Seq<u8>, pos: int, created_at: u64, updated_at: Option<u64>, price: u64, available_units: u64, availability: bool, buyers: Seq<Seq<char>>)
    requires
        at(b, pos, tail_bytes(created_at, updated_at, price, available_units, availability, buyers)),
    ensures
        at(b, pos, u64_bytes(created_at)),
        at(b, pos + u64_bytes(created_at).len(), opt_u64_bytes(updated_at)),
        at(b, pos + u64_bytes(created_at).len() + opt_u64_bytes(updated_at).len(), u64_bytes(price)),
        at(b, pos + u64_bytes(created_at).len() + opt_u64_bytes(updated_at).len() + u64_bytes(price).len(), u64_bytes(available_units)),
        at(b, pos + u64_bytes(created_at).len() + opt_u64_bytes(updated_at).len() + u64_bytes(price).len() + u64_bytes(available_units).len(), bool_bytes(availability)),
        at(b, pos + u64_bytes(created_at).len() + opt_u64_bytes(updated_at).len() + u64_bytes(price).len() + u64_bytes(available_units).len() + bool_bytes(availability).len(), texts_bytes(buyers)),
{
    lemma_at_split(b, pos, u64_bytes(created_at) + opt_u64_bytes(updated_at) + u64_bytes(price) + u64_bytes(available_units) + bool_bytes(availability), texts_bytes(buyers));
    lemma_at_split(b, pos, u64_bytes(created_at) + opt_u64_bytes(updated_at) + u64_bytes(price) + u64_bytes(available_units), bool_bytes(availability));
    lemma_at_split(b, pos, u64_bytes(created_at) + opt_u64_bytes(updated_at) + u64_bytes(price), u64_bytes(available_units));
    lemma_at_split(b, pos, u64_bytes(created_at) + opt_u64_bytes(updated_at), u64_bytes(price));
    lemma_at_split(b, pos, u64_bytes(created_at), opt_u64_bytes(updated_at));
}

fn read_head(b: &[u8], pos: usize) -> (r: Option<(u64, String, Option<String>, String, String, usize)>)
    requires
        pos <= b@.len(),
    ensures
        r is Some ==> r->Some_0.5 <= b@.len() && at(b@, pos as int, head_bytes(r->Some_0.0, r->Some_0.1@, option_string_view(r->Some_0.2), r->Some_0.3@, r->Some_0.4@)) && r->Some_0.5 == pos + head_bytes(r->Some_0.0, r->Some_0.1@, option_string_view(r->Some_0.2), r->Some_0.3@, r->Some_0.4@).len(),
        forall|id: u64, owners_name: Seq<char>, realtor: Option<Seq<char>>, house_type: Seq<char>, location: Seq<char>| #[trigger] at(b@, pos as int, head_bytes(id, owners_name, realtor, house_type, location)) ==> r is Some && r->Some_0.0 == id && r->Some_0.1@ == owners_name && option_string_view(r->Some_0.2) == realtor && r->Some_0.3@ == house_type && r->Some_0.4@ == location,
{
    proof {
        lemma_u64_bytes_len();
    }
    let (x0, p0) = match read_u64(b, pos) {
        Some(x) => x,
        None => {
            proof {
                assert forall|id: u64, owners_name: Seq<char>, realtor: Option<Seq<char>>, house_type: Seq<char>, location: Seq<char>| !#[trigger] at(b@, pos as int, head_bytes(id, owners_name, realtor, house_type, location)) by {
                    if at(b@, pos as int, head_bytes(id, owners_name, realtor, house_type, location)) {
                        lemma_head_layout(b@, pos as int, id, owners_name, realtor, house_type, location);
                    }
                }
            }
            return None;
        },
    };
    let (x1, p1) = match read_text(b, p0) {
        Some(x) => x,
        None => {
            proof {
                assert forall|id: u64, owners_name: Seq<char>, realtor: Option<Seq<char>>, house_type: Seq<char>, location: Seq<char>| !#[trigger] at(b@, pos as int, head_bytes(id, owners_name, realtor, house_type, location)) by {
                    if at(b@, pos as int, head_bytes(id, owners_name, realtor, house_type, location)) {
                        lemma_head_layout(b@, pos as int, id, owners_name, realtor, house_type, location);
                    }
                }
            }
            return None;
        },
    };
    let (x2, p2) = match read_opt_text(b, p1) {
        Some(x) => x,
        None => {
            proof {
                assert forall|id: u64, owners_name: Seq<char>, realtor: Option<Seq<char>>, house_type: Seq<char>, location: Seq<char>| !#[trigger] at(b@, pos as int, head_bytes(id, owners_name, realtor, house_type, location)) by {
                    if at(b@, pos as int, head_bytes(id, owners_name, realtor, house_type, location)) {
                        lemma_head_layout(b@, pos as int, id, owners_name, realtor, house_type, location);
                    }
                }
            }
            return None;
        },
    };
    let (x3, p3) = match read_text(b, p2) {
        Some(x) => x,
        None => {
            proof {
                assert forall|id: u64, owners_name: Seq<char>, realtor: Option<Seq<char>>, house_type: Seq<char>, location: Seq<char>| !#[trigger] at(b@, pos as int, head_bytes(id, owners_name, realtor, house_type, location)) by {
                    if at(b@, pos as int, head_bytes(id, owners_name, realtor, house_type, location)) {
                        lemma_head_layout(b@, pos as int, id, owners_name, realtor, house_type, location);
                    }
                }
            }
            return None;
        },
    };
    let (x4, p4) = match read_text(b, p3) {
        Some(x) => x,
        None => {
            proof {
                assert forall|id: u64, owners_name: Seq<char>, realtor: Option<Seq<char>>, house_type: Seq<char>, location: Seq<char>| !#[trigger] at(b@, pos as int, head_bytes(id, owners_name, realtor, house_type, location)) by {
                    if at(b@, pos as int, head_bytes(id, owners_name, realtor, house_type, location)) {
                        lemma_head_layout(b@, pos as int, id, owners_name, realtor, house_type, location);
                    }
                }
            }
            return None;
        },
    };
    proof {
        lemma_at_join(b@, pos as int, u64_bytes(x0), text_bytes(x1@));
        lemma_at_join(b@, pos as int, u64_bytes(x0) + text_bytes(x1@), opt_text_bytes(option_string_view(x2)));
        lemma_at_join(b@, pos as int, u64_bytes(x0) + text_bytes(x1@) + opt_text_bytes(option_string_view(x2)), text_bytes(x3@));
        lemma_at_join(b@, pos as int, u64_bytes(x0) + text_bytes(x1@) + opt_text_bytes(option_string_view(x2)) + text_bytes(x3@), text_bytes(x4@));
    }
    proof {
        assert forall|id: u64, owners_name: Seq<char>, realtor: Option<Seq<char>>, house_type: Seq<char>, location: Seq<char>| #[trigger] at(b@, pos as int, head_bytes(id, owners_name, realtor, house_type, location)) implies x0 == id && x1@ == owners_name && option_string_view(x2) == realtor && x3@ == house_type && x4@ == location by {
            lemma_head_layout(b@, pos as int, id, owners_name, realtor, house_type, location);
        }
    }
    Some((x0, x1, x2, x3, x4, p4))
}

fn read_tail(b: &[u8], pos: usize) -> (r: Option<(u64, Option<u64>, u64, u64, bool, Vec<String>, usize)>)
    requires
        pos <= b@.len(),
    ensures
        r is Some ==> r->Some_0.6 <= b@.len() && at(b@, pos as int, tail_bytes(r->Some_0.0, r->Some_0.1, r->Some_0.2, r->Some_0.3, r->Some_0.4, r->Some_0.5@.map_values(|x: String| x@))) && r->Some_0.6 == pos + tail_bytes(r->Some_0.0, r->Some_0.1, r->Some_0.2, r->Some_0.3, r->Some_0.4, r->Some_0.5@.map_values(|x: String| x@)).len(),
        forall|created_at: u64, updated_at: Option<u64>, price: u64, available_units: u64, availability: bool, buyers: Seq<Seq<char>>| #[trigger] at(b@, pos as int, tail_bytes(created_at, updated_at, price, available_units, availability, buyers)) ==> r is Some && r->Some_0.0 == created_at && r->Some_0.1 == updated_at && r->Some_0.2 == price && r->Some_0.3 == available_units && r->Some_0.4 == availability && r->Some_0.5@.map_values(|x: String| x@) == buyers,
{
    proof {
        lemma_u64_bytes_len();
    }
    let (x0, p0) = match read_u64(b, pos) {
        Some(x) => x,
        None => {
            proof {
                assert forall|created_at: u64, updated_at: Option<u64>, price: u64, available_units: u64, availability: bool, buyers: Seq<Seq<char>>| !#[trigger] at(b@, pos as int, tail_bytes(created_at, updated_at, price, available_units, availability, buyers)) by {
                    if at(b@, pos as int, tail_bytes(created_at, updated_at, price, available_units, availability, buyers)) {
                        lemma_tail_layout(b@, pos as int, created_at, updated_at, price, available_units, availability, buyers);
                    }
                }
            }
            return None;
        },
    };
    let (x1, p1) = match read_opt_u64(b, p0) {
        Some(x) => x,
        None => {
            proof {
                assert forall|created_at: u64, updated_at: Option<u64>, price: u64, available_units: u64, availability: bool, buyers: Seq<Seq<char>>| !#[trigger] at(b@, pos as int, tail_bytes(created_at, updated_at, price, available_units, availability, buyers)) by {
                    if at(b@, pos as int, tail_bytes(created_at, updated_at, price, available_units, availability, buyers)) {
                        lemma_tail_layout(b@, pos as int, created_at, updated_at, price, available_units, availability, buyers);
                    }
                }
            }
            return None;
        },
    };
    let (x2, p2) = match read_u64(b, p1) {
        Some(x) => x,
        None => {
            proof {
                assert forall|created_at: u64, updated_at: Option<u64>, price: u64, available_units: u64, availability: bool, buyers: Seq<Seq<char>>| !#[trigger] at(b@, pos as int, tail_bytes(created_at, updated_at, price, available_units, availability, buyers)) by {
                    if at(b@, pos as int, tail_bytes(created_at, updated_at, price, available_units, availability, buyers)) {
                        lemma_tail_layout(b@, pos as int, created_at, updated_at, price, available_units, availability, buyers);
                    }
                }
            }
            return None;
        },
    };
    let (x3, p3) = match read_u64(b, p2) {
        Some(x) => x,
        None => {
            proof {
                assert forall|created_at: u64, updated_at: Option<u64>, price: u64, available_units: u64, availability: bool, buyers: Seq<Seq<char>>| !#[trigger] at(b@, pos as int, tail_bytes(created_at, updated_at, price, available_units, availability, buyers)) by {
                    if at(b@, pos as int, tail_bytes(created_at, updated_at, price, available_units, availability, buyers)) {
                        lemma_tail_layout(b@, pos as int, created_at, updated_at, price, available_units, availability, buyers);
                    }
                }
            }
            return None;
        },
    };
    let (x4, p4) = match read_bool(b, p3) {
        Some(x) => x,
        None => {
            proof {
                assert forall|created_at: u64, updated_at: Option<u64>, price: u64, available_units: u64, availability: bool, buyers: Seq<Seq<char>>| !#[trigger] at(b@, pos as int, tail_bytes(created_at, updated_at, price, available_units, availability, buyers)) by {
                    if at(b@, pos as int, tail_bytes(created_at, updated_at, price, available_units, availability, buyers)) {
                        lemma_tail_layout(b@, pos as int, created_at, updated_at, price, available_units, availability, buyers);
                    }
                }
            }
            return None;
        },
    };
    let (x5, p5) = match read_texts(b, p4) {
        Some(x) => x,
        None => {
            proof {
                assert forall|created_at: u64, updated_at: Option<u64>, price: u64, available_units: u64, availability: bool, buyers: Seq<Seq<char>>| !#[trigger] at(b@, pos as int, tail_bytes(created_at, updated_at, price, available_units, availability, buyers)) by {
                    if at(b@, pos as int, tail_bytes(created_at, updated_at, price, available_units, availability, buyers)) {
                        lemma_tail_layout(b@, pos as int, created_at, updated_at, price, available_units, availability, buyers);
                    }
                }
            }
            return None;
        },
    };
    proof {
        lemma_at_join(b@, pos as int, u64_bytes(x0), opt_u64_bytes(x1));
        lemma_at_join(b@, pos as int, u64_bytes(x0) + opt_u64_bytes(x1), u64_bytes(x2));
        lemma_at_join(b@, pos as int, u64_bytes(x0) + opt_u64_bytes(x1) + u64_bytes(x2), u64_bytes(x3));
        lemma_at_join(b@, pos as int, u64_bytes(x0) + opt_u64_bytes(x1) + u64_bytes(x2) + u64_bytes(x3), bool_bytes(x4));
        lemma_at_join(b@, pos as int, u64_bytes(x0) + opt_u64_bytes(x1) + u64_bytes(x2) + u64_bytes(x3) + bool_bytes(x4), texts_bytes(x5@.map_values(|x: String| x@)));
    }
    proof {
        assert forall|created_at: u64, updated_at: Option<u64>, price: u64, available_units: u64, availability: bool, buyers: Seq<Seq<char>>| #[trigger] at(b@, pos as int, tail_bytes(created_at, updated_at, price, available_units, availability, buyers)) implies x0 == created_at && x1 == updated_at && x2 == price && x3 == available_units && x4 == availability && x5@.map_values(|x: String| x@) == buyers by {
            lemma_tail_layout(b@, pos as int, created_at, updated_at, price, available_units, availability, buyers);
        }
    }
    Some((x0, x1, x2, x3, x4, x5, p5))
}

proof fn lemma_house_split(h: HouseView)
    ensures
        house_bytes(h) == head_bytes(h.id, h.owners_name, h.realtor, h.house_type, h.location) + tail_bytes(h.created_at, h.updated_at, h.price, h.available_units, h.availability, h.buyers),
{
    assert(house_bytes(h) =~= head_bytes(h.id, h.owners_name, h.realtor, h.house_type, h.location) + tail_bytes(h.created_at, h.updated_at, h.price, h.available_units, h.availability, h.buyers));
}

impl House {
    /// The encoding of this record.
    pub fn to_bytes(&self) -> (r: Vec<u8>)
        ensures
            r@ == house_bytes(self@),
    {
        let mut out: Vec<u8> = Vec::new();
        write_u64(&mut out, self.id);
        write_text(&mut out, &self.owners_name);
        write_opt_text(&mut out, &self.realtor);
        write_text(&mut out, &self.house_type);
        write_text(&mut out, &self.location);
        write_u64(&mut out, self.created_at);
        write_opt_u64(&mut out, self.updated_at);
        write_u64(&mut out, self.price);
        write_u64(&mut out, self.available_units);
        write_bool(&mut out, self.availability);
        write_texts(&mut out, &self.buyers);
        assert(out@ =~= house_bytes(self@));
        out
    }

    /// The record that `b` encodes; `None` when `b` encodes no record, which
    /// for stored bytes means they were corrupted: the caller treats it as
    /// fatal. A partial record is never returned.
    pub fn from_bytes(b: &[u8]) -> (r: Option<House>)
        ensures
            r is Some ==> house_bytes(r->Some_0@) == b@,
            forall|v: HouseView| #[trigger] house_bytes(v) == b@ ==> r is Some && r->Some_0@ == v,
    {
        proof {
            assert forall|v: HouseView| #[trigger] house_bytes(v) == b@ implies at(b@, 0, head_bytes(v.id, v.owners_name, v.realtor, v.house_type, v.location)) && at(b@, head_bytes(v.id, v.owners_name, v.realtor, v.house_type, v.location).len() as int, tail_bytes(v.created_at, v.updated_at, v.price, v.available_units, v.availability, v.buyers)) by {
                lemma_house_split(v);
                assert(b@.subrange(0, b@.len() as int) =~= b@);
                lemma_at_split(b@, 0, head_bytes(v.id, v.owners_name, v.realtor, v.house_type, v.location), tail_bytes(v.created_at, v.updated_at, v.price, v.available_units, v.availability, v.buyers));
            }
        }
        let a = match read_head(b, 0) {
            Some(x) => x,
            None => return None,
        };
        let c = match read_tail(b, a.5) {
            Some(x) => x,
            None => return None,
        };
        if c.6 != b.len() {
            return None;
        }
        let h = House {
            id: a.0,
            owners_name: a.1,
            realtor: a.2,
            house_type: a.3,
            location: a.4,
            created_at: c.0,
            updated_at: c.1,
            price: c.2,
            available_units: c.3,
            availability: c.4,
            buyers: c.5,
        };
        proof {
            lemma_house_split(h@);
            lemma_at_join(b@, 0, head_bytes(h@.id, h@.owners_name, h@.realtor, h@.house_type, h@.location), tail_bytes(h@.created_at, h@.updated_at, h@.price, h@.available_units, h@.availability, h@.buyers));
            assert(b@.subrange(0, b@.len() as int) =~= b@);
        }
        Some(h)
    }
}

} // verus!
