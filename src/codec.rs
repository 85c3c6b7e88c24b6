//! NUL-delimited string payloads exchanged with the store device.
//!
//! A payload is a concatenation of UTF-8 strings, each followed by one NUL
//! byte. Decoding splits a buffer after every NUL byte; the resulting pieces
//! are called segments below.
use vstd::prelude::*;
use vstd::slice::slice_subrange;
use vstd::string::StringSliceAdditionalSpecFns;
use vstd::utf8::{decode_utf8, encode_utf8, valid_utf8};
use std::str::Utf8Error;

verus! {

#[verifier::external_type_specification]
#[verifier::external_body]
pub struct ExUtf8Error(std::str::Utf8Error);

/// Relies on std::str::from_utf8: it succeeds exactly when the bytes are
/// well-formed UTF-8, and the text it then returns is made of those bytes.
#[verifier::external_body]
fn str_from_utf8(bytes: &[u8]) -> (r: Result<&str, Utf8Error>)
    ensures
        r is Ok <==> valid_utf8(bytes@),
        r matches Ok(s) ==> s.spec_bytes() == bytes@,
{
    std::str::from_utf8(bytes)
}

/// Each byte string followed by one NUL byte, concatenated in order.
pub open spec fn frame(pieces: Seq<Seq<u8>>) -> Seq<u8>
    decreases pieces.len(),
{
    if pieces.len() == 0 {
        seq![]
    } else {
        frame(pieces.drop_last()) + pieces.last() + seq![0u8]
    }
}

/// The UTF-8 bytes of each text.
pub open spec fn texts_bytes(texts: Seq<Seq<char>>) -> Seq<Seq<u8>> {
    texts.map_values(|t: Seq<char>| encode_utf8(t))
}

/// The payload that carries the given texts.
pub open spec fn payload(texts: Seq<Seq<char>>) -> Seq<u8> {
    frame(texts_bytes(texts))
}

/// The views of a sequence of string slices.
pub open spec fn views_of(strs: Seq<&str>) -> Seq<Seq<char>> {
    strs.map_values(|s: &str| s@)
}

/// The buffer split after every NUL byte. Every segment but the last ends in
/// NUL; the last one does too exactly when the buffer does.
pub open spec fn segments(b: Seq<u8>) -> Seq<Seq<u8>>
    decreases b.len(),
{
    if b.len() == 0 {
        seq![]
    } else {
        let s = segments(b.drop_last());
        if s.len() == 0 || s.last().last() == 0 {
            s.push(seq![b.last()])
        } else {
            s.update(s.len() - 1, s.last().push(b.last()))
        }
    }
}

/// A buffer without its final byte, when that byte is NUL.
pub open spec fn strip_nul(b: Seq<u8>) -> Seq<u8> {
    if b.len() > 0 && b.last() == 0 {
        b.drop_last()
    } else {
        b
    }
}

/// A single value can be decoded from the buffer.
pub open spec fn value_valid(b: Seq<u8>) -> bool {
    valid_utf8(strip_nul(b))
}

/// The text a single value buffer holds.
pub open spec fn value_text(b: Seq<u8>) -> Seq<char> {
    decode_utf8(strip_nul(b))
}

/// The segments that stand for entries: all of them, but a final segment
/// that is a lone NUL (the terminator of the whole list).
pub open spec fn entry_segments(b: Seq<u8>) -> Seq<Seq<u8>> {
    let s = segments(b);
    if s.len() > 0 && s.last() == seq![0u8] {
        s.drop_last()
    } else {
        s
    }
}

/// A list can be decoded from the buffer: every segment is valid UTF-8 once
/// its NUL is removed.
pub open spec fn list_valid(b: Seq<u8>) -> bool {
    forall|i: int| 0 <= i < segments(b).len() ==> #[trigger] value_valid(segments(b)[i])
}

/// The text of each segment.
pub open spec fn list_texts_of(segs: Seq<Seq<u8>>) -> Seq<Seq<char>> {
    segs.map_values(|p: Seq<u8>| value_text(p))
}

/// The texts of a list buffer.
pub open spec fn list_texts(b: Seq<u8>) -> Seq<Seq<char>> {
    list_texts_of(entry_segments(b))
}

/// Encodes strings as a payload: the bytes of each one followed by a NUL,
/// in order, with no other framing.
pub fn make_payload(strings: &[&str]) -> (r: Vec<u8>)
    ensures
        r@ == payload(views_of(strings@)),
{
    let mut out: Vec<u8> = Vec::new();
    let ghost texts = views_of(strings@);
    let mut i: usize = 0;
    while i < strings.len()
        invariant
            0 <= i <= strings@.len(),
            texts == views_of(strings@),
            out@ == frame(texts_bytes(texts.subrange(0, i as int))),
        decreases strings@.len() - i,
    {
        let bytes = strings[i].as_bytes();
        let ghost before = out@;
        let mut j: usize = 0;
        while j < bytes.len()
            invariant
                0 <= j <= bytes@.len(),
                out@ == before + bytes@.subrange(0, j as int),
            decreases bytes@.len() - j,
        {
            out.push(bytes[j]);
            proof {
                assert(bytes@.subrange(0, j + 1) =~= bytes@.subrange(0, j as int).push(bytes@[j as int]));
            }
            j = j + 1;
        }
        out.push(0u8);
        proof {
            let prev = texts_bytes(texts.subrange(0, i as int));
            let next = texts_bytes(texts.subrange(0, i + 1));
            assert(bytes@.subrange(0, j as int) =~= bytes@);
            assert(next.drop_last() =~= prev);
            assert(next.last() == encode_utf8(strings@[i as int]@));
            assert(out@ =~= frame(next));
        }
        i = i + 1;
    }
    proof {
        assert(texts.subrange(0, strings@.len() as int) =~= texts);
    }
    out
}

/// Decodes a single value: nothing from an empty buffer; otherwise the text of
/// the buffer without one final NUL, or an error if that is not UTF-8.
pub fn parse_nul_string(buffer: &[u8]) -> (r: Result<Option<&str>, Utf8Error>)
    ensures
        buffer@.len() == 0 ==> r matches Ok(None),
        buffer@.len() > 0 ==> (r is Ok <==> value_valid(buffer@)),
        buffer@.len() > 0 && r is Ok ==> (r matches Ok(Some(t)) && t@ == value_text(buffer@)),
{
    if buffer.len() == 0 {
        return Ok(None);
    }
    let mut body = buffer;
    if buffer.last() == Some(&0u8) {
        body = slice_subrange(buffer, 0, buffer.len() - 1);
        proof {
            assert(body@ =~= buffer@.drop_last());
        }
    }
    assert(body@ == strip_nul(buffer@));
    match str_from_utf8(body) {
        Ok(t) => {
            proof {
                vstd::utf8::encode_utf8_decode_utf8(t@);
            }
            Ok(Some(t))
        },
        Err(e) => Err(e),
    }
}

/// One step of the segment split over a prefix of the buffer.
proof fn lemma_segments_step(b: Seq<u8>, j: int)
    requires
        0 <= j < b.len(),
    ensures
        ({
            let s = segments(b.subrange(0, j));
            segments(b.subrange(0, j + 1)) == if s.len() == 0 || s.last().last() == 0 {
                s.push(seq![b[j]])
            } else {
                s.update(s.len() - 1, s.last().push(b[j]))
            }
        }),
{
    assert(b.subrange(0, j + 1).drop_last() =~= b.subrange(0, j));
}

/// A buffer that ends in NUL has a last segment that ends in NUL.
proof fn lemma_segments_closed(b: Seq<u8>)
    requires
        b.len() > 0,
        b.last() == 0,
    ensures
        segments(b).len() > 0,
        segments(b).last().len() > 0,
        segments(b).last().last() == 0,
{
}

/// The segments of a prefix that ends in NUL are the first segments of every
/// longer prefix, and a strictly longer prefix has more segments.
proof fn lemma_segments_prefix(b: Seq<u8>, start: int, j: int)
    requires
        0 <= start <= j <= b.len(),
        start == 0 || b[start - 1] == 0,
    ensures
        segments(b.subrange(0, j)).len() >= segments(b.subrange(0, start)).len(),
        j > start ==> segments(b.subrange(0, j)).len() > segments(b.subrange(0, start)).len(),
        forall|k: int|
            0 <= k < segments(b.subrange(0, start)).len() ==> segments(b.subrange(0, j))[k]
                == segments(b.subrange(0, start))[k],
    decreases j - start,
{
    if j > start {
        lemma_segments_prefix(b, start, j - 1);
        lemma_segments_step(b, j - 1);
        if j - 1 == start && start > 0 {
            assert(b.subrange(0, start).last() == b[start - 1]);
            lemma_segments_closed(b.subrange(0, start));
        }
    }
}

/// Decodes a list: the buffer is split after every NUL byte, each segment is
/// decoded as a single value, and a final segment that is a lone NUL is
/// dropped. Fails if any segment is not UTF-8.
pub fn parse_nul_list(buffer: &[u8]) -> (r: Result<Vec<&str>, Utf8Error>)
    ensures
        r is Ok <==> list_valid(buffer@),
        r matches Ok(v) ==> views_of(v@) == list_texts(buffer@),
{
    let ghost b = buffer@;
    let mut out: Vec<&str> = Vec::new();
    let mut start: usize = 0;
    let mut i: usize = 0;
    let mut lone_nul = false;
    while i < buffer.len()
        invariant
            b == buffer@,
            0 <= start <= i <= b.len(),
            start == 0 || b[start - 1] == 0,
            forall|k: int| start <= k < i ==> b[k] != 0,
            start < i ==> segments(b.subrange(0, i as int)) == segments(
                b.subrange(0, start as int),
            ).push(b.subrange(start as int, i as int)),
            start == i ==> segments(b.subrange(0, i as int)) == segments(
                b.subrange(0, start as int),
            ),
            views_of(out@) == list_texts_of(segments(b.subrange(0, start as int))),
            forall|k: int|
                0 <= k < segments(b.subrange(0, start as int)).len() ==> #[trigger] value_valid(
                    segments(b.subrange(0, start as int))[k],
                ),
            lone_nul <==> (segments(b.subrange(0, start as int)).len() > 0 && segments(
                b.subrange(0, start as int),
            ).last() == seq![0u8]),
        decreases b.len() - i,
    {
        proof {
            lemma_segments_step(b, i as int);
            if start > 0 {
                assert(b.subrange(0, start as int).last() == b[start - 1]);
                lemma_segments_closed(b.subrange(0, start as int));
            }
            if start < i {
                assert(b.subrange(start as int, i as int).last() == b[i - 1]);
            }
            let open = b.subrange(start as int, i + 1);
            assert(open =~= b.subrange(start as int, i as int).push(b[i as int]));
            if start == i {
                assert(open =~= seq![b[i as int]]);
            }
            assert(segments(b.subrange(0, i + 1)) =~= segments(b.subrange(0, start as int)).push(
                open,
            ));
        }
        if buffer[i] == 0 {
            let piece = slice_subrange(buffer, start, i + 1);
            assert(piece@.len() > 0);
            let ghost before = out@;
            match parse_nul_string(piece) {
                Ok(Some(t)) => {
                    assert(t@ == value_text(piece@) && value_valid(piece@));
                    out.push(t);
                    assert(out@.last()@ == value_text(piece@));
                },
                Ok(None) => {
                    assert(false);
                },
                Err(e) => {
                    proof {
                        lemma_segments_prefix(b, i + 1, b.len() as int);
                        assert(b.subrange(0, b.len() as int) =~= b);
                        let k = segments(b.subrange(0, start as int)).len() as int;
                        assert(!value_valid(segments(b)[k]));
                    }
                    return Err(e);
                },
            }
            proof {
                if start == i {
                    assert(b.subrange(start as int, i + 1) =~= seq![0u8]);
                }
                if start < i {
                    assert(b.subrange(start as int, i + 1)[0] != 0);
                }
            }
            proof {
                let prev = segments(b.subrange(0, start as int));
                let next = segments(b.subrange(0, i + 1));
                assert(next == prev.push(piece@));
                assert(views_of(out@) =~= views_of(before).push(out@.last()@));
                assert(list_texts_of(next) =~= list_texts_of(prev).push(value_text(piece@)));
                assert forall|k: int| 0 <= k < next.len() implies #[trigger] value_valid(
                    next[k],
                ) by {
                    if k < prev.len() {
                        assert(next[k] == prev[k]);
                    }
                }
            }
            lone_nul = start == i;
            start = i + 1;
        }
        i = i + 1;
    }
    assert(b.subrange(0, b.len() as int) =~= b);
    if start < buffer.len() {
        let piece = slice_subrange(buffer, start, buffer.len());
        match parse_nul_string(piece) {
            Ok(Some(t)) => {
                let ghost before = out@;
                out.push(t);
                proof {
                    assert(views_of(out@) =~= views_of(before).push(t@));
                    assert(list_texts_of(segments(b)) =~= list_texts_of(
                        segments(b.subrange(0, start as int)),
                    ).push(value_text(piece@)));
                    let prev = segments(b.subrange(0, start as int));
                    assert forall|k: int| 0 <= k < segments(b).len() implies #[trigger] value_valid(
                        segments(b)[k],
                    ) by {
                        if k < prev.len() {
                            assert(segments(b)[k] == prev[k]);
                        }
                    }
                }
            },
            Ok(None) => {},
            Err(e) => {
                proof {
                    let k = segments(b.subrange(0, start as int)).len() as int;
                    assert(!value_valid(segments(b)[k]));
                }
                return Err(e);
            },
        }
        proof {
            assert(b.subrange(start as int, b.len() as int).last() != 0);
        }
        lone_nul = false;
    }
    assert(views_of(out@) == list_texts_of(segments(b)));
    assert(list_valid(b));
    let ghost full = out@;
    if lone_nul {
        out.pop();
        proof {
            assert(views_of(out@) =~= views_of(full).drop_last());
        }
    }
    proof {
        assert(views_of(out@) =~= list_texts(b));
    }
    Ok(out)
}

/// Appending bytes without NUL to a buffer that is empty or ends in NUL opens
/// one new segment made of exactly those bytes.
proof fn lemma_segments_append_open(x: Seq<u8>, c: Seq<u8>)
    requires
        x.len() == 0 || x.last() == 0,
        forall|k: int| 0 <= k < c.len() ==> c[k] != 0,
    ensures
        c.len() > 0 ==> segments(x + c) == segments(x).push(c),
        c.len() == 0 ==> segments(x + c) == segments(x),
    decreases c.len(),
{
    if c.len() == 0 {
        assert(x + c =~= x);
    } else {
        let d = c.drop_last();
        lemma_segments_append_open(x, d);
        assert((x + c).drop_last() =~= x + d);
        if x.len() > 0 {
            lemma_segments_closed(x);
        }
        if d.len() == 0 {
            assert(c =~= seq![c.last()]);
        } else {
            assert(d.last() == c[d.len() - 1]);
            assert(d.push(c.last()) =~= c);
        }
        assert(segments(x + c) =~= segments(x).push(c) || c.len() == 0);
    }
}

/// A frame of byte strings without NUL splits into those byte strings, each
/// with its NUL.
proof fn lemma_segments_frame(pieces: Seq<Seq<u8>>)
    requires
        forall|i: int| 0 <= i < pieces.len() ==> !(#[trigger] pieces[i]).contains(0u8),
    ensures
        segments(frame(pieces)) == pieces.map_values(|p: Seq<u8>| p.push(0u8)),
    decreases pieces.len(),
{
    if pieces.len() == 0 {
        assert(segments(frame(pieces)) =~= pieces.map_values(|p: Seq<u8>| p.push(0u8)));
    } else {
        let rest = pieces.drop_last();
        let p = pieces.last();
        assert forall|i: int| 0 <= i < rest.len() implies !(#[trigger] rest[i]).contains(0u8) by {
            assert(rest[i] == pieces[i]);
        }
        lemma_segments_frame(rest);
        let x = frame(rest);
        assert forall|k: int| 0 <= k < p.len() implies p[k] != 0 by {
            if p[k] == 0 {
                assert(p.contains(0u8));
                assert(pieces[pieces.len() - 1] == p);
            }
        }
        assert(x.len() == 0 || x.last() == 0);
        lemma_segments_append_open(x, p);
        let whole = frame(pieces);
        assert(whole == (x + p) + seq![0u8]);
        assert(whole.drop_last() =~= x + p);
        if x.len() > 0 {
            lemma_segments_closed(x);
        }
        if p.len() == 0 {
            assert(seq![0u8] =~= p.push(0u8));
        } else {
            assert(p.last() == p[p.len() - 1]);
        }
        assert(segments(whole) =~= pieces.map_values(|q: Seq<u8>| q.push(0u8)));
    }
}

/// Decoding a list payload gives back the texts it was made from, when no
/// text holds a NUL byte and the last text is not empty (an empty last text
/// would be read as the terminator of the list).
pub proof fn lemma_list_round_trip(texts: Seq<Seq<char>>)
    requires
        forall|i: int| 0 <= i < texts.len() ==> !encode_utf8(#[trigger] texts[i]).contains(0u8),
        texts.len() > 0 ==> texts.last().len() > 0,
    ensures
        list_valid(payload(texts)),
        list_texts(payload(texts)) == texts,
{
    let pieces = texts_bytes(texts);
    assert forall|i: int| 0 <= i < pieces.len() implies !(#[trigger] pieces[i]).contains(0u8) by {
        assert(pieces[i] == encode_utf8(texts[i]));
    }
    lemma_segments_frame(pieces);
    let segs = segments(payload(texts));
    assert forall|i: int| 0 <= i < segs.len() implies #[trigger] value_valid(segs[i]) by {
        assert(segs[i] == pieces[i].push(0u8));
        assert(strip_nul(segs[i]) =~= encode_utf8(texts[i]));
        vstd::utf8::encode_utf8_valid_utf8(texts[i]);
    }
    if texts.len() > 0 {
        let t = texts.last();
        vstd::utf8::encode_utf8_decode_utf8(t);
        assert(segs.last() == encode_utf8(t).push(0u8));
        if encode_utf8(t).len() == 0 {
            assert(encode_utf8(t) =~= Seq::<u8>::empty());
            assert(decode_utf8(Seq::<u8>::empty()) =~= Seq::<char>::empty());
        }
        assert(segs.last().len() > 1);
        assert(segs.last() != seq![0u8]);
    }
    assert forall|i: int| 0 <= i < texts.len() implies #[trigger] list_texts(payload(texts))[i]
        == texts[i] by {
        assert(strip_nul(segs[i]) =~= encode_utf8(texts[i]));
        vstd::utf8::encode_utf8_decode_utf8(texts[i]);
    }
    assert(list_texts(payload(texts)) =~= texts);
}

/// A list payload followed by one more NUL, as the device terminates a list,
/// decodes to the same texts: the final lone NUL yields no entry.
pub proof fn lemma_list_terminator(texts: Seq<Seq<char>>)
    requires
        forall|i: int| 0 <= i < texts.len() ==> !encode_utf8(#[trigger] texts[i]).contains(0u8),
    ensures
        list_valid(payload(texts).push(0u8)),
        list_texts(payload(texts).push(0u8)) == texts,
{
    let pieces = texts_bytes(texts);
    assert forall|i: int| 0 <= i < pieces.len() implies !(#[trigger] pieces[i]).contains(0u8) by {
        assert(pieces[i] == encode_utf8(texts[i]));
    }
    lemma_segments_frame(pieces);
    let b = payload(texts);
    let bb = b.push(0u8);
    assert(bb.drop_last() =~= b);
    if b.len() > 0 {
        lemma_segments_closed(b);
    }
    let segs = segments(bb);
    assert(segs == segments(b).push(seq![0u8]));
    assert forall|i: int| 0 <= i < segs.len() implies #[trigger] value_valid(segs[i]) by {
        if i < texts.len() {
            assert(segs[i] == pieces[i].push(0u8));
            assert(strip_nul(segs[i]) =~= encode_utf8(texts[i]));
            vstd::utf8::encode_utf8_valid_utf8(texts[i]);
        } else {
            assert(strip_nul(segs[i]) =~= Seq::<u8>::empty());
        }
    }
    assert(entry_segments(bb) =~= segments(b));
    assert forall|i: int| 0 <= i < texts.len() implies #[trigger] list_texts(bb)[i]
        == texts[i] by {
        assert(segments(b)[i] == pieces[i].push(0u8));
        assert(strip_nul(segments(b)[i]) =~= encode_utf8(texts[i]));
        vstd::utf8::encode_utf8_decode_utf8(texts[i]);
    }
    assert(list_texts(bb) =~= texts);
}

} // verus!
