use vstd::prelude::*;
use vstd::utf8::*;

use crate::entry::{ChannelView, Entry, EntryView, ItemView, RssChannel, RssItem, RssPublisher};

verus! {

/// Eight big-endian bytes of `n`.
pub open spec fn u64_be(n: u64) -> Seq<u8> {
    seq![
        (n >> 56u64) as u8,
        (n >> 48u64) as u8,
        (n >> 40u64) as u8,
        (n >> 32u64) as u8,
        (n >> 24u64) as u8,
        (n >> 16u64) as u8,
        (n >> 8u64) as u8,
        n as u8,
    ]
}

/// The number held by the first eight bytes of `b`, big-endian.
pub open spec fn be_u64(b: Seq<u8>) -> u64
    recommends
        b.len() >= 8,
{
    ((b[0] as u64) << 56u64) | ((b[1] as u64) << 48u64) | ((b[2] as u64) << 40u64) | ((b[3] as u64)
        << 32u64) | ((b[4] as u64) << 24u64) | ((b[5] as u64) << 16u64) | ((b[6] as u64) << 8u64)
        | (b[7] as u64)
}

pub proof fn lemma_be_u64_of_u64_be(n: u64)
    ensures
        be_u64(u64_be(n)) == n,
{
    let b = u64_be(n);
    assert(((((n >> 56u64) as u8) as u64) << 56u64) | ((((n >> 48u64) as u8) as u64) << 48u64) | ((((n
        >> 40u64) as u8) as u64) << 40u64) | ((((n >> 32u64) as u8) as u64) << 32u64) | ((((n
        >> 24u64) as u8) as u64) << 24u64) | ((((n >> 16u64) as u8) as u64) << 16u64) | ((((n
        >> 8u64) as u8) as u64) << 8u64) | ((n as u8) as u64) == n) by (bit_vector);
}

fn push_u64_be(out: &mut Vec<u8>, n: u64)
    ensures
        final(out)@ == old(out)@ + u64_be(n),
{
    out.push((n >> 56u64) as u8);
    out.push((n >> 48u64) as u8);
    out.push((n >> 40u64) as u8);
    out.push((n >> 32u64) as u8);
    out.push((n >> 24u64) as u8);
    out.push((n >> 16u64) as u8);
    out.push((n >> 8u64) as u8);
    out.push(n as u8);
    assert(out@ =~= old(out)@ + u64_be(n));
}

/// A byte string framed by its length.
pub open spec fn enc_bytes(b: Seq<u8>) -> Seq<u8> {
    u64_be(b.len() as u64) + b
}

/// A string framed by the length of its UTF-8 form.
pub open spec fn enc_str(s: Seq<char>) -> Seq<u8> {
    enc_bytes(encode_utf8(s))
}

pub open spec fn enc_opt(o: Option<Seq<char>>) -> Seq<u8> {
    match o {
        None => seq![0u8],
        Some(s) => seq![1u8] + enc_str(s),
    }
}

pub open spec fn enc_str_list(v: Seq<Seq<char>>) -> Seq<u8>
    decreases v.len(),
{
    if v.len() == 0 {
        Seq::empty()
    } else {
        enc_str(v[0]) + enc_str_list(v.drop_first())
    }
}

pub const TAG_PATH: u8 = 0;
pub const TAG_PUBLISHER: u8 = 1;
pub const TAG_CHANNEL: u8 = 2;
pub const TAG_ITEM: u8 = 3;

/// The canonical encoding of a record: one tag byte for its kind, then its fields in order.
pub open spec fn encode_entry(e: EntryView) -> Seq<u8> {
    match e {
        EntryView::Path(p) => seq![TAG_PATH] + u64_be(p.len() as u64) + enc_str_list(p),
        EntryView::Publisher(k) => seq![TAG_PUBLISHER] + enc_bytes(k),
        EntryView::Channel(c) => seq![TAG_CHANNEL] + enc_str(c.uuid) + enc_str(c.title) + enc_str(
            c.link,
        ) + enc_str(c.description),
        EntryView::Item(i) => seq![TAG_ITEM] + enc_str(i.uuid) + enc_opt(i.title) + enc_opt(i.link)
            + enc_opt(i.description) + enc_opt(i.author),
    }
}

pub open spec fn parse_bytes(b: Seq<u8>) -> Option<(Seq<u8>, Seq<u8>)> {
    if b.len() < 8 {
        None
    } else {
        let n = be_u64(b) as int;
        if b.len() - 8 < n {
            None
        } else {
            Some((b.subrange(8, 8 + n), b.subrange(8 + n, b.len() as int)))
        }
    }
}

pub open spec fn parse_str(b: Seq<u8>) -> Option<(Seq<char>, Seq<u8>)> {
    match parse_bytes(b) {
        None => None,
        Some((body, rest)) => if valid_utf8(body) {
            Some((decode_utf8(body), rest))
        } else {
            None
        },
    }
}

pub open spec fn parse_opt(b: Seq<u8>) -> Option<(Option<Seq<char>>, Seq<u8>)> {
    if b.len() == 0 {
        None
    } else if b[0] == 0 {
        Some((None, b.drop_first()))
    } else if b[0] == 1 {
        match parse_str(b.drop_first()) {
            Some((s, rest)) => Some((Some(s), rest)),
            None => None,
        }
    } else {
        None
    }
}

pub open spec fn parse_str_list(b: Seq<u8>, n: nat) -> Option<(Seq<Seq<char>>, Seq<u8>)>
    decreases n,
{
    if n == 0 {
        Some((Seq::empty(), b))
    } else {
        match parse_str(b) {
            None => None,
            Some((s, rest)) => match parse_str_list(rest, (n - 1) as nat) {
                None => None,
                Some((v, rest2)) => Some((seq![s] + v, rest2)),
            },
        }
    }
}

pub open spec fn parse_channel(b: Seq<u8>) -> Option<(ChannelView, Seq<u8>)> {
    match parse_str(b) {
        None => None,
        Some((uuid, r1)) => match parse_str(r1) {
            None => None,
            Some((title, r2)) => match parse_str(r2) {
                None => None,
                Some((link, r3)) => match parse_str(r3) {
                    None => None,
                    Some((description, r4)) => Some(
                        (ChannelView { uuid, title, link, description }, r4),
                    ),
                },
            },
        },
    }
}

pub open spec fn parse_item(b: Seq<u8>) -> Option<(ItemView, Seq<u8>)> {
    match parse_str(b) {
        None => None,
        Some((uuid, r1)) => match parse_opt(r1) {
            None => None,
            Some((title, r2)) => match parse_opt(r2) {
                None => None,
                Some((link, r3)) => match parse_opt(r3) {
                    None => None,
                    Some((description, r4)) => match parse_opt(r4) {
                        None => None,
                        Some((author, r5)) => Some(
                            (ItemView { uuid, title, link, description, author }, r5),
                        ),
                    },
                },
            },
        },
    }
}

pub open spec fn parse_entry(b: Seq<u8>) -> Option<(EntryView, Seq<u8>)> {
    if b.len() == 0 {
        None
    } else {
        let rest = b.drop_first();
        if b[0] == TAG_PATH {
            if rest.len() < 8 {
                None
            } else {
                match parse_str_list(rest.subrange(8, rest.len() as int), be_u64(rest) as nat) {
                    None => None,
                    Some((p, r)) => Some((EntryView::Path(p), r)),
                }
            }
        } else if b[0] == TAG_PUBLISHER {
            match parse_bytes(rest) {
                None => None,
                Some((k, r)) => Some((EntryView::Publisher(k), r)),
            }
        } else if b[0] == TAG_CHANNEL {
            match parse_channel(rest) {
                None => None,
                Some((c, r)) => Some((EntryView::Channel(c), r)),
            }
        } else if b[0] == TAG_ITEM {
            match parse_item(rest) {
                None => None,
                Some((i, r)) => Some((EntryView::Item(i), r)),
            }
        } else {
            None
        }
    }
}

/// The record that `b` encodes, if it encodes one with nothing left over.
pub open spec fn decode_entry(b: Seq<u8>) -> Option<EntryView> {
    match parse_entry(b) {
        Some((e, rest)) => if rest.len() == 0 {
            Some(e)
        } else {
            None
        },
        None => None,
    }
}


/// Every length in the record fits the eight bytes that frame it.
pub open spec fn str_fits(s: Seq<char>) -> bool {
    encode_utf8(s).len() <= u64::MAX
}

pub open spec fn opt_fits(o: Option<Seq<char>>) -> bool {
    match o {
        Some(s) => str_fits(s),
        None => true,
    }
}

pub open spec fn entry_fits(e: EntryView) -> bool {
    match e {
        EntryView::Path(p) => p.len() <= u64::MAX && forall|i: int|
            0 <= i < p.len() ==> str_fits(#[trigger] p[i]),
        EntryView::Publisher(k) => k.len() <= u64::MAX,
        EntryView::Channel(c) => str_fits(c.uuid) && str_fits(c.title) && str_fits(c.link)
            && str_fits(c.description),
        EntryView::Item(i) => str_fits(i.uuid) && opt_fits(i.title) && opt_fits(i.link) && opt_fits(
            i.description,
        ) && opt_fits(i.author),
    }
}

proof fn lemma_parse_bytes(b: Seq<u8>, rest: Seq<u8>)
    requires
        b.len() <= u64::MAX,
    ensures
        parse_bytes(enc_bytes(b) + rest) == Some((b, rest)),
{
    let all = enc_bytes(b) + rest;
    lemma_be_u64_of_u64_be(b.len() as u64);
    assert(all.subrange(0, 8) =~= u64_be(b.len() as u64));
    assert(be_u64(all) == be_u64(all.subrange(0, 8)));
    assert(all.subrange(8, 8 + b.len() as int) =~= b);
    assert(all.subrange(8 + b.len() as int, all.len() as int) =~= rest);
}

proof fn lemma_parse_str(s: Seq<char>, rest: Seq<u8>)
    requires
        str_fits(s),
    ensures
        parse_str(enc_str(s) + rest) == Some((s, rest)),
{
    lemma_parse_bytes(encode_utf8(s), rest);
    encode_utf8_valid_utf8(s);
    encode_utf8_decode_utf8(s);
}

proof fn lemma_parse_opt(o: Option<Seq<char>>, rest: Seq<u8>)
    requires
        opt_fits(o),
    ensures
        parse_opt(enc_opt(o) + rest) == Some((o, rest)),
{
    let all = enc_opt(o) + rest;
    match o {
        None => {
            assert(all.drop_first() =~= rest);
        },
        Some(s) => {
            assert(all.drop_first() =~= enc_str(s) + rest);
            lemma_parse_str(s, rest);
        },
    }
}

proof fn lemma_parse_str_list(v: Seq<Seq<char>>, rest: Seq<u8>)
    requires
        forall|i: int| 0 <= i < v.len() ==> str_fits(#[trigger] v[i]),
    ensures
        parse_str_list(enc_str_list(v) + rest, v.len()) == Some((v, rest)),
    decreases v.len(),
{
    if v.len() > 0 {
        let tail = v.drop_first();
        assert(str_fits(v[0]));
        assert(enc_str_list(v) + rest =~= enc_str(v[0]) + (enc_str_list(tail) + rest));
        lemma_parse_str(v[0], enc_str_list(tail) + rest);
        assert forall|i: int| 0 <= i < tail.len() implies str_fits(#[trigger] tail[i]) by {
            assert(tail[i] == v[i + 1]);
        }
        lemma_parse_str_list(tail, rest);
        assert(seq![v[0]] + tail =~= v);
    } else {
        assert(enc_str_list(v) + rest =~= rest);
        assert(v =~= Seq::<Seq<char>>::empty());
    }
}

proof fn lemma_parse_channel(c: ChannelView)
    requires
        str_fits(c.uuid) && str_fits(c.title) && str_fits(c.link) && str_fits(c.description),
    ensures
        parse_channel(encode_entry(EntryView::Channel(c)).drop_first()) == Some((c, Seq::<u8>::empty())),
{
    let empty = Seq::<u8>::empty();
    let r3 = enc_str(c.description) + empty;
    let r2 = enc_str(c.link) + r3;
    let r1 = enc_str(c.title) + r2;
    assert(encode_entry(EntryView::Channel(c)).drop_first() =~= enc_str(c.uuid) + r1);
    lemma_parse_str(c.uuid, r1);
    lemma_parse_str(c.title, r2);
    lemma_parse_str(c.link, r3);
    lemma_parse_str(c.description, empty);
}

proof fn lemma_parse_item(i: ItemView)
    requires
        str_fits(i.uuid) && opt_fits(i.title) && opt_fits(i.link) && opt_fits(i.description)
            && opt_fits(i.author),
    ensures
        parse_item(encode_entry(EntryView::Item(i)).drop_first()) == Some((i, Seq::<u8>::empty())),
{
    let empty = Seq::<u8>::empty();
    let r4 = enc_opt(i.author) + empty;
    let r3 = enc_opt(i.description) + r4;
    let r2 = enc_opt(i.link) + r3;
    let r1 = enc_opt(i.title) + r2;
    assert(encode_entry(EntryView::Item(i)).drop_first() =~= enc_str(i.uuid) + r1);
    lemma_parse_str(i.uuid, r1);
    lemma_parse_opt(i.title, r2);
    lemma_parse_opt(i.link, r3);
    lemma_parse_opt(i.description, r4);
    lemma_parse_opt(i.author, empty);
}

proof fn lemma_parse_path(p: Seq<Seq<char>>)
    requires
        p.len() <= u64::MAX,
        forall|i: int| 0 <= i < p.len() ==> str_fits(#[trigger] p[i]),
    ensures
        ({
            let body = encode_entry(EntryView::Path(p)).drop_first();
            &&& body.len() >= 8
            &&& parse_str_list(body.subrange(8, body.len() as int), be_u64(body) as nat) == Some(
                (p, Seq::<u8>::empty()),
            )
        }),
{
    let empty = Seq::<u8>::empty();
    let body = u64_be(p.len() as u64) + enc_str_list(p);
    assert(encode_entry(EntryView::Path(p)).drop_first() =~= body);
    lemma_be_u64_of_u64_be(p.len() as u64);
    assert(be_u64(body) == be_u64(u64_be(p.len() as u64)));
    assert(body.subrange(8, body.len() as int) =~= enc_str_list(p) + empty);
    lemma_parse_str_list(p, empty);
}

/// Decoding the encoding of any record gives that record back.
pub proof fn lemma_decode_encode(e: EntryView)
    requires
        entry_fits(e),
    ensures
        decode_entry(encode_entry(e)) == Some(e),
{
    let b = encode_entry(e);
    match e {
        EntryView::Path(p) => {
            lemma_parse_path(p);
        },
        EntryView::Publisher(k) => {
            assert(b.drop_first() =~= enc_bytes(k) + Seq::<u8>::empty());
            lemma_parse_bytes(k, Seq::<u8>::empty());
        },
        EntryView::Channel(c) => {
            lemma_parse_channel(c);
        },
        EntryView::Item(i) => {
            lemma_parse_item(i);
        },
    }
}


proof fn lemma_enc_str_list_push(v: Seq<Seq<char>>, x: Seq<char>)
    ensures
        enc_str_list(v.push(x)) == enc_str_list(v) + enc_str(x),
    decreases v.len(),
{
    if v.len() == 0 {
        assert(v.push(x).drop_first() =~= Seq::<Seq<char>>::empty());
        assert(v.push(x)[0] == x);
        assert(enc_str_list(v.push(x).drop_first()) =~= Seq::<u8>::empty());
        assert(enc_str_list(v.push(x)) =~= enc_str(x) + Seq::<u8>::empty());
        assert(enc_str_list(v) + enc_str(x) =~= enc_str(x));
    } else {
        assert(v.push(x).drop_first() =~= v.drop_first().push(x));
        lemma_enc_str_list_push(v.drop_first(), x);
        assert(enc_str_list(v.push(x)) =~= enc_str_list(v) + enc_str(x));
    }
}

pub(crate) fn push_slice(out: &mut Vec<u8>, b: &[u8])
    ensures
        final(out)@ == old(out)@ + b@,
{
    let mut i: usize = 0;
    while i < b.len()
        invariant
            i <= b@.len(),
            out@ == old(out)@ + b@.subrange(0, i as int),
        decreases b@.len() - i,
    {
        out.push(b[i]);
        i = i + 1;
        assert(out@ =~= old(out)@ + b@.subrange(0, i as int));
    }
    assert(b@.subrange(0, i as int) =~= b@);
}

fn push_framed(out: &mut Vec<u8>, b: &[u8])
    ensures
        final(out)@ == old(out)@ + enc_bytes(b@),
{
    push_u64_be(out, b.len() as u64);
    push_slice(out, b);
    assert(out@ =~= old(out)@ + enc_bytes(b@));
}

fn push_str(out: &mut Vec<u8>, s: &String)
    ensures
        final(out)@ == old(out)@ + enc_str(s@),
{
    let bytes = s.as_str().as_bytes();
    push_framed(out, bytes);
}

fn push_opt(out: &mut Vec<u8>, o: &Option<String>)
    ensures
        final(out)@ == old(out)@ + enc_opt(crate::entry::opt_view(*o)),
{
    match o {
        None => {
            out.push(0u8);
            assert(out@ =~= old(out)@ + enc_opt(crate::entry::opt_view(*o)));
        },
        Some(s) => {
            out.push(1u8);
            push_str(out, s);
            assert(out@ =~= old(out)@ + enc_opt(crate::entry::opt_view(*o)));
        },
    }
}

fn push_path(out: &mut Vec<u8>, p: &Vec<String>)
    ensures
        final(out)@ == old(out)@ + u64_be(p@.len() as u64) + enc_str_list(
            crate::entry::strings_view(p@),
        ),
{
    let ghost start = out@;
    push_u64_be(out, p.len() as u64);
    let mut i: usize = 0;
    while i < p.len()
        invariant
            i <= p@.len(),
            out@ == start + u64_be(p@.len() as u64) + enc_str_list(
                crate::entry::strings_view(p@).take(i as int),
            ),
        decreases p@.len() - i,
    {
        push_str(out, &p[i]);
        proof {
            let v = crate::entry::strings_view(p@);
            assert(v.take(i + 1) =~= v.take(i as int).push(p@[i as int]@));
            lemma_enc_str_list_push(v.take(i as int), p@[i as int]@);
        }
        i = i + 1;
    }
    assert(crate::entry::strings_view(p@).take(i as int) =~= crate::entry::strings_view(p@));
}

/// Relies on std's `String::from_utf8`: it succeeds exactly when the bytes are valid UTF-8,
/// and the string then holds the characters they encode.
#[verifier::external_body]
fn string_from_utf8(bytes: Vec<u8>) -> (r: Option<String>)
    ensures
        r is Some <==> valid_utf8(bytes@),
        r is Some ==> r.unwrap()@ == decode_utf8(bytes@),
{
    String::from_utf8(bytes).ok()
}

fn read_u64(b: &[u8], pos: usize) -> (r: u64)
    requires
        pos + 8 <= b@.len(),
    ensures
        r == be_u64(b@.subrange(pos as int, b@.len() as int)),
{
    ((b[pos] as u64) << 56u64) | ((b[pos + 1] as u64) << 48u64) | ((b[pos + 2] as u64) << 40u64)
        | ((b[pos + 3] as u64) << 32u64) | ((b[pos + 4] as u64) << 24u64) | ((b[pos + 5] as u64)
        << 16u64) | ((b[pos + 6] as u64) << 8u64) | (b[pos + 7] as u64)
}

/// The suffix of `b` that starts at `pos`.
pub open spec fn from(b: Seq<u8>, pos: int) -> Seq<u8> {
    b.subrange(pos, b.len() as int)
}

fn read_framed(b: &[u8], pos: usize) -> (r: Option<(Vec<u8>, usize)>)
    requires
        pos <= b@.len(),
    ensures
        match parse_bytes(from(b@, pos as int)) {
            None => r is None,
            Some((v, rest)) => r is Some && r.unwrap().0@ == v && pos <= r.unwrap().1 <= b@.len()
                && rest == from(b@, r.unwrap().1 as int),
        },
{
    if b.len() - pos < 8 {
        return None;
    }
    let n = read_u64(b, pos);
    if ((b.len() - pos - 8) as u64) < n {
        return None;
    }
    let start = pos + 8;
    let end = start + n as usize;
    let mut v: Vec<u8> = Vec::new();
    let mut i: usize = start;
    while i < end
        invariant
            start <= i <= end <= b@.len(),
            v@ == b@.subrange(start as int, i as int),
        decreases end - i,
    {
        v.push(b[i]);
        i = i + 1;
        assert(v@ =~= b@.subrange(start as int, i as int));
    }
    assert(from(b@, pos as int).subrange(8, 8 + n as int) =~= v@);
    assert(from(b@, pos as int).subrange(8 + n as int, from(b@, pos as int).len() as int) =~= from(
        b@,
        end as int,
    ));
    Some((v, end))
}

fn read_str(b: &[u8], pos: usize) -> (r: Option<(String, usize)>)
    requires
        pos <= b@.len(),
    ensures
        match parse_str(from(b@, pos as int)) {
            None => r is None,
            Some((v, rest)) => r is Some && r.unwrap().0@ == v && pos <= r.unwrap().1 <= b@.len()
                && rest == from(b@, r.unwrap().1 as int),
        },
{
    match read_framed(b, pos) {
        None => None,
        Some((bytes, next)) => match string_from_utf8(bytes) {
            None => None,
            Some(s) => Some((s, next)),
        },
    }
}

fn read_opt(b: &[u8], pos: usize) -> (r: Option<(Option<String>, usize)>)
    requires
        pos <= b@.len(),
    ensures
        match parse_opt(from(b@, pos as int)) {
            None => r is None,
            Some((v, rest)) => r is Some && crate::entry::opt_view(r.unwrap().0) == v && pos
                <= r.unwrap().1 <= b@.len() && rest == from(b@, r.unwrap().1 as int),
        },
{
    if pos >= b.len() {
        return None;
    }
    assert(from(b@, pos as int).drop_first() =~= from(b@, pos + 1));
    if b[pos] == 0 {
        Some((None, pos + 1))
    } else if b[pos] == 1 {
        match read_str(b, pos + 1) {
            None => None,
            Some((s, next)) => Some((Some(s), next)),
        }
    } else {
        None
    }
}


pub open spec fn prepend(acc: Seq<Seq<char>>, r: Option<(Seq<Seq<char>>, Seq<u8>)>) -> Option<
    (Seq<Seq<char>>, Seq<u8>),
> {
    match r {
        None => None,
        Some((v, rest)) => Some((acc + v, rest)),
    }
}

fn read_path(b: &[u8], pos: usize) -> (r: Option<(Vec<String>, usize)>)
    requires
        pos + 8 <= b@.len(),
    ensures
        match parse_str_list(from(b@, pos + 8), be_u64(from(b@, pos as int)) as nat) {
            None => r is None,
            Some((v, rest)) => r is Some && crate::entry::strings_view(r.unwrap().0@) == v && pos
                <= r.unwrap().1 <= b@.len() && rest == from(b@, r.unwrap().1 as int),
        },
{
    let len = b.len();
    let n = read_u64(b, pos);
    let ghost whole = parse_str_list(from(b@, pos + 8), n as nat);
    let mut out: Vec<String> = Vec::new();
    let mut at: usize = pos + 8;
    let mut i: u64 = 0;
    assert(crate::entry::strings_view(out@) =~= Seq::<Seq<char>>::empty());
    assert(prepend(Seq::empty(), whole) == whole) by {
        match whole {
            None => {},
            Some((v, rest)) => {
                assert(Seq::<Seq<char>>::empty() + v =~= v);
            },
        }
    }
    while i < n
        invariant
            i <= n,
            pos + 8 <= b@.len(),
            n == be_u64(from(b@, pos as int)),
            pos <= at <= b@.len(),
            whole == parse_str_list(from(b@, pos + 8), n as nat),
            whole == prepend(
                crate::entry::strings_view(out@),
                parse_str_list(from(b@, at as int), (n - i) as nat),
            ),
        decreases n - i,
    {
        match read_str(b, at) {
            None => {
                assert(parse_str_list(from(b@, at as int), (n - i) as nat) is None);
                return None;
            },
            Some((s, next)) => {
                proof {
                    let acc = crate::entry::strings_view(out@);
                    let tail = parse_str_list(from(b@, next as int), (n - i - 1) as nat);
                    assert(crate::entry::strings_view(out@.push(s)) =~= acc.push(s@));
                    match tail {
                        None => {},
                        Some((v, rest)) => {
                            assert(acc + (seq![s@] + v) =~= acc.push(s@) + v);
                        },
                    }
                }
                out.push(s);
                at = next;
                i = i + 1;
            },
        }
    }
    proof {
        let acc = crate::entry::strings_view(out@);
        assert(acc + Seq::<Seq<char>>::empty() =~= acc);
    }
    Some((out, at))
}

fn read_channel(b: &[u8], pos: usize) -> (r: Option<(RssChannel, usize)>)
    requires
        pos <= b@.len(),
    ensures
        match parse_channel(from(b@, pos as int)) {
            None => r is None,
            Some((v, rest)) => r is Some && r.unwrap().0@ == v && pos <= r.unwrap().1 <= b@.len()
                && rest == from(b@, r.unwrap().1 as int),
        },
{
    let (uuid, at1) = match read_str(b, pos) {
        None => return None,
        Some(x) => x,
    };
    let (title, at2) = match read_str(b, at1) {
        None => return None,
        Some(x) => x,
    };
    let (link, at3) = match read_str(b, at2) {
        None => return None,
        Some(x) => x,
    };
    let (description, at4) = match read_str(b, at3) {
        None => return None,
        Some(x) => x,
    };
    Some((RssChannel { uuid, title, link, description }, at4))
}

fn read_item(b: &[u8], pos: usize) -> (r: Option<(RssItem, usize)>)
    requires
        pos <= b@.len(),
    ensures
        match parse_item(from(b@, pos as int)) {
            None => r is None,
            Some((v, rest)) => r is Some && r.unwrap().0@ == v && pos <= r.unwrap().1 <= b@.len()
                && rest == from(b@, r.unwrap().1 as int),
        },
{
    let (uuid, at1) = match read_str(b, pos) {
        None => return None,
        Some(x) => x,
    };
    let (title, at2) = match read_opt(b, at1) {
        None => return None,
        Some(x) => x,
    };
    let (link, at3) = match read_opt(b, at2) {
        None => return None,
        Some(x) => x,
    };
    let (description, at4) = match read_opt(b, at3) {
        None => return None,
        Some(x) => x,
    };
    let (author, at5) = match read_opt(b, at4) {
        None => return None,
        Some(x) => x,
    };
    Some((RssItem { uuid, title, link, description, author }, at5))
}

fn read_publisher(b: &[u8], pos: usize) -> (r: Option<(RssPublisher, usize)>)
    requires
        pos <= b@.len(),
    ensures
        match parse_bytes(from(b@, pos as int)) {
            None => r is None,
            Some((v, rest)) => r is Some && r.unwrap().0@ == v && pos <= r.unwrap().1 <= b@.len()
                && rest == from(b@, r.unwrap().1 as int),
        },
{
    match read_framed(b, pos) {
        None => None,
        Some((agent_key, next)) => Some((RssPublisher { agent_key }, next)),
    }
}

impl Entry {
    /// The canonical bytes of this record; they are also its address in the store.
    pub fn encode(&self) -> (r: Vec<u8>)
        ensures
            r@ == encode_entry(self@),
    {
        let mut out: Vec<u8> = Vec::new();
        match self {
            Entry::Path(p) => {
                out.push(TAG_PATH);
                push_path(&mut out, p);
            },
            Entry::Publisher(k) => {
                out.push(TAG_PUBLISHER);
                push_framed(&mut out, k.agent_key.as_slice());
            },
            Entry::Channel(c) => {
                out.push(TAG_CHANNEL);
                push_str(&mut out, &c.uuid);
                push_str(&mut out, &c.title);
                push_str(&mut out, &c.link);
                push_str(&mut out, &c.description);
            },
            Entry::Item(i) => {
                out.push(TAG_ITEM);
                push_str(&mut out, &i.uuid);
                push_opt(&mut out, &i.title);
                push_opt(&mut out, &i.link);
                push_opt(&mut out, &i.description);
                push_opt(&mut out, &i.author);
            },
        }
        assert(out@ =~= encode_entry(self@));
        out
    }

    /// The record that `b` encodes; `None` where `b` is not exactly the encoding of a record.
    pub fn decode(b: &[u8]) -> (r: Option<Entry>)
        ensures
            decode_entry(b@) == match r {
                Some(e) => Some(e@),
                None => None,
            },
    {
        if b.len() == 0 {
            return None;
        }
        assert(b@.drop_first() =~= from(b@, 1));
        let tag = b[0];
        let (e, end) = if tag == TAG_PATH {
            if b.len() < 9 {
                return None;
            }
            assert(from(b@, 1).subrange(8, from(b@, 1).len() as int) =~= from(b@, 9));
            match read_path(b, 1) {
                None => return None,
                Some((p, end)) => (Entry::Path(p), end),
            }
        } else if tag == TAG_PUBLISHER {
            match read_publisher(b, 1) {
                None => return None,
                Some((k, end)) => (Entry::Publisher(k), end),
            }
        } else if tag == TAG_CHANNEL {
            match read_channel(b, 1) {
                None => return None,
                Some((c, end)) => (Entry::Channel(c), end),
            }
        } else if tag == TAG_ITEM {
            match read_item(b, 1) {
                None => return None,
                Some((i, end)) => (Entry::Item(i), end),
            }
        } else {
            return None;
        };
        if end == b.len() {
            Some(e)
        } else {
            None
        }
    }
}

} // verus!
