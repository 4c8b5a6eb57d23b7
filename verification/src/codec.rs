//! The database snapshot codec. The on-disk format is private to the
//! library: little-endian fixed-width lengths and code points, entries in
//! database order. Decoding an encoded snapshot reproduces the identical
//! entry sequence; anything malformed — truncated input, an invalid code
//! point, trailing bytes, a repeated fingerprint — decodes to nothing.

use vstd::prelude::*;
use vstd::string::*;
use crate::data::{unique_keys, Data, ImageInfo, ImageInfoView};

verus! {

/// Relies on char::from_u32: `Some` exactly on Unicode scalar values,
/// yielding the character with that code point.
pub assume_specification[ char::from_u32 ](u: u32) -> (r: Option<char>)
    ensures
        r is Some <==> vstd::utf8::is_scalar(u),
        r matches Some(c) ==> c as u32 == u,
;

/// Relies on String::push: appends one character.
pub assume_specification[ String::push ](s: &mut String, c: char)
    ensures
        final(s)@ == old(s)@.push(c),
;

// ----- the encoding, as spec functions -----

/// Eight little-endian bytes.
pub open spec fn enc_u64(x: u64) -> Seq<u8> {
    seq![
        (x & 0xff) as u8,
        ((x >> 8) & 0xff) as u8,
        ((x >> 16) & 0xff) as u8,
        ((x >> 24) & 0xff) as u8,
        ((x >> 32) & 0xff) as u8,
        ((x >> 40) & 0xff) as u8,
        ((x >> 48) & 0xff) as u8,
        ((x >> 56) & 0xff) as u8,
    ]
}

/// Four little-endian bytes.
pub open spec fn enc_u32(x: u32) -> Seq<u8> {
    seq![
        (x & 0xff) as u8,
        ((x >> 8) & 0xff) as u8,
        ((x >> 16) & 0xff) as u8,
        ((x >> 24) & 0xff) as u8,
    ]
}

/// A character as its code point.
pub open spec fn enc_char(c: char) -> Seq<u8> {
    enc_u32(c as u32)
}

/// The characters of a string, in order.
pub open spec fn enc_chars(s: Seq<char>) -> Seq<u8>
    decreases s.len(),
{
    if s.len() == 0 {
        Seq::empty()
    } else {
        enc_char(s.first()) + enc_chars(s.drop_first())
    }
}

/// A string: its character count, then its characters.
pub open spec fn enc_str(s: Seq<char>) -> Seq<u8> {
    enc_u64(s.len() as u64) + enc_chars(s)
}

/// An optional string: a presence tag, then the string when present.
pub open spec fn enc_opt_str(o: Option<Seq<char>>) -> Seq<u8> {
    match o {
        None => seq![0u8],
        Some(s) => seq![1u8] + enc_str(s),
    }
}

/// One image record: its optional name, then its URL.
pub open spec fn enc_info(v: ImageInfoView) -> Seq<u8> {
    enc_opt_str(v.name) + enc_str(v.url)
}

/// A record sequence, in order.
pub open spec fn enc_infos(vs: Seq<ImageInfoView>) -> Seq<u8>
    decreases vs.len(),
{
    if vs.len() == 0 {
        Seq::empty()
    } else {
        enc_info(vs.first()) + enc_infos(vs.drop_first())
    }
}

/// One database entry: its fingerprint, its record count, its records.
pub open spec fn enc_entry(e: (Seq<char>, Seq<ImageInfoView>)) -> Seq<u8> {
    enc_str(e.0) + enc_u64(e.1.len() as u64) + enc_infos(e.1)
}

/// The entry sequence, in order.
pub open spec fn enc_entries(es: Seq<(Seq<char>, Seq<ImageInfoView>)>) -> Seq<u8>
    decreases es.len(),
{
    if es.len() == 0 {
        Seq::empty()
    } else {
        enc_entry(es.first()) + enc_entries(es.drop_first())
    }
}

/// A whole snapshot: the entry count, then the entries.
pub open spec fn enc_data(es: Seq<(Seq<char>, Seq<ImageInfoView>)>) -> Seq<u8> {
    enc_u64(es.len() as u64) + enc_entries(es)
}

// ----- the decoding, as spec functions -----

/// A word read at `i`; `None` past the end.
pub open spec fn dec_u64(b: Seq<u8>, i: int) -> Option<(u64, int)> {
    if 0 <= i && i + 8 <= b.len() {
        Some(
            (
                (b[i] as u64) | ((b[i + 1] as u64) << 8) | ((b[i + 2] as u64) << 16) | ((b[i
                    + 3] as u64) << 24) | ((b[i + 4] as u64) << 32) | ((b[i + 5] as u64) << 40) | ((
                b[i + 6] as u64) << 48) | ((b[i + 7] as u64) << 56),
                i + 8,
            ),
        )
    } else {
        None
    }
}

/// A code point read at `i`.
pub open spec fn dec_u32(b: Seq<u8>, i: int) -> Option<(u32, int)> {
    if 0 <= i && i + 4 <= b.len() {
        Some(
            (
                (b[i] as u32) | ((b[i + 1] as u32) << 8) | ((b[i + 2] as u32) << 16) | ((b[i
                    + 3] as u32) << 24),
                i + 4,
            ),
        )
    } else {
        None
    }
}

/// A tag byte read at `i`.
pub open spec fn dec_u8(b: Seq<u8>, i: int) -> Option<(u8, int)> {
    if 0 <= i < b.len() {
        Some((b[i], i + 1))
    } else {
        None
    }
}

/// A character: a code point that is a Unicode scalar value.
pub open spec fn dec_char(b: Seq<u8>, i: int) -> Option<(char, int)> {
    match dec_u32(b, i) {
        None => None,
        Some((u, j)) => if vstd::utf8::is_scalar(u) {
            Some((u as char, j))
        } else {
            None
        },
    }
}

/// `n` characters in a row.
pub open spec fn dec_chars(b: Seq<u8>, i: int, n: nat) -> Option<(Seq<char>, int)>
    decreases n,
{
    if n == 0 {
        Some((Seq::empty(), i))
    } else {
        match dec_char(b, i) {
            None => None,
            Some((c, j)) => match dec_chars(b, j, (n - 1) as nat) {
                None => None,
                Some((s, e)) => Some((seq![c] + s, e)),
            },
        }
    }
}

/// A string: its length, then that many characters.
pub open spec fn dec_str(b: Seq<u8>, i: int) -> Option<(Seq<char>, int)> {
    match dec_u64(b, i) {
        None => None,
        Some((n, j)) => dec_chars(b, j, n as nat),
    }
}

/// An optional string, by its tag.
pub open spec fn dec_opt_str(b: Seq<u8>, i: int) -> Option<(Option<Seq<char>>, int)> {
    match dec_u8(b, i) {
        None => None,
        Some((t, j)) => if t == 0 {
            Some((None, j))
        } else if t == 1 {
            match dec_str(b, j) {
                None => None,
                Some((s, e)) => Some((Some(s), e)),
            }
        } else {
            None
        },
    }
}

/// One image record.
pub open spec fn dec_info(b: Seq<u8>, i: int) -> Option<(ImageInfoView, int)> {
    match dec_opt_str(b, i) {
        None => None,
        Some((name, j)) => match dec_str(b, j) {
            None => None,
            Some((url, e)) => Some((ImageInfoView { name, url }, e)),
        },
    }
}

/// `n` records in a row.
pub open spec fn dec_infos(b: Seq<u8>, i: int, n: nat) -> Option<(Seq<ImageInfoView>, int)>
    decreases n,
{
    if n == 0 {
        Some((Seq::empty(), i))
    } else {
        match dec_info(b, i) {
            None => None,
            Some((v, j)) => match dec_infos(b, j, (n - 1) as nat) {
                None => None,
                Some((vs, e)) => Some((seq![v] + vs, e)),
            },
        }
    }
}

/// One database entry.
pub open spec fn dec_entry(b: Seq<u8>, i: int) -> Option<((Seq<char>, Seq<ImageInfoView>), int)> {
    match dec_str(b, i) {
        None => None,
        Some((key, j)) => match dec_u64(b, j) {
            None => None,
            Some((n, j2)) => match dec_infos(b, j2, n as nat) {
                None => None,
                Some((vs, e)) => Some(((key, vs), e)),
            },
        },
    }
}

/// `n` entries in a row.
pub open spec fn dec_entries(b: Seq<u8>, i: int, n: nat) -> Option<
    (Seq<(Seq<char>, Seq<ImageInfoView>)>, int),
>
    decreases n,
{
    if n == 0 {
        Some((Seq::empty(), i))
    } else {
        match dec_entry(b, i) {
            None => None,
            Some((e0, j)) => match dec_entries(b, j, (n - 1) as nat) {
                None => None,
                Some((es, e)) => Some((seq![e0] + es, e)),
            },
        }
    }
}

/// A whole snapshot: the entry count, the entries, nothing after them,
/// and pairwise-distinct fingerprints.
pub open spec fn dec_data(b: Seq<u8>) -> Option<Seq<(Seq<char>, Seq<ImageInfoView>)>> {
    match dec_u64(b, 0) {
        None => None,
        Some((n, j)) => match dec_entries(b, j, n as nat) {
            None => None,
            Some((es, e)) => if e == b.len() && unique_keys(es) {
                Some(es)
            } else {
                None
            },
        },
    }
}

// ----- every length the encoding writes must fit its width -----

/// The lengths a snapshot writes all fit the fixed width: entry count,
/// key lengths, record counts, and name and URL lengths. Every value an
/// executable database can hold satisfies this.
pub open spec fn snapshot_bounded(es: Seq<(Seq<char>, Seq<ImageInfoView>)>) -> bool {
    &&& es.len() <= u64::MAX
    &&& forall|i: int|
        0 <= i < es.len() ==> (#[trigger] es[i]).0.len() <= u64::MAX && es[i].1.len() <= u64::MAX
            && forall|k: int|
            0 <= k < es[i].1.len() ==> info_bounded(#[trigger] es[i].1[k])
}

/// The lengths one record writes fit the fixed width.
pub open spec fn info_bounded(v: ImageInfoView) -> bool {
    &&& v.url.len() <= u64::MAX
    &&& match v.name {
        Some(n) => n.len() <= u64::MAX,
        None => true,
    }
}

// ----- round trip: decoding an encoding yields the value back -----

/// A window of `b` that holds `x + y` splits into a window holding `x`
/// and one holding `y`.
proof fn lemma_subrange_split(b: Seq<u8>, i: int, x: Seq<u8>, y: Seq<u8>)
    requires
        0 <= i,
        i + x.len() + y.len() <= b.len(),
        b.subrange(i, i + x.len() + y.len()) == x + y,
    ensures
        b.subrange(i, i + x.len() as int) == x,
        b.subrange(i + x.len() as int, i + x.len() + y.len()) == y,
{
    assert forall|k: int| 0 <= k < x.len() implies b.subrange(i, i + x.len() as int)[k]
        == x[k] by {
        assert((x + y)[k] == x[k]);
        assert(b.subrange(i, i + x.len() + y.len())[k] == b[i + k]);
    }
    assert(b.subrange(i, i + x.len() as int) =~= x);
    assert forall|k: int|
        0 <= k < y.len() implies b.subrange(i + x.len() as int, i + x.len() + y.len())[k]
        == y[k] by {
        assert((x + y)[x.len() + k] == y[k]);
        assert(b.subrange(i, i + x.len() + y.len())[x.len() + k] == b[i + x.len() + k]);
    }
    assert(b.subrange(i + x.len() as int, i + x.len() + y.len()) =~= y);
}

proof fn lemma_dec_enc_u64(b: Seq<u8>, i: int, x: u64)
    requires
        0 <= i,
        i + 8 <= b.len(),
        b.subrange(i, i + 8) =~= enc_u64(x),
    ensures
        dec_u64(b, i) == Some((x, i + 8)),
{
    assert(b[i] == (x & 0xff) as u8);
    assert(b[i + 1] == ((x >> 8) & 0xff) as u8);
    assert(b[i + 2] == ((x >> 16) & 0xff) as u8);
    assert(b[i + 3] == ((x >> 24) & 0xff) as u8);
    assert(b[i + 4] == ((x >> 32) & 0xff) as u8);
    assert(b[i + 5] == ((x >> 40) & 0xff) as u8);
    assert(b[i + 6] == ((x >> 48) & 0xff) as u8);
    assert(b[i + 7] == ((x >> 56) & 0xff) as u8);
    assert((((x & 0xff) as u8) as u64) | ((((x >> 8) & 0xff) as u8) as u64) << 8 | ((((x >> 16)
        & 0xff) as u8) as u64) << 16 | ((((x >> 24) & 0xff) as u8) as u64) << 24 | ((((x >> 32)
        & 0xff) as u8) as u64) << 32 | ((((x >> 40) & 0xff) as u8) as u64) << 40 | ((((x >> 48)
        & 0xff) as u8) as u64) << 48 | ((((x >> 56) & 0xff) as u8) as u64) << 56 == x)
        by (bit_vector);
}

proof fn lemma_dec_enc_u32(b: Seq<u8>, i: int, x: u32)
    requires
        0 <= i,
        i + 4 <= b.len(),
        b.subrange(i, i + 4) =~= enc_u32(x),
    ensures
        dec_u32(b, i) == Some((x, i + 4)),
{
    assert(b[i] == (x & 0xff) as u8);
    assert(b[i + 1] == ((x >> 8) & 0xff) as u8);
    assert(b[i + 2] == ((x >> 16) & 0xff) as u8);
    assert(b[i + 3] == ((x >> 24) & 0xff) as u8);
    assert((((x & 0xff) as u8) as u32) | ((((x >> 8) & 0xff) as u8) as u32) << 8 | ((((x >> 16)
        & 0xff) as u8) as u32) << 16 | ((((x >> 24) & 0xff) as u8) as u32) << 24 == x)
        by (bit_vector);
}

proof fn lemma_dec_enc_char(b: Seq<u8>, i: int, c: char)
    requires
        0 <= i,
        i + 4 <= b.len(),
        b.subrange(i, i + 4) =~= enc_char(c),
    ensures
        dec_char(b, i) == Some((c, i + 4)),
{
    lemma_dec_enc_u32(b, i, c as u32);
    vstd::utf8::char_is_scalar(c);
    vstd::utf8::char_u32_cast(c, c as u32);
}

/// The byte length of an encoded character sequence.
proof fn lemma_enc_chars_len(s: Seq<char>)
    ensures
        enc_chars(s).len() == 4 * s.len(),
    decreases s.len(),
{
    if s.len() > 0 {
        lemma_enc_chars_len(s.drop_first());
    }
}

proof fn lemma_dec_enc_chars(b: Seq<u8>, i: int, s: Seq<char>)
    requires
        0 <= i,
        i + 4 * s.len() <= b.len(),
        b.subrange(i, i + 4 * s.len()) =~= enc_chars(s),
    ensures
        dec_chars(b, i, s.len()) == Some((s, i + 4 * s.len())),
    decreases s.len(),
{
    lemma_enc_chars_len(s);
    if s.len() > 0 {
        lemma_enc_chars_len(s.drop_first());
        lemma_subrange_split(b, i, enc_char(s.first()), enc_chars(s.drop_first()));
        lemma_dec_enc_char(b, i, s.first());
        lemma_dec_enc_chars(b, i + 4, s.drop_first());
        assert(seq![s.first()] + s.drop_first() =~= s);
    }
}

proof fn lemma_dec_enc_str(b: Seq<u8>, i: int, s: Seq<char>)
    requires
        0 <= i,
        s.len() <= u64::MAX,
        i + enc_str(s).len() <= b.len(),
        b.subrange(i, i + enc_str(s).len()) =~= enc_str(s),
    ensures
        dec_str(b, i) == Some((s, i + enc_str(s).len())),
{
    lemma_enc_chars_len(s);
    lemma_subrange_split(b, i, enc_u64(s.len() as u64), enc_chars(s));
    lemma_dec_enc_u64(b, i, s.len() as u64);
    lemma_dec_enc_chars(b, i + 8, s);
}

proof fn lemma_dec_enc_opt_str(b: Seq<u8>, i: int, o: Option<Seq<char>>)
    requires
        0 <= i,
        (o matches Some(s) ==> s.len() <= u64::MAX),
        i + enc_opt_str(o).len() <= b.len(),
        b.subrange(i, i + enc_opt_str(o).len()) =~= enc_opt_str(o),
    ensures
        dec_opt_str(b, i) == Some((o, i + enc_opt_str(o).len())),
{
    match o {
        None => {
            assert(b.subrange(i, i + enc_opt_str(o).len() as int)[0] == b[i]);
            assert(b[i] == 0u8);
        },
        Some(s) => {
            lemma_subrange_split(b, i, seq![1u8], enc_str(s));
            assert(b.subrange(i, i + 1)[0] == b[i]);
            assert(b[i] == 1u8);
            lemma_dec_enc_str(b, i + 1, s);
        },
    }
}

proof fn lemma_dec_enc_info(b: Seq<u8>, i: int, v: ImageInfoView)
    requires
        0 <= i,
        info_bounded(v),
        i + enc_info(v).len() <= b.len(),
        b.subrange(i, i + enc_info(v).len()) =~= enc_info(v),
    ensures
        dec_info(b, i) == Some((v, i + enc_info(v).len())),
{
    lemma_subrange_split(b, i, enc_opt_str(v.name), enc_str(v.url));
    lemma_dec_enc_opt_str(b, i, v.name);
    lemma_dec_enc_str(b, i + enc_opt_str(v.name).len() as int, v.url);
}

proof fn lemma_dec_enc_infos(b: Seq<u8>, i: int, vs: Seq<ImageInfoView>)
    requires
        0 <= i,
        forall|k: int| 0 <= k < vs.len() ==> info_bounded(#[trigger] vs[k]),
        i + enc_infos(vs).len() <= b.len(),
        b.subrange(i, i + enc_infos(vs).len()) =~= enc_infos(vs),
    ensures
        dec_infos(b, i, vs.len()) == Some((vs, i + enc_infos(vs).len())),
    decreases vs.len(),
{
    if vs.len() > 0 {
        let v = vs.first();
        lemma_subrange_split(b, i, enc_info(v), enc_infos(vs.drop_first()));
        lemma_dec_enc_info(b, i, v);
        lemma_dec_enc_infos(b, i + enc_info(v).len() as int, vs.drop_first());
        assert(seq![v] + vs.drop_first() =~= vs);
    }
}

proof fn lemma_dec_enc_entry(b: Seq<u8>, i: int, e: (Seq<char>, Seq<ImageInfoView>))
    requires
        0 <= i,
        e.0.len() <= u64::MAX,
        e.1.len() <= u64::MAX,
        forall|k: int| 0 <= k < e.1.len() ==> info_bounded(#[trigger] e.1[k]),
        i + enc_entry(e).len() <= b.len(),
        b.subrange(i, i + enc_entry(e).len()) =~= enc_entry(e),
    ensures
        dec_entry(b, i) == Some((e, i + enc_entry(e).len())),
{
    assert(enc_entry(e) =~= enc_str(e.0) + (enc_u64(e.1.len() as u64) + enc_infos(e.1)));
    lemma_subrange_split(b, i, enc_str(e.0), enc_u64(e.1.len() as u64) + enc_infos(e.1));
    lemma_dec_enc_str(b, i, e.0);
    let j = i + enc_str(e.0).len() as int;
    lemma_subrange_split(b, j, enc_u64(e.1.len() as u64), enc_infos(e.1));
    lemma_dec_enc_u64(b, j, e.1.len() as u64);
    lemma_dec_enc_infos(b, j + 8, e.1);
}

proof fn lemma_dec_enc_entries(b: Seq<u8>, i: int, es: Seq<(Seq<char>, Seq<ImageInfoView>)>)
    requires
        0 <= i,
        snapshot_bounded(es),
        i + enc_entries(es).len() <= b.len(),
        b.subrange(i, i + enc_entries(es).len()) =~= enc_entries(es),
    ensures
        dec_entries(b, i, es.len()) == Some((es, i + enc_entries(es).len())),
    decreases es.len(),
{
    if es.len() > 0 {
        let e = es.first();
        lemma_subrange_split(b, i, enc_entry(e), enc_entries(es.drop_first()));
        lemma_dec_enc_entry(b, i, e);
        assert(snapshot_bounded(es.drop_first())) by {
            assert(forall|k: int|
                0 <= k < es.drop_first().len() ==> es.drop_first()[k] == es[k + 1]);
        }
        lemma_dec_enc_entries(b, i + enc_entry(e).len() as int, es.drop_first());
        assert(seq![e] + es.drop_first() =~= es);
    }
}

/// Law: the snapshot codec is a lossless structural round trip — decoding
/// an encoded snapshot reproduces the identical entry sequence, and so an
/// identical mapping of fingerprints to ordered records.
pub proof fn lemma_snapshot_round_trip(es: Seq<(Seq<char>, Seq<ImageInfoView>)>)
    requires
        unique_keys(es),
        snapshot_bounded(es),
    ensures
        dec_data(enc_data(es)) == Some(es),
{
    let b = enc_data(es);
    assert(b.subrange(0, b.len() as int) =~= b);
    lemma_subrange_split(b, 0, enc_u64(es.len() as u64), enc_entries(es));
    lemma_dec_enc_u64(b, 0, es.len() as u64);
    lemma_dec_enc_entries(b, 8, es);
}

// ----- executable encoding -----

proof fn lemma_enc_chars_push(t: Seq<char>, c: char)
    ensures
        enc_chars(t.push(c)) == enc_chars(t) + enc_char(c),
    decreases t.len(),
{
    if t.len() == 0 {
        assert(t.push(c).first() == c);
        assert(t.push(c).drop_first() =~= Seq::<char>::empty());
        assert(enc_chars(Seq::<char>::empty()) =~= Seq::<u8>::empty());
        assert(enc_chars(t.push(c)) =~= enc_char(c));
        assert(enc_chars(t) + enc_char(c) =~= enc_char(c));
    } else {
        assert(t.push(c).first() == t.first());
        assert(t.push(c).drop_first() =~= t.drop_first().push(c));
        lemma_enc_chars_push(t.drop_first(), c);
        assert((enc_char(t.first()) + enc_chars(t.drop_first())) + enc_char(c) =~= enc_char(
            t.first(),
        ) + (enc_chars(t.drop_first()) + enc_char(c)));
    }
}

proof fn lemma_enc_infos_push(t: Seq<ImageInfoView>, v: ImageInfoView)
    ensures
        enc_infos(t.push(v)) == enc_infos(t) + enc_info(v),
    decreases t.len(),
{
    if t.len() == 0 {
        assert(t.push(v).first() == v);
        assert(t.push(v).drop_first() =~= Seq::<ImageInfoView>::empty());
        assert(enc_infos(Seq::<ImageInfoView>::empty()) =~= Seq::<u8>::empty());
        assert(enc_infos(t.push(v)) =~= enc_info(v));
        assert(enc_infos(t) + enc_info(v) =~= enc_info(v));
    } else {
        assert(t.push(v).first() == t.first());
        assert(t.push(v).drop_first() =~= t.drop_first().push(v));
        lemma_enc_infos_push(t.drop_first(), v);
        assert((enc_info(t.first()) + enc_infos(t.drop_first())) + enc_info(v) =~= enc_info(
            t.first(),
        ) + (enc_infos(t.drop_first()) + enc_info(v)));
    }
}

#[verifier::rlimit(50)]
proof fn lemma_enc_entries_push(t: Seq<(Seq<char>, Seq<ImageInfoView>)>, e: (Seq<char>, Seq<ImageInfoView>))
    ensures
        enc_entries(t.push(e)) == enc_entries(t) + enc_entry(e),
    decreases t.len(),
{
    if t.len() == 0 {
        assert(t.push(e).first() == e);
        assert(t.push(e).drop_first() =~= Seq::<(Seq<char>, Seq<ImageInfoView>)>::empty());
        assert(enc_entries(Seq::<(Seq<char>, Seq<ImageInfoView>)>::empty()) =~= Seq::<u8>::empty());
        assert(enc_entries(t.push(e)) =~= enc_entry(e));
        assert(enc_entries(t) + enc_entry(e) =~= enc_entry(e));
    } else {
        assert(t.push(e).first() == t.first());
        assert(t.push(e).drop_first() =~= t.drop_first().push(e));
        lemma_enc_entries_push(t.drop_first(), e);
        assert((enc_entry(t.first()) + enc_entries(t.drop_first())) + enc_entry(e) =~= enc_entry(
            t.first(),
        ) + (enc_entries(t.drop_first()) + enc_entry(e)));
    }
}

fn push_u64(out: &mut Vec<u8>, x: u64)
    ensures
        final(out)@ == old(out)@ + enc_u64(x),
{
    out.push((x & 0xff) as u8);
    out.push(((x >> 8) & 0xff) as u8);
    out.push(((x >> 16) & 0xff) as u8);
    out.push(((x >> 24) & 0xff) as u8);
    out.push(((x >> 32) & 0xff) as u8);
    out.push(((x >> 40) & 0xff) as u8);
    out.push(((x >> 48) & 0xff) as u8);
    out.push(((x >> 56) & 0xff) as u8);
    proof {
        assert(out@ =~= old(out)@ + enc_u64(x));
    }
}

fn push_u32(out: &mut Vec<u8>, x: u32)
    ensures
        final(out)@ == old(out)@ + enc_u32(x),
{
    out.push((x & 0xff) as u8);
    out.push(((x >> 8) & 0xff) as u8);
    out.push(((x >> 16) & 0xff) as u8);
    out.push(((x >> 24) & 0xff) as u8);
    proof {
        assert(out@ =~= old(out)@ + enc_u32(x));
    }
}

fn push_str(out: &mut Vec<u8>, s: &str)
    ensures
        final(out)@ == old(out)@ + enc_str(s@),
{
    let len = s.unicode_len();
    push_u64(out, len as u64);
    let mut i: usize = 0;
    while i < len
        invariant
            i <= len,
            len == s@.len(),
            out@ =~= old(out)@ + enc_u64(s@.len() as u64) + enc_chars(s@.subrange(0, i as int)),
        decreases len - i,
    {
        let c = s.get_char(i);
        push_u32(out, c as u32);
        proof {
            lemma_enc_chars_push(s@.subrange(0, i as int), s@[i as int]);
            assert(s@.subrange(0, i + 1) =~= s@.subrange(0, i as int).push(s@[i as int]));
            assert(out@ =~= old(out)@ + enc_u64(s@.len() as u64) + enc_chars(
                s@.subrange(0, i + 1),
            ));
        }
        i = i + 1;
    }
    proof {
        assert(s@.subrange(0, len as int) =~= s@);
        assert(old(out)@ + enc_u64(s@.len() as u64) + enc_chars(s@) =~= old(out)@ + enc_str(s@));
    }
}

fn push_info(out: &mut Vec<u8>, info: &ImageInfo)
    ensures
        final(out)@ == old(out)@ + enc_info(info@),
{
    match &info.name {
        None => {
            out.push(0u8);
            proof {
                assert(out@ =~= old(out)@ + enc_opt_str(info@.name));
            }
        },
        Some(n) => {
            out.push(1u8);
            push_str(out, n.as_str());
            proof {
                assert(out@ =~= old(out)@ + enc_opt_str(info@.name));
            }
        },
    }
    push_str(out, info.url.as_str());
    proof {
        assert(out@ =~= old(out)@ + enc_info(info@));
    }
}

/// Encode the whole database as a snapshot.
pub fn encode_data(d: &Data) -> (r: Vec<u8>)
    ensures
        r@ == enc_data(d.entries()),
{
    let mut out: Vec<u8> = Vec::new();
    let n = d.len();
    push_u64(&mut out, n as u64);
    proof {
        assert(out@ =~= enc_u64(d.entries().len() as u64) + enc_entries(
            d.entries().subrange(0, 0),
        ));
    }
    let mut k: usize = 0;
    while k < n
        invariant
            k <= n,
            n == d.entries().len(),
            out@ =~= enc_u64(d.entries().len() as u64) + enc_entries(
                d.entries().subrange(0, k as int),
            ),
        decreases n - k,
    {
        let ghost base = out@;
        let key = d.key_at(k);
        push_str(&mut out, key.as_str());
        let infos = d.infos_at(k);
        let m = infos.len();
        push_u64(&mut out, m as u64);
        proof {
            assert(infos.deep_view().len() == m);
            assert(out@ =~= base + enc_str(d.entries()[k as int].0) + enc_u64(
                d.entries()[k as int].1.len() as u64,
            ) + enc_infos(infos.deep_view().subrange(0, 0)));
        }
        let mut t: usize = 0;
        while t < m
            invariant
                t <= m,
                m == infos.deep_view().len(),
                m == infos@.len(),
                infos.deep_view() == d.entries()[k as int].1,
                out@ =~= base + enc_str(d.entries()[k as int].0) + enc_u64(
                    d.entries()[k as int].1.len() as u64,
                ) + enc_infos(infos.deep_view().subrange(0, t as int)),
            decreases m - t,
        {
            proof {
                assert(infos.deep_view()[t as int] == infos@[t as int].deep_view());
            }
            push_info(&mut out, &infos[t]);
            proof {
                lemma_enc_infos_push(
                    infos.deep_view().subrange(0, t as int),
                    infos.deep_view()[t as int],
                );
                assert(infos.deep_view().subrange(0, t + 1) =~= infos.deep_view().subrange(
                    0,
                    t as int,
                ).push(infos.deep_view()[t as int]));
                assert(out@ =~= base + enc_str(d.entries()[k as int].0) + enc_u64(
                    d.entries()[k as int].1.len() as u64,
                ) + enc_infos(infos.deep_view().subrange(0, t + 1)));
            }
            t = t + 1;
        }
        proof {
            assert(infos.deep_view().subrange(0, m as int) =~= infos.deep_view());
            assert(out@ =~= base + enc_entry(d.entries()[k as int]));
            lemma_enc_entries_push(d.entries().subrange(0, k as int), d.entries()[k as int]);
            assert(d.entries().subrange(0, k + 1) =~= d.entries().subrange(0, k as int).push(
                d.entries()[k as int],
            ));
            assert(out@ =~= enc_u64(d.entries().len() as u64) + enc_entries(
                d.entries().subrange(0, k + 1),
            ));
        }
        k = k + 1;
    }
    proof {
        assert(d.entries().subrange(0, n as int) =~= d.entries());
    }
    out
}

// ----- executable decoding -----

fn read_u64(b: &Vec<u8>, i: usize) -> (r: Option<(u64, usize)>)
    ensures
        match r {
            Some((x, j)) => dec_u64(b@, i as int) == Some((x, j as int)),
            None => dec_u64(b@, i as int) is None,
        },
{
    if i <= b.len() && b.len() - i >= 8 {
        let x = (b[i] as u64) | ((b[i + 1] as u64) << 8) | ((b[i + 2] as u64) << 16) | ((b[i
            + 3] as u64) << 24) | ((b[i + 4] as u64) << 32) | ((b[i + 5] as u64) << 40) | ((b[i
            + 6] as u64) << 48) | ((b[i + 7] as u64) << 56);
        Some((x, i + 8))
    } else {
        None
    }
}

fn read_u32(b: &Vec<u8>, i: usize) -> (r: Option<(u32, usize)>)
    ensures
        match r {
            Some((x, j)) => dec_u32(b@, i as int) == Some((x, j as int)),
            None => dec_u32(b@, i as int) is None,
        },
{
    if i <= b.len() && b.len() - i >= 4 {
        let x = (b[i] as u32) | ((b[i + 1] as u32) << 8) | ((b[i + 2] as u32) << 16) | ((b[i
            + 3] as u32) << 24);
        Some((x, i + 4))
    } else {
        None
    }
}

fn read_char(b: &Vec<u8>, i: usize) -> (r: Option<(char, usize)>)
    ensures
        match r {
            Some((c, j)) => dec_char(b@, i as int) == Some((c, j as int)),
            None => dec_char(b@, i as int) is None,
        },
{
    match read_u32(b, i) {
        None => None,
        Some((u, j)) => match char::from_u32(u) {
            None => None,
            Some(c) => {
                proof {
                    vstd::utf8::char_u32_cast(c, u);
                }
                Some((c, j))
            },
        },
    }
}

fn read_chars(b: &Vec<u8>, i: usize, n: u64) -> (r: Option<(String, usize)>)
    ensures
        match r {
            Some((s, j)) => dec_chars(b@, i as int, n as nat) == Some((s@, j as int)),
            None => dec_chars(b@, i as int, n as nat) is None,
        },
{
    let mut out = String::new();
    let mut cur: usize = i;
    let mut k: u64 = 0;
    while k < n
        invariant
            k <= n,
            dec_chars(b@, i as int, n as nat) == (match dec_chars(
                b@,
                cur as int,
                (n - k) as nat,
            ) {
                None => None::<(Seq<char>, int)>,
                Some((s2, e)) => Some((out@ + s2, e)),
            }),
        decreases n - k,
    {
        match read_char(b, cur) {
            None => {
                return None;
            },
            Some((c, j)) => {
                let ghost before = out@;
                out.push(c);
                proof {
                    if dec_chars(b@, j as int, (n - k - 1) as nat) is Some {
                        let s2 = dec_chars(b@, j as int, (n - k - 1) as nat)->Some_0.0;
                        assert(before + (seq![c] + s2) =~= before.push(c) + s2);
                    }
                }
                cur = j;
                k = k + 1;
            },
        }
    }
    proof {
        assert(out@ + Seq::<char>::empty() =~= out@);
    }
    Some((out, cur))
}

fn read_str(b: &Vec<u8>, i: usize) -> (r: Option<(String, usize)>)
    ensures
        match r {
            Some((s, j)) => dec_str(b@, i as int) == Some((s@, j as int)),
            None => dec_str(b@, i as int) is None,
        },
{
    match read_u64(b, i) {
        None => None,
        Some((n, j)) => read_chars(b, j, n),
    }
}

fn read_opt_str(b: &Vec<u8>, i: usize) -> (r: Option<(Option<String>, usize)>)
    ensures
        match r {
            Some((o, j)) => dec_opt_str(b@, i as int) == Some((o.deep_view(), j as int)),
            None => dec_opt_str(b@, i as int) is None,
        },
{
    if i >= b.len() {
        return None;
    }
    let tag = b[i];
    if tag == 0 {
        Some((None, i + 1))
    } else if tag == 1 {
        match read_str(b, i + 1) {
            None => None,
            Some((s, j)) => Some((Some(s), j)),
        }
    } else {
        None
    }
}

fn read_info(b: &Vec<u8>, i: usize) -> (r: Option<(ImageInfo, usize)>)
    ensures
        match r {
            Some((v, j)) => dec_info(b@, i as int) == Some((v@, j as int)),
            None => dec_info(b@, i as int) is None,
        },
{
    match read_opt_str(b, i) {
        None => None,
        Some((name, j)) => match read_str(b, j) {
            None => None,
            Some((url, e)) => Some((ImageInfo { name, url }, e)),
        },
    }
}

fn read_infos(b: &Vec<u8>, i: usize, n: u64) -> (r: Option<(Vec<ImageInfo>, usize)>)
    ensures
        match r {
            Some((vs, j)) => dec_infos(b@, i as int, n as nat) == Some((vs.deep_view(), j as int)),
            None => dec_infos(b@, i as int, n as nat) is None,
        },
{
    let mut out: Vec<ImageInfo> = Vec::new();
    let mut cur: usize = i;
    let mut k: u64 = 0;
    proof {
        assert(out.deep_view() =~= Seq::<ImageInfoView>::empty());
    }
    while k < n
        invariant
            k <= n,
            dec_infos(b@, i as int, n as nat) == (match dec_infos(
                b@,
                cur as int,
                (n - k) as nat,
            ) {
                None => None::<(Seq<ImageInfoView>, int)>,
                Some((vs2, e)) => Some((out.deep_view() + vs2, e)),
            }),
        decreases n - k,
    {
        match read_info(b, cur) {
            None => {
                return None;
            },
            Some((v, j)) => {
                let ghost before = out.deep_view();
                let ghost vv = v@;
                out.push(v);
                proof {
                    assert(out.deep_view() =~= before.push(vv));
                    if dec_infos(b@, j as int, (n - k - 1) as nat) is Some {
                        let vs2 = dec_infos(b@, j as int, (n - k - 1) as nat)->Some_0.0;
                        assert(before + (seq![vv] + vs2) =~= before.push(vv) + vs2);
                    }
                }
                cur = j;
                k = k + 1;
            },
        }
    }
    proof {
        assert(out.deep_view() + Seq::<ImageInfoView>::empty() =~= out.deep_view());
    }
    Some((out, cur))
}

fn read_entry(b: &Vec<u8>, i: usize) -> (r: Option<((String, Vec<ImageInfo>), usize)>)
    ensures
        match r {
            Some((e, j)) => dec_entry(b@, i as int) == Some((e.deep_view(), j as int)),
            None => dec_entry(b@, i as int) is None,
        },
{
    match read_str(b, i) {
        None => None,
        Some((key, j)) => match read_u64(b, j) {
            None => None,
            Some((n, j2)) => match read_infos(b, j2, n) {
                None => None,
                Some((vs, e)) => Some(((key, vs), e)),
            },
        },
    }
}

fn read_entries(b: &Vec<u8>, i: usize, n: u64) -> (r: Option<
    (Vec<(String, Vec<ImageInfo>)>, usize),
>)
    ensures
        match r {
            Some((es, j)) => dec_entries(b@, i as int, n as nat) == Some(
                (es.deep_view(), j as int),
            ),
            None => dec_entries(b@, i as int, n as nat) is None,
        },
{
    let mut out: Vec<(String, Vec<ImageInfo>)> = Vec::new();
    let mut cur: usize = i;
    let mut k: u64 = 0;
    proof {
        assert(out.deep_view() =~= Seq::<(Seq<char>, Seq<ImageInfoView>)>::empty());
    }
    while k < n
        invariant
            k <= n,
            dec_entries(b@, i as int, n as nat) == (match dec_entries(
                b@,
                cur as int,
                (n - k) as nat,
            ) {
                None => None::<(Seq<(Seq<char>, Seq<ImageInfoView>)>, int)>,
                Some((es2, e)) => Some((out.deep_view() + es2, e)),
            }),
        decreases n - k,
    {
        match read_entry(b, cur) {
            None => {
                return None;
            },
            Some((entry, j)) => {
                let ghost before = out.deep_view();
                let ghost ev = entry.deep_view();
                out.push(entry);
                proof {
                    assert(out.deep_view() =~= before.push(ev));
                    if dec_entries(b@, j as int, (n - k - 1) as nat) is Some {
                        let es2 = dec_entries(b@, j as int, (n - k - 1) as nat)->Some_0.0;
                        assert(before + (seq![ev] + es2) =~= before.push(ev) + es2);
                    }
                }
                cur = j;
                k = k + 1;
            },
        }
    }
    proof {
        assert(out.deep_view() + Seq::<(Seq<char>, Seq<ImageInfoView>)>::empty()
            =~= out.deep_view());
    }
    Some((out, cur))
}

/// Decode a snapshot back into a database. Succeeds exactly on the byte
/// strings that [`dec_data`] accepts: a well-formed snapshot with nothing
/// after it and no repeated fingerprint; anything else — absent keys are
/// one thing, a corrupt snapshot another — yields `None` for the caller
/// to surface as an error.
pub fn decode_data(bytes: &Vec<u8>) -> (r: Option<Data>)
    ensures
        match r {
            Some(d) => d.wf() && dec_data(bytes@) == Some(d.entries()),
            None => dec_data(bytes@) is None,
        },
{
    let (n, j) = match read_u64(bytes, 0) {
        None => {
            return None;
        },
        Some(p) => p,
    };
    let (entries, end) = match read_entries(bytes, j, n) {
        None => {
            return None;
        },
        Some(p) => p,
    };
    if end != bytes.len() {
        return None;
    }
    let ghost all = entries.deep_view();
    let mut d = Data::new();
    let mut rest = entries;
    proof {
        assert(d.entries() + rest.deep_view() =~= all);
    }
    while rest.len() > 0
        invariant
            d.wf(),
            d.entries() + rest.deep_view() =~= all,
            dec_u64(bytes@, 0) == Some((n, j as int)),
            dec_entries(bytes@, j as int, n as nat) == Some((all, end as int)),
            end == bytes@.len(),
        decreases rest.len(),
    {
        let ghost done = d.entries().len() as int;
        let ghost rest_v0 = rest@;
        let ghost rest_dv0 = rest.deep_view();
        proof {
            assert(rest_dv0[0] == rest_v0[0].deep_view());
            assert((d.entries() + rest_dv0)[done] == rest_dv0[0]);
            assert(all[done] == rest_dv0[0]);
        }
        let (key, infos) = rest.remove(0);
        proof {
            assert(key@ == rest_dv0[0].0);
            assert(infos.deep_view() == rest_dv0[0].1);
            assert(rest.deep_view() =~= rest_dv0.drop_first());
        }
        let is_dup = d.contains_key(key.as_str());
        if is_dup {
            proof {
                crate::data::lemma_map_of_contains(d.entries(), key@);
                let p = choose|p: int|
                    0 <= p < d.entries().len() && d.entries()[p].0 == key@;
                assert(all[p] == (d.entries() + rest_dv0)[p]);
                assert(all[p].0 == all[done].0);
                assert(!unique_keys(all));
            }
            return None;
        }
        d.insert(key, infos);
        proof {
            assert(d.entries() + rest.deep_view() =~= all);
        }
    }
    proof {
        assert(d.entries() =~= all);
        assert(unique_keys(all));
    }
    Some(d)
}

} // verus!
