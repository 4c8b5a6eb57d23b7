//! The page fingerprint: a 16-byte digest seeded from a fixed constant and
//! combined, for each image of a page, by XOR-folding the MD5 digest of the
//! image's absolute URL into the accumulator. The XOR fold makes the
//! fingerprint independent of the order in which images are discovered.

use vstd::prelude::*;
use vstd::string::*;

verus! {

/// The MD5 digest of a string's bytes, named but not restated: MD5 is
/// computed by the outside crate and depends on the string alone.
pub uninterp spec fn md5_of(s: Seq<char>) -> Seq<u8>;

/// Relies on md5::compute: the 16-byte MD5 digest of the string's bytes,
/// a function of the string alone.
#[verifier::external_body]
fn md5_str(s: &str) -> (r: Vec<u8>)
    ensures
        r@ == md5_of(s@),
        r@.len() == 16,
{
    md5::compute(s.as_bytes()).0.to_vec()
}

/// Bytewise exclusive-or; positions of `a` past the end of `b` are kept.
pub open spec fn xor_bytes(a: Seq<u8>, b: Seq<u8>) -> Seq<u8> {
    Seq::new(
        a.len(),
        |i: int|
            if i < b.len() {
                a[i] ^ b[i]
            } else {
                a[i]
            },
    )
}

/// XOR-fold a sequence of digests into an accumulator.
pub open spec fn xor_fold(ds: Seq<Seq<u8>>, acc: Seq<u8>) -> Seq<u8>
    decreases ds.len(),
{
    if ds.len() == 0 {
        acc
    } else {
        xor_bytes(xor_fold(ds.drop_last(), acc), ds.last())
    }
}

/// The fixed seed of every page fingerprint.
pub open spec fn seed_digest() -> Seq<u8> {
    md5_of("start"@)
}

/// The MD5 digests of a sequence of URL strings.
pub open spec fn digests_of(urls: Seq<Seq<char>>) -> Seq<Seq<u8>> {
    urls.map_values(|u: Seq<char>| md5_of(u))
}

/// The page fingerprint of a sequence of absolute image URLs.
pub open spec fn fingerprint_of(urls: Seq<Seq<char>>) -> Seq<u8> {
    xor_fold(digests_of(urls), seed_digest())
}

proof fn lemma_xor_swap(x: Seq<u8>, a: Seq<u8>, b: Seq<u8>)
    ensures
        xor_bytes(xor_bytes(x, a), b) == xor_bytes(xor_bytes(x, b), a),
{
    let l = xor_bytes(xor_bytes(x, a), b);
    let r = xor_bytes(xor_bytes(x, b), a);
    assert forall|i: int| 0 <= i < x.len() implies l[i] == r[i] by {
        if i < a.len() && i < b.len() {
            let xi = x[i];
            let ai = a[i];
            let bi = b[i];
            assert((xi ^ ai) ^ bi == (xi ^ bi) ^ ai) by (bit_vector);
        }
    }
    assert(l =~= r);
}

proof fn lemma_xor_fold_remove(ds: Seq<Seq<u8>>, acc: Seq<u8>, i: int)
    requires
        0 <= i < ds.len(),
    ensures
        xor_fold(ds, acc) == xor_bytes(xor_fold(ds.remove(i), acc), ds[i]),
    decreases ds.len(),
{
    if i == ds.len() - 1 {
        assert(ds.remove(i) =~= ds.drop_last());
    } else {
        let d = ds.drop_last();
        lemma_xor_fold_remove(d, acc, i);
        lemma_xor_swap(xor_fold(d.remove(i), acc), d[i], ds.last());
        assert(ds.remove(i).drop_last() =~= d.remove(i));
        assert(ds.remove(i).last() == ds.last());
    }
}

proof fn lemma_xor_fold_permutation(a: Seq<Seq<u8>>, b: Seq<Seq<u8>>, acc: Seq<u8>)
    requires
        a.to_multiset() == b.to_multiset(),
    ensures
        xor_fold(a, acc) == xor_fold(b, acc),
    decreases a.len(),
{
    broadcast use vstd::seq_lib::group_to_multiset_ensures;

    if a.len() == 0 {
        assert(b.len() == 0) by {
            assert(a.to_multiset().len() == a.len());
            assert(b.to_multiset().len() == b.len());
        }
    } else {
        let x = a.last();
        assert(a.to_multiset().count(x) > 0) by {
            assert(a.contains(x));
        }
        assert(b.contains(x));
        let j = choose|j: int| 0 <= j < b.len() && b[j] == x;
        assert(a.drop_last() =~= a.remove(a.len() - 1));
        assert(a.drop_last().to_multiset() == b.remove(j).to_multiset()) by {
            assert(a.remove(a.len() - 1).to_multiset() =~= a.to_multiset().remove(x));
            assert(b.remove(j).to_multiset() =~= b.to_multiset().remove(x));
        }
        lemma_xor_fold_permutation(a.drop_last(), b.remove(j), acc);
        lemma_xor_fold_remove(b, acc, j);
    }
}

proof fn lemma_digests_multiset(a: Seq<Seq<char>>, b: Seq<Seq<char>>)
    requires
        a.to_multiset() == b.to_multiset(),
    ensures
        digests_of(a).to_multiset() == digests_of(b).to_multiset(),
    decreases a.len(),
{
    broadcast use vstd::seq_lib::group_to_multiset_ensures;

    if a.len() == 0 {
        assert(b.len() == 0) by {
            assert(a.to_multiset().len() == a.len());
            assert(b.to_multiset().len() == b.len());
        }
        assert(digests_of(a) =~= digests_of(b));
    } else {
        let x = a.last();
        assert(a.to_multiset().count(x) > 0) by {
            assert(a.contains(x));
        }
        assert(b.contains(x));
        let j = choose|j: int| 0 <= j < b.len() && b[j] == x;
        assert(a.drop_last() =~= a.remove(a.len() - 1));
        assert(a.drop_last().to_multiset() == b.remove(j).to_multiset()) by {
            assert(a.remove(a.len() - 1).to_multiset() =~= a.to_multiset().remove(x));
            assert(b.remove(j).to_multiset() =~= b.to_multiset().remove(x));
        }
        lemma_digests_multiset(a.drop_last(), b.remove(j));
        assert(digests_of(a).drop_last() =~= digests_of(a.drop_last()));
        assert(digests_of(b).remove(j) =~= digests_of(b.remove(j)));
        assert(digests_of(a).to_multiset() =~= digests_of(a).drop_last().to_multiset().insert(
            digests_of(a).last(),
        )) by {
            assert(digests_of(a) =~= digests_of(a).drop_last().push(digests_of(a).last()));
        }
        assert(digests_of(b).remove(j).to_multiset() =~= digests_of(b).to_multiset().remove(
            digests_of(b)[j],
        ));
        assert(digests_of(a).last() == md5_of(x));
        assert(digests_of(b)[j] == md5_of(x));
        assert(digests_of(b).to_multiset() =~= digests_of(b).remove(j).to_multiset().insert(
            md5_of(x),
        )) by {
            assert(digests_of(b).to_multiset().count(md5_of(x)) > 0) by {
                assert(digests_of(b).contains(md5_of(x)));
            }
        }
    }
}

/// Law: the page fingerprint is independent of the order in which the
/// `img` elements stand on the page — two URL sequences that are
/// permutations of one another have the same fingerprint.
pub proof fn lemma_fingerprint_order_independent(a: Seq<Seq<char>>, b: Seq<Seq<char>>)
    requires
        a.to_multiset() == b.to_multiset(),
    ensures
        fingerprint_of(a) == fingerprint_of(b),
{
    lemma_digests_multiset(a, b);
    lemma_xor_fold_permutation(digests_of(a), digests_of(b), seed_digest());
}

fn xor_into(acc: &mut Vec<u8>, d: &Vec<u8>)
    ensures
        final(acc)@ == xor_bytes(old(acc)@, d@),
{
    let n = acc.len();
    let mut i: usize = 0;
    while i < n
        invariant
            i <= n,
            n == acc@.len(),
            old(acc)@.len() == n,
            forall|j: int| 0 <= j < i ==> acc@[j] == xor_bytes(old(acc)@, d@)[j],
            forall|j: int| i <= j < n ==> acc@[j] == old(acc)@[j],
        decreases n - i,
    {
        if i < d.len() {
            let v = acc[i] ^ d[i];
            acc.set(i, v);
        }
        i = i + 1;
    }
    proof {
        assert(acc@ =~= xor_bytes(old(acc)@, d@));
    }
}

/// The 16-byte fingerprint of a page's absolute image URLs.
pub fn fingerprint(urls: &Vec<String>) -> (r: Vec<u8>)
    ensures
        r@ == fingerprint_of(urls.deep_view()),
        r@.len() == 16,
{
    let mut acc = md5_str("start");
    let n = urls.len();
    let mut k: usize = 0;
    while k < n
        invariant
            k <= n,
            n == urls@.len(),
            acc@ == xor_fold(digests_of(urls.deep_view()).subrange(0, k as int), seed_digest()),
            acc@.len() == 16,
        decreases n - k,
    {
        let d = md5_str(urls[k].as_str());
        xor_into(&mut acc, &d);
        proof {
            let dv = digests_of(urls.deep_view());
            assert(dv.subrange(0, k + 1).drop_last() =~= dv.subrange(0, k as int));
            assert(urls.deep_view()[k as int] == urls@[k as int]@);
            assert(dv.subrange(0, k + 1).last() == md5_of(urls@[k as int]@));
        }
        k = k + 1;
    }
    proof {
        assert(digests_of(urls.deep_view()).subrange(0, n as int) =~= digests_of(
            urls.deep_view(),
        ));
    }
    acc
}

/// The lowercase hex digit for a value below sixteen.
pub open spec fn hex_digit(n: int) -> char
    recommends
        0 <= n < 16,
{
    if n < 10 {
        ((48 + n) as u8) as char
    } else {
        ((87 + n) as u8) as char
    }
}

/// Lowercase hex encoding: two digits for each byte, in byte order.
pub open spec fn hex_of(bytes: Seq<u8>) -> Seq<char>
    decreases bytes.len(),
{
    if bytes.len() == 0 {
        Seq::empty()
    } else {
        hex_of(bytes.drop_last()) + seq![
            hex_digit(bytes.last() as int / 16),
            hex_digit(bytes.last() as int % 16),
        ]
    }
}

fn nibble_str(n: u8) -> (r: &'static str)
    requires
        n < 16,
    ensures
        r@ == seq![hex_digit(n as int)],
{
    proof {
        reveal_strlit("0");
        reveal_strlit("1");
        reveal_strlit("2");
        reveal_strlit("3");
        reveal_strlit("4");
        reveal_strlit("5");
        reveal_strlit("6");
        reveal_strlit("7");
        reveal_strlit("8");
        reveal_strlit("9");
        reveal_strlit("a");
        reveal_strlit("b");
        reveal_strlit("c");
        reveal_strlit("d");
        reveal_strlit("e");
        reveal_strlit("f");
    }
    match n {
        0 => "0",
        1 => "1",
        2 => "2",
        3 => "3",
        4 => "4",
        5 => "5",
        6 => "6",
        7 => "7",
        8 => "8",
        9 => "9",
        10 => "a",
        11 => "b",
        12 => "c",
        13 => "d",
        14 => "e",
        _ => "f",
    }
}

/// Lowercase hex encoding of a byte vector.
pub fn to_hex(bytes: &Vec<u8>) -> (r: String)
    ensures
        r@ == hex_of(bytes@),
{
    let mut s = String::new();
    let n = bytes.len();
    let mut i: usize = 0;
    while i < n
        invariant
            i <= n,
            n == bytes@.len(),
            s@ == hex_of(bytes@.subrange(0, i as int)),
        decreases n - i,
    {
        let b = bytes[i];
        s.append(nibble_str(b / 16));
        s.append(nibble_str(b % 16));
        proof {
            assert(bytes@.subrange(0, i + 1).drop_last() =~= bytes@.subrange(0, i as int));
            assert(bytes@.subrange(0, i + 1).last() == bytes@[i as int]);
            assert(s@ =~= hex_of(bytes@.subrange(0, i + 1)));
        }
        i = i + 1;
    }
    proof {
        assert(bytes@.subrange(0, n as int) =~= bytes@);
    }
    s
}

/// The fingerprint of a page's image URLs as the lowercase hex string
/// that keys the dedup database and names the page's directory.
pub fn fingerprint_hex(urls: &Vec<String>) -> (r: String)
    ensures
        r@ == hex_of(fingerprint_of(urls.deep_view())),
{
    let fp = fingerprint(urls);
    to_hex(&fp)
}

} // verus!
