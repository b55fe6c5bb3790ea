//! The path hasher: entries are keyed by the MD5 digest of the
//! ASCII-uppercased archive-internal path.

use vstd::prelude::*;

verus! {

/// The MD5 digest (16 bytes) of a byte sequence. MD5 is computed by an
/// outside crate; this name stands for its result, which depends on the
/// input bytes alone.
pub uninterp spec fn md5_of(data: Seq<u8>) -> Seq<u8>;

/// `c` with ASCII lowercase letters folded to uppercase; all other bytes
/// unchanged.
pub open spec fn upper_byte(c: u8) -> u8 {
    if 0x61 <= c <= 0x7a {
        (c - 0x20) as u8
    } else {
        c
    }
}

/// `s` with every ASCII lowercase letter folded to uppercase.
pub open spec fn upper_ascii(s: Seq<u8>) -> Seq<u8> {
    s.map_values(|c: u8| upper_byte(c))
}

/// The hash under which a file with internal path `p` is stored: MD5 of the
/// ASCII-uppercased path.
pub open spec fn name_hash_of(p: Seq<u8>) -> Seq<u8> {
    md5_of(upper_ascii(p))
}

/// Relies on `md5::Md5` (with `digest::Digest`): the digest is 16 bytes and
/// depends on the input bytes alone.
#[verifier::external_body]
fn md5_digest(data: &[u8]) -> (r: Vec<u8>)
    ensures
        r@ == md5_of(data@),
        r@.len() == 16,
{
    let mut hasher = <md5::Md5 as md5::Digest>::new();
    md5::Digest::update(&mut hasher, data);
    md5::Digest::finalize(hasher).to_vec()
}

/// Folds every ASCII lowercase letter of `p` to uppercase.
pub fn to_upper_ascii(p: &[u8]) -> (r: Vec<u8>)
    ensures
        r@ == upper_ascii(p@),
{
    let n = p.len();
    let mut r: Vec<u8> = Vec::with_capacity(n);
    let mut i: usize = 0;
    while i < n
        invariant
            0 <= i <= n,
            n == p@.len(),
            r@.len() == i,
            forall|j: int| 0 <= j < i ==> r@[j] == upper_byte(p@[j]),
        decreases n - i,
    {
        let c = p[i];
        if 0x61 <= c && c <= 0x7a {
            r.push(c - 0x20);
        } else {
            r.push(c);
        }
        i = i + 1;
    }
    assert(r@ =~= upper_ascii(p@));
    r
}

/// The name hash of the internal path `path`: MD5 of the uppercased bytes.
/// Hashes the path directly when it already holds no lowercase letter, so
/// that the common all-uppercase path costs no extra allocation.
pub fn calculate_md5(path: &[u8]) -> (r: Vec<u8>)
    ensures
        r@ == name_hash_of(path@),
        r@.len() == 16,
{
    let n = path.len();
    let mut any_lower = false;
    let mut i: usize = 0;
    while i < n
        invariant
            0 <= i <= n,
            n == path@.len(),
            any_lower == exists|j: int| 0 <= j < i && 0x61 <= #[trigger] path@[j] <= 0x7a,
        decreases n - i,
    {
        let c = path[i];
        if 0x61 <= c && c <= 0x7a {
            any_lower = true;
        }
        i = i + 1;
    }
    if any_lower {
        let upper = to_upper_ascii(path);
        md5_digest(upper.as_slice())
    } else {
        assert(upper_ascii(path@) =~= path@);
        md5_digest(path)
    }
}

/// The uppercase hex digit pair for byte `b`, as characters.
pub open spec fn hex_pair(b: u8) -> Seq<char> {
    seq![hex_digit(b as int / 16), hex_digit(b as int % 16)]
}

/// The uppercase hex digit for `n` in `0..16`.
pub open spec fn hex_digit(n: int) -> char
    recommends
        0 <= n < 16,
{
    seq!['0', '1', '2', '3', '4', '5', '6', '7', '8', '9', 'A', 'B', 'C', 'D', 'E', 'F'][n]
}

/// The `"AA-BB-..."` rendering of a hash: uppercase hex pairs joined by
/// dashes.
pub open spec fn dashed_hex(h: Seq<u8>) -> Seq<char>
    decreases h.len(),
{
    if h.len() == 0 {
        seq![]
    } else if h.len() == 1 {
        hex_pair(h[0])
    } else {
        hex_pair(h[0]) + seq!['-'] + dashed_hex(h.skip(1))
    }
}

fn push_hex_digit(out: &mut String, n: u8)
    requires
        n < 16,
    ensures
        final(out)@ == old(out)@ + seq![hex_digit(n as int)],
{
    let d: &str = match n {
        0 => "0",
        1 => "1",
        2 => "2",
        3 => "3",
        4 => "4",
        5 => "5",
        6 => "6",
        7 => "7",
        8 => "8",
        9 => "9",
        10 => "A",
        11 => "B",
        12 => "C",
        13 => "D",
        14 => "E",
        _ => "F",
    };
    proof {
        reveal_strlit("0");
        reveal_strlit("1");
        reveal_strlit("2");
        reveal_strlit("3");
        reveal_strlit("4");
        reveal_strlit("5");
        reveal_strlit("6");
        reveal_strlit("7");
        reveal_strlit("8");
        reveal_strlit("9");
        reveal_strlit("A");
        reveal_strlit("B");
        reveal_strlit("C");
        reveal_strlit("D");
        reveal_strlit("E");
        reveal_strlit("F");
    }
    out.append(d);
    assert(final(out)@ =~= old(out)@ + seq![hex_digit(n as int)]);
}

/// Renders `hash` as uppercase hex pairs joined by dashes, the conventional
/// display form of a name hash.
pub fn hash_to_string(hash: &[u8]) -> (r: String)
    ensures
        r@ == dashed_hex(hash@),
{
    let n = hash.len();
    let mut out = String::new();
    let mut i: usize = 0;
    while i < n
        invariant
            0 <= i <= n,
            n == hash@.len(),
            out@ == dashed_hex(hash@.take(i as int)) + (
            if 0 < i < n {
                seq!['-']
            } else {
                Seq::<char>::empty()
            }),
        decreases n - i,
    {
        let b = hash[i];
        push_hex_digit(&mut out, b / 16);
        push_hex_digit(&mut out, b % 16);
        proof {
            lemma_dashed_hex_snoc(hash@, i as int);
        }
        if i + 1 < n {
            proof {
                reveal_strlit("-");
            }
            out.append("-");
        }
        i = i + 1;
        assert(out@ =~= dashed_hex(hash@.take(i as int)) + (
        if 0 < i < n {
            seq!['-']
        } else {
            Seq::<char>::empty()
        }));
    }
    assert(hash@.take(n as int) =~= hash@);
    out
}

/// Extending the rendered prefix by one byte appends a dash (when a byte was
/// already rendered) and the new byte's hex pair.
proof fn lemma_dashed_hex_snoc(h: Seq<u8>, i: int)
    requires
        0 <= i < h.len(),
    ensures
        i == 0 ==> dashed_hex(h.take(i + 1)) == dashed_hex(h.take(i)) + hex_pair(h[i]),
        i > 0 ==> dashed_hex(h.take(i + 1)) == dashed_hex(h.take(i)) + seq!['-'] + hex_pair(h[i]),
    decreases i,
{
    if i == 0 {
        assert(h.take(1) =~= seq![h[0]]);
        assert(dashed_hex(seq![h[0]]) == hex_pair(h[0]));
        assert(dashed_hex(h.take(0)) =~= Seq::<char>::empty());
        assert(dashed_hex(h.take(1)) =~= dashed_hex(h.take(0)) + hex_pair(h[0]));
    } else {
        lemma_dashed_hex_snoc(h.skip(1), i - 1);
        assert(h.take(i + 1).len() > 1);
        assert(h.take(i + 1)[0] == h[0]);
        assert(h.take(i + 1).skip(1) =~= h.skip(1).take(i));
        assert(h.take(i).skip(1) =~= h.skip(1).take(i - 1));
        assert(h.take(i)[0] == h[0]);
        assert(h.skip(1)[i - 1] == h[i]);
        if i == 1 {
            assert(dashed_hex(h.take(2)) == hex_pair(h[0]) + seq!['-'] + dashed_hex(h.skip(
                1,
            ).take(1)));
            assert(dashed_hex(h.take(1)) == hex_pair(h[0]));
            assert(dashed_hex(h.skip(1).take(1)) == hex_pair(h[1]));
            assert(dashed_hex(h.take(2)) =~= dashed_hex(h.take(1)) + seq!['-'] + hex_pair(h[1]));
        } else {
            assert(dashed_hex(h.take(i + 1)) == hex_pair(h[0]) + seq!['-'] + dashed_hex(h.take(
                i + 1,
            ).skip(1)));
            assert(dashed_hex(h.take(i)) == hex_pair(h[0]) + seq!['-'] + dashed_hex(h.take(
                i,
            ).skip(1)));
            assert(dashed_hex(h.take(i + 1)) =~= dashed_hex(h.take(i)) + seq!['-'] + hex_pair(
                h[i],
            ));
        }
    }
}

/// Lexicographic byte order on sequences: `a` is less than or equal to `b`.
pub open spec fn bytes_le(a: Seq<u8>, b: Seq<u8>) -> bool
    decreases a.len(),
{
    if a.len() == 0 {
        true
    } else if b.len() == 0 {
        false
    } else if a[0] < b[0] {
        true
    } else if a[0] > b[0] {
        false
    } else {
        bytes_le(a.skip(1), b.skip(1))
    }
}

/// Decides the lexicographic byte order `bytes_le(a@, b@)`.
pub fn bytes_le_exec(a: &[u8], b: &[u8]) -> (r: bool)
    ensures
        r == bytes_le(a@, b@),
{
    let alen = a.len();
    let blen = b.len();
    let mut i: usize = 0;
    assert(a@.skip(0) =~= a@ && b@.skip(0) =~= b@);
    loop
        invariant
            0 <= i <= alen,
            i <= blen,
            alen == a@.len(),
            blen == b@.len(),
            forall|j: int| 0 <= j < i ==> a@[j] == b@[j],
            bytes_le(a@, b@) == bytes_le(a@.skip(i as int), b@.skip(i as int)),
        decreases alen - i,
    {
        if i >= alen {
            assert(a@.skip(i as int).len() == 0);
            return true;
        }
        if i >= blen {
            assert(b@.skip(i as int).len() == 0 && a@.skip(i as int).len() > 0);
            return false;
        }
        let ca = a[i];
        let cb = b[i];
        assert(a@.skip(i as int)[0] == ca && b@.skip(i as int)[0] == cb);
        if ca < cb {
            return true;
        }
        if ca > cb {
            return false;
        }
        proof {
            assert(a@.skip(i as int).skip(1) =~= a@.skip(i + 1));
            assert(b@.skip(i as int).skip(1) =~= b@.skip(i + 1));
        }
        i = i + 1;
    }
}

/// `bytes_le` is total: any two byte sequences compare one way or the other.
pub proof fn lemma_bytes_le_total(a: Seq<u8>, b: Seq<u8>)
    ensures
        bytes_le(a, b) || bytes_le(b, a),
    decreases a.len(),
{
    if a.len() > 0 && b.len() > 0 && a[0] == b[0] {
        lemma_bytes_le_total(a.skip(1), b.skip(1));
    }
}

/// `bytes_le` is reflexive.
pub proof fn lemma_bytes_le_refl(a: Seq<u8>)
    ensures
        bytes_le(a, a),
{
    lemma_bytes_le_total(a, a);
}

/// `bytes_le` is transitive.
pub proof fn lemma_bytes_le_trans(a: Seq<u8>, b: Seq<u8>, c: Seq<u8>)
    requires
        bytes_le(a, b),
        bytes_le(b, c),
    ensures
        bytes_le(a, c),
    decreases a.len(),
{
    if a.len() > 0 && b.len() > 0 && c.len() > 0 && a[0] == b[0] && b[0] == c[0] {
        lemma_bytes_le_trans(a.skip(1), b.skip(1), c.skip(1));
    }
}

/// Uppercasing is insensitive to ASCII case: two paths whose uppercased
/// forms agree hash alike, so `hash("foo/BAR.ext") == hash("FOO/bar.ext")`.
pub proof fn lemma_hash_case_insensitive(p: Seq<u8>, q: Seq<u8>)
    requires
        upper_ascii(p) == upper_ascii(q),
    ensures
        name_hash_of(p) == name_hash_of(q),
{
}

} // verus!
