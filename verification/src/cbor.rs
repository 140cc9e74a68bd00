//! The CBOR encoding (RFC 8949) that the library's values are hashed in: unsigned integers,
//! byte and text strings, arrays and maps, always with the shortest length header.
use vstd::prelude::*;

verus! {

/// Big-endian bytes of a 16-bit number.
pub open spec fn be2(n: int) -> Seq<u8> {
    seq![((n / 0x100) % 0x100) as u8, (n % 0x100) as u8]
}

/// Big-endian bytes of a 32-bit number.
pub open spec fn be4(n: int) -> Seq<u8> {
    seq![
        ((n / 0x100_0000) % 0x100) as u8,
        ((n / 0x1_0000) % 0x100) as u8,
        ((n / 0x100) % 0x100) as u8,
        (n % 0x100) as u8,
    ]
}

/// Big-endian bytes of a 64-bit number.
pub open spec fn be8(n: int) -> Seq<u8> {
    seq![
        ((n / 0x100_0000_0000_0000) % 0x100) as u8,
        ((n / 0x1_0000_0000_0000) % 0x100) as u8,
        ((n / 0x100_0000_0000) % 0x100) as u8,
        ((n / 0x1_0000_0000) % 0x100) as u8,
        ((n / 0x100_0000) % 0x100) as u8,
        ((n / 0x1_0000) % 0x100) as u8,
        ((n / 0x100) % 0x100) as u8,
        (n % 0x100) as u8,
    ]
}

/// Header of a data item of major type `major` with argument `n`, in its shortest form.
pub open spec fn head(major: u8, n: u64) -> Seq<u8>
    recommends
        major < 8,
{
    let m = major * 32;
    if n <= 23 {
        seq![(m + n) as u8]
    } else if n <= 0xff {
        seq![(m + 24) as u8, n as u8]
    } else if n <= 0xffff {
        seq![(m + 25) as u8] + be2(n as int)
    } else if n <= 0xffff_ffff {
        seq![(m + 26) as u8] + be4(n as int)
    } else {
        seq![(m + 27) as u8] + be8(n as int)
    }
}

/// An unsigned integer.
pub open spec fn enc_uint(n: u64) -> Seq<u8> {
    head(0, n)
}

/// A byte string.
pub open spec fn enc_bytes(b: Seq<u8>) -> Seq<u8> {
    head(2, b.len() as u64) + b
}

/// A text string, given by its UTF-8 bytes.
pub open spec fn enc_text(t: Seq<u8>) -> Seq<u8> {
    head(3, t.len() as u64) + t
}

/// Header of an array of `n` items.
pub open spec fn enc_array_head(n: nat) -> Seq<u8> {
    head(4, n as u64)
}

/// Header of a map of `n` entries.
pub open spec fn enc_map_head(n: nat) -> Seq<u8> {
    head(5, n as u64)
}

/// The items of a byte sequence written one by one as unsigned integers.
pub open spec fn enc_uint_items(s: Seq<u8>) -> Seq<u8>
    decreases s.len(),
{
    if s.len() == 0 {
        seq![]
    } else {
        enc_uint_items(s.drop_last()) + enc_uint(s.last() as u64)
    }
}

/// A byte sequence written as an array of unsigned integers.
pub open spec fn enc_uint_array(s: Seq<u8>) -> Seq<u8> {
    enc_array_head(s.len()) + enc_uint_items(s)
}

proof fn lemma_be_bytes_value(n: u64)
    ensures
        n <= 0xffff ==> n == ((n / 0x100) % 0x100) * 0x100 + (n % 0x100),
        n <= 0xffff_ffff ==> n == ((n / 0x100_0000) % 0x100) * 0x100_0000 + ((n / 0x1_0000) % 0x100)
            * 0x1_0000 + ((n / 0x100) % 0x100) * 0x100 + (n % 0x100),
        n == ((n / 0x100_0000_0000_0000) % 0x100) * 0x100_0000_0000_0000 + ((n / 0x1_0000_0000_0000)
            % 0x100) * 0x1_0000_0000_0000 + ((n / 0x100_0000_0000) % 0x100) * 0x100_0000_0000 + ((n
            / 0x1_0000_0000) % 0x100) * 0x1_0000_0000 + ((n / 0x100_0000) % 0x100) * 0x100_0000 + ((n
            / 0x1_0000) % 0x100) * 0x1_0000 + ((n / 0x100) % 0x100) * 0x100 + (n % 0x100),
{
    assert(n <= 0xffff ==> n == ((n / 0x100) % 0x100) * 0x100 + (n % 0x100)) by (bit_vector);
    assert(n <= 0xffff_ffff ==> n == ((n / 0x100_0000) % 0x100) * 0x100_0000 + ((n / 0x1_0000) % 0x100)
        * 0x1_0000 + ((n / 0x100) % 0x100) * 0x100 + (n % 0x100)) by (bit_vector);
    assert(n == ((n / 0x100_0000_0000_0000) % 0x100) * 0x100_0000_0000_0000 + ((n / 0x1_0000_0000_0000)
        % 0x100) * 0x1_0000_0000_0000 + ((n / 0x100_0000_0000) % 0x100) * 0x100_0000_0000 + ((n
        / 0x1_0000_0000) % 0x100) * 0x1_0000_0000 + ((n / 0x100_0000) % 0x100) * 0x100_0000 + ((n
        / 0x1_0000) % 0x100) * 0x1_0000 + ((n / 0x100) % 0x100) * 0x100 + (n % 0x100)) by (bit_vector);
}

/// Two headers of one major type with what follows them: equal bytes mean equal arguments
/// and equal rests (a header is read back from its first byte on).
pub proof fn lemma_head_prefix(major: u8, a: u64, b: u64, x: Seq<u8>, y: Seq<u8>)
    requires
        major < 8,
        head(major, a) + x == head(major, b) + y,
    ensures
        a == b,
        x == y,
{
    let ha = head(major, a);
    let hb = head(major, b);
    let sa = ha + x;
    let sb = hb + y;
    assert(sa[0] == ha[0] && sb[0] == hb[0]);
    assert(ha.len() == hb.len());
    assert(ha =~= sa.subrange(0, ha.len() as int));
    assert(hb =~= sb.subrange(0, hb.len() as int));
    assert(x =~= sa.subrange(ha.len() as int, sa.len() as int));
    assert(y =~= sb.subrange(hb.len() as int, sb.len() as int));
    assert(ha == hb);
    lemma_be_bytes_value(a);
    lemma_be_bytes_value(b);
    if a > 0xffff_ffff {
        assert(ha[1] == hb[1] && ha[2] == hb[2] && ha[3] == hb[3] && ha[4] == hb[4]);
        assert(ha[5] == hb[5] && ha[6] == hb[6] && ha[7] == hb[7] && ha[8] == hb[8]);
    } else if a > 0xffff {
        assert(ha[1] == hb[1] && ha[2] == hb[2] && ha[3] == hb[3] && ha[4] == hb[4]);
    } else if a > 0xff {
        assert(ha[1] == hb[1] && ha[2] == hb[2]);
    } else if a > 23 {
        assert(ha[1] == hb[1]);
    }
}

/// Two unsigned integers with what follows them: equal bytes mean equal integers and equal
/// rests.
pub proof fn lemma_uint_prefix(a: u64, b: u64, x: Seq<u8>, y: Seq<u8>)
    requires
        enc_uint(a) + x == enc_uint(b) + y,
    ensures
        a == b,
        x == y,
{
    lemma_head_prefix(0, a, b, x, y);
}

/// Two text strings with what follows them: equal bytes mean equal texts and equal rests.
pub proof fn lemma_text_prefix(a: Seq<u8>, b: Seq<u8>, x: Seq<u8>, y: Seq<u8>)
    requires
        a.len() <= u64::MAX,
        b.len() <= u64::MAX,
        enc_text(a) + x == enc_text(b) + y,
    ensures
        a == b,
        x == y,
{
    let ha = head(3, a.len() as u64);
    let hb = head(3, b.len() as u64);
    assert(enc_text(a) + x =~= ha + (a + x));
    assert(enc_text(b) + y =~= hb + (b + y));
    lemma_head_prefix(3, a.len() as u64, b.len() as u64, a + x, b + y);
    assert(a =~= (a + x).subrange(0, a.len() as int));
    assert(b =~= (b + y).subrange(0, b.len() as int));
    assert(x =~= (a + x).subrange(a.len() as int, (a + x).len() as int));
    assert(y =~= (b + y).subrange(b.len() as int, (b + y).len() as int));
}

/// Appends the header of major type `major` with argument `n`.
pub fn push_head(out: &mut Vec<u8>, major: u8, n: u64)
    requires
        major < 8,
    ensures
        final(out)@ == old(out)@ + head(major, n),
{
    let m: u8 = major * 32;
    if n <= 23 {
        out.push(m + n as u8);
    } else if n <= 0xff {
        out.push(m + 24);
        out.push(n as u8);
    } else if n <= 0xffff {
        out.push(m + 25);
        out.push(((n / 0x100) % 0x100) as u8);
        out.push((n % 0x100) as u8);
    } else if n <= 0xffff_ffff {
        out.push(m + 26);
        out.push(((n / 0x100_0000) % 0x100) as u8);
        out.push(((n / 0x1_0000) % 0x100) as u8);
        out.push(((n / 0x100) % 0x100) as u8);
        out.push((n % 0x100) as u8);
    } else {
        out.push(m + 27);
        out.push(((n / 0x100_0000_0000_0000) % 0x100) as u8);
        out.push(((n / 0x1_0000_0000_0000) % 0x100) as u8);
        out.push(((n / 0x100_0000_0000) % 0x100) as u8);
        out.push(((n / 0x1_0000_0000) % 0x100) as u8);
        out.push(((n / 0x100_0000) % 0x100) as u8);
        out.push(((n / 0x1_0000) % 0x100) as u8);
        out.push(((n / 0x100) % 0x100) as u8);
        out.push((n % 0x100) as u8);
    }
    assert(final(out)@ =~= old(out)@ + head(major, n));
}

/// Appends an unsigned integer.
pub fn push_uint(out: &mut Vec<u8>, n: u64)
    ensures
        final(out)@ == old(out)@ + enc_uint(n),
{
    push_head(out, 0, n);
}

/// Appends the bytes of `s` in order.
pub fn push_all(out: &mut Vec<u8>, s: &[u8])
    ensures
        final(out)@ == old(out)@ + s@,
{
    let ghost start = out@;
    let mut i: usize = 0;
    while i < s.len()
        invariant
            i <= s@.len(),
            out@ == start + s@.subrange(0, i as int),
        decreases s@.len() - i,
    {
        out.push(s[i]);
        i = i + 1;
        assert(out@ =~= start + s@.subrange(0, i as int));
    }
    assert(s@.subrange(0, s@.len() as int) =~= s@);
}

/// Appends a byte string.
pub fn push_bytes(out: &mut Vec<u8>, b: &[u8])
    ensures
        final(out)@ == old(out)@ + enc_bytes(b@),
{
    push_head(out, 2, b.len() as u64);
    push_all(out, b);
    assert(final(out)@ =~= old(out)@ + enc_bytes(b@));
}

/// Appends a text string given by its UTF-8 bytes.
pub fn push_text(out: &mut Vec<u8>, t: &[u8])
    ensures
        final(out)@ == old(out)@ + enc_text(t@),
{
    push_head(out, 3, t.len() as u64);
    push_all(out, t);
    assert(final(out)@ =~= old(out)@ + enc_text(t@));
}

/// Appends the header of an array of `n` items.
pub fn push_array_head(out: &mut Vec<u8>, n: usize)
    ensures
        final(out)@ == old(out)@ + enc_array_head(n as nat),
{
    push_head(out, 4, n as u64);
}

/// Appends the header of a map of `n` entries.
pub fn push_map_head(out: &mut Vec<u8>, n: usize)
    ensures
        final(out)@ == old(out)@ + enc_map_head(n as nat),
{
    push_head(out, 5, n as u64);
}

/// Appends a byte sequence as an array of unsigned integers.
pub fn push_uint_array(out: &mut Vec<u8>, s: &[u8])
    ensures
        final(out)@ == old(out)@ + enc_uint_array(s@),
{
    push_array_head(out, s.len());
    let ghost start = out@;
    let mut i: usize = 0;
    while i < s.len()
        invariant
            i <= s@.len(),
            out@ == start + enc_uint_items(s@.subrange(0, i as int)),
        decreases s@.len() - i,
    {
        let ghost before = out@;
        push_uint(out, s[i] as u64);
        proof {
            let t = s@.subrange(0, i + 1);
            assert(t.drop_last() =~= s@.subrange(0, i as int));
            assert(t.last() == s@[i as int]);
        }
        i = i + 1;
        assert(out@ =~= start + enc_uint_items(s@.subrange(0, i as int)));
    }
    assert(s@.subrange(0, s@.len() as int) =~= s@);
    assert(final(out)@ =~= old(out)@ + enc_uint_array(s@));
}

} // verus!
