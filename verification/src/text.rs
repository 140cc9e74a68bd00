//! Hexadecimal text of hashes and identifiers, as they appear in messages.
use vstd::prelude::*;
use vstd::string::StringExecFns;

use crate::u256::U256;

verus! {

/// The lower-case hexadecimal digit of a number below 16.
pub open spec fn hex_char(d: int) -> char {
    if d < 10 {
        (('0' as int) + d) as char
    } else {
        (('a' as int) + d - 10) as char
    }
}

/// A number in lower-case hexadecimal, without leading zeros ("0" for zero).
pub open spec fn hex_text(v: nat) -> Seq<char>
    decreases v,
{
    if v < 16 {
        seq![hex_char(v as int)]
    } else {
        hex_text(v / 16) + seq![hex_char((v % 16) as int)]
    }
}

/// The two lower-case hexadecimal digits of a byte.
pub open spec fn byte_hex(b: u8) -> Seq<char> {
    seq![hex_char((b / 16) as int), hex_char((b % 16) as int)]
}

/// Bytes as pairs of lower-case hexadecimal digits.
pub open spec fn bytes_hex(s: Seq<u8>) -> Seq<char>
    decreases s.len(),
{
    if s.len() == 0 {
        Seq::empty()
    } else {
        bytes_hex(s.drop_last()) + byte_hex(s.last())
    }
}

/// A UUID in its hyphenated form: groups of 4, 2, 2, 2 and 6 bytes in lower-case
/// hexadecimal, joined by hyphens.
pub open spec fn hyphenated(b: Seq<u8>) -> Seq<char> {
    bytes_hex(b.subrange(0, 4)) + seq!['-'] + bytes_hex(b.subrange(4, 6)) + seq!['-'] + bytes_hex(
        b.subrange(6, 8),
    ) + seq!['-'] + bytes_hex(b.subrange(8, 10)) + seq!['-'] + bytes_hex(b.subrange(10, 16))
}

/// The text of one hexadecimal digit.
fn hex_digit(d: u64) -> (r: &'static str)
    requires
        d < 16,
    ensures
        r@ == seq![hex_char(d as int)],
{
    match d {
        0 => {
            proof {
                reveal_strlit("0");
            }
            "0"
        },
        1 => {
            proof {
                reveal_strlit("1");
            }
            "1"
        },
        2 => {
            proof {
                reveal_strlit("2");
            }
            "2"
        },
        3 => {
            proof {
                reveal_strlit("3");
            }
            "3"
        },
        4 => {
            proof {
                reveal_strlit("4");
            }
            "4"
        },
        5 => {
            proof {
                reveal_strlit("5");
            }
            "5"
        },
        6 => {
            proof {
                reveal_strlit("6");
            }
            "6"
        },
        7 => {
            proof {
                reveal_strlit("7");
            }
            "7"
        },
        8 => {
            proof {
                reveal_strlit("8");
            }
            "8"
        },
        9 => {
            proof {
                reveal_strlit("9");
            }
            "9"
        },
        10 => {
            proof {
                reveal_strlit("a");
            }
            "a"
        },
        11 => {
            proof {
                reveal_strlit("b");
            }
            "b"
        },
        12 => {
            proof {
                reveal_strlit("c");
            }
            "c"
        },
        13 => {
            proof {
                reveal_strlit("d");
            }
            "d"
        },
        14 => {
            proof {
                reveal_strlit("e");
            }
            "e"
        },
        _ => {
            proof {
                reveal_strlit("f");
            }
            "f"
        },
    }
}

/// Appends a number in lower-case hexadecimal, without leading zeros.
pub fn push_hex(out: &mut String, v: &U256)
    ensures
        final(out)@ == old(out)@ + hex_text(v.value() as nat),
    decreases v.value(),
{
    proof {
        v.lemma_value_bound();
    }
    let sixteen = U256::from_words(16, 0, 0, 0);
    let (q, d) = v.div_rem_small(16);
    if v.lt(&sixteen) {
        assert(d == v.value());
        out.append(hex_digit(d));
    } else {
        push_hex(out, &q);
        out.append(hex_digit(d));
    }
    assert(final(out)@ =~= old(out)@ + hex_text(v.value() as nat));
}

/// Appends the two hexadecimal digits of each of the bytes `from..to`.
pub fn push_bytes_hex(out: &mut String, s: &[u8], from: usize, to: usize)
    requires
        from <= to <= s@.len(),
    ensures
        final(out)@ == old(out)@ + bytes_hex(s@.subrange(from as int, to as int)),
{
    let ghost start = out@;
    let ghost part = s@.subrange(from as int, to as int);
    let mut i: usize = from;
    while i < to
        invariant
            from <= i <= to <= s@.len(),
            part == s@.subrange(from as int, to as int),
            out@ == start + bytes_hex(part.take(i - from)),
        decreases to - i,
    {
        let b = s[i];
        out.append(hex_digit((b / 16) as u64));
        out.append(hex_digit((b % 16) as u64));
        assert(part.take(i + 1 - from).drop_last() =~= part.take(i - from));
        assert(part.take(i + 1 - from).last() == b);
        i = i + 1;
        assert(out@ =~= start + bytes_hex(part.take(i - from)));
    }
    assert(part.take(i - from) =~= part);
}

/// The hyphenated text of a UUID.
pub fn uuid_text(b: &[u8; 16]) -> (r: String)
    ensures
        r@ == hyphenated(b@),
{
    let mut out = String::new();
    let s = b.as_slice();
    push_bytes_hex(&mut out, s, 0, 4);
    proof {
        reveal_strlit("-");
    }
    out.append("-");
    push_bytes_hex(&mut out, s, 4, 6);
    out.append("-");
    push_bytes_hex(&mut out, s, 6, 8);
    out.append("-");
    push_bytes_hex(&mut out, s, 8, 10);
    out.append("-");
    push_bytes_hex(&mut out, s, 10, 16);
    assert(out@ =~= hyphenated(b@));
    out
}

} // verus!
