use vstd::prelude::*;
use vstd::utf8::{decode_utf8, encode_utf8, valid_utf8};

verus! {

broadcast use vstd::utf8::group_utf8_lib;

/// Relies on `String::from_utf8`: it succeeds exactly on valid UTF-8, and the string then
/// holds the characters that the bytes encode.
#[verifier::external_body]
pub(crate) fn string_from_utf8(v: Vec<u8>) -> (r: Option<String>)
    ensures
        r is Some <==> valid_utf8(v@),
        r matches Some(s) ==> s@ == decode_utf8(v@),
{
    String::from_utf8(v).ok()
}

pub open spec fn digit(d: u8) -> char {
    (48 + d) as u8 as char
}

/// The decimal text of `n`, without leading zeros.
pub open spec fn decimal(n: u8) -> Seq<char> {
    if n >= 100 {
        seq![digit(n / 100), digit((n / 10) % 10), digit(n % 10)]
    } else if n >= 10 {
        seq![digit(n / 10), digit(n % 10)]
    } else {
        seq![digit(n)]
    }
}

/// Dotted-decimal text of a four-byte IPv4 address, as in `10.0.0.9`.
pub open spec fn ipv4_text(ip: Seq<u8>) -> Seq<char> {
    decimal(ip[0]) + seq!['.'] + decimal(ip[1]) + seq!['.'] + decimal(ip[2]) + seq!['.'] + decimal(ip[3])
}

pub open spec fn is_ascii_text(c: Seq<char>) -> bool {
    forall|i: int| 0 <= i < c.len() ==> (#[trigger] c[i] as u32) < 128
}

pub open spec fn ascii_bytes(c: Seq<char>) -> Seq<u8> {
    c.map_values(|ch: char| ch as u32 as u8)
}

proof fn lemma_ascii_encoding(c: Seq<char>)
    requires
        is_ascii_text(c),
    ensures
        encode_utf8(c) == ascii_bytes(c),
    decreases c.len(),
{
    if c.len() > 0 {
        let x = c[0] as u32;
        assert(x < 128);
        assert((x & 0x7F) == x) by (bit_vector)
            requires
                x < 128,
        ;
        let t = c.drop_first();
        assert forall|i: int| 0 <= i < t.len() implies (#[trigger] t[i] as u32) < 128 by {
            assert(t[i] == c[i + 1]);
        }
        lemma_ascii_encoding(t);
        assert(ascii_bytes(c) =~= seq![x as u8] + ascii_bytes(t));
    } else {
        assert(ascii_bytes(c) =~= Seq::<u8>::empty());
    }
}

/// ASCII bytes decode to the characters they stand for.
proof fn lemma_ascii_decode(c: Seq<char>)
    requires
        is_ascii_text(c),
    ensures
        valid_utf8(ascii_bytes(c)),
        decode_utf8(ascii_bytes(c)) == c,
{
    lemma_ascii_encoding(c);
}

fn push_digit(out: &mut Vec<u8>, d: u8)
    requires
        d < 10,
    ensures
        final(out)@ == old(out)@ + ascii_bytes(seq![digit(d)]),
        (digit(d) as u32) < 128,
{
    out.push(48 + d);
    assert(final(out)@ =~= old(out)@ + ascii_bytes(seq![digit(d)]));
}

fn push_decimal(out: &mut Vec<u8>, n: u8)
    ensures
        final(out)@ == old(out)@ + ascii_bytes(decimal(n)),
        is_ascii_text(decimal(n)),
{
    if n >= 100 {
        push_digit(out, n / 100);
        push_digit(out, (n / 10) % 10);
        push_digit(out, n % 10);
    } else if n >= 10 {
        push_digit(out, n / 10);
        push_digit(out, n % 10);
    } else {
        push_digit(out, n);
    }
    assert(final(out)@ =~= old(out)@ + ascii_bytes(decimal(n)));
}

/// The dotted-decimal text of an IPv4 address.
pub fn ipv4_string(ip: [u8; 4]) -> (r: String)
    ensures
        r@ == ipv4_text(ip@),
{
    let mut b: Vec<u8> = Vec::new();
    push_decimal(&mut b, ip[0]);
    b.push(46u8);
    push_decimal(&mut b, ip[1]);
    b.push(46u8);
    push_decimal(&mut b, ip[2]);
    b.push(46u8);
    push_decimal(&mut b, ip[3]);
    let ghost c = ipv4_text(ip@);
    proof {
        assert(('.' as u32) == 46);
        assert(b@ =~= ascii_bytes(c));
        assert forall|i: int| 0 <= i < c.len() implies (#[trigger] c[i] as u32) < 128 by {
            let d0 = decimal(ip[0]).len();
            let d1 = decimal(ip[1]).len();
            let d2 = decimal(ip[2]).len();
            if i < d0 {
                assert(c[i] == decimal(ip[0])[i]);
            } else if i < d0 + 1 + d1 && i > d0 {
                assert(c[i] == decimal(ip[1])[i - d0 - 1]);
            } else if i < d0 + d1 + 2 + d2 && i > d0 + d1 + 1 {
                assert(c[i] == decimal(ip[2])[i - d0 - d1 - 2]);
            } else if i > d0 + d1 + d2 + 2 {
                assert(c[i] == decimal(ip[3])[i - d0 - d1 - d2 - 3]);
            }
        }
        lemma_ascii_decode(c);
    }
    match string_from_utf8(b) {
        Some(s) => s,
        None => {
            proof {
                assert(false);
            }
            String::new()
        },
    }
}

} // verus!
