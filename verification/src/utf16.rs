//! UTF-16 transcoding of filenames.
//!
//! On the wire a filename is a sequence of 16-bit code units. A character
//! below `0x10000` is one unit; any other character is a surrogate pair:
//! a high surrogate in `0xD800..=0xDBFF` carrying the upper ten bits of
//! the offset from `0x10000`, then a low surrogate in `0xDC00..=0xDFFF`
//! carrying the lower ten bits.

use vstd::prelude::*;

verus! {

/// True for code units reserved as the first half of a surrogate pair.
pub open spec fn is_high_surrogate(u: u16) -> bool {
    0xD800 <= u <= 0xDBFF
}

/// True for code units reserved as the second half of a surrogate pair.
pub open spec fn is_low_surrogate(u: u16) -> bool {
    0xDC00 <= u <= 0xDFFF
}

/// The scalar value held by a surrogate pair.
pub open spec fn combine_surrogates(hi: u16, lo: u16) -> u32
    recommends
        is_high_surrogate(hi),
        is_low_surrogate(lo),
{
    (0x10000 + (hi - 0xD800) * 0x400 + (lo - 0xDC00)) as u32
}

/// The UTF-16 code units that encode one character.
pub open spec fn char_utf16_units(c: char) -> Seq<u16> {
    let v = c as u32;
    if v < 0x10000 {
        seq![v as u16]
    } else {
        seq![(0xD800 + (v - 0x10000) / 0x400) as u16, (0xDC00 + (v - 0x10000) % 0x400) as u16]
    }
}

/// The UTF-16 encoding of a character sequence.
pub open spec fn utf16_encode(s: Seq<char>) -> Seq<u16>
    decreases s.len(),
{
    if s.len() == 0 {
        Seq::empty()
    } else {
        char_utf16_units(s[0]) + utf16_encode(s.drop_first())
    }
}

/// The characters denoted by a UTF-16 code unit sequence, or `None` where a
/// surrogate stands alone or out of order.
pub open spec fn utf16_decode(us: Seq<u16>) -> Option<Seq<char>>
    decreases us.len(),
{
    if us.len() == 0 {
        Some(Seq::empty())
    } else if !is_high_surrogate(us[0]) && !is_low_surrogate(us[0]) {
        match utf16_decode(us.drop_first()) {
            Some(rest) => Some(seq![(us[0] as u32) as char] + rest),
            None => None,
        }
    } else if is_high_surrogate(us[0]) && us.len() >= 2 && is_low_surrogate(us[1]) {
        match utf16_decode(us.skip(2)) {
            Some(rest) => Some(seq![combine_surrogates(us[0], us[1]) as char] + rest),
            None => None,
        }
    } else {
        None
    }
}

/// Relies on char::from_u32: `Some` exactly for Unicode scalar values, that
/// is all of `0..=0x10FFFF` except the surrogate range `0xD800..=0xDFFF`.
#[verifier::external_body]
fn char_from_u32(v: u32) -> (r: Option<char>)
    ensures
        r is Some <==> (v < 0xD800 || (0xE000 <= v <= 0x10FFFF)),
        r is Some ==> r.unwrap() as u32 == v,
{
    char::from_u32(v)
}

/// Appending one character extends the encoding by that character's units.
pub proof fn lemma_utf16_encode_push(s: Seq<char>, c: char)
    ensures
        utf16_encode(s.push(c)) == utf16_encode(s) + char_utf16_units(c),
    decreases s.len(),
{
    if s.len() == 0 {
        assert(s.push(c).drop_first() =~= Seq::<char>::empty());
        assert(utf16_encode(Seq::<char>::empty()) == Seq::<u16>::empty());
        assert(utf16_encode(s.push(c)) == char_utf16_units(c) + Seq::<u16>::empty());
        assert(utf16_encode(s.push(c)) =~= utf16_encode(s) + char_utf16_units(c));
    } else {
        assert(s.push(c).drop_first() =~= s.drop_first().push(c));
        lemma_utf16_encode_push(s.drop_first(), c);
        assert(utf16_encode(s.push(c)) =~= utf16_encode(s) + char_utf16_units(c));
    }
}

/// Law: decoding an encoded character sequence yields it back exactly, for
/// every character sequence; filenames survive the wire unchanged.
pub proof fn lemma_utf16_round_trip(s: Seq<char>)
    ensures
        utf16_decode(utf16_encode(s)) == Some(s),
    decreases s.len(),
{
    if s.len() == 0 {
        assert(utf16_encode(s) == Seq::<u16>::empty());
        assert(utf16_decode(Seq::<u16>::empty()) == Some(Seq::<char>::empty()));
        assert(s =~= Seq::<char>::empty());
    } else {
        let c = s[0];
        let rest = s.drop_first();
        lemma_utf16_round_trip(rest);
        vstd::utf8::char_is_scalar(c);
        let v = c as u32;
        let us = utf16_encode(s);
        if v < 0x10000 {
            let u = v as u16;
            assert(us == seq![u] + utf16_encode(rest));
            assert(us.drop_first() =~= utf16_encode(rest));
            vstd::utf8::char_u32_cast(c, v);
            assert((us[0] as u32) as char == c);
            assert(seq![c] + rest =~= s);
        } else {
            let off = (v - 0x10000) as u32;
            assert(off <= 0xFFFFF);
            vstd::arithmetic::div_mod::lemma_fundamental_div_mod(off as int, 0x400);
            assert(0 <= off as int % 0x400 < 0x400) by {
                vstd::arithmetic::div_mod::lemma_mod_bound(off as int, 0x400);
            }
            assert(0 <= off as int / 0x400 <= 0x3FF) by {
                vstd::arithmetic::div_mod::lemma_div_nonincreasing(off as int, 0x400);
                vstd::arithmetic::div_mod::lemma_div_pos_is_pos(off as int, 0x400);
            }
            let hi = (0xD800 + off / 0x400) as u16;
            let lo = (0xDC00 + off % 0x400) as u16;
            assert(us == seq![hi, lo] + utf16_encode(rest));
            assert(us.len() >= 2 && us[0] == hi && us[1] == lo);
            assert(is_high_surrogate(hi));
            assert(is_low_surrogate(lo));
            assert(us.skip(2) =~= utf16_encode(rest));
            assert(combine_surrogates(hi, lo) == v);
            vstd::utf8::char_u32_cast(c, v);
            assert(combine_surrogates(us[0], us[1]) as char == c);
            assert(seq![c] + rest =~= s);
        }
    }
}

/// Encode a character sequence as UTF-16 code units.
pub fn encode_utf16(name: &Vec<char>) -> (r: Vec<u16>)
    ensures
        r@ == utf16_encode(name@),
{
    let mut out: Vec<u16> = Vec::new();
    let mut i: usize = 0;
    while i < name.len()
        invariant
            i <= name.len(),
            out@ == utf16_encode(name@.take(i as int)),
        decreases name.len() - i,
    {
        let c = name[i];
        let v: u32 = c as u32;
        proof {
            vstd::utf8::char_is_scalar(c);
        }
        if v < 0x10000 {
            out.push(v as u16);
        } else {
            out.push((0xD800 + (v - 0x10000) / 0x400) as u16);
            out.push((0xDC00 + (v - 0x10000) % 0x400) as u16);
        }
        proof {
            lemma_utf16_encode_push(name@.take(i as int), c);
            assert(name@.take(i + 1) =~= name@.take(i as int).push(c));
            assert(out@ =~= utf16_encode(name@.take(i as int)) + char_utf16_units(c));
        }
        i = i + 1;
    }
    proof {
        assert(name@.take(name@.len() as int) =~= name@);
    }
    out
}

/// Decode UTF-16 code units back into characters; `None` on a lone or
/// misplaced surrogate.
pub fn decode_utf16(units: &Vec<u16>) -> (r: Option<Vec<char>>)
    ensures
        r is Some <==> utf16_decode(units@) is Some,
        r is Some ==> Some(r.unwrap()@) == utf16_decode(units@),
{
    let ghost full = units@;
    let mut out: Vec<char> = Vec::new();
    let mut i: usize = 0;
    proof {
        assert(full.skip(0) =~= full);
        if utf16_decode(full) is Some {
            assert(Seq::<char>::empty() + utf16_decode(full).unwrap() =~= utf16_decode(
                full,
            ).unwrap());
        }
    }
    while i < units.len()
        invariant
            i <= units.len(),
            full == units@,
            utf16_decode(full) == match utf16_decode(full.skip(i as int)) {
                Some(rest) => Some(out@ + rest),
                None => None::<Seq<char>>,
            },
        decreases units.len() - i,
    {
        let ghost tail = full.skip(i as int);
        let ghost prev = out@;
        let u = units[i];
        if !(0xD800 <= u && u <= 0xDFFF) {
            let c = match char_from_u32(u as u32) {
                Some(c) => c,
                None => {
                    proof {
                        assert(false);
                    }
                    vstd::pervasive::unreached()
                },
            };
            out.push(c);
            proof {
                vstd::utf8::char_u32_cast(c, u as u32);
                assert(tail.drop_first() =~= full.skip(i + 1));
                if utf16_decode(full.skip(i + 1)) is Some {
                    let rest = utf16_decode(full.skip(i + 1)).unwrap();
                    assert(prev + (seq![c] + rest) =~= out@ + rest);
                }
            }
            i = i + 1;
        } else if u <= 0xDBFF && i + 1 < units.len() && 0xDC00 <= units[i + 1] && units[i + 1]
            <= 0xDFFF {
            let lo = units[i + 1];
            let v: u32 = 0x10000 + ((u - 0xD800) as u32) * 0x400 + ((lo - 0xDC00) as u32);
            let c = match char_from_u32(v) {
                Some(c) => c,
                None => {
                    proof {
                        assert(false);
                    }
                    vstd::pervasive::unreached()
                },
            };
            out.push(c);
            proof {
                vstd::utf8::char_u32_cast(c, v);
                assert(tail[1] == lo);
                assert(v == combine_surrogates(tail[0], tail[1]));
                assert(tail.skip(2) =~= full.skip(i + 2));
                if utf16_decode(full.skip(i + 2)) is Some {
                    let rest = utf16_decode(full.skip(i + 2)).unwrap();
                    assert(prev + (seq![c] + rest) =~= out@ + rest);
                }
            }
            i = i + 2;
        } else {
            proof {
                assert(utf16_decode(tail) is None);
            }
            return None;
        }
    }
    proof {
        assert(full.skip(i as int) =~= Seq::<u16>::empty());
        assert(out@ + Seq::<char>::empty() =~= out@);
    }
    Some(out)
}

} // verus!
