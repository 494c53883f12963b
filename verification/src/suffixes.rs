//! The suffix walker: the chain of parent names of a domain name, from the
//! name itself down to the shortest suffix without a dot.

use vstd::prelude::*;
use vstd::string::StringSliceAdditionalSpecFns;
use vstd::utf8::decode_utf8;
use vstd::utf8::decode_utf8_encode_utf8;
use vstd::utf8::decode_utf8_split;
use vstd::utf8::encode_scalar;
use vstd::utf8::encode_utf8;
use vstd::utf8::encode_utf8_decode_utf8;
use vstd::utf8::encode_utf8_valid_utf8;
use vstd::utf8::has_width_1_encoding;
use vstd::utf8::is_char_boundary_iff_not_is_continuation_byte;
use vstd::utf8::is_continuation_byte;
use vstd::utf8::is_leading_byte_width_1;
use vstd::utf8::leading_byte_width_1;
use vstd::utf8::valid_utf8;
use vstd::utf8::valid_utf8_split;

use crate::model::dot;
use crate::model::first_dot;
use crate::model::lemma_first_dot;
use crate::model::lemma_model_nonempty;
use crate::model::lemma_suffixes_split;
use crate::model::suffixes_of;
use crate::scan::find_dot;
use crate::scan::lemma_boundary_after_ascii;

verus! {

/// The parent names of `name`, starting with `name` itself: each further
/// element is what stands after the first `.` of the element before it, and
/// the sequence ends with the first element that has no `.` left.
pub fn iter_parent_names<'a>(name: &'a str) -> (r: Vec<&'a str>)
    ensures
        r@.len() == suffixes_of(name.spec_bytes()).len(),
        forall|k: int|
            0 <= k < r@.len() ==> (#[trigger] r@[k]).spec_bytes() == suffixes_of(
                name.spec_bytes(),
            )[k],
        forall|k: int|
            0 <= k < r@.len() ==> (#[trigger] r@[k])@ == decode_utf8(
                suffixes_of(name.spec_bytes())[k],
            ),
{
    let ghost nb = name.spec_bytes();
    let ghost sfx = suffixes_of(nb);
    proof {
        encode_utf8_valid_utf8(name@);
        lemma_model_nonempty(nb);
        assert(sfx.skip(0) =~= sfx);
    }
    let mut out: Vec<&'a str> = Vec::new();
    let mut rest: &'a str = name;
    let ghost mut j: int = 0;
    loop
        invariant_except_break
            0 <= j < sfx.len(),
            nb == name.spec_bytes(),
            sfx == suffixes_of(nb),
            valid_utf8(rest.spec_bytes()),
            suffixes_of(rest.spec_bytes()) == sfx.skip(j),
            out@.len() == j,
            forall|k: int| 0 <= k < j ==> (#[trigger] out@[k]).spec_bytes() == sfx[k],
        ensures
            out@.len() == sfx.len(),
            forall|k: int| 0 <= k < sfx.len() ==> (#[trigger] out@[k]).spec_bytes() == sfx[k],
        decreases rest.spec_bytes().len(),
    {
        let ghost rb = rest.spec_bytes();
        proof {
            lemma_model_nonempty(rb);
            assert(sfx[j] == sfx.skip(j)[0]);
            assert(rb == suffixes_of(rb)[0]);
        }
        out.push(rest);
        let b = rest.as_bytes();
        let i = find_dot(b);
        let n = b.len();
        proof {
            lemma_suffixes_split(rb, i as int);
        }
        if i == n {
            proof {
                assert(sfx.skip(j).len() == 1);
                assert(j + 1 == sfx.len());
            }
            break;
        }
        proof {
            assert(!is_continuation_byte(rb[i as int]));
            is_char_boundary_iff_not_is_continuation_byte(rb, i as int);
            assert(is_leading_byte_width_1(rb[i as int]));
            lemma_boundary_after_ascii(rb, i as int);
            valid_utf8_split(rb, i as int + 1);
        }
        let (_, tail) = rest.split_at(i + 1);
        proof {
            assert(tail.spec_bytes() =~= rb.skip(i as int + 1));
            assert(suffixes_of(tail.spec_bytes()) =~= sfx.skip(j + 1)) by {
                assert(suffixes_of(tail.spec_bytes()) == suffixes_of(rb.skip(i as int + 1)));
                assert(suffixes_of(rb) == seq![rb] + suffixes_of(rb.skip(i as int + 1)));
                assert(suffixes_of(rb.skip(i as int + 1)) =~= suffixes_of(rb).skip(1));
                assert(suffixes_of(rb).skip(1) =~= sfx.skip(j).skip(1));
                assert(sfx.skip(j).skip(1) =~= sfx.skip(j + 1));
            }
        }
        rest = tail;
        proof {
            j = j + 1;
        }
    }
    proof {
        assert forall|k: int| 0 <= k < out@.len() implies (#[trigger] out@[k])@ == decode_utf8(
            sfx[k],
        ) by {
            encode_utf8_decode_utf8(out@[k]@);
        }
    }
    out
}

/// A character sequence with a `.` in it encodes to bytes with a `.` byte.
proof fn lemma_dot_char_gives_dot_byte(chars: Seq<char>, i: int)
    requires
        0 <= i < chars.len(),
        chars[i] == '.',
    ensures
        exists|k: int| 0 <= k < encode_utf8(chars).len() && encode_utf8(chars)[k] == dot(),
    decreases i,
{
    if i == 0 {
        assert(chars[0] as u32 == 46);
        assert(has_width_1_encoding(46u32));
        assert(46u32 & 0x7F == 46u32) by (bit_vector);
        assert(leading_byte_width_1(46u32) == 46u8);
        assert(encode_scalar(chars[0] as u32) =~= seq![dot()]);
        assert(encode_utf8(chars)[0] == dot());
    } else {
        lemma_dot_char_gives_dot_byte(chars.drop_first(), i - 1);
        let rest = encode_utf8(chars.drop_first());
        let w = encode_scalar(chars[0] as u32).len() as int;
        let k = choose|k: int| 0 <= k < rest.len() && rest[k] == dot();
        assert(encode_utf8(chars)[w + k] == dot());
        assert(0 <= w + k < encode_utf8(chars).len());
    }
}

/// The chain law of parent suffixes, at the character level: each element of
/// the chain is a well-formed name that decodes to strictly fewer characters
/// than the one before it, and the last one decodes to no `.` character.
pub proof fn lemma_suffix_chain_chars(s: Seq<u8>)
    requires
        valid_utf8(s),
    ensures
        forall|k: int| 0 <= k < suffixes_of(s).len() ==> valid_utf8(#[trigger] suffixes_of(s)[k]),
        forall|k: int|
            1 <= k < suffixes_of(s).len() ==> decode_utf8(#[trigger] suffixes_of(s)[k]).len()
                < decode_utf8(suffixes_of(s)[k - 1]).len(),
        forall|k: int|
            0 <= k < decode_utf8(suffixes_of(s).last()).len() ==> #[trigger] decode_utf8(
                suffixes_of(s).last(),
            )[k] != '.',
    decreases s.len(),
{
    lemma_model_nonempty(s);
    let d = first_dot(s);
    lemma_first_dot(s);
    lemma_suffixes_split(s, d);
    if d == s.len() {
        assert(suffixes_of(s) =~~= seq![s]);
        decode_utf8_encode_utf8(s);
        assert forall|k: int| 0 <= k < decode_utf8(s).len() implies #[trigger] decode_utf8(
            s,
        )[k] != '.' by {
            if decode_utf8(s)[k] == '.' {
                lemma_dot_char_gives_dot_byte(decode_utf8(s), k);
            }
        }
    } else {
        let tail = s.skip(d + 1);
        assert(!is_continuation_byte(s[d]));
        is_char_boundary_iff_not_is_continuation_byte(s, d);
        assert(is_leading_byte_width_1(s[d]));
        lemma_boundary_after_ascii(s, d);
        valid_utf8_split(s, d + 1);
        assert(valid_utf8(tail));
        lemma_suffix_chain_chars(tail);
        lemma_model_nonempty(tail);
        decode_utf8_split(s, d + 1);
        let head = s.subrange(0, d + 1);
        assert(decode_utf8(head).len() >= 1);
        assert(decode_utf8(s).len() == decode_utf8(head).len() + decode_utf8(tail).len());
        let ss = suffixes_of(s);
        let st = suffixes_of(tail);
        assert(ss == seq![s] + st);
        assert(ss.last() == st.last());
        assert forall|k: int| 0 <= k < ss.len() implies valid_utf8(#[trigger] ss[k]) by {
            if k > 0 {
                assert(ss[k] == st[k - 1]);
            }
        }
        assert forall|k: int| 1 <= k < ss.len() implies decode_utf8(#[trigger] ss[k]).len()
            < decode_utf8(ss[k - 1]).len() by {
            if k == 1 {
                assert(ss[1] == st[0] && st[0] == tail);
            } else {
                assert(ss[k] == st[k - 1]);
                assert(ss[k - 1] == st[k - 2]);
            }
        }
    }
}

} // verus!
