//! Helpers for text shown to people: shortening a long string for display,
//! and cleaning a revert reason before it is surfaced.

use vstd::prelude::*;
use vstd::string::is_ascii;
use vstd::string::is_ascii_spec_bytes;
use vstd::string::StrSliceExecFns;
use vstd::string::StringExecFns;
use vstd::string::StringSliceAdditionalSpecFns;
use vstd::utf8::encode_utf8;
use vstd::utf8::encode_utf8_valid_utf8;
use vstd::utf8::is_ascii_chars;
use vstd::utf8::is_ascii_chars_encode_utf8;
use vstd::utf8::is_char_boundary;
use vstd::utf8::is_char_boundary_iff_not_is_continuation_byte;
use vstd::utf8::is_char_boundary_start_end_of_seq;
use vstd::utf8::is_continuation_byte;

use crate::model::dot;
use crate::scan::lemma_encode_utf8_concat;

verus! {

/// True of the characters that Rust's `char::is_whitespace` accepts: the
/// Unicode `White_Space` set.
pub open spec fn is_space_char(c: char) -> bool {
    let u = c as u32;
    ||| u == 0x20
    ||| u == 0x09
    ||| u == 0x0a
    ||| u == 0x0b
    ||| u == 0x0c
    ||| u == 0x0d
    ||| u == 0x85
    ||| u == 0xa0
    ||| u == 0x1680
    ||| (0x2000 <= u && u <= 0x200a)
    ||| u == 0x2028
    ||| u == 0x2029
    ||| u == 0x202f
    ||| u == 0x205f
    ||| u == 0x3000
}

fn is_space(c: char) -> (b: bool)
    ensures
        b == is_space_char(c),
{
    let u = c as u32;
    u == 0x20 || u == 0x09 || u == 0x0a || u == 0x0b || u == 0x0c || u == 0x0d || u == 0x85 || u
        == 0xa0 || u == 0x1680 || (0x2000 <= u && u <= 0x200a) || u == 0x2028 || u == 0x2029 || u
        == 0x202f || u == 0x205f || u == 0x3000
}

/// The word that a node puts in front of a revert reason.
pub open spec fn reverted_chars() -> Seq<char> {
    seq!['R', 'e', 'v', 'e', 'r', 't', 'e', 'd']
}

/// `s` with every leading copy of the word `Reverted` removed.
pub open spec fn strip_reverted(s: Seq<char>) -> Seq<char>
    decreases s.len(),
{
    if s.len() >= 8 && s.take(8) == reverted_chars() {
        strip_reverted(s.skip(8))
    } else {
        s
    }
}

/// `s` without its leading whitespace.
pub open spec fn trim_start_spec(s: Seq<char>) -> Seq<char>
    decreases s.len(),
{
    if s.len() > 0 && is_space_char(s[0]) {
        trim_start_spec(s.drop_first())
    } else {
        s
    }
}

/// `s` without its trailing whitespace.
pub open spec fn trim_end_spec(s: Seq<char>) -> Seq<char>
    decreases s.len(),
{
    if s.len() > 0 && is_space_char(s.last()) {
        trim_end_spec(s.drop_last())
    } else {
        s
    }
}

/// `s` without leading and trailing whitespace.
pub open spec fn trim_spec(s: Seq<char>) -> Seq<char> {
    trim_end_spec(trim_start_spec(s))
}

fn reverted_char(k: usize) -> (c: char)
    requires
        k < 8,
    ensures
        c == reverted_chars()[k as int],
{
    if k == 0 {
        'R'
    } else if k == 1 {
        'e'
    } else if k == 2 {
        'v'
    } else if k == 3 {
        'e'
    } else if k == 4 {
        'r'
    } else if k == 5 {
        't'
    } else if k == 6 {
        'e'
    } else {
        'd'
    }
}

fn has_reverted_at(s: &str, pos: usize) -> (b: bool)
    requires
        pos as int + 8 <= s@.len(),
        s@.len() <= usize::MAX,
    ensures
        b == (s@.subrange(pos as int, pos as int + 8) == reverted_chars()),
{
    let ghost sub = s@.subrange(pos as int, pos as int + 8);
    let mut k: usize = 0;
    while k < 8
        invariant
            pos as int + 8 <= s@.len(),
            s@.len() <= usize::MAX,
            sub == s@.subrange(pos as int, pos as int + 8),
            k <= 8,
            forall|t: int| 0 <= t < k ==> s@[pos as int + t] == reverted_chars()[t],
        decreases 8 - k,
    {
        let c = s.get_char(pos + k);
        let want = reverted_char(k);
        if c != want {
            proof {
                assert(sub[k as int] == s@[pos as int + k as int]);
            }
            return false;
        }
        k = k + 1;
    }
    proof {
        assert(sub =~= reverted_chars());
    }
    true
}

/// Shortens a string for display: a string of fewer than `2 * side + 3`
/// bytes is returned unchanged; a longer one is cut to its first `side`
/// bytes, a `..` separator, and its last `side` bytes. The two cuts must
/// fall on character boundaries; of an ASCII string they always do.
pub fn truncate_str(src: &str, side: usize) -> (r: String)
    requires
        2 * (side as int) + 3 <= src.spec_bytes().len() ==> is_ascii(src) || (is_char_boundary(
            src.spec_bytes(),
            side as int,
        ) && is_char_boundary(src.spec_bytes(), src.spec_bytes().len() - side as int)),
    ensures
        src.spec_bytes().len() < 2 * (side as int) + 3 ==> r@ == src@,
        2 * (side as int) + 3 <= src.spec_bytes().len() ==> encode_utf8(r@) == src.spec_bytes().take(
            side as int,
        ) + seq![dot(), dot()] + src.spec_bytes().skip(src.spec_bytes().len() - side as int),
{
    let bytes = src.as_bytes();
    let n = bytes.len();
    if n < 3 || (n - 3) / 2 < side {
        proof {
            assert(src.spec_bytes().len() < 2 * (side as int) + 3);
        }
        return src.to_owned();
    }
    proof {
        assert(2 * (side as int) + 3 <= src.spec_bytes().len());
        encode_utf8_valid_utf8(src@);
        let sb = src.spec_bytes();
        if is_ascii(src) {
            is_ascii_spec_bytes(src);
            assert(sb =~= Seq::new(src@.len(), |k: int| src@[k] as u8));
            assert(src@[side as int] <= '\u{7f}');
            assert(!is_continuation_byte(sb[side as int]));
            is_char_boundary_iff_not_is_continuation_byte(sb, side as int);
            if side == 0 {
                is_char_boundary_start_end_of_seq(sb);
            } else {
                let q = sb.len() - side as int;
                assert(src@[q] <= '\u{7f}');
                assert(!is_continuation_byte(sb[q]));
                is_char_boundary_iff_not_is_continuation_byte(sb, q);
            }
        }
    }
    let (first, _) = src.split_at(side);
    let (_, last) = src.split_at(n - side);
    let mut out = first.to_owned();
    out.append("..");
    out.append(last);
    proof {
        lemma_encode_utf8_concat(first@ + ".."@, last@);
        lemma_encode_utf8_concat(first@, ".."@);
        reveal_strlit("..");
        assert(is_ascii_chars(".."@));
        is_ascii_chars_encode_utf8(".."@);
        assert(encode_utf8(".."@) =~= seq![dot(), dot()]);
        assert(encode_utf8(out@) =~= src.spec_bytes().take(side as int) + seq![dot(), dot()]
            + src.spec_bytes().skip(src.spec_bytes().len() - side as int));
    }
    out
}

/// Cleans a revert reason from a node: drops every leading copy of the word
/// `Reverted`, then the surrounding whitespace.
pub fn sanitaze_error_data_from_rpc(data: String) -> (r: String)
    ensures
        r@ == trim_spec(strip_reverted(data@)),
{
    let s = data.as_str();
    let m = s.unicode_len();
    let mut start: usize = 0;
    proof {
        assert(data@.skip(0) =~= data@);
    }
    while m - start >= 8 && has_reverted_at(s, start)
        invariant
            s@ == data@,
            m as int == data@.len(),
            0 <= start <= m,
            strip_reverted(data@) == strip_reverted(data@.skip(start as int)),
        decreases m - start,
    {
        proof {
            let t = data@.skip(start as int);
            assert(t.take(8) =~= data@.subrange(start as int, start as int + 8));
            assert(strip_reverted(t) == strip_reverted(t.skip(8)));
            assert(t.skip(8) =~= data@.skip(start as int + 8));
        }
        start = start + 8;
    }
    proof {
        let t = data@.skip(start as int);
        if t.len() >= 8 {
            assert(t.take(8) =~= data@.subrange(start as int, start as int + 8));
        }
        assert(strip_reverted(t) == t);
        assert(t =~= data@.subrange(start as int, m as int));
    }
    let mut lo: usize = start;
    let mut hi: usize = m;
    while lo < hi && is_space(s.get_char(lo))
        invariant
            s@ == data@,
            m as int == data@.len(),
            start <= lo <= hi,
            hi == m,
            trim_start_spec(data@.subrange(start as int, m as int)) == trim_start_spec(
                data@.subrange(lo as int, m as int),
            ),
        decreases hi - lo,
    {
        proof {
            let v = data@.subrange(lo as int, m as int);
            assert(v[0] == data@[lo as int]);
            assert(v.drop_first() =~= data@.subrange(lo as int + 1, m as int));
        }
        lo = lo + 1;
    }
    proof {
        let v = data@.subrange(lo as int, m as int);
        assert(trim_start_spec(v) == v);
    }
    while hi > lo && is_space(s.get_char(hi - 1))
        invariant
            s@ == data@,
            m as int == data@.len(),
            start <= lo <= hi <= m,
            trim_end_spec(data@.subrange(lo as int, m as int)) == trim_end_spec(
                data@.subrange(lo as int, hi as int),
            ),
        decreases hi - lo,
    {
        proof {
            let v = data@.subrange(lo as int, hi as int);
            assert(v.last() == data@[hi as int - 1]);
            assert(v.drop_last() =~= data@.subrange(lo as int, hi as int - 1));
        }
        hi = hi - 1;
    }
    proof {
        let v = data@.subrange(lo as int, hi as int);
        assert(trim_end_spec(v) == v);
    }
    s.substring_char(lo, hi).to_owned()
}

} // verus!
