//! The wire-format encoder: a dot-separated name becomes a byte sequence of
//! length-prefixed labels closed by the zero byte of the root label.

use vstd::prelude::*;
use vstd::string::StringExecFns;
use vstd::string::StringSliceAdditionalSpecFns;
use vstd::utf8::decode_utf8;
use vstd::utf8::encode_utf8;
use vstd::utf8::encode_utf8_decode_utf8;
use vstd::utf8::encode_utf8_valid_utf8;
use vstd::utf8::is_char_boundary_iff_not_is_continuation_byte;
use vstd::utf8::is_char_boundary_start_end_of_seq;
use vstd::utf8::is_continuation_byte;
use vstd::utf8::is_leading_byte_width_1;
use vstd::utf8::valid_utf8;
use vstd::utf8::valid_utf8_split;

use crate::model::dot;
use crate::model::encode_labels;
use crate::model::encoded_label;
use crate::model::first_long_label;
use crate::model::labels_fit;
use crate::model::labels_of;
use crate::model::wire_format;
use crate::model::lemma_encode_labels_snoc;
use crate::model::lemma_first_long_label_at;
use crate::model::lemma_labels_split;
use crate::model::lemma_model_nonempty;
use crate::scan::find_dot;
use crate::scan::lemma_boundary_after_ascii;

verus! {

/// The one failure of `dns_encode`: some label of the name is longer than 63
/// bytes. It carries the text of the first such label.
#[derive(Debug)]
pub struct LabelTooLong {
    pub label: String,
}

impl LabelTooLong {
    /// The diagnostic line the failure is reported as.
    pub fn message(&self) -> (r: String)
        ensures
            r@ == "Label is too long: "@ + self.label@,
    {
        let mut m = "Label is too long: ".to_owned();
        m.append(self.label.as_str());
        m
    }
}

/// Encodes a domain name into the DNS wire format: each label (substring
/// between `.` bytes) is prefixed with its byte length, and the encoding is
/// closed with the zero-length root label.
///
/// Succeeds exactly when every label is at most 63 bytes long, and then
/// returns the full wire format of the name. Otherwise it fails with
/// [`LabelTooLong`] naming the first label, left to right, that is over the
/// limit.
pub fn dns_encode(domain: &str) -> (r: Result<Vec<u8>, LabelTooLong>)
    ensures
        r is Ok <==> labels_fit(labels_of(domain.spec_bytes())),
        r is Ok ==> r->Ok_0@ == wire_format(domain.spec_bytes()),
        r is Err ==> encode_utf8(r->Err_0.label@) == labels_of(domain.spec_bytes())[
            first_long_label(labels_of(domain.spec_bytes()))
        ],
        r is Err ==> r->Err_0.label@ == decode_utf8(
            labels_of(domain.spec_bytes())[first_long_label(labels_of(domain.spec_bytes()))],
        ),
{
    let ghost dom = domain.spec_bytes();
    let ghost ls = labels_of(dom);
    proof {
        encode_utf8_valid_utf8(domain@);
        lemma_model_nonempty(dom);
        assert(ls.skip(0) =~= ls);
        assert(ls.take(0) =~= Seq::<Seq<u8>>::empty());
    }
    let mut encoded: Vec<u8> = Vec::new();
    let mut rest: &str = domain;
    let ghost mut j: int = 0;
    loop
        invariant_except_break
            0 <= j < ls.len(),
            dom == domain.spec_bytes(),
            ls == labels_of(dom),
            valid_utf8(rest.spec_bytes()),
            labels_of(rest.spec_bytes()) == ls.skip(j),
            forall|k: int| 0 <= k < j ==> (#[trigger] ls[k]).len() <= 63,
            encoded@ == encode_labels(ls.take(j)),
        ensures
            labels_fit(ls),
            encoded@ == encode_labels(ls),
        decreases rest.spec_bytes().len(),
    {
        let ghost rb = rest.spec_bytes();
        let b = rest.as_bytes();
        let i = find_dot(b);
        let n = b.len();
        proof {
            lemma_labels_split(rb, i as int);
            assert(ls[j] == ls.skip(j)[0]);
            if i < n {
                assert(ls[j] == rb.take(i as int));
            } else {
                assert(ls[j] == rb);
            }
            assert(ls[j].len() == i as int);
        }
        if i > 63 {
            proof {
                if i < n {
                    assert(!is_continuation_byte(rb[i as int]));
                    is_char_boundary_iff_not_is_continuation_byte(rb, i as int);
                } else {
                    is_char_boundary_start_end_of_seq(rb);
                }
            }
            let (label, _) = rest.split_at(i);
            proof {
                assert(label.spec_bytes() =~= ls[j]);
                lemma_first_long_label_at(ls, j);
                encode_utf8_decode_utf8(label@);
            }
            return Err(LabelTooLong { label: label.to_owned() });
        }
        encoded.push(i as u8);
        let ghost pre = encoded@;
        let mut k: usize = 0;
        proof {
            assert(pre + rb.subrange(0, 0) =~= pre);
        }
        while k < i
            invariant
                k <= i,
                i <= b@.len(),
                b@ == rb,
                encoded@ == pre + rb.subrange(0, k as int),
            decreases i - k,
        {
            let byte = b[k];
            proof {
                assert(pre + rb.subrange(0, (k + 1) as int) =~= (pre + rb.subrange(
                    0,
                    k as int,
                )).push(rb[k as int]));
            }
            encoded.push(byte);
            k = k + 1;
        }
        proof {
            assert(encoded@ =~= encode_labels(ls.take(j)) + encoded_label(ls[j]));
            assert(ls.take(j + 1) =~= ls.take(j).push(ls[j]));
            lemma_encode_labels_snoc(ls.take(j), ls[j]);
            assert(encoded@ == encode_labels(ls.take(j + 1)));
        }
        if i == n {
            proof {
                assert(ls.skip(j).len() == 1);
                assert(j + 1 == ls.len());
                assert(ls.take(j + 1) =~= ls);
                assert forall|k2: int| 0 <= k2 < ls.len() implies (#[trigger] ls[k2]).len()
                    <= 63 by {
                    if k2 == j {
                        assert(ls[j].len() == i as int);
                    }
                }
            }
            break;
        }
        proof {
            assert(!is_continuation_byte(rb[i as int]));
            is_char_boundary_iff_not_is_continuation_byte(rb, i as int);
            assert(is_leading_byte_width_1(rb[i as int]));
            lemma_boundary_after_ascii(rb, i as int);
            valid_utf8_split(rb, i as int + 1);
        }
        let (_, tail) = rest.split_at(i + 1);
        proof {
            assert(tail.spec_bytes() =~= rb.skip(i as int + 1));
            assert(labels_of(rb) == seq![rb.take(i as int)] + labels_of(rb.skip(i as int + 1)));
            assert(labels_of(tail.spec_bytes()) =~= ls.skip(j + 1)) by {
                assert(labels_of(tail.spec_bytes()) == labels_of(rb.skip(i as int + 1)));
                assert(labels_of(rb.skip(i as int + 1)) =~= labels_of(rb).skip(1));
                assert(labels_of(rb).skip(1) =~= ls.skip(j).skip(1));
                assert(ls.skip(j).skip(1) =~= ls.skip(j + 1));
            }
        }
        rest = tail;
        proof {
            j = j + 1;
        }
    }
    encoded.push(0);
    proof {
        assert(encoded@ =~= wire_format(dom));
    }
    Ok(encoded)
}

} // verus!
