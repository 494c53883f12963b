//! The mathematical model of domain names: labels, the wire format, and the
//! chain of parent suffixes, all over byte sequences.

use vstd::prelude::*;

verus! {

/// The byte that separates labels in a textual domain name: ASCII `.`.
pub open spec fn dot() -> u8 {
    46
}

/// The labels of a name: the runs of bytes between `.` bytes, in order.
/// An empty name has one empty label; each `.` byte opens a new label.
pub open spec fn labels_of(s: Seq<u8>) -> Seq<Seq<u8>>
    decreases s.len(),
{
    if s.len() == 0 {
        seq![Seq::<u8>::empty()]
    } else if s[0] == dot() {
        seq![Seq::<u8>::empty()] + labels_of(s.drop_first())
    } else {
        let rest = labels_of(s.drop_first());
        seq![seq![s[0]] + rest.first()] + rest.drop_first()
    }
}

/// The wire form of one label: its length in one byte, then its bytes.
pub open spec fn encoded_label(label: Seq<u8>) -> Seq<u8> {
    seq![label.len() as u8] + label
}

/// The wire form of a sequence of labels, without the closing root label.
pub open spec fn encode_labels(labels: Seq<Seq<u8>>) -> Seq<u8>
    decreases labels.len(),
{
    if labels.len() == 0 {
        Seq::<u8>::empty()
    } else {
        encoded_label(labels.first()) + encode_labels(labels.drop_first())
    }
}

/// The full wire format of a name: every label length-prefixed, then the
/// zero byte of the root label.
pub open spec fn wire_format(s: Seq<u8>) -> Seq<u8> {
    encode_labels(labels_of(s)) + seq![0u8]
}

/// True when every label is short enough to carry its length in one
/// wire-format byte under the 63-byte label limit.
pub open spec fn labels_fit(labels: Seq<Seq<u8>>) -> bool {
    forall|k: int| 0 <= k < labels.len() ==> (#[trigger] labels[k]).len() <= 63
}

/// The index of the first label longer than 63 bytes (the length of the
/// sequence when every label fits).
pub open spec fn first_long_label(labels: Seq<Seq<u8>>) -> int
    decreases labels.len(),
{
    if labels.len() == 0 {
        0
    } else if labels.first().len() > 63 {
        0
    } else {
        1 + first_long_label(labels.drop_first())
    }
}

/// The parent suffixes of a name: the name itself, then, as long as the
/// current element holds a `.` byte, everything after its first `.` byte.
pub open spec fn suffixes_of(s: Seq<u8>) -> Seq<Seq<u8>>
    decreases s.len(),
{
    if s.len() == 0 {
        seq![s]
    } else if s[0] == dot() {
        seq![s] + suffixes_of(s.drop_first())
    } else {
        seq![s] + suffixes_of(s.drop_first()).skip(1)
    }
}

/// The position of the first `.` byte of `s`, or `s.len()` when there is
/// none.
pub open spec fn first_dot(s: Seq<u8>) -> int
    decreases s.len(),
{
    if s.len() == 0 {
        0
    } else if s[0] == dot() {
        0
    } else {
        1 + first_dot(s.drop_first())
    }
}

/// `first_dot` points at a `.` byte and nothing before it is one; with no
/// `.` byte at all it points past the end.
pub proof fn lemma_first_dot(s: Seq<u8>)
    ensures
        0 <= first_dot(s) <= s.len(),
        forall|k: int| 0 <= k < first_dot(s) ==> s[k] != dot(),
        first_dot(s) < s.len() ==> s[first_dot(s)] == dot(),
    decreases s.len(),
{
    if s.len() > 0 && s[0] != dot() {
        lemma_first_dot(s.drop_first());
        assert forall|k: int| 0 <= k < first_dot(s) implies s[k] != dot() by {
            if k > 0 {
                assert(s.drop_first()[k - 1] == s[k]);
            }
        }
    }
}

/// A name has at least one label, and at least one suffix.
pub proof fn lemma_model_nonempty(s: Seq<u8>)
    ensures
        labels_of(s).len() >= 1,
        suffixes_of(s).len() >= 1,
        suffixes_of(s)[0] == s,
    decreases s.len(),
{
    if s.len() > 0 {
        lemma_model_nonempty(s.drop_first());
    }
}

/// When the first `.` byte of `s` stands at `i` (or `i == s.len()` and there
/// is none), the first label of `s` is the bytes before `i`, and the labels
/// after it are the labels of what follows the dot.
pub proof fn lemma_labels_split(s: Seq<u8>, i: int)
    requires
        0 <= i <= s.len(),
        forall|k: int| 0 <= k < i ==> s[k] != dot(),
        i < s.len() ==> s[i] == dot(),
    ensures
        i == s.len() ==> labels_of(s) == seq![s],
        i < s.len() ==> labels_of(s) == seq![s.take(i)] + labels_of(s.skip(i + 1)),
    decreases i,
{
    if i == 0 {
        if s.len() == 0 {
            assert(labels_of(s) =~~= seq![s]);
        } else {
            assert(s.drop_first() =~= s.skip(1));
            assert(labels_of(s) =~~= seq![s.take(0)] + labels_of(s.skip(1)));
        }
    } else {
        let t = s.drop_first();
        lemma_model_nonempty(t);
        lemma_labels_split(t, i - 1);
        let rest = labels_of(t);
        if i == s.len() {
            assert(seq![s[0]] + rest.first() =~= s);
            assert(labels_of(s) =~~= seq![s]);
        } else {
            assert(seq![s[0]] + rest.first() =~= s.take(i));
            assert(rest.drop_first() =~= labels_of(t.skip(i)));
            assert(t.skip(i) =~= s.skip(i + 1));
            assert(labels_of(s) =~~= seq![s.take(i)] + labels_of(s.skip(i + 1)));
        }
    }
}

/// When the first `.` byte of `s` stands at `i` (or `i == s.len()` and there
/// is none), the suffixes of `s` are `s` itself followed by the suffixes of
/// what follows the dot.
pub proof fn lemma_suffixes_split(s: Seq<u8>, i: int)
    requires
        0 <= i <= s.len(),
        forall|k: int| 0 <= k < i ==> s[k] != dot(),
        i < s.len() ==> s[i] == dot(),
    ensures
        i == s.len() ==> suffixes_of(s) == seq![s],
        i < s.len() ==> suffixes_of(s) == seq![s] + suffixes_of(s.skip(i + 1)),
    decreases i,
{
    if i == 0 {
        if s.len() == 0 {
            assert(suffixes_of(s) =~~= seq![s]);
        } else {
            assert(s.drop_first() =~= s.skip(1));
            assert(suffixes_of(s) =~~= seq![s] + suffixes_of(s.skip(1)));
        }
    } else {
        let t = s.drop_first();
        lemma_model_nonempty(t);
        lemma_suffixes_split(t, i - 1);
        if i == s.len() {
            assert(suffixes_of(t) =~~= seq![t]);
            assert(suffixes_of(t).skip(1) =~~= Seq::<Seq<u8>>::empty());
            assert(suffixes_of(s) =~~= seq![s]);
        } else {
            assert(suffixes_of(t).skip(1) =~~= suffixes_of(t.skip(i)));
            assert(t.skip(i) =~= s.skip(i + 1));
            assert(suffixes_of(s) =~~= seq![s] + suffixes_of(s.skip(i + 1)));
        }
    }
}

/// `first_long_label` points at a label over 63 bytes, and every label
/// before it fits, whenever some label does not fit.
pub proof fn lemma_first_long_label(labels: Seq<Seq<u8>>)
    requires
        !labels_fit(labels),
    ensures
        0 <= first_long_label(labels) < labels.len(),
        labels[first_long_label(labels)].len() > 63,
        forall|k: int| 0 <= k < first_long_label(labels) ==> (#[trigger] labels[k]).len() <= 63,
    decreases labels.len(),
{
    if labels.len() == 0 {
        assert(labels_fit(labels));
    } else if labels.first().len() > 63 {
    } else {
        assert(!labels_fit(labels.drop_first())) by {
            if labels_fit(labels.drop_first()) {
                assert forall|k: int| 0 <= k < labels.len() implies (#[trigger] labels[k]).len()
                    <= 63 by {
                    if k > 0 {
                        assert(labels[k] == labels.drop_first()[k - 1]);
                    }
                }
            }
        }
        lemma_first_long_label(labels.drop_first());
        assert forall|k: int| 0 <= k < first_long_label(labels) implies (#[trigger] labels[k]).len()
            <= 63 by {
            if k > 0 {
                assert(labels[k] == labels.drop_first()[k - 1]);
            }
        }
    }
}

/// A label over 63 bytes behind fitting labels alone is the first long one.
pub proof fn lemma_first_long_label_at(labels: Seq<Seq<u8>>, j: int)
    requires
        0 <= j < labels.len(),
        labels[j].len() > 63,
        forall|k: int| 0 <= k < j ==> (#[trigger] labels[k]).len() <= 63,
    ensures
        !labels_fit(labels),
        first_long_label(labels) == j,
    decreases j,
{
    if j == 0 {
    } else {
        assert forall|k: int| 0 <= k < j - 1 implies (#[trigger] labels.drop_first()[k]).len()
            <= 63 by {
            assert(labels.drop_first()[k] == labels[k + 1]);
        }
        assert(labels.drop_first()[j - 1] == labels[j]);
        lemma_first_long_label_at(labels.drop_first(), j - 1);
    }
}

/// Encoding one more label appends its wire form.
pub proof fn lemma_encode_labels_snoc(labels: Seq<Seq<u8>>, label: Seq<u8>)
    ensures
        encode_labels(labels.push(label)) == encode_labels(labels) + encoded_label(label),
    decreases labels.len(),
{
    if labels.len() == 0 {
        let whole = labels.push(label);
        assert(whole.len() == 1);
        assert(whole.first() == label);
        assert(whole.drop_first() =~= Seq::<Seq<u8>>::empty());
        assert(encode_labels(whole) == encoded_label(whole.first()) + encode_labels(
            whole.drop_first(),
        ));
        assert(encode_labels(whole.drop_first()) == Seq::<u8>::empty());
        assert(encode_labels(whole) =~= encode_labels(labels) + encoded_label(label));
    } else {
        let whole = labels.push(label);
        assert(whole.first() == labels.first());
        assert(whole.drop_first() =~= labels.drop_first().push(label));
        lemma_encode_labels_snoc(labels.drop_first(), label);
        assert(encode_labels(whole) == encoded_label(whole.first()) + encode_labels(
            whole.drop_first(),
        ));
        assert(encode_labels(whole) =~= encode_labels(labels) + encoded_label(label));
    }
}

/// The length of a sequence of wire-format labels: one length byte plus the
/// label's own bytes, for each label.
pub open spec fn total_encoded_len(labels: Seq<Seq<u8>>) -> int
    decreases labels.len(),
{
    if labels.len() == 0 {
        0
    } else {
        labels.first().len() + 1 + total_encoded_len(labels.drop_first())
    }
}

proof fn lemma_encode_labels_len(labels: Seq<Seq<u8>>)
    ensures
        encode_labels(labels).len() == total_encoded_len(labels),
    decreases labels.len(),
{
    if labels.len() > 0 {
        lemma_encode_labels_len(labels.drop_first());
    }
}

/// The wire format of a name is as long as the sum, over its labels, of the
/// label's length plus one, plus one for the root label.
pub proof fn lemma_wire_format_len(s: Seq<u8>)
    ensures
        wire_format(s).len() == total_encoded_len(labels_of(s)) + 1,
{
    lemma_encode_labels_len(labels_of(s));
}

/// The chain law of parent suffixes: the first element is the whole name,
/// every later element is a strict suffix of the one before it, and the last
/// element holds no `.` byte.
pub proof fn lemma_suffix_chain(s: Seq<u8>)
    ensures
        suffixes_of(s).len() >= 1,
        suffixes_of(s)[0] == s,
        forall|k: int|
            0 <= k < suffixes_of(s).last().len() ==> suffixes_of(s).last()[k] != dot(),
        forall|k: int|
            1 <= k < suffixes_of(s).len() ==> (#[trigger] suffixes_of(s)[k]).len() < suffixes_of(
                s,
            )[k - 1].len() && suffixes_of(s)[k] == suffixes_of(s)[k - 1].skip(
                suffixes_of(s)[k - 1].len() - suffixes_of(s)[k].len(),
            ),
    decreases s.len(),
{
    lemma_model_nonempty(s);
    if s.len() == 0 {
    } else {
        let t = s.drop_first();
        lemma_suffix_chain(t);
        let st = suffixes_of(t);
        if s[0] == dot() {
            let ss = suffixes_of(s);
            assert(ss == seq![s] + st);
            assert(ss.last() == st.last());
            assert(st[0] == t && t == s.skip(1));
            assert forall|k: int|
                1 <= k < ss.len() implies (#[trigger] ss[k]).len() < ss[k - 1].len() && ss[k]
                == ss[k - 1].skip(ss[k - 1].len() - ss[k].len()) by {
                if k == 1 {
                    assert(ss[1] == t);
                    assert(t =~= s.skip(1));
                } else {
                    assert(ss[k] == st[k - 1]);
                    assert(ss[k - 1] == st[k - 2]);
                }
            }
        } else {
            let ss = suffixes_of(s);
            assert(ss == seq![s] + st.skip(1));
            if st.len() == 1 {
                assert(ss =~~= seq![s]);
                assert(ss.last() == s);
                assert forall|k: int| 0 <= k < s.len() implies s[k] != dot() by {
                    if k > 0 {
                        assert(t[k - 1] == s[k]);
                        assert(st.last() == t);
                    }
                }
            } else {
                assert(ss.last() == st.last());
                assert forall|k: int|
                    1 <= k < ss.len() implies (#[trigger] ss[k]).len() < ss[k - 1].len() && ss[k]
                    == ss[k - 1].skip(ss[k - 1].len() - ss[k].len()) by {
                    if k == 1 {
                        assert(ss[1] == st[1]);
                        assert(st[1].len() < st[0].len());
                        assert(st[0] == t);
                        assert(st[1] == t.skip(t.len() - st[1].len()));
                        assert(t.skip(t.len() - st[1].len()) =~= s.skip(
                            s.len() - st[1].len(),
                        ));
                    } else {
                        assert(ss[k] == st[k]);
                        assert(ss[k - 1] == st[k - 1]);
                    }
                }
            }
        }
    }
}

} // verus!
