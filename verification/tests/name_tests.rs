use dns_name::dns_encode;
use dns_name::iter_parent_names;
use dns_name::sanitaze_error_data_from_rpc;
use dns_name::truncate_str;

#[test]
fn test_dns_encode() {
    let ens_name = "vitalik.eth";
    let expected_result = vec![
        7, b'v', b'i', b't', b'a', b'l', b'i', b'k', 3, b'e', b't', b'h', 0,
    ];

    let encoded_name = dns_encode(ens_name).unwrap();

    assert_eq!(
        encoded_name, expected_result,
        "Expected dns encoded result to be {:?}, but got {:?}",
        expected_result, encoded_name
    );
}

#[test]
fn test_dns_encode_with_a_long_name() {
    let ens_name = "superlongbutmeaningfulnameforanextraordinaryrustproject1234567890x.eth";
    let mut labels = ens_name.split('.');

    let encoded_name = dns_encode(ens_name);

    assert_eq!(
        encoded_name.unwrap_err().message(),
        format!("Label is too long: {}", labels.next().unwrap())
    );
}

#[test]
fn encode_empty_name_is_root_only() {
    assert_eq!(dns_encode("").unwrap(), vec![0, 0]);
}

#[test]
fn encode_two_single_byte_labels() {
    assert_eq!(dns_encode("a.b").unwrap(), vec![1, b'a', 1, b'b', 0]);
}

#[test]
fn encode_keeps_empty_labels() {
    // A consecutive dot makes an empty label, carried as a zero length byte.
    assert_eq!(
        dns_encode("ab..cd").unwrap(),
        vec![2, b'a', b'b', 0, 2, b'c', b'd', 0]
    );
    assert_eq!(dns_encode(".eth").unwrap(), vec![0, 3, b'e', b't', b'h', 0]);
    assert_eq!(dns_encode("eth.").unwrap(), vec![3, b'e', b't', b'h', 0, 0]);
}

#[test]
fn encode_output_length_is_labels_plus_one_each_plus_root() {
    // Labels "ab", "", "cd": (2 + 1) + (0 + 1) + (2 + 1) + 1 = 8 bytes.
    assert_eq!(dns_encode("ab..cd").unwrap().len(), 8);
    // Labels "vitalik", "eth": (7 + 1) + (3 + 1) + 1 = 13 bytes.
    assert_eq!(dns_encode("vitalik.eth").unwrap().len(), 13);
}

#[test]
fn encode_accepts_a_63_byte_label() {
    let name = format!("{}.eth", "x".repeat(63));
    let encoded = dns_encode(&name).unwrap();
    assert_eq!(encoded.len(), 63 + 1 + 3 + 1 + 1);
    assert_eq!(encoded[0], 63);
}

#[test]
fn encode_rejects_a_64_byte_label() {
    let name = format!("{}.eth", "x".repeat(64));
    let err = dns_encode(&name).unwrap_err();
    assert_eq!(err.label, "x".repeat(64));
}

#[test]
fn encode_reports_the_first_long_label() {
    let first = "a".repeat(64);
    let second = "b".repeat(70);
    let name = format!("ok.{}.{}", first, second);
    let err = dns_encode(&name).unwrap_err();
    assert_eq!(err.label, first);
    assert_eq!(err.message(), format!("Label is too long: {}", first));
}

#[test]
fn parent_names_of_a_two_label_name() {
    assert_eq!(
        iter_parent_names("tanrikulu.eth"),
        vec!["tanrikulu.eth", "eth"]
    );
}

#[test]
fn parent_names_of_a_single_label_name() {
    assert_eq!(iter_parent_names("eth"), vec!["eth"]);
}

#[test]
fn parent_names_of_the_empty_name() {
    assert_eq!(iter_parent_names(""), vec![""]);
}

#[test]
fn parent_names_keep_empty_segments() {
    assert_eq!(iter_parent_names("a..b"), vec!["a..b", ".b", "b"]);
    assert_eq!(iter_parent_names(".eth"), vec![".eth", "eth"]);
    assert_eq!(iter_parent_names("eth."), vec!["eth.", ""]);
}

#[test]
fn parent_names_form_a_chain_of_strict_suffixes() {
    let names = iter_parent_names("sub.name.tanrikulu.eth");
    assert!(!names.last().unwrap().contains('.'));
    for k in 1..names.len() {
        let prev = names[k - 1];
        let cur = names[k];
        assert!(cur.len() < prev.len());
        assert!(prev.ends_with(cur));
    }
}

#[test]
fn truncate_keeps_a_short_string() {
    assert_eq!(truncate_str("abc", 5), "abc");
    // Two bytes short of the truncation threshold of 2 * 2 + 3.
    assert_eq!(truncate_str("abcdef", 2), "abcdef");
}

#[test]
fn truncate_cuts_a_long_string() {
    assert_eq!(truncate_str("abcdefghijkl", 2), "ab..kl");
    // Exactly at the threshold: a 7-byte string with side 2 is cut.
    assert_eq!(truncate_str("abcdefg", 2), "ab..fg");
    assert_eq!(truncate_str("0x1234567890abcdef", 4), "0x12..cdef");
}

#[test]
fn sanitize_strips_the_reverted_prefix_and_whitespace() {
    assert_eq!(
        sanitaze_error_data_from_rpc("Reverted some error".to_string()),
        "some error"
    );
    assert_eq!(sanitaze_error_data_from_rpc("Reverted".to_string()), "");
    assert_eq!(
        sanitaze_error_data_from_rpc("  padded  ".to_string()),
        "padded"
    );
    assert_eq!(
        sanitaze_error_data_from_rpc("RevertedReverted twice".to_string()),
        "twice"
    );
    assert_eq!(
        sanitaze_error_data_from_rpc("no prefix".to_string()),
        "no prefix"
    );
    // A space in front keeps the word: it is no longer a prefix.
    assert_eq!(
        sanitaze_error_data_from_rpc(" Reverted late".to_string()),
        "Reverted late"
    );
}
