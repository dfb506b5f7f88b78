use exercises::huffman_coding::Node;

#[test]
fn test_encode_token() {
    let tree = Node::build_tree("at an apple app");

    let actual_representation = tree.encode_token('n', 0).unwrap().join("");

    let expected_representation = "01100";

    assert_eq!(actual_representation, expected_representation);
}

#[test]
fn test_encode_sequence() {
    let input = "at an apple app";

    let tree = Node::build_tree(input);

    let actual_output = tree.encode(input);

    let expected_output = "00011100100001100010001101101011110100011";

    assert_eq!(actual_output, expected_output);
}

#[test]
fn test_decode_sequence() {
    let decoded_sequence = "at an apple app";
    let encoded_sequence = "00011100100001100010001101101011110100011";

    let tree = Node::build_tree(decoded_sequence.clone());

    let actual_decoded_sequence = tree.decode(encoded_sequence);

    assert_eq!(actual_decoded_sequence, decoded_sequence);
}

#[test]
fn huffman_round_trip_on_other_text() {
    let text = "mississippi river, é and ü too";
    let tree = Node::build_tree(text);
    let encoded = tree.encode(text);
    assert!(encoded.chars().all(|c| c == '0' || c == '1'));
    assert_eq!(tree.decode(&encoded), text);
}

#[test]
fn huffman_token_codes_and_depth_padding() {
    let tree = Node::build_tree("aab");
    assert_eq!(tree.encode_token('z', 0), None);
    let padded = tree.encode_token('a', 2).unwrap();
    assert_eq!(padded.len(), 3);
    assert_eq!(padded[0], "");
    assert_eq!(padded[1], "");
    assert_eq!(tree.encode("ab").len(), 2);
}

#[test]
fn huffman_single_symbol_tree_is_a_leaf() {
    let tree = Node::build_tree("zzz");
    assert!(matches!(tree, Node::Leaf('z')));
    assert_eq!(tree.encode("zz"), "");
    assert_eq!(tree.decode(""), "");
}

#[test]
fn test_build_tree() {
    let tree = Node::build_tree("at an apple app");

    let actual_representation = tree.print(0, '<', String::from(""));

    let expected_representation = "..\u{2571}a\n.\u{2571}*\n...\u{2571} \n..\u{2572}*\n.....\u{2571}n\n....\u{2571}*\n.....\u{2572}l\n...\u{2572}*\n.....\u{2571}t\n....\u{2572}*\n.....\u{2572}e\n<*\n.\u{2572}p\n";

    assert_eq!(actual_representation, expected_representation);
}
