use ecoji::chars::{decode_char, encode_char};
use ecoji::decode::Decoder;
use ecoji::emojis::Version;
use ecoji::error::{DecodeError, ErrorKind};

const PADDING: char = '\u{2615}';
const PADDING_4_V1: [char; 4] = ['\u{269C}', '\u{1F3CD}', '\u{1F4D1}', '\u{1F64B}'];
const PADDING_4_V2: [char; 4] = ['\u{1F977}', '\u{1F6FC}', '\u{1F4D1}', '\u{1F64B}'];

/// A symbol table for the tests: ideographs from `filler` on, but for the
/// places that the tests name by their pictograph.
fn symbols(filler: u32, pictographs: &[(usize, char)]) -> [char; 1024] {
    let mut table = ['\0'; 1024];
    for (i, place) in table.iter_mut().enumerate() {
        *place = char::from_u32(filler + i as u32).unwrap();
    }
    for &(i, c) in pictographs {
        table[i] = c;
    }
    table
}

fn version1() -> Version {
    let table = symbols(
        0x4E00,
        &[
            (29, '🇲'),
            (93, '🌥'),
            (97, '🌩'),
            (129, '🍉'),
            (192, '🎈'),
            (372, '👅'),
            (389, '👖'),
            (421, '👶'),
            (550, '📸'),
            (582, '🔙'),
            (743, '😲'),
            (1007, '🦲'),
            (1019, '🧑'),
            (1023, '🧕'),
        ],
    );
    Version::new(1, PADDING, PADDING_4_V1, table).unwrap()
}

fn version2() -> Version {
    let table = symbols(0x5E00, &[(192, '🎈'), (389, '👖'), (550, '📸')]);
    Version::new(2, PADDING, PADDING_4_V2, table).unwrap()
}

/// Both versions, each with its sibling.
fn versions() -> Vec<(Version, Version)> {
    vec![(version1(), version2()), (version2(), version1())]
}

fn utf8(chars: &[char]) -> Vec<u8> {
    let text: String = chars.iter().cloned().collect();
    text.into_bytes()
}

fn check_decode(v: &Version, other: &Version, input: &[u8], output: &[u8]) {
    let buf = v.decode_to_vec(other, input).unwrap();
    assert_eq!(output, buf.as_slice());
}

fn check_decode_all(input: &[&[u8]], output: &[u8]) {
    for (v, other) in versions() {
        for input in input {
            check_decode(&v, &other, input, output);
        }
    }
}

fn check_decode_chars(v: &Version, other: &Version, input: &[char], output: &[u8]) {
    let input: String = input.iter().cloned().collect();
    let buf = v.decode_to_vec(other, input.as_bytes()).unwrap();
    assert_eq!(output, buf.as_slice());
}

fn check_encode(v: &Version, input: &[u8], output: &[u8]) {
    let encoded = v.encode_to_string(input);
    assert_eq!(output, encoded.as_bytes());
}

fn check_encode_chars(v: &Version, input: &[u8], output: &[char]) {
    let buf = v.encode_to_string(input);
    let chars: Vec<_> = buf.chars().collect();
    let mut output: Vec<_> = output.iter().cloned().collect();
    while v.VERSION_NUMBER > 1
        && output.get(output.len() - 2..output.len()) == Some(&[v.PADDING, v.PADDING])
    {
        output.pop();
    }
    assert_eq!(output, chars.as_slice());
}

fn check_encode_all(input: &[u8], output: &[&[u8]]) {
    for (i, (v, _)) in versions().iter().enumerate() {
        check_encode(v, input, output[i]);
    }
}

#[test]
fn decode_test_random() {
    check_decode_all(&["👖📸🎈☕".as_bytes(), "👖📸🎈☕".as_bytes()], b"abc");
}

#[test]
fn decode_test_one_byte() {
    for (v, other) in versions() {
        check_decode_chars(
            &v,
            &other,
            &[
                v.EMOJIS[('k' as usize) << 2],
                v.PADDING,
                v.PADDING,
                v.PADDING,
            ],
            b"k",
        );
    }
}

#[test]
fn decode_test_two_bytes() {
    for (v, other) in versions() {
        check_decode_chars(
            &v,
            &other,
            &[v.EMOJIS[0], v.EMOJIS[16], v.PADDING, v.PADDING],
            &[0, 1],
        );
    }
}

#[test]
fn decode_test_three_bytes() {
    for (v, other) in versions() {
        check_decode_chars(
            &v,
            &other,
            &[v.EMOJIS[0], v.EMOJIS[16], v.EMOJIS[128], v.PADDING],
            &[0, 1, 2],
        );
    }
}

#[test]
fn decode_test_four_bytes() {
    for (v, other) in versions() {
        check_decode_chars(
            &v,
            &other,
            &[v.EMOJIS[0], v.EMOJIS[16], v.EMOJIS[128], v.PADDING_40],
            &[0, 1, 2, 0],
        );
        check_decode_chars(
            &v,
            &other,
            &[v.EMOJIS[0], v.EMOJIS[16], v.EMOJIS[128], v.PADDING_41],
            &[0, 1, 2, 1],
        );
        check_decode_chars(
            &v,
            &other,
            &[v.EMOJIS[0], v.EMOJIS[16], v.EMOJIS[128], v.PADDING_42],
            &[0, 1, 2, 2],
        );
        check_decode_chars(
            &v,
            &other,
            &[v.EMOJIS[0], v.EMOJIS[16], v.EMOJIS[128], v.PADDING_43],
            &[0, 1, 2, 3],
        );
    }
}

#[test]
fn decode_test_five_bytes() {
    for (v, other) in versions() {
        check_decode_chars(
            &v,
            &other,
            &[v.EMOJIS[687], v.EMOJIS[222], v.EMOJIS[960], v.EMOJIS[291]],
            &[0xAB, 0xCD, 0xEF, 0x01, 0x23],
        );
    }
}

#[test]
fn test_mapping() {
    for (v, _) in versions() {
        assert!(v.is_well_formed());
        assert_eq!(v.EMOJIS.len(), 1024);
        assert_eq!(v.EMOJIS_REV.len(), 1024);
        for (i, c) in v.EMOJIS.iter().cloned().enumerate() {
            assert_eq!(i, v.EMOJIS_REV[&c]);
            assert_eq!(Some(i), v.index_of(c));
        }
    }
}

#[test]
fn encode_test_random() {
    check_encode_all(b"abc", &["👖📸🎈☕".as_bytes(), "👖📸🎈☕".as_bytes()]);
}

#[test]
fn encode_test_one_byte() {
    for (v, _) in versions() {
        check_encode_chars(
            &v,
            b"k",
            &[
                v.EMOJIS[('k' as usize) << 2],
                v.PADDING,
                v.PADDING,
                v.PADDING,
            ],
        );
    }
}

#[test]
fn encode_test_two_bytes() {
    for (v, _) in versions() {
        check_encode_chars(
            &v,
            &[0, 1],
            &[v.EMOJIS[0], v.EMOJIS[16], v.PADDING, v.PADDING],
        );
    }
}

#[test]
fn encode_test_three_bytes() {
    for (v, _) in versions() {
        check_encode_chars(
            &v,
            &[0, 1, 2],
            &[v.EMOJIS[0], v.EMOJIS[16], v.EMOJIS[128], v.PADDING],
        );
    }
}

#[test]
fn encode_test_four_bytes() {
    for (v, _) in versions() {
        check_encode_chars(
            &v,
            &[0, 1, 2, 0],
            &[v.EMOJIS[0], v.EMOJIS[16], v.EMOJIS[128], v.PADDING_40],
        );
        check_encode_chars(
            &v,
            &[0, 1, 2, 1],
            &[v.EMOJIS[0], v.EMOJIS[16], v.EMOJIS[128], v.PADDING_41],
        );
        check_encode_chars(
            &v,
            &[0, 1, 2, 2],
            &[v.EMOJIS[0], v.EMOJIS[16], v.EMOJIS[128], v.PADDING_42],
        );
        check_encode_chars(
            &v,
            &[0, 1, 2, 3],
            &[v.EMOJIS[0], v.EMOJIS[16], v.EMOJIS[128], v.PADDING_43],
        );
    }
}

#[test]
fn encode_test_five_bytes() {
    for (v, _) in versions() {
        check_encode_chars(
            &v,
            &[0xAB, 0xCD, 0xEF, 0x01, 0x23],
            &[v.EMOJIS[687], v.EMOJIS[222], v.EMOJIS[960], v.EMOJIS[291]],
        );
    }
}

#[test]
fn encode_two_chunks() {
    let v = version1();
    let mut output: Vec<u8> = Vec::new();
    let written = v.encode(b"input data", &mut output);
    assert_eq!(output, "👶😲🇲👅🍉🔙🌥🌩".as_bytes());
    assert_eq!(written, output.len());
}

#[test]
fn encode_appends_and_counts() {
    let v = version1();
    let mut output: Vec<u8> = vec![1, 2, 3];
    let written = v.encode(b"abc", &mut output);
    assert_eq!(written, "👖📸🎈☕".len());
    assert_eq!(&output[..3], &[1, 2, 3]);
    assert_eq!(&output[3..], "👖📸🎈☕".as_bytes());
}

#[test]
fn encode_empty_input() {
    for (v, _) in versions() {
        let mut output: Vec<u8> = Vec::new();
        assert_eq!(v.encode(&[], &mut output), 0);
        assert!(output.is_empty());
        assert_eq!(v.encode_to_string(&[]), "");
    }
}

#[test]
fn encode_chunk_of_each_length() {
    let v = version2();
    let lengths = [2usize, 3, 4, 4, 4];
    for n in 1..=5usize {
        let chunk = &[0xABu8, 0xCD, 0xEF, 0x01, 0x23][..n];
        let mut out: Vec<u8> = Vec::new();
        let written = v.encode_chunk(chunk, &mut out);
        assert_eq!(written, out.len());
        let text = String::from_utf8(out).unwrap();
        assert_eq!(text.chars().count(), lengths[n - 1]);
        let first = if n == 1 { 684 } else { 687 };
        assert_eq!(text.chars().next(), Some(v.EMOJIS[first]));
    }
}

#[test]
fn version_two_leaves_trailing_padding_out() {
    let v1 = version1();
    let v2 = version2();
    let k1: Vec<char> = v1.encode_to_string(b"k").chars().collect();
    assert_eq!(
        k1,
        vec![v1.EMOJIS[0x6B << 2], v1.PADDING, v1.PADDING, v1.PADDING]
    );
    let k2: Vec<char> = v2.encode_to_string(b"k").chars().collect();
    assert_eq!(k2, vec![v2.EMOJIS[0x6B << 2], v2.PADDING]);
    let two: Vec<char> = v2.encode_to_string(&[0, 1]).chars().collect();
    assert_eq!(two, vec![v2.EMOJIS[0], v2.EMOJIS[16], v2.PADDING]);
    let four: Vec<char> = v2.encode_to_string(&[0, 1, 2, 3]).chars().collect();
    assert_eq!(
        four,
        vec![v2.EMOJIS[0], v2.EMOJIS[16], v2.EMOJIS[128], v2.PADDING_43]
    );
}

#[test]
fn decode_short_final_group() {
    for (v, other) in versions() {
        check_decode_chars(&v, &other, &[v.EMOJIS[0x6B << 2], v.PADDING], b"k");
        check_decode_chars(
            &v,
            &other,
            &[v.EMOJIS[0], v.EMOJIS[16], v.PADDING],
            &[0, 1],
        );
    }
}

#[test]
fn decode_two_groups() {
    let v = version1();
    let other = version2();
    let mut output: Vec<u8> = vec![9];
    let written = v
        .decode(&other, "👶😲🇲👅🍉🔙🌥🌩".as_bytes(), &mut output)
        .unwrap();
    assert_eq!(written, 10);
    assert_eq!(&output[..1], &[9]);
    assert_eq!(&output[1..], b"input data");
    assert_eq!(
        v.decode_to_string(&other, "👶😲🇲👅🍉🔙🌥🌩".as_bytes()),
        Ok(String::from("input data"))
    );
}

#[test]
fn decode_empty_input() {
    for (v, other) in versions() {
        assert_eq!(v.decode_to_vec(&other, &[]), Ok(Vec::new()));
        assert_eq!(v.decode_to_string(&other, &[]), Ok(String::new()));
    }
}

#[test]
fn round_trip_of_every_length() {
    for (v, other) in versions() {
        let data: Vec<u8> = (0..=255u8).rev().collect();
        for n in 0..=23 {
            let input = &data[..n];
            let mut encoded: Vec<u8> = Vec::new();
            v.encode(input, &mut encoded);
            assert_eq!(v.decode_to_vec(&other, &encoded), Ok(input.to_vec()));
        }
        let mut encoded: Vec<u8> = Vec::new();
        v.encode(&data, &mut encoded);
        assert_eq!(v.decode_to_vec(&other, &encoded), Ok(data));
    }
}

#[test]
fn round_trip_of_every_byte_value() {
    for (v, other) in versions() {
        for b in 0..=255u8 {
            for n in 1..=5usize {
                let input = vec![b; n];
                let text = v.encode_to_string(&input);
                assert_eq!(v.decode_to_vec(&other, text.as_bytes()), Ok(input));
            }
        }
    }
}

#[test]
fn decode_falls_back_to_the_other_version() {
    let v1 = version1();
    let v2 = version2();
    let input: Vec<u8> = (0..=40u8).collect();
    let by_v2 = v2.encode_to_string(&input);
    assert!(!v1.is_valid_alphabet_char(by_v2.chars().next().unwrap()));
    assert_eq!(v1.decode_to_vec(&v2, by_v2.as_bytes()), Ok(input.clone()));
    let by_v1 = v1.encode_to_string(&input);
    assert!(!v2.is_valid_alphabet_char(by_v1.chars().next().unwrap()));
    assert_eq!(v2.decode_to_vec(&v1, by_v1.as_bytes()), Ok(input));
}

#[test]
fn decode_does_not_fall_back_twice() {
    let v1 = version1();
    let v2 = version2();
    // One group of version 2, then one of version 1.
    let input = utf8(&[
        v2.EMOJIS[0],
        v2.EMOJIS[0],
        v2.EMOJIS[0],
        v2.EMOJIS[0],
        v1.EMOJIS[0],
        v1.EMOJIS[0],
        v1.EMOJIS[0],
        v1.EMOJIS[0],
    ]);
    let mut output: Vec<u8> = Vec::new();
    assert_eq!(
        v1.decode(&v2, &input, &mut output),
        Err(DecodeError::InvalidCharacter(v1.EMOJIS[0]))
    );
    assert_eq!(output, vec![0, 0, 0, 0, 0]);
}

#[test]
fn decode_group_goes_by_the_version_at_its_end() {
    let v1 = version1();
    let v2 = version2();
    // Both versions know 🎈, and only version 2 knows the scalar that follows.
    let input = utf8(&['🎈', v2.EMOJIS[5], v2.PADDING, v2.PADDING]);
    let expected = v2.decode_to_vec(&v1, &input).unwrap();
    assert_eq!(v1.decode_to_vec(&v2, &input), Ok(expected));
}

#[test]
fn decode_refuses_a_scalar_of_no_alphabet() {
    for (v, other) in versions() {
        let input = utf8(&[v.EMOJIS[1], v.EMOJIS[2], 'x', v.EMOJIS[3]]);
        let err = v.decode_to_vec(&other, &input).unwrap_err();
        assert_eq!(err, DecodeError::InvalidCharacter('x'));
        assert_eq!(err.kind(), ErrorKind::InvalidData);
        let err = v
            .decode_to_vec(&other, "Not emoji data  ".as_bytes())
            .unwrap_err();
        assert_eq!(err, DecodeError::InvalidCharacter('N'));
    }
}

#[test]
fn decode_refuses_an_input_that_ends_in_a_group() {
    for (v, other) in versions() {
        let input = utf8(&[v.EMOJIS[1], v.EMOJIS[2], v.EMOJIS[3]]);
        let err = v.decode_to_vec(&other, &input).unwrap_err();
        assert_eq!(err, DecodeError::UnexpectedEof);
        assert_eq!(err.kind(), ErrorKind::UnexpectedEof);
        // A single scalar is never enough, not even a padding one.
        assert_eq!(
            v.decode_to_vec(&other, &utf8(&[v.EMOJIS[1]])),
            Err(DecodeError::UnexpectedEof)
        );
        assert_eq!(
            v.decode_to_vec(&other, &utf8(&[v.PADDING])),
            Err(DecodeError::UnexpectedEof)
        );
    }
    let v = version1();
    let other = version2();
    let mut input = "👶😲🇲👅🍉🔙🌥".as_bytes().to_vec();
    let mut output: Vec<u8> = Vec::new();
    assert_eq!(
        v.decode(&other, &input, &mut output),
        Err(DecodeError::UnexpectedEof)
    );
    assert_eq!(output, b"input");
    input.truncate(input.len() - 1);
    assert_eq!(
        v.decode_to_vec(&other, &input),
        Err(DecodeError::InvalidUtf8)
    );
}

#[test]
fn decode_refuses_bytes_that_are_not_utf8() {
    for (v, other) in versions() {
        let err = v
            .decode_to_vec(&other, &[0xfe, 0xfe, 0xff, 0xff])
            .unwrap_err();
        assert_eq!(err, DecodeError::InvalidUtf8);
        assert_eq!(err.kind(), ErrorKind::InvalidData);
        // A scalar that no alphabet knows is found before the bad bytes
        // behind it.
        let mut input = utf8(&['x']);
        input.push(0xff);
        assert_eq!(
            v.decode_to_vec(&other, &input),
            Err(DecodeError::InvalidCharacter('x'))
        );
    }
}

#[test]
fn decode_to_string_refuses_bytes_that_are_no_text() {
    let v = version1();
    let other = version2();
    let input = "🧑🦲🧕🙋".as_bytes();
    assert_eq!(
        v.decode_to_vec(&other, input),
        Ok(vec![0xfe, 0xfe, 0xff, 0xff])
    );
    let err = v.decode_to_string(&other, input).unwrap_err();
    assert_eq!(err, DecodeError::InvalidText);
    assert_eq!(err.kind(), ErrorKind::InvalidData);
}

#[test]
fn decode_group_of_each_length() {
    let v = version1();
    let groups: [([char; 4], &[u8]); 5] = [
        (
            [v.EMOJIS[687], v.PADDING, v.PADDING, v.PADDING],
            &[0xAB],
        ),
        (
            [v.EMOJIS[687], v.EMOJIS[208], v.PADDING, v.PADDING],
            &[0xAB, 0xCD],
        ),
        (
            [v.EMOJIS[687], v.EMOJIS[222], v.EMOJIS[960], v.PADDING],
            &[0xAB, 0xCD, 0xEF],
        ),
        (
            [v.EMOJIS[687], v.EMOJIS[222], v.EMOJIS[960], v.PADDING_41],
            &[0xAB, 0xCD, 0xEF, 0x01],
        ),
        (
            [v.EMOJIS[687], v.EMOJIS[222], v.EMOJIS[960], v.EMOJIS[291]],
            &[0xAB, 0xCD, 0xEF, 0x01, 0x23],
        ),
    ];
    for (group, bytes) in groups.iter() {
        let mut out: Vec<u8> = Vec::new();
        assert_eq!(v.decode_group(group, &mut out), bytes.len());
        assert_eq!(out.as_slice(), *bytes);
    }
}

#[test]
fn check_char_moves_to_the_fallback_once() {
    let v1 = version1();
    let v2 = version2();
    let mut decoder = Decoder::Primary;
    assert_eq!(v1.check_char(&v2, &mut decoder, v1.EMOJIS[7]), Ok(v1.EMOJIS[7]));
    assert_eq!(decoder, Decoder::Primary);
    assert_eq!(v1.check_char(&v2, &mut decoder, v1.PADDING_40), Ok(v1.PADDING_40));
    assert_eq!(decoder, Decoder::Primary);
    assert_eq!(v1.check_char(&v2, &mut decoder, v2.EMOJIS[7]), Ok(v2.EMOJIS[7]));
    assert_eq!(decoder, Decoder::Fallback);
    assert_eq!(
        v1.check_char(&v2, &mut decoder, v1.EMOJIS[7]),
        Err(DecodeError::InvalidCharacter(v1.EMOJIS[7]))
    );
    assert_eq!(decoder, Decoder::Fallback);
    let mut decoder = Decoder::Primary;
    assert_eq!(
        v1.check_char(&v2, &mut decoder, 'x'),
        Err(DecodeError::InvalidCharacter('x'))
    );
    assert_eq!(decoder, Decoder::Fallback);
}

#[test]
fn padding_and_alphabet_membership() {
    for (v, other) in versions() {
        for c in [v.PADDING, v.PADDING_40, v.PADDING_41, v.PADDING_42, v.PADDING_43] {
            assert!(v.is_padding(c));
            assert!(v.is_valid_alphabet_char(c));
            assert_eq!(v.index_of(c), None);
        }
        assert!(!v.is_padding(v.EMOJIS[0]));
        assert!(!v.is_padding('x'));
        assert!(v.is_valid_alphabet_char(v.EMOJIS[0]));
        assert!(v.is_valid_alphabet_char(v.EMOJIS[1023]));
        assert!(!v.is_valid_alphabet_char('x'));
        assert!(!v.is_valid_alphabet_char(other.EMOJIS[0]));
        assert_eq!(v.index_of(v.EMOJIS[1023]), Some(1023));
        assert_eq!(v.index_of(other.EMOJIS[0]), None);
    }
}

#[test]
fn well_formedness_is_checked() {
    assert!(version1().is_well_formed());
    assert!(version2().is_well_formed());

    let mut v = version1();
    v.VERSION_NUMBER = 3;
    assert!(!v.is_well_formed());

    let mut v = version1();
    v.EMOJIS_REV = phf::Map::new();
    assert!(!v.is_well_formed());

    let mut v = version1();
    v.EMOJIS_REV = version2().EMOJIS_REV;
    assert!(!v.is_well_formed());

    let mut v = version1();
    v.EMOJIS.swap(3, 4);
    assert!(!v.is_well_formed());

    let mut v = version1();
    v.EMOJIS[3] = v.EMOJIS[4];
    assert!(!v.is_well_formed());

    let mut v = version1();
    v.PADDING_42 = v.PADDING;
    assert!(!v.is_well_formed());

    let mut v = version1();
    v.PADDING_43 = v.EMOJIS[100];
    assert!(!v.is_well_formed());
}

#[test]
fn new_takes_an_alphabet_and_nothing_else() {
    let table = symbols(0x4E00, &[]);
    let v = Version::new(2, PADDING, PADDING_4_V2, table).unwrap();
    assert!(v.is_well_formed());
    assert_eq!(v.VERSION_NUMBER, 2);
    assert_eq!(v.PADDING, PADDING);
    assert_eq!(
        [v.PADDING_40, v.PADDING_41, v.PADDING_42, v.PADDING_43],
        PADDING_4_V2
    );
    assert_eq!(v.EMOJIS, table);
    assert_eq!(v.EMOJIS_REV.len(), 1024);

    assert!(Version::new(0, PADDING, PADDING_4_V1, table).is_none());
    assert!(Version::new(3, PADDING, PADDING_4_V1, table).is_none());
    let mut twice = table;
    twice[1023] = twice[0];
    assert!(Version::new(1, PADDING, PADDING_4_V1, twice).is_none());
    assert!(Version::new(1, table[5], PADDING_4_V1, table).is_none());
    assert!(Version::new(1, PADDING, [PADDING, '1', '2', '3'], table).is_none());
    assert!(Version::new(1, PADDING, ['0', '1', '2', '1'], table).is_none());
    assert!(Version::new(1, PADDING, ['0', '1', table[9], '3'], table).is_none());
    assert!(Version::new(1, PADDING, ['0', '1', '2', '3'], table).is_some());
}

#[test]
fn with_index_takes_the_inverse_of_the_table_only() {
    let table = version1().EMOJIS;
    let v = Version::with_index(1, PADDING, PADDING_4_V1, table, version1().EMOJIS_REV).unwrap();
    assert_eq!(v.VERSION_NUMBER, 1);
    assert_eq!(v.PADDING, PADDING);
    assert_eq!(
        [v.PADDING_40, v.PADDING_41, v.PADDING_42, v.PADDING_43],
        PADDING_4_V1
    );
    assert_eq!(v.EMOJIS, table);
    assert_eq!(v.index_of('👖'), Some(389));
    assert_eq!(v.encode_to_string(b"abc"), "👖📸🎈☕");

    let index = || version1().EMOJIS_REV;
    assert!(Version::with_index(1, PADDING, PADDING_4_V1, table, phf::Map::new()).is_none());
    assert!(
        Version::with_index(1, PADDING, PADDING_4_V1, table, version2().EMOJIS_REV).is_none()
    );
    assert!(Version::with_index(3, PADDING, PADDING_4_V1, table, index()).is_none());
    assert!(Version::with_index(1, table[0], PADDING_4_V1, table, index()).is_none());
    assert!(Version::with_index(1, PADDING, [PADDING; 4], table, index()).is_none());
    let mut swapped = table;
    swapped.swap(10, 11);
    assert!(Version::with_index(1, PADDING, PADDING_4_V1, swapped, index()).is_none());
}

#[test]
fn decode_cannot_tell_shared_symbols_apart() {
    // Two alphabets of the same symbols, one place apart.
    let table = symbols(0x4E00, &[]);
    let mut moved = table;
    moved.rotate_left(1);
    let a = Version::new(1, PADDING, PADDING_4_V1, table).unwrap();
    let b = Version::new(2, PADDING, PADDING_4_V2, moved).unwrap();
    let text = b.encode_to_string(&[0, 0, 0, 0, 0]);
    assert!(a.is_valid_alphabet_char(text.chars().next().unwrap()));
    assert_eq!(b.decode_to_vec(&a, text.as_bytes()), Ok(vec![0, 0, 0, 0, 0]));
    assert_ne!(a.decode_to_vec(&b, text.as_bytes()), Ok(vec![0, 0, 0, 0, 0]));
}

#[test]
fn utf8_of_each_width() {
    let cases: [(char, &[u8]); 6] = [
        ('\0', &[0x00]),
        ('k', &[0x6B]),
        ('é', &[0xC3, 0xA9]),
        ('☕', &[0xE2, 0x98, 0x95]),
        ('👖', &[0xF0, 0x9F, 0x91, 0x96]),
        ('\u{10FFFF}', &[0xF4, 0x8F, 0xBF, 0xBF]),
    ];
    for (c, bytes) in cases.iter() {
        let mut out: Vec<u8> = vec![0x2A];
        assert_eq!(encode_char(*c, &mut out), bytes.len());
        assert_eq!(&out[1..], *bytes);
        assert_eq!(decode_char(&out, 1), Some((*c, bytes.len())));
    }
}

#[test]
fn utf8_that_is_ill_formed() {
    let cases: [&[u8]; 9] = [
        &[0x80],
        &[0xC3],
        &[0xC0, 0x80],
        &[0xE2, 0x98],
        &[0xE0, 0x80, 0x80],
        &[0xED, 0xA0, 0x80],
        &[0xF0, 0x9F, 0x91],
        &[0xF4, 0x90, 0x80, 0x80],
        &[0xFF],
    ];
    for bytes in cases.iter() {
        assert_eq!(decode_char(bytes, 0), None);
    }
}
