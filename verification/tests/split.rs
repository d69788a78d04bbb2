//! Splitting byte strings.

use registry_index::split::split;

fn pieces(haystack: &[u8], needle: u8) -> Vec<Vec<u8>> {
    let mut iter = split(haystack, needle);
    let mut out = Vec::new();
    while let Some(piece) = iter.next() {
        out.push(piece.to_vec());
    }
    assert_eq!(iter.rest_len(), 0);
    out
}

#[test]
fn nothing_has_no_pieces() {
    assert_eq!(pieces(b"", b'\n'), Vec::<Vec<u8>>::new());
}

#[test]
fn a_separator_at_the_end_adds_no_piece() {
    assert_eq!(pieces(b"ab\ncd", b'\n'), vec![b"ab".to_vec(), b"cd".to_vec()]);
    assert_eq!(pieces(b"ab\ncd\n", b'\n'), vec![b"ab".to_vec(), b"cd".to_vec()]);
}

#[test]
fn empty_pieces_are_kept() {
    assert_eq!(
        pieces(b"\n\na\n\n", b'\n'),
        vec![b"".to_vec(), b"".to_vec(), b"a".to_vec(), b"".to_vec()]
    );
}

#[test]
fn pieces_hold_no_separator_and_join_again() {
    let data = b"0x1\0yy\0\0zzz\0";
    let parts = pieces(data, 0);
    let mut joined = Vec::new();
    for part in &parts {
        assert!(!part.contains(&0));
        joined.extend_from_slice(part);
        joined.push(0);
    }
    assert_eq!(joined, data.to_vec());
    assert_eq!(pieces(&joined, 0), parts);
}

#[test]
fn long_inputs_are_split_at_the_first_separator() {
    let mut data = vec![b'a'; 1000];
    data[700] = b'\n';
    data[900] = b'\n';
    let lens: Vec<usize> = pieces(&data, b'\n').iter().map(|p| p.len()).collect();
    assert_eq!(lens, vec![700, 199, 99]);
}
