use fulltext::chunker::{find_from, get_next_codepoint_idx, split_contents};

fn joined(pieces: &[fulltext::chunker::ContentsSplit]) -> String {
    let mut all = String::new();
    for piece in pieces {
        all.push_str(piece.data);
    }
    all
}

#[test]
fn next_codepoint_keeps_a_boundary() {
    assert_eq!(get_next_codepoint_idx("hello", 0), 0);
    assert_eq!(get_next_codepoint_idx("hello", 3), 3);
    assert_eq!(get_next_codepoint_idx("hello", 5), 5);
}

#[test]
fn next_codepoint_leaves_the_inside_of_a_character() {
    // 'a' is one byte, 'é' two, '€' three, '😀' four.
    let text = "aé€😀b";
    assert_eq!(text.len(), 11);
    assert_eq!(get_next_codepoint_idx(text, 1), 1);
    assert_eq!(get_next_codepoint_idx(text, 2), 3);
    assert_eq!(get_next_codepoint_idx(text, 4), 6);
    assert_eq!(get_next_codepoint_idx(text, 5), 6);
    assert_eq!(get_next_codepoint_idx(text, 7), 10);
    assert_eq!(get_next_codepoint_idx(text, 8), 10);
    assert_eq!(get_next_codepoint_idx(text, 9), 10);
    assert_eq!(get_next_codepoint_idx(text, 10), 10);
}

#[test]
fn next_codepoint_past_the_end_is_unchanged() {
    assert_eq!(get_next_codepoint_idx("abc", 3), 3);
    assert_eq!(get_next_codepoint_idx("abc", 7), 7);
    assert_eq!(get_next_codepoint_idx("", 0), 0);
    assert_eq!(get_next_codepoint_idx("é", 1), 2);
}

#[test]
fn find_from_gives_the_first_occurrence() {
    let hay = b"ab</doc>cd</doc>";
    assert_eq!(find_from(hay, b"</doc>", 0), Some(2));
    assert_eq!(find_from(hay, b"</doc>", 2), Some(2));
    assert_eq!(find_from(hay, b"</doc>", 3), Some(10));
    assert_eq!(find_from(hay, b"</doc>", 11), None);
    assert_eq!(find_from(hay, b"", 4), Some(4));
    assert_eq!(find_from(hay, b"", 16), Some(16));
    assert_eq!(find_from(hay, b"", 17), None);
    assert_eq!(find_from(b"ab", b"abc", 0), None);
}

#[test]
fn one_chunk_is_the_whole_text() {
    let text = "<doc>a</doc><doc>b</doc>";
    let pieces = split_contents(text, "</doc>", 1);
    assert_eq!(pieces.len(), 1);
    assert_eq!(pieces[0].base_offset, 0);
    assert_eq!(pieces[0].data, text);
}

#[test]
fn chunks_end_behind_the_tag() {
    let text = "<doc>aaaa</doc><doc>bbbb</doc><doc>cccc</doc><doc>dddd</doc>";
    assert_eq!(text.len(), 60);
    let pieces = split_contents(text, "</doc>", 2);
    // The first probe is at 30, where a document ends; the next tag ends at 45.
    assert_eq!(pieces.len(), 2);
    assert_eq!(pieces[0].base_offset, 0);
    assert_eq!(pieces[0].data, "<doc>aaaa</doc><doc>bbbb</doc><doc>cccc</doc>");
    assert_eq!(pieces[1].base_offset, 45);
    assert_eq!(pieces[1].data, "<doc>dddd</doc>");
    assert_eq!(joined(&pieces), text);
}

#[test]
fn chunks_join_to_the_input() {
    let mut text = String::new();
    for i in 0..50 {
        text.push_str(&format!("<doc><title>t{}</title><abstract>é€ {}</abstract></doc>\n", i, i));
    }
    for n in 1..12 {
        let pieces = split_contents(&text, "</doc>", n);
        assert!(pieces.len() >= 1 && pieces.len() <= n);
        assert_eq!(joined(&pieces), text);
        let mut at = 0;
        for (k, piece) in pieces.iter().enumerate() {
            assert_eq!(piece.base_offset, at);
            assert!(text.is_char_boundary(piece.base_offset));
            at += piece.data.len();
            if k + 1 < pieces.len() {
                assert!(piece.data.ends_with("</doc>"));
            }
        }
        assert_eq!(at, text.len());
    }
}

#[test]
fn a_missing_tag_ends_the_chunk_at_the_end_of_the_text() {
    let pieces = split_contents("aaaaaaaaaa", "</doc>", 2);
    assert_eq!(pieces.len(), 2);
    assert_eq!(pieces[0].base_offset, 0);
    assert_eq!(pieces[0].data, "aaaaaaaaaa");
    assert_eq!(pieces[1].base_offset, 10);
    assert_eq!(pieces[1].data, "");
}

#[test]
fn a_short_text_gives_fewer_chunks() {
    let pieces = split_contents("<doc>x</doc>", "</doc>", 8);
    assert_eq!(joined(&pieces), "<doc>x</doc>");
    assert!(pieces.len() <= 8);
    let empty = split_contents("", "</doc>", 3);
    assert_eq!(empty.len(), 1);
    assert_eq!(empty[0].data, "");
}

#[test]
fn a_probe_inside_a_character_moves_forward() {
    // 4 bytes of 'é' twice, then the tag: the probe at 2 is a boundary, at 1 or 3 it is not.
    let text = "éé</doc>éé</doc>";
    let pieces = split_contents(text, "</doc>", 4);
    assert_eq!(joined(&pieces), text);
    for piece in &pieces {
        assert!(text.is_char_boundary(piece.base_offset));
    }
}

#[test]
fn an_empty_tag_can_leave_the_end_out() {
    let pieces = split_contents("abc", "", 2);
    assert_eq!(pieces.len(), 2);
    assert_eq!(pieces[0].data, "a");
    assert_eq!(pieces[1].data, "b");
}
