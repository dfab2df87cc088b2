use m3u_shuffle::text::{blank, split_lines, starts_with};
use m3u_shuffle::{ParseError, Track, M3U};

fn ok_lines(lines: &[&str]) -> Vec<Result<String, String>> {
    lines.iter().map(|l| Ok(l.to_string())).collect()
}

const BASIC: &str = "#EXTM3U\n#EXTINF:0,Artist1 - Title1\npath/to/file1.mp3\n#EXTINF:0,Artist2 - Title2\npath/to/file2.mp3\n";

#[test]
fn test_basic() {
    let m3u = M3U::parse(BASIC).unwrap();
    assert_eq!(m3u.tracks.len(), 2);
    assert_eq!(m3u.tracks[0].path, "path/to/file1.mp3");
    assert_eq!(m3u.tracks[1].path, "path/to/file2.mp3");
    assert_eq!(
        m3u.tracks[0].extinf,
        Some("#EXTINF:0,Artist1 - Title1".to_string())
    );
    assert_eq!(
        m3u.tracks[1].extinf,
        Some("#EXTINF:0,Artist2 - Title2".to_string())
    );
}

#[test]
fn test_windows_newline() {
    let win_newline: String = std::str::from_utf8(&[b'\r', b'\n']).unwrap().to_string();
    let buf = format!(
        "{}{}",
        "#EXTM3U\r\n#EXTINF:0,Artist1 - Title1\r\npath/to/file1.mp3", win_newline
    );
    assert_eq!(buf[buf.len() - 2..], win_newline);
    let m3u = M3U::parse(&buf).unwrap();
    assert_eq!(m3u.tracks.len(), 1);
    assert_eq!(m3u.tracks[0].path, "path/to/file1.mp3");
    assert_eq!(
        m3u.tracks[0].extinf,
        Some("#EXTINF:0,Artist1 - Title1".to_string())
    );
    let out = M3U { tracks: m3u.tracks }.to_text();
    assert_eq!(out, "#EXTM3U\n#EXTINF:0,Artist1 - Title1\npath/to/file1.mp3\n");
}

#[test]
fn windows_endings_parse_like_unix_ones() {
    let crlf = BASIC.replace('\n', "\r\n");
    let a = M3U::parse(BASIC).unwrap();
    let b = M3U::parse(&crlf).unwrap();
    assert_eq!(a, b);
    for t in &b.tracks {
        assert!(!t.path.contains('\r'));
        assert!(!t.extinf.as_ref().unwrap().contains('\r'));
    }
    assert_eq!(b.to_text(), BASIC);
}

#[test]
fn header_only_is_empty_playlist() {
    let m3u = M3U::parse("#EXTM3U\n").unwrap();
    assert_eq!(m3u.tracks.len(), 0);
    assert_eq!(m3u.to_text(), "#EXTM3U\n");
}

#[test]
fn missing_header_is_refused() {
    assert_eq!(M3U::parse("path/to/file.mp3\n"), Err(ParseError::MissingHeader));
}

#[test]
fn empty_input_is_refused() {
    assert_eq!(M3U::parse(""), Err(ParseError::MissingHeader));
    assert_eq!(M3U::from_lines(&Vec::new()), Err(ParseError::MissingHeader));
}

#[test]
fn blank_first_line_is_refused() {
    assert_eq!(M3U::parse("\n#EXTM3U\npath/a.mp3\n"), Err(ParseError::MissingHeader));
}

#[test]
fn header_is_matched_by_prefix() {
    let m3u = M3U::parse("#EXTM3U extra\npath/a.mp3\n").unwrap();
    assert_eq!(m3u.tracks.len(), 1);
    assert_eq!(m3u.to_text(), "#EXTM3U\npath/a.mp3\n");
}

#[test]
fn trailing_directive_is_dropped() {
    let m3u = M3U::parse("#EXTM3U\n#EXTINF:0,Orphan\n").unwrap();
    assert_eq!(m3u.tracks.len(), 0);
}

#[test]
fn blank_line_between_directive_and_path() {
    let m3u = M3U::parse("#EXTM3U\n#EXTINF:0,A\n\npath/a.mp3\n").unwrap();
    assert_eq!(m3u.tracks.len(), 1);
    assert_eq!(m3u.tracks[0].extinf, Some("#EXTINF:0,A".to_string()));
    assert_eq!(m3u.tracks[0].path, "path/a.mp3");
}

#[test]
fn second_of_two_directives_attaches() {
    let m3u = M3U::parse("#EXTM3U\n#EXTINF:1,First\n#EXTINF:2,Second\nb.mp3\nc.mp3\n").unwrap();
    assert_eq!(m3u.tracks.len(), 2);
    assert_eq!(m3u.tracks[0].extinf, Some("#EXTINF:2,Second".to_string()));
    assert_eq!(m3u.tracks[1].extinf, None);
    assert_eq!(m3u.tracks[1].path, "c.mp3");
}

#[test]
fn whitespace_only_lines_are_skipped() {
    let m3u = M3U::parse("#EXTM3U\n   \n\t\na.mp3\n \u{3000} \n").unwrap();
    assert_eq!(m3u.tracks.len(), 1);
    assert_eq!(m3u.tracks[0].path, "a.mp3");
    assert_eq!(m3u.tracks[0].extinf, None);
}

#[test]
fn round_trip_drops_blanks_and_normalises_endings() {
    let input = "#EXTM3U\r\n\r\n#EXTINF:5,X\r\n  \r\nx.mp3\r\ny.mp3";
    let m3u = M3U::parse(input).unwrap();
    assert_eq!(m3u.to_text(), "#EXTM3U\n#EXTINF:5,X\nx.mp3\ny.mp3\n");
}

#[test]
fn unreadable_first_line() {
    let lines = vec![Err("bad utf-8".to_string()), Ok("a.mp3".to_string())];
    assert_eq!(
        M3U::from_lines(&lines),
        Err(ParseError::UnreadableLine("bad utf-8".to_string()))
    );
}

#[test]
fn unreadable_later_line() {
    let lines = vec![
        Ok("#EXTM3U".to_string()),
        Ok("a.mp3".to_string()),
        Err("first".to_string()),
        Err("second".to_string()),
    ];
    assert_eq!(
        M3U::from_lines(&lines),
        Err(ParseError::UnreadableLine("first".to_string()))
    );
}

#[test]
fn missing_header_comes_before_unreadable_line() {
    let lines = vec![Ok("a.mp3".to_string()), Err("bad".to_string())];
    assert_eq!(M3U::from_lines(&lines), Err(ParseError::MissingHeader));
}

#[test]
fn from_lines_matches_parse() {
    let lines = ok_lines(&["#EXTM3U", "#EXTINF:0,A", "a.mp3", "", "b.mp3"]);
    let m3u = M3U::from_lines(&lines).unwrap();
    assert_eq!(m3u, M3U::parse("#EXTM3U\n#EXTINF:0,A\na.mp3\n\nb.mp3\n").unwrap());
}

#[test]
fn track_text_has_directive_line() {
    let t = Track {
        extinf: Some("#EXTINF:0,A".to_string()),
        path: "a.mp3".to_string(),
    };
    assert_eq!(t.to_text(), "#EXTINF:0,A\na.mp3");
    let u = Track {
        extinf: None,
        path: "b.mp3".to_string(),
    };
    assert_eq!(u.to_text(), "b.mp3");
}

#[test]
fn shuffle_keeps_every_track() {
    let mut text = String::from("#EXTM3U\n");
    for i in 0..50 {
        text.push_str(&format!("#EXTINF:{},T{}\nfile{}.mp3\n", i, i, i));
    }
    let original = M3U::parse(&text).unwrap();
    let mut m3u = original.clone();
    m3u.shuffle();
    assert_eq!(m3u.tracks.len(), 50);
    let mut a: Vec<String> = original.tracks.iter().map(|t| t.to_text()).collect();
    let mut b: Vec<String> = m3u.tracks.iter().map(|t| t.to_text()).collect();
    a.sort();
    b.sort();
    assert_eq!(a, b);
}

#[test]
fn shuffle_of_one_or_none_is_identity() {
    let mut empty = M3U::parse("#EXTM3U\n").unwrap();
    empty.shuffle();
    assert_eq!(empty.tracks.len(), 0);
    let mut one = M3U::parse("#EXTM3U\n#EXTINF:0,A\na.mp3\n").unwrap();
    let before = one.clone();
    one.shuffle();
    assert_eq!(one, before);
}

#[test]
fn shuffle_reaches_every_order() {
    let mut seen = std::collections::HashSet::new();
    let base = M3U::parse("#EXTM3U\na\nb\nc\n").unwrap();
    for _ in 0..600 {
        let mut m = base.clone();
        m.shuffle();
        seen.insert(m.to_text());
    }
    assert_eq!(seen.len(), 6);
}

#[test]
fn split_lines_follows_line_reading() {
    assert_eq!(split_lines(""), Vec::<String>::new());
    assert_eq!(split_lines("a"), vec!["a"]);
    assert_eq!(split_lines("a\n"), vec!["a"]);
    assert_eq!(split_lines("a\r\nb\r\n"), vec!["a", "b"]);
    assert_eq!(split_lines("a\n\nb"), vec!["a", "", "b"]);
    assert_eq!(split_lines("a\r"), vec!["a\r"]);
    assert_eq!(split_lines("a\r\r\n"), vec!["a\r"]);
}

#[test]
fn line_predicates() {
    assert!(blank(""));
    assert!(blank(" \t\u{a0}"));
    assert!(!blank(" x "));
    assert!(starts_with("#EXTINF:0,A", "#EXTINF"));
    assert!(!starts_with("#EXTIN", "#EXTINF"));
    assert!(!starts_with(" #EXTINF", "#EXTINF"));
    assert!(starts_with("abc", ""));
}
