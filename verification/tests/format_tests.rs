use pastebin::escape::html_escape;
use pastebin::sizefmt::format_size;
use pastebin::wordlist::parse_word_lines;

#[test]
fn escaping_round_trip() {
    let original = "<script>&\"'</script>";
    let escaped = html_escape(original);
    assert_eq!(escaped, "&lt;script&gt;&amp;&quot;&#39;&lt;/script&gt;");
    // The raw path serves the stored content untouched: the store hands back
    // the original bytes, and only the HTML view escapes them.
    let mut store = pastebin::store::PasteStore::new();
    let wl = pastebin::wordlist::WordList::new(vec!["w".to_string()]).expect("non-empty");
    let key = store.insert(&wl, original.to_string(), 0);
    let raw = store.get_paste(&key, 1).expect("present").content;
    assert_eq!(raw, original);
}

#[test]
fn escape_leaves_plain_text_alone() {
    assert_eq!(html_escape("hello world 123"), "hello world 123");
    assert_eq!(html_escape(""), "");
}

#[test]
fn escape_each_special_character() {
    assert_eq!(html_escape("&"), "&amp;");
    assert_eq!(html_escape("<"), "&lt;");
    assert_eq!(html_escape(">"), "&gt;");
    assert_eq!(html_escape("\""), "&quot;");
    assert_eq!(html_escape("'"), "&#39;");
    assert_eq!(html_escape("a&b<c>d\"e'f"), "a&amp;b&lt;c&gt;d&quot;e&#39;f");
}

#[test]
fn format_size_bytes() {
    assert_eq!(format_size(0), "0.0B");
    assert_eq!(format_size(1), "1.0B");
    assert_eq!(format_size(512), "512.0B");
    assert_eq!(format_size(1023), "1023.0B");
}

#[test]
fn format_size_kilobytes() {
    assert_eq!(format_size(1024), "1.0KB");
    assert_eq!(format_size(1536), "1.5KB");
    assert_eq!(format_size(10 * 1024), "10.0KB");
    assert_eq!(format_size(1048575), "1024.0KB");
}

#[test]
fn format_size_rounds_ties_to_even() {
    // 1280 bytes is exactly 1.25 KB; the kept digit 2 is even, so the tie
    // rounds down, as float formatting of the exact quotient does.
    assert_eq!(format_size(1280), "1.2KB");
    assert_eq!(format_size(2304), "2.2KB");
    // 1792 bytes is exactly 1.75 KB; 7 is odd, so the tie rounds up to 1.8.
    assert_eq!(format_size(1792), "1.8KB");
    // 2.25 MB and 1.25 GB tie in the larger units the same way.
    assert_eq!(format_size(2359296), "2.2MB");
    assert_eq!(format_size(1342177280), "1.2GB");
}

#[test]
fn format_size_megabytes() {
    assert_eq!(format_size(1048576), "1.0MB");
    assert_eq!(format_size(1048576 + 524288), "1.5MB");
    assert_eq!(format_size(3 * 1048576), "3.0MB");
}

#[test]
fn format_size_gigabytes() {
    assert_eq!(format_size(1073741824), "1.0GB");
    assert_eq!(format_size(10 * 1073741824), "10.0GB");
    assert_eq!(format_size(1073741824 + 536870912), "1.5GB");
}

#[test]
fn parse_lines_basic() {
    let words = parse_word_lines("alpha\nbeta\n");
    assert_eq!(words, vec!["alpha".to_string(), "beta".to_string()]);
}

#[test]
fn parse_lines_without_trailing_newline() {
    let words = parse_word_lines("alpha\nbeta");
    assert_eq!(words, vec!["alpha".to_string(), "beta".to_string()]);
}

#[test]
fn parse_lines_skips_empty_lines() {
    let words = parse_word_lines("\nalpha\n\n\nbeta\n\n");
    assert_eq!(words, vec!["alpha".to_string(), "beta".to_string()]);
}

#[test]
fn parse_lines_empty_text() {
    let words = parse_word_lines("");
    assert!(words.is_empty());
}

#[test]
fn parse_lines_keeps_words_verbatim() {
    let words = parse_word_lines("  padded  \nUPPER\n");
    assert_eq!(words, vec!["  padded  ".to_string(), "UPPER".to_string()]);
}

#[test]
fn parse_lines_handles_crlf_breaks() {
    let words = parse_word_lines("alpha\r\nbeta\r\n");
    assert_eq!(words, vec!["alpha".to_string(), "beta".to_string()]);
    assert!(parse_word_lines("\r\n\r\n").is_empty());
}

#[test]
fn parse_lines_keeps_carriage_returns_inside_lines() {
    // Only a carriage return that ends a line is part of the break; one in
    // the middle, or on a final line without a newline, stays in the word.
    let words = parse_word_lines("a\rb\n");
    assert_eq!(words, vec!["a\rb".to_string()]);
    let words = parse_word_lines("word\r");
    assert_eq!(words, vec!["word\r".to_string()]);
}
